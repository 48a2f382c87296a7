//! The text formats of a corpus that come in pairs (an original script and its
//! transliteration), with samples that cover the characters of the original.

use vstd::prelude::*;
use crate::corpus::Corpus;
use crate::corpus_text::text_ok;
use crate::corpus_types::{TextFormatInfo, TextFormatSample, TextRepresentationInfo};
use crate::sorting::{lemma_push_contains_pub, sorted_unique_strings, strictly_sorted_strs};
use crate::strs::{
    contains_spec, contains_str, copy_string, from_chars, owned, starts_with_spec, starts_with_str,
    str_eq, str_le, str_lt, str_lt_exec, lemma_str_lt_irrefl, sub_chars, to_chars, trim_spec, trim_str, views,
    lemma_str_le_facts,
};
use crate::value::Metadata;

verus! {

/// `s` with every occurrence of `pat` replaced by `rep`, left to right and without
/// overlaps, as `str::replace` does.
pub open spec fn replace_pat(s: Seq<char>, pat: Seq<char>, rep: Seq<char>) -> Seq<char>
    decreases s.len(),
{
    if s.len() == 0 || pat.len() == 0 {
        s
    } else if starts_with_spec(s, pat) {
        rep + replace_pat(s.skip(pat.len() as int), pat, rep)
    } else {
        seq![s[0]] + replace_pat(s.drop_first(), pat, rep)
    }
}

/// `pat` stands in `v` at position `i`.
pub(crate) fn matches_at(v: &[char], i: usize, pat: &[char]) -> (r: bool)
    requires
        i <= v.len(),
    ensures
        r == starts_with_spec(v@.skip(i as int), pat@),
{
    let n = v.len();
    if pat.len() > n - i {
        return false;
    }
    let mut k: usize = 0;
    while k < pat.len()
        invariant
            k <= pat@.len(),
            n == v@.len(),
            i <= v@.len(),
            i + pat@.len() <= v@.len(),
            forall|j: int| 0 <= j < k ==> v@[i + j] == pat@[j],
        decreases pat.len() - k,
    {
        assert(i + k < v@.len());
        if v[i + k] != pat[k] {
            proof {
                assert(v@.skip(i as int).take(pat@.len() as int)[k as int] == v@[i + k]);
            }
            return false;
        }
        k += 1;
    }
    proof {
        assert(v@.skip(i as int).take(pat@.len() as int) =~= pat@);
    }
    true
}

/// `str::replace` of a non-empty pattern.
pub fn replace_all(s: &str, pat: &str, rep: &str) -> (r: String)
    requires
        pat@.len() > 0,
    ensures
        r@ == replace_pat(s@, pat@, rep@),
{
    let v = to_chars(s);
    let p = to_chars(pat);
    let rv = to_chars(rep);
    let mut out: Vec<char> = Vec::new();
    let mut i: usize = 0;
    proof {
        assert(v@.skip(0) =~= v@);
    }
    while i < v.len()
        invariant
            i <= v@.len(),
            p@.len() > 0,
            out@ + replace_pat(v@.skip(i as int), p@, rv@) == replace_pat(v@, p@, rv@),
        decreases v.len() - i,
    {
        let ghost o0 = out@;
        let ghost rest = v@.skip(i as int);
        if matches_at(v.as_slice(), i, p.as_slice()) {
            let mut j: usize = 0;
            while j < rv.len()
                invariant
                    j <= rv@.len(),
                    out@ == o0 + rv@.take(j as int),
                decreases rv.len() - j,
            {
                proof {
                    assert(rv@.take(j + 1) =~= rv@.take(j as int).push(rv@[j as int]));
                }
                out.push(rv[j]);
                j += 1;
            }
            proof {
                assert(rv@.take(rv@.len() as int) =~= rv@);
                assert(rest.skip(p@.len() as int) =~= v@.skip(i + p@.len()));
                assert(o0 + (rv@ + replace_pat(v@.skip(i + p@.len()), p@, rv@)) =~= out@ + replace_pat(
                    v@.skip(i + p@.len()),
                    p@,
                    rv@,
                ));
            }
            i += p.len();
        } else {
            out.push(v[i]);
            proof {
                assert(rest.drop_first() =~= v@.skip(i + 1));
                assert(rest[0] == v@[i as int]);
                assert(o0 + (seq![rest[0]] + replace_pat(v@.skip(i + 1), p@, rv@)) =~= out@ + replace_pat(
                    v@.skip(i + 1),
                    p@,
                    rv@,
                ));
            }
            i += 1;
        }
    }
    proof {
        assert(v@.skip(i as int) =~= Seq::<char>::empty());
        assert(out@ + Seq::<char>::empty() =~= out@);
    }
    from_chars(out.as_slice())
}

/// The format name of an `otext` key: what follows the prefix `fmt:`.
pub open spec fn fmt_name(k: Seq<char>) -> Option<Seq<char>> {
    if starts_with_spec(k, "fmt:"@) {
        Some(k.skip(4))
    } else {
        None
    }
}

/// Entry `i` of `m` declares a format with a template: an original one (`orig`) whose
/// name holds `-orig-`, or else a transliteration whose name holds `-trans-`, with base
/// name `b` (that part replaced by `-`).
#[verifier::opaque]
pub open spec fn fmt_entry(m: Seq<(String, Option<String>)>, i: int, orig: bool, b: Seq<char>) -> bool {
    &&& 0 <= i < m.len()
    &&& m[i].1 is Some
    &&& match fmt_name(m[i].0@) {
        Some(n) => if orig {
            contains_spec(n, "-orig-"@) && replace_pat(n, "-orig-"@, "-"@) == b
        } else {
            !contains_spec(n, "-orig-"@) && contains_spec(n, "-trans-"@) && replace_pat(n, "-trans-"@, "-"@) == b
        },
        None => false,
    }
}

/// Entry `i` is the one that counts for base name `b`: of the entries for `b`, the one
/// with the greatest key (the first of equal keys).
pub open spec fn fmt_best(m: Seq<(String, Option<String>)>, i: int, orig: bool, b: Seq<char>) -> bool {
    &&& fmt_entry(m, i, orig, b)
    &&& forall|j: int| #[trigger]
        fmt_entry(m, j, orig, b) ==> str_le(m[j].0@, m[i].0@) && (m[j].0@ == m[i].0@ ==> i <= j)
}

/// Base name `b` has both an original and a transliterated format in `m`.
pub open spec fn fmt_paired(m: Seq<(String, Option<String>)>, b: Seq<char>) -> bool {
    (exists|i: int| #[trigger] fmt_entry(m, i, true, b)) && (exists|j: int| #[trigger] fmt_entry(m, j, false, b))
}

/// The pair `p` (base name, original name, transliteration name, original template,
/// transliteration template) is the one that `m` gives for its base name.
#[verifier::opaque]
pub open spec fn fmt_pair_ok(m: Seq<(String, Option<String>)>, p: (Seq<char>, Seq<char>, Seq<char>, Seq<char>, Seq<char>)) -> bool {
    exists|i: int, j: int|
        #[trigger] fmt_best(m, i, true, p.0) && #[trigger] fmt_best(m, j, false, p.0) && p.1 == m[i].0@.skip(4)
            && p.2 == m[j].0@.skip(4) && p.3 == m[i].1->0@ && p.4 == m[j].1->0@
}

/// The views of a list of format pairs.
pub open spec fn pair5_views(v: Seq<(String, String, String, String, String)>) -> Seq<(Seq<char>, Seq<char>, Seq<char>, Seq<char>, Seq<char>)> {
    v.map_values(|p: (String, String, String, String, String)| (p.0@, p.1@, p.2@, p.3@, p.4@))
}

/// `ps` holds the format pairs of `m`: one per paired base name, ascending by base name.
pub open spec fn fmt_pairs_ok(m: Seq<(String, Option<String>)>, ps: Seq<(Seq<char>, Seq<char>, Seq<char>, Seq<char>, Seq<char>)>) -> bool {
    &&& forall|a: int, c: int| 0 <= a < c < ps.len() ==> str_lt(ps[a].0, ps[c].0)
    &&& forall|a: int| 0 <= a < ps.len() ==> fmt_pair_ok(m, #[trigger] ps[a])
    &&& forall|b: Seq<char>| #[trigger] fmt_paired(m, b) ==> exists|a: int| 0 <= a < ps.len() && ps[a].0 == b
}

/// Whether entry `i` of `m` is a format of the kind `orig` with base name `b`.
fn fmt_entry_exec(m: &Metadata, i: usize, orig: bool, b: &str) -> (r: bool)
    requires
        i < m@.len(),
    ensures
        r == fmt_entry(m@, i as int, orig, b@),
{
    reveal(fmt_entry);
    match fmt_base(m, i, orig) {
        Some(x) => str_eq(x.as_str(), b),
        None => false,
    }
}

/// The base name of entry `i` of `m` when it is a format of the kind `orig`.
fn fmt_base(m: &Metadata, i: usize, orig: bool) -> (r: Option<String>)
    requires
        i < m@.len(),
    ensures
        match r {
            Some(x) => fmt_entry(m@, i as int, orig, x@),
            None => forall|b: Seq<char>| !fmt_entry(m@, i as int, orig, b),
        },
{
    reveal(fmt_entry);
    let key = m[i].0.as_str();
    if m[i].1.is_none() || !starts_with_str(key, "fmt:") {
        return None;
    }
    let kv = to_chars(key);
    proof {
        reveal_strlit("fmt:");
    }
    let nv = sub_chars(kv.as_slice(), 4, kv.len());
    let name = from_chars(nv.as_slice());
    proof {
        assert(name@ =~= key@.skip(4));
    }
    let has_orig = contains_str(name.as_str(), "-orig-");
    proof {
        reveal_strlit("-orig-");
        reveal_strlit("-trans-");
    }
    if orig {
        if has_orig {
            Some(replace_all(name.as_str(), "-orig-", "-"))
        } else {
            None
        }
    } else {
        if !has_orig && contains_str(name.as_str(), "-trans-") {
            Some(replace_all(name.as_str(), "-trans-", "-"))
        } else {
            None
        }
    }
}

/// The entry that counts for base name `b`, if any.
fn best_fmt(m: &Metadata, orig: bool, b: &str) -> (r: Option<usize>)
    ensures
        match r {
            Some(i) => fmt_best(m@, i as int, orig, b@),
            None => forall|j: int| !#[trigger] fmt_entry(m@, j, orig, b@),
        },
{
    reveal(fmt_entry);
    let mut best: Option<usize> = None;
    let mut i: usize = 0;
    while i < m.len()
        invariant
            i <= m@.len(),
            match best {
                Some(k) => k < i && fmt_entry(m@, k as int, orig, b@) && forall|j: int|
                    0 <= j < i && #[trigger] fmt_entry(m@, j, orig, b@) ==> str_le(m@[j].0@, m@[k as int].0@)
                        && (m@[j].0@ == m@[k as int].0@ ==> k <= j),
                None => forall|j: int| 0 <= j < i ==> !#[trigger] fmt_entry(m@, j, orig, b@),
            },
        decreases m.len() - i,
    {
        if fmt_entry_exec(m, i, orig, b) {
            match best {
                Some(k) => {
                    let later = str_lt_exec(m[k].0.as_str(), m[i].0.as_str());
                    proof {
                        let nk = m@[k as int].0@;
                        let ni = m@[i as int].0@;
                        lemma_str_le_facts(nk, ni, nk);
                        assert forall|j: int|
                            0 <= j < i + 1 && #[trigger] fmt_entry(m@, j, orig, b@) implies str_le(
                            m@[j].0@,
                            if later { ni } else { nk },
                        ) && (m@[j].0@ == (if later { ni } else { nk }) ==> (if later { i as int } else { k as int }) <= j) by {
                            lemma_str_le_facts(m@[j].0@, nk, ni);
                            lemma_str_lt_irrefl(nk);
                            if j == i {
                                lemma_str_le_facts(ni, nk, ni);
                            }
                            if later && j < i && m@[j].0@ == ni {
                                lemma_str_le_facts(ni, nk, ni);
                            }
                        }
                    }
                    if later {
                        best = Some(i);
                    }
                },
                None => {
                    best = Some(i);
                },
            }
        }
        i += 1;
    }
    best
}

/// The format pair of base name `b`, where it has one.
fn fmt_pair_for(m: &Metadata, base: &str) -> (r: Option<(String, String, String, String, String)>)
    ensures
        match r {
            Some(p) => p.0@ == base@ && fmt_pair_ok(m@, (p.0@, p.1@, p.2@, p.3@, p.4@)),
            None => !fmt_paired(m@, base@),
        },
{
    reveal(fmt_entry);
    let oi = best_fmt(m, true, base);
    let ti = best_fmt(m, false, base);
    match (oi, ti) {
        (Some(a), Some(b)) => {
            let on = to_chars(m[a].0.as_str());
            let tn = to_chars(m[b].0.as_str());
            let os = match &m[a].1 {
                Some(s) => copy_string(s),
                None => String::new(),
            };
            let ts = match &m[b].1 {
                Some(s) => copy_string(s),
                None => String::new(),
            };
            proof {
                reveal(fmt_entry);
                reveal(fmt_pair_ok);
                reveal_strlit("fmt:");
                assert(fmt_entry(m@, a as int, true, base@));
                assert(on@.len() >= 4);
                assert(tn@.len() >= 4);
            }
            let onv = sub_chars(on.as_slice(), 4, on.len());
            let tnv = sub_chars(tn.as_slice(), 4, tn.len());
            let entry = (owned(base), from_chars(onv.as_slice()), from_chars(tnv.as_slice()), os, ts);
            proof {
                assert(onv@ =~= m@[a as int].0@.skip(4));
                assert(tnv@ =~= m@[b as int].0@.skip(4));
                assert(fmt_best(m@, a as int, true, entry.0@));
                assert(fmt_best(m@, b as int, false, entry.0@));
                assert(entry.1@ == m@[a as int].0@.skip(4));
                assert(entry.2@ == m@[b as int].0@.skip(4));
                assert(entry.3@ == m@[a as int].1->0@);
                assert(entry.4@ == m@[b as int].1->0@);
                let pv = (entry.0@, entry.1@, entry.2@, entry.3@, entry.4@);
                assert(fmt_best(m@, a as int, true, pv.0) && fmt_best(m@, b as int, false, pv.0) && pv.1 == m@[a as int].0@.skip(4)
                    && pv.2 == m@[b as int].0@.skip(4) && pv.3 == m@[a as int].1->0@ && pv.4 == m@[b as int].1->0@);
                assert(fmt_pair_ok(m@, pv));
            }
            Some(entry)
        },
        _ => {
            proof {
                if oi is None {
                    assert(forall|j: int| !#[trigger] fmt_entry(m@, j, true, base@));
                } else {
                    assert(forall|j: int| !#[trigger] fmt_entry(m@, j, false, base@));
                }
            }
            None
        },
    }
}

impl Corpus {
    /// The entries of the `otext` configuration (none without it).
    pub open spec fn otext_meta(&self) -> Seq<(String, Option<String>)> {
        match self.cfg("otext"@) {
            Some(m) => m@,
            None => seq![],
        }
    }

    /// The pairs of an original and a transliterated text format, ascending by base name.
    #[verifier::rlimit(60)]
    pub fn text_format_pairs(&self) -> (r: Vec<(String, String, String, String, String)>)
        ensures
            fmt_pairs_ok(self.otext_meta(), pair5_views(r@)),
    {
        let empty: Metadata = Vec::new();
        let m: &Metadata = match self.config_feature("otext") {
            Some(m) => m,
            None => &empty,
        };
        proof {
            assert(m@ == self.otext_meta());
        }
        let mut bases: Vec<String> = Vec::new();
        let mut i: usize = 0;
        while i < m.len()
            invariant
                i <= m@.len(),
                forall|x: Seq<char>|
                    views(bases@).contains(x) <==> exists|j: int| 0 <= j < i && #[trigger] fmt_entry(m@, j, true, x),
            decreases m.len() - i,
        {
            let ghost b0 = bases@;
            let got = fmt_base(m, i, true);
            match got {
                Some(x) => {
                    let ghost xv = x@;
                    bases.push(x);
                    proof {
                        assert(views(bases@) =~= views(b0).push(xv));
                    }
                },
                None => {},
            }
            proof {
                assert forall|x: Seq<char>|
                    views(bases@).contains(x) <==> exists|j: int| 0 <= j < i + 1 && #[trigger] fmt_entry(m@, j, true, x) by {
                    reveal(fmt_entry);
                    if views(bases@) != views(b0) {
                        lemma_push_contains_pub(views(b0), views(bases@).last(), x);
                    }
                    if exists|j: int| 0 <= j < i + 1 && #[trigger] fmt_entry(m@, j, true, x) {
                        let j = choose|j: int| 0 <= j < i + 1 && #[trigger] fmt_entry(m@, j, true, x);
                        if j < i {
                            assert(views(b0).contains(x));
                        }
                    }
                }
            }
            i += 1;
        }
        proof {
            reveal(fmt_entry);
            assert forall|x: Seq<char>, j: int| #[trigger] fmt_entry(m@, j, true, x) implies 0 <= j < m@.len() by {}
        }
        let uniq = sorted_unique_strings(bases);
        let mut r: Vec<(String, String, String, String, String)> = Vec::new();
        let mut k: usize = 0;
        while k < uniq.len()
            invariant
                k <= uniq@.len(),
                m@ == self.otext_meta(),
                strictly_sorted_strs(views(uniq@)),
                forall|x: Seq<char>|
                    views(uniq@).contains(x) <==> exists|j: int| #[trigger] fmt_entry(m@, j, true, x),
                forall|a: int| 0 <= a < r@.len() ==> exists|b: int| 0 <= b < k && views(uniq@)[b] == (#[trigger] r@[a]).0@,
                forall|a: int, c: int| 0 <= a < c < r@.len() ==> str_lt(r@[a].0@, r@[c].0@),
                forall|a: int| 0 <= a < r@.len() ==> fmt_pair_ok(m@, #[trigger] pair5_views(r@)[a]),
                forall|b: int|
                    0 <= b < k && fmt_paired(m@, #[trigger] views(uniq@)[b]) ==> exists|a: int|
                        0 <= a < r@.len() && r@[a].0@ == views(uniq@)[b],
            decreases uniq.len() - k,
        {
            let base = uniq[k].as_str();
            proof {
                assert(views(uniq@)[k as int] == base@);
                assert(views(uniq@).contains(base@));
            }
            let got = fmt_pair_for(m, base);
            match got {
                Some(entry) => {
                    let ghost r0 = r@;
                    proof {
                        assert forall|x: int| 0 <= x < r0.len() implies str_lt(r0[x].0@, base@) by {
                            let y = choose|y: int| 0 <= y < k && views(uniq@)[y] == r0[x].0@;
                        }
                    }
                    r.push(entry);
                    proof {
                        assert(r@[r0.len() as int].0@ == base@);
                        assert forall|x: int| 0 <= x < r@.len() implies exists|y: int|
                            0 <= y < k + 1 && views(uniq@)[y] == (#[trigger] r@[x]).0@ by {
                            if x < r0.len() {
                                assert(r@[x] == r0[x]);
                                let y = choose|y: int| 0 <= y < k && views(uniq@)[y] == r0[x].0@;
                            } else {
                                assert(views(uniq@)[k as int] == r@[x].0@);
                            }
                        }
                        assert forall|x: int| 0 <= x < r@.len() implies fmt_pair_ok(m@, #[trigger] pair5_views(r@)[x]) by {
                            if x < r0.len() {
                                assert(r@[x] == r0[x]);
                                assert(pair5_views(r@)[x] == pair5_views(r0)[x]);
                            }
                        }
                        assert forall|y: int|
                            0 <= y < k + 1 && fmt_paired(m@, #[trigger] views(uniq@)[y]) implies exists|x: int|
                                0 <= x < r@.len() && r@[x].0@ == views(uniq@)[y] by {
                            if y < k {
                                let x = choose|x: int| 0 <= x < r0.len() && r0[x].0@ == views(uniq@)[y];
                                assert(r@[x] == r0[x]);
                            } else {
                                assert(r@[r0.len() as int].0@ == views(uniq@)[y]);
                            }
                        }
                    }
                },
                None => {},
            }
            k += 1;
        }
        proof {
            let ps = pair5_views(r@);
            assert forall|a: int, c: int| 0 <= a < c < ps.len() implies str_lt(ps[a].0, ps[c].0) by {
                assert(ps[a].0 == r@[a].0@ && ps[c].0 == r@[c].0@);
            }
            assert forall|b: Seq<char>| #[trigger] fmt_paired(m@, b) implies exists|a: int| 0 <= a < ps.len() && ps[a].0 == b by {
                let j = choose|j: int| #[trigger] fmt_entry(m@, j, true, b);
                assert(views(uniq@).contains(b));
                let y = choose|y: int| 0 <= y < views(uniq@).len() && views(uniq@)[y] == b;
                assert(fmt_paired(m@, views(uniq@)[y]));
                let x = choose|x: int| 0 <= x < r@.len() && r@[x].0@ == views(uniq@)[y];
                assert(ps[x].0 == b);
            }
        }
        r
    }
}

/// `cov` with the characters of `o` that it lacks added, in the order of their first
/// occurrence.
pub open spec fn add_new_chars(cov: Seq<char>, o: Seq<char>) -> Seq<char>
    decreases o.len(),
{
    if o.len() == 0 {
        cov
    } else {
        let c = add_new_chars(cov, o.drop_last());
        if c.contains(o.last()) {
            c
        } else {
            c.push(o.last())
        }
    }
}

/// Some sample has original text `o`.
pub open spec fn has_original(samples: Seq<(Seq<char>, Seq<char>)>, o: Seq<char>) -> bool {
    exists|k: int| 0 <= k < samples.len() && (#[trigger] samples[k]).0 == o
}

/// Every character of `o` is in `cov`.
pub open spec fn all_covered(cov: Seq<char>, o: Seq<char>) -> bool {
    forall|i: int| 0 <= i < o.len() ==> cov.contains(#[trigger] o[i])
}

/// One slot of the sampling: its texts (trimmed) become a sample when the original is
/// not empty, not sampled before and brings a character not yet covered, and the
/// transliteration is not empty.
pub open spec fn sample_step(
    st: (Seq<(Seq<char>, Seq<char>)>, Seq<char>),
    orig: Seq<char>,
    trans: Seq<char>,
) -> (Seq<(Seq<char>, Seq<char>)>, Seq<char>) {
    let o = trim_spec(orig);
    let t = trim_spec(trans);
    if o.len() == 0 || has_original(st.0, o) || all_covered(st.1, o) || t.len() == 0 {
        st
    } else {
        (st.0.push((o, t)), add_new_chars(st.1, o))
    }
}

/// The samples and the covered characters after the slots with texts `texts`.
pub open spec fn sample_run(texts: Seq<(Seq<char>, Seq<char>)>) -> (Seq<(Seq<char>, Seq<char>)>, Seq<char>)
    decreases texts.len(),
{
    if texts.len() == 0 {
        (seq![], seq![])
    } else {
        sample_step(sample_run(texts.drop_last()), texts.last().0, texts.last().1)
    }
}

/// The texts of a list of samples.
pub open spec fn sample_pairs(s: Seq<TextFormatSample>) -> Seq<(Seq<char>, Seq<char>)> {
    s.map_values(|x: TextFormatSample| (x.original@, x.transliterated@))
}

/// Whether `c` is in `v`.
fn has_char(v: &Vec<char>, c: char) -> (r: bool)
    ensures
        r == v@.contains(c),
{
    let mut i: usize = 0;
    while i < v.len()
        invariant
            i <= v@.len(),
            forall|j: int| 0 <= j < i ==> v@[j] != c,
        decreases v.len() - i,
    {
        if v[i] == c {
            return true;
        }
        i += 1;
    }
    false
}

/// Whether every character of `o` is in `cov`.
fn all_covered_exec(cov: &Vec<char>, o: &[char]) -> (r: bool)
    ensures
        r == all_covered(cov@, o@),
{
    let mut i: usize = 0;
    while i < o.len()
        invariant
            i <= o@.len(),
            forall|j: int| 0 <= j < i ==> cov@.contains(#[trigger] o@[j]),
        decreases o.len() - i,
    {
        if !has_char(cov, o[i]) {
            return false;
        }
        i += 1;
    }
    true
}

/// Adds the characters of `o` that `cov` lacks.
fn add_new_chars_exec(cov: &mut Vec<char>, o: &[char])
    ensures
        final(cov)@ == add_new_chars(old(cov)@, o@),
{
    let ghost c0 = cov@;
    let mut i: usize = 0;
    while i < o.len()
        invariant
            i <= o@.len(),
            cov@ == add_new_chars(c0, o@.take(i as int)),
        decreases o.len() - i,
    {
        proof {
            assert(o@.take(i + 1).drop_last() =~= o@.take(i as int));
            assert(o@.take(i + 1).last() == o@[i as int]);
        }
        if !has_char(cov, o[i]) {
            cov.push(o[i]);
        }
        i += 1;
    }
    proof {
        assert(o@.take(o@.len() as int) =~= o@);
    }
}

/// Whether some sample has original text `o`.
fn has_original_exec(samples: &Vec<TextFormatSample>, o: &str) -> (r: bool)
    ensures
        r == has_original(sample_pairs(samples@), o@),
{
    let mut i: usize = 0;
    while i < samples.len()
        invariant
            i <= samples@.len(),
            forall|j: int| 0 <= j < i ==> (#[trigger] samples@[j]).original@ != o@,
        decreases samples.len() - i,
    {
        if str_eq(samples[i].original.as_str(), o) {
            proof {
                assert(sample_pairs(samples@)[i as int].0 == o@);
            }
            return true;
        }
        i += 1;
    }
    proof {
        assert forall|k: int| 0 <= k < sample_pairs(samples@).len() implies (#[trigger] sample_pairs(samples@)[k]).0 != o@ by {
            assert(sample_pairs(samples@)[k].0 == samples@[k].original@);
        }
    }
    false
}

impl Corpus {
    /// `texts` holds, slot by slot, the text of the slot in format `on` and in format `tn`.
    pub open spec fn slot_texts(&self, on: Seq<char>, tn: Seq<char>, texts: Seq<(Seq<char>, Seq<char>)>) -> bool {
        &&& texts.len() == self.max_slot
        &&& forall|k: int|
            0 <= k < texts.len() ==> text_ok(*self, (k + 1) as u32, Some(on), None, (#[trigger] texts[k]).0)
                && text_ok(*self, (k + 1) as u32, Some(tn), None, texts[k].1)
    }

    /// Samples of the formats `on` (original) and `tn` (transliteration) that cover the
    /// characters of the original, with the number of characters covered.
    pub fn text_format_samples(&self, on: &str, tn: &str) -> (r: (Vec<TextFormatSample>, usize))
        ensures
            exists|texts: Seq<(Seq<char>, Seq<char>)>|
                self.slot_texts(on@, tn@, texts) && sample_pairs(r.0@) == sample_run(texts).0 && r.1
                    == sample_run(texts).1.len(),
    {
        let mut samples: Vec<TextFormatSample> = Vec::new();
        let mut covered: Vec<char> = Vec::new();
        let ghost mut texts: Seq<(Seq<char>, Seq<char>)> = seq![];
        let mut k: u32 = 0;
        while k < self.max_slot
            invariant
                k <= self.max_slot,
                texts.len() == k,
                forall|j: int|
                    0 <= j < k ==> text_ok(*self, (j + 1) as u32, Some(on@), None, (#[trigger] texts[j]).0)
                        && text_ok(*self, (j + 1) as u32, Some(tn@), None, texts[j].1),
                sample_pairs(samples@) == sample_run(texts).0,
                covered@ == sample_run(texts).1,
            decreases self.max_slot - k,
        {
            let node = k + 1;
            let o_raw = self.text(node, Some(on));
            let t_raw = self.text(node, Some(tn));
            let ghost t0 = texts;
            proof {
                texts = texts.push((o_raw@, t_raw@));
                assert(texts.drop_last() =~= t0);
            }
            let o = trim_str(o_raw.as_str());
            let t = trim_str(t_raw.as_str());
            let ov = to_chars(o.as_str());
            let tv = to_chars(t.as_str());
            if ov.len() > 0 && !has_original_exec(&samples, o.as_str()) && !all_covered_exec(&covered, ov.as_slice())
                && tv.len() > 0 {
                add_new_chars_exec(&mut covered, ov.as_slice());
                let ghost s0 = samples@;
                samples.push(TextFormatSample { original: o, transliterated: t });
                proof {
                    assert(sample_pairs(samples@) =~= sample_pairs(s0).push((ov@, tv@)));
                }
            }
            k += 1;
        }
        proof {
            assert(self.slot_texts(on@, tn@, texts));
        }
        (samples, covered.len())
    }
}

/// The description given when the corpus has no pair of text formats.
pub open spec fn no_pairs_text() -> Seq<char> {
    "No text format metadata available or no orig/trans pairs defined"@
}

/// The description given with the text formats of a corpus.
pub open spec fn formats_text() -> Seq<char> {
    "Shows how text values are encoded in this corpus. Samples provide exhaustive character coverage for understanding the relationship between original script and transliterated forms."@
}

/// The present values, in order.
pub open spec fn somes(v: Seq<Option<TextFormatInfo>>) -> Seq<TextFormatInfo>
    decreases v.len(),
{
    if v.len() == 0 {
        seq![]
    } else {
        match v.last() {
            Some(x) => somes(v.drop_last()).push(x),
            None => somes(v.drop_last()),
        }
    }
}

impl Corpus {
    /// `info` is what the format pair `p` contributes: nothing where its sampling finds no
    /// sample, else the pair's names and templates with the samples and their counts.
    pub open spec fn format_info_ok(
        &self,
        p: (Seq<char>, Seq<char>, Seq<char>, Seq<char>, Seq<char>),
        info: Option<TextFormatInfo>,
    ) -> bool {
        exists|texts: Seq<(Seq<char>, Seq<char>)>|
            #[trigger] self.slot_texts(p.1, p.2, texts) && if sample_run(texts).0.len() == 0 {
                info is None
            } else {
                &&& info is Some
                &&& info->0.name@ == p.0
                &&& info->0.original_spec@ == p.3
                &&& info->0.transliteration_spec@ == p.4
                &&& sample_pairs(info->0.samples@) == sample_run(texts).0
                &&& info->0.unique_characters == sample_run(texts).1.len()
                &&& info->0.total_samples == sample_run(texts).0.len()
            }
    }

    /// `r` describes the text formats of the corpus, whose format pairs are `ps` and
    /// contribute `infos`: the formats that have samples, or a note that there are no
    /// pairs.
    pub open spec fn representations_ok(
        &self,
        ps: Seq<(Seq<char>, Seq<char>, Seq<char>, Seq<char>, Seq<char>)>,
        infos: Seq<Option<TextFormatInfo>>,
        r: TextRepresentationInfo,
    ) -> bool {
        &&& fmt_pairs_ok(self.otext_meta(), ps)
        &&& infos.len() == ps.len()
        &&& forall|k: int| 0 <= k < ps.len() ==> self.format_info_ok(ps[k], #[trigger] infos[k])
        &&& ps.len() == 0 ==> r.description@ == no_pairs_text() && r.formats@.len() == 0
        &&& ps.len() > 0 ==> r.description@ == formats_text() && r.formats@ == somes(infos)
    }

    /// How text is encoded in the corpus: per pair of an original and a transliterated
    /// format, samples whose originals together cover every character the original
    /// format shows.
    pub fn text_representations(&self) -> (r: TextRepresentationInfo)
        ensures
            exists|ps: Seq<(Seq<char>, Seq<char>, Seq<char>, Seq<char>, Seq<char>)>, infos: Seq<Option<TextFormatInfo>>|
                #[trigger] self.representations_ok(ps, infos, r),
    {
        let pairs = self.text_format_pairs();
        let ghost ps = pair5_views(pairs@);
        if pairs.len() == 0 {
            let d = owned("No text format metadata available or no orig/trans pairs defined");
            let r = TextRepresentationInfo { description: d, formats: Vec::new() };
            proof {
                let infos: Seq<Option<TextFormatInfo>> = seq![];
                assert(self.representations_ok(ps, infos, r));
            }
            return r;
        }
        let mut formats: Vec<TextFormatInfo> = Vec::new();
        let ghost mut infos: Seq<Option<TextFormatInfo>> = seq![];
        let mut i: usize = 0;
        while i < pairs.len()
            invariant
                i <= pairs@.len(),
                ps == pair5_views(pairs@),
                infos.len() == i,
                forall|k: int| 0 <= k < i ==> self.format_info_ok(ps[k], #[trigger] infos[k]),
                formats@ == somes(infos),
            decreases pairs.len() - i,
        {
            let (samples, unique) = self.text_format_samples(pairs[i].1.as_str(), pairs[i].2.as_str());
            let ghost texts = choose|texts: Seq<(Seq<char>, Seq<char>)>|
                self.slot_texts(pairs@[i as int].1@, pairs@[i as int].2@, texts) && sample_pairs(samples@)
                    == sample_run(texts).0 && unique == sample_run(texts).1.len();
            let ghost i0 = infos;
            proof {
                assert(ps[i as int] == (pairs@[i as int].0@, pairs@[i as int].1@, pairs@[i as int].2@, pairs@[i as int].3@, pairs@[i as int].4@));
                assert(self.slot_texts(ps[i as int].1, ps[i as int].2, texts));
                assert(sample_pairs(samples@).len() == samples@.len());
            }
            if samples.len() > 0 {
                let total = samples.len();
                let info = TextFormatInfo {
                    name: copy_string(&pairs[i].0),
                    original_spec: copy_string(&pairs[i].3),
                    transliteration_spec: copy_string(&pairs[i].4),
                    samples,
                    unique_characters: unique,
                    total_samples: total,
                };
                proof {
                    infos = infos.push(Some(info));
                    assert(infos.drop_last() =~= i0);
                    assert(self.format_info_ok(ps[i as int], infos[i as int]));
                }
                formats.push(info);
            } else {
                proof {
                    infos = infos.push(None);
                    assert(infos.drop_last() =~= i0);
                    assert(self.format_info_ok(ps[i as int], infos[i as int]));
                }
            }
            proof {
                assert forall|k: int| 0 <= k < i + 1 implies self.format_info_ok(ps[k], #[trigger] infos[k]) by {
                    if k < i {
                        assert(infos[k] == i0[k]);
                    }
                }
            }
            i += 1;
        }
        let d = owned(
            "Shows how text values are encoded in this corpus. Samples provide exhaustive character coverage for understanding the relationship between original script and transliterated forms.",
        );
        let r = TextRepresentationInfo { description: d, formats };
        proof {
            assert(self.representations_ok(ps, infos, r));
        }
        r
    }
}

} // verus!

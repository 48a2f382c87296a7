//! Node sets written as range specifications such as `1-3,7,9-10`.
//!
//! A set of nodes is held as a strictly ascending list, which is the order in
//! which an ordered set hands out its members.

use vstd::prelude::*;
use crate::error::{CfError, CfErrorView};
use crate::sorting::{lemma_push_contains_pub, sort_dedup, strictly_sorted_u32};
use crate::strs::{
    dec_nat, join_spec, owned, parse_u32, parse_u32_spec, split_spec, split_str, u64_to_string,
    views, join_strings,
};

verus! {

broadcast use vstd::string::group_string_axioms;

/// One part of a specification: a number or two numbers joined by `-`, read as
/// the closed range between them whatever their order.
pub open spec fn part_bounds(p: Seq<char>) -> Option<(u32, u32)> {
    let b = split_spec(p, '-');
    if b.len() == 1 {
        match parse_u32_spec(b[0]) {
            Some(v) => Some((v, v)),
            None => None,
        }
    } else if b.len() == 2 {
        match (parse_u32_spec(b[0]), parse_u32_spec(b[1])) {
            (Some(x), Some(y)) => if y < x {
                Some((y, x))
            } else {
                Some((x, y))
            },
            _ => None,
        }
    } else {
        None
    }
}

/// Every comma-separated part of `s` is a number or a range.
pub open spec fn spec_valid(s: Seq<char>) -> bool {
    forall|i: int| 0 <= i < split_spec(s, ',').len() ==> (#[trigger] part_bounds(split_spec(s, ',')[i])) is Some
}

pub open spec fn in_part(p: Seq<char>, n: u32) -> bool {
    match part_bounds(p) {
        Some(b) => b.0 <= n <= b.1,
        None => false,
    }
}

/// `n` lies in one of the ranges that `s` names.
pub open spec fn in_spec(s: Seq<char>, n: u32) -> bool {
    exists|i: int| 0 <= i < split_spec(s, ',').len() && #[trigger] in_part(split_spec(s, ',')[i], n)
}

fn part_range(part: &str) -> (r: Option<(u32, u32)>)
    ensures
        r == part_bounds(part@),
{
    let bounds = split_str(part, '-');
    proof {
        assert(views(bounds@).len() == bounds@.len());
    }
    if bounds.len() == 1 {
        proof {
            assert(views(bounds@)[0] == bounds@[0]@);
        }
        match parse_u32(bounds[0].as_str()) {
            Some(v) => Some((v, v)),
            None => None,
        }
    } else if bounds.len() == 2 {
        proof {
            assert(views(bounds@)[0] == bounds@[0]@);
            assert(views(bounds@)[1] == bounds@[1]@);
        }
        let a = parse_u32(bounds[0].as_str());
        let b = parse_u32(bounds[1].as_str());
        match (a, b) {
            (Some(x), Some(y)) => if y < x {
                Some((y, x))
            } else {
                Some((x, y))
            },
            _ => None,
        }
    } else {
        None
    }
}

/// The set of nodes that a range specification names, ascending; an invalid
/// part makes the whole specification invalid.
pub fn set_from_spec(spec: &str) -> (r: Result<Vec<u32>, CfError>)
    ensures
        match r {
            Ok(v) => {
                &&& spec_valid(spec@)
                &&& strictly_sorted_u32(v@)
                &&& forall|n: u32| v@.contains(n) <==> in_spec(spec@, n)
            },
            Err(e) => !spec_valid(spec@) && e@ == CfErrorView::InvalidSpec(spec@),
        },
{
    let parts = split_str(spec, ',');
    let ghost ps = split_spec(spec@, ',');
    let mut all: Vec<u32> = Vec::new();
    let mut i: usize = 0;
    while i < parts.len()
        invariant
            0 <= i <= parts.len(),
            views(parts@) == ps,
            ps == split_spec(spec@, ','),
            forall|j: int| 0 <= j < i ==> (#[trigger] part_bounds(ps[j])) is Some,
            forall|n: u32| all@.contains(n) <==> exists|j: int| 0 <= j < i && #[trigger] in_part(ps[j], n),
        decreases parts.len() - i,
    {
        proof {
            assert(ps[i as int] == parts@[i as int]@);
        }
        let b = part_range(parts[i].as_str());
        match b {
            None => {
                return Err(CfError::InvalidSpec(owned(spec)));
            },
            Some((lo, hi)) => {
                let ghost all0 = all@;
                assert(forall|n: u32| all0.contains(n) <==> exists|j: int| 0 <= j < i && #[trigger] in_part(ps[j], n));
                assert(part_bounds(ps[i as int]) == Some((lo, hi)));
                let mut k: u64 = lo as u64;
                while k <= hi as u64
                    invariant
                        lo <= k <= hi as u64 + 1,
                        lo <= hi,
                        forall|n: u32| #[trigger] all@.contains(n) <==> (all0.contains(n) || (lo <= n && (n as u64) < k)),
                    decreases hi as u64 + 1 - k,
                {
                    let ghost before = all@;
                    all.push(k as u32);
                    proof {
                        assert forall|n: u32| #[trigger] all@.contains(n) <==> (all0.contains(n) || (lo <= n && (n as u64) < k + 1)) by {
                            lemma_push_contains_pub(before, k as u32, n);
                        }
                    }
                    k += 1;
                }
                proof {
                    assert(k == hi as u64 + 1);
                    assert forall|n: u32| all@.contains(n) <==> (all0.contains(n) || (lo <= n && n <= hi)) by {
                        assert(all@.contains(n) <==> (all0.contains(n) || (lo <= n && (n as u64) < k)));
                    }
                    assert forall|n: u32| #[trigger] in_part(ps[i as int], n) == (lo <= n <= hi) by {
                        assert(part_bounds(ps[i as int]) == Some((lo, hi)));
                    }
                    assert forall|n: u32| all@.contains(n) <==> exists|j: int| 0 <= j < i + 1 && #[trigger] in_part(ps[j], n) by {
                        assert(in_part(ps[i as int], n) == (lo <= n <= hi));
                        assert(all@.contains(n) <==> (all0.contains(n) || (lo <= n && n <= hi)));
                        assert(all0.contains(n) <==> exists|j: int| 0 <= j < i && #[trigger] in_part(ps[j], n));
                        if all@.contains(n) {
                            if all0.contains(n) {
                                let j = choose|j: int| 0 <= j < i && #[trigger] in_part(ps[j], n);
                                assert(0 <= j < i + 1 && in_part(ps[j], n));
                            } else {
                                assert(in_part(ps[i as int], n));
                            }
                        }
                        if exists|j: int| 0 <= j < i + 1 && #[trigger] in_part(ps[j], n) {
                            let j = choose|j: int| 0 <= j < i + 1 && #[trigger] in_part(ps[j], n);
                            if j < i {
                                assert(exists|j2: int| 0 <= j2 < i && #[trigger] in_part(ps[j2], n));
                                assert(all0.contains(n));
                            } else {
                                assert(lo <= n <= hi);
                            }
                        }
                    }
                }
            },
        }
        i += 1;
    }
    let v = sort_dedup(all);
    Ok(v)
}

#[allow(non_snake_case)]
pub fn setFromSpec(spec: &str) -> (r: Result<Vec<u32>, CfError>)
    ensures
        match r {
            Ok(v) => {
                &&& spec_valid(spec@)
                &&& strictly_sorted_u32(v@)
                &&& forall|n: u32| v@.contains(n) <==> in_spec(spec@, n)
            },
            Err(e) => !spec_valid(spec@) && e@ == CfErrorView::InvalidSpec(spec@),
        },
{
    set_from_spec(spec)
}

// ---------------------------------------------------------------------------
// From node lists to ranges and back to text
// ---------------------------------------------------------------------------

/// A range in a specification: one node, or the nodes from the first to the second.
#[derive(Debug, Clone, Copy, PartialEq, Eq, Structural)]
pub enum LogicalRange {
    Single(u32),
    Range(u32, u32),
}

/// The runs of consecutive numbers in `s`, in order of appearance: each number
/// extends the last run when it follows that run's end, and starts a new run otherwise.
pub open spec fn runs(s: Seq<u32>) -> Seq<(u32, u32)>
    decreases s.len(),
{
    if s.len() == 0 {
        seq![]
    } else {
        let r = runs(s.drop_last());
        let x = s.last();
        if r.len() > 0 && r.last().1 < u32::MAX && x == r.last().1 + 1 {
            r.update(r.len() - 1, (r.last().0, x))
        } else {
            r.push((x, x))
        }
    }
}

/// Some range of `r` holds `n`.
pub open spec fn covered_by(r: Seq<(u32, u32)>, n: u32) -> bool {
    exists|k: int| 0 <= k < r.len() && (#[trigger] r[k]).0 <= n <= r[k].1
}

/// The text of one range: `a` alone, or `a-b`.
pub open spec fn range_text(p: (u32, u32)) -> Seq<char> {
    if p.0 == p.1 {
        dec_nat(p.0 as nat)
    } else {
        dec_nat(p.0 as nat) + seq!['-'] + dec_nat(p.1 as nat)
    }
}

pub open spec fn range_texts(r: Seq<(u32, u32)>) -> Seq<Seq<char>> {
    r.map_values(|p: (u32, u32)| range_text(p))
}

/// The specification text of a list of ranges.
pub open spec fn spec_text(r: Seq<(u32, u32)>) -> Seq<char> {
    join_spec(range_texts(r), seq![','])
}

pub open spec fn logical_of(p: (u32, u32)) -> LogicalRange {
    if p.0 == p.1 {
        LogicalRange::Single(p.0)
    } else {
        LogicalRange::Range(p.0, p.1)
    }
}

/// The runs of consecutive numbers in a node list, in order.
pub fn ranges_from_list(nodes: &[u32]) -> (r: Vec<(u32, u32)>)
    ensures
        r@ == runs(nodes@),
{
    let mut r: Vec<(u32, u32)> = Vec::new();
    let mut i: usize = 0;
    while i < nodes.len()
        invariant
            0 <= i <= nodes.len(),
            r@ == runs(nodes@.take(i as int)),
        decreases nodes.len() - i,
    {
        proof {
            assert(nodes@.take(i + 1).drop_last() == nodes@.take(i as int));
        }
        let x = nodes[i];
        let n = r.len();
        if n > 0 && r[n - 1].1 < u32::MAX && x == r[n - 1].1 + 1 {
            let start = r[n - 1].0;
            r.set(n - 1, (start, x));
        } else {
            r.push((x, x));
        }
        i += 1;
    }
    proof {
        assert(nodes@.take(nodes@.len() as int) == nodes@);
    }
    r
}

#[allow(non_snake_case)]
pub fn rangesFromList(nodes: &[u32]) -> (r: Vec<(u32, u32)>)
    ensures
        r@ == runs(nodes@),
{
    ranges_from_list(nodes)
}

/// The ranges of a node set, given ascending without repeats as an ordered set
/// hands it out: maximal runs, ascending, that together hold exactly the set.
pub fn ranges_from_set(nodes: &[u32]) -> (r: Vec<(u32, u32)>)
    requires
        strictly_sorted_u32(nodes@),
    ensures
        r@ == runs(nodes@),
        forall|n: u32| nodes@.contains(n) <==> covered_by(r@, n),
{
    proof {
        lemma_runs_cover(nodes@);
    }
    ranges_from_list(nodes)
}

#[allow(non_snake_case)]
pub fn rangesFromSet(nodes: &[u32]) -> (r: Vec<(u32, u32)>)
    requires
        strictly_sorted_u32(nodes@),
    ensures
        r@ == runs(nodes@),
        forall|n: u32| nodes@.contains(n) <==> covered_by(r@, n),
{
    ranges_from_set(nodes)
}

/// The runs of a node list hold exactly the nodes of the list.
pub proof fn lemma_runs_cover(s: Seq<u32>)
    ensures
        forall|n: u32| s.contains(n) <==> covered_by(runs(s), n),
    decreases s.len(),
{
    if s.len() > 0 {
        let t = s.drop_last();
        let x = s.last();
        lemma_runs_cover(t);
        let r = runs(t);
        assert forall|n: u32| s.contains(n) <==> covered_by(runs(s), n) by {
            lemma_push_contains_pub(t, x, n);
            assert(s == t.push(x));
            if r.len() > 0 && r.last().1 < u32::MAX && x == r.last().1 + 1 {
                let rs = runs(s);
                let m = r.len() - 1;
                if covered_by(r, n) {
                    let k = choose|k: int| 0 <= k < r.len() && (#[trigger] r[k]).0 <= n <= r[k].1;
                    assert(rs[k].0 <= n <= rs[k].1);
                }
                if n == x {
                    assert(rs[m].0 <= n <= rs[m].1) by {
                        lemma_run_ordered(t, m);
                    }
                }
                if covered_by(rs, n) {
                    let k = choose|k: int| 0 <= k < rs.len() && (#[trigger] rs[k]).0 <= n <= rs[k].1;
                    if k != m {
                        assert(r[k] == rs[k]);
                    } else if n != x {
                        assert(r[m].0 <= n <= r[m].1);
                    }
                }
            } else {
                let rs = runs(s);
                if covered_by(r, n) {
                    let k = choose|k: int| 0 <= k < r.len() && (#[trigger] r[k]).0 <= n <= r[k].1;
                    assert(rs[k] == r[k]);
                }
                if n == x {
                    assert(rs[r.len() as int] == (x, x));
                }
                if covered_by(rs, n) {
                    let k = choose|k: int| 0 <= k < rs.len() && (#[trigger] rs[k]).0 <= n <= rs[k].1;
                    if k < r.len() {
                        assert(r[k] == rs[k]);
                    }
                }
            }
        }
    }
}

proof fn lemma_run_ordered(s: Seq<u32>, k: int)
    requires
        0 <= k < runs(s).len(),
    ensures
        runs(s)[k].0 <= runs(s)[k].1,
    decreases s.len(),
{
    if s.len() > 0 {
        let r = runs(s.drop_last());
        if k < r.len() {
            lemma_run_ordered(s.drop_last(), k);
        }
    }
}

/// The specification text of a list of ranges: `a` or `a-b` per range, joined by commas.
pub fn spec_from_ranges(ranges: &[(u32, u32)]) -> (r: String)
    ensures
        r@ == spec_text(ranges@),
{
    let mut parts: Vec<String> = Vec::new();
    let mut i: usize = 0;
    while i < ranges.len()
        invariant
            0 <= i <= ranges.len(),
            views(parts@) == range_texts(ranges@.take(i as int)),
        decreases ranges.len() - i,
    {
        let (a, b) = ranges[i];
        let mut t = u64_to_string(a as u64);
        if a != b {
            crate::strs::push_str(&mut t, "-");
            let tb = u64_to_string(b as u64);
            crate::strs::push_str(&mut t, tb.as_str());
            proof {
                reveal_strlit("-");
            }
        }
        let ghost before = parts@;
        parts.push(t);
        proof {
            assert(t@ =~= range_text(ranges@[i as int]));
            assert(views(parts@) =~= views(before).push(t@));
            assert(ranges@.take(i + 1) == ranges@.take(i as int).push(ranges@[i as int]));
            assert(range_texts(ranges@.take(i + 1)) =~= range_texts(ranges@.take(i as int)).push(
                range_text(ranges@[i as int]),
            ));
        }
        i += 1;
    }
    proof {
        assert(ranges@.take(ranges@.len() as int) == ranges@);
        reveal_strlit(",");
    }
    let comma = ",";
    assert(comma@ =~= seq![',']);
    join_strings(parts.as_slice(), comma)
}

#[allow(non_snake_case)]
pub fn specFromRanges(ranges: &[(u32, u32)]) -> (r: String)
    ensures
        r@ == spec_text(ranges@),
{
    spec_from_ranges(ranges)
}

/// The ranges as values: a single node where a range has one member.
pub fn spec_from_ranges_logical(ranges: &[(u32, u32)]) -> (r: Vec<LogicalRange>)
    ensures
        r@ == ranges@.map_values(|p: (u32, u32)| logical_of(p)),
{
    let mut r: Vec<LogicalRange> = Vec::new();
    let mut i: usize = 0;
    while i < ranges.len()
        invariant
            0 <= i <= ranges.len(),
            r@ == ranges@.take(i as int).map_values(|p: (u32, u32)| logical_of(p)),
        decreases ranges.len() - i,
    {
        let (a, b) = ranges[i];
        let l = if a == b {
            LogicalRange::Single(a)
        } else {
            LogicalRange::Range(a, b)
        };
        r.push(l);
        proof {
            assert(ranges@.take(i + 1).map_values(|p: (u32, u32)| logical_of(p)) =~= ranges@.take(
                i as int,
            ).map_values(|p: (u32, u32)| logical_of(p)).push(logical_of(ranges@[i as int])));
        }
        i += 1;
    }
    proof {
        assert(ranges@.take(ranges@.len() as int) == ranges@);
    }
    r
}

#[allow(non_snake_case)]
pub fn specFromRangesLogical(ranges: &[(u32, u32)]) -> (r: Vec<LogicalRange>)
    ensures
        r@ == ranges@.map_values(|p: (u32, u32)| logical_of(p)),
{
    spec_from_ranges_logical(ranges)
}

// ---------------------------------------------------------------------------
// Reading back what was written
// ---------------------------------------------------------------------------

proof fn lemma_split_no_sep(a: Seq<char>, b: Seq<char>, sep: char)
    requires
        forall|i: int| 0 <= i < b.len() ==> b[i] != sep,
    ensures
        split_spec(a + b, sep) == split_spec(a, sep).update(
            split_spec(a, sep).len() - 1,
            split_spec(a, sep).last() + b,
        ),
        split_spec(a + b, sep).len() == split_spec(a, sep).len(),
    decreases b.len(),
{
    crate::strs::lemma_split_nonempty(a, sep);
    if b.len() == 0 {
        assert(a + b == a);
        assert(split_spec(a, sep).last() + b == split_spec(a, sep).last());
        assert(split_spec(a, sep).update(split_spec(a, sep).len() - 1, split_spec(a, sep).last())
            =~= split_spec(a, sep));
    } else {
        let b0 = b.drop_last();
        lemma_split_no_sep(a, b0, sep);
        crate::strs::lemma_split_nonempty(a + b0, sep);
        assert((a + b).drop_last() == a + b0);
        assert((a + b).last() == b.last());
        assert(b[b.len() - 1] != sep);
        assert((a + b).len() > 0);
        let pp = split_spec(a, sep);
        let m = pp.len() - 1;
        let q = split_spec(a + b0, sep);
        assert(q == pp.update(m, pp.last() + b0));
        assert(q.len() == pp.len());
        assert(q.last() == pp.last() + b0);
        assert(split_spec(a + b, sep) == q.update(q.len() - 1, q.last().push(b.last())));
        assert((pp.last() + b0).push(b.last()) =~= pp.last() + b);
        assert(split_spec(a + b, sep) =~= split_spec(a, sep).update(
            split_spec(a, sep).len() - 1,
            split_spec(a, sep).last() + b,
        ));
    }
}

/// Splitting `a`, a separator and `b` (which holds no separator) gives the
/// pieces of `a` followed by `b`.
proof fn lemma_split_append(a: Seq<char>, b: Seq<char>, sep: char)
    requires
        forall|i: int| 0 <= i < b.len() ==> b[i] != sep,
    ensures
        split_spec(a + seq![sep] + b, sep) == split_spec(a, sep).push(b),
{
    let a1 = a + seq![sep];
    assert(a1.drop_last() == a);
    assert(split_spec(a1, sep) == split_spec(a, sep).push(seq![]));
    lemma_split_no_sep(a1, b, sep);
    assert(seq![] + b == b);
    assert(split_spec(a1 + b, sep) =~= split_spec(a, sep).push(b));
}

proof fn lemma_split_plain(b: Seq<char>, sep: char)
    requires
        forall|i: int| 0 <= i < b.len() ==> b[i] != sep,
    ensures
        split_spec(b, sep) == seq![b],
{
    lemma_split_no_sep(seq![], b, sep);
    assert(seq![] + b == b);
    assert(split_spec(Seq::<char>::empty(), sep) == seq![Seq::<char>::empty()]);
    assert(split_spec(b, sep) =~= seq![b]);
}

/// Joining pieces with a separator that none of them holds and splitting the
/// result again gives the pieces back.
proof fn lemma_split_join(parts: Seq<Seq<char>>, sep: char)
    requires
        parts.len() >= 1,
        forall|k: int, i: int| 0 <= k < parts.len() && 0 <= i < parts[k].len() ==> parts[k][i] != sep,
    ensures
        split_spec(join_spec(parts, seq![sep]), sep) == parts,
    decreases parts.len(),
{
    if parts.len() == 1 {
        lemma_split_plain(parts[0], sep);
        assert(parts =~= seq![parts[0]]);
    } else {
        let init = parts.drop_last();
        lemma_split_join(init, sep);
        let b = parts.last();
        assert(forall|i: int| 0 <= i < b.len() ==> b[i] != sep) by {
            assert forall|i: int| 0 <= i < b.len() implies b[i] != sep by {
                assert(parts[parts.len() - 1][i] != sep);
            }
        }
        lemma_split_append(join_spec(init, seq![sep]), b, sep);
        assert(init.push(b) =~= parts);
    }
}

proof fn lemma_dec_digits(n: nat)
    ensures
        dec_nat(n).len() > 0,
        forall|i: int| 0 <= i < dec_nat(n).len() ==> '0' <= #[trigger] dec_nat(n)[i] <= '9',
        crate::strs::digits_val(dec_nat(n)) == n,
    decreases n,
{
    let c = crate::strs::digit_char(n % 10);
    assert(c as nat == 48 + n % 10);
    if n < 10 {
        assert(dec_nat(n) == seq![c]);
        assert(dec_nat(n).drop_last() =~= Seq::<char>::empty());
        assert(crate::strs::digits_val(Seq::<char>::empty()) == 0);
    } else {
        lemma_dec_digits(n / 10);
        let d = dec_nat(n / 10);
        let s = dec_nat(n);
        assert(s == d.push(c));
        assert(s.drop_last() == d);
        assert(s.last() == c);
        assert((n / 10) * 10 + n % 10 == n);
        assert forall|i: int| 0 <= i < s.len() implies '0' <= #[trigger] s[i] <= '9' by {
            if i < d.len() {
                assert(s[i] == d[i]);
            }
        }
    }
}

/// The decimal text of a `u32` reads back as that number.
proof fn lemma_parse_dec(n: u32)
    ensures
        parse_u32_spec(dec_nat(n as nat)) == Some(n),
        forall|i: int| 0 <= i < dec_nat(n as nat).len() ==> #[trigger] dec_nat(n as nat)[i] != '-'
            && dec_nat(n as nat)[i] != ',',
{
    lemma_dec_digits(n as nat);
    let s = dec_nat(n as nat);
    assert(s[0] != '+');
    assert(crate::strs::all_digits(s));
}

proof fn lemma_part_text(p: (u32, u32))
    requires
        p.0 <= p.1,
    ensures
        part_bounds(range_text(p)) == Some(p),
        forall|i: int| 0 <= i < range_text(p).len() ==> #[trigger] range_text(p)[i] != ',',
{
    lemma_parse_dec(p.0);
    lemma_parse_dec(p.1);
    let a = dec_nat(p.0 as nat);
    let b = dec_nat(p.1 as nat);
    if p.0 == p.1 {
        lemma_split_plain(a, '-');
    } else {
        lemma_split_append(a, b, '-');
        lemma_split_plain(a, '-');
        let t = range_text(p);
        assert(t == a + seq!['-'] + b);
        assert forall|i: int| 0 <= i < t.len() implies #[trigger] t[i] != ',' by {
            if i < a.len() {
                assert(t[i] == a[i]);
            } else if i > a.len() {
                assert(t[i] == b[i - a.len() - 1]);
            }
        }
    }
}

/// Round trip of range specifications: the text that `spec_from_ranges` writes
/// for the runs of a non-empty node list is a valid specification, and
/// `set_from_spec` reads from it exactly the nodes of the list.
pub proof fn lemma_spec_round_trip(s: Seq<u32>)
    requires
        s.len() > 0,
    ensures
        spec_valid(spec_text(runs(s))),
        forall|n: u32| in_spec(spec_text(runs(s)), n) <==> s.contains(n),
{
    let r = runs(s);
    lemma_runs_cover(s);
    lemma_runs_len(s);
    let texts = range_texts(r);
    assert forall|k: int| 0 <= k < r.len() implies part_bounds(#[trigger] texts[k]) == Some(r[k])
        && (forall|i: int| 0 <= i < texts[k].len() ==> texts[k][i] != ',') by {
        lemma_run_ordered(s, k);
        lemma_part_text(r[k]);
    }
    lemma_split_join(texts, ',');
    let parts = split_spec(spec_text(r), ',');
    assert(parts == texts);
    assert forall|n: u32| in_spec(spec_text(r), n) <==> s.contains(n) by {
        if in_spec(spec_text(r), n) {
            let k = choose|k: int| 0 <= k < parts.len() && #[trigger] in_part(parts[k], n);
            assert(part_bounds(texts[k]) == Some(r[k]));
            assert(r[k].0 <= n <= r[k].1);
        }
        if s.contains(n) {
            let k = choose|k: int| 0 <= k < r.len() && (#[trigger] r[k]).0 <= n <= r[k].1;
            assert(part_bounds(texts[k]) == Some(r[k]));
            assert(in_part(parts[k], n));
        }
    }
    assert forall|i: int| 0 <= i < parts.len() implies (#[trigger] part_bounds(parts[i])) is Some by {
        assert(part_bounds(texts[i]) == Some(r[i]));
    }
}

proof fn lemma_runs_len(s: Seq<u32>)
    ensures
        s.len() > 0 ==> runs(s).len() > 0,
    decreases s.len(),
{
}

} // verus!

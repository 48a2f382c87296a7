//! The first candidates of a search atom: the nodes of its type, narrowed by its most
//! selective equality constraint.

use vstd::prelude::*;
use crate::corpus::{find_key, lemma_find_key, Corpus};
use crate::error::{CfError, CfErrorView};
use crate::feature::{fv_at, nodes_valued, pred_has, pred_match_any, pred_missing, pred_order, NodeFeature};
use crate::query::{fvalues, regex_is_match, regex_matches, Constraint, Matcher, QueryAtom};
use crate::sorting::lemma_push_contains_pub;
use crate::search::Search;
use crate::sorting::{sort_dedup, strictly_sorted_u32};
use crate::strs::{owned, parse_i64, parse_i64_spec, push_str, str_eq};
use crate::value::{feature_values_match, values_match, FValue, FeatureValue};

verus! {

/// The values a node may have to equal `v`: `v` itself, and for a string that reads as
/// an integer, that integer too.
pub open spec fn candidate_values(v: FValue) -> Seq<FValue> {
    match v {
        FValue::Str(s) => match parse_i64_spec(s) {
            Some(i) => seq![v, FValue::Int(i)],
            None => seq![v],
        },
        FValue::Int(_) => seq![v],
    }
}

/// The values a node may have to equal `value`.
pub fn candidate_values_for(value: &FeatureValue) -> (r: Vec<FeatureValue>)
    ensures
        fvalues(r@) == candidate_values(value@),
{
    let mut r: Vec<FeatureValue> = Vec::new();
    r.push(value.duplicate());
    match value {
        FeatureValue::Str(raw) => match parse_i64(raw.as_str()) {
            Some(i) => {
                r.push(FeatureValue::Int(i));
            },
            None => {},
        },
        FeatureValue::Int(_) => {},
    }
    proof {
        assert(fvalues(r@) =~= candidate_values(value@));
    }
    r
}

/// The number of nodes that the index of `f` gives for value `v`.
pub open spec fn value_hits(f: NodeFeature, v: FValue) -> nat {
    if f.indexed {
        nodes_valued(f.values@, v).len()
    } else {
        0
    }
}

/// `a + b`, at most `usize::MAX`.
pub open spec fn sat_add(a: nat, b: nat) -> nat {
    if a + b > usize::MAX {
        usize::MAX as nat
    } else {
        a + b
    }
}

/// `acc` with the hits of the values `cs` added one by one.
pub open spec fn count_cands(f: NodeFeature, acc: nat, cs: Seq<FValue>) -> nat
    decreases cs.len(),
{
    if cs.len() == 0 {
        acc
    } else {
        sat_add(count_cands(f, acc, cs.drop_last()), value_hits(f, cs.last()))
    }
}

/// The number of nodes that an equality constraint on `f` with values `vs` selects,
/// counted per candidate value (saturating).
pub open spec fn eq_count(f: NodeFeature, vs: Seq<FValue>) -> nat
    decreases vs.len(),
{
    if vs.len() == 0 {
        0
    } else {
        count_cands(f, eq_count(f, vs.drop_last()), candidate_values(vs.last()))
    }
}

/// The values of an equality constraint.
pub open spec fn eq_values(c: Constraint) -> Option<Seq<FValue>> {
    match c.matcher {
        Matcher::Eq(vs) => Some(fvalues(vs@)),
        _ => None,
    }
}

/// The nodes that an equality constraint on `f` with values `vs` selects.
pub open spec fn eq_selects(f: NodeFeature, vs: Seq<FValue>, x: u32) -> bool {
    f.indexed && exists|a: int, b: int|
        0 <= a < vs.len() && 0 <= b < candidate_values(vs[a]).len() && #[trigger] nodes_valued(f.values@, candidate_values(vs[a])[b]).contains(x)
}

/// The message for a constraint on a feature that the corpus does not have.
pub open spec fn unknown_feature_message(name: Seq<char>) -> Seq<char> {
    "unknown feature "@ + name
}

impl Corpus {
    /// `ns` are the nodes an atom of type `t` starts from: every node for `.`, else the
    /// nodes given for `t` in `sets` (ascending, each once), else the nodes of type `t`.
    pub open spec fn start_nodes_ok(&self, t: Seq<char>, sets: Option<Seq<(Seq<char>, Seq<u32>)>>, ns: Seq<u32>) -> bool {
        if t == "."@ {
            strictly_sorted_u32(ns) && forall|x: u32| ns.contains(x) <==> self.otype().contains_key(x)
        } else {
            match sets {
                Some(s) => match find_key(s, set_key(), t) {
                    Some(i) => strictly_sorted_u32(ns) && forall|x: u32| ns.contains(x) <==> s[i].1.contains(x),
                    None => ns == self.nodes_of_type_spec(t),
                },
                None => ns == self.nodes_of_type_spec(t),
            }
        }
    }

    /// The nodes of type `t` (none for an unknown type).
    pub open spec fn nodes_of_type_spec(&self, t: Seq<char>) -> Seq<u32> {
        match self.type_nodes(t) {
            Some(v) => v,
            None => seq![],
        }
    }
}

/// The hits of the candidate values of the values `vs` for `f`, added up (saturating).
fn eq_count_exec(f: &NodeFeature, vs: &Vec<FeatureValue>) -> (r: usize)
    ensures
        r == eq_count(*f, fvalues(vs@)),
{
    let mut total: usize = 0;
    let mut a: usize = 0;
    while a < vs.len()
        invariant
            a <= vs@.len(),
            total == eq_count(*f, fvalues(vs@).take(a as int)),
        decreases vs.len() - a,
    {
        let cands = candidate_values_for(&vs[a]);
        let ghost start = total as nat;
        let mut b: usize = 0;
        while b < cands.len()
            invariant
                b <= cands@.len(),
                total == count_cands(*f, start, fvalues(cands@).take(b as int)),
            decreases cands.len() - b,
        {
            let hits = f.nodes_with_value(&cands[b]);
            proof {
                assert(fvalues(cands@).take(b + 1).drop_last() =~= fvalues(cands@).take(b as int));
                assert(fvalues(cands@)[b as int] == cands@[b as int]@);
                if f.indexed {
                    hits@.unique_seq_to_set();
                }
            }
            total = total.saturating_add(hits.len());
            b += 1;
        }
        proof {
            assert(fvalues(cands@).take(cands@.len() as int) =~= fvalues(cands@));
            assert(fvalues(vs@).take(a + 1).drop_last() =~= fvalues(vs@).take(a as int));
            assert(fvalues(vs@).take(a + 1).last() == vs@[a as int]@);
        }
        a += 1;
    }
    proof {
        assert(fvalues(vs@).take(vs@.len() as int) =~= fvalues(vs@));
    }
    total
}

/// The name of a node set.
pub open spec fn set_key() -> spec_fn((Seq<char>, Seq<u32>)) -> Seq<char> {
    |p: (Seq<char>, Seq<u32>)| p.0
}

/// The views of the named node sets of a search.
pub open spec fn sets_view(sets: Option<&[(String, Vec<u32>)]>) -> Option<Seq<(Seq<char>, Seq<u32>)>> {
    match sets {
        Some(s) => Some(s@.map_values(|p: (String, Vec<u32>)| (p.0@, p.1@))),
        None => None,
    }
}

impl<'a> Search<'a> {
    /// The nodes an atom starts from, before its constraints.
    pub fn initial_type_nodes(&self, atom: &QueryAtom, sets: Option<&[(String, Vec<u32>)]>) -> (r: Vec<u32>)
        ensures
            self.corpus.start_nodes_ok(atom.node_type@, sets_view(sets), r@),
    {
        let t = atom.node_type.as_str();
        if str_eq(t, ".") {
            return self.corpus.feature_nodes();
        }
        match sets {
            Some(s) => {
                let ghost sv = sets_view(sets)->0;
                let mut i: usize = 0;
                while i < s.len()
                    invariant
                        i <= s@.len(),
                        sets == Some(s),
                        sv == sets_view(sets)->0,
                        t@ == atom.node_type@,
                        t@ != "."@,
                        forall|j: int| 0 <= j < i ==> (#[trigger] sv[j]).0 != t@,
                    decreases s.len() - i,
                {
                    if str_eq(s[i].0.as_str(), t) {
                        let mut copy: Vec<u32> = Vec::new();
                        let mut k: usize = 0;
                        while k < s[i].1.len()
                            invariant
                                k <= s@[i as int].1@.len(),
                                i < s@.len(),
                                copy@ == s@[i as int].1@.take(k as int),
                            decreases s@[i as int].1@.len() - k,
                        {
                            copy.push(s[i].1[k]);
                            proof {
                                assert(s@[i as int].1@.take(k + 1) =~= s@[i as int].1@.take(k as int).push(s@[i as int].1@[k as int]));
                            }
                            k += 1;
                        }
                        proof {
                            assert(s@[i as int].1@.take(s@[i as int].1@.len() as int) =~= s@[i as int].1@);
                            assert(sv[i as int] == (s@[i as int].0@, s@[i as int].1@));
                            lemma_find_key(sv, set_key(), t@);
                            match find_key(sv, set_key(), t@) {
                                Some(c) => {
                                    if c < i {
                                        assert(sv[c].0 != t@);
                                    } else if c > i {
                                        assert((set_key())(sv[i as int]) != t@);
                                    }
                                },
                                None => {
                                    assert((set_key())(sv[i as int]) != t@);
                                },
                            }

                        }
                        return sort_dedup(copy);
                    }
                    i += 1;
                }
                proof {
                    lemma_find_key(sv, set_key(), t@);
                    if find_key(sv, set_key(), t@) is Some {
                        let c = find_key(sv, set_key(), t@)->0;
                        assert(sv[c].0 != t@);
                    }
                }
            },
            None => {},
        }
        let nodes = self.corpus.nodes_of_type(t);
        let mut r: Vec<u32> = Vec::new();
        let mut k: usize = 0;
        while k < nodes.len()
            invariant
                k <= nodes@.len(),
                r@ == nodes@.take(k as int),
            decreases nodes.len() - k,
        {
            r.push(nodes[k]);
            proof {
                assert(nodes@.take(k + 1) =~= nodes@.take(k as int).push(nodes@[k as int]));
            }
            k += 1;
        }
        proof {
            assert(nodes@.take(nodes@.len() as int) =~= nodes@);
        }
        r
    }
}

impl Corpus {
    /// Constraint `i` is an equality constraint on a feature the corpus has.
    pub open spec fn known_eq(&self, cs: Seq<Constraint>, i: int) -> bool {
        0 <= i < cs.len() && eq_values(cs[i]) is Some && self.nf(cs[i].feature@) is Some
    }

    /// The number of nodes that equality constraint `i` selects.
    pub open spec fn eq_count_of(&self, cs: Seq<Constraint>, i: int) -> nat {
        eq_count(self.nf(cs[i].feature@)->0, eq_values(cs[i])->0)
    }

    /// Constraint `b` is the most selective equality constraint: the first with the
    /// least count.
    pub open spec fn best_eq(&self, cs: Seq<Constraint>, b: int) -> bool {
        &&& self.known_eq(cs, b)
        &&& forall|j: int| #[trigger] self.known_eq(cs, j) ==> self.eq_count_of(cs, b) <= self.eq_count_of(cs, j)
            && (self.eq_count_of(cs, j) == self.eq_count_of(cs, b) ==> b <= j)
    }

    /// Constraint `i` is an equality constraint on a feature the corpus lacks.
    pub open spec fn unknown_eq(&self, cs: Seq<Constraint>, i: int) -> bool {
        0 <= i < cs.len() && eq_values(cs[i]) is Some && self.nf(cs[i].feature@) is None
    }

    /// `r` is the start of a search for atom `atom`: the error for the first equality
    /// constraint on an unknown feature; else its start nodes, narrowed, where it has
    /// equality constraints, to those the most selective one selects (ascending).
    pub open spec fn initial_candidates_ok(
        &self,
        atom: QueryAtom,
        sets: Option<Seq<(Seq<char>, Seq<u32>)>>,
        r: Result<Seq<u32>, CfErrorView>,
    ) -> bool {
        let cs = atom.constraints@;
        match r {
            Err(e) => exists|i: int|
                #[trigger] self.unknown_eq(cs, i) && (forall|j: int| 0 <= j < i ==> !self.unknown_eq(cs, j))
                    && e == CfErrorView::InvalidQuery(unknown_feature_message(cs[i].feature@)),
            Ok(ns) => {
                &&& forall|i: int| !#[trigger] self.unknown_eq(cs, i)
                &&& exists|tn: Seq<u32>|
                    #[trigger] self.start_nodes_ok(atom.node_type@, sets, tn) && if exists|i: int| #[trigger] self.known_eq(cs, i) {
                        exists|b: int|
                            #[trigger] self.best_eq(cs, b) && strictly_sorted_u32(ns) && forall|x: u32|
                                ns.contains(x) <==> (tn.contains(x) && eq_selects(
                                    self.nf(cs[b].feature@)->0,
                                    eq_values(cs[b])->0,
                                    x,
                                ))
                    } else {
                        ns == tn
                    }
            },
        }
    }
}

/// The error for a constraint on an unknown feature.
fn unknown_feature(name: &str) -> (r: CfError)
    ensures
        r@ == CfErrorView::InvalidQuery(unknown_feature_message(name@)),
{
    let mut m = owned("unknown feature ");
    push_str(&mut m, name);
    CfError::InvalidQuery(m)
}

/// Appends `src` to `out`.
fn append_u32s(out: &mut Vec<u32>, src: &Vec<u32>)
    ensures
        final(out)@ == old(out)@ + src@,
{
    let ghost o0 = out@;
    let mut k: usize = 0;
    while k < src.len()
        invariant
            k <= src@.len(),
            out@ == o0 + src@.take(k as int),
        decreases src.len() - k,
    {
        out.push(src[k]);
        proof {
            assert(src@.take(k + 1) =~= src@.take(k as int).push(src@[k as int]));
            assert(out@ =~= o0 + src@.take(k + 1));
        }
        k += 1;
    }
    proof {
        assert(src@.take(src@.len() as int) =~= src@);
    }
}

/// What a concatenation contains.
proof fn lemma_concat_contains(a: Seq<u32>, b: Seq<u32>, x: u32)
    ensures
        (a + b).contains(x) <==> (a.contains(x) || b.contains(x)),
{
    if (a + b).contains(x) {
        let i = choose|i: int| 0 <= i < (a + b).len() && (a + b)[i] == x;
        if i < a.len() {
            assert(a[i] == x);
        } else {
            assert(b[i - a.len()] == x);
        }
    }
    if a.contains(x) {
        let i = choose|i: int| 0 <= i < a.len() && a[i] == x;
        assert((a + b)[i] == x);
    }
    if b.contains(x) {
        let i = choose|i: int| 0 <= i < b.len() && b[i] == x;
        assert((a + b)[a.len() + i] == x);
    }
}

/// The nodes that an equality constraint on `f` with values `vs` selects, ascending.
fn eq_nodes(f: &NodeFeature, vs: &Vec<FeatureValue>) -> (r: Vec<u32>)
    ensures
        strictly_sorted_u32(r@),
        forall|x: u32| r@.contains(x) <==> eq_selects(*f, fvalues(vs@), x),
{
    let ghost fv = fvalues(vs@);
    let mut nodes: Vec<u32> = Vec::new();
    let mut a: usize = 0;
    while a < vs.len()
        invariant
            a <= vs@.len(),
            fv == fvalues(vs@),
            forall|x: u32|
                #[trigger] nodes@.contains(x) <==> exists|a2: int, b2: int|
                    0 <= a2 < a && 0 <= b2 < candidate_values(fv[a2]).len() && #[trigger] nodes_valued(f.values@, candidate_values(fv[a2])[b2]).contains(x) && f.indexed,
        decreases vs.len() - a,
    {
        let cands = candidate_values_for(&vs[a]);
        proof {
            assert(fv[a as int] == vs@[a as int]@);
        }
        let ghost n0 = nodes@;
        let mut b: usize = 0;
        while b < cands.len()
            invariant
                b <= cands@.len(),
                a < vs@.len(),
                fv == fvalues(vs@),
                fvalues(cands@) == candidate_values(fv[a as int]),
                forall|x: u32|
                    #[trigger] nodes@.contains(x) <==> (n0.contains(x) || exists|b2: int|
                        0 <= b2 < b && #[trigger] nodes_valued(f.values@, candidate_values(fv[a as int])[b2]).contains(x) && f.indexed),
            decreases cands.len() - b,
        {
            let hits = f.nodes_with_value(&cands[b]);
            let ghost before = nodes@;
            proof {
                assert forall|x: u32| #[trigger] before.contains(x) <==> (n0.contains(x) || exists|b2: int|
                    0 <= b2 < b && #[trigger] nodes_valued(f.values@, candidate_values(fv[a as int])[b2]).contains(x) && f.indexed) by {
                    assert(before.contains(x) == nodes@.contains(x));
                }
            }
            append_u32s(&mut nodes, &hits);
            proof {
                assert forall|x: u32| nodes@.contains(x) <==> (before.contains(x) || hits@.contains(x)) by {
                    lemma_concat_contains(before, hits@, x);
                }
            }
            proof {
                assert(fvalues(cands@)[b as int] == cands@[b as int]@);
                assert forall|x: u32| hits@.contains(x) <==> (nodes_valued(f.values@, candidate_values(fv[a as int])[b as int]).contains(x) && f.indexed) by {
                    if f.indexed {
                        assert(hits@.to_set().contains(x) == hits@.contains(x));
                    } else {
                        assert(hits@.len() == 0);
                    }
                }
                assert forall|x: u32|
                    #[trigger] nodes@.contains(x) <==> (n0.contains(x) || exists|b2: int|
                        0 <= b2 < b + 1 && #[trigger] nodes_valued(f.values@, candidate_values(fv[a as int])[b2]).contains(x) && f.indexed) by {
                    let h = nodes_valued(f.values@, candidate_values(fv[a as int])[b as int]).contains(x) && f.indexed;
                    let eb = exists|b2: int|
                        0 <= b2 < b && #[trigger] nodes_valued(f.values@, candidate_values(fv[a as int])[b2]).contains(x) && f.indexed;
                    let eb1 = exists|b2: int|
                        0 <= b2 < b + 1 && #[trigger] nodes_valued(f.values@, candidate_values(fv[a as int])[b2]).contains(x) && f.indexed;
                    lemma_concat_contains(before, hits@, x);
                    assert(nodes@ == before + hits@);
                    assert(nodes@.contains(x) == (before.contains(x) || hits@.contains(x)));
                    assert(before.contains(x) == (n0.contains(x) || eb));
                    assert(hits@.contains(x) == h);
                    if eb1 {
                        let b2 = choose|b2: int|
                            0 <= b2 < b + 1 && #[trigger] nodes_valued(f.values@, candidate_values(fv[a as int])[b2]).contains(x) && f.indexed;
                        if b2 < b {
                            assert(eb);
                        } else {
                            assert(h);
                        }
                    }
                    if eb {
                        let b2 = choose|b2: int|
                            0 <= b2 < b && #[trigger] nodes_valued(f.values@, candidate_values(fv[a as int])[b2]).contains(x) && f.indexed;
                        assert(0 <= b2 < b + 1 && nodes_valued(f.values@, candidate_values(fv[a as int])[b2]).contains(x) && f.indexed);
                    }
                    if h {
                        assert(0 <= b < b + 1 && nodes_valued(f.values@, candidate_values(fv[a as int])[b as int]).contains(x) && f.indexed);
                    }
                    assert(eb1 == (eb || h));
                }
            }
            b += 1;
        }
        proof {
            assert forall|x: u32|
                #[trigger] nodes@.contains(x) <==> exists|a2: int, b2: int|
                    0 <= a2 < a + 1 && 0 <= b2 < candidate_values(fv[a2]).len() && #[trigger] nodes_valued(f.values@, candidate_values(fv[a2])[b2]).contains(x) && f.indexed by {
                if nodes@.contains(x) && !n0.contains(x) {
                    let b2 = choose|b2: int| 0 <= b2 < cands@.len() && #[trigger] nodes_valued(f.values@, candidate_values(fv[a as int])[b2]).contains(x) && f.indexed;
                    assert(nodes_valued(f.values@, candidate_values(fv[a as int])[b2]).contains(x));
                }
                if exists|a2: int, b2: int|
                    0 <= a2 < a + 1 && 0 <= b2 < candidate_values(fv[a2]).len() && #[trigger] nodes_valued(f.values@, candidate_values(fv[a2])[b2]).contains(x) && f.indexed {
                    let (a2, b2) = choose|a2: int, b2: int|
                        0 <= a2 < a + 1 && 0 <= b2 < candidate_values(fv[a2]).len() && #[trigger] nodes_valued(f.values@, candidate_values(fv[a2])[b2]).contains(x) && f.indexed;
                    if a2 == a {
                        assert(nodes_valued(f.values@, candidate_values(fv[a as int])[b2]).contains(x));
                    }
                }
            }
        }
        a += 1;
    }
    sort_dedup(nodes)
}

impl<'a> Search<'a> {
    /// The nodes a search for `atom` starts from: its start nodes, narrowed by its most
    /// selective equality constraint (the first with the fewest selected nodes).
    pub fn initial_candidates(&self, atom: &QueryAtom, sets: Option<&[(String, Vec<u32>)]>) -> (r: Result<Vec<u32>, CfError>)
        ensures
            self.corpus.initial_candidates_ok(
                *atom,
                sets_view(sets),
                match r {
                    Ok(ns) => Ok(ns@),
                    Err(e) => Err(e@),
                },
            ),
    {
        let c = self.corpus;
        let type_nodes = self.initial_type_nodes(atom, sets);
        let ghost cs = atom.constraints@;
        let mut best: Option<(usize, usize)> = None;
        let mut i: usize = 0;
        while i < atom.constraints.len()
            invariant
                i <= cs.len(),
                cs == atom.constraints@,
                c == self.corpus,
                forall|j: int| 0 <= j < i ==> !#[trigger] c.unknown_eq(cs, j),
                match best {
                    Some((b, n)) => b < i && c.known_eq(cs, b as int) && n == c.eq_count_of(cs, b as int) && forall|j: int|
                        0 <= j < i && #[trigger] c.known_eq(cs, j) ==> n <= c.eq_count_of(cs, j) && (c.eq_count_of(cs, j) == n ==> b <= j),
                    None => forall|j: int| 0 <= j < i ==> !#[trigger] c.known_eq(cs, j),
                },
            decreases cs.len() - i,
        {
            match &atom.constraints[i].matcher {
                Matcher::Eq(vs) => {
                    let name = atom.constraints[i].feature.as_str();
                    let f = match c.node_feature(name) {
                        Some(f) => f,
                        None => {
                            proof {
                                assert(c.unknown_eq(cs, i as int));
                            }
                            return Err(unknown_feature(name));
                        },
                    };
                    let n = eq_count_exec(f, vs);
                    proof {
                        assert(c.known_eq(cs, i as int));
                        assert(n == c.eq_count_of(cs, i as int));
                    }
                    match best {
                        Some((_, m)) => {
                            if n < m {
                                best = Some((i, n));
                            }
                        },
                        None => {
                            best = Some((i, n));
                        },
                    }
                },
                _ => {
                    proof {
                        assert(!c.known_eq(cs, i as int) && !c.unknown_eq(cs, i as int));
                    }
                },
            }
            i += 1;
        }
        let (b, _) = match best {
            Some(x) => x,
            None => return Ok(type_nodes),
        };
        let name = atom.constraints[b].feature.as_str();
        let f = match c.node_feature(name) {
            Some(f) => f,
            None => return Ok(type_nodes),
        };
        let selected = match &atom.constraints[b].matcher {
            Matcher::Eq(vs) => eq_nodes(f, vs),
            _ => Vec::new(),
        };
        let mut r: Vec<u32> = Vec::new();
        let mut k: usize = 0;
        while k < selected.len()
            invariant
                k <= selected@.len(),
                strictly_sorted_u32(selected@),
                strictly_sorted_u32(r@),
                forall|x: u32| #[trigger] r@.contains(x) <==> (selected@.take(k as int).contains(x) && type_nodes@.contains(x)),
                r@.len() > 0 ==> exists|q: int| 0 <= q < k && r@.last() == selected@[q],
            decreases selected.len() - k,
        {
            let x = selected[k];
            let ghost r0 = r@;
            proof {
                assert(selected@.take(k + 1) =~= selected@.take(k as int).push(x));
            }
            if crate::search::seq_has(type_nodes.as_slice(), x) {
                r.push(x);
                proof {
                    if r0.len() > 0 {
                        let q = choose|q: int| 0 <= q < k && r0.last() == selected@[q];
                    }
                    assert forall|y: u32| #[trigger] r@.contains(y) <==> (selected@.take(k + 1).contains(y) && type_nodes@.contains(y)) by {
                        crate::sorting::lemma_push_contains_pub(r0, x, y);
                        crate::sorting::lemma_push_contains_pub(selected@.take(k as int), x, y);
                    }
                    assert forall|p: int, q: int| 0 <= p < q < r@.len() implies r@[p] < r@[q] by {
                        if q == r@.len() - 1 && p < q {
                            assert(r0.contains(r@[p]));
                            let z = choose|z: int| 0 <= z < k && selected@.take(k as int)[z] == r@[p];
                        }
                    }
                }
            } else {
                proof {
                    assert forall|y: u32| #[trigger] r@.contains(y) <==> (selected@.take(k + 1).contains(y) && type_nodes@.contains(y)) by {
                        crate::sorting::lemma_push_contains_pub(selected@.take(k as int), x, y);
                    }
                }
            }
            k += 1;
        }
        proof {
            assert(selected@.take(selected@.len() as int) =~= selected@);
            assert(c.best_eq(cs, b as int));
            assert(c.start_nodes_ok(atom.node_type@, sets_view(sets), type_nodes@));
        }
        Ok(r)
    }
}

impl Corpus {
    /// `x` is among the start nodes of an atom of type `t`.
    pub open spec fn start_member(&self, t: Seq<char>, sets: Option<Seq<(Seq<char>, Seq<u32>)>>, x: u32) -> bool {
        if t == "."@ {
            self.otype().contains_key(x)
        } else {
            match sets {
                Some(s) => match find_key(s, set_key(), t) {
                    Some(i) => s[i].1.contains(x),
                    None => self.nodes_of_type_spec(t).contains(x),
                },
                None => self.nodes_of_type_spec(t).contains(x),
            }
        }
    }

    /// `x` is among the first candidates of `atom`: a start node that its most
    /// selective equality constraint, if any, selects.
    pub open spec fn initial_member(&self, atom: QueryAtom, sets: Option<Seq<(Seq<char>, Seq<u32>)>>, x: u32) -> bool {
        let cs = atom.constraints@;
        &&& self.start_member(atom.node_type@, sets, x)
        &&& (exists|i: int| #[trigger] self.known_eq(cs, i)) ==> {
            let b = choose|b: int| #[trigger] self.best_eq(cs, b);
            eq_selects(self.nf(cs[b].feature@)->0, eq_values(cs[b])->0, x)
        }
    }

    /// Node `x` meets constraint `c`.
    pub open spec fn constraint_ok(&self, c: Constraint, x: u32) -> bool {
        let m = self.nf(c.feature@)->0.values@;
        match c.matcher {
            Matcher::Eq(vs) => (pred_match_any(m, vs@))(x),
            Matcher::Ne(vs) => !(pred_match_any(m, vs@))(x),
            Matcher::Regex(p) => match fv_at(m, x) {
                Some(FValue::Str(s)) => regex_matches(p@, s),
                _ => false,
            },
            Matcher::Exists => m.contains_key(x),
            Matcher::Missing => !m.contains_key(x),
            Matcher::Lt(v) => (pred_order(m, v@, -1))(x),
            Matcher::Gt(v) => (pred_order(m, v@, 1))(x),
        }
    }

    /// `x` is a candidate of `atom`: a first candidate that meets all its constraints.
    pub open spec fn cand_member(&self, atom: QueryAtom, sets: Option<Seq<(Seq<char>, Seq<u32>)>>, x: u32) -> bool {
        &&& self.initial_member(atom, sets, x)
        &&& forall|i: int| 0 <= i < atom.constraints@.len() ==> self.constraint_ok(#[trigger] atom.constraints@[i], x)
    }

    /// Constraint `i` is on a feature the corpus lacks.
    pub open spec fn unknown_at(&self, cs: Seq<Constraint>, i: int) -> bool {
        0 <= i < cs.len() && self.nf(cs[i].feature@) is None
    }

    /// Constraint `i` is the one whose unknown feature is reported: the first equality
    /// constraint on an unknown feature, else the first constraint on one.
    pub open spec fn reported_unknown(&self, cs: Seq<Constraint>, i: int) -> bool {
        if exists|j: int| #[trigger] self.unknown_eq(cs, j) {
            self.unknown_eq(cs, i) && forall|j: int| 0 <= j < i ==> !#[trigger] self.unknown_eq(cs, j)
        } else {
            self.unknown_at(cs, i) && forall|j: int| 0 <= j < i ==> !#[trigger] self.unknown_at(cs, j)
        }
    }

    /// The most selective equality constraint is unique.
    pub proof fn lemma_best_eq_unique(&self, cs: Seq<Constraint>, a: int, b: int)
        requires
            self.best_eq(cs, a),
            self.best_eq(cs, b),
        ensures
            a == b,
    {
        assert(self.known_eq(cs, a) && self.known_eq(cs, b));
    }
}

/// What a filtered sequence contains.
proof fn lemma_filter_member(s: Seq<u32>, p: spec_fn(u32) -> bool, x: u32)
    ensures
        s.filter(p).contains(x) <==> (s.contains(x) && p(x)),
{
    if s.filter(p).contains(x) {
        s.lemma_filter_contains_rev(p, x);
        let i = choose|i: int| 0 <= i < s.filter(p).len() && s.filter(p)[i] == x;
        s.lemma_filter_pred(p, i);
    }
    if s.contains(x) && p(x) {
        let i = choose|i: int| 0 <= i < s.len() && s[i] == x;
        s.lemma_filter_contains(p, i);
    }
}

/// Whether the value of `f` at `n` matches one of `vs`.
fn matches_any(f: &NodeFeature, n: u32, vs: &Vec<FeatureValue>) -> (r: bool)
    ensures
        r == (pred_match_any(f.values@, vs@))(n),
{
    let v = match f.value(n) {
        Some(v) => v,
        None => return false,
    };
    let mut k: usize = 0;
    while k < vs.len()
        invariant
            k <= vs@.len(),
            fv_at(f.values@, n) == Some(v@),
            forall|j: int| 0 <= j < k ==> !values_match(v@, #[trigger] vs@[j]@),
        decreases vs.len() - k,
    {
        if feature_values_match(v, &vs[k]) {
            return true;
        }
        k += 1;
    }
    false
}

/// Keeps the nodes of `nodes` that meet constraint `c`, in order.
fn filter_constraint(c: &Corpus, f: &NodeFeature, con: &Constraint, nodes: Vec<u32>) -> (r: Vec<u32>)
    requires
        c.nf(con.feature@) == Some(*f),
    ensures
        forall|x: u32| r@.contains(x) <==> (nodes@.contains(x) && c.constraint_ok(*con, x)),
{
    match &con.matcher {
        Matcher::Eq(vs) => {
            let r = f.filter_by_values(nodes.as_slice(), vs.as_slice());
            proof {
                assert forall|x: u32| r@.contains(x) <==> (nodes@.contains(x) && c.constraint_ok(*con, x)) by {
                    lemma_filter_member(nodes@, pred_match_any(f.values@, vs@), x);
                }
            }
            r
        },
        Matcher::Ne(vs) => {
            let mut r: Vec<u32> = Vec::new();
            let mut i: usize = 0;
            while i < nodes.len()
                invariant
                    i <= nodes@.len(),
                    c.nf(con.feature@) == Some(*f),
                    con.matcher == Matcher::Ne(*vs),
                    forall|x: u32| r@.contains(x) <==> (nodes@.take(i as int).contains(x) && c.constraint_ok(*con, x)),
                decreases nodes.len() - i,
            {
                let n = nodes[i];
                let hit = matches_any(f, n, vs);
                proof {
                    assert(nodes@.take(i + 1) =~= nodes@.take(i as int).push(n));
                    assert(hit != c.constraint_ok(*con, n));
                }
                let ghost r0 = r@;
                if !hit {
                    r.push(n);
                }
                proof {
                    assert forall|x: u32| r@.contains(x) <==> (nodes@.take(i + 1).contains(x) && c.constraint_ok(*con, x)) by {
                        lemma_push_contains_pub(nodes@.take(i as int), n, x);
                        if !hit {
                            lemma_push_contains_pub(r0, n, x);
                        }
                    }
                }
                i += 1;
            }
            proof {
                assert(nodes@.take(nodes@.len() as int) =~= nodes@);
            }
            r
        },
        Matcher::Regex(p) => {
            let mut r: Vec<u32> = Vec::new();
            let mut i: usize = 0;
            while i < nodes.len()
                invariant
                    i <= nodes@.len(),
                    c.nf(con.feature@) == Some(*f),
                    con.matcher == Matcher::Regex(*p),
                    forall|x: u32| r@.contains(x) <==> (nodes@.take(i as int).contains(x) && c.constraint_ok(*con, x)),
                decreases nodes.len() - i,
            {
                let n = nodes[i];
                let keep = match f.value(n) {
                    Some(FeatureValue::Str(s)) => regex_is_match(p, s.as_str()),
                    _ => false,
                };
                proof {
                    assert(keep == c.constraint_ok(*con, n));
                    assert(nodes@.take(i + 1) =~= nodes@.take(i as int).push(n));
                }
                let ghost r0 = r@;
                if keep {
                    r.push(n);
                }
                proof {
                    assert forall|x: u32| r@.contains(x) <==> (nodes@.take(i + 1).contains(x) && c.constraint_ok(*con, x)) by {
                        lemma_push_contains_pub(nodes@.take(i as int), n, x);
                        if keep {
                            lemma_push_contains_pub(r0, n, x);
                        }
                    }
                }
                i += 1;
            }
            proof {
                assert(nodes@.take(nodes@.len() as int) =~= nodes@);
            }
            r
        },
        Matcher::Exists => {
            let r = f.filter_has_value(nodes.as_slice());
            proof {
                assert forall|x: u32| r@.contains(x) <==> (nodes@.contains(x) && c.constraint_ok(*con, x)) by {
                    lemma_filter_member(nodes@, pred_has(f.values@), x);
                }
            }
            r
        },
        Matcher::Missing => {
            let r = f.filter_missing_value(nodes.as_slice());
            proof {
                assert forall|x: u32| r@.contains(x) <==> (nodes@.contains(x) && c.constraint_ok(*con, x)) by {
                    lemma_filter_member(nodes@, pred_missing(f.values@), x);
                }
            }
            r
        },
        Matcher::Lt(v) => {
            let r = f.filter_less_than(nodes.as_slice(), v);
            proof {
                assert forall|x: u32| r@.contains(x) <==> (nodes@.contains(x) && c.constraint_ok(*con, x)) by {
                    lemma_filter_member(nodes@, pred_order(f.values@, v@, -1), x);
                }
            }
            r
        },
        Matcher::Gt(v) => {
            let r = f.filter_greater_than(nodes.as_slice(), v);
            proof {
                assert forall|x: u32| r@.contains(x) <==> (nodes@.contains(x) && c.constraint_ok(*con, x)) by {
                    lemma_filter_member(nodes@, pred_order(f.values@, v@, 1), x);
                }
            }
            r
        },
    }
}

impl Corpus {
    /// Start nodes hold exactly the start members.
    proof fn lemma_start_nodes_member(&self, t: Seq<char>, sets: Option<Seq<(Seq<char>, Seq<u32>)>>, ns: Seq<u32>)
        requires
            self.start_nodes_ok(t, sets, ns),
        ensures
            forall|x: u32| ns.contains(x) <==> self.start_member(t, sets, x),
    {
    }
}

impl<'a> Search<'a> {
    /// The candidates of an atom: its first candidates that meet every one of its
    /// constraints; an error for a constraint on a feature the corpus lacks.
    pub fn candidates(&self, atom: &QueryAtom, sets: Option<&[(String, Vec<u32>)]>) -> (r: Result<Vec<u32>, CfError>)
        ensures
            match r {
                Ok(v) => (forall|i: int| !#[trigger] self.corpus.unknown_at(atom.constraints@, i))
                    && forall|x: u32| v@.contains(x) <==> self.corpus.cand_member(*atom, sets_view(sets), x),
                Err(e) => exists|i: int| #[trigger] self.corpus.reported_unknown(atom.constraints@, i)
                    && e@ == CfErrorView::InvalidQuery(unknown_feature_message(atom.constraints@[i].feature@)),
            },
    {
        let c = self.corpus;
        let ghost cs = atom.constraints@;
        let ghost sv = sets_view(sets);
        let init = self.initial_candidates(atom, sets);
        let mut cands = match init {
            Ok(v) => v,
            Err(e) => {
                proof {
                    let i = choose|i: int|
                        #[trigger] c.unknown_eq(cs, i) && (forall|j: int| 0 <= j < i ==> !c.unknown_eq(cs, j))
                            && e@ == CfErrorView::InvalidQuery(unknown_feature_message(cs[i].feature@));
                    assert(c.reported_unknown(cs, i));
                }
                return Err(e);
            },
        };
        proof {
            let tn = choose|tn: Seq<u32>|
                #[trigger] c.start_nodes_ok(atom.node_type@, sv, tn) && if exists|i: int| #[trigger] c.known_eq(cs, i) {
                    exists|b: int|
                        #[trigger] c.best_eq(cs, b) && strictly_sorted_u32(cands@) && forall|x: u32|
                            cands@.contains(x) <==> (tn.contains(x) && eq_selects(c.nf(cs[b].feature@)->0, eq_values(cs[b])->0, x))
                } else {
                    cands@ == tn
                };
            c.lemma_start_nodes_member(atom.node_type@, sv, tn);
            if exists|i: int| #[trigger] c.known_eq(cs, i) {
                let b = choose|b: int|
                    #[trigger] c.best_eq(cs, b) && strictly_sorted_u32(cands@) && forall|x: u32|
                        cands@.contains(x) <==> (tn.contains(x) && eq_selects(c.nf(cs[b].feature@)->0, eq_values(cs[b])->0, x));
                let b2 = choose|b2: int| #[trigger] c.best_eq(cs, b2);
                c.lemma_best_eq_unique(cs, b, b2);
            }
            assert forall|x: u32| cands@.contains(x) <==> c.initial_member(*atom, sv, x) by {}
        }
        let mut i: usize = 0;
        while i < atom.constraints.len()
            invariant
                i <= cs.len(),
                cs == atom.constraints@,
                sv == sets_view(sets),
                c == self.corpus,
                forall|j: int| !#[trigger] c.unknown_eq(cs, j),
                forall|j: int| 0 <= j < i ==> !#[trigger] c.unknown_at(cs, j),
                forall|x: u32| #[trigger] cands@.contains(x) <==> (c.initial_member(*atom, sv, x)
                    && forall|j: int| 0 <= j < i ==> c.constraint_ok(#[trigger] cs[j], x)),
            decreases cs.len() - i,
        {
            let con = &atom.constraints[i];
            let f = match c.node_feature(con.feature.as_str()) {
                Some(f) => f,
                None => {
                    proof {
                        assert(c.unknown_at(cs, i as int));
                        assert(!exists|j: int| #[trigger] c.unknown_eq(cs, j));
                        assert(c.reported_unknown(cs, i as int));
                    }
                    return Err(unknown_feature(con.feature.as_str()));
                },
            };
            let ghost c0 = cands@;
            cands = filter_constraint(c, f, con, cands);
            proof {
                assert forall|x: u32| #[trigger] cands@.contains(x) <==> (c.initial_member(*atom, sv, x)
                    && forall|j: int| 0 <= j < i + 1 ==> c.constraint_ok(#[trigger] cs[j], x)) by {
                    assert(c0.contains(x) <==> (c.initial_member(*atom, sv, x)
                        && forall|j: int| 0 <= j < i ==> c.constraint_ok(#[trigger] cs[j], x)));
                }
            }
            i += 1;
        }
        proof {
            assert forall|j: int| !#[trigger] c.unknown_at(cs, j) by {
                if 0 <= j < cs.len() {
                    assert(j < i);
                }
            }
        }
        Ok(cands)
    }
}

} // verus!

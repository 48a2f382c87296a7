//! Whole-feature tables of an edge feature: inverse maps, per-source rows,
//! edge counts and the frequency of edge values.

use std::collections::HashMap;
use vstd::prelude::*;
use crate::feature::{ev_at, has_edge, map_keys, tg_or_empty, EdgeFeature, NodeFeature};
use crate::freq::{opt_sort_token, opt_token, row_le, sort_rows};
use crate::sorting::{opt_seq, sort_by_rank, sort_dedup, sorted_by_rank, strictly_sorted_u32};
use crate::value::{opt_fv, FValue, FeatureValue, Metadata};

verus! {

broadcast use {vstd::std_specs::hash::group_hash_axioms, vstd::seq_lib::group_to_multiset_ensures};

/// The frequency table of an edge feature: a plain edge count when the feature has no
/// edge values, else each distinct optional value with its number of edges.
#[derive(Debug, Clone, PartialEq, Eq)]
pub enum EdgeFrequency {
    Count(usize),
    Values(Vec<(Option<FeatureValue>, usize)>),
}

/// A feature as read from a `.tf` file: node, edge, or configuration only.
#[derive(Debug, Clone, PartialEq, Eq)]
pub enum TfFeature {
    Node(NodeFeature),
    Edge(EdgeFeature),
    Config { name: String, metadata: Metadata },
}

impl TfFeature {
    /// The feature's name.
    pub fn name(&self) -> (r: &str)
        ensures
            r@ == match self {
                TfFeature::Node(f) => f.name@,
                TfFeature::Edge(f) => f.name@,
                TfFeature::Config { name, .. } => name@,
            },
    {
        match self {
            TfFeature::Node(f) => f.name.as_str(),
            TfFeature::Edge(f) => f.name.as_str(),
            TfFeature::Config { name, .. } => name.as_str(),
        }
    }
}

/// `ks` lists the keys of `m`, each once.
pub open spec fn key_order<V>(ks: Seq<u32>, m: Map<u32, V>) -> bool {
    ks.no_duplicates() && forall|k: u32| ks.contains(k) <==> m.contains_key(k)
}

/// The total length of the target lists of the sources `ks`.
pub open spec fn sum_lens(ks: Seq<u32>, m: Map<u32, Vec<u32>>) -> nat
    decreases ks.len(),
{
    if ks.len() == 0 {
        0
    } else {
        sum_lens(ks.drop_last(), m) + tg_or_empty(m, ks.last()).len()
    }
}

/// The total number of values in the inner maps of the sources `ks`.
pub open spec fn sum_sizes(ks: Seq<u32>, m: Map<u32, HashMap<u32, FeatureValue>>) -> nat
    decreases ks.len(),
{
    if ks.len() == 0 {
        0
    } else {
        sum_sizes(ks.drop_last(), m) + (if m.contains_key(ks.last()) { m[ks.last()]@.dom().len() } else { 0 })
    }
}

/// The edges of the sources `ks`, in order: one `(source, target)` pair per target-list entry.
pub open spec fn flat_edges(ks: Seq<u32>, m: Map<u32, Vec<u32>>) -> Seq<(u32, u32)>
    decreases ks.len(),
{
    if ks.len() == 0 {
        seq![]
    } else {
        flat_edges(ks.drop_last(), m) + tg_or_empty(m, ks.last()).map_values(|t: u32| (ks.last(), t))
    }
}

/// The number of edges among `es` whose value is `v`.
pub open spec fn value_edges(es: Seq<(u32, u32)>, ev: Map<u32, HashMap<u32, FeatureValue>>, v: Option<FValue>) -> nat {
    es.filter(|e: (u32, u32)| ev_at(ev, e.0, e.1) == v).len()
}

pub open spec fn min_usize(n: nat) -> int {
    if n > usize::MAX { usize::MAX as int } else { n as int }
}

/// The sequence `s` with the sources of each target: every node of `s` has
/// exactly the sources in the list, ascending.
pub open spec fn sources_of(m: Map<u32, Vec<u32>>, t: u32, s: Seq<u32>) -> bool {
    strictly_sorted_u32(s) && forall|x: u32| s.contains(x) <==> has_edge(m, x, t)
}

pub open spec fn firsts<T>(s: Seq<(u32, T)>) -> Seq<u32> {
    s.map_values(|p: (u32, T)| p.0)
}

fn append_all(acc: &mut Vec<u32>, ts: &Vec<u32>)
    ensures
        final(acc)@ == old(acc)@ + ts@,
{
    let ghost a0 = acc@;
    let mut i: usize = 0;
    while i < ts.len()
        invariant
            0 <= i <= ts.len(),
            acc@ == a0 + ts@.take(i as int),
        decreases ts.len() - i,
    {
        acc.push(ts[i]);
        i += 1;
        proof {
            assert(acc@ =~= a0 + ts@.take(i as int));
        }
    }
    proof {
        assert(ts@.take(ts@.len() as int) =~= ts@);
    }
}

proof fn lemma_concat_contains(a: Seq<u32>, b: Seq<u32>, x: u32)
    ensures
        (a + b).contains(x) <==> a.contains(x) || b.contains(x),
{
    if (a + b).contains(x) {
        let k = choose|k: int| 0 <= k < (a + b).len() && (a + b)[k] == x;
        if k < a.len() {
            assert(a[k] == x);
        } else {
            assert(b[k - a.len()] == x);
        }
    }
    if a.contains(x) {
        let k = choose|k: int| 0 <= k < a.len() && a[k] == x;
        assert((a + b)[k] == x);
    }
    if b.contains(x) {
        let k = choose|k: int| 0 <= k < b.len() && b[k] == x;
        assert((a + b)[a.len() + k] == x);
    }
}

/// The nodes in canonical order, each once.
pub fn canonical_unique(nodes: Vec<u32>, rank: &Option<Vec<u32>>) -> (r: Vec<u32>)
    ensures
        forall|x: u32| r@.contains(x) <==> nodes@.contains(x),
        r@.no_duplicates(),
        sorted_by_rank(r@, opt_seq(*rank)),
{
    let u = sort_dedup(nodes);
    proof {
        assert(u@.no_duplicates()) by {
            assert forall|a: int, b: int| 0 <= a < u@.len() && 0 <= b < u@.len() && a != b implies u@[a] != u@[b] by {
                if a < b {
                    assert(u@[a] < u@[b]);
                } else {
                    assert(u@[b] < u@[a]);
                }
            }
        }
    }
    sort_by_rank(u, rank)
}


pub open spec fn pred_ev(ev: Map<u32, HashMap<u32, FeatureValue>>, v: Option<FValue>) -> spec_fn((u32, u32)) -> bool {
    |e: (u32, u32)| ev_at(ev, e.0, e.1) == v
}

proof fn lemma_flat_step(ks: Seq<u32>, m: Map<u32, Vec<u32>>, i: int)
    requires
        0 <= i < ks.len(),
    ensures
        flat_edges(ks.take(i + 1), m) == flat_edges(ks.take(i), m) + tg_or_empty(m, ks[i]).map_values(|t: u32| (ks[i], t)),
{
    assert(ks.take(i + 1).drop_last() =~= ks.take(i));
}


/// The frequency table of the edge values of `f` over the edges `es`.
pub open spec fn edge_freq_rows(f: EdgeFeature, es: Seq<(u32, u32)>, r: Seq<(Option<FeatureValue>, usize)>) -> bool {
    &&& forall|j: int| 0 <= j < r.len() ==> (#[trigger] r[j]).1 == min_usize(value_edges(es, f.edge_values@, opt_fv(r[j].0))) && r[j].1 >= 1
    &&& forall|e: (u32, u32)| es.contains(e) ==> exists|j: int| 0 <= j < r.len() && opt_fv((#[trigger] r[j]).0) == ev_at(f.edge_values@, e.0, e.1)
    &&& forall|a: int, b: int| 0 <= a < b < r.len() ==> opt_fv((#[trigger] r[a]).0) != opt_fv((#[trigger] r[b]).0)
    &&& forall|a: int, b: int| 0 <= a < b < r.len() ==> row_le(#[trigger] r[a].1 as int, opt_token(opt_fv(r[a].0)), #[trigger] r[b].1 as int, opt_token(opt_fv(r[b].0)))
}

/// The frequency list of an edge feature: the edge count without edge values, else
/// the table of edge values over all edges.
pub open spec fn edge_frequency_spec(f: EdgeFeature, r: EdgeFrequency) -> bool {
    if !crate::value::meta_has(f.metadata@, "edgeValues"@) {
        exists|ks: Seq<u32>| key_order(ks, f.values@) && r == EdgeFrequency::Count(min_usize(sum_lens(ks, f.values@)) as usize)
    } else {
        exists|ks: Seq<u32>| key_order(ks, f.values@) && (r matches EdgeFrequency::Values(rows) && edge_freq_rows(f, flat_edges(ks, f.values@), rows@))
    }
}

/// Rows of the optional edge values among the edges `edges`, each value once with its
/// count (saturating) and its sort token.
fn count_values_on(f: &EdgeFeature, edges: &Vec<(u32, u32)>) -> (rows: Vec<(Option<FeatureValue>, usize, Vec<char>)>)
    ensures
        forall|j: int| 0 <= j < rows@.len() ==> (#[trigger] rows@[j]).2@ == opt_token(opt_fv(rows@[j].0)),
        forall|j: int| 0 <= j < rows@.len() ==> (#[trigger] rows@[j]).1 == min_usize(value_edges(edges@, f.edge_values@, opt_fv(rows@[j].0))) && rows@[j].1 >= 1,
        forall|e: (u32, u32)| edges@.contains(e) ==> exists|j: int| 0 <= j < rows@.len() && opt_fv((#[trigger] rows@[j]).0) == ev_at(f.edge_values@, e.0, e.1),
        forall|a: int, b: int| 0 <= a < b < rows@.len() ==> opt_fv((#[trigger] rows@[a]).0) != opt_fv((#[trigger] rows@[b]).0),
{
    let ghost ev = f.edge_values@;
    let mut rows: Vec<(Option<FeatureValue>, usize, Vec<char>)> = Vec::new();
    let ghost mut es: Seq<(u32, u32)> = seq![];
    let mut k: usize = 0;
    while k < edges.len()
        invariant
            0 <= k <= edges.len(),
            ev == f.edge_values@,
            es == edges@.take(k as int),
            forall|j: int| 0 <= j < rows@.len() ==> (#[trigger] rows@[j]).2@ == opt_token(opt_fv(rows@[j].0)),
            forall|j: int| 0 <= j < rows@.len() ==> (#[trigger] rows@[j]).1 == min_usize(value_edges(es, ev, opt_fv(rows@[j].0))) && rows@[j].1 >= 1,
            forall|e: (u32, u32)| es.contains(e) ==> exists|j: int| 0 <= j < rows@.len() && opt_fv((#[trigger] rows@[j]).0) == ev_at(ev, e.0, e.1),
            forall|a: int, b: int| 0 <= a < b < rows@.len() ==> opt_fv((#[trigger] rows@[a]).0) != opt_fv((#[trigger] rows@[b]).0),
        decreases edges.len() - k,
    {
        let s = edges[k].0;
        let t = edges[k].1;
        let v: Option<FeatureValue> = match f.edge_value(s, t) {
            Some(x) => Some(x.duplicate()),
            None => None,
        };
        let ghost es0 = es;
        let ghost rows0 = rows@;
        let ghost e = (s, t);
        proof {
            es = es.push(e);
            assert(edges@.take(k + 1) =~= edges@.take(k as int).push(e));
            assert forall|w: Option<FValue>| #[trigger] value_edges(es, ev, w) == value_edges(es0, ev, w) + (if ev_at(ev, s, t) == w { 1int } else { 0int }) by {
                es0.lemma_filter_push(e, pred_ev(ev, w));
                assert(es0.filter(pred_ev(ev, w)) == es0.filter(|e: (u32, u32)| ev_at(ev, e.0, e.1) == w));
            }
        }
        let mut j: usize = 0;
        let mut found = false;
        while j < rows.len() && !found
            invariant
                0 <= j <= rows.len(),
                rows@ == rows0,
                found ==> j < rows.len() && opt_fv(rows@[j as int].0) == opt_fv(v),
                forall|q: int| 0 <= q < j ==> opt_fv((#[trigger] rows@[q]).0) != opt_fv(v),
            decreases rows.len() - j + (if found { 0int } else { 1int }),
        {
            let same = match (&rows[j].0, &v) {
                (Some(a), Some(b)) => a.same(b),
                (None, None) => true,
                _ => false,
            };
            if same {
                found = true;
            } else {
                j += 1;
            }
        }
        if found {
            let c = rows[j].1;
            let tk = rows[j].2.clone();
            let val = match &rows[j].0 {
                Some(a) => Some(a.duplicate()),
                None => None,
            };
            rows.set(j, (val, c.saturating_add(1), tk));
            proof {
                assert forall|q: int| 0 <= q < rows@.len() implies (#[trigger] rows@[q]).1 == min_usize(value_edges(es, ev, opt_fv(rows@[q].0))) && rows@[q].1 >= 1 by {
                    if q != j {
                        assert(rows@[q] == rows0[q]);
                        assert(opt_fv(rows0[q].0) != opt_fv(v)) by {
                            if opt_fv(rows0[q].0) == opt_fv(v) {
                                assert(opt_fv(rows0[j as int].0) == opt_fv(v));
                            }
                        }
                    }
                    assert(value_edges(es, ev, opt_fv(rows@[q].0)) == value_edges(es0, ev, opt_fv(rows@[q].0)) + (if ev_at(ev, s, t) == opt_fv(rows@[q].0) { 1int } else { 0int }));
                }
                assert forall|x: (u32, u32)| es.contains(x) implies exists|q: int| 0 <= q < rows@.len() && opt_fv((#[trigger] rows@[q]).0) == ev_at(ev, x.0, x.1) by {
                    if x == e {
                        assert(opt_fv(rows@[j as int].0) == ev_at(ev, x.0, x.1));
                    } else {
                        let p = choose|p: int| 0 <= p < es.len() && es[p] == x;
                        assert(es0[p] == x);
                        assert(es0.contains(x));
                        let q = choose|q: int| 0 <= q < rows0.len() && opt_fv((#[trigger] rows0[q]).0) == ev_at(ev, x.0, x.1);
                        assert(opt_fv(rows@[q].0) == opt_fv(rows0[q].0));
                    }
                }
                assert forall|a: int, b: int| 0 <= a < b < rows@.len() implies opt_fv((#[trigger] rows@[a]).0) != opt_fv((#[trigger] rows@[b]).0) by {
                    assert(opt_fv(rows@[a].0) == opt_fv(rows0[a].0));
                    assert(opt_fv(rows@[b].0) == opt_fv(rows0[b].0));
                }
            }
        } else {
            proof {
                assert(value_edges(es0, ev, opt_fv(v)) == 0) by {
                    if value_edges(es0, ev, opt_fv(v)) > 0 {
                        let fl = es0.filter(pred_ev(ev, opt_fv(v)));
                        assert(es0.filter(pred_ev(ev, opt_fv(v))) == es0.filter(|e: (u32, u32)| ev_at(ev, e.0, e.1) == opt_fv(v)));
                        assert(fl.len() > 0);
                        let x = fl[0];
                        es0.lemma_filter_pred(pred_ev(ev, opt_fv(v)), 0);
                        assert(fl.contains(x));
                        es0.lemma_filter_contains_rev(pred_ev(ev, opt_fv(v)), x);
                        assert(es0.contains(x));
                        let q = choose|q: int| 0 <= q < rows0.len() && opt_fv((#[trigger] rows0[q]).0) == ev_at(ev, x.0, x.1);
                        assert(opt_fv(rows0[q].0) != opt_fv(v));
                    }
                }
            }
            let tk = opt_sort_token(&v);
            rows.push((v, 1, tk));
            proof {
                assert forall|q: int| 0 <= q < rows@.len() implies (#[trigger] rows@[q]).1 == min_usize(value_edges(es, ev, opt_fv(rows@[q].0))) && rows@[q].1 >= 1 by {
                    if q < rows0.len() {
                        assert(rows@[q] == rows0[q]);
                    }
                    assert(value_edges(es, ev, opt_fv(rows@[q].0)) == value_edges(es0, ev, opt_fv(rows@[q].0)) + (if ev_at(ev, s, t) == opt_fv(rows@[q].0) { 1int } else { 0int }));
                }
                assert forall|x: (u32, u32)| es.contains(x) implies exists|q: int| 0 <= q < rows@.len() && opt_fv((#[trigger] rows@[q]).0) == ev_at(ev, x.0, x.1) by {
                    if x == e {
                        assert(opt_fv(rows@[rows0.len() as int].0) == ev_at(ev, x.0, x.1));
                    } else {
                        let p = choose|p: int| 0 <= p < es.len() && es[p] == x;
                        assert(es0[p] == x);
                        assert(es0.contains(x));
                        let q = choose|q: int| 0 <= q < rows0.len() && opt_fv((#[trigger] rows0[q]).0) == ev_at(ev, x.0, x.1);
                        assert(rows@[q] == rows0[q]);
                    }
                }
            }
        }
        k += 1;
    }
    proof {
        assert(edges@.take(edges@.len() as int) =~= edges@);
    }
    rows
}

/// The frequency table of the edge values of `f` over the edges `edges`: each distinct
/// optional value with its number of edges, most frequent first, ties by token.
pub(crate) fn edge_value_rows(f: &EdgeFeature, edges: &Vec<(u32, u32)>) -> (r: Vec<(Option<FeatureValue>, usize)>)
    ensures
        edge_freq_rows(*f, edges@, r@),
{
    let rows = count_values_on(f, edges);
    let sorted = sort_rows(rows);
    let mut r: Vec<(Option<FeatureValue>, usize)> = Vec::new();
    let mut i: usize = 0;
    while i < sorted.len()
        invariant
            0 <= i <= sorted.len(),
            r@.len() == i,
            forall|j: int| 0 <= j < i ==> opt_fv((#[trigger] r@[j]).0) == opt_fv(sorted@[j].0) && r@[j].1 == sorted@[j].1,
        decreases sorted.len() - i,
    {
        let v = match &sorted[i].0 {
            Some(a) => Some(a.duplicate()),
            None => None,
        };
        r.push((v, sorted[i].1));
        i += 1;
    }
    proof {
        let es = edges@;
        assert forall|j: int| 0 <= j < sorted@.len() implies rows@.contains(#[trigger] sorted@[j]) by {
            assert(sorted@.to_multiset().count(sorted@[j]) > 0);
        }
        assert forall|j: int| 0 <= j < r@.len() implies (#[trigger] r@[j]).1 == min_usize(value_edges(es, f.edge_values@, opt_fv(r@[j].0))) && r@[j].1 >= 1 by {
            assert(rows@.contains(sorted@[j]));
            let q = choose|q: int| 0 <= q < rows@.len() && rows@[q] == sorted@[j];
        }
        assert forall|a: int, b: int| 0 <= a < b < r@.len() implies row_le(#[trigger] r@[a].1 as int, opt_token(opt_fv(r@[a].0)), #[trigger] r@[b].1 as int, opt_token(opt_fv(r@[b].0))) by {
            assert(rows@.contains(sorted@[a]));
            assert(rows@.contains(sorted@[b]));
            let qa = choose|q: int| 0 <= q < rows@.len() && rows@[q] == sorted@[a];
            let qb = choose|q: int| 0 <= q < rows@.len() && rows@[q] == sorted@[b];
            assert(rows@[qa].2@ == opt_token(opt_fv(rows@[qa].0)));
            assert(rows@[qb].2@ == opt_token(opt_fv(rows@[qb].0)));
            assert(row_le(sorted@[a].1 as int, sorted@[a].2@, sorted@[b].1 as int, sorted@[b].2@));
        }
        assert forall|e: (u32, u32)| es.contains(e) implies exists|j: int| 0 <= j < r@.len() && opt_fv((#[trigger] r@[j]).0) == ev_at(f.edge_values@, e.0, e.1) by {
            let q = choose|q: int| 0 <= q < rows@.len() && opt_fv((#[trigger] rows@[q]).0) == ev_at(f.edge_values@, e.0, e.1);
            assert(rows@.to_multiset().count(rows@[q]) > 0);
            assert(sorted@.contains(rows@[q]));
            let j = choose|j: int| 0 <= j < sorted@.len() && sorted@[j] == rows@[q];
            assert(opt_fv(r@[j].0) == ev_at(f.edge_values@, e.0, e.1));
        }
        assert forall|a: int, b: int| 0 <= a < b < r@.len() implies opt_fv((#[trigger] r@[a]).0) != opt_fv((#[trigger] r@[b]).0) by {
            assert(rows@.contains(sorted@[a]));
            assert(rows@.contains(sorted@[b]));
            let qa = choose|q: int| 0 <= q < rows@.len() && rows@[q] == sorted@[a];
            let qb = choose|q: int| 0 <= q < rows@.len() && rows@[q] == sorted@[b];
            if opt_fv(sorted@[a].0) == opt_fv(sorted@[b].0) {
                if qa == qb {
                    assert(rows@.no_duplicates()) by {
                        assert forall|x: int, y: int| 0 <= x < rows@.len() && 0 <= y < rows@.len() && x != y implies rows@[x] != rows@[y] by {
                            if x < y {
                                assert(opt_fv(rows@[x].0) != opt_fv(rows@[y].0));
                            } else {
                                assert(opt_fv(rows@[y].0) != opt_fv(rows@[x].0));
                            }
                        }
                    }
                    rows@.lemma_multiset_has_no_duplicates();
                    sorted@.lemma_multiset_has_no_duplicates_conv();
                    assert(sorted@[a] != sorted@[b]);
                } else if qa < qb {
                    assert(opt_fv(rows@[qa].0) != opt_fv(rows@[qb].0));
                } else {
                    assert(opt_fv(rows@[qb].0) != opt_fv(rows@[qa].0));
                }
            }
        }
        assert(edge_freq_rows(*f, es, r@));
    }
    r
}

/// The edges of the sources `keys`, source by source in the order of `keys`.
pub(crate) fn edges_of(f: &EdgeFeature, keys: &Vec<u32>) -> (r: Vec<(u32, u32)>)
    ensures
        r@ == flat_edges(keys@, f.values@),
{
    let mut r: Vec<(u32, u32)> = Vec::new();
    let mut i: usize = 0;
    while i < keys.len()
        invariant
            0 <= i <= keys.len(),
            r@ == flat_edges(keys@.take(i as int), f.values@),
        decreases keys.len() - i,
    {
        let s = keys[i];
        let ts = f.forward(s);
        let ghost r_start = r@;
        proof {
            lemma_flat_step(keys@, f.values@, i as int);
        }
        let mut k: usize = 0;
        while k < ts.len()
            invariant
                0 <= k <= ts.len(),
                ts@ == tg_or_empty(f.values@, s),
                r@ == r_start + ts@.take(k as int).map_values(|t: u32| (s, t)),
            decreases ts.len() - k,
        {
            proof {
                assert(ts@.take(k + 1).map_values(|t: u32| (s, t)) =~= ts@.take(k as int).map_values(|t: u32| (s, t)).push((s, ts@[k as int])));
            }
            r.push((s, ts[k]));
            k += 1;
        }
        proof {
            assert(ts@.take(ts@.len() as int) =~= ts@);
        }
        i += 1;
    }
    proof {
        assert(keys@.take(keys@.len() as int) =~= keys@);
    }
    r
}

impl EdgeFeature {
    /// Every node that is the target of some edge, ascending, each once.
    pub fn target_nodes(&self) -> (r: Vec<u32>)
        ensures
            strictly_sorted_u32(r@),
            forall|t: u32| r@.contains(t) <==> exists|s: u32| has_edge(self.values@, s, t),
    {
        let keys = map_keys(&self.values);
        let mut acc: Vec<u32> = Vec::new();
        let mut i: usize = 0;
        while i < keys.len()
            invariant
                0 <= i <= keys.len(),
                forall|k: u32| keys@.contains(k) <==> self.values@.contains_key(k),
                forall|t: u32| acc@.contains(t) <==> exists|q: int| 0 <= q < i && has_edge(self.values@, #[trigger] keys@[q], t),
            decreases keys.len() - i,
        {
            let k = keys[i];
            proof {
                assert(keys@.contains(k));
            }
            let ghost a0 = acc@;
            match self.values.get(&k) {
                Some(ts) => {
                    append_all(&mut acc, ts);
                    proof {
                        assert forall|t: u32| acc@.contains(t) <==> exists|q: int| 0 <= q < i + 1 && has_edge(self.values@, #[trigger] keys@[q], t) by {
                            lemma_concat_contains(a0, ts@, t);
                            if ts@.contains(t) {
                                assert(has_edge(self.values@, keys@[i as int], t));
                            }
                            if exists|q: int| 0 <= q < i + 1 && has_edge(self.values@, #[trigger] keys@[q], t) {
                                let q = choose|q: int| 0 <= q < i + 1 && has_edge(self.values@, #[trigger] keys@[q], t);
                                if q == i {
                                    assert(ts@.contains(t));
                                }
                            }
                        }
                    }
                },
                None => {
                    proof {
                        assert(false);
                    }
                },
            }
            i += 1;
        }
        proof {
            assert forall|t: u32| acc@.contains(t) <==> exists|s: u32| has_edge(self.values@, s, t) by {
                if exists|s: u32| has_edge(self.values@, s, t) {
                    let s = choose|s: u32| has_edge(self.values@, s, t);
                    assert(keys@.contains(s));
                    let q = choose|q: int| 0 <= q < keys@.len() && keys@[q] == s;
                    assert(has_edge(self.values@, keys@[q], t));
                }
            }
        }
        sort_dedup(acc)
    }

    /// For every target, its sources ascending and each once.
    pub fn inverse_map(&self) -> (r: HashMap<u32, Vec<u32>>)
        ensures
            forall|t: u32| r@.contains_key(t) <==> exists|s: u32| has_edge(self.values@, s, t),
            forall|t: u32| #[trigger] r@.contains_key(t) ==> sources_of(self.values@, t, r@[t]@),
    {
        let targets = self.target_nodes();
        let mut r: HashMap<u32, Vec<u32>> = HashMap::new();
        let mut i: usize = 0;
        while i < targets.len()
            invariant
                0 <= i <= targets.len(),
                forall|t: u32| targets@.contains(t) <==> exists|s: u32| has_edge(self.values@, s, t),
                forall|t: u32| r@.contains_key(t) <==> exists|q: int| 0 <= q < i && targets@[q] == t,
                forall|t: u32| #[trigger] r@.contains_key(t) ==> sources_of(self.values@, t, r@[t]@),
            decreases targets.len() - i,
        {
            let t = targets[i];
            let srcs = sort_dedup(self.backward(t));
            r.insert(t, srcs);
            i += 1;
        }
        proof {
            assert forall|t: u32| r@.contains_key(t) <==> exists|s: u32| has_edge(self.values@, s, t) by {
                if exists|s: u32| has_edge(self.values@, s, t) {
                    assert(targets@.contains(t));
                    let q = choose|q: int| 0 <= q < targets@.len() && targets@[q] == t;
                }
                if r@.contains_key(t) {
                    let q = choose|q: int| 0 <= q < targets@.len() && targets@[q] == t;
                    assert(targets@.contains(t));
                }
            }
        }
        r
    }

    /// The inverse map (short name).
    pub fn data_inv(&self) -> (r: HashMap<u32, Vec<u32>>)
        ensures
            forall|t: u32| r@.contains_key(t) <==> exists|s: u32| has_edge(self.values@, s, t),
            forall|t: u32| #[trigger] r@.contains_key(t) ==> sources_of(self.values@, t, r@[t]@),
    {
        self.inverse_map()
    }

    /// The inverse map (camel-case name).
    #[allow(non_snake_case)]
    pub fn dataInv(&self) -> (r: HashMap<u32, Vec<u32>>)
        ensures
            forall|t: u32| r@.contains_key(t) <==> exists|s: u32| has_edge(self.values@, s, t),
            forall|t: u32| #[trigger] r@.contains_key(t) ==> sources_of(self.values@, t, r@[t]@),
    {
        self.data_inv()
    }

    /// For every source, its targets with their edge values.
    pub fn data_with_values(&self) -> (r: HashMap<u32, Vec<(u32, Option<FeatureValue>)>>)
        ensures
            r@.dom() == self.values@.dom(),
            forall|s: u32| #[trigger] r@.contains_key(s) ==> firsts(r@[s]@) == tg_or_empty(self.values@, s)
                && forall|i: int| 0 <= i < r@[s]@.len() ==> opt_fv((#[trigger] r@[s]@[i]).1) == ev_at(self.edge_values@, s, r@[s]@[i].0),
    {
        let keys = map_keys(&self.values);
        let mut r: HashMap<u32, Vec<(u32, Option<FeatureValue>)>> = HashMap::new();
        let mut i: usize = 0;
        while i < keys.len()
            invariant
                0 <= i <= keys.len(),
                forall|k: u32| keys@.contains(k) <==> self.values@.contains_key(k),
                forall|t: u32| r@.contains_key(t) <==> exists|q: int| 0 <= q < i && keys@[q] == t,
                forall|s: u32| #[trigger] r@.contains_key(s) ==> firsts(r@[s]@) == tg_or_empty(self.values@, s)
                    && forall|i: int| 0 <= i < r@[s]@.len() ==> opt_fv((#[trigger] r@[s]@[i]).1) == ev_at(self.edge_values@, s, r@[s]@[i].0),
            decreases keys.len() - i,
        {
            let k = keys[i];
            let rows = self.forward_with_values(k);
            proof {
                assert(firsts(rows@) =~= tg_or_empty(self.values@, k));
            }
            r.insert(k, rows);
            i += 1;
        }
        proof {
            assert forall|s: u32| r@.contains_key(s) <==> self.values@.contains_key(s) by {
                if self.values@.contains_key(s) {
                    assert(keys@.contains(s));
                    let q = choose|q: int| 0 <= q < keys@.len() && keys@[q] == s;
                }
                if r@.contains_key(s) {
                    let q = choose|q: int| 0 <= q < i && keys@[q] == s;
                    assert(keys@.contains(s));
                }
            }
            assert(r@.dom() =~= self.values@.dom());
        }
        r
    }

    /// Targets with edge values per source (camel-case name).
    #[allow(non_snake_case)]
    pub fn dataWithValues(&self) -> (r: HashMap<u32, Vec<(u32, Option<FeatureValue>)>>)
        ensures
            r@.dom() == self.values@.dom(),
            forall|s: u32| #[trigger] r@.contains_key(s) ==> firsts(r@[s]@) == tg_or_empty(self.values@, s)
                && forall|i: int| 0 <= i < r@[s]@.len() ==> opt_fv((#[trigger] r@[s]@[i]).1) == ev_at(self.edge_values@, s, r@[s]@[i].0),
    {
        self.data_with_values()
    }

    /// For every target, its sources ascending and each once, with the edge values.
    pub fn data_inv_with_values(&self) -> (r: HashMap<u32, Vec<(u32, Option<FeatureValue>)>>)
        ensures
            forall|t: u32| r@.contains_key(t) <==> exists|s: u32| has_edge(self.values@, s, t),
            forall|t: u32| #[trigger] r@.contains_key(t) ==> sources_of(self.values@, t, firsts(r@[t]@))
                && forall|i: int| 0 <= i < r@[t]@.len() ==> opt_fv((#[trigger] r@[t]@[i]).1) == ev_at(self.edge_values@, r@[t]@[i].0, t),
    {
        let targets = self.target_nodes();
        let mut r: HashMap<u32, Vec<(u32, Option<FeatureValue>)>> = HashMap::new();
        let mut i: usize = 0;
        while i < targets.len()
            invariant
                0 <= i <= targets.len(),
                forall|t: u32| targets@.contains(t) <==> exists|s: u32| has_edge(self.values@, s, t),
                forall|t: u32| r@.contains_key(t) <==> exists|q: int| 0 <= q < i && targets@[q] == t,
                forall|t: u32| #[trigger] r@.contains_key(t) ==> sources_of(self.values@, t, firsts(r@[t]@))
                    && forall|i: int| 0 <= i < r@[t]@.len() ==> opt_fv((#[trigger] r@[t]@[i]).1) == ev_at(self.edge_values@, r@[t]@[i].0, t),
            decreases targets.len() - i,
        {
            let t = targets[i];
            let srcs = sort_dedup(self.backward(t));
            let mut rows: Vec<(u32, Option<FeatureValue>)> = Vec::new();
            let mut j: usize = 0;
            while j < srcs.len()
                invariant
                    0 <= j <= srcs.len(),
                    rows@.len() == j,
                    forall|q: int| 0 <= q < j ==> (#[trigger] rows@[q]).0 == srcs@[q] && opt_fv(rows@[q].1) == ev_at(self.edge_values@, rows@[q].0, t),
                decreases srcs.len() - j,
            {
                let s = srcs[j];
                let v = match self.edge_value(s, t) {
                    Some(x) => Some(x.duplicate()),
                    None => None,
                };
                rows.push((s, v));
                j += 1;
            }
            proof {
                assert(firsts(rows@) =~= srcs@);
            }
            r.insert(t, rows);
            i += 1;
        }
        proof {
            assert forall|t: u32| r@.contains_key(t) <==> exists|s: u32| has_edge(self.values@, s, t) by {
                if exists|s: u32| has_edge(self.values@, s, t) {
                    assert(targets@.contains(t));
                    let q = choose|q: int| 0 <= q < targets@.len() && targets@[q] == t;
                }
                if r@.contains_key(t) {
                    let q = choose|q: int| 0 <= q < targets@.len() && targets@[q] == t;
                    assert(targets@.contains(t));
                }
            }
        }
        r
    }

    /// Sources with edge values per target (camel-case name).
    #[allow(non_snake_case)]
    pub fn dataInvWithValues(&self) -> (r: HashMap<u32, Vec<(u32, Option<FeatureValue>)>>)
        ensures
            forall|t: u32| r@.contains_key(t) <==> exists|s: u32| has_edge(self.values@, s, t),
            forall|t: u32| #[trigger] r@.contains_key(t) ==> sources_of(self.values@, t, firsts(r@[t]@))
                && forall|i: int| 0 <= i < r@[t]@.len() ==> opt_fv((#[trigger] r@[t]@[i]).1) == ev_at(self.edge_values@, r@[t]@[i].0, t),
    {
        self.data_inv_with_values()
    }

    /// The neighbours of `node` in canonical order, each with the value of the edge
    /// between them (the outgoing edge's value where both directions exist).
    pub fn both_with_values(&self, node: u32) -> (r: Vec<(u32, Option<FeatureValue>)>)
        ensures
            forall|x: u32| firsts(r@).contains(x) <==> (has_edge(self.values@, node, x) || has_edge(self.values@, x, node)),
            firsts(r@).no_duplicates(),
            sorted_by_rank(firsts(r@), self.rank_table()),
            forall|i: int| 0 <= i < r@.len() ==> opt_fv((#[trigger] r@[i]).1) == if has_edge(self.values@, node, r@[i].0) {
                ev_at(self.edge_values@, node, r@[i].0)
            } else {
                ev_at(self.edge_values@, r@[i].0, node)
            },
    {
        let nb = self.both(node);
        let nodes = canonical_unique(nb, &self.rank);
        let mut r: Vec<(u32, Option<FeatureValue>)> = Vec::new();
        let mut i: usize = 0;
        while i < nodes.len()
            invariant
                0 <= i <= nodes.len(),
                r@.len() == i,
                forall|q: int| 0 <= q < i ==> (#[trigger] r@[q]).0 == nodes@[q] && opt_fv(r@[q].1) == if has_edge(self.values@, node, r@[q].0) {
                    ev_at(self.edge_values@, node, r@[q].0)
                } else {
                    ev_at(self.edge_values@, r@[q].0, node)
                },
            decreases nodes.len() - i,
        {
            let x = nodes[i];
            let out = self.forward(node);
            let fwd = crate::feature::vec_contains(&out, x);
            let v = if fwd {
                match self.edge_value(node, x) {
                    Some(e) => Some(e.duplicate()),
                    None => None,
                }
            } else {
                match self.edge_value(x, node) {
                    Some(e) => Some(e.duplicate()),
                    None => None,
                }
            };
            r.push((x, v));
            i += 1;
        }
        proof {
            assert(firsts(r@) =~= nodes@);
        }
        r
    }

    /// The neighbours with edge values (short name).
    pub fn b_with_values(&self, node: u32) -> (r: Vec<(u32, Option<FeatureValue>)>)
        ensures
            forall|x: u32| firsts(r@).contains(x) <==> (has_edge(self.values@, node, x) || has_edge(self.values@, x, node)),
            firsts(r@).no_duplicates(),
            sorted_by_rank(firsts(r@), self.rank_table()),
            forall|i: int| 0 <= i < r@.len() ==> opt_fv((#[trigger] r@[i]).1) == if has_edge(self.values@, node, r@[i].0) {
                ev_at(self.edge_values@, node, r@[i].0)
            } else {
                ev_at(self.edge_values@, r@[i].0, node)
            },
    {
        self.both_with_values(node)
    }

    /// The sources in canonical order, each once.
    fn canonical_sources(&self) -> (r: Vec<u32>)
        ensures
            forall|x: u32| r@.contains(x) <==> self.values@.contains_key(x),
            r@.no_duplicates(),
            sorted_by_rank(r@, self.rank_table()),
    {
        let keys = map_keys(&self.values);
        canonical_unique(keys, &self.rank)
    }

    /// Every source with its targets, both in canonical order and each once.
    pub fn items(&self) -> (r: Vec<(u32, Vec<u32>)>)
        ensures
            forall|x: u32| firsts(r@).contains(x) <==> self.values@.contains_key(x),
            firsts(r@).no_duplicates(),
            sorted_by_rank(firsts(r@), self.rank_table()),
            forall|i: int| 0 <= i < r@.len() ==> {
                &&& forall|t: u32| (#[trigger] r@[i]).1@.contains(t) <==> has_edge(self.values@, r@[i].0, t)
                &&& r@[i].1@.no_duplicates()
                &&& sorted_by_rank(r@[i].1@, self.rank_table())
            },
    {
        let srcs = self.canonical_sources();
        let mut r: Vec<(u32, Vec<u32>)> = Vec::new();
        let mut i: usize = 0;
        while i < srcs.len()
            invariant
                0 <= i <= srcs.len(),
                r@.len() == i,
                forall|q: int| 0 <= q < i ==> {
                    &&& (#[trigger] r@[q]).0 == srcs@[q]
                    &&& forall|t: u32| r@[q].1@.contains(t) <==> has_edge(self.values@, r@[q].0, t)
                    &&& r@[q].1@.no_duplicates()
                    &&& sorted_by_rank(r@[q].1@, self.rank_table())
                },
            decreases srcs.len() - i,
        {
            let s = srcs[i];
            let ts = canonical_unique(self.forward(s), &self.rank);
            r.push((s, ts));
            i += 1;
        }
        proof {
            assert(firsts(r@) =~= srcs@);
        }
        r
    }

    /// Every source with its targets and edge values, sources in canonical order.
    pub fn items_with_values(&self) -> (r: Vec<(u32, Vec<(u32, Option<FeatureValue>)>)>)
        ensures
            forall|x: u32| firsts(r@).contains(x) <==> self.values@.contains_key(x),
            firsts(r@).no_duplicates(),
            sorted_by_rank(firsts(r@), self.rank_table()),
            forall|i: int| 0 <= i < r@.len() ==> firsts((#[trigger] r@[i]).1@) == tg_or_empty(self.values@, r@[i].0)
                && forall|k: int| 0 <= k < r@[i].1@.len() ==> opt_fv((#[trigger] r@[i].1@[k]).1) == ev_at(self.edge_values@, r@[i].0, r@[i].1@[k].0),
    {
        let srcs = self.canonical_sources();
        let mut r: Vec<(u32, Vec<(u32, Option<FeatureValue>)>)> = Vec::new();
        let mut i: usize = 0;
        while i < srcs.len()
            invariant
                0 <= i <= srcs.len(),
                r@.len() == i,
                forall|q: int| 0 <= q < i ==> (#[trigger] r@[q]).0 == srcs@[q] && firsts(r@[q].1@) == tg_or_empty(self.values@, r@[q].0)
                    && forall|k: int| 0 <= k < r@[q].1@.len() ==> opt_fv((#[trigger] r@[q].1@[k]).1) == ev_at(self.edge_values@, r@[q].0, r@[q].1@[k].0),
            decreases srcs.len() - i,
        {
            let s = srcs[i];
            let rows = self.forward_with_values(s);
            proof {
                assert(firsts(rows@) =~= tg_or_empty(self.values@, s));
            }
            r.push((s, rows));
            i += 1;
        }
        proof {
            assert(firsts(r@) =~= srcs@);
        }
        r
    }

    /// Sources with targets and edge values (camel-case name).
    #[allow(non_snake_case)]
    pub fn itemsWithValues(&self) -> (r: Vec<(u32, Vec<(u32, Option<FeatureValue>)>)>)
        ensures
            forall|x: u32| firsts(r@).contains(x) <==> self.values@.contains_key(x),
            firsts(r@).no_duplicates(),
            sorted_by_rank(firsts(r@), self.rank_table()),
            forall|i: int| 0 <= i < r@.len() ==> firsts((#[trigger] r@[i]).1@) == tg_or_empty(self.values@, r@[i].0)
                && forall|k: int| 0 <= k < r@[i].1@.len() ==> opt_fv((#[trigger] r@[i].1@[k]).1) == ev_at(self.edge_values@, r@[i].0, r@[i].1@[k].0),
    {
        self.items_with_values()
    }

    /// The number of entries in all target lists (saturating at the largest `usize`).
    pub fn edge_count(&self) -> (r: usize)
        ensures
            exists|ks: Seq<u32>| key_order(ks, self.values@) && r == min_usize(sum_lens(ks, self.values@)),
    {
        let keys = map_keys(&self.values);
        let mut total: usize = 0;
        let mut i: usize = 0;
        while i < keys.len()
            invariant
                0 <= i <= keys.len(),
                total == min_usize(sum_lens(keys@.take(i as int), self.values@)),
            decreases keys.len() - i,
        {
            let k = keys[i];
            proof {
                assert(keys@.take(i + 1).drop_last() =~= keys@.take(i as int));
            }
            let n: usize = match self.values.get(&k) {
                Some(ts) => ts.len(),
                None => 0,
            };
            total = total.saturating_add(n);
            i += 1;
        }
        proof {
            assert(keys@.take(keys@.len() as int) =~= keys@);
            assert(key_order(keys@, self.values@));
        }
        total
    }

    /// The number of stored edge values, over all sources (saturating at the largest `usize`).
    pub fn edge_value_count(&self) -> (r: usize)
        ensures
            exists|ks: Seq<u32>| key_order(ks, self.edge_values@) && r == min_usize(sum_sizes(ks, self.edge_values@)),
    {
        let keys = map_keys(&self.edge_values);
        let mut total: usize = 0;
        let mut i: usize = 0;
        while i < keys.len()
            invariant
                0 <= i <= keys.len(),
                total == min_usize(sum_sizes(keys@.take(i as int), self.edge_values@)),
            decreases keys.len() - i,
        {
            let k = keys[i];
            proof {
                assert(keys@.take(i + 1).drop_last() =~= keys@.take(i as int));
            }
            let n: usize = match self.edge_values.get(&k) {
                Some(inner) => inner.len(),
                None => 0,
            };
            total = total.saturating_add(n);
            i += 1;
        }
        proof {
            assert(keys@.take(keys@.len() as int) =~= keys@);
            assert(key_order(keys@, self.edge_values@));
        }
        total
    }

    /// The frequency list: the edge count without edge values, else each distinct
    /// optional edge value with its number of edges, most frequent first, ties by token.
    pub fn frequency_list(&self) -> (r: EdgeFrequency)
        ensures
            edge_frequency_spec(*self, r),
    {
        if !self.has_edge_values() {
            return EdgeFrequency::Count(self.edge_count());
        }
        let keys = map_keys(&self.values);
        let edges = edges_of(self, &keys);
        let r = edge_value_rows(self, &edges);
        proof {
            assert(key_order(keys@, self.values@));
        }
        EdgeFrequency::Values(r)
    }

    /// The frequency list (short name).
    pub fn freq_list(&self) -> (r: EdgeFrequency)
        ensures
            edge_frequency_spec(*self, r),
    {
        self.frequency_list()
    }

    /// The frequency list (camel-case name).
    #[allow(non_snake_case)]
    pub fn freqList(&self) -> (r: EdgeFrequency)
        ensures
            edge_frequency_spec(*self, r),
    {
        self.frequency_list()
    }
}

} // verus!

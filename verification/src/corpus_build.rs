//! Building a corpus from its features: node types and their node lists, the type
//! ranks, the canonical order of the nodes and their ranks.

use std::collections::HashMap;
use vstd::prelude::*;
use crate::corpus::{ef_key, find_edge_feature, find_key, find_named, find_node_feature, lemma_find_key, named_get, nf_key, pair_key, Corpus};
use crate::error::{CfError, CfErrorView};
use crate::feature::{fv_at, map_keys, EdgeFeature, NodeFeature};
use crate::sorting::{copy_nodes, sort_dedup, strictly_sorted_u32};
use crate::strs::{copy_string, owned, str_lt, string_eq};
use crate::value::{FValue, FeatureValue, Metadata};

verus! {

broadcast use {vstd::std_specs::hash::group_hash_axioms, vstd::seq_lib::group_to_multiset_ensures};

/// `m` is the largest element of `s`, or 0 when `s` is empty.
pub open spec fn is_max_of(m: u32, s: Set<u32>) -> bool {
    (forall|n: u32| s.contains(n) ==> n <= m) && (m == 0 || s.contains(m)) && (s.is_empty() ==> m == 0)
}

/// The string value of `n`, when it has one.
pub open spec fn str_val(values: Map<u32, FeatureValue>, n: u32) -> Option<Seq<char>> {
    match fv_at(values, n) {
        Some(FValue::Str(t)) => Some(t),
        _ => None,
    }
}

/// The nodes with a value in `values`.
pub open spec fn valued_nodes(values: Map<u32, FeatureValue>) -> Set<u32> {
    values.dom()
}

/// The nodes whose value in `values` is the string `t`.
pub open spec fn typed_nodes(values: Map<u32, FeatureValue>, t: Seq<char>) -> Set<u32> {
    Set::new(|n: u32| fv_at(values, n) == Some(FValue::Str(t)))
}

/// The groups list every string value once with its nodes, ascending.
pub open spec fn groups_ok(values: Map<u32, FeatureValue>, groups: Seq<(String, Vec<u32>)>) -> bool {
    &&& forall|a: int, b: int| 0 <= a < b < groups.len() ==> (#[trigger] groups[a]).0@ != (#[trigger] groups[b]).0@
    &&& forall|j: int| 0 <= j < groups.len() ==> strictly_sorted_u32((#[trigger] groups[j]).1@)
    &&& forall|j: int, n: u32| 0 <= j < groups.len() ==> (#[trigger] groups[j].1@.contains(n) <==> fv_at(values, n) == Some(FValue::Str(groups[j].0@)))
    &&& forall|n: u32| #[trigger] str_val(values, n) is Some ==> exists|j: int| 0 <= j < groups.len() && (#[trigger] groups[j]).0@ == str_val(values, n)->0
}

/// The largest node, the largest node of type `slot_type`, and the node lists by type.
pub fn scan_types(values: &HashMap<u32, FeatureValue>, slot_type: &str) -> (r: (u32, u32, Vec<(String, Vec<u32>)>))
    ensures
        is_max_of(r.0, valued_nodes(values@)),
        is_max_of(r.1, typed_nodes(values@, slot_type@)),
        groups_ok(values@, r.2@),
{
    let keys = map_keys(values);
    let mut max_node: u32 = 0;
    let mut max_slot: u32 = 0;
    let mut groups: Vec<(String, Vec<u32>)> = Vec::new();
    let mut i: usize = 0;
    while i < keys.len()
        invariant
            0 <= i <= keys.len(),
            keys@.no_duplicates(),
            forall|k: u32| keys@.contains(k) <==> values@.contains_key(k),
            is_max_of(max_node, Set::new(|n: u32| keys@.take(i as int).contains(n))),
            is_max_of(max_slot, Set::new(|n: u32| keys@.take(i as int).contains(n) && fv_at(values@, n) == Some(FValue::Str(slot_type@)))),
            forall|a: int, b: int| 0 <= a < b < groups@.len() ==> (#[trigger] groups@[a]).0@ != (#[trigger] groups@[b]).0@,
            forall|j: int, n: u32| 0 <= j < groups@.len() ==> (#[trigger] groups@[j].1@.contains(n) <==> (keys@.take(i as int).contains(n) && fv_at(values@, n) == Some(FValue::Str(groups@[j].0@)))),
            forall|n: u32| keys@.take(i as int).contains(n) && #[trigger] str_val(values@, n) is Some ==> exists|j: int| 0 <= j < groups@.len() && (#[trigger] groups@[j]).0@ == str_val(values@, n)->0,
        decreases keys.len() - i,
    {
        let n = keys[i];
        proof {
            assert(keys@.take(i + 1) == keys@.take(i as int).push(n));
            assert(keys@.contains(n));
            assert forall|x: u32| keys@.take(i + 1).contains(x) <==> (keys@.take(i as int).contains(x) || x == n) by {
                crate::sorting::lemma_push_contains_pub(keys@.take(i as int), n, x);
            }
        }
        let v = match values.get(&n) {
            Some(v) => v,
            None => {
                proof {
                    assert(false);
                }
                return (0, 0, Vec::new());
            },
        };
        if n > max_node {
            max_node = n;
        }
        let ghost g0 = groups@;
        match v.as_str() {
            Some(t) => {
                if crate::strs::str_eq(t, slot_type) && n > max_slot {
                    max_slot = n;
                }
                match find_named(&groups, t) {
                    Some(j) => {
                        proof {
                            lemma_find_key(g0, pair_key::<Vec<u32>>(), t@);
                        }
                        let mut list = copy_nodes(groups[j].1.as_slice());
                        list.push(n);
                        let name = copy_string(&groups[j].0);
                        groups.set(j, (name, list));
                        proof {
                            assert forall|q: int, x: u32| 0 <= q < groups@.len() implies (#[trigger] groups@[q].1@.contains(x) <==> (keys@.take(i + 1).contains(x) && fv_at(values@, x) == Some(FValue::Str(groups@[q].0@)))) by {
                                if q == j {
                                    crate::sorting::lemma_push_contains_pub(g0[q].1@, n, x);
                                    assert(g0[q].1@.contains(x) <==> (keys@.take(i as int).contains(x) && fv_at(values@, x) == Some(FValue::Str(g0[q].0@))));
                                } else {
                                    assert(groups@[q] == g0[q]);
                                    assert(g0[q].1@.contains(x) <==> (keys@.take(i as int).contains(x) && fv_at(values@, x) == Some(FValue::Str(g0[q].0@))));
                                    if x == n {
                                        assert(g0[q].0@ != g0[j as int].0@) by {
                                            if q < j {
                                                assert(g0[q].0@ != g0[j as int].0@);
                                            } else {
                                                assert(g0[j as int].0@ != g0[q].0@);
                                            }
                                        }
                                    }
                                }
                            }
                            assert forall|a: int, b: int| 0 <= a < b < groups@.len() implies (#[trigger] groups@[a]).0@ != (#[trigger] groups@[b]).0@ by {
                                assert(groups@[a].0@ == g0[a].0@);
                                assert(groups@[b].0@ == g0[b].0@);
                            }
                            assert forall|x: u32| keys@.take(i + 1).contains(x) && #[trigger] str_val(values@, x) is Some implies exists|q: int| 0 <= q < groups@.len() && (#[trigger] groups@[q]).0@ == str_val(values@, x)->0 by {
                                if x == n {
                                    assert(groups@[j as int].0@ == t@);
                                } else {
                                    let q = choose|q: int| 0 <= q < g0.len() && (#[trigger] g0[q]).0@ == str_val(values@, x)->0;
                                    assert(groups@[q].0@ == g0[q].0@);
                                }
                            }
                        }
                    },
                    None => {
                        proof {
                            lemma_find_key(g0, pair_key::<Vec<u32>>(), t@);
                        }
                        let mut list: Vec<u32> = Vec::new();
                        list.push(n);
                        groups.push((owned(t), list));
                        proof {
                            assert(fv_at(values@, n) == Some(FValue::Str(t@)));
                            assert(groups@[g0.len() as int].0@ == t@);
                            assert forall|q: int, x: u32| 0 <= q < groups@.len() implies (#[trigger] groups@[q].1@.contains(x) <==> (keys@.take(i + 1).contains(x) && fv_at(values@, x) == Some(FValue::Str(groups@[q].0@)))) by {
                                if q == g0.len() {
                                    assert(groups@[q].1@ =~= seq![n]);
                                    assert(groups@[q].0@ == t@);
                                    if groups@[q].1@.contains(x) {
                                        assert(groups@[q].1@[0] == n);
                                        assert(x == n);
                                        assert(keys@.take(i + 1).contains(n));
                                    }
                                    if x == n {
                                        assert(groups@[q].1@[0] == n);
                                    }
                                    if x != n && keys@.take(i as int).contains(x) && fv_at(values@, x) == Some(FValue::Str(t@)) {
                                        assert(str_val(values@, x) == Some(t@));
                                        let w = choose|w: int| 0 <= w < g0.len() && (#[trigger] g0[w]).0@ == str_val(values@, x)->0;
                                        assert(pair_key::<Vec<u32>>()(g0[w]) == t@);
                                    }
                                } else {
                                    assert(groups@[q] == g0[q]);
                                    assert(g0[q].1@.contains(x) <==> (keys@.take(i as int).contains(x) && fv_at(values@, x) == Some(FValue::Str(g0[q].0@))));
                                    if x == n {
                                        assert(pair_key::<Vec<u32>>()(g0[q]) != t@);
                                    }
                                }
                            }
                            assert forall|a: int, b: int| 0 <= a < b < groups@.len() implies (#[trigger] groups@[a]).0@ != (#[trigger] groups@[b]).0@ by {
                                if b == g0.len() {
                                    assert(pair_key::<Vec<u32>>()(g0[a]) != t@);
                                } else {
                                    assert(groups@[a] == g0[a]);
                                    assert(groups@[b] == g0[b]);
                                }
                            }
                            assert forall|x: u32| keys@.take(i + 1).contains(x) && #[trigger] str_val(values@, x) is Some implies exists|q: int| 0 <= q < groups@.len() && (#[trigger] groups@[q]).0@ == str_val(values@, x)->0 by {
                                if x == n {
                                    assert(groups@[g0.len() as int].0@ == t@);
                                } else {
                                    let q = choose|q: int| 0 <= q < g0.len() && (#[trigger] g0[q]).0@ == str_val(values@, x)->0;
                                    assert(groups@[q] == g0[q]);
                                }
                            }
                        }
                    },
                }
            },
            None => {
                proof {
                    assert forall|q: int, x: u32| 0 <= q < groups@.len() implies (#[trigger] groups@[q].1@.contains(x) <==> (keys@.take(i + 1).contains(x) && fv_at(values@, x) == Some(FValue::Str(groups@[q].0@)))) by {
                    }
                }
            },
        }
        proof {
            assert(Set::new(|x: u32| keys@.take(i + 1).contains(x)) =~= Set::new(|x: u32| keys@.take(i as int).contains(x)).insert(n));
            assert(fv_at(values@, n) == Some(v@));
            if fv_at(values@, n) == Some(FValue::Str(slot_type@)) {
                assert(Set::new(|x: u32| keys@.take(i + 1).contains(x) && fv_at(values@, x) == Some(FValue::Str(slot_type@)))
                    =~= Set::new(|x: u32| keys@.take(i as int).contains(x) && fv_at(values@, x) == Some(FValue::Str(slot_type@))).insert(n));
            } else {
                assert(Set::new(|x: u32| keys@.take(i + 1).contains(x) && fv_at(values@, x) == Some(FValue::Str(slot_type@)))
                    =~= Set::new(|x: u32| keys@.take(i as int).contains(x) && fv_at(values@, x) == Some(FValue::Str(slot_type@))));
            }
        }
        i += 1;
    }
    proof {
        assert(keys@.take(keys@.len() as int) == keys@);
        assert(Set::new(|x: u32| keys@.contains(x)) =~= valued_nodes(values@));
        assert(Set::new(|x: u32| keys@.contains(x) && fv_at(values@, x) == Some(FValue::Str(slot_type@))) =~= typed_nodes(values@, slot_type@));
    }
    let mut out: Vec<(String, Vec<u32>)> = Vec::new();
    let mut j: usize = 0;
    while j < groups.len()
        invariant
            0 <= j <= groups.len(),
            out@.len() == j,
            forall|q: int| 0 <= q < j ==> (#[trigger] out@[q]).0@ == groups@[q].0@ && strictly_sorted_u32(out@[q].1@)
                && forall|x: u32| out@[q].1@.contains(x) <==> groups@[q].1@.contains(x),
        decreases groups.len() - j,
    {
        let name = copy_string(&groups[j].0);
        let list = sort_dedup(copy_nodes(groups[j].1.as_slice()));
        out.push((name, list));
        j += 1;
    }
    proof {
        assert(keys@.take(keys@.len() as int) == keys@);
        assert forall|q: int, x: u32| 0 <= q < out@.len() implies (#[trigger] out@[q].1@.contains(x) <==> fv_at(values@, x) == Some(FValue::Str(out@[q].0@))) by {
            assert(groups@[q].1@.contains(x) <==> (keys@.take(keys@.len() as int).contains(x) && fv_at(values@, x) == Some(FValue::Str(groups@[q].0@))));
        }
        assert forall|x: u32| #[trigger] str_val(values@, x) is Some implies exists|q: int| 0 <= q < out@.len() && (#[trigger] out@[q]).0@ == str_val(values@, x)->0 by {
            assert(keys@.contains(x));
            let q = choose|q: int| 0 <= q < groups@.len() && (#[trigger] groups@[q]).0@ == str_val(values@, x)->0;
            assert(out@[q].0@ == str_val(values@, x)->0);
        }
    }
    (max_node, max_slot, out)
}

/// The number of slots of the nodes: one for a slot, the length of the stored slot
/// list otherwise.
pub open spec fn slot_sum(nodes: Seq<u32>, max_slot: u32, os: Map<u32, Vec<u32>>) -> nat
    decreases nodes.len(),
{
    if nodes.len() == 0 {
        0
    } else {
        slot_sum(nodes.drop_last(), max_slot, os) + (if nodes.last() <= max_slot {
            1
        } else {
            crate::feature::tg_or_empty(os, nodes.last()).len()
        })
    }
}

pub open spec fn at_least_one(n: nat) -> nat {
    if n == 0 { 1 } else { n }
}

/// Type `a` (with `ca` slots over `na` nodes) ranks above type `b`: more slots per node,
/// or as many and a name that sorts first.
pub open spec fn denser(ca: nat, na: nat, ta: Seq<char>, cb: nat, nb: nat, tb: Seq<char>) -> bool {
    ca * at_least_one(nb) > cb * at_least_one(na) || (ca * at_least_one(nb) == cb * at_least_one(na) && str_lt(ta, tb))
}

/// The number of non-slot groups before `upto` that group `k` ranks above.
pub open spec fn outranked(g: Seq<(String, Vec<u32>)>, c: Seq<usize>, slot: Seq<char>, k: int, upto: int) -> nat
    decreases upto,
{
    if upto <= 0 {
        0
    } else {
        outranked(g, c, slot, k, upto - 1) + (if upto - 1 != k && g[upto - 1].0@ != slot
            && denser(c[k] as nat, g[k].1@.len(), g[k].0@, c[upto - 1] as nat, g[upto - 1].1@.len(), g[upto - 1].0@) { 1nat } else { 0nat })
    }
}

/// The rank of group `k`: 0 for the slot type, else one more than the number of
/// non-slot types it ranks above.
pub open spec fn group_rank(g: Seq<(String, Vec<u32>)>, c: Seq<usize>, slot: Seq<char>, k: int) -> u32 {
    if g[k].0@ == slot { 0 } else { (1 + outranked(g, c, slot, k, g.len() as int)) as u32 }
}

/// The type ranks of the groups, with the slot type added at rank 0 when no group has it.
pub open spec fn ranks_ok(g: Seq<(String, Vec<u32>)>, c: Seq<usize>, slot: Seq<char>, r: Seq<(String, u32)>) -> bool {
    let present = exists|k: int| 0 <= k < g.len() && (#[trigger] g[k]).0@ == slot;
    &&& r.len() == g.len() + (if present { 0int } else { 1int })
    &&& forall|k: int| 0 <= k < g.len() ==> (#[trigger] r[k]).0@ == g[k].0@ && r[k].1 == group_rank(g, c, slot, k)
    &&& !present ==> r[g.len() as int].0@ == slot && r[g.len() as int].1 == 0
}

/// The number of slots of the nodes (saturating at the largest `usize`).
fn slot_count(nodes: &Vec<u32>, max_slot: u32, oslots: &EdgeFeature) -> (r: usize)
    ensures
        r == crate::edge_tables::min_usize(slot_sum(nodes@, max_slot, oslots.values@)),
{
    let mut total: usize = 0;
    let mut i: usize = 0;
    while i < nodes.len()
        invariant
            0 <= i <= nodes.len(),
            total == crate::edge_tables::min_usize(slot_sum(nodes@.take(i as int), max_slot, oslots.values@)),
        decreases nodes.len() - i,
    {
        proof {
            assert(nodes@.take(i + 1).drop_last() =~= nodes@.take(i as int));
        }
        let n = nodes[i];
        let add: usize = if n <= max_slot {
            1
        } else {
            match oslots.targets(n) {
                Some(t) => t.len(),
                None => 0,
            }
        };
        total = total.saturating_add(add);
        i += 1;
    }
    proof {
        assert(nodes@.take(nodes@.len() as int) =~= nodes@);
    }
    total
}

fn denser_exec(ca: usize, na: usize, ta: &String, cb: usize, nb: usize, tb: &String) -> (r: bool)
    ensures
        r == denser(ca as nat, na as nat, ta@, cb as nat, nb as nat, tb@),
{
    let na1: u128 = if na == 0 { 1 } else { na as u128 };
    let nb1: u128 = if nb == 0 { 1 } else { nb as u128 };
    proof {
        assert(ca as u128 * nb1 <= 0xffff_ffff_ffff_ffffu128 * 0xffff_ffff_ffff_ffffu128) by (nonlinear_arith)
            requires
                ca as u128 <= 0xffff_ffff_ffff_ffffu128,
                nb1 <= 0xffff_ffff_ffff_ffffu128,
        ;
        assert(cb as u128 * na1 <= 0xffff_ffff_ffff_ffffu128 * 0xffff_ffff_ffff_ffffu128) by (nonlinear_arith)
            requires
                cb as u128 <= 0xffff_ffff_ffff_ffffu128,
                na1 <= 0xffff_ffff_ffff_ffffu128,
        ;
    }
    let l: u128 = ca as u128 * nb1;
    let rr: u128 = cb as u128 * na1;
    proof {
        assert(l == ca as nat * at_least_one(nb as nat)) by (nonlinear_arith)
            requires
                l == ca as u128 * nb1,
                nb1 == at_least_one(nb as nat),
        ;
        assert(rr == cb as nat * at_least_one(na as nat)) by (nonlinear_arith)
            requires
                rr == cb as u128 * na1,
                na1 == at_least_one(na as nat),
        ;
    }
    l > rr || (l == rr && crate::strs::lt_chars(crate::strs::to_chars(ta.as_str()).as_slice(), crate::strs::to_chars(tb.as_str()).as_slice()))
}

/// The rank of every node type: the slot type 0, the others by density, densest highest.
pub fn compute_type_ranks(slot_type: &str, groups: &Vec<(String, Vec<u32>)>, counts: &Vec<usize>) -> (r: Vec<(String, u32)>)
    requires
        counts@.len() == groups@.len(),
    ensures
        ranks_ok(groups@, counts@, slot_type@, r@),
{
    let mut r: Vec<(String, u32)> = Vec::new();
    let mut present = false;
    let mut k: usize = 0;
    while k < groups.len()
        invariant
            0 <= k <= groups.len(),
            counts@.len() == groups@.len(),
            r@.len() == k,
            present <==> exists|q: int| 0 <= q < k && (#[trigger] groups@[q]).0@ == slot_type@,
            forall|q: int| 0 <= q < k ==> (#[trigger] r@[q]).0@ == groups@[q].0@ && r@[q].1 == group_rank(groups@, counts@, slot_type@, q),
        decreases groups.len() - k,
    {
        let is_slot = crate::strs::string_eq(&groups[k].0, slot_type);
        let mut rank: u128 = 0;
        if is_slot {
            present = true;
        } else {
            let mut j: usize = 0;
            while j < groups.len()
                invariant
                    0 <= j <= groups.len(),
                    k < groups.len(),
                    counts@.len() == groups@.len(),
                    rank == outranked(groups@, counts@, slot_type@, k as int, j as int),
                    rank <= j,
                decreases groups.len() - j,
            {
                if j != k && !crate::strs::string_eq(&groups[j].0, slot_type)
                    && denser_exec(counts[k], groups[k].1.len(), &groups[k].0, counts[j], groups[j].1.len(), &groups[j].0) {
                    rank += 1;
                }
                j += 1;
            }
            rank += 1;
        }
        let ghost r0 = r@;
        let rank32: u32 = #[verifier::truncate] (rank as u32);
        r.push((copy_string(&groups[k].0), rank32));
        proof {
            assert forall|q: int| 0 <= q < k + 1 implies (#[trigger] r@[q]).0@ == groups@[q].0@ && r@[q].1 == group_rank(groups@, counts@, slot_type@, q) by {
                if q < k {
                    assert(r@[q] == r0[q]);
                }
            }
        }
        k += 1;
    }
    if !present {
        r.push((owned(slot_type), 0));
    }
    proof {
        let pres = exists|q: int| 0 <= q < groups@.len() && (#[trigger] groups@[q]).0@ == slot_type@;
        assert(present == pres);
    }
    r
}

/// The slot counts of the groups.
pub open spec fn group_counts(g: Seq<(String, Vec<u32>)>, max_slot: u32, os: Map<u32, Vec<u32>>) -> Seq<usize> {
    g.map_values(|e: (String, Vec<u32>)| crate::edge_tables::min_usize(slot_sum(e.1@, max_slot, os)) as usize)
}

/// The corpus as assembled from its parts, before the order is computed and attached.
pub open spec fn assembled(
    nf: Vec<NodeFeature>,
    ef: Vec<EdgeFeature>,
    cf: Vec<(String, Metadata)>,
    max_node: u32,
    max_slot: u32,
    slot_type: String,
    groups: Vec<(String, Vec<u32>)>,
    ranks: Vec<(String, u32)>,
    order: Vec<u32>,
    rank: Vec<u32>,
) -> Corpus {
    Corpus {
        node_features: nf,
        edge_features: ef,
        config_features: cf,
        max_node,
        max_slot,
        slot_type,
        nodes_by_type: groups,
        type_ranks: ranks,
        order,
        rank,
    }
}

/// What building a corpus from features yields.
pub open spec fn built(nf: Vec<NodeFeature>, ef: Vec<EdgeFeature>, cf: Vec<(String, Metadata)>, c: Corpus) -> bool {
    let pre = assembled(nf, ef, cf, c.max_node, c.max_slot, c.slot_type, c.nodes_by_type, c.type_ranks, c.order, c.rank);
    let otype = pre.otype();
    &&& is_max_of(c.max_node, valued_nodes(otype))
    &&& is_max_of(c.max_slot, typed_nodes(otype, c.slot_type@))
    &&& pre.type_of(1) == Some(c.slot_type@)
    &&& groups_ok(otype, c.nodes_by_type@)
    &&& ranks_ok(c.nodes_by_type@, group_counts(c.nodes_by_type@, c.max_slot, pre.ef("oslots"@)->0.values@), c.slot_type@, c.type_ranks@)
    &&& c.order@.len() == c.max_node
    &&& forall|x: u32| c.order@.contains(x) <==> 1 <= x <= c.max_node
    &&& c.order@.no_duplicates()
    &&& (strict_total_of(pre) ==> forall|i: int, j: int| 0 <= i < j < c.order@.len() ==> pre.node_order(#[trigger] c.order@[i], #[trigger] c.order@[j]) < 0)
    &&& c.rank@.len() == c.max_node
    &&& forall|i: int| 0 <= i < c.order@.len() ==> c.rank@[#[trigger] c.order@[i] - 1] == i
    &&& c.config_features == cf
    &&& c.node_features@.len() == nf@.len()
    &&& forall|i: int| 0 <= i < nf@.len() ==> {
        &&& (#[trigger] c.node_features@[i]).name == nf@[i].name
        &&& c.node_features@[i].metadata == nf@[i].metadata
        &&& c.node_features@[i].values == nf@[i].values
        &&& c.node_features@[i].rank_table() == Some(c.rank@)
    }
    &&& c.edge_features@.len() == ef@.len()
    &&& forall|i: int| 0 <= i < ef@.len() ==> {
        &&& (#[trigger] c.edge_features@[i]).name == ef@[i].name
        &&& c.edge_features@[i].metadata == ef@[i].metadata
        &&& c.edge_features@[i].edge_values == ef@[i].edge_values
        &&& c.edge_features@[i].values@.dom() == ef@[i].values@.dom()
        &&& c.edge_features@[i].rank_table() == Some(c.rank@)
        &&& forall|n: u32| #[trigger] c.edge_features@[i].values@.contains_key(n) ==> crate::sorting::sorted_by_rank(c.edge_features@[i].values@[n]@, Some(c.rank@))
            && c.edge_features@[i].values@[n]@.len() == ef@[i].values@[n]@.len()
            && forall|x: u32| c.edge_features@[i].values@[n]@.contains(x) <==> ef@[i].values@[n]@.contains(x)
    }
}

proof fn lemma_order_indep(a: Corpus, b: Corpus)
    requires
        a.node_features == b.node_features,
        a.edge_features == b.edge_features,
        a.config_features == b.config_features,
        a.max_node == b.max_node,
        a.max_slot == b.max_slot,
        a.slot_type == b.slot_type,
        a.nodes_by_type == b.nodes_by_type,
        a.type_ranks == b.type_ranks,
    ensures
        forall|l: u32, r: u32| #[trigger] a.node_order(l, r) == b.node_order(l, r),
        strict_total_of(a) == strict_total_of(b),
        a.otype() == b.otype(),
        forall|n: u32| #[trigger] a.type_of(n) == b.type_of(n),
        a.ef("oslots"@) == b.ef("oslots"@),
{
    assert forall|l: u32, r: u32| #[trigger] a.node_order(l, r) == b.node_order(l, r) by {
        assert(a.order_slots(l) == b.order_slots(l));
        assert(a.order_slots(r) == b.order_slots(r));
        assert(a.type_rank_spec(l) == b.type_rank_spec(l));
        assert(a.type_rank_spec(r) == b.type_rank_spec(r));
    }
    if strict_total_of(a) {
        assert forall|x: u32, y: u32| 1 <= x <= b.max_node && 1 <= y <= b.max_node implies #[trigger] b.node_order(x, y) == -b.node_order(y, x) by {
            assert(a.node_order(x, y) == -a.node_order(y, x));
        }
        assert forall|x: u32, y: u32| 1 <= x <= b.max_node && 1 <= y <= b.max_node implies (#[trigger] b.node_order(x, y) == 0 <==> x == y) by {
            assert(a.node_order(x, y) == 0 <==> x == y);
        }
        assert forall|x: u32, y: u32, z: u32| 1 <= x <= b.max_node && 1 <= y <= b.max_node && 1 <= z <= b.max_node
            && #[trigger] b.node_order(x, y) < 0 && #[trigger] b.node_order(y, z) < 0 implies b.node_order(x, z) < 0 by {
            assert(a.node_order(x, y) < 0 && a.node_order(y, z) < 0);
            assert(a.node_order(x, z) < 0);
        }
    }
    if strict_total_of(b) {
        assert forall|x: u32, y: u32| 1 <= x <= a.max_node && 1 <= y <= a.max_node implies #[trigger] a.node_order(x, y) == -a.node_order(y, x) by {
            assert(b.node_order(x, y) == -b.node_order(y, x));
        }
        assert forall|x: u32, y: u32| 1 <= x <= a.max_node && 1 <= y <= a.max_node implies (#[trigger] a.node_order(x, y) == 0 <==> x == y) by {
            assert(b.node_order(x, y) == 0 <==> x == y);
        }
        assert forall|x: u32, y: u32, z: u32| 1 <= x <= a.max_node && 1 <= y <= a.max_node && 1 <= z <= a.max_node
            && #[trigger] a.node_order(x, y) < 0 && #[trigger] a.node_order(y, z) < 0 implies a.node_order(x, z) < 0 by {
            assert(b.node_order(x, y) < 0 && b.node_order(y, z) < 0);
            assert(b.node_order(x, z) < 0);
        }
    }
}

pub open spec fn strict_total_of(c: Corpus) -> bool {
    crate::corpus_order::strict_total(c)
}

impl Corpus {
    /// A corpus from its node, edge and configuration features. It needs the node types
    /// (`otype`), the slots of the non-slot nodes (`oslots`) and a string type for node 1,
    /// the slot type; a missing one is reported by name.
    pub fn from_feature_maps_with_configs(
        node_features: Vec<NodeFeature>,
        edge_features: Vec<EdgeFeature>,
        config_features: Vec<(String, Metadata)>,
    ) -> (r: Result<Corpus, CfError>)
        ensures
            find_key(node_features@, nf_key(), "otype"@) is None ==> r is Err && r->Err_0@ == CfErrorView::MissingFeature("otype"@),
            find_key(node_features@, nf_key(), "otype"@) is Some && find_key(edge_features@, ef_key(), "oslots"@) is None ==> r is Err && r->Err_0@ == CfErrorView::MissingFeature("oslots"@),
            find_key(node_features@, nf_key(), "otype"@) is Some && find_key(edge_features@, ef_key(), "oslots"@) is Some
                && str_val(node_features@[find_key(node_features@, nf_key(), "otype"@)->0].values@, 1) is None
                ==> r is Err && r->Err_0@ == CfErrorView::MissingFeature("otype slot type"@),
            r is Ok <==> (find_key(node_features@, nf_key(), "otype"@) is Some && find_key(edge_features@, ef_key(), "oslots"@) is Some
                && str_val(node_features@[find_key(node_features@, nf_key(), "otype"@)->0].values@, 1) is Some),
            r matches Ok(c) ==> built(node_features, edge_features, config_features, c),
    {
        proof {
            reveal_strlit("otype");
            reveal_strlit("oslots");
        }
        let oi = match find_node_feature(&node_features, "otype") {
            Some(i) => i,
            None => return Err(CfError::missing("otype")),
        };
        let ei = match find_edge_feature(&edge_features, "oslots") {
            Some(i) => i,
            None => return Err(CfError::missing("oslots")),
        };
        let slot_type: String = match node_features[oi].str_value(1) {
            Some(t) => owned(t),
            None => return Err(CfError::missing("otype slot type")),
        };
        let scanned = scan_types(&node_features[oi].values, slot_type.as_str());
        let max_node = scanned.0;
        let max_slot = scanned.1;
        let groups = scanned.2;
        let mut counts: Vec<usize> = Vec::new();
        let mut k: usize = 0;
        while k < groups.len()
            invariant
                0 <= k <= groups.len(),
                ei < edge_features@.len(),
                counts@ == group_counts(groups@, max_slot, edge_features@[ei as int].values@).take(k as int),
            decreases groups.len() - k,
        {
            let c = slot_count(&groups[k].1, max_slot, &edge_features[ei]);
            counts.push(c);
            proof {
                assert(counts@ =~= group_counts(groups@, max_slot, edge_features@[ei as int].values@).take(k + 1));
            }
            k += 1;
        }
        proof {
            assert(counts@ =~= group_counts(groups@, max_slot, edge_features@[ei as int].values@));
        }
        let ranks = compute_type_ranks(slot_type.as_str(), &groups, &counts);
        let pre = Corpus {
            node_features,
            edge_features,
            config_features,
            max_node,
            max_slot,
            slot_type,
            nodes_by_type: groups,
            type_ranks: ranks,
            order: Vec::new(),
            rank: Vec::new(),
        };
        let order = pre.compute_order();
        let rank = pre.compute_rank(&order);
        proof {
            assert forall|i: int| 0 <= i < order@.len() implies rank@[#[trigger] order@[i] - 1] == i by {
                assert(order@.contains(order@[i]));
                assert forall|j: int| i < j < order@.len() implies order@[j] != order@[i] by {}
            }
        }
        let Corpus { node_features, edge_features, config_features, max_node, max_slot, slot_type, nodes_by_type, type_ranks, .. } = pre;
        let ghost nf0 = node_features;
        let ghost ef0 = edge_features;
        proof {
            assert(nf0@.skip(0) =~= nf0@);
            assert(ef0@.skip(0) =~= ef0@);
        }
        let mut nfs: Vec<NodeFeature> = Vec::new();
        let mut rest_n = node_features;
        let mut i: usize = 0;
        let n_len = rest_n.len();
        while i < n_len
            invariant
                0 <= i <= n_len,
                n_len == nf0@.len(),
                rest_n@ == nf0@.skip(i as int),
                nfs@.len() == i,
                forall|q: int| 0 <= q < i ==> {
                    &&& (#[trigger] nfs@[q]).name == nf0@[q].name
                    &&& nfs@[q].metadata == nf0@[q].metadata
                    &&& nfs@[q].values == nf0@[q].values
                    &&& nfs@[q].rank_table() == Some(rank@)
                },
            decreases n_len - i,
        {
            proof {
                assert(rest_n@[0] == nf0@[i as int]);
            }
            let f = rest_n.remove(0);
            nfs.push(f.with_rank(rank.clone()));
            proof {
                assert(rest_n@ =~= nf0@.skip(i + 1));
            }
            i += 1;
        }
        let mut efs: Vec<EdgeFeature> = Vec::new();
        let mut rest_e = edge_features;
        let mut j: usize = 0;
        let e_len = rest_e.len();
        while j < e_len
            invariant
                0 <= j <= e_len,
                e_len == ef0@.len(),
                rest_e@ == ef0@.skip(j as int),
                efs@.len() == j,
                forall|q: int| 0 <= q < j ==> {
                    &&& (#[trigger] efs@[q]).name == ef0@[q].name
                    &&& efs@[q].metadata == ef0@[q].metadata
                    &&& efs@[q].edge_values == ef0@[q].edge_values
                    &&& efs@[q].values@.dom() == ef0@[q].values@.dom()
                    &&& efs@[q].rank_table() == Some(rank@)
                    &&& forall|n: u32| #[trigger] efs@[q].values@.contains_key(n) ==> crate::sorting::sorted_by_rank(efs@[q].values@[n]@, Some(rank@))
                        && efs@[q].values@[n]@.len() == ef0@[q].values@[n]@.len()
                        && forall|x: u32| efs@[q].values@[n]@.contains(x) <==> ef0@[q].values@[n]@.contains(x)
                },
            decreases e_len - j,
        {
            proof {
                assert(rest_e@[0] == ef0@[j as int]);
            }
            let f = rest_e.remove(0);
            efs.push(f.with_rank(rank.clone()));
            proof {
                assert(rest_e@ =~= ef0@.skip(j + 1));
            }
            j += 1;
        }
        let c = Corpus {
            node_features: nfs,
            edge_features: efs,
            config_features,
            max_node,
            max_slot,
            slot_type,
            nodes_by_type,
            type_ranks,
            order,
            rank,
        };
        proof {
            let spec_pre = assembled(nf0, ef0, config_features, max_node, max_slot, slot_type, nodes_by_type, type_ranks, c.order, c.rank);
            lemma_order_indep(pre, spec_pre);
        }
        Ok(c)
    }
}

} // verus!

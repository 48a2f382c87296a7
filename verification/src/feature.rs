//! Node features (a value per node) and edge features (targets per source node).

use std::collections::{BTreeSet, HashMap};
use vstd::prelude::*;
use crate::sorting::{
    lemma_push_contains_pub, opt_seq, rank_key, sort_by_rank, sort_dedup, sorted_by_rank,
    strictly_sorted_u32,
};
use crate::value::{
    compare_feature_values, compare_values, feature_values_match, meta_clone, meta_contains,
    meta_has, metadata_value, metadata_value_spec, values_match, FValue, FeatureValue, Metadata,
};

use crate::freq::{fv_token, row_le, sort_rows, sort_token};
verus! {

broadcast use {vstd::std_specs::hash::group_hash_axioms, vstd::std_specs::btree::group_btree_axioms, vstd::laws_cmp::group_laws_cmp, vstd::seq_lib::group_to_multiset_ensures};

/// The keys of a map, each once.
pub fn map_keys<V>(m: &HashMap<u32, V>) -> (r: Vec<u32>)
    ensures
        r@.no_duplicates(),
        forall|k: u32| r@.contains(k) <==> m@.contains_key(k),
{
    let mut r: Vec<u32> = Vec::new();
    for k in it: m.keys()
        invariant
            r@ == it.seq().unref().take(it.index() as int),
            it.seq().no_duplicates(),
            it.seq().unref().to_set() == m@.dom(),
        ensures
            r@ == it.seq().unref(),
            it.seq().no_duplicates(),
            it.seq().unref().to_set() == m@.dom(),
    {
        proof {
            assert(it.seq().unref().take(it.index() + 1) == it.seq().unref().take(
                it.index() as int,
            ).push(*k));
        }
        r.push(*k);
    }
    proof {
        assert forall|k: u32| r@.contains(k) <==> m@.contains_key(k) by {
            if r@.contains(k) {
                assert(r@.to_set().contains(k));
            }
            if m@.contains_key(k) {
                assert(r@.to_set().contains(k));
            }
        }
    }
    r
}

/// The value of `node` in a value map.
pub open spec fn fv_at(m: Map<u32, FeatureValue>, n: u32) -> Option<FValue> {
    if m.contains_key(n) {
        Some(m[n]@)
    } else {
        None
    }
}

pub open spec fn opt_ref_fv(o: Option<&FeatureValue>) -> Option<FValue> {
    match o {
        Some(v) => Some(v@),
        None => None,
    }
}

/// A feature assigning at most one value to each node.
#[derive(Debug, Clone, PartialEq, Eq)]
pub struct NodeFeature {
    pub name: String,
    pub metadata: Metadata,
    pub values: HashMap<u32, FeatureValue>,
    pub indexed: bool,
    pub rank: Option<Vec<u32>>,
}

/// Marker for the collection of node features.
#[derive(Debug, Clone, Default, PartialEq, Eq)]
pub struct NodeFeatures;

/// The node-type feature.
pub type OtypeFeature = NodeFeature;

/// The nodes of `m` whose value is `v`.
pub open spec fn nodes_valued(m: Map<u32, FeatureValue>, v: FValue) -> Set<u32> {
    Set::new(|n: u32| m.contains_key(n) && m[n]@ == v)
}

/// `out` keeps, in order, the elements of `input` that satisfy `p`.
pub open spec fn filtered(input: Seq<u32>, out: Seq<u32>, p: spec_fn(u32) -> bool) -> bool {
    out == input.filter(p)
}

pub open spec fn pred_match(m: Map<u32, FeatureValue>, e: FValue) -> spec_fn(u32) -> bool {
    |n: u32| fv_at(m, n) is Some && values_match(fv_at(m, n)->0, e)
}

pub open spec fn pred_match_any(m: Map<u32, FeatureValue>, e: Seq<FeatureValue>) -> spec_fn(u32) -> bool {
    |n: u32| fv_at(m, n) is Some && exists|k: int| 0 <= k < e.len() && values_match(fv_at(m, n)->0, #[trigger] e[k]@)
}

pub open spec fn pred_has(m: Map<u32, FeatureValue>) -> spec_fn(u32) -> bool {
    |n: u32| m.contains_key(n)
}

pub open spec fn pred_missing(m: Map<u32, FeatureValue>) -> spec_fn(u32) -> bool {
    |n: u32| !m.contains_key(n)
}

pub open spec fn pred_order(m: Map<u32, FeatureValue>, e: FValue, want: int) -> spec_fn(u32) -> bool {
    |n: u32| fv_at(m, n) is Some && compare_values(fv_at(m, n)->0, e) == Some(want)
}

impl NodeFeature {
    /// The rank table that orders this feature's nodes, if attached.
    pub open spec fn rank_table(&self) -> Option<Seq<u32>> {
        opt_seq(self.rank)
    }

    /// Whether the value index is built (nodes can be looked up by value).
    pub open spec fn is_indexed(&self) -> bool {
        self.indexed
    }

    /// A feature with the given values, indexed by value.
    pub fn new(name: String, metadata: Metadata, values: HashMap<u32, FeatureValue>) -> (r: Self)
        ensures
            r.name == name,
            r.metadata == metadata,
            r.values == values,
            r.is_indexed(),
            r.rank_table() is None,
    {
        Self::new_with_indexing(name, metadata, values, true)
    }

    /// A feature with the given values; `build_index` decides whether nodes can be
    /// looked up by value before a rank table is attached.
    pub fn new_with_indexing(
        name: String,
        metadata: Metadata,
        values: HashMap<u32, FeatureValue>,
        build_index: bool,
    ) -> (r: Self)
        ensures
            r.name == name,
            r.metadata == metadata,
            r.values == values,
            r.is_indexed() == build_index,
            r.rank_table() is None,
    {
        NodeFeature { name, metadata, values, indexed: build_index, rank: None }
    }

    /// The same feature ordered by the rank table `rank`; the value index is built.
    pub fn with_rank(self, rank: Vec<u32>) -> (r: Self)
        ensures
            r.name == self.name,
            r.metadata == self.metadata,
            r.values == self.values,
            r.is_indexed(),
            r.rank_table() == Some(rank@),
    {
        NodeFeature { rank: Some(rank), indexed: true, ..self }
    }

    /// The value of `node`.
    pub fn value(&self, node: u32) -> (r: Option<&FeatureValue>)
        ensures
            opt_ref_fv(r) == fv_at(self.values@, node),
    {
        self.values.get(&node)
    }

    /// The value of `node` (short name).
    pub fn v(&self, node: u32) -> (r: Option<&FeatureValue>)
        ensures
            opt_ref_fv(r) == fv_at(self.values@, node),
    {
        self.value(node)
    }

    /// The string value of `node`, when it has one.
    pub fn str_value(&self, node: u32) -> (r: Option<&str>)
        ensures
            match fv_at(self.values@, node) {
                Some(FValue::Str(s)) => r is Some && r->0@ == s,
                _ => r is None,
            },
    {
        match self.values.get(&node) {
            Some(v) => v.as_str(),
            None => None,
        }
    }

    /// All values by node.
    pub fn data(&self) -> (r: &HashMap<u32, FeatureValue>)
        ensures
            r == &self.values,
    {
        &self.values
    }

    /// The metadata.
    pub fn meta(&self) -> (r: &Metadata)
        ensures
            r == &self.metadata,
    {
        &self.metadata
    }

    /// A metadata value (`valueType` falls back to `value_type`).
    pub fn metadata_value(&self, key: &str) -> (r: Option<&str>)
        ensures
            match r {
                Some(v) => metadata_value_spec(self.metadata@, key@) == Some(v@),
                None => metadata_value_spec(self.metadata@, key@) is None,
            },
    {
        metadata_value(&self.metadata, key)
    }

    /// The declared value type.
    pub fn value_type(&self) -> (r: Option<&str>)
        ensures
            match r {
                Some(v) => metadata_value_spec(self.metadata@, "valueType"@) == Some(v@),
                None => metadata_value_spec(self.metadata@, "valueType"@) is None,
            },
    {
        proof {
            reveal_strlit("valueType");
        }
        self.metadata_value("valueType")
    }

    /// Camel-case name of [`NodeFeature::value_type`].
    #[allow(non_snake_case)]
    pub fn valueType(&self) -> (r: Option<&str>)
        ensures
            match r {
                Some(v) => metadata_value_spec(self.metadata@, "valueType"@) == Some(v@),
                None => metadata_value_spec(self.metadata@, "valueType"@) is None,
            },
    {
        self.value_type()
    }

    /// The description metadata.
    pub fn description(&self) -> (r: Option<&str>)
        ensures
            match r {
                Some(v) => metadata_value_spec(self.metadata@, "description"@) == Some(v@),
                None => metadata_value_spec(self.metadata@, "description"@) is None,
            },
    {
        self.metadata_value("description")
    }

    /// The nodes whose value equals `value`, in canonical order; empty while the
    /// value index is not built.
    pub fn nodes_with_value(&self, value: &FeatureValue) -> (r: Vec<u32>)
        ensures
            self.is_indexed() ==> r@.to_set() == nodes_valued(self.values@, value@),
            !self.is_indexed() ==> r@.len() == 0,
            r@.no_duplicates(),
            sorted_by_rank(r@, self.rank_table()),
    {
        if !self.indexed {
            return Vec::new();
        }
        let keys = map_keys(&self.values);
        let mut found: Vec<u32> = Vec::new();
        let mut i: usize = 0;
        while i < keys.len()
            invariant
                0 <= i <= keys.len(),
                keys@.no_duplicates(),
                forall|k: u32| keys@.contains(k) <==> self.values@.contains_key(k),
                found@.no_duplicates(),
                forall|n: u32| found@.contains(n) <==> (keys@.take(i as int).contains(n) && self.values@[n]@ == value@),
            decreases keys.len() - i,
        {
            let n = keys[i];
            proof {
                assert(keys@.take(i + 1) == keys@.take(i as int).push(n));
                assert(self.values@.contains_key(n)) by {
                    assert(keys@.contains(n));
                }
            }
            let ghost f0 = found@;
            match self.values.get(&n) {
                Some(v) => {
                    if v.same(value) {
                        proof {
                            assert(!keys@.take(i as int).contains(n)) by {
                                if keys@.take(i as int).contains(n) {
                                    let k = choose|k: int| 0 <= k < i && keys@.take(i as int)[k] == n;
                                    assert(keys@[k] == keys@[i as int]);
                                }
                            }
                        }
                        found.push(n);
                        proof {
                            assert(!f0.contains(n));
                            assert forall|a: int, b: int| 0 <= a < found@.len() && 0 <= b < found@.len() && a != b implies found@[a] != found@[b] by {
                                if a < f0.len() && b < f0.len() {
                                    assert(f0[a] != f0[b]);
                                } else if a == f0.len() {
                                    assert(f0.contains(found@[b]));
                                } else {
                                    assert(f0.contains(found@[a]));
                                }
                            }
                            assert forall|m: u32| found@.contains(m) <==> (keys@.take(i + 1).contains(m) && self.values@[m]@ == value@) by {
                                crate::sorting::lemma_push_contains_pub(f0, n, m);
                                crate::sorting::lemma_push_contains_pub(keys@.take(i as int), n, m);
                            }
                        }
                    } else {
                        proof {
                            assert forall|m: u32| found@.contains(m) <==> (keys@.take(i + 1).contains(m) && self.values@[m]@ == value@) by {
                                crate::sorting::lemma_push_contains_pub(keys@.take(i as int), n, m);
                            }
                        }
                    }
                },
                None => {},
            }
            i += 1;
        }
        proof {
            assert(keys@.take(keys@.len() as int) == keys@);
            assert(found@.to_set() =~= nodes_valued(self.values@, value@)) by {
                assert forall|n: u32| found@.to_set().contains(n) <==> nodes_valued(self.values@, value@).contains(n) by {
                    assert(found@.to_set().contains(n) <==> found@.contains(n));
                }
            }
        }
        sort_by_rank_set(found, &self.rank)
    }

    /// The nodes whose value equals `value` (short name).
    pub fn s(&self, value: &FeatureValue) -> (r: Vec<u32>)
        ensures
            self.is_indexed() ==> r@.to_set() == nodes_valued(self.values@, value@),
            !self.is_indexed() ==> r@.len() == 0,
            r@.no_duplicates(),
            sorted_by_rank(r@, self.rank_table()),
    {
        self.nodes_with_value(value)
    }

    /// The nodes whose value equals `value`, as an owned list.
    pub fn select(&self, value: &FeatureValue) -> (r: Vec<u32>)
        ensures
            self.is_indexed() ==> r@.to_set() == nodes_valued(self.values@, value@),
            !self.is_indexed() ==> r@.len() == 0,
            r@.no_duplicates(),
            sorted_by_rank(r@, self.rank_table()),
    {
        self.nodes_with_value(value)
    }

    /// Node-value pairs in canonical order of the nodes.
    pub fn items(&self) -> (r: Vec<(u32, FeatureValue)>)
        ensures
            r@.len() == self.values@.dom().len(),
            forall|i: int| 0 <= i < r@.len() ==> #[trigger] fv_at(self.values@, r@[i].0) == Some(r@[i].1@),
            forall|n: u32| self.values@.contains_key(n) ==> exists|i: int| 0 <= i < r@.len() && #[trigger] r@[i].0 == n,
            sorted_by_rank(r@.map_values(|p: (u32, FeatureValue)| p.0), self.rank_table()),
            r@.map_values(|p: (u32, FeatureValue)| p.0).no_duplicates(),
    {
        let keys = map_keys(&self.values);
        let ghost kset = keys@.to_set();
        proof {
            keys@.unique_seq_to_set();
            assert(keys@.to_set() =~= self.values@.dom());
        }
        let nodes = sort_by_rank(keys, &self.rank);
        let mut r: Vec<(u32, FeatureValue)> = Vec::new();
        let mut i: usize = 0;
        while i < nodes.len()
            invariant
                0 <= i <= nodes.len(),
                forall|x: u32| nodes@.contains(x) <==> self.values@.contains_key(x),
                r@.len() == i,
                forall|j: int| 0 <= j < i ==> (#[trigger] r@[j]).0 == nodes@[j] && fv_at(self.values@, r@[j].0) == Some(r@[j].1@),
            decreases nodes.len() - i,
        {
            let n = nodes[i];
            proof {
                assert(nodes@.contains(n));
            }
            match self.values.get(&n) {
                Some(v) => {
                    r.push((n, v.duplicate()));
                },
                None => {
                    proof {
                        assert(false);
                    }
                },
            }
            i += 1;
        }
        proof {
            assert(r@.map_values(|p: (u32, FeatureValue)| p.0) =~= nodes@);
            assert forall|n: u32| self.values@.contains_key(n) implies exists|i: int| 0 <= i < r@.len() && #[trigger] r@[i].0 == n by {
                assert(nodes@.contains(n));
                let k = choose|k: int| 0 <= k < nodes@.len() && nodes@[k] == n;
                assert(r@[k].0 == n);
            }
        }
        r
    }

    /// The nodes of `nodes` whose value matches `expected`, in input order.
    pub fn filter_by_value(&self, nodes: &[u32], expected: &FeatureValue) -> (r: Vec<u32>)
        ensures
            r@ == nodes@.filter(pred_match(self.values@, expected@)),
    {
        let ghost p = pred_match(self.values@, expected@);
        let mut r: Vec<u32> = Vec::new();
        let mut i: usize = 0;
        while i < nodes.len()
            invariant
                0 <= i <= nodes.len(),
                r@ == nodes@.take(i as int).filter(p),
                p == pred_match(self.values@, expected@),
            decreases nodes.len() - i,
        {
            let n = nodes[i];
            proof {
                assert(nodes@.take(i + 1) == nodes@.take(i as int).push(n));
                nodes@.take(i as int).lemma_filter_push(n, p);
            }
            let keep = match self.values.get(&n) {
                Some(v) => feature_values_match(v, expected),
                None => false,
            };
            if keep {
                r.push(n);
            }
            i += 1;
        }
        proof {
            assert(nodes@.take(nodes@.len() as int) == nodes@);
        }
        r
    }

    /// The nodes of `nodes` whose value matches one of `expected`, in input order;
    /// nothing when `expected` is empty.
    pub fn filter_by_values(&self, nodes: &[u32], expected: &[FeatureValue]) -> (r: Vec<u32>)
        ensures
            r@ == nodes@.filter(pred_match_any(self.values@, expected@)),
    {
        let ghost p = pred_match_any(self.values@, expected@);
        let mut r: Vec<u32> = Vec::new();
        let mut i: usize = 0;
        while i < nodes.len()
            invariant
                0 <= i <= nodes.len(),
                r@ == nodes@.take(i as int).filter(p),
                p == pred_match_any(self.values@, expected@),
            decreases nodes.len() - i,
        {
            let n = nodes[i];
            proof {
                assert(nodes@.take(i + 1) == nodes@.take(i as int).push(n));
                nodes@.take(i as int).lemma_filter_push(n, p);
            }
            let keep = match self.values.get(&n) {
                Some(v) => {
                    let mut any = false;
                    let mut k: usize = 0;
                    while k < expected.len()
                        invariant
                            0 <= k <= expected.len(),
                            any == exists|j: int| 0 <= j < k && values_match(v@, #[trigger] expected@[j]@),
                        decreases expected.len() - k,
                    {
                        if feature_values_match(v, &expected[k]) {
                            any = true;
                        }
                        k += 1;
                    }
                    any
                },
                None => false,
            };
            if keep {
                r.push(n);
            }
            i += 1;
        }
        proof {
            assert(nodes@.take(nodes@.len() as int) == nodes@);
        }
        r
    }

    /// The nodes of `nodes` that have a value, in input order.
    pub fn filter_has_value(&self, nodes: &[u32]) -> (r: Vec<u32>)
        ensures
            r@ == nodes@.filter(pred_has(self.values@)),
    {
        let ghost p = pred_has(self.values@);
        let mut r: Vec<u32> = Vec::new();
        let mut i: usize = 0;
        while i < nodes.len()
            invariant
                0 <= i <= nodes.len(),
                r@ == nodes@.take(i as int).filter(p),
                p == pred_has(self.values@),
            decreases nodes.len() - i,
        {
            let n = nodes[i];
            proof {
                assert(nodes@.take(i + 1) == nodes@.take(i as int).push(n));
                nodes@.take(i as int).lemma_filter_push(n, p);
            }
            if self.values.contains_key(&n) {
                r.push(n);
            }
            i += 1;
        }
        proof {
            assert(nodes@.take(nodes@.len() as int) == nodes@);
        }
        r
    }

    /// The nodes of `nodes` that have no value, in input order.
    pub fn filter_missing_value(&self, nodes: &[u32]) -> (r: Vec<u32>)
        ensures
            r@ == nodes@.filter(pred_missing(self.values@)),
    {
        let ghost p = pred_missing(self.values@);
        let mut r: Vec<u32> = Vec::new();
        let mut i: usize = 0;
        while i < nodes.len()
            invariant
                0 <= i <= nodes.len(),
                r@ == nodes@.take(i as int).filter(p),
                p == pred_missing(self.values@),
            decreases nodes.len() - i,
        {
            let n = nodes[i];
            proof {
                assert(nodes@.take(i + 1) == nodes@.take(i as int).push(n));
                nodes@.take(i as int).lemma_filter_push(n, p);
            }
            let present = self.values.contains_key(&n);
            proof {
                assert(present == self.values@.contains_key(n));
                assert(p(n) == !present);
            }
            if !present {
                r.push(n);
            }
            proof {
                assert(r@ == nodes@.take(i + 1).filter(p));
            }
            i += 1;
        }
        proof {
            assert(nodes@.take(nodes@.len() as int) == nodes@);
        }
        r
    }

    /// The nodes of `nodes` whose value compares below `expected`, in input order.
    pub fn filter_less_than(&self, nodes: &[u32], expected: &FeatureValue) -> (r: Vec<u32>)
        ensures
            r@ == nodes@.filter(pred_order(self.values@, expected@, -1)),
    {
        self.filter_compare(nodes, expected, -1)
    }

    /// The nodes of `nodes` whose value compares above `expected`, in input order.
    pub fn filter_greater_than(&self, nodes: &[u32], expected: &FeatureValue) -> (r: Vec<u32>)
        ensures
            r@ == nodes@.filter(pred_order(self.values@, expected@, 1)),
    {
        self.filter_compare(nodes, expected, 1)
    }

    /// Each distinct value with its number of nodes, most frequent first, ties by sort token.
    pub fn frequency_list(&self) -> (r: Vec<(FeatureValue, usize)>)
        ensures
            forall|j: int| 0 <= j < r@.len() ==> (#[trigger] r@[j]).1 == nodes_valued(self.values@, r@[j].0@).len() && r@[j].1 >= 1,
            forall|n: u32| self.values@.contains_key(n) ==> exists|j: int| 0 <= j < r@.len() && (#[trigger] r@[j]).0@ == self.values@[n]@,
            forall|a: int, b: int| 0 <= a < b < r@.len() ==> (#[trigger] r@[a]).0@ != (#[trigger] r@[b]).0@,
            forall|a: int, b: int| 0 <= a < b < r@.len() ==> row_le(#[trigger] r@[a].1 as int, fv_token(r@[a].0@), #[trigger] r@[b].1 as int, fv_token(r@[b].0@)),
    {
        let rows = count_values(&self.values);
        let sorted = sort_rows(rows);
        let mut r: Vec<(FeatureValue, usize)> = Vec::new();
        let mut i: usize = 0;
        while i < sorted.len()
            invariant
                0 <= i <= sorted.len(),
                r@.len() == i,
                forall|j: int| 0 <= j < i ==> (#[trigger] r@[j]).0@ == sorted@[j].0@ && r@[j].1 == sorted@[j].1,
            decreases sorted.len() - i,
        {
            r.push((sorted[i].0.duplicate(), sorted[i].1));
            i += 1;
        }
        proof {
            assert forall|j: int| 0 <= j < sorted@.len() implies rows@.contains(#[trigger] sorted@[j]) by {
                assert(sorted@.to_multiset().count(sorted@[j]) > 0);
            }
            assert forall|j: int| 0 <= j < r@.len() implies (#[trigger] r@[j]).1 == nodes_valued(self.values@, r@[j].0@).len() && r@[j].1 >= 1 by {
                assert(rows@.contains(sorted@[j]));
                let q = choose|q: int| 0 <= q < rows@.len() && rows@[q] == sorted@[j];
                assert(rows@[q].1 == nodes_valued(self.values@, rows@[q].0@).len());
            }
            assert forall|a: int, b: int| 0 <= a < b < r@.len() implies row_le(#[trigger] r@[a].1 as int, fv_token(r@[a].0@), #[trigger] r@[b].1 as int, fv_token(r@[b].0@)) by {
                assert(rows@.contains(sorted@[a]));
                assert(rows@.contains(sorted@[b]));
                let qa = choose|q: int| 0 <= q < rows@.len() && rows@[q] == sorted@[a];
                let qb = choose|q: int| 0 <= q < rows@.len() && rows@[q] == sorted@[b];
                assert(rows@[qa].2@ == fv_token(rows@[qa].0@));
                assert(rows@[qb].2@ == fv_token(rows@[qb].0@));
                assert(row_le(sorted@[a].1 as int, sorted@[a].2@, sorted@[b].1 as int, sorted@[b].2@));
            }
            assert forall|n: u32| self.values@.contains_key(n) implies exists|j: int| 0 <= j < r@.len() && (#[trigger] r@[j]).0@ == self.values@[n]@ by {
                let q = choose|q: int| 0 <= q < rows@.len() && (#[trigger] rows@[q]).0@ == self.values@[n]@;
                assert(rows@.to_multiset().count(rows@[q]) > 0);
                assert(sorted@.contains(rows@[q]));
                let j = choose|j: int| 0 <= j < sorted@.len() && sorted@[j] == rows@[q];
                assert(r@[j].0@ == self.values@[n]@);
            }
            assert forall|a: int, b: int| 0 <= a < b < r@.len() implies (#[trigger] r@[a]).0@ != (#[trigger] r@[b]).0@ by {
                assert(rows@.contains(sorted@[a]));
                assert(rows@.contains(sorted@[b]));
                let qa = choose|q: int| 0 <= q < rows@.len() && rows@[q] == sorted@[a];
                let qb = choose|q: int| 0 <= q < rows@.len() && rows@[q] == sorted@[b];
                if sorted@[a].0@ == sorted@[b].0@ {
                    if qa == qb {
                        rows@.lemma_multiset_has_no_duplicates();
                        assert(rows@.no_duplicates()) by {
                            assert forall|x: int, y: int| 0 <= x < rows@.len() && 0 <= y < rows@.len() && x != y implies rows@[x] != rows@[y] by {
                                if x < y {
                                    assert(rows@[x].0@ != rows@[y].0@);
                                } else {
                                    assert(rows@[y].0@ != rows@[x].0@);
                                }
                            }
                        }
                        rows@.lemma_multiset_has_no_duplicates();
                        sorted@.lemma_multiset_has_no_duplicates_conv();
                        assert(sorted@[a] != sorted@[b]);
                    } else if qa < qb {
                        assert(rows@[qa].0@ != rows@[qb].0@);
                    } else {
                        assert(rows@[qb].0@ != rows@[qa].0@);
                    }
                }
            }
        }
        r
    }

    /// The frequency list (short name).
    pub fn freq_list(&self) -> (r: Vec<(FeatureValue, usize)>)
        ensures
            forall|j: int| 0 <= j < r@.len() ==> (#[trigger] r@[j]).1 == nodes_valued(self.values@, r@[j].0@).len() && r@[j].1 >= 1,
            forall|n: u32| self.values@.contains_key(n) ==> exists|j: int| 0 <= j < r@.len() && (#[trigger] r@[j]).0@ == self.values@[n]@,
            forall|a: int, b: int| 0 <= a < b < r@.len() ==> (#[trigger] r@[a]).0@ != (#[trigger] r@[b]).0@,
            forall|a: int, b: int| 0 <= a < b < r@.len() ==> row_le(#[trigger] r@[a].1 as int, fv_token(r@[a].0@), #[trigger] r@[b].1 as int, fv_token(r@[b].0@)),
    {
        self.frequency_list()
    }

    /// The frequency list (camel-case name).
    #[allow(non_snake_case)]
    pub fn freqList(&self) -> (r: Vec<(FeatureValue, usize)>)
        ensures
            forall|j: int| 0 <= j < r@.len() ==> (#[trigger] r@[j]).1 == nodes_valued(self.values@, r@[j].0@).len() && r@[j].1 >= 1,
            forall|n: u32| self.values@.contains_key(n) ==> exists|j: int| 0 <= j < r@.len() && (#[trigger] r@[j]).0@ == self.values@[n]@,
            forall|a: int, b: int| 0 <= a < b < r@.len() ==> (#[trigger] r@[a]).0@ != (#[trigger] r@[b]).0@,
            forall|a: int, b: int| 0 <= a < b < r@.len() ==> row_le(#[trigger] r@[a].1 as int, fv_token(r@[a].0@), #[trigger] r@[b].1 as int, fv_token(r@[b].0@)),
    {
        self.frequency_list()
    }

    fn filter_compare(&self, nodes: &[u32], expected: &FeatureValue, want: i8) -> (r: Vec<u32>)
        ensures
            r@ == nodes@.filter(pred_order(self.values@, expected@, want as int)),
    {
        let ghost p = pred_order(self.values@, expected@, want as int);
        let mut r: Vec<u32> = Vec::new();
        let mut i: usize = 0;
        while i < nodes.len()
            invariant
                0 <= i <= nodes.len(),
                r@ == nodes@.take(i as int).filter(p),
                p == pred_order(self.values@, expected@, want as int),
            decreases nodes.len() - i,
        {
            let n = nodes[i];
            proof {
                assert(nodes@.take(i + 1) == nodes@.take(i as int).push(n));
                nodes@.take(i as int).lemma_filter_push(n, p);
            }
            let keep = match self.values.get(&n) {
                Some(v) => match compare_feature_values(v, expected) {
                    Some(c) => c == want,
                    None => false,
                },
                None => false,
            };
            if keep {
                r.push(n);
            }
            i += 1;
        }
        proof {
            assert(nodes@.take(nodes@.len() as int) == nodes@);
        }
        r
    }
}

/// The nodes of `s` whose value in `m` is `v`.
pub open spec fn valued_in(m: Map<u32, FeatureValue>, v: FValue, s: Set<u32>) -> Set<u32> {
    s.filter(|n: u32| m.contains_key(n) && m[n]@ == v)
}

proof fn lemma_valued_step(m: Map<u32, FeatureValue>, seen0: Set<u32>, k: u32, w: FValue)
    requires
        seen0.finite(),
        !seen0.contains(k),
    ensures
        valued_in(m, w, seen0.insert(k)).len() == valued_in(m, w, seen0).len() + (if m.contains_key(k) && m[k]@ == w { 1int } else { 0int }),
        valued_in(m, w, seen0).finite(),
{
    seen0.lemma_len_filter(|n: u32| m.contains_key(n) && m[n]@ == w);
    if m.contains_key(k) && m[k]@ == w {
        assert(valued_in(m, w, seen0.insert(k)) =~= valued_in(m, w, seen0).insert(k));
    } else {
        assert(valued_in(m, w, seen0.insert(k)) =~= valued_in(m, w, seen0));
    }
}

/// Frequency rows of the values of `m`: each distinct value once, with its number of
/// nodes and its sort token.
fn count_values(m: &HashMap<u32, FeatureValue>) -> (rows: Vec<(FeatureValue, usize, Vec<char>)>)
    ensures
        forall|j: int| 0 <= j < rows@.len() ==> (#[trigger] rows@[j]).2@ == fv_token(rows@[j].0@),
        forall|j: int| 0 <= j < rows@.len() ==> (#[trigger] rows@[j]).1 == nodes_valued(m@, rows@[j].0@).len() && rows@[j].1 >= 1,
        forall|n: u32| m@.contains_key(n) ==> exists|j: int| 0 <= j < rows@.len() && (#[trigger] rows@[j]).0@ == m@[n]@,
        forall|a: int, b: int| 0 <= a < b < rows@.len() ==> (#[trigger] rows@[a]).0@ != (#[trigger] rows@[b]).0@,
{
    let keys = map_keys(m);
    let mut rows: Vec<(FeatureValue, usize, Vec<char>)> = Vec::new();
    let ghost mut seen: Set<u32> = Set::empty();
    let mut i: usize = 0;
    while i < keys.len()
        invariant
            0 <= i <= keys.len(),
            keys@.no_duplicates(),
            forall|k: u32| keys@.contains(k) <==> m@.contains_key(k),
            seen.finite(),
            forall|x: u32| seen.contains(x) <==> exists|j: int| 0 <= j < i && keys@[j] == x,
            forall|j: int| 0 <= j < rows@.len() ==> (#[trigger] rows@[j]).2@ == fv_token(rows@[j].0@),
            forall|j: int| 0 <= j < rows@.len() ==> (#[trigger] rows@[j]).1 == valued_in(m@, rows@[j].0@, seen).len() && rows@[j].1 >= 1 && rows@[j].1 <= i,
            forall|n: u32| seen.contains(n) ==> exists|j: int| 0 <= j < rows@.len() && (#[trigger] rows@[j]).0@ == m@[n]@,
            forall|a: int, b: int| 0 <= a < b < rows@.len() ==> (#[trigger] rows@[a]).0@ != (#[trigger] rows@[b]).0@,
            forall|x: u32| seen.contains(x) ==> m@.contains_key(x),
        decreases keys.len() - i,
    {
        let k = keys[i];
        proof {
            assert(keys@.contains(k));
            assert(!seen.contains(k)) by {
                if seen.contains(k) {
                    let j = choose|j: int| 0 <= j < i && keys@[j] == k;
                }
            }
        }
        let v = match m.get(&k) {
            Some(v) => v,
            None => {
                proof {
                    assert(false);
                }
                return rows;
            },
        };
        let ghost seen0 = seen;
        let ghost rows0 = rows@;
        proof {
            seen = seen.insert(k);
        }
        let mut j: usize = 0;
        let mut found = false;
        while j < rows.len() && !found
            invariant
                0 <= j <= rows.len(),
                rows@ == rows0,
                found ==> j < rows.len() && rows@[j as int].0@ == v@,
                forall|q: int| 0 <= q < j ==> (#[trigger] rows@[q]).0@ != v@,
            decreases rows.len() - j + (if found { 0int } else { 1int }),
        {
            if rows[j].0.same(v) {
                found = true;
            } else {
                j += 1;
            }
        }
        if found {
            let c = rows[j].1;
            let t = rows[j].2.clone();
            let val = rows[j].0.duplicate();
            rows.set(j, (val, c + 1, t));
            proof {
                assert forall|q: int| 0 <= q < rows@.len() implies (#[trigger] rows@[q]).1 == valued_in(m@, rows@[q].0@, seen).len() && rows@[q].1 >= 1 && rows@[q].1 <= i + 1 by {
                    lemma_valued_step(m@, seen0, k, rows@[q].0@);
                    if q != j {
                        assert(rows@[q] == rows0[q]);
                        assert(rows0[q].0@ != v@) by {
                            if rows0[q].0@ == v@ {
                                assert(rows0[j as int].0@ == v@);
                            }
                        }
                    }
                }
                assert(rows@[j as int].0@ == v@);
                assert forall|n: u32| seen.contains(n) implies exists|q: int| 0 <= q < rows@.len() && (#[trigger] rows@[q]).0@ == m@[n]@ by {
                    if n == k {
                        assert(rows@[j as int].0@ == m@[n]@);
                    } else {
                        assert(seen0.contains(n));
                        let q = choose|q: int| 0 <= q < rows0.len() && (#[trigger] rows0[q]).0@ == m@[n]@;
                        assert(rows@[q].0@ == rows0[q].0@);
                    }
                }
            }
        } else {
            proof {
                assert(valued_in(m@, v@, seen0) =~= Set::empty()) by {
                    assert forall|x: u32| !valued_in(m@, v@, seen0).contains(x) by {
                        if valued_in(m@, v@, seen0).contains(x) {
                            assert(seen0.contains(x));
                            let q = choose|q: int| 0 <= q < rows0.len() && (#[trigger] rows0[q]).0@ == m@[x]@;
                            assert(rows0[q].0@ != v@);
                        }
                    }
                }
            }
            let t = sort_token(v);
            rows.push((v.duplicate(), 1, t));
            proof {
                assert forall|q: int| 0 <= q < rows@.len() implies (#[trigger] rows@[q]).1 == valued_in(m@, rows@[q].0@, seen).len() && rows@[q].1 >= 1 && rows@[q].1 <= i + 1 by {
                    lemma_valued_step(m@, seen0, k, rows@[q].0@);
                    if q < rows0.len() {
                        assert(rows@[q] == rows0[q]);
                    }
                }
                assert forall|n: u32| seen.contains(n) implies exists|q: int| 0 <= q < rows@.len() && (#[trigger] rows@[q]).0@ == m@[n]@ by {
                    if n == k {
                        assert(rows@[rows0.len() as int].0@ == m@[n]@);
                    } else {
                        assert(seen0.contains(n));
                        let q = choose|q: int| 0 <= q < rows0.len() && (#[trigger] rows0[q]).0@ == m@[n]@;
                        assert(rows@[q] == rows0[q]);
                    }
                }
            }
        }
        i += 1;
    }
    proof {
        assert forall|j: int| 0 <= j < rows@.len() implies (#[trigger] rows@[j]).1 == nodes_valued(m@, rows@[j].0@).len() by {
            assert(valued_in(m@, rows@[j].0@, seen) =~= nodes_valued(m@, rows@[j].0@)) by {
                assert forall|x: u32| m@.contains_key(x) implies seen.contains(x) by {
                    assert(keys@.contains(x));
                    let q = choose|q: int| 0 <= q < keys@.len() && keys@[q] == x;
                }
            }
        }
        assert forall|n: u32| m@.contains_key(n) implies exists|j: int| 0 <= j < rows@.len() && (#[trigger] rows@[j]).0@ == m@[n]@ by {
            assert(keys@.contains(n));
            let q = choose|q: int| 0 <= q < keys@.len() && keys@[q] == n;
            assert(seen.contains(n));
        }
    }
    rows
}

/// Sorts a duplicate-free node list into canonical order.
fn sort_by_rank_set(nodes: Vec<u32>, rank: &Option<Vec<u32>>) -> (r: Vec<u32>)
    requires
        nodes@.no_duplicates(),
    ensures
        r@.to_set() == nodes@.to_set(),
        r@.no_duplicates(),
        sorted_by_rank(r@, opt_seq(*rank)),
{
    let r = sort_by_rank(nodes, rank);
    proof {
        assert(r@.to_set() =~= nodes@.to_set()) by {
            assert forall|x: u32| r@.to_set().contains(x) <==> nodes@.to_set().contains(x) by {
                assert(r@.to_set().contains(x) <==> r@.contains(x));
                assert(nodes@.to_set().contains(x) <==> nodes@.contains(x));
            }
        }
    }
    r
}

// ---------------------------------------------------------------------------
// Edge features
// ---------------------------------------------------------------------------

/// The targets of `n`, when it has an entry.
pub open spec fn tg_at(m: Map<u32, Vec<u32>>, n: u32) -> Option<Seq<u32>> {
    if m.contains_key(n) {
        Some(m[n]@)
    } else {
        None
    }
}

/// The targets of `n`; empty without an entry.
pub open spec fn tg_or_empty(m: Map<u32, Vec<u32>>, n: u32) -> Seq<u32> {
    if m.contains_key(n) {
        m[n]@
    } else {
        seq![]
    }
}

/// The value on the edge from `s` to `t`.
pub open spec fn ev_at(m: Map<u32, HashMap<u32, FeatureValue>>, s: u32, t: u32) -> Option<FValue> {
    if m.contains_key(s) && m[s]@.contains_key(t) {
        Some(m[s]@[t]@)
    } else {
        None
    }
}

/// `src` has an edge to `t`.
pub open spec fn has_edge(m: Map<u32, Vec<u32>>, src: u32, t: u32) -> bool {
    m.contains_key(src) && m[src]@.contains(t)
}

/// Some target of `s` lies in `targets`.
pub open spec fn src_hits(m: Map<u32, Vec<u32>>, s: u32, targets: Seq<u32>) -> bool {
    exists|t: u32| #[trigger] targets.contains(t) && has_edge(m, s, t)
}

/// Some source in `sources` has an edge to `t`.
pub open spec fn tgt_hit(m: Map<u32, Vec<u32>>, t: u32, sources: Seq<u32>) -> bool {
    exists|s: u32| #[trigger] sources.contains(s) && has_edge(m, s, t)
}

/// `a` and `b` share an element.
pub open spec fn seq_hits(a: Seq<u32>, b: Seq<u32>) -> bool {
    exists|t: u32| b.contains(t) && #[trigger] a.contains(t)
}

/// A feature assigning a set of target nodes (optionally with values) to source nodes.
#[derive(Debug, Clone, PartialEq, Eq)]
pub struct EdgeFeature {
    pub name: String,
    pub metadata: Metadata,
    pub values: HashMap<u32, Vec<u32>>,
    pub edge_values: HashMap<u32, HashMap<u32, FeatureValue>>,
    pub rank: Option<Vec<u32>>,
}

/// Marker for the collection of edge features.
#[derive(Debug, Clone, Default, PartialEq, Eq)]
pub struct EdgeFeatures;

/// The slot-containment feature.
pub type OslotsFeature = EdgeFeature;

/// A precomputed data item.
#[derive(Debug, Clone, PartialEq, Eq)]
pub struct Computed<T> {
    pub data: T,
}

impl<T> Computed<T> {
    /// Wraps `data`.
    pub fn new(data: T) -> (r: Self)
        ensures
            r.data == data,
    {
        Computed { data }
    }

    /// The wrapped data.
    pub fn data(&self) -> (r: &T)
        ensures
            *r == self.data,
    {
        &self.data
    }

    /// The wrapped data, by value.
    pub fn into_data(self) -> (r: T)
        ensures
            r == self.data,
    {
        self.data
    }
}

/// Marker for the collection of computed data.
#[derive(Debug, Clone, Default, PartialEq, Eq)]
pub struct Computeds;

/// Target lists sorted ascending without repeats, from arbitrary lists.
fn normalize_targets(values: HashMap<u32, Vec<u32>>) -> (r: HashMap<u32, Vec<u32>>)
    ensures
        r@.dom() == values@.dom(),
        forall|n: u32| #[trigger] r@.contains_key(n) ==> strictly_sorted_u32(r@[n]@) && forall|x: u32| r@[n]@.contains(x) <==> values@[n]@.contains(x),
{
    let keys = map_keys(&values);
    let mut out: HashMap<u32, Vec<u32>> = HashMap::new();
    let mut i: usize = 0;
    while i < keys.len()
        invariant
            0 <= i <= keys.len(),
            keys@.no_duplicates(),
            forall|k: u32| keys@.contains(k) <==> values@.contains_key(k),
            forall|k: u32| out@.contains_key(k) <==> keys@.take(i as int).contains(k),
            forall|n: u32| #[trigger] out@.contains_key(n) ==> strictly_sorted_u32(out@[n]@) && forall|x: u32| out@[n]@.contains(x) <==> values@[n]@.contains(x),
        decreases keys.len() - i,
    {
        let k = keys[i];
        proof {
            assert(keys@.take(i + 1) == keys@.take(i as int).push(k));
            assert(keys@.contains(k));
        }
        let list = match values.get(&k) {
            Some(v) => v.clone(),
            None => Vec::new(),
        };
        let sorted = sort_dedup(list);
        out.insert(k, sorted);
        proof {
            assert forall|q: u32| out@.contains_key(q) <==> keys@.take(i + 1).contains(q) by {
                lemma_push_contains_pub(keys@.take(i as int), k, q);
            }
        }
        i += 1;
    }
    proof {
        assert(keys@.take(keys@.len() as int) == keys@);
        assert(out@.dom() =~= values@.dom());
    }
    out
}

pub open spec fn opt_ref_seq(o: Option<&[u32]>) -> Option<Seq<u32>> {
    match o {
        Some(v) => Some(v@),
        None => None,
    }
}

impl EdgeFeature {
    pub open spec fn rank_table(&self) -> Option<Seq<u32>> {
        opt_seq(self.rank)
    }

    /// A feature without edge values; target lists become ascending without repeats.
    pub fn new(name: String, metadata: Metadata, values: HashMap<u32, Vec<u32>>) -> (r: Self)
        ensures
            r.name == name,
            r.metadata == metadata,
            r.values@.dom() == values@.dom(),
            forall|n: u32| #[trigger] r.values@.contains_key(n) ==> strictly_sorted_u32(r.values@[n]@) && forall|x: u32| r.values@[n]@.contains(x) <==> values@[n]@.contains(x),
            r.edge_values@ == Map::<u32, HashMap<u32, FeatureValue>>::empty(),
            r.rank_table() is None,
    {
        Self::new_with_values(name, metadata, values, HashMap::new())
    }

    /// A feature with edge values; target lists become ascending without repeats.
    pub fn new_with_values(
        name: String,
        metadata: Metadata,
        values: HashMap<u32, Vec<u32>>,
        edge_values: HashMap<u32, HashMap<u32, FeatureValue>>,
    ) -> (r: Self)
        ensures
            r.name == name,
            r.metadata == metadata,
            r.values@.dom() == values@.dom(),
            forall|n: u32| #[trigger] r.values@.contains_key(n) ==> strictly_sorted_u32(r.values@[n]@) && forall|x: u32| r.values@[n]@.contains(x) <==> values@[n]@.contains(x),
            r.edge_values == edge_values,
            r.rank_table() is None,
    {
        let values = normalize_targets(values);
        EdgeFeature { name, metadata, values, edge_values, rank: None }
    }

    /// The same feature ordered by the rank table `rank`: every target list is put
    /// in canonical order.
    pub fn with_rank(self, rank: Vec<u32>) -> (r: Self)
        ensures
            r.name == self.name,
            r.metadata == self.metadata,
            r.edge_values == self.edge_values,
            r.rank_table() == Some(rank@),
            r.values@.dom() == self.values@.dom(),
            forall|n: u32| #[trigger] r.values@.contains_key(n) ==> sorted_by_rank(r.values@[n]@, Some(rank@)) && r.values@[n]@.len() == self.values@[n]@.len() && forall|x: u32| r.values@[n]@.contains(x) <==> self.values@[n]@.contains(x),
    {
        let rk = Some(rank);
        let keys = map_keys(&self.values);
        let mut out: HashMap<u32, Vec<u32>> = HashMap::new();
        let mut i: usize = 0;
        while i < keys.len()
            invariant
                0 <= i <= keys.len(),
                opt_seq(rk) == Some(rank@),
                keys@.no_duplicates(),
                forall|k: u32| keys@.contains(k) <==> self.values@.contains_key(k),
                forall|k: u32| out@.contains_key(k) <==> keys@.take(i as int).contains(k),
                forall|n: u32| #[trigger] out@.contains_key(n) ==> sorted_by_rank(out@[n]@, Some(rank@)) && out@[n]@.len() == self.values@[n]@.len() && forall|x: u32| out@[n]@.contains(x) <==> self.values@[n]@.contains(x),
            decreases keys.len() - i,
        {
            let k = keys[i];
            proof {
                assert(keys@.take(i + 1) == keys@.take(i as int).push(k));
                assert(keys@.contains(k));
            }
            let list = match self.values.get(&k) {
                Some(v) => v.clone(),
                None => Vec::new(),
            };
            let sorted = sort_by_rank(list, &rk);
            out.insert(k, sorted);
            proof {
                assert forall|q: u32| out@.contains_key(q) <==> keys@.take(i + 1).contains(q) by {
                    lemma_push_contains_pub(keys@.take(i as int), k, q);
                }
            }
            i += 1;
        }
        proof {
            assert(keys@.take(keys@.len() as int) == keys@);
            assert(out@.dom() =~= self.values@.dom());
        }
        EdgeFeature { name: self.name, metadata: self.metadata, values: out, edge_values: self.edge_values, rank: rk }
    }

    /// The targets of `node`, when it has an entry.
    pub fn targets(&self, node: u32) -> (r: Option<&[u32]>)
        ensures
            opt_ref_seq(r) == tg_at(self.values@, node),
    {
        match self.values.get(&node) {
            Some(v) => Some(v.as_slice()),
            None => None,
        }
    }

    /// All target lists by source.
    pub fn data(&self) -> (r: &HashMap<u32, Vec<u32>>)
        ensures
            r == &self.values,
    {
        &self.values
    }

    /// The metadata.
    pub fn meta(&self) -> (r: &Metadata)
        ensures
            r == &self.metadata,
    {
        &self.metadata
    }

    /// A metadata value (`valueType` falls back to `value_type`).
    pub fn metadata_value(&self, key: &str) -> (r: Option<&str>)
        ensures
            match r {
                Some(v) => metadata_value_spec(self.metadata@, key@) == Some(v@),
                None => metadata_value_spec(self.metadata@, key@) is None,
            },
    {
        metadata_value(&self.metadata, key)
    }

    /// The declared value type of the edge values.
    pub fn value_type(&self) -> (r: Option<&str>)
        ensures
            match r {
                Some(v) => metadata_value_spec(self.metadata@, "valueType"@) == Some(v@),
                None => metadata_value_spec(self.metadata@, "valueType"@) is None,
            },
    {
        self.metadata_value("valueType")
    }

    /// Camel-case name of [`EdgeFeature::value_type`].
    #[allow(non_snake_case)]
    pub fn valueType(&self) -> (r: Option<&str>)
        ensures
            match r {
                Some(v) => metadata_value_spec(self.metadata@, "valueType"@) == Some(v@),
                None => metadata_value_spec(self.metadata@, "valueType"@) is None,
            },
    {
        self.value_type()
    }

    /// The description metadata.
    pub fn description(&self) -> (r: Option<&str>)
        ensures
            match r {
                Some(v) => metadata_value_spec(self.metadata@, "description"@) == Some(v@),
                None => metadata_value_spec(self.metadata@, "description"@) is None,
            },
    {
        self.metadata_value("description")
    }

    /// The targets of `node` as an owned list; empty without an entry.
    pub fn forward(&self, node: u32) -> (r: Vec<u32>)
        ensures
            r@ == tg_or_empty(self.values@, node),
    {
        match self.values.get(&node) {
            Some(v) => v.clone(),
            None => Vec::new(),
        }
    }

    /// The targets of `node` (short name).
    pub fn f(&self, node: u32) -> (r: Vec<u32>)
        ensures
            r@ == tg_or_empty(self.values@, node),
    {
        self.forward(node)
    }

    /// The targets of `node`; for the slot feature, a node without targets is its own slot.
    pub fn s(&self, node: u32) -> (r: Vec<u32>)
        ensures
            r@ == if tg_or_empty(self.values@, node).len() == 0 && self.name@ == "oslots"@ {
                seq![node]
            } else {
                tg_or_empty(self.values@, node)
            },
    {
        let targets = self.forward(node);
        if targets.len() == 0 && crate::strs::string_eq(&self.name, "oslots") {
            let mut v = Vec::new();
            v.push(node);
            proof {
                assert(v@ =~= seq![node]);
            }
            v
        } else {
            targets
        }
    }

    /// The value on the edge from `source` to `target`.
    pub fn edge_value(&self, source: u32, target: u32) -> (r: Option<&FeatureValue>)
        ensures
            opt_ref_fv(r) == ev_at(self.edge_values@, source, target),
    {
        match self.edge_values.get(&source) {
            Some(m) => m.get(&target),
            None => None,
        }
    }

    /// Whether the feature declares edge values.
    pub fn has_edge_values(&self) -> (r: bool)
        ensures
            r == meta_has(self.metadata@, "edgeValues"@),
    {
        meta_contains(&self.metadata, "edgeValues")
    }

    /// Camel-case name of [`EdgeFeature::has_edge_values`].
    #[allow(non_snake_case)]
    pub fn hasEdgeValues(&self) -> (r: bool)
        ensures
            r == meta_has(self.metadata@, "edgeValues"@),
    {
        self.has_edge_values()
    }

    /// The union of the targets of `sources`.
    pub fn all_targets(&self, sources: &[u32]) -> (r: BTreeSet<u32>)
        ensures
            forall|t: u32| r@.contains(t) <==> exists|k: int| 0 <= k < sources@.len() && has_edge(self.values@, #[trigger] sources@[k], t),
    {
        let mut out: BTreeSet<u32> = BTreeSet::new();
        let mut i: usize = 0;
        while i < sources.len()
            invariant
                0 <= i <= sources.len(),
                forall|t: u32| out@.contains(t) <==> exists|k: int| 0 <= k < i && has_edge(self.values@, #[trigger] sources@[k], t),
            decreases sources.len() - i,
        {
            let src = sources[i];
            match self.values.get(&src) {
                Some(ts) => {
                    let mut j: usize = 0;
                    while j < ts.len()
                        invariant
                            0 <= j <= ts.len(),
                            self.values@.contains_key(src),
                            ts@ == self.values@[src]@,
                            src == sources@[i as int],
                            forall|t: u32| out@.contains(t) <==> ((exists|k: int| 0 <= k < i && has_edge(self.values@, #[trigger] sources@[k], t)) || ts@.take(j as int).contains(t)),
                        decreases ts.len() - j,
                    {
                        proof {
                            assert(ts@.take(j + 1) == ts@.take(j as int).push(ts@[j as int]));
                            assert forall|t: u32| ts@.take(j + 1).contains(t) <==> (ts@.take(j as int).contains(t) || t == ts@[j as int]) by {
                                lemma_push_contains_pub(ts@.take(j as int), ts@[j as int], t);
                            }
                        }
                        out.insert(ts[j]);
                        j += 1;
                    }
                    proof {
                        assert(ts@.take(ts@.len() as int) == ts@);
                        assert forall|t: u32| out@.contains(t) <==> exists|k: int| 0 <= k < i + 1 && has_edge(self.values@, #[trigger] sources@[k], t) by {
                            if out@.contains(t) && !(exists|k: int| 0 <= k < i && has_edge(self.values@, #[trigger] sources@[k], t)) {
                                assert(has_edge(self.values@, sources@[i as int], t));
                            }
                        }
                    }
                },
                None => {
                    proof {
                        assert forall|t: u32| out@.contains(t) <==> exists|k: int| 0 <= k < i + 1 && has_edge(self.values@, #[trigger] sources@[k], t) by {
                            if exists|k: int| 0 <= k < i + 1 && has_edge(self.values@, #[trigger] sources@[k], t) {
                                let k = choose|k: int| 0 <= k < i + 1 && has_edge(self.values@, #[trigger] sources@[k], t);
                                assert(k != i);
                            }
                        }
                    }
                },
            }
            i += 1;
        }
        out
    }

    /// The union of the targets of `sources` (alternative name).
    pub fn get_all_targets(&self, sources: &[u32]) -> (r: BTreeSet<u32>)
        ensures
            forall|t: u32| r@.contains(t) <==> exists|k: int| 0 <= k < sources@.len() && has_edge(self.values@, #[trigger] sources@[k], t),
    {
        self.all_targets(sources)
    }

    /// The sources among `sources` with a target in `targets`, and those targets;
    /// both empty when `targets` is empty.
    pub fn filter_sources_with_targets_in(&self, sources: &[u32], targets: &[u32]) -> (r: (BTreeSet<u32>, BTreeSet<u32>))
        ensures
            forall|s: u32| r.0@.contains(s) <==> sources@.contains(s) && src_hits(self.values@, s, targets@),
            forall|t: u32| r.1@.contains(t) <==> targets@.contains(t) && tgt_hit(self.values@, t, sources@),
    {
        let mut tset: BTreeSet<u32> = BTreeSet::new();
        let mut i: usize = 0;
        while i < targets.len()
            invariant
                0 <= i <= targets.len(),
                forall|t: u32| tset@.contains(t) <==> targets@.take(i as int).contains(t),
            decreases targets.len() - i,
        {
            proof {
                assert(targets@.take(i + 1) == targets@.take(i as int).push(targets@[i as int]));
                assert forall|t: u32| targets@.take(i + 1).contains(t) <==> (targets@.take(i as int).contains(t) || t == targets@[i as int]) by {
                    lemma_push_contains_pub(targets@.take(i as int), targets@[i as int], t);
                }
            }
            tset.insert(targets[i]);
            i += 1;
        }
        proof {
            assert(targets@.take(targets@.len() as int) == targets@);
        }
        let mut ms: BTreeSet<u32> = BTreeSet::new();
        let mut mt: BTreeSet<u32> = BTreeSet::new();
        let mut a: usize = 0;
        while a < sources.len()
            invariant
                0 <= a <= sources.len(),
                forall|t: u32| tset@.contains(t) <==> targets@.contains(t),
                forall|s: u32| ms@.contains(s) <==> sources@.take(a as int).contains(s) && src_hits(self.values@, s, targets@),
                forall|t: u32| mt@.contains(t) <==> targets@.contains(t) && tgt_hit(self.values@, t, sources@.take(a as int)),
            decreases sources.len() - a,
        {
            let src = sources[a];
            let ghost pre = sources@.take(a as int);
            proof {
                assert(sources@.take(a + 1)[a as int] == src);
                assert(sources@.take(a + 1) == pre.push(src));
                assert forall|s: u32| sources@.take(a + 1).contains(s) <==> (pre.contains(s) || s == src) by {
                    lemma_push_contains_pub(pre, src, s);
                }
            }
            let ghost ms0 = ms@;
            let ghost mt0 = mt@;
            match self.values.get(&src) {
                Some(ts) => {
                    if hits_set(ts, &tset) {
                        ms.insert(src);
                    }
                    mt = add_hits(mt, ts, &tset);
                    proof {
                        assert(seq_hits(ts@, targets@) == src_hits(self.values@, src, targets@)) by {
                            if seq_hits(ts@, targets@) {
                                let w = choose|w: u32| targets@.contains(w) && #[trigger] ts@.contains(w);
                                assert(has_edge(self.values@, src, w));
                            }
                            if src_hits(self.values@, src, targets@) {
                                let w = choose|w: u32| #[trigger] targets@.contains(w) && has_edge(self.values@, src, w);
                                assert(ts@.contains(w));
                            }
                        }
                        assert forall|s: u32| ms@.contains(s) <==> sources@.take(a + 1).contains(s) && src_hits(self.values@, s, targets@) by {}
                        assert forall|t: u32| mt@.contains(t) <==> targets@.contains(t) && tgt_hit(self.values@, t, sources@.take(a + 1)) by {
                            if targets@.contains(t) && tgt_hit(self.values@, t, sources@.take(a + 1)) {
                                let w = choose|w: u32| #[trigger] sources@.take(a + 1).contains(w) && has_edge(self.values@, w, t);
                                if w != src {
                                    assert(pre.contains(w));
                                    assert(tgt_hit(self.values@, t, pre));
                                } else {
                                    assert(ts@.contains(t));
                                }
                            }
                            if mt0.contains(t) {
                                let w = choose|w: u32| #[trigger] pre.contains(w) && has_edge(self.values@, w, t);
                                assert(sources@.take(a + 1).contains(w));
                            }
                            if ts@.contains(t) {
                                assert(sources@.take(a + 1).contains(src));
                                assert(has_edge(self.values@, src, t));
                            }
                        }
                    }
                },
                None => {
                    proof {
                        assert(!src_hits(self.values@, src, targets@));
                        assert forall|s: u32| ms@.contains(s) <==> sources@.take(a + 1).contains(s) && src_hits(self.values@, s, targets@) by {}
                        assert forall|t: u32| mt@.contains(t) <==> targets@.contains(t) && tgt_hit(self.values@, t, sources@.take(a + 1)) by {
                            if targets@.contains(t) && tgt_hit(self.values@, t, sources@.take(a + 1)) {
                                let w = choose|w: u32| #[trigger] sources@.take(a + 1).contains(w) && has_edge(self.values@, w, t);
                                assert(w != src);
                                assert(pre.contains(w));
                                assert(tgt_hit(self.values@, t, pre));
                            }
                            if mt0.contains(t) {
                                let w = choose|w: u32| #[trigger] pre.contains(w) && has_edge(self.values@, w, t);
                                assert(sources@.take(a + 1).contains(w));
                            }
                        }
                    }
                },
            }
            a += 1;
        }
        proof {
            assert(sources@.take(sources@.len() as int) == sources@);
        }
        (ms, mt)
    }

    /// The targets of `node` paired with their edge values.
    pub fn forward_with_values(&self, node: u32) -> (r: Vec<(u32, Option<FeatureValue>)>)
        ensures
            r@.len() == tg_or_empty(self.values@, node).len(),
            forall|i: int| 0 <= i < r@.len() ==> (#[trigger] r@[i]).0 == tg_or_empty(self.values@, node)[i] && crate::value::opt_fv(r@[i].1) == ev_at(self.edge_values@, node, r@[i].0),
    {
        let ts = self.forward(node);
        let mut r: Vec<(u32, Option<FeatureValue>)> = Vec::new();
        let mut i: usize = 0;
        while i < ts.len()
            invariant
                0 <= i <= ts.len(),
                ts@ == tg_or_empty(self.values@, node),
                r@.len() == i,
                forall|k: int| 0 <= k < i ==> (#[trigger] r@[k]).0 == ts@[k] && crate::value::opt_fv(r@[k].1) == ev_at(self.edge_values@, node, r@[k].0),
            decreases ts.len() - i,
        {
            let t = ts[i];
            let v = match self.edge_value(node, t) {
                Some(x) => Some(x.duplicate()),
                None => None,
            };
            r.push((t, v));
            i += 1;
        }
        r
    }

    /// The targets of `node` with their edge values (short name).
    pub fn f_with_values(&self, node: u32) -> (r: Vec<(u32, Option<FeatureValue>)>)
        ensures
            r@.len() == tg_or_empty(self.values@, node).len(),
            forall|i: int| 0 <= i < r@.len() ==> (#[trigger] r@[i]).0 == tg_or_empty(self.values@, node)[i] && crate::value::opt_fv(r@[i].1) == ev_at(self.edge_values@, node, r@[i].0),
    {
        self.forward_with_values(node)
    }

    /// The sources with an edge to `node`, in canonical order, each once.
    pub fn backward(&self, node: u32) -> (r: Vec<u32>)
        ensures
            forall|s: u32| r@.contains(s) <==> has_edge(self.values@, s, node),
            r@.no_duplicates(),
            sorted_by_rank(r@, self.rank_table()),
    {
        let keys = map_keys(&self.values);
        let mut found: Vec<u32> = Vec::new();
        let mut i: usize = 0;
        while i < keys.len()
            invariant
                0 <= i <= keys.len(),
                keys@.no_duplicates(),
                forall|k: u32| keys@.contains(k) <==> self.values@.contains_key(k),
                found@.no_duplicates(),
                forall|s: u32| found@.contains(s) <==> (keys@.take(i as int).contains(s) && has_edge(self.values@, s, node)),
            decreases keys.len() - i,
        {
            let k = keys[i];
            proof {
                assert(keys@.take(i + 1) == keys@.take(i as int).push(k));
                assert(keys@.contains(k));
                assert forall|s: u32| keys@.take(i + 1).contains(s) <==> (keys@.take(i as int).contains(s) || s == k) by {
                    lemma_push_contains_pub(keys@.take(i as int), k, s);
                }
            }
            let ghost f0 = found@;
            let ts = match self.values.get(&k) {
                Some(v) => v,
                None => {
                    proof {
                        assert(false);
                    }
                    return Vec::new();
                },
            };
            if vec_contains(ts, node) {
                proof {
                    assert(!keys@.take(i as int).contains(k)) by {
                        if keys@.take(i as int).contains(k) {
                            let q = choose|q: int| 0 <= q < i && keys@.take(i as int)[q] == k;
                            assert(keys@[q] == keys@[i as int]);
                        }
                    }
                    assert(!f0.contains(k));
                }
                found.push(k);
                proof {
                    assert forall|a: int, b: int| 0 <= a < found@.len() && 0 <= b < found@.len() && a != b implies found@[a] != found@[b] by {
                        if a < f0.len() && b < f0.len() {
                            assert(f0[a] != f0[b]);
                        } else if a == f0.len() {
                            assert(f0.contains(found@[b]));
                        } else {
                            assert(f0.contains(found@[a]));
                        }
                    }
                    assert forall|s: u32| found@.contains(s) <==> (keys@.take(i + 1).contains(s) && has_edge(self.values@, s, node)) by {
                        lemma_push_contains_pub(f0, k, s);
                    }
                }
            }
            i += 1;
        }
        proof {
            assert(keys@.take(keys@.len() as int) == keys@);
        }
        sort_by_rank(found, &self.rank)
    }

    /// The sources of `node` (short name).
    pub fn t(&self, node: u32) -> (r: Vec<u32>)
        ensures
            forall|s: u32| r@.contains(s) <==> has_edge(self.values@, s, node),
            r@.no_duplicates(),
            sorted_by_rank(r@, self.rank_table()),
    {
        self.backward(node)
    }

    /// The sources of `node` paired with their edge values.
    pub fn backward_with_values(&self, node: u32) -> (r: Vec<(u32, Option<FeatureValue>)>)
        ensures
            forall|s: u32| (exists|i: int| 0 <= i < r@.len() && #[trigger] r@[i].0 == s) <==> has_edge(self.values@, s, node),
            forall|i: int| 0 <= i < r@.len() ==> crate::value::opt_fv((#[trigger] r@[i]).1) == ev_at(self.edge_values@, r@[i].0, node),
            sorted_by_rank(r@.map_values(|p: (u32, Option<FeatureValue>)| p.0), self.rank_table()),
            r@.map_values(|p: (u32, Option<FeatureValue>)| p.0).no_duplicates(),
    {
        let srcs = self.backward(node);
        let mut r: Vec<(u32, Option<FeatureValue>)> = Vec::new();
        let mut i: usize = 0;
        while i < srcs.len()
            invariant
                0 <= i <= srcs.len(),
                r@.len() == i,
                forall|k: int| 0 <= k < i ==> (#[trigger] r@[k]).0 == srcs@[k] && crate::value::opt_fv(r@[k].1) == ev_at(self.edge_values@, r@[k].0, node),
            decreases srcs.len() - i,
        {
            let s = srcs[i];
            let v = match self.edge_value(s, node) {
                Some(x) => Some(x.duplicate()),
                None => None,
            };
            r.push((s, v));
            i += 1;
        }
        proof {
            assert(r@.map_values(|p: (u32, Option<FeatureValue>)| p.0) =~= srcs@);
            assert forall|s: u32| (exists|i: int| 0 <= i < r@.len() && #[trigger] r@[i].0 == s) <==> has_edge(self.values@, s, node) by {
                if has_edge(self.values@, s, node) {
                    assert(srcs@.contains(s));
                    let k = choose|k: int| 0 <= k < srcs@.len() && srcs@[k] == s;
                    assert(r@[k].0 == s);
                }
                if exists|i: int| 0 <= i < r@.len() && #[trigger] r@[i].0 == s {
                    let k = choose|k: int| 0 <= k < r@.len() && #[trigger] r@[k].0 == s;
                    assert(srcs@[k] == s);
                    assert(srcs@.contains(s));
                }
            }
        }
        r
    }

    /// The sources of `node` with their edge values (short name).
    pub fn t_with_values(&self, node: u32) -> (r: Vec<(u32, Option<FeatureValue>)>)
        ensures
            forall|s: u32| (exists|i: int| 0 <= i < r@.len() && #[trigger] r@[i].0 == s) <==> has_edge(self.values@, s, node),
            forall|i: int| 0 <= i < r@.len() ==> crate::value::opt_fv((#[trigger] r@[i]).1) == ev_at(self.edge_values@, r@[i].0, node),
            sorted_by_rank(r@.map_values(|p: (u32, Option<FeatureValue>)| p.0), self.rank_table()),
            r@.map_values(|p: (u32, Option<FeatureValue>)| p.0).no_duplicates(),
    {
        self.backward_with_values(node)
    }

    /// The neighbours of `node` in either direction, ascending, each once.
    pub fn both(&self, node: u32) -> (r: Vec<u32>)
        ensures
            forall|x: u32| r@.contains(x) <==> (has_edge(self.values@, node, x) || has_edge(self.values@, x, node)),
            strictly_sorted_u32(r@),
    {
        let mut nodes = self.forward(node);
        let back = self.backward(node);
        let ghost f = nodes@;
        let mut i: usize = 0;
        while i < back.len()
            invariant
                0 <= i <= back.len(),
                nodes@ == f + back@.take(i as int),
            decreases back.len() - i,
        {
            proof {
                assert(back@.take(i + 1) == back@.take(i as int).push(back@[i as int]));
                assert(f + back@.take(i + 1) == (f + back@.take(i as int)).push(back@[i as int]));
            }
            nodes.push(back[i]);
            i += 1;
        }
        proof {
            assert(back@.take(back@.len() as int) == back@);
            assert forall|x: u32| nodes@.contains(x) <==> (has_edge(self.values@, node, x) || has_edge(self.values@, x, node)) by {
                if nodes@.contains(x) {
                    let k = choose|k: int| 0 <= k < nodes@.len() && nodes@[k] == x;
                    if k < f.len() {
                        assert(f.contains(x));
                    } else {
                        assert(back@[k - f.len()] == x);
                        assert(back@.contains(x));
                    }
                }
                if has_edge(self.values@, node, x) {
                    assert(f.contains(x));
                    let k = choose|k: int| 0 <= k < f.len() && f[k] == x;
                    assert(nodes@[k] == x);
                }
                if has_edge(self.values@, x, node) {
                    assert(back@.contains(x));
                    let k = choose|k: int| 0 <= k < back@.len() && back@[k] == x;
                    assert(nodes@[f.len() + k] == x);
                }
            }
        }
        sort_dedup(nodes)
    }

    /// The neighbours of `node` (short name).
    pub fn b(&self, node: u32) -> (r: Vec<u32>)
        ensures
            forall|x: u32| r@.contains(x) <==> (has_edge(self.values@, node, x) || has_edge(self.values@, x, node)),
            strictly_sorted_u32(r@),
    {
        self.both(node)
    }

    /// The number of stored edge values.
    pub fn edge_value_count_for(&self, source: u32) -> (r: usize)
        ensures
            r == if self.edge_values@.contains_key(source) {
                self.edge_values@[source]@.dom().len()
            } else {
                0
            },
    {
        match self.edge_values.get(&source) {
            Some(m) => m.len(),
            None => 0,
        }
    }
}

/// Whether some element of `ts` lies in `set`.
fn hits_set(ts: &Vec<u32>, set: &BTreeSet<u32>) -> (r: bool)
    ensures
        r == exists|t: u32| set@.contains(t) && #[trigger] ts@.contains(t),
{
    let mut i: usize = 0;
    while i < ts.len()
        invariant
            0 <= i <= ts.len(),
            forall|k: int| 0 <= k < i ==> !set@.contains(#[trigger] ts@[k]),
        decreases ts.len() - i,
    {
        if set.contains(&ts[i]) {
            proof {
                assert(ts@.contains(ts@[i as int]));
            }
            return true;
        }
        i += 1;
    }
    proof {
        assert forall|t: u32| !(set@.contains(t) && #[trigger] ts@.contains(t)) by {
            if ts@.contains(t) {
                let k = choose|k: int| 0 <= k < ts@.len() && ts@[k] == t;
            }
        }
    }
    false
}

/// `acc` with the elements of `ts` that lie in `set` added.
fn add_hits(acc: BTreeSet<u32>, ts: &Vec<u32>, set: &BTreeSet<u32>) -> (r: BTreeSet<u32>)
    ensures
        forall|u: u32| r@.contains(u) <==> acc@.contains(u) || (set@.contains(u) && ts@.contains(u)),
{
    let mut out = acc;
    let ghost a0 = out@;
    let mut i: usize = 0;
    while i < ts.len()
        invariant
            0 <= i <= ts.len(),
            forall|u: u32| #[trigger] out@.contains(u) <==> a0.contains(u) || (set@.contains(u) && exists|j: int| 0 <= j < i && ts@[j] == u),
        decreases ts.len() - i,
    {
        let t = ts[i];
        let present = set.contains(&t);
        if present {
            out.insert(t);
        }
        proof {
            assert forall|u: u32| #[trigger] out@.contains(u) <==> a0.contains(u) || (set@.contains(u) && exists|j: int| 0 <= j < i + 1 && ts@[j] == u) by {
                if u == t {
                    assert(ts@[i as int] == u);
                }
            }
        }
        i += 1;
    }
    proof {
        assert forall|u: u32| #[trigger] out@.contains(u) <==> acc@.contains(u) || (set@.contains(u) && ts@.contains(u)) by {
            if ts@.contains(u) {
                let j = choose|j: int| 0 <= j < ts@.len() && ts@[j] == u;
                assert(ts@[j] == u);
            }
        }
    }
    out
}

/// Whether `v` holds `x`.
pub fn vec_contains(v: &Vec<u32>, x: u32) -> (r: bool)
    ensures
        r == v@.contains(x),
{
    let mut i: usize = 0;
    while i < v.len()
        invariant
            0 <= i <= v.len(),
            forall|k: int| 0 <= k < i ==> v@[k] != x,
        decreases v.len() - i,
    {
        if v[i] == x {
            return true;
        }
        i += 1;
    }
    false
}

/// Whether two node lists are equal.
pub fn vec_eq_u32(a: &Vec<u32>, b: &Vec<u32>) -> (r: bool)
    ensures
        r == (a@ == b@),
{
    if a.len() != b.len() {
        return false;
    }
    let mut i: usize = 0;
    while i < a.len()
        invariant
            0 <= i <= a.len(),
            a@.len() == b@.len(),
            forall|k: int| 0 <= k < i ==> a@[k] == b@[k],
        decreases a.len() - i,
    {
        if a[i] != b[i] {
            return false;
        }
        i += 1;
    }
    proof {
        assert(a@ =~= b@);
    }
    true
}

} // verus!

//! Frequency lists of a node feature, restricted to nodes of given types.

use std::collections::HashMap;
use vstd::prelude::*;
use crate::corpus::Corpus;
use crate::corpus_nav::opt_types;
use crate::error::{CfError, CfErrorView};
use crate::edge_tables::{edge_freq_rows, edge_value_rows, edges_of, flat_edges, key_order, EdgeFrequency};
use crate::feature::{map_keys, nodes_valued, EdgeFeature, NodeFeature};
use crate::freq::{fv_token, row_le};
use crate::value::{meta_has, FValue, FeatureValue};

verus! {

broadcast use vstd::std_specs::hash::group_hash_axioms;

impl Corpus {
    /// The nodes of `m` of one of the types `t` (any type without `t`) whose value is `v`.
    pub open spec fn typed_nodes_valued(&self, m: Map<u32, FeatureValue>, t: Option<Seq<Seq<char>>>, v: FValue) -> Set<u32> {
        Set::new(|n: u32| m.contains_key(n) && self.allowed(n, t) && m[n]@ == v)
    }

    /// `rows` is a frequency list of the values of `m` on the nodes of the types `t`:
    /// each value once with its number of such nodes, most frequent first, ties by sort
    /// token.
    pub open spec fn typed_freq_ok(&self, m: Map<u32, FeatureValue>, t: Option<Seq<Seq<char>>>, rows: Seq<(FeatureValue, usize)>) -> bool {
        &&& forall|j: int|
            0 <= j < rows.len() ==> (#[trigger] rows[j]).1 == self.typed_nodes_valued(m, t, rows[j].0@).len() && rows[j].1 >= 1
        &&& forall|n: u32| m.contains_key(n) && self.allowed(n, t) ==> exists|j: int| 0 <= j < rows.len() && (#[trigger] rows[j]).0@ == m[n]@
        &&& forall|a: int, b: int| 0 <= a < b < rows.len() ==> (#[trigger] rows[a]).0@ != (#[trigger] rows[b]).0@
        &&& forall|a: int, b: int|
            0 <= a < b < rows.len() ==> row_le(#[trigger] rows[a].1 as int, fv_token(rows[a].0@), #[trigger] rows[b].1 as int, fv_token(rows[b].0@))
    }

    /// The values of node feature `feature_name` on the nodes of the types `node_types`
    /// (all nodes without them), each with its number of nodes, most frequent first; an
    /// error for an unknown feature.
    pub fn node_frequency_list(&self, feature_name: &str, node_types: Option<&[&str]>) -> (r: Result<Vec<(FeatureValue, usize)>, CfError>)
        ensures
            match r {
                Ok(rows) => self.nf(feature_name@) is Some && self.typed_freq_ok(
                    self.nf(feature_name@)->0.values@,
                    opt_types(node_types),
                    rows@,
                ),
                Err(e) => self.nf(feature_name@) is None && e@ == CfErrorView::MissingFeature(feature_name@),
            },
    {
        let f = match self.node_feature(feature_name) {
            Some(f) => f,
            None => return Err(CfError::missing(feature_name)),
        };
        let ghost m = f.values@;
        let ghost t = opt_types(node_types);
        let keys = map_keys(&f.values);
        let mut sub: HashMap<u32, FeatureValue> = HashMap::new();
        let mut i: usize = 0;
        while i < keys.len()
            invariant
                i <= keys@.len(),
                m == f.values@,
                t == opt_types(node_types),
                forall|k: u32| keys@.contains(k) <==> m.contains_key(k),
                forall|n: u32| #[trigger] sub@.contains_key(n) ==> m.contains_key(n) && self.allowed(n, t) && sub@[n]@ == m[n]@,
                forall|j: int| 0 <= j < i && self.allowed(#[trigger] keys@[j], t) ==> sub@.contains_key(keys@[j]),
            decreases keys.len() - i,
        {
            let n = keys[i];
            if self.node_type_allowed(n, node_types) {
                proof {
                    assert(keys@.contains(n));
                }
                let v = match f.values.get(&n) {
                    Some(v) => v.duplicate(),
                    None => FeatureValue::Int(0),
                };
                sub.insert(n, v);
            }
            i += 1;
        }
        let nf = NodeFeature::new(crate::strs::owned(feature_name), Vec::new(), sub);
        let rows = nf.frequency_list();
        proof {
            assert forall|n: u32| #[trigger] sub@.contains_key(n) <==> (m.contains_key(n) && self.allowed(n, t)) by {
                if m.contains_key(n) && self.allowed(n, t) {
                    assert(keys@.contains(n));
                    let j = choose|j: int| 0 <= j < keys@.len() && keys@[j] == n;
                    assert(self.allowed(keys@[j], t));
                }
            }
            assert forall|v: FValue| #[trigger] nodes_valued(nf.values@, v) == self.typed_nodes_valued(m, t, v) by {
                assert(nodes_valued(nf.values@, v) =~= self.typed_nodes_valued(m, t, v));
            }
            assert forall|j: int| 0 <= j < rows@.len() implies (#[trigger] rows@[j]).1 == self.typed_nodes_valued(m, t, rows@[j].0@).len() && rows@[j].1 >= 1 by {
                assert(nodes_valued(nf.values@, rows@[j].0@) == self.typed_nodes_valued(m, t, rows@[j].0@));
            }
            assert forall|n: u32| m.contains_key(n) && self.allowed(n, t) implies exists|j: int| 0 <= j < rows@.len() && (#[trigger] rows@[j]).0@ == m[n]@ by {
                assert(nf.values@.contains_key(n));
            }
        }
        Ok(rows)
    }

    /// The frequency list of a node feature on nodes of given types (short name).
    pub fn node_freq_list(&self, feature_name: &str, node_types: Option<&[&str]>) -> (r: Result<Vec<(FeatureValue, usize)>, CfError>)
        ensures
            match r {
                Ok(rows) => self.nf(feature_name@) is Some && self.typed_freq_ok(
                    self.nf(feature_name@)->0.values@,
                    opt_types(node_types),
                    rows@,
                ),
                Err(e) => self.nf(feature_name@) is None && e@ == CfErrorView::MissingFeature(feature_name@),
            },
    {
        self.node_frequency_list(feature_name, node_types)
    }

    /// The frequency list of a node feature on nodes of given types (camel-case name).
    #[allow(non_snake_case)]
    pub fn node_freqList(&self, feature_name: &str, node_types: Option<&[&str]>) -> (r: Result<Vec<(FeatureValue, usize)>, CfError>)
        ensures
            match r {
                Ok(rows) => self.nf(feature_name@) is Some && self.typed_freq_ok(
                    self.nf(feature_name@)->0.values@,
                    opt_types(node_types),
                    rows@,
                ),
                Err(e) => self.nf(feature_name@) is None && e@ == CfErrorView::MissingFeature(feature_name@),
            },
    {
        self.node_frequency_list(feature_name, node_types)
    }
}

impl Corpus {
    /// Edge `e` runs from a node of the types `from` to a node of the types `to` (any
    /// type where a list is absent).
    pub open spec fn edge_allowed(&self, from: Option<Seq<Seq<char>>>, to: Option<Seq<Seq<char>>>) -> spec_fn((u32, u32)) -> bool {
        |e: (u32, u32)| self.allowed(e.0, from) && self.allowed(e.1, to)
    }

    /// The edges of `f` (its sources in the order `ks`) between nodes of the types `from`
    /// and `to`.
    pub open spec fn typed_edges(&self, f: EdgeFeature, ks: Seq<u32>, from: Option<Seq<Seq<char>>>, to: Option<Seq<Seq<char>>>) -> Seq<(u32, u32)> {
        flat_edges(ks, f.values@).filter(self.edge_allowed(from, to))
    }

    /// `r` is the frequency list of `f` over its edges between nodes of the types `from`
    /// and `to`: their number without edge values, else the table of their values.
    pub open spec fn typed_edge_freq_ok(&self, f: EdgeFeature, from: Option<Seq<Seq<char>>>, to: Option<Seq<Seq<char>>>, r: EdgeFrequency) -> bool {
        exists|ks: Seq<u32>|
            #[trigger] key_order(ks, f.values@) && if !meta_has(f.metadata@, "edgeValues"@) {
                r == EdgeFrequency::Count(self.typed_edges(f, ks, from, to).len() as usize)
            } else {
                r matches EdgeFrequency::Values(rows) && edge_freq_rows(f, self.typed_edges(f, ks, from, to), rows@)
            }
    }

    /// The frequency list of edge feature `feature_name` over its edges from nodes of
    /// the types `node_types_from` to nodes of the types `node_types_to`; an error for an
    /// unknown feature.
    pub fn edge_frequency_list(
        &self,
        feature_name: &str,
        node_types_from: Option<&[&str]>,
        node_types_to: Option<&[&str]>,
    ) -> (r: Result<EdgeFrequency, CfError>)
        ensures
            match r {
                Ok(fr) => self.ef(feature_name@) is Some && self.typed_edge_freq_ok(
                    self.ef(feature_name@)->0,
                    opt_types(node_types_from),
                    opt_types(node_types_to),
                    fr,
                ),
                Err(e) => self.ef(feature_name@) is None && e@ == CfErrorView::MissingFeature(feature_name@),
            },
    {
        let f = match self.edge_feature(feature_name) {
            Some(f) => f,
            None => return Err(CfError::missing(feature_name)),
        };
        let ghost from = opt_types(node_types_from);
        let ghost to = opt_types(node_types_to);
        let ghost p = self.edge_allowed(from, to);
        let keys = map_keys(&f.values);
        let all = edges_of(f, &keys);
        let mut edges: Vec<(u32, u32)> = Vec::new();
        let mut i: usize = 0;
        while i < all.len()
            invariant
                i <= all@.len(),
                p == self.edge_allowed(from, to),
                from == opt_types(node_types_from),
                to == opt_types(node_types_to),
                edges@ == all@.take(i as int).filter(p),
            decreases all.len() - i,
        {
            let e = all[i];
            proof {
                assert(all@.take(i + 1) =~= all@.take(i as int).push(e));
                all@.take(i as int).lemma_filter_push(e, p);
            }
            if self.node_type_allowed(e.0, node_types_from) && self.node_type_allowed(e.1, node_types_to) {
                edges.push(e);
            }
            i += 1;
        }
        proof {
            assert(all@.take(all@.len() as int) =~= all@);
            assert(key_order(keys@, f.values@));
        }
        if !f.has_edge_values() {
            let r = EdgeFrequency::Count(edges.len());
            proof {
                assert(self.typed_edges(*f, keys@, from, to) == edges@);
            }
            return Ok(r);
        }
        let rows = edge_value_rows(f, &edges);
        proof {
            assert(self.typed_edges(*f, keys@, from, to) == edges@);
        }
        Ok(EdgeFrequency::Values(rows))
    }

    /// The frequency list of an edge feature between nodes of given types (short name).
    pub fn edge_freq_list(
        &self,
        feature_name: &str,
        node_types_from: Option<&[&str]>,
        node_types_to: Option<&[&str]>,
    ) -> (r: Result<EdgeFrequency, CfError>)
        ensures
            match r {
                Ok(fr) => self.ef(feature_name@) is Some && self.typed_edge_freq_ok(
                    self.ef(feature_name@)->0,
                    opt_types(node_types_from),
                    opt_types(node_types_to),
                    fr,
                ),
                Err(e) => self.ef(feature_name@) is None && e@ == CfErrorView::MissingFeature(feature_name@),
            },
    {
        self.edge_frequency_list(feature_name, node_types_from, node_types_to)
    }

    /// The frequency list of an edge feature between nodes of given types (camel-case
    /// name).
    #[allow(non_snake_case)]
    pub fn edge_freqList(
        &self,
        feature_name: &str,
        node_types_from: Option<&[&str]>,
        node_types_to: Option<&[&str]>,
    ) -> (r: Result<EdgeFrequency, CfError>)
        ensures
            match r {
                Ok(fr) => self.ef(feature_name@) is Some && self.typed_edge_freq_ok(
                    self.ef(feature_name@)->0,
                    opt_types(node_types_from),
                    opt_types(node_types_to),
                    fr,
                ),
                Err(e) => self.ef(feature_name@) is None && e@ == CfErrorView::MissingFeature(feature_name@),
            },
    {
        self.edge_frequency_list(feature_name, node_types_from, node_types_to)
    }
}

} // verus!

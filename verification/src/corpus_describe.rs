//! Describing a corpus: its node types with their sizes, the catalog of its features,
//! and per feature its node types and most frequent values.

use vstd::prelude::*;
use crate::corpus::Corpus;
use crate::corpus_info::{keys_of, str_views};
use crate::corpus_text::opt_string;
use crate::corpus_levels::{node_types_in, source_types_in, target_types_in, LevelView};
use crate::corpus_types::{CorpusDescription, CorpusOverview, TextFormatInfo, FeatureCatalogEntry, FeatureDescription, FeatureKind, FeatureValueSample, NodeTypeOverview};
use crate::edge_tables::{edge_frequency_spec, EdgeFrequency};
use crate::feature::{nodes_valued, NodeFeature};
use crate::freq::{fv_token, row_le};
use crate::sorting::{sorted_unique_strings, strictly_sorted_strs};
use crate::text_formats::fmt_pairs_ok;
use crate::strs::{copy_string, owned, push_str, str_eq, views};
use crate::value::{dup_opt, meta_has, metadata_value_spec, opt_fv, FValue, FeatureValue, Metadata};

verus! {

/// The declared value type of a feature, `str` when it declares none.
pub open spec fn value_type_or_str(m: Seq<(String, Option<String>)>) -> Seq<char> {
    match metadata_value_spec(m, "valueType"@) {
        Some(v) => v,
        None => "str"@,
    }
}

/// The description of a feature, empty when it has none.
pub open spec fn description_or_empty(m: Seq<(String, Option<String>)>) -> Seq<char> {
    match metadata_value_spec(m, "description"@) {
        Some(v) => v,
        None => seq![],
    }
}

/// A catalog row for a feature of kind `kind` called `name` with metadata `m`.
pub open spec fn catalog_row(e: FeatureCatalogEntry, name: Seq<char>, kind: FeatureKind, m: Seq<(String, Option<String>)>) -> bool {
    &&& e.name@ == name
    &&& e.kind == kind
    &&& e.value_type@ == value_type_or_str(m)
    &&& e.description@ == description_or_empty(m)
}

/// Some requested node type is among `types` (every feature applies when none is
/// requested).
pub open spec fn applies(types: Seq<Seq<char>>, requested: Option<Seq<Seq<char>>>) -> bool {
    match requested {
        None => true,
        Some(rq) => shares_type(types, rq),
    }
}

/// Some type of `rq` is among `types`.
pub open spec fn shares_type(types: Seq<Seq<char>>, rq: Seq<Seq<char>>) -> bool {
    exists|t: Seq<char>| #[trigger] rq.contains(t) && types.contains(t)
}

/// The view of an optional list of node types.
pub open spec fn opt_type_list(t: Option<&[&str]>) -> Option<Seq<Seq<char>>> {
    match t {
        Some(v) => Some(str_views(v@)),
        None => None,
    }
}

/// The names of a list of catalog rows.
pub open spec fn row_names(rows: Seq<FeatureCatalogEntry>) -> Seq<Seq<char>> {
    rows.map_values(|e: FeatureCatalogEntry| e.name@)
}

fn or_default(v: Option<&str>, dflt: &str) -> (r: String)
    ensures
        r@ == match v {
            Some(x) => x@,
            None => dflt@,
        },
{
    match v {
        Some(x) => owned(x),
        None => owned(dflt),
    }
}

fn any_requested(types: &Vec<String>, requested: Option<&[&str]>) -> (r: bool)
    ensures
        r == applies(views(types@), opt_type_list(requested)),
{
    let rq = match requested {
        None => return true,
        Some(rq) => rq,
    };
    let mut i: usize = 0;
    while i < rq.len()
        invariant
            i <= rq@.len(),
            requested == Some(rq),
            forall|j: int| 0 <= j < i ==> !views(types@).contains(#[trigger] rq@[j]@),
        decreases rq.len() - i,
    {
        let mut k: usize = 0;
        while k < types.len()
            invariant
                k <= types@.len(),
                i < rq@.len(),
                requested == Some(rq),
                forall|q: int| 0 <= q < k ==> types@[q]@ != rq@[i as int]@,
            decreases types.len() - k,
        {
            if str_eq(types[k].as_str(), rq[i]) {
                proof {
                    assert(views(types@)[k as int] == rq@[i as int]@);
                    assert(str_views(rq@)[i as int] == rq@[i as int]@);
                    assert(str_views(rq@).contains(rq@[i as int]@));
                    assert(views(types@).contains(rq@[i as int]@));
                    assert(opt_type_list(requested) == Some(str_views(rq@)));
                    assert(shares_type(views(types@), str_views(rq@)));
                }
                return true;
            }
            k += 1;
        }
        proof {
            if views(types@).contains(rq@[i as int]@) {
                let q = choose|q: int| 0 <= q < views(types@).len() && views(types@)[q] == rq@[i as int]@;
                assert(types@[q]@ == rq@[i as int]@);
            }
        }
        i += 1;
    }
    proof {
        assert forall|t: Seq<char>| #[trigger] str_views(rq@).contains(t) implies !views(types@).contains(t) by {
            let j = choose|j: int| 0 <= j < str_views(rq@).len() && str_views(rq@)[j] == t;
            assert(rq@[j]@ == t);
        }
    }
    false
}

impl Corpus {
    /// `r` is a catalog: its first `k` rows for node features, the rest for edge features,
    /// each part in ascending name order, with the features that apply to a requested
    /// node type.
    pub open spec fn catalog_ok(
        &self,
        kind: Option<FeatureKind>,
        node_types: Option<Seq<Seq<char>>>,
        r: Seq<FeatureCatalogEntry>,
        k: int,
    ) -> bool {
        let nrows = r.take(k);
        let erows = r.skip(k);
        &&& 0 <= k <= r.len()
        &&& strictly_sorted_strs(row_names(nrows))
        &&& strictly_sorted_strs(row_names(erows))
        &&& (kind is None || kind == Some(FeatureKind::Node)) ==> forall|x: Seq<char>| #[trigger] row_names(nrows).contains(x) <==> (self.node_names().contains(x)
            && applies(node_types_in(self.levels_spec(), self.nf(x)->0.values@), node_types))
        &&& !(kind is None || kind == Some(FeatureKind::Node)) ==> k == 0
        &&& (kind is None || kind == Some(FeatureKind::Edge)) ==> forall|x: Seq<char>| #[trigger] row_names(erows).contains(x) <==> (self.edge_names().contains(x)
            && applies(source_types_in(self.levels_spec(), self.ef(x)->0.values@), node_types))
        &&& !(kind is None || kind == Some(FeatureKind::Edge)) ==> erows.len() == 0
        &&& forall|i: int| 0 <= i < k ==> catalog_row(#[trigger] r[i], r[i].name@, FeatureKind::Node, self.nf(r[i].name@)->0.metadata@)
        &&& forall|i: int| k <= i < r.len() ==> catalog_row(#[trigger] r[i], r[i].name@, FeatureKind::Edge, self.ef(r[i].name@)->0.metadata@)
    }
}

impl Corpus {
    /// The catalog rows of the node features that apply, in ascending name order.
    fn node_catalog(&self, node_types: Option<&[&str]>) -> (rows: Vec<FeatureCatalogEntry>)
        ensures
            strictly_sorted_strs(row_names(rows@)),
            forall|x: Seq<char>| #[trigger] row_names(rows@).contains(x) <==> (self.node_names().contains(x)
                && applies(node_types_in(self.levels_spec(), self.nf(x)->0.values@), opt_type_list(node_types))),
            forall|q: int| 0 <= q < rows@.len() ==> catalog_row(#[trigger] rows@[q], rows@[q].name@, FeatureKind::Node, self.nf(rows@[q].name@)->0.metadata@),
    {
        let mut rows: Vec<FeatureCatalogEntry> = Vec::new();
        let names = self.node_feature_names();
        let mut i: usize = 0;
        proof {
            assert(row_names(rows@) =~= Seq::<Seq<char>>::empty());
        }
        while i < names.len()
            invariant
                i <= names@.len(),
                strictly_sorted_strs(str_views(names@)),
                forall|x: Seq<char>| str_views(names@).contains(x) <==> self.node_names().contains(x),
                forall|x: Seq<char>| #[trigger] row_names(rows@).contains(x) ==> str_views(names@).take(i as int).contains(x),
                strictly_sorted_strs(row_names(rows@)),
                forall|x: Seq<char>| #[trigger] row_names(rows@).contains(x) <==> (str_views(names@).take(i as int).contains(x)
                    && applies(node_types_in(self.levels_spec(), self.nf(x)->0.values@), opt_type_list(node_types))),
                forall|q: int| 0 <= q < rows@.len() ==> catalog_row(#[trigger] rows@[q], rows@[q].name@, FeatureKind::Node, self.nf(rows@[q].name@)->0.metadata@),
            decreases names.len() - i,
        {
            let name = names[i];
            proof {
                assert(str_views(names@)[i as int] == name@);
                assert(str_views(names@).contains(name@));
                assert(self.node_names().contains(name@));
                assert(str_views(names@).take(i + 1) =~= str_views(names@).take(i as int).push(name@));
            }
            let f = match self.node_feature(name) {
                Some(f) => f,
                None => {
                    proof {
                        crate::corpus::lemma_find_key(self.node_features@, crate::corpus::nf_key(), name@);
                        let j = choose|j: int| 0 <= j < self.node_features@.len() && (#[trigger] self.node_features@[j]).name@ == name@;
                        assert(false);
                    }
                    return Vec::new();
                },
            };
            let types = self.node_feature_types(name);
            let ok = any_requested(&types, node_types);
            proof {
                assert(ok == applies(node_types_in(self.levels_spec(), self.nf(name@)->0.values@), opt_type_list(node_types)));
            }
            let ghost r0 = rows@;
            if ok {
                let e = FeatureCatalogEntry {
                    name: owned(name),
                    kind: FeatureKind::Node,
                    value_type: or_default(f.value_type(), "str"),
                    description: or_default(f.description(), ""),
                };
                proof {
                    reveal_strlit("");
                    assert(""@ =~= Seq::<char>::empty());
                }
                rows.push(e);
                proof {
                    assert(row_names(rows@) =~= row_names(r0).push(name@));
                    assert forall|p: int, q: int| 0 <= p < q < row_names(rows@).len() implies crate::strs::str_lt(row_names(rows@)[p], row_names(rows@)[q]) by {
                        if q == r0.len() {
                            assert(row_names(r0).contains(row_names(rows@)[p]));
                            let t = str_views(names@).take(i as int);
                            let j = choose|j: int| 0 <= j < t.len() && t[j] == row_names(rows@)[p];
                            assert(str_views(names@)[j] == row_names(rows@)[p]);
                        } else {
                            assert(row_names(rows@)[p] == row_names(r0)[p]);
                            assert(row_names(rows@)[q] == row_names(r0)[q]);
                        }
                    }
                }
            }
            proof {
                assert forall|x: Seq<char>| #[trigger] row_names(rows@).contains(x) <==> (str_views(names@).take(i + 1).contains(x)
                    && applies(node_types_in(self.levels_spec(), self.nf(x)->0.values@), opt_type_list(node_types))) by {
                    if row_names(rows@).contains(x) && x != name@ {
                        let j = choose|j: int| 0 <= j < row_names(rows@).len() && row_names(rows@)[j] == x;
                        assert(row_names(r0)[j] == x);
                    }
                    if row_names(r0).contains(x) {
                        let j = choose|j: int| 0 <= j < row_names(r0).len() && row_names(r0)[j] == x;
                        assert(row_names(rows@)[j] == x);
                    }
                    if str_views(names@).take(i + 1).contains(x) && x != name@ {
                        let t1 = str_views(names@).take(i + 1);
                        let j = choose|j: int| 0 <= j < t1.len() && t1[j] == x;
                        assert(str_views(names@).take(i as int)[j] == x);
                    }
                    if str_views(names@).take(i as int).contains(x) {
                        let t0 = str_views(names@).take(i as int);
                        let j = choose|j: int| 0 <= j < t0.len() && t0[j] == x;
                        assert(str_views(names@).take(i + 1)[j] == x);
                    }
                    if x == name@ && ok {
                        assert(row_names(rows@)[r0.len() as int] == x);
                        assert(str_views(names@).take(i + 1)[i as int] == x);
                    }
                    if x == name@ && !ok && row_names(rows@).contains(x) {
                        assert(row_names(r0).contains(x));
                        let t0 = str_views(names@).take(i as int);
                        let j = choose|j: int| 0 <= j < t0.len() && t0[j] == x;
                        assert(str_views(names@)[j] == str_views(names@)[i as int]);
                        crate::strs::lemma_str_lt_irrefl(x);
                    }
                }
                assert forall|x: Seq<char>| #[trigger] row_names(rows@).contains(x) implies str_views(names@).take(i + 1).contains(x) by {}
                assert forall|q: int| 0 <= q < rows@.len() implies catalog_row(#[trigger] rows@[q], rows@[q].name@, FeatureKind::Node, self.nf(rows@[q].name@)->0.metadata@) by {
                    if q < r0.len() {
                        assert(rows@[q] == r0[q]);
                    }
                }
            }
            i += 1;
        }
        proof {
            assert(str_views(names@).take(names@.len() as int) =~= str_views(names@));
        }
        rows
    }

    /// The catalog rows of the edge features that apply, in ascending name order.
    fn edge_catalog(&self, node_types: Option<&[&str]>) -> (rows: Vec<FeatureCatalogEntry>)
        ensures
            strictly_sorted_strs(row_names(rows@)),
            forall|x: Seq<char>| #[trigger] row_names(rows@).contains(x) <==> (self.edge_names().contains(x)
                && applies(source_types_in(self.levels_spec(), self.ef(x)->0.values@), opt_type_list(node_types))),
            forall|q: int| 0 <= q < rows@.len() ==> catalog_row(#[trigger] rows@[q], rows@[q].name@, FeatureKind::Edge, self.ef(rows@[q].name@)->0.metadata@),
    {
        let mut rows: Vec<FeatureCatalogEntry> = Vec::new();
        let names = self.edge_feature_names();
        let mut i: usize = 0;
        proof {
            assert(row_names(rows@) =~= Seq::<Seq<char>>::empty());
        }
        while i < names.len()
            invariant
                i <= names@.len(),
                strictly_sorted_strs(str_views(names@)),
                forall|x: Seq<char>| str_views(names@).contains(x) <==> self.edge_names().contains(x),
                forall|x: Seq<char>| #[trigger] row_names(rows@).contains(x) ==> str_views(names@).take(i as int).contains(x),
                strictly_sorted_strs(row_names(rows@)),
                forall|x: Seq<char>| #[trigger] row_names(rows@).contains(x) <==> (str_views(names@).take(i as int).contains(x)
                    && applies(source_types_in(self.levels_spec(), self.ef(x)->0.values@), opt_type_list(node_types))),
                forall|q: int| 0 <= q < rows@.len() ==> catalog_row(#[trigger] rows@[q], rows@[q].name@, FeatureKind::Edge, self.ef(rows@[q].name@)->0.metadata@),
            decreases names.len() - i,
        {
            let name = names[i];
            proof {
                assert(str_views(names@)[i as int] == name@);
                assert(str_views(names@).contains(name@));
                assert(self.edge_names().contains(name@));
                assert(str_views(names@).take(i + 1) =~= str_views(names@).take(i as int).push(name@));
            }
            let f = match self.edge_feature(name) {
                Some(f) => f,
                None => {
                    proof {
                        crate::corpus::lemma_find_key(self.edge_features@, crate::corpus::ef_key(), name@);
                        let j = choose|j: int| 0 <= j < self.edge_features@.len() && (#[trigger] self.edge_features@[j]).name@ == name@;
                        assert(false);
                    }
                    return Vec::new();
                },
            };
            let types = self.edge_feature_source_types(name);
            let ok = any_requested(&types, node_types);
            proof {
                assert(ok == applies(source_types_in(self.levels_spec(), self.ef(name@)->0.values@), opt_type_list(node_types)));
            }
            let ghost r0 = rows@;
            if ok {
                let e = FeatureCatalogEntry {
                    name: owned(name),
                    kind: FeatureKind::Edge,
                    value_type: or_default(f.value_type(), "str"),
                    description: or_default(f.description(), ""),
                };
                proof {
                    reveal_strlit("");
                    assert(""@ =~= Seq::<char>::empty());
                }
                rows.push(e);
                proof {
                    assert(row_names(rows@) =~= row_names(r0).push(name@));
                    assert forall|p: int, q: int| 0 <= p < q < row_names(rows@).len() implies crate::strs::str_lt(row_names(rows@)[p], row_names(rows@)[q]) by {
                        if q == r0.len() {
                            assert(row_names(r0).contains(row_names(rows@)[p]));
                            let t = str_views(names@).take(i as int);
                            let j = choose|j: int| 0 <= j < t.len() && t[j] == row_names(rows@)[p];
                            assert(str_views(names@)[j] == row_names(rows@)[p]);
                        } else {
                            assert(row_names(rows@)[p] == row_names(r0)[p]);
                            assert(row_names(rows@)[q] == row_names(r0)[q]);
                        }
                    }
                }
            }
            proof {
                assert forall|x: Seq<char>| #[trigger] row_names(rows@).contains(x) <==> (str_views(names@).take(i + 1).contains(x)
                    && applies(source_types_in(self.levels_spec(), self.ef(x)->0.values@), opt_type_list(node_types))) by {
                    if row_names(rows@).contains(x) && x != name@ {
                        let j = choose|j: int| 0 <= j < row_names(rows@).len() && row_names(rows@)[j] == x;
                        assert(row_names(r0)[j] == x);
                    }
                    if row_names(r0).contains(x) {
                        let j = choose|j: int| 0 <= j < row_names(r0).len() && row_names(r0)[j] == x;
                        assert(row_names(rows@)[j] == x);
                    }
                    if str_views(names@).take(i + 1).contains(x) && x != name@ {
                        let t1 = str_views(names@).take(i + 1);
                        let j = choose|j: int| 0 <= j < t1.len() && t1[j] == x;
                        assert(str_views(names@).take(i as int)[j] == x);
                    }
                    if str_views(names@).take(i as int).contains(x) {
                        let t0 = str_views(names@).take(i as int);
                        let j = choose|j: int| 0 <= j < t0.len() && t0[j] == x;
                        assert(str_views(names@).take(i + 1)[j] == x);
                    }
                    if x == name@ && ok {
                        assert(row_names(rows@)[r0.len() as int] == x);
                        assert(str_views(names@).take(i + 1)[i as int] == x);
                    }
                    if x == name@ && !ok && row_names(rows@).contains(x) {
                        assert(row_names(r0).contains(x));
                        let t0 = str_views(names@).take(i as int);
                        let j = choose|j: int| 0 <= j < t0.len() && t0[j] == x;
                        assert(str_views(names@)[j] == str_views(names@)[i as int]);
                        crate::strs::lemma_str_lt_irrefl(x);
                    }
                }
                assert forall|x: Seq<char>| #[trigger] row_names(rows@).contains(x) implies str_views(names@).take(i + 1).contains(x) by {}
                assert forall|q: int| 0 <= q < rows@.len() implies catalog_row(#[trigger] rows@[q], rows@[q].name@, FeatureKind::Edge, self.ef(rows@[q].name@)->0.metadata@) by {
                    if q < r0.len() {
                        assert(rows@[q] == r0[q]);
                    }
                }
            }
            i += 1;
        }
        proof {
            assert(str_views(names@).take(names@.len() as int) =~= str_views(names@));
        }
        rows
    }

    /// The catalog of features: a row per node feature (when node features are asked
    /// for), then a row per edge feature (when edge features are asked for), each part
    /// in ascending name order; with requested node types, only the features that apply
    /// to one of them (by the node types of their values, resp. of their edges' sources).
    pub fn feature_catalog(&self, kind: Option<FeatureKind>, node_types: Option<&[&str]>) -> (r: Vec<FeatureCatalogEntry>)
        ensures
            exists|k: int| #[trigger] self.catalog_ok(kind, opt_type_list(node_types), r@, k),
    {
        let want_nodes = match kind {
            None => true,
            Some(FeatureKind::Node) => true,
            Some(FeatureKind::Edge) => false,
        };
        let want_edges = match kind {
            None => true,
            Some(FeatureKind::Edge) => true,
            Some(FeatureKind::Node) => false,
        };
        let mut rows: Vec<FeatureCatalogEntry> = if want_nodes {
            self.node_catalog(node_types)
        } else {
            Vec::new()
        };
        let k = rows.len();
        let ghost nrows = rows@;
        let mut erows: Vec<FeatureCatalogEntry> = if want_edges {
            self.edge_catalog(node_types)
        } else {
            Vec::new()
        };
        let ghost ev = erows@;
        rows.append(&mut erows);
        proof {
            assert(rows@.take(k as int) =~= nrows);
            assert(rows@.skip(k as int) =~= ev);
            assert(row_names(Seq::<FeatureCatalogEntry>::empty()) =~= Seq::<Seq<char>>::empty());
            assert forall|i: int| k <= i < rows@.len() implies catalog_row(#[trigger] rows@[i], rows@[i].name@, FeatureKind::Edge, self.ef(rows@[i].name@)->0.metadata@) by {
                assert(rows@[i] == ev[i - k]);
            }
            assert(self.catalog_ok(kind, opt_type_list(node_types), rows@, k as int));
        }
        rows
    }

    /// The size of a level: its last node minus its first, plus one (at most the
    /// largest `usize`).
    pub open spec fn level_count(l: LevelView) -> nat {
        let c: nat = if l.2 >= l.1 {
            (l.2 - l.1 + 1) as nat
        } else {
            1
        };
        if c <= usize::MAX {
            c
        } else {
            usize::MAX as nat
        }
    }

    /// An overview: the node types (highest level first) with their sizes and whether
    /// they are the slot type, and the section levels.
    pub fn overview(&self, name: &str) -> (r: CorpusOverview)
        ensures
            r.name@ == name@,
            views(r.section_types@) == self.otext_list("sectionTypes"@),
            r.node_types@.len() == self.levels_spec().len(),
            forall|i: int| 0 <= i < r.node_types@.len() ==> {
                let l = self.levels_spec()[i];
                &&& (#[trigger] r.node_types@[i]).node_type@ == l.0
                &&& r.node_types@[i].count == Self::level_count(l)
                &&& r.node_types@[i].is_slot_type == (l.0 == self.slot_type@)
            },
    {
        let ls = self.level_bounds();
        let mut out: Vec<NodeTypeOverview> = Vec::new();
        let mut i: usize = 0;
        while i < ls.len()
            invariant
                i <= ls@.len(),
                ls@.len() == self.levels_spec().len(),
                forall|j: int| 0 <= j < ls@.len() ==> ((#[trigger] ls@[j]).0@, ls@[j].1, ls@[j].2) == (
                    self.levels_spec()[j].0,
                    self.levels_spec()[j].1,
                    self.levels_spec()[j].2,
                ),
                out@.len() == i,
                forall|j: int| 0 <= j < i ==> {
                    let l = self.levels_spec()[j];
                    &&& (#[trigger] out@[j]).node_type@ == l.0
                    &&& out@[j].count == Self::level_count(l)
                    &&& out@[j].is_slot_type == (l.0 == self.slot_type@)
                },
            decreases ls.len() - i,
        {
            let lo = ls[i].1;
            let hi = ls[i].2;
            let span: u32 = if hi >= lo { hi - lo } else { 0 };
            let count: usize = match (span as usize).checked_add(1) {
                Some(c) => c,
                None => usize::MAX,
            };
            let is_slot = str_eq(ls[i].0.as_str(), self.slot_type.as_str());
            let ghost l = self.levels_spec()[i as int];
            proof {
                assert(ls@[i as int].0@ == l.0 && lo == l.1 && hi == l.2);
            }
            out.push(NodeTypeOverview { node_type: crate::strs::copy_string(&ls[i].0), count, is_slot_type: is_slot });
            i += 1;
        }
        CorpusOverview { name: owned(name), node_types: out, section_types: self.section_types() }
    }
}

/// `rows` is a frequency list of node feature `f`: each distinct value once with its
/// number of nodes, most frequent first, ties by sort token.
pub open spec fn node_freq_ok(f: NodeFeature, rows: Seq<(FeatureValue, usize)>) -> bool {
    &&& forall|j: int| 0 <= j < rows.len() ==> (#[trigger] rows[j]).1 == nodes_valued(f.values@, rows[j].0@).len() && rows[j].1 >= 1
    &&& forall|n: u32| f.values@.contains_key(n) ==> exists|j: int| 0 <= j < rows.len() && (#[trigger] rows[j]).0@ == f.values@[n]@
    &&& forall|a: int, b: int| 0 <= a < b < rows.len() ==> (#[trigger] rows[a]).0@ != (#[trigger] rows[b]).0@
    &&& forall|a: int, b: int| 0 <= a < b < rows.len() ==> row_le(#[trigger] rows[a].1 as int, fv_token(rows[a].0@), #[trigger] rows[b].1 as int, fv_token(rows[b].0@))
}

/// The value and count of each sample.
pub open spec fn sample_views(s: Seq<FeatureValueSample>) -> Seq<(Option<FValue>, usize)> {
    s.map_values(|x: FeatureValueSample| (opt_fv(x.value), x.count))
}

/// The first `limit` rows of a node frequency list, as samples.
pub open spec fn node_samples(rows: Seq<(FeatureValue, usize)>, limit: usize) -> Seq<(Option<FValue>, usize)> {
    rows.take(if limit < rows.len() { limit as int } else { rows.len() as int }).map_values(
        |p: (FeatureValue, usize)| (Some(p.0@), p.1),
    )
}

/// The first `limit` rows of an edge frequency list, as samples.
pub open spec fn edge_samples(rows: Seq<(Option<FeatureValue>, usize)>, limit: usize) -> Seq<(Option<FValue>, usize)> {
    rows.take(if limit < rows.len() { limit as int } else { rows.len() as int }).map_values(
        |p: (Option<FeatureValue>, usize)| (opt_fv(p.0), p.1),
    )
}

/// The message for a feature that the corpus does not have.
pub open spec fn not_found_message(name: Seq<char>) -> Seq<char> {
    "Feature '"@ + name + "' not found"@
}

impl Corpus {
    /// `d` describes feature `name` with at most `limit` sample values: a node feature
    /// first, else an edge feature, else the error that it was not found.
    pub open spec fn describe_ok(&self, name: Seq<char>, limit: usize, d: FeatureDescription) -> bool {
        match self.nf(name) {
            Some(f) => {
                &&& d.name@ == f.name@
                &&& d.kind == Some(FeatureKind::Node)
                &&& d.value_type@ == value_type_or_str(f.metadata@)
                &&& d.description@ == description_or_empty(f.metadata@)
                &&& views(d.node_types@) == node_types_in(self.levels_spec(), f.values@)
                &&& d.has_values is None
                &&& d.error is None
                &&& exists|rows: Seq<(FeatureValue, usize)>|
                    node_freq_ok(f, rows) && d.unique_values == rows.len()
                        && sample_views(d.sample_values@) == node_samples(rows, limit)
            },
            None => match self.ef(name) {
                Some(f) => {
                    &&& d.name@ == f.name@
                    &&& d.kind == Some(FeatureKind::Edge)
                    &&& d.value_type@ == value_type_or_str(f.metadata@)
                    &&& d.description@ == description_or_empty(f.metadata@)
                    &&& views(d.node_types@) == source_types_in(self.levels_spec(), f.values@)
                    &&& d.has_values == Some(meta_has(f.metadata@, "edgeValues"@))
                    &&& d.error is None
                    &&& exists|fr: EdgeFrequency|
                        edge_frequency_spec(f, fr) && match fr {
                            EdgeFrequency::Count(_) => d.unique_values == 0 && d.sample_values@.len() == 0,
                            EdgeFrequency::Values(rows) => d.unique_values == rows@.len()
                                && sample_views(d.sample_values@) == edge_samples(rows@, limit),
                        }
                },
                None => {
                    &&& d.name@ == name
                    &&& d.kind is None
                    &&& d.value_type@.len() == 0
                    &&& d.description@.len() == 0
                    &&& d.node_types@.len() == 0
                    &&& d.unique_values == 0
                    &&& d.sample_values@.len() == 0
                    &&& d.has_values is None
                    &&& opt_string(d.error) == Some(not_found_message(name))
                },
            },
        }
    }

    /// A description of feature `feature_name`: its kind, value type, description, node
    /// types and its `sample_limit` most frequent values, or the error that no feature
    /// has that name.
    pub fn describe_feature(&self, feature_name: &str, sample_limit: usize) -> (r: FeatureDescription)
        ensures
            self.describe_ok(feature_name@, sample_limit, r),
    {
        match self.node_feature(feature_name) {
            Some(f) => {
                let rows = f.frequency_list();
                let n = if sample_limit < rows.len() { sample_limit } else { rows.len() };
                let mut samples: Vec<FeatureValueSample> = Vec::new();
                let mut i: usize = 0;
                while i < n
                    invariant
                        i <= n <= rows@.len(),
                        sample_views(samples@) == rows@.take(i as int).map_values(
                            |p: (FeatureValue, usize)| (Some(p.0@), p.1),
                        ),
                    decreases n - i,
                {
                    let ghost s0 = samples@;
                    samples.push(FeatureValueSample { value: Some(rows[i].0.duplicate()), count: rows[i].1 });
                    proof {
                        assert(rows@.take(i + 1) == rows@.take(i as int).push(rows@[i as int]));
                        assert(sample_views(samples@) =~= sample_views(s0).push((Some(rows@[i as int].0@), rows@[i as int].1)));
                    }
                    i += 1;
                }
                let unique = rows.len();
                let node_types = self.node_feature_types(feature_name);
                proof {
                    assert(node_freq_ok(*f, rows@));
                }
                FeatureDescription {
                    name: copy_string(&f.name),
                    kind: Some(FeatureKind::Node),
                    value_type: match f.value_type() {
                        Some(v) => owned(v),
                        None => owned("str"),
                    },
                    description: match f.description() {
                        Some(v) => owned(v),
                        None => String::new(),
                    },
                    node_types,
                    unique_values: unique,
                    sample_values: samples,
                    has_values: None,
                    error: None,
                }
            },
            None => match self.edge_feature(feature_name) {
                Some(f) => {
                    let has_values = f.has_edge_values();
                    let fr = f.frequency_list();
                    let (unique, samples) = match &fr {
                        EdgeFrequency::Count(_) => (0, Vec::new()),
                        EdgeFrequency::Values(rows) => {
                            let n = if sample_limit < rows.len() { sample_limit } else { rows.len() };
                            let mut samples: Vec<FeatureValueSample> = Vec::new();
                            let mut i: usize = 0;
                            while i < n
                                invariant
                                    i <= n <= rows@.len(),
                                    sample_views(samples@) == rows@.take(i as int).map_values(
                                        |p: (Option<FeatureValue>, usize)| (opt_fv(p.0), p.1),
                                    ),
                                decreases n - i,
                            {
                                let ghost s0 = samples@;
                                samples.push(FeatureValueSample { value: dup_opt(&rows[i].0), count: rows[i].1 });
                                proof {
                                    assert(rows@.take(i + 1) == rows@.take(i as int).push(rows@[i as int]));
                                    assert(sample_views(samples@) =~= sample_views(s0).push((opt_fv(rows@[i as int].0), rows@[i as int].1)));
                                }
                                i += 1;
                            }
                            (rows.len(), samples)
                        },
                    };
                    let node_types = self.edge_feature_source_types(feature_name);
                    FeatureDescription {
                        name: copy_string(&f.name),
                        kind: Some(FeatureKind::Edge),
                        value_type: match f.value_type() {
                            Some(v) => owned(v),
                            None => owned("str"),
                        },
                        description: match f.description() {
                            Some(v) => owned(v),
                            None => String::new(),
                        },
                        node_types,
                        unique_values: unique,
                        sample_values: samples,
                        has_values: Some(has_values),
                        error: None,
                    }
                },
                None => {
                    let mut e = owned("Feature '");
                    push_str(&mut e, feature_name);
                    push_str(&mut e, "' not found");
                    FeatureDescription {
                        name: owned(feature_name),
                        kind: None,
                        value_type: String::new(),
                        description: String::new(),
                        node_types: Vec::new(),
                        unique_values: 0,
                        sample_values: Vec::new(),
                        has_values: None,
                        error: Some(e),
                    }
                },
            },
        }
    }
}

impl Corpus {
    /// The node types of node feature `name` (none for an unknown name).
    pub open spec fn node_types_of(&self, name: Seq<char>) -> Seq<Seq<char>> {
        match self.nf(name) {
            Some(f) => node_types_in(self.levels_spec(), f.values@),
            None => seq![],
        }
    }

    /// The node types at which edges of edge feature `name` start.
    pub open spec fn source_types_of(&self, name: Seq<char>) -> Seq<Seq<char>> {
        match self.ef(name) {
            Some(f) => source_types_in(self.levels_spec(), f.values@),
            None => seq![],
        }
    }

    /// The node types at which edges of edge feature `name` end.
    pub open spec fn target_types_of(&self, name: Seq<char>) -> Seq<Seq<char>> {
        match self.ef(name) {
            Some(f) => target_types_in(self.levels_spec(), f.values@),
            None => seq![],
        }
    }

    /// Every node feature with its node types, ascending by name.
    pub fn all_node_feature_types(&self) -> (r: Vec<(String, Vec<String>)>)
        ensures
            strictly_sorted_strs(keys_of(r@)),
            forall|k: Seq<char>| keys_of(r@).contains(k) <==> self.node_names().contains(k),
            forall|i: int| 0 <= i < r@.len() ==> views((#[trigger] r@[i]).1@) == self.node_types_of(r@[i].0@),
    {
        let names = self.node_name_list();
        let mut r: Vec<(String, Vec<String>)> = Vec::new();
        let mut i: usize = 0;
        while i < names.len()
            invariant
                i <= names@.len(),
                keys_of(r@) == views(names@).take(i as int),
                forall|a: int| 0 <= a < r@.len() ==> views((#[trigger] r@[a]).1@) == self.node_types_of(r@[a].0@),
            decreases names.len() - i,
        {
            let types = self.node_feature_types(names[i].as_str());
            let ghost r0 = r@;
            r.push((copy_string(&names[i]), types));
            proof {
                assert(keys_of(r@) =~= keys_of(r0).push(names@[i as int]@));
                assert(views(names@).take(i + 1) =~= views(names@).take(i as int).push(names@[i as int]@));
                assert forall|a: int| 0 <= a < r@.len() implies views((#[trigger] r@[a]).1@) == self.node_types_of(r@[a].0@) by {
                    if a < r0.len() {
                        assert(r@[a] == r0[a]);
                    }
                }
            }
            i += 1;
        }
        proof {
            assert(views(names@).take(names@.len() as int) =~= views(names@));
        }
        r
    }

    /// Every edge feature with the node types at which its edges start, ascending by name.
    pub fn all_edge_feature_source_types(&self) -> (r: Vec<(String, Vec<String>)>)
        ensures
            strictly_sorted_strs(keys_of(r@)),
            forall|k: Seq<char>| keys_of(r@).contains(k) <==> self.edge_names().contains(k),
            forall|i: int| 0 <= i < r@.len() ==> views((#[trigger] r@[i]).1@) == self.source_types_of(r@[i].0@),
    {
        let names = self.edge_name_list();
        let mut r: Vec<(String, Vec<String>)> = Vec::new();
        let mut i: usize = 0;
        while i < names.len()
            invariant
                i <= names@.len(),
                keys_of(r@) == views(names@).take(i as int),
                forall|a: int| 0 <= a < r@.len() ==> views((#[trigger] r@[a]).1@) == self.source_types_of(r@[a].0@),
            decreases names.len() - i,
        {
            let types = self.edge_feature_source_types(names[i].as_str());
            let ghost r0 = r@;
            r.push((copy_string(&names[i]), types));
            proof {
                assert(keys_of(r@) =~= keys_of(r0).push(names@[i as int]@));
                assert(views(names@).take(i + 1) =~= views(names@).take(i as int).push(names@[i as int]@));
                assert forall|a: int| 0 <= a < r@.len() implies views((#[trigger] r@[a]).1@) == self.source_types_of(r@[a].0@) by {
                    if a < r0.len() {
                        assert(r@[a] == r0[a]);
                    }
                }
            }
            i += 1;
        }
        proof {
            assert(views(names@).take(names@.len() as int) =~= views(names@));
        }
        r
    }

    /// Every edge feature with the node types at which its edges end, ascending by name.
    pub fn all_edge_feature_target_types(&self) -> (r: Vec<(String, Vec<String>)>)
        ensures
            strictly_sorted_strs(keys_of(r@)),
            forall|k: Seq<char>| keys_of(r@).contains(k) <==> self.edge_names().contains(k),
            forall|i: int| 0 <= i < r@.len() ==> views((#[trigger] r@[i]).1@) == self.target_types_of(r@[i].0@),
    {
        let names = self.edge_name_list();
        let mut r: Vec<(String, Vec<String>)> = Vec::new();
        let mut i: usize = 0;
        while i < names.len()
            invariant
                i <= names@.len(),
                keys_of(r@) == views(names@).take(i as int),
                forall|a: int| 0 <= a < r@.len() ==> views((#[trigger] r@[a]).1@) == self.target_types_of(r@[a].0@),
            decreases names.len() - i,
        {
            let types = self.edge_feature_target_types(names[i].as_str());
            let ghost r0 = r@;
            r.push((copy_string(&names[i]), types));
            proof {
                assert(keys_of(r@) =~= keys_of(r0).push(names@[i as int]@));
                assert(views(names@).take(i + 1) =~= views(names@).take(i as int).push(names@[i as int]@));
                assert forall|a: int| 0 <= a < r@.len() implies views((#[trigger] r@[a]).1@) == self.target_types_of(r@[a].0@) by {
                    if a < r0.len() {
                        assert(r@[a] == r0[a]);
                    }
                }
            }
            i += 1;
        }
        proof {
            assert(views(names@).take(names@.len() as int) =~= views(names@));
        }
        r
    }

    /// Descriptions of the features `feature_names`, each name once, ascending.
    pub fn describe_features(&self, feature_names: &[&str], sample_limit: usize) -> (r: Vec<(String, FeatureDescription)>)
        ensures
            strictly_sorted_strs(keys_of(r@)),
            forall|k: Seq<char>| keys_of(r@).contains(k) <==> str_views(feature_names@).contains(k),
            forall|i: int| 0 <= i < r@.len() ==> self.describe_ok((#[trigger] r@[i]).0@, sample_limit, r@[i].1),
    {
        let mut all: Vec<String> = Vec::new();
        let mut j: usize = 0;
        while j < feature_names.len()
            invariant
                j <= feature_names@.len(),
                views(all@) == str_views(feature_names@).take(j as int),
            decreases feature_names.len() - j,
        {
            let ghost a0 = all@;
            all.push(owned(feature_names[j]));
            proof {
                assert(views(all@) =~= views(a0).push(feature_names@[j as int]@));
                assert(str_views(feature_names@).take(j + 1) =~= str_views(feature_names@).take(j as int).push(feature_names@[j as int]@));
            }
            j += 1;
        }
        proof {
            assert(str_views(feature_names@).take(feature_names@.len() as int) =~= str_views(feature_names@));
        }
        let names = sorted_unique_strings(all);
        let mut r: Vec<(String, FeatureDescription)> = Vec::new();
        let mut i: usize = 0;
        while i < names.len()
            invariant
                i <= names@.len(),
                keys_of(r@) == views(names@).take(i as int),
                forall|a: int| 0 <= a < r@.len() ==> self.describe_ok((#[trigger] r@[a]).0@, sample_limit, r@[a].1),
            decreases names.len() - i,
        {
            let d = self.describe_feature(names[i].as_str(), sample_limit);
            let ghost r0 = r@;
            r.push((copy_string(&names[i]), d));
            proof {
                assert(keys_of(r@) =~= keys_of(r0).push(names@[i as int]@));
                assert(views(names@).take(i + 1) =~= views(names@).take(i as int).push(names@[i as int]@));
                assert forall|a: int| 0 <= a < r@.len() implies self.describe_ok((#[trigger] r@[a]).0@, sample_limit, r@[a].1) by {
                    if a < r0.len() {
                        assert(r@[a] == r0[a]);
                    }
                }
            }
            i += 1;
        }
        proof {
            assert(views(names@).take(names@.len() as int) =~= views(names@));
        }
        r
    }
}

impl Corpus {
    /// `nt` lists the node types (highest level first) with their sizes and whether they
    /// are the slot type.
    pub open spec fn node_type_rows_ok(&self, nt: Seq<NodeTypeOverview>) -> bool {
        &&& nt.len() == self.levels_spec().len()
        &&& forall|i: int| 0 <= i < nt.len() ==> {
            let l = self.levels_spec()[i];
            &&& (#[trigger] nt[i]).node_type@ == l.0
            &&& nt[i].count == Self::level_count(l)
            &&& nt[i].is_slot_type == (l.0 == self.slot_type@)
        }
    }

    /// A description of the corpus under `name`: its node types, section levels, text
    /// formats and the catalogs of its node and edge features.
    pub fn describe_corpus(&self, name: &str) -> (r: CorpusDescription)
        ensures
            r.name@ == name@,
            self.node_type_rows_ok(r.node_types@),
            views(r.section_types@) == self.otext_list("sectionTypes"@),
            exists|ps: Seq<(Seq<char>, Seq<char>, Seq<char>, Seq<char>, Seq<char>)>, infos: Seq<Option<TextFormatInfo>>|
                #[trigger] self.representations_ok(ps, infos, r.text_representations),
            exists|k: int| #[trigger] self.catalog_ok(Some(FeatureKind::Node), None, r.node_features@, k),
            exists|k: int| #[trigger] self.catalog_ok(Some(FeatureKind::Edge), None, r.edge_features@, k),
    {
        let ov = self.overview("");
        let text_representations = self.text_representations();
        let node_features = self.feature_catalog(Some(FeatureKind::Node), None);
        let edge_features = self.feature_catalog(Some(FeatureKind::Edge), None);
        let r = CorpusDescription {
            name: owned(name),
            node_types: ov.node_types,
            section_types: self.section_types(),
            text_representations,
            node_features,
            edge_features,
        };
        proof {
            let (ps, infos) = choose|ps: Seq<(Seq<char>, Seq<char>, Seq<char>, Seq<char>, Seq<char>)>, infos: Seq<Option<TextFormatInfo>>|
                #[trigger] self.representations_ok(ps, infos, text_representations);
            assert(self.representations_ok(ps, infos, r.text_representations));
            assert(opt_type_list(None) == None::<Seq<Seq<char>>>);
            let kn = choose|k: int| #[trigger] self.catalog_ok(Some(FeatureKind::Node), opt_type_list(None), node_features@, k);
            assert(self.catalog_ok(Some(FeatureKind::Node), None, r.node_features@, kn));
            let ke = choose|k: int| #[trigger] self.catalog_ok(Some(FeatureKind::Edge), opt_type_list(None), edge_features@, k);
            assert(self.catalog_ok(Some(FeatureKind::Edge), None, r.edge_features@, ke));
        }
        r
    }
}

} // verus!

//! Listings of a corpus: feature names, computed data names, type ranks and node lists.

use vstd::prelude::*;
use crate::corpus::{ef_key, find_edge_feature, find_key, find_node_feature, lemma_find_key, nf_key, Corpus};
use crate::feature::map_keys;
use crate::sorting::{sort_dedup, sorted_unique_strings, strictly_sorted_strs, strictly_sorted_u32};
use crate::strs::{copy_string, owned, string_eq, views};

verus! {

broadcast use {vstd::std_specs::hash::group_hash_axioms, vstd::seq_lib::group_to_multiset_ensures};

pub open spec fn keys_of<X>(s: Seq<(String, X)>) -> Seq<Seq<char>> {
    s.map_values(|p: (String, X)| p.0@)
}

pub open spec fn str_views(s: Seq<&str>) -> Seq<Seq<char>> {
    s.map_values(|x: &str| x@)
}

impl Corpus {
    /// The names of the node features.
    pub open spec fn node_names(&self) -> Set<Seq<char>> {
        Set::new(|k: Seq<char>| exists|i: int| 0 <= i < self.node_features@.len() && (#[trigger] self.node_features@[i]).name@ == k)
    }

    /// The names of the edge features.
    pub open spec fn edge_names(&self) -> Set<Seq<char>> {
        Set::new(|k: Seq<char>| exists|i: int| 0 <= i < self.edge_features@.len() && (#[trigger] self.edge_features@[i]).name@ == k)
    }

    /// The names of the configuration features.
    pub open spec fn config_names(&self) -> Set<Seq<char>> {
        Set::new(|k: Seq<char>| exists|i: int| 0 <= i < self.config_features@.len() && (#[trigger] self.config_features@[i]).0@ == k)
    }

    pub(crate) fn node_name_list(&self) -> (r: Vec<String>)
        ensures
            strictly_sorted_strs(views(r@)),
            forall|k: Seq<char>| views(r@).contains(k) <==> self.node_names().contains(k),
    {
        let mut v: Vec<String> = Vec::new();
        let mut i: usize = 0;
        while i < self.node_features.len()
            invariant
                0 <= i <= self.node_features.len(),
                v@.len() == i,
                forall|j: int| 0 <= j < i ==> (#[trigger] v@[j])@ == self.node_features@[j].name@,
            decreases self.node_features.len() - i,
        {
            v.push(copy_string(&self.node_features[i].name));
            i += 1;
        }
        let r = sorted_unique_strings(v);
        proof {
            assert forall|k: Seq<char>| views(v@).contains(k) <==> self.node_names().contains(k) by {
                if views(v@).contains(k) {
                    let j = choose|j: int| 0 <= j < views(v@).len() && views(v@)[j] == k;
                    assert(self.node_features@[j].name@ == k);
                }
                if self.node_names().contains(k) {
                    let j = choose|j: int| 0 <= j < self.node_features@.len() && (#[trigger] self.node_features@[j]).name@ == k;
                    assert(views(v@)[j] == k);
                }
            }
        }
        r
    }

    pub(crate) fn edge_name_list(&self) -> (r: Vec<String>)
        ensures
            strictly_sorted_strs(views(r@)),
            forall|k: Seq<char>| views(r@).contains(k) <==> self.edge_names().contains(k),
    {
        let mut v: Vec<String> = Vec::new();
        let mut i: usize = 0;
        while i < self.edge_features.len()
            invariant
                0 <= i <= self.edge_features.len(),
                v@.len() == i,
                forall|j: int| 0 <= j < i ==> (#[trigger] v@[j])@ == self.edge_features@[j].name@,
            decreases self.edge_features.len() - i,
        {
            v.push(copy_string(&self.edge_features[i].name));
            i += 1;
        }
        let r = sorted_unique_strings(v);
        proof {
            assert forall|k: Seq<char>| views(v@).contains(k) <==> self.edge_names().contains(k) by {
                if views(v@).contains(k) {
                    let j = choose|j: int| 0 <= j < views(v@).len() && views(v@)[j] == k;
                    assert(self.edge_features@[j].name@ == k);
                }
                if self.edge_names().contains(k) {
                    let j = choose|j: int| 0 <= j < self.edge_features@.len() && (#[trigger] self.edge_features@[j]).name@ == k;
                    assert(views(v@)[j] == k);
                }
            }
        }
        r
    }

    pub(crate) fn config_name_list(&self) -> (r: Vec<String>)
        ensures
            strictly_sorted_strs(views(r@)),
            forall|k: Seq<char>| views(r@).contains(k) <==> self.config_names().contains(k),
    {
        let mut v: Vec<String> = Vec::new();
        let mut i: usize = 0;
        while i < self.config_features.len()
            invariant
                0 <= i <= self.config_features.len(),
                v@.len() == i,
                forall|j: int| 0 <= j < i ==> (#[trigger] v@[j])@ == self.config_features@[j].0@,
            decreases self.config_features.len() - i,
        {
            v.push(copy_string(&self.config_features[i].0));
            i += 1;
        }
        let r = sorted_unique_strings(v);
        proof {
            assert forall|k: Seq<char>| views(v@).contains(k) <==> self.config_names().contains(k) by {
                if views(v@).contains(k) {
                    let j = choose|j: int| 0 <= j < views(v@).len() && views(v@)[j] == k;
                    assert(self.config_features@[j].0@ == k);
                }
                if self.config_names().contains(k) {
                    let j = choose|j: int| 0 <= j < self.config_features@.len() && (#[trigger] self.config_features@[j]).0@ == k;
                    assert(views(v@)[j] == k);
                }
            }
        }
        r
    }

    /// The names of the node features, ascending.
    pub fn node_feature_names(&self) -> (r: Vec<&str>)
        ensures
            strictly_sorted_strs(str_views(r@)),
            forall|k: Seq<char>| str_views(r@).contains(k) <==> self.node_names().contains(k),
    {
        let names = self.node_name_list();
        let mut r: Vec<&str> = Vec::new();
        let mut i: usize = 0;
        while i < names.len()
            invariant
                0 <= i <= names.len(),
                forall|k: Seq<char>| views(names@).contains(k) <==> self.node_names().contains(k),
                r@.len() == i,
                forall|j: int| 0 <= j < i ==> (#[trigger] r@[j])@ == names@[j]@,
            decreases names.len() - i,
        {
            proof {
                assert(views(names@)[i as int] == names@[i as int]@);
                assert(self.node_names().contains(names@[i as int]@));
                let q = choose|q: int| 0 <= q < self.node_features@.len() && (#[trigger] self.node_features@[q]).name@ == names@[i as int]@;
                lemma_find_key(self.node_features@, nf_key(), names@[i as int]@);
                assert(nf_key()(self.node_features@[q]) == names@[i as int]@);
            }
            match find_node_feature(&self.node_features, names[i].as_str()) {
                Some(q) => {
                    proof {
                        lemma_find_key(self.node_features@, nf_key(), names@[i as int]@);
                    }
                    r.push(self.node_features[q].name.as_str());
                },
                None => {
                    proof {
                        assert(false);
                    }
                },
            }
            i += 1;
        }
        proof {
            assert(str_views(r@) =~= views(names@));
        }
        r
    }

    /// The names of the edge features, ascending.
    pub fn edge_feature_names(&self) -> (r: Vec<&str>)
        ensures
            strictly_sorted_strs(str_views(r@)),
            forall|k: Seq<char>| str_views(r@).contains(k) <==> self.edge_names().contains(k),
    {
        let names = self.edge_name_list();
        let mut r: Vec<&str> = Vec::new();
        let mut i: usize = 0;
        while i < names.len()
            invariant
                0 <= i <= names.len(),
                forall|k: Seq<char>| views(names@).contains(k) <==> self.edge_names().contains(k),
                r@.len() == i,
                forall|j: int| 0 <= j < i ==> (#[trigger] r@[j])@ == names@[j]@,
            decreases names.len() - i,
        {
            proof {
                assert(views(names@)[i as int] == names@[i as int]@);
                assert(self.edge_names().contains(names@[i as int]@));
                let q = choose|q: int| 0 <= q < self.edge_features@.len() && (#[trigger] self.edge_features@[q]).name@ == names@[i as int]@;
                lemma_find_key(self.edge_features@, ef_key(), names@[i as int]@);
                assert(ef_key()(self.edge_features@[q]) == names@[i as int]@);
            }
            match find_edge_feature(&self.edge_features, names[i].as_str()) {
                Some(q) => {
                    proof {
                        lemma_find_key(self.edge_features@, ef_key(), names@[i as int]@);
                    }
                    r.push(self.edge_features[q].name.as_str());
                },
                None => {
                    proof {
                        assert(false);
                    }
                },
            }
            i += 1;
        }
        proof {
            assert(str_views(r@) =~= views(names@));
        }
        r
    }

    /// The node feature names, ascending; without `otype` unless `warp`.
    pub fn all_node_features(&self, warp: bool) -> (r: Vec<String>)
        ensures
            strictly_sorted_strs(views(r@)),
            forall|k: Seq<char>| views(r@).contains(k) <==> (self.node_names().contains(k) && (warp || k != "otype"@)),
    {
        let names = self.node_name_list();
        filter_name(names, warp, "otype")
    }

    /// The node feature names (short name).
    #[allow(non_snake_case)]
    pub fn Fall(&self, warp: bool) -> (r: Vec<String>)
        ensures
            strictly_sorted_strs(views(r@)),
            forall|k: Seq<char>| views(r@).contains(k) <==> (self.node_names().contains(k) && (warp || k != "otype"@)),
    {
        self.all_node_features(warp)
    }

    /// The edge feature names, ascending; without `oslots` unless `warp`.
    pub fn all_edge_features(&self, warp: bool) -> (r: Vec<String>)
        ensures
            strictly_sorted_strs(views(r@)),
            forall|k: Seq<char>| views(r@).contains(k) <==> (self.edge_names().contains(k) && (warp || k != "oslots"@)),
    {
        let names = self.edge_name_list();
        filter_name(names, warp, "oslots")
    }

    /// The edge feature names (short name).
    #[allow(non_snake_case)]
    pub fn Eall(&self, warp: bool) -> (r: Vec<String>)
        ensures
            strictly_sorted_strs(views(r@)),
            forall|k: Seq<char>| views(r@).contains(k) <==> (self.edge_names().contains(k) && (warp || k != "oslots"@)),
    {
        self.all_edge_features(warp)
    }

    /// The names of the computed data: `levels`, `order`, `rank`, `boundary`.
    pub fn computed_names(&self) -> (r: [&'static str; 4])
        ensures
            str_views(r@) == computed_names_spec(),
    {
        let r = ["levels", "order", "rank", "boundary"];
        proof {
            reveal_strlit("levels");
            reveal_strlit("order");
            reveal_strlit("rank");
            reveal_strlit("boundary");
            assert(str_views(r@) =~= computed_names_spec());
        }
        r
    }

    /// The names of the computed data, owned.
    pub fn all_computed_features(&self) -> (r: Vec<String>)
        ensures
            views(r@) == computed_names_spec(),
    {
        let names = self.computed_names();
        let mut r: Vec<String> = Vec::new();
        let mut i: usize = 0;
        while i < 4
            invariant
                0 <= i <= 4,
                names@.len() == 4,
                str_views(names@) == computed_names_spec(),
                views(r@) == computed_names_spec().take(i as int),
            decreases 4 - i,
        {
            let ghost r0 = r@;
            r.push(owned(names[i]));
            proof {
                assert(views(r@) =~= views(r0).push(r@.last()@));
                assert(computed_names_spec().take(i + 1) =~= computed_names_spec().take(i as int).push(computed_names_spec()[i as int]));
                assert(str_views(names@)[i as int] == names@[i as int]@);
                assert(r@.last()@ == computed_names_spec()[i as int]);
                assert(views(r@) =~= computed_names_spec().take(i + 1));
            }
            i += 1;
        }
        proof {
            assert(computed_names_spec().take(4) =~= computed_names_spec());
        }
        r
    }

    /// The names of the computed data (short name).
    #[allow(non_snake_case)]
    pub fn Call(&self) -> (r: Vec<String>)
        ensures
            views(r@) == computed_names_spec(),
    {
        self.all_computed_features()
    }

    /// The number of configuration, edge, node and computed features and the largest
    /// node, keyed ascending by `computed`, `configs`, `edges`, `maxNode`, `nodes`.
    pub fn footprint(&self) -> (r: Vec<(String, usize)>)
        ensures
            r@.len() == 5,
            r@[0].0@ == "computed"@ && r@[0].1 == 4,
            r@[1].0@ == "configs"@ && r@[1].1 == self.config_names().len(),
            r@[2].0@ == "edges"@ && r@[2].1 == self.edge_names().len(),
            r@[3].0@ == "maxNode"@ && r@[3].1 == self.max_node,
            r@[4].0@ == "nodes"@ && r@[4].1 == self.node_names().len(),
    {
        let c = self.config_name_list();
        let e = self.edge_name_list();
        let n = self.node_name_list();
        proof {
            lemma_names_card(views(c@), self.config_names());
            lemma_names_card(views(e@), self.edge_names());
            lemma_names_card(views(n@), self.node_names());
        }
        let mut r: Vec<(String, usize)> = Vec::new();
        r.push((owned("computed"), 4));
        r.push((owned("configs"), c.len()));
        r.push((owned("edges"), e.len()));
        r.push((owned("maxNode"), self.max_node as usize));
        r.push((owned("nodes"), n.len()));
        r
    }

    /// The rank of every node type, keyed by type ascending.
    pub fn otype_rank(&self) -> (r: Vec<(String, u32)>)
        ensures
            strictly_sorted_strs(keys_of(r@)),
            forall|i: int| 0 <= i < r@.len() ==> crate::corpus::named_get(self.type_ranks@, (#[trigger] r@[i]).0@) == Some(r@[i].1),
            forall|k: Seq<char>| keys_of(r@).contains(k) <==> keys_of(self.type_ranks@).contains(k),
    {
        let mut v: Vec<String> = Vec::new();
        let mut i: usize = 0;
        while i < self.type_ranks.len()
            invariant
                0 <= i <= self.type_ranks.len(),
                v@.len() == i,
                forall|j: int| 0 <= j < i ==> (#[trigger] v@[j])@ == self.type_ranks@[j].0@,
            decreases self.type_ranks.len() - i,
        {
            v.push(copy_string(&self.type_ranks[i].0));
            i += 1;
        }
        let names = sorted_unique_strings(v);
        let mut r: Vec<(String, u32)> = Vec::new();
        let mut j: usize = 0;
        while j < names.len()
            invariant
                0 <= j <= names.len(),
                forall|k: Seq<char>| views(names@).contains(k) <==> views(v@).contains(k),
                forall|q: int| 0 <= q < v@.len() ==> (#[trigger] v@[q])@ == self.type_ranks@[q].0@,
                v@.len() == self.type_ranks@.len(),
                r@.len() == j,
                forall|q: int| 0 <= q < j ==> (#[trigger] r@[q]).0@ == names@[q]@ && crate::corpus::named_get(self.type_ranks@, r@[q].0@) == Some(r@[q].1),
            decreases names.len() - j,
        {
            proof {
                assert(views(names@)[j as int] == names@[j as int]@);
                assert(views(v@).contains(names@[j as int]@));
                let q = choose|q: int| 0 <= q < views(v@).len() && views(v@)[q] == names@[j as int]@;
                assert(self.type_ranks@[q].0@ == names@[j as int]@);
                lemma_find_key(self.type_ranks@, crate::corpus::pair_key::<u32>(), names@[j as int]@);
                assert(crate::corpus::pair_key::<u32>()(self.type_ranks@[q]) == names@[j as int]@);
            }
            match crate::corpus::find_named(&self.type_ranks, names[j].as_str()) {
                Some(q) => {
                    r.push((copy_string(&names[j]), self.type_ranks[q].1));
                },
                None => {
                    proof {
                        assert(false);
                    }
                },
            }
            j += 1;
        }
        proof {
            assert(keys_of(r@) =~= views(names@));
            assert forall|k: Seq<char>| keys_of(r@).contains(k) <==> keys_of(self.type_ranks@).contains(k) by {
                assert(views(v@) =~= keys_of(self.type_ranks@));
            }
        }
        r
    }

    /// The rank of every node type (camel-case name).
    #[allow(non_snake_case)]
    pub fn otypeRank(&self) -> (r: Vec<(String, u32)>)
        ensures
            strictly_sorted_strs(keys_of(r@)),
            forall|i: int| 0 <= i < r@.len() ==> crate::corpus::named_get(self.type_ranks@, (#[trigger] r@[i]).0@) == Some(r@[i].1),
            forall|k: Seq<char>| keys_of(r@).contains(k) <==> keys_of(self.type_ranks@).contains(k),
    {
        self.otype_rank()
    }

    /// The nodes that have a type, ascending.
    pub fn feature_nodes(&self) -> (r: Vec<u32>)
        ensures
            strictly_sorted_u32(r@),
            forall|n: u32| r@.contains(n) <==> self.otype().contains_key(n),
    {
        match self.node_feature("otype") {
            Some(f) => sort_dedup(map_keys(&f.values)),
            None => Vec::new(),
        }
    }
}

/// The names of the computed data.
pub open spec fn computed_names_spec() -> Seq<Seq<char>> {
    seq!["levels"@, "order"@, "rank"@, "boundary"@]
}

proof fn lemma_names_card(v: Seq<Seq<char>>, s: Set<Seq<char>>)
    requires
        strictly_sorted_strs(v),
        forall|k: Seq<char>| v.contains(k) <==> s.contains(k),
    ensures
        v.len() == s.len(),
        s.finite(),
{
    assert forall|a: int, b: int| 0 <= a < v.len() && 0 <= b < v.len() && a != b implies v[a] != v[b] by {
        if a < b {
            assert(crate::strs::str_lt(v[a], v[b]));
            crate::strs::lemma_str_lt_irrefl(v[a]);
        } else {
            assert(crate::strs::str_lt(v[b], v[a]));
            crate::strs::lemma_str_lt_irrefl(v[b]);
        }
    }
    assert(v.no_duplicates());
    assert(v.to_set() =~= s);
    v.unique_seq_to_set();
    vstd::seq_lib::seq_to_set_is_finite(v);
}

/// The names without `excluded`, unless `keep`.
fn filter_name(names: Vec<String>, keep: bool, excluded: &str) -> (r: Vec<String>)
    requires
        strictly_sorted_strs(views(names@)),
    ensures
        strictly_sorted_strs(views(r@)),
        forall|k: Seq<char>| views(r@).contains(k) <==> (views(names@).contains(k) && (keep || k != excluded@)),
{
    let mut r: Vec<String> = Vec::new();
    let ghost mut idx: Seq<int> = seq![];
    let mut i: usize = 0;
    while i < names.len()
        invariant
            0 <= i <= names.len(),
            strictly_sorted_strs(views(names@)),
            idx.len() == r@.len(),
            forall|q: int| 0 <= q < idx.len() ==> 0 <= #[trigger] idx[q] < i && r@[q]@ == names@[idx[q]]@,
            forall|a: int, b: int| 0 <= a < b < idx.len() ==> #[trigger] idx[a] < #[trigger] idx[b],
            forall|k: Seq<char>| views(r@).contains(k) <==> (views(names@.take(i as int)).contains(k) && (keep || k != excluded@)),
        decreases names.len() - i,
    {
        let ghost r0 = r@;
        proof {
            assert(views(names@.take(i + 1)) == views(names@.take(i as int)).push(names@[i as int]@));
        }
        if keep || !string_eq(&names[i], excluded) {
            r.push(copy_string(&names[i]));
            proof {
                idx = idx.push(i as int);
                assert(views(r@) == views(r0).push(names@[i as int]@));
                assert forall|k: Seq<char>| views(r@).contains(k) <==> (views(names@.take(i + 1)).contains(k) && (keep || k != excluded@)) by {
                    crate::sorting::lemma_push_contains_pub(views(r0), names@[i as int]@, k);
                    crate::sorting::lemma_push_contains_pub(views(names@.take(i as int)), names@[i as int]@, k);
                }
            }
        } else {
            proof {
                assert forall|k: Seq<char>| views(r@).contains(k) <==> (views(names@.take(i + 1)).contains(k) && (keep || k != excluded@)) by {
                    crate::sorting::lemma_push_contains_pub(views(names@.take(i as int)), names@[i as int]@, k);
                }
            }
        }
        i += 1;
    }
    proof {
        assert(names@.take(names@.len() as int) == names@);
        assert forall|a: int, b: int| 0 <= a < b < views(r@).len() implies crate::strs::str_lt(views(r@)[a], views(r@)[b]) by {
            assert(views(names@)[idx[a]] == names@[idx[a]]@);
            assert(views(names@)[idx[b]] == names@[idx[b]]@);
        }
    }
    r
}

} // verus!

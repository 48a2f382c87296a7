//! The in-memory corpus: its node, edge and configuration features, the node types
//! with their node lists and ranks, and the canonical order of the nodes.

use vstd::prelude::*;
use crate::feature::{fv_at, tg_at, EdgeFeature, NodeFeature};
use crate::sorting::sort_strings;
use crate::strs::{
    copy_string, split_str, split_spec, str_lt, string_eq, trim_spec, trim_str, views,
};
use crate::value::{meta_str, meta_value, FValue, FeatureValue, Metadata};

verus! {

broadcast use {vstd::std_specs::hash::group_hash_axioms, vstd::seq_lib::group_to_multiset_ensures};

/// The index of the first element of `s` whose key is `k`.
pub open spec fn find_key<T>(s: Seq<T>, key: spec_fn(T) -> Seq<char>, k: Seq<char>) -> Option<int>
    decreases s.len(),
{
    if s.len() == 0 {
        None
    } else if key(s[0]) == k {
        Some(0)
    } else {
        match find_key(s.drop_first(), key, k) {
            Some(i) => Some(i + 1),
            None => None,
        }
    }
}

pub proof fn lemma_find_key<T>(s: Seq<T>, key: spec_fn(T) -> Seq<char>, k: Seq<char>)
    ensures
        match find_key(s, key, k) {
            Some(i) => 0 <= i < s.len() && key(s[i]) == k && forall|j: int| 0 <= j < i ==> key(#[trigger] s[j]) != k,
            None => forall|j: int| 0 <= j < s.len() ==> key(#[trigger] s[j]) != k,
        },
    decreases s.len(),
{
    if s.len() > 0 && key(s[0]) != k {
        lemma_find_key(s.drop_first(), key, k);
        match find_key(s.drop_first(), key, k) {
            Some(i) => {
                assert forall|j: int| 0 <= j < i + 1 implies key(#[trigger] s[j]) != k by {
                    if j > 0 {
                        assert(s[j] == s.drop_first()[j - 1]);
                    }
                }
            },
            None => {
                assert forall|j: int| 0 <= j < s.len() implies key(#[trigger] s[j]) != k by {
                    if j > 0 {
                        assert(s[j] == s.drop_first()[j - 1]);
                    }
                }
            },
        }
    }
}

pub open spec fn nf_key() -> spec_fn(NodeFeature) -> Seq<char> {
    |f: NodeFeature| f.name@
}

pub open spec fn ef_key() -> spec_fn(EdgeFeature) -> Seq<char> {
    |f: EdgeFeature| f.name@
}

pub open spec fn pair_key<X>() -> spec_fn((String, X)) -> Seq<char> {
    |p: (String, X)| p.0@
}

pub open spec fn opt_index(o: Option<usize>) -> Option<int> {
    match o {
        Some(i) => Some(i as int),
        None => None,
    }
}

/// The position of the node feature called `name`.
pub fn find_node_feature(fs: &Vec<NodeFeature>, name: &str) -> (r: Option<usize>)
    ensures
        opt_index(r) == find_key(fs@, nf_key(), name@),
        r matches Some(i) ==> i < fs@.len(),
{
    proof {
        lemma_find_key(fs@, nf_key(), name@);
    }
    let mut i: usize = 0;
    while i < fs.len()
        invariant
            0 <= i <= fs.len(),
            forall|j: int| 0 <= j < i ==> (#[trigger] fs@[j]).name@ != name@,
            match find_key(fs@, nf_key(), name@) {
                Some(q) => 0 <= q < fs@.len() && fs@[q].name@ == name@ && forall|j: int| 0 <= j < q ==> (#[trigger] fs@[j]).name@ != name@,
                None => forall|j: int| 0 <= j < fs@.len() ==> (#[trigger] fs@[j]).name@ != name@,
            },
        decreases fs.len() - i,
    {
        if string_eq(&fs[i].name, name) {
            proof {
                match find_key(fs@, nf_key(), name@) {
                    Some(q) => {
                        if q < i {
                            assert(fs@[q].name@ != name@);
                        } else if q > i {
                            assert(fs@[i as int].name@ != name@);
                        }
                    },
                    None => {
                        assert(fs@[i as int].name@ != name@);
                    },
                }
            }
            return Some(i);
        }
        i += 1;
    }
    proof {
        match find_key(fs@, nf_key(), name@) {
            Some(q) => {
                assert(fs@[q].name@ != name@);
            },
            None => {},
        }
    }
    None
}

/// The position of the edge feature called `name`.
pub fn find_edge_feature(fs: &Vec<EdgeFeature>, name: &str) -> (r: Option<usize>)
    ensures
        opt_index(r) == find_key(fs@, ef_key(), name@),
        r matches Some(i) ==> i < fs@.len(),
{
    proof {
        lemma_find_key(fs@, ef_key(), name@);
    }
    let mut i: usize = 0;
    while i < fs.len()
        invariant
            0 <= i <= fs.len(),
            forall|j: int| 0 <= j < i ==> (#[trigger] fs@[j]).name@ != name@,
            match find_key(fs@, ef_key(), name@) {
                Some(q) => 0 <= q < fs@.len() && fs@[q].name@ == name@ && forall|j: int| 0 <= j < q ==> (#[trigger] fs@[j]).name@ != name@,
                None => forall|j: int| 0 <= j < fs@.len() ==> (#[trigger] fs@[j]).name@ != name@,
            },
        decreases fs.len() - i,
    {
        if string_eq(&fs[i].name, name) {
            proof {
                match find_key(fs@, ef_key(), name@) {
                    Some(q) => {
                        if q < i {
                            assert(fs@[q].name@ != name@);
                        } else if q > i {
                            assert(fs@[i as int].name@ != name@);
                        }
                    },
                    None => {
                        assert(fs@[i as int].name@ != name@);
                    },
                }
            }
            return Some(i);
        }
        i += 1;
    }
    proof {
        match find_key(fs@, ef_key(), name@) {
            Some(q) => {
                assert(fs@[q].name@ != name@);
            },
            None => {},
        }
    }
    None
}

/// The position of the entry keyed `name` in a list of named entries.
pub fn find_named<X>(fs: &Vec<(String, X)>, name: &str) -> (r: Option<usize>)
    ensures
        opt_index(r) == find_key(fs@, pair_key::<X>(), name@),
        r matches Some(i) ==> i < fs@.len(),
{
    proof {
        lemma_find_key(fs@, pair_key::<X>(), name@);
    }
    let mut i: usize = 0;
    while i < fs.len()
        invariant
            0 <= i <= fs.len(),
            forall|j: int| 0 <= j < i ==> (#[trigger] fs@[j]).0@ != name@,
            match find_key(fs@, pair_key::<X>(), name@) {
                Some(q) => 0 <= q < fs@.len() && fs@[q].0@ == name@ && forall|j: int| 0 <= j < q ==> (#[trigger] fs@[j]).0@ != name@,
                None => forall|j: int| 0 <= j < fs@.len() ==> (#[trigger] fs@[j]).0@ != name@,
            },
        decreases fs.len() - i,
    {
        if string_eq(&fs[i].0, name) {
            proof {
                match find_key(fs@, pair_key::<X>(), name@) {
                    Some(q) => {
                        if q < i {
                            assert(fs@[q].0@ != name@);
                        } else if q > i {
                            assert(fs@[i as int].0@ != name@);
                        }
                    },
                    None => {
                        assert(fs@[i as int].0@ != name@);
                    },
                }
            }
            return Some(i);
        }
        i += 1;
    }
    proof {
        match find_key(fs@, pair_key::<X>(), name@) {
            Some(q) => {
                assert(fs@[q].0@ != name@);
            },
            None => {},
        }
    }
    None
}

/// The entry keyed `k`: the first one.
pub open spec fn named_get<X>(s: Seq<(String, X)>, k: Seq<char>) -> Option<X> {
    match find_key(s, pair_key::<X>(), k) {
        Some(i) => Some(s[i].1),
        None => None,
    }
}

/// The items of a comma-separated configuration value: trimmed, empty ones dropped.
pub open spec fn csv_items(v: Seq<char>) -> Seq<Seq<char>> {
    split_spec(v, ',').map_values(|p: Seq<char>| trim_spec(p)).filter(|p: Seq<char>| p.len() > 0)
}

/// The items of a comma-separated configuration value.
pub fn parse_csv_config(value: &str) -> (r: Vec<String>)
    ensures
        views(r@) == csv_items(value@),
{
    let parts = split_str(value, ',');
    let ghost trimmed = split_spec(value@, ',').map_values(|p: Seq<char>| trim_spec(p));
    let ghost pred = |p: Seq<char>| p.len() > 0;
    let mut r: Vec<String> = Vec::new();
    let mut i: usize = 0;
    while i < parts.len()
        invariant
            0 <= i <= parts.len(),
            views(parts@) == split_spec(value@, ','),
            trimmed == split_spec(value@, ',').map_values(|p: Seq<char>| trim_spec(p)),
            pred == (|p: Seq<char>| p.len() > 0),
            views(r@) == trimmed.take(i as int).filter(pred),
        decreases parts.len() - i,
    {
        let t = trim_str(parts[i].as_str());
        proof {
            assert(views(parts@)[i as int] == parts@[i as int]@);
            assert(trimmed[i as int] == t@);
            assert(trimmed.take(i + 1) == trimmed.take(i as int).push(t@));
            trimmed.take(i as int).lemma_filter_push(t@, pred);
        }
        if t.as_str().unicode_len() > 0 {
            let ghost r0 = r@;
            r.push(t);
            proof {
                assert(views(r@) == views(r0).push(t@));
            }
        }
        i += 1;
    }
    proof {
        assert(trimmed.take(trimmed.len() as int) == trimmed);
    }
    r
}

/// A corpus: features by name, node-type lists and ranks, and the canonical order.
#[derive(Debug)]
pub struct Corpus {
    pub node_features: Vec<NodeFeature>,
    pub edge_features: Vec<EdgeFeature>,
    pub config_features: Vec<(String, Metadata)>,
    pub max_node: u32,
    pub max_slot: u32,
    pub slot_type: String,
    pub nodes_by_type: Vec<(String, Vec<u32>)>,
    pub type_ranks: Vec<(String, u32)>,
    pub order: Vec<u32>,
    pub rank: Vec<u32>,
}

impl Corpus {
    /// The node feature called `k`.
    pub open spec fn nf(&self, k: Seq<char>) -> Option<NodeFeature> {
        match find_key(self.node_features@, nf_key(), k) {
            Some(i) => Some(self.node_features@[i]),
            None => None,
        }
    }

    /// The edge feature called `k`.
    pub open spec fn ef(&self, k: Seq<char>) -> Option<EdgeFeature> {
        match find_key(self.edge_features@, ef_key(), k) {
            Some(i) => Some(self.edge_features@[i]),
            None => None,
        }
    }

    /// The configuration feature called `k`.
    pub open spec fn cfg(&self, k: Seq<char>) -> Option<Metadata> {
        named_get(self.config_features@, k)
    }

    /// The node-type values.
    pub open spec fn otype(&self) -> Map<u32, FeatureValue> {
        match self.nf("otype"@) {
            Some(f) => f.values@,
            None => Map::empty(),
        }
    }

    /// The type of node `n`.
    pub open spec fn type_of(&self, n: u32) -> Option<Seq<char>> {
        match fv_at(self.otype(), n) {
            Some(FValue::Str(s)) => Some(s),
            _ => None,
        }
    }

    /// The slots stored for node `n`.
    pub open spec fn oslots_of(&self, n: u32) -> Option<Seq<u32>> {
        match self.ef("oslots"@) {
            Some(f) => tg_at(f.values@, n),
            None => None,
        }
    }

    /// The slots of node `n`: itself for a slot, its stored slots otherwise.
    pub open spec fn slots_spec(&self, n: u32) -> Seq<u32> {
        if n == 0 || n > self.max_node {
            seq![]
        } else if n <= self.max_slot {
            seq![n]
        } else {
            match self.oslots_of(n) {
                Some(s) => s,
                None => seq![],
            }
        }
    }

    /// The node list of type `t`.
    pub open spec fn type_nodes(&self, t: Seq<char>) -> Option<Seq<u32>> {
        match named_get(self.nodes_by_type@, t) {
            Some(v) => Some(v@),
            None => None,
        }
    }

    /// The `otext` configuration value `key`, split as a comma-separated list.
    pub open spec fn otext_list(&self, key: Seq<char>) -> Seq<Seq<char>> {
        match self.cfg("otext"@) {
            Some(m) => match meta_value(m@, key) {
                Some(v) => csv_items(v),
                None => seq![],
            },
            None => seq![],
        }
    }

    /// The node feature called `name`.
    pub fn node_feature(&self, name: &str) -> (r: Option<&NodeFeature>)
        ensures
            match r {
                Some(f) => self.nf(name@) == Some(*f),
                None => self.nf(name@) is None,
            },
    {
        match find_node_feature(&self.node_features, name) {
            Some(i) => Some(&self.node_features[i]),
            None => None,
        }
    }

    /// The node feature called `name` (short name).
    #[allow(non_snake_case)]
    pub fn Fs(&self, name: &str) -> (r: Option<&NodeFeature>)
        ensures
            match r {
                Some(f) => self.nf(name@) == Some(*f),
                None => self.nf(name@) is None,
            },
    {
        self.node_feature(name)
    }

    /// The edge feature called `name`.
    pub fn edge_feature(&self, name: &str) -> (r: Option<&EdgeFeature>)
        ensures
            match r {
                Some(f) => self.ef(name@) == Some(*f),
                None => self.ef(name@) is None,
            },
    {
        match find_edge_feature(&self.edge_features, name) {
            Some(i) => Some(&self.edge_features[i]),
            None => None,
        }
    }

    /// The edge feature called `name` (short name).
    #[allow(non_snake_case)]
    pub fn Es(&self, name: &str) -> (r: Option<&EdgeFeature>)
        ensures
            match r {
                Some(f) => self.ef(name@) == Some(*f),
                None => self.ef(name@) is None,
            },
    {
        self.edge_feature(name)
    }

    /// The configuration feature called `name`.
    pub fn config_feature(&self, name: &str) -> (r: Option<&Metadata>)
        ensures
            match r {
                Some(m) => self.cfg(name@) == Some(*m),
                None => self.cfg(name@) is None,
            },
    {
        match find_named(&self.config_features, name) {
            Some(i) => Some(&self.config_features[i].1),
            None => None,
        }
    }

    /// An `otext` list setting (`sectionTypes`, `sectionFeatures`, ...).
    fn otext_setting(&self, key: &str) -> (r: Vec<String>)
        ensures
            views(r@) == self.otext_list(key@),
    {
        match self.config_feature("otext") {
            Some(m) => match meta_str(m, key) {
                Some(v) => parse_csv_config(v),
                None => Vec::new(),
            },
            None => Vec::new(),
        }
    }

    /// The section levels, from the `sectionTypes` setting of `otext`.
    pub fn section_types(&self) -> (r: Vec<String>)
        ensures
            views(r@) == self.otext_list("sectionTypes"@),
    {
        self.otext_setting("sectionTypes")
    }

    /// The section levels (camel-case name).
    #[allow(non_snake_case)]
    pub fn sectionTypes(&self) -> (r: Vec<String>)
        ensures
            views(r@) == self.otext_list("sectionTypes"@),
    {
        self.section_types()
    }

    /// The features that name the sections, from `sectionFeatures`.
    pub fn section_features(&self) -> (r: Vec<String>)
        ensures
            views(r@) == self.otext_list("sectionFeatures"@),
    {
        self.otext_setting("sectionFeatures")
    }

    /// The section features (camel-case name).
    #[allow(non_snake_case)]
    pub fn sectionFeatures(&self) -> (r: Vec<String>)
        ensures
            views(r@) == self.otext_list("sectionFeatures"@),
    {
        self.section_features()
    }

    /// The structure levels, from `structureTypes`.
    pub fn structure_types(&self) -> (r: Vec<String>)
        ensures
            views(r@) == self.otext_list("structureTypes"@),
    {
        self.otext_setting("structureTypes")
    }

    /// The structure levels (camel-case name).
    #[allow(non_snake_case)]
    pub fn structureTypes(&self) -> (r: Vec<String>)
        ensures
            views(r@) == self.otext_list("structureTypes"@),
    {
        self.structure_types()
    }

    /// The features that name the structure levels, from `structureFeatures`.
    pub fn structure_features(&self) -> (r: Vec<String>)
        ensures
            views(r@) == self.otext_list("structureFeatures"@),
    {
        self.otext_setting("structureFeatures")
    }

    /// The structure features (camel-case name).
    #[allow(non_snake_case)]
    pub fn structureFeatures(&self) -> (r: Vec<String>)
        ensures
            views(r@) == self.otext_list("structureFeatures"@),
    {
        self.structure_features()
    }

    /// The largest slot.
    pub fn max_slot(&self) -> (r: u32)
        ensures
            r == self.max_slot,
    {
        self.max_slot
    }

    /// The largest slot (camel-case name).
    #[allow(non_snake_case)]
    pub fn maxSlot(&self) -> (r: u32)
        ensures
            r == self.max_slot,
    {
        self.max_slot()
    }

    /// The largest node.
    pub fn max_node(&self) -> (r: u32)
        ensures
            r == self.max_node,
    {
        self.max_node
    }

    /// The largest node (camel-case name).
    #[allow(non_snake_case)]
    pub fn maxNode(&self) -> (r: u32)
        ensures
            r == self.max_node,
    {
        self.max_node()
    }

    /// The type of the slots.
    pub fn slot_type(&self) -> (r: &str)
        ensures
            r@ == self.slot_type@,
    {
        self.slot_type.as_str()
    }

    /// The type of the slots (camel-case name).
    #[allow(non_snake_case)]
    pub fn slotType(&self) -> (r: &str)
        ensures
            r@ == self.slot_type@,
    {
        self.slot_type()
    }

    /// The nodes of type `node_type`, ascending; empty for an unknown type.
    pub fn nodes_of_type(&self, node_type: &str) -> (r: &[u32])
        ensures
            r@ == match self.type_nodes(node_type@) {
                Some(v) => v,
                None => seq![],
            },
    {
        match find_named(&self.nodes_by_type, node_type) {
            Some(i) => self.nodes_by_type[i].1.as_slice(),
            None => &[],
        }
    }

    /// The first and last node of type `node_type`.
    pub fn node_type_interval(&self, node_type: &str) -> (r: Option<(u32, u32)>)
        ensures
            r == match self.type_nodes(node_type@) {
                Some(v) => if v.len() > 0 { Some((v[0], v.last())) } else { None },
                None => None,
            },
    {
        match find_named(&self.nodes_by_type, node_type) {
            Some(i) => {
                let v = &self.nodes_by_type[i].1;
                if v.len() > 0 {
                    Some((v[0], v[v.len() - 1]))
                } else {
                    None
                }
            },
            None => None,
        }
    }

    /// The first and last node of a type (short name).
    pub fn s_interval(&self, node_type: &str) -> (r: Option<(u32, u32)>)
        ensures
            r == match self.type_nodes(node_type@) {
                Some(v) => if v.len() > 0 { Some((v[0], v.last())) } else { None },
                None => None,
            },
    {
        self.node_type_interval(node_type)
    }

    /// The first and last node of a type (camel-case name).
    #[allow(non_snake_case)]
    pub fn sInterval(&self, node_type: &str) -> (r: Option<(u32, u32)>)
        ensures
            r == match self.type_nodes(node_type@) {
                Some(v) => if v.len() > 0 { Some((v[0], v.last())) } else { None },
                None => None,
            },
    {
        self.node_type_interval(node_type)
    }

    /// The type of `node`.
    pub fn node_type(&self, node: u32) -> (r: Option<&str>)
        ensures
            match r {
                Some(t) => self.type_of(node) == Some(t@),
                None => self.type_of(node) is None,
            },
    {
        match self.node_feature("otype") {
            Some(f) => f.str_value(node),
            None => None,
        }
    }

    /// The stored slots of `node`.
    pub fn slots_of(&self, node: u32) -> (r: Option<&[u32]>)
        ensures
            match r {
                Some(s) => self.oslots_of(node) == Some(s@),
                None => self.oslots_of(node) is None,
            },
    {
        match self.edge_feature("oslots") {
            Some(f) => f.targets(node),
            None => None,
        }
    }

    /// The slots of `node`: itself for a slot, its stored slots otherwise; empty
    /// outside the node range.
    pub fn slots(&self, node: u32) -> (r: Vec<u32>)
        ensures
            r@ == self.slots_spec(node),
    {
        if node == 0 || node > self.max_node {
            return Vec::new();
        }
        if node <= self.max_slot {
            let mut v = Vec::new();
            v.push(node);
            proof {
                assert(v@ =~= seq![node]);
            }
            return v;
        }
        match self.slots_of(node) {
            Some(s) => crate::sorting::copy_nodes(s),
            None => Vec::new(),
        }
    }
}

} // verus!

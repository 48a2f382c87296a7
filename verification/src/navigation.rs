//! Views on a corpus: its nodes (order and walking), the locality of a node
//! (up, down, next, previous, intersecting), and its text.

use vstd::prelude::*;
use crate::corpus::Corpus;
use crate::corpus_bound::{opt_nodes, walk_events_spec};
use crate::corpus_info::keys_of;
use crate::corpus_misc::count_before;
use crate::corpus_nav::{one_type, opt_types, rank_at, rank_sorted, rank_sorted_desc, slot_type_admitted};
use crate::corpus_text::{concat_all, opt_strref, text_ok};
use crate::corpus_types::{Boundary, WalkEvent};
use crate::sorting::strictly_sorted_strs;

verus! {

/// The nodes of a corpus: their order and walks.
#[derive(Debug, Clone, Copy)]
pub struct Nodes<'a> {
    pub corpus: &'a Corpus,
}

impl<'a> Nodes<'a> {
    /// The view on `corpus`.
    pub fn new(corpus: &'a Corpus) -> (r: Self)
        ensures
            r.corpus == corpus,
    {
        Nodes { corpus }
    }

    /// The rank of every node type.
    pub fn otype_rank(&self) -> (r: Vec<(String, u32)>)
        ensures
            strictly_sorted_strs(keys_of(r@)),
            forall|i: int| 0 <= i < r@.len() ==> crate::corpus::named_get(self.corpus.type_ranks@, (#[trigger] r@[i]).0@) == Some(r@[i].1),
            forall|k: Seq<char>| keys_of(r@).contains(k) <==> keys_of(self.corpus.type_ranks@).contains(k),
    {
        self.corpus.otype_rank()
    }

    /// The rank of every node type (camel-case name).
    #[allow(non_snake_case)]
    pub fn otypeRank(&self) -> (r: Vec<(String, u32)>)
        ensures
            strictly_sorted_strs(keys_of(r@)),
            forall|i: int| 0 <= i < r@.len() ==> crate::corpus::named_get(self.corpus.type_ranks@, (#[trigger] r@[i]).0@) == Some(r@[i].1),
            forall|k: Seq<char>| keys_of(r@).contains(k) <==> keys_of(self.corpus.type_ranks@).contains(k),
    {
        self.corpus.otype_rank()
    }

    /// The sort key of a node.
    pub fn sort_key(&self, node: u32) -> (r: usize)
        ensures
            r == self.corpus.sort_key_spec(node),
    {
        self.corpus.sort_key(node)
    }

    /// The sort key of a node (camel-case name).
    #[allow(non_snake_case)]
    pub fn sortKey(&self, node: u32) -> (r: usize)
        ensures
            r == self.corpus.sort_key_spec(node),
    {
        self.corpus.sort_key(node)
    }

    /// The sort keys of nodes.
    pub fn sort_key_tuple(&self, nodes: &[u32]) -> (r: Vec<usize>)
        ensures
            r@.len() == nodes@.len(),
            forall|i: int| 0 <= i < nodes@.len() ==> #[trigger] r@[i] == self.corpus.sort_key_spec(nodes@[i]),
    {
        self.corpus.sort_key_tuple(nodes)
    }

    /// The sort keys of nodes (camel-case name).
    #[allow(non_snake_case)]
    pub fn sortKeyTuple(&self, nodes: &[u32]) -> (r: Vec<usize>)
        ensures
            r@.len() == nodes@.len(),
            forall|i: int| 0 <= i < nodes@.len() ==> #[trigger] r@[i] == self.corpus.sort_key_spec(nodes@[i]),
    {
        self.corpus.sort_key_tuple(nodes)
    }

    /// The nodes in canonical order.
    pub fn sort_nodes(&self, nodes: Vec<u32>) -> (r: Vec<u32>)
        ensures
            r@.len() == nodes@.len(),
            forall|x: u32| r@.contains(x) <==> nodes@.contains(x),
            nodes@.no_duplicates() ==> r@.no_duplicates(),
            rank_sorted(r@, self.corpus.rank@, u32::MAX),
            r@.to_multiset() == nodes@.to_multiset(),
    {
        self.corpus.sorted_nodes(nodes)
    }

    /// The nodes in canonical order (camel-case name).
    #[allow(non_snake_case)]
    pub fn sortNodes(&self, nodes: Vec<u32>) -> (r: Vec<u32>)
        ensures
            r@.len() == nodes@.len(),
            forall|x: u32| r@.contains(x) <==> nodes@.contains(x),
            nodes@.no_duplicates() ==> r@.no_duplicates(),
            rank_sorted(r@, self.corpus.rank@, u32::MAX),
            r@.to_multiset() == nodes@.to_multiset(),
    {
        self.corpus.sorted_nodes(nodes)
    }

    /// The given nodes, or all nodes, in canonical order.
    pub fn walk(&self, nodes: Option<&[u32]>) -> (r: Vec<u32>)
        ensures
            match nodes {
                Some(ns) => r@.len() == ns@.len() && (forall|x: u32| r@.contains(x) <==> ns@.contains(x))
                    && (ns@.no_duplicates() ==> r@.no_duplicates()) && rank_sorted(r@, self.corpus.rank@, u32::MAX)
                    && r@.to_multiset() == ns@.to_multiset(),
                None => r@ == self.corpus.order@,
            },
    {
        self.corpus.walk(nodes)
    }

    /// The walk as events.
    pub fn walk_events(&self, nodes: Option<&[u32]>) -> (r: Vec<WalkEvent>)
        ensures
            exists|b: Boundary, ws: Seq<u32>| {
                &&& self.corpus.boundary_ok(b)
                &&& match nodes {
                    Some(ns) => ws.len() == ns@.len() && (forall|x: u32| #[trigger] ws.contains(x) <==> ns@.contains(x)) && rank_sorted(ws, self.corpus.rank@, u32::MAX),
                    None => ws == self.corpus.order@,
                }
                &&& r@ == walk_events_spec(*self.corpus, b, opt_nodes(nodes), ws)
            },
    {
        self.corpus.walk_events(nodes)
    }

    /// The walk as events (camel-case name).
    #[allow(non_snake_case)]
    pub fn walkEvents(&self, nodes: Option<&[u32]>) -> (r: Vec<WalkEvent>)
        ensures
            exists|b: Boundary, ws: Seq<u32>| {
                &&& self.corpus.boundary_ok(b)
                &&& match nodes {
                    Some(ns) => ws.len() == ns@.len() && (forall|x: u32| #[trigger] ws.contains(x) <==> ns@.contains(x)) && rank_sorted(ws, self.corpus.rank@, u32::MAX),
                    None => ws == self.corpus.order@,
                }
                &&& r@ == walk_events_spec(*self.corpus, b, opt_nodes(nodes), ws)
            },
    {
        self.corpus.walk_events(nodes)
    }
}

/// The neighbourhood of nodes in a corpus.
#[derive(Debug, Clone, Copy)]
pub struct Locality<'a> {
    pub corpus: &'a Corpus,
}

impl<'a> Locality<'a> {
    /// The view on `corpus`.
    pub fn new(corpus: &'a Corpus) -> (r: Self)
        ensures
            r.corpus == corpus,
    {
        Locality { corpus }
    }

    /// The intersecting nodes (short name).
    pub fn i(&self, node: u32, node_type: Option<&str>) -> (r: Vec<u32>)
        ensures
            node <= self.corpus.max_slot || node > self.corpus.max_node || self.corpus.slots_spec(node).len() == 0 ==> r@.len() == 0,
            !(node <= self.corpus.max_slot || node > self.corpus.max_node || self.corpus.slots_spec(node).len() == 0) ==> {
                &&& forall|x: u32| #[trigger] r@.contains(x) <==> ((self.corpus.allowed(1, one_type(node_type)) && self.corpus.slots_spec(node).contains(x))
                    || self.corpus.meet_set(node, self.corpus.slots_spec(node), one_type(node_type)).contains(x))
                &&& rank_sorted_desc(r@, self.corpus.rank@, u32::MAX)
            },
    {
        self.corpus.i(node, node_type)
    }

    /// The intersecting nodes.
    pub fn intersecting(&self, node: u32, node_type: Option<&str>) -> (r: Vec<u32>)
        ensures
            node <= self.corpus.max_slot || node > self.corpus.max_node || self.corpus.slots_spec(node).len() == 0 ==> r@.len() == 0,
            !(node <= self.corpus.max_slot || node > self.corpus.max_node || self.corpus.slots_spec(node).len() == 0) ==> {
                &&& forall|x: u32| #[trigger] r@.contains(x) <==> ((self.corpus.allowed(1, one_type(node_type)) && self.corpus.slots_spec(node).contains(x))
                    || self.corpus.meet_set(node, self.corpus.slots_spec(node), one_type(node_type)).contains(x))
                &&& rank_sorted_desc(r@, self.corpus.rank@, u32::MAX)
            },
    {
        self.corpus.intersecting(node, node_type)
    }

    /// The intersecting nodes of the given types.
    pub fn intersecting_types(&self, node: u32, node_types: Option<&[&str]>) -> (r: Vec<u32>)
        ensures
            node <= self.corpus.max_slot || node > self.corpus.max_node || self.corpus.slots_spec(node).len() == 0 ==> r@.len() == 0,
            !(node <= self.corpus.max_slot || node > self.corpus.max_node || self.corpus.slots_spec(node).len() == 0) ==> {
                &&& forall|x: u32| #[trigger] r@.contains(x) <==> ((self.corpus.allowed(1, opt_types(node_types)) && self.corpus.slots_spec(node).contains(x))
                    || self.corpus.meet_set(node, self.corpus.slots_spec(node), opt_types(node_types)).contains(x))
                &&& rank_sorted_desc(r@, self.corpus.rank@, u32::MAX)
            },
    {
        self.corpus.intersecting_types(node, node_types)
    }

    /// The embedding nodes (short name).
    pub fn u(&self, node: u32, node_type: Option<&str>) -> (r: Vec<u32>)
        ensures
            forall|x: u32| r@.contains(x) <==> self.corpus.up_set(node, one_type(node_type)).contains(x),
            r@.no_duplicates(),
            rank_sorted_desc(r@, self.corpus.rank@, u32::MAX),
    {
        self.corpus.u(node, node_type)
    }

    /// The embedding nodes.
    pub fn up(&self, node: u32, node_type: Option<&str>) -> (r: Vec<u32>)
        ensures
            forall|x: u32| r@.contains(x) <==> self.corpus.up_set(node, one_type(node_type)).contains(x),
            r@.no_duplicates(),
            rank_sorted_desc(r@, self.corpus.rank@, u32::MAX),
    {
        self.corpus.up(node, node_type)
    }

    /// The embedding nodes of the given types.
    pub fn up_types(&self, node: u32, node_types: Option<&[&str]>) -> (r: Vec<u32>)
        ensures
            forall|x: u32| r@.contains(x) <==> self.corpus.up_set(node, opt_types(node_types)).contains(x),
            r@.no_duplicates(),
            rank_sorted_desc(r@, self.corpus.rank@, u32::MAX),
    {
        self.corpus.up_types(node, node_types)
    }

    /// The embedded nodes (short name).
    pub fn d(&self, node: u32, node_type: Option<&str>) -> (r: Vec<u32>)
        ensures
            match self.corpus.oslots_of(node) {
                None => r@.len() == 0,
                Some(ss) => {
                    &&& forall|x: u32| #[trigger] r@.contains(x) <==> ((slot_type_admitted(self.corpus.slot_type@, one_type(node_type)) && ss.contains(x))
                        || self.corpus.down_set(node, one_type(node_type)).contains(x))
                    &&& rank_sorted(r@, self.corpus.rank@, u32::MAX)
                },
            },
    {
        self.corpus.d(node, node_type)
    }

    /// The embedded nodes.
    pub fn down(&self, node: u32, node_type: Option<&str>) -> (r: Vec<u32>)
        ensures
            match self.corpus.oslots_of(node) {
                None => r@.len() == 0,
                Some(ss) => {
                    &&& forall|x: u32| #[trigger] r@.contains(x) <==> ((slot_type_admitted(self.corpus.slot_type@, one_type(node_type)) && ss.contains(x))
                        || self.corpus.down_set(node, one_type(node_type)).contains(x))
                    &&& rank_sorted(r@, self.corpus.rank@, u32::MAX)
                },
            },
    {
        self.corpus.down(node, node_type)
    }

    /// The embedded nodes of the given types.
    pub fn down_types(&self, node: u32, node_types: Option<&[&str]>) -> (r: Vec<u32>)
        ensures
            match self.corpus.oslots_of(node) {
                None => r@.len() == 0,
                Some(ss) => {
                    &&& forall|x: u32| #[trigger] r@.contains(x) <==> ((slot_type_admitted(self.corpus.slot_type@, opt_types(node_types)) && ss.contains(x))
                        || self.corpus.down_set(node, opt_types(node_types)).contains(x))
                    &&& rank_sorted(r@, self.corpus.rank@, u32::MAX)
                },
            },
    {
        self.corpus.down_types(node, node_types)
    }

    /// What comes right after a node (short name).
    pub fn n(&self, node: u32, node_type: Option<&str>) -> (r: Vec<u32>)
        ensures
            (node == 0 || node == self.corpus.max_slot || node > self.corpus.max_node || self.corpus.adjacent_spec(node, true) is None
                || self.corpus.adjacent_spec(node, true)->0 > self.corpus.max_slot) ==> r@.len() == 0,
            !(node == 0 || node == self.corpus.max_slot || node > self.corpus.max_node || self.corpus.adjacent_spec(node, true) is None
                || self.corpus.adjacent_spec(node, true)->0 > self.corpus.max_slot) ==> exists|st: Seq<u32>| {
                &&& (forall|x: u32| #[trigger] st.contains(x) <==> self.corpus.starting(self.corpus.adjacent_spec(node, true)->0).contains(x))
                &&& st.no_duplicates()
                &&& rank_sorted_desc(st, self.corpus.rank@, 0)
                &&& r@ == self.corpus.next_spec(node, one_type(node_type), st)
            },
    {
        self.corpus.n(node, node_type)
    }

    /// What comes right after a node.
    pub fn next(&self, node: u32, node_type: Option<&str>) -> (r: Vec<u32>)
        ensures
            (node == 0 || node == self.corpus.max_slot || node > self.corpus.max_node || self.corpus.adjacent_spec(node, true) is None
                || self.corpus.adjacent_spec(node, true)->0 > self.corpus.max_slot) ==> r@.len() == 0,
            !(node == 0 || node == self.corpus.max_slot || node > self.corpus.max_node || self.corpus.adjacent_spec(node, true) is None
                || self.corpus.adjacent_spec(node, true)->0 > self.corpus.max_slot) ==> exists|st: Seq<u32>| {
                &&& (forall|x: u32| #[trigger] st.contains(x) <==> self.corpus.starting(self.corpus.adjacent_spec(node, true)->0).contains(x))
                &&& st.no_duplicates()
                &&& rank_sorted_desc(st, self.corpus.rank@, 0)
                &&& r@ == self.corpus.next_spec(node, one_type(node_type), st)
            },
    {
        self.corpus.next(node, node_type)
    }

    /// What comes right after a node, of the given types.
    pub fn next_types(&self, node: u32, node_types: Option<&[&str]>) -> (r: Vec<u32>)
        ensures
            (node == 0 || node == self.corpus.max_slot || node > self.corpus.max_node || self.corpus.adjacent_spec(node, true) is None
                || self.corpus.adjacent_spec(node, true)->0 > self.corpus.max_slot) ==> r@.len() == 0,
            !(node == 0 || node == self.corpus.max_slot || node > self.corpus.max_node || self.corpus.adjacent_spec(node, true) is None
                || self.corpus.adjacent_spec(node, true)->0 > self.corpus.max_slot) ==> exists|st: Seq<u32>| {
                &&& (forall|x: u32| #[trigger] st.contains(x) <==> self.corpus.starting(self.corpus.adjacent_spec(node, true)->0).contains(x))
                &&& st.no_duplicates()
                &&& rank_sorted_desc(st, self.corpus.rank@, 0)
                &&& r@ == self.corpus.next_spec(node, opt_types(node_types), st)
            },
    {
        self.corpus.next_types(node, node_types)
    }

    /// What comes right before a node (short name).
    pub fn p(&self, node: u32, node_type: Option<&str>) -> (r: Vec<u32>)
        ensures
            (node <= 1 || node > self.corpus.max_node || self.corpus.adjacent_spec(node, false) is None || self.corpus.adjacent_spec(node, false)->0 == 0) ==> r@.len() == 0,
            !(node <= 1 || node > self.corpus.max_node || self.corpus.adjacent_spec(node, false) is None || self.corpus.adjacent_spec(node, false)->0 == 0) ==> exists|en: Seq<u32>| {
                &&& (self.corpus.adjacent_spec(node, false)->0 <= self.corpus.max_slot ==> forall|x: u32| #[trigger] en.contains(x) <==> self.corpus.ending(self.corpus.adjacent_spec(node, false)->0).contains(x))
                &&& (self.corpus.adjacent_spec(node, false)->0 > self.corpus.max_slot ==> en.len() == 0)
                &&& en.no_duplicates()
                &&& rank_sorted(en, self.corpus.rank@, u32::MAX)
                &&& r@ == self.corpus.previous_spec(node, one_type(node_type), en)
            },
    {
        self.corpus.p(node, node_type)
    }

    /// What comes right before a node.
    pub fn previous(&self, node: u32, node_type: Option<&str>) -> (r: Vec<u32>)
        ensures
            (node <= 1 || node > self.corpus.max_node || self.corpus.adjacent_spec(node, false) is None || self.corpus.adjacent_spec(node, false)->0 == 0) ==> r@.len() == 0,
            !(node <= 1 || node > self.corpus.max_node || self.corpus.adjacent_spec(node, false) is None || self.corpus.adjacent_spec(node, false)->0 == 0) ==> exists|en: Seq<u32>| {
                &&& (self.corpus.adjacent_spec(node, false)->0 <= self.corpus.max_slot ==> forall|x: u32| #[trigger] en.contains(x) <==> self.corpus.ending(self.corpus.adjacent_spec(node, false)->0).contains(x))
                &&& (self.corpus.adjacent_spec(node, false)->0 > self.corpus.max_slot ==> en.len() == 0)
                &&& en.no_duplicates()
                &&& rank_sorted(en, self.corpus.rank@, u32::MAX)
                &&& r@ == self.corpus.previous_spec(node, one_type(node_type), en)
            },
    {
        self.corpus.previous(node, node_type)
    }

    /// What comes right before a node, of the given types.
    pub fn previous_types(&self, node: u32, node_types: Option<&[&str]>) -> (r: Vec<u32>)
        ensures
            (node <= 1 || node > self.corpus.max_node || self.corpus.adjacent_spec(node, false) is None || self.corpus.adjacent_spec(node, false)->0 == 0) ==> r@.len() == 0,
            !(node <= 1 || node > self.corpus.max_node || self.corpus.adjacent_spec(node, false) is None || self.corpus.adjacent_spec(node, false)->0 == 0) ==> exists|en: Seq<u32>| {
                &&& (self.corpus.adjacent_spec(node, false)->0 <= self.corpus.max_slot ==> forall|x: u32| #[trigger] en.contains(x) <==> self.corpus.ending(self.corpus.adjacent_spec(node, false)->0).contains(x))
                &&& (self.corpus.adjacent_spec(node, false)->0 > self.corpus.max_slot ==> en.len() == 0)
                &&& en.no_duplicates()
                &&& rank_sorted(en, self.corpus.rank@, u32::MAX)
                &&& r@ == self.corpus.previous_spec(node, opt_types(node_types), en)
            },
    {
        self.corpus.previous_types(node, node_types)
    }
}

/// The text of a corpus.
#[derive(Debug, Clone, Copy)]
pub struct Text<'a> {
    pub corpus: &'a Corpus,
}

impl<'a> Text<'a> {
    /// The view on `corpus`.
    pub fn new(corpus: &'a Corpus) -> (r: Self)
        ensures
            r.corpus == corpus,
    {
        Text { corpus }
    }

    /// The text of a node.
    pub fn text(&self, node: u32, format: Option<&str>) -> (r: String)
        ensures
            text_ok(*self.corpus, node, opt_strref(format), None, r@),
    {
        self.corpus.text(node, format)
    }

    /// The texts of nodes, one after the other.
    pub fn text_nodes(&self, nodes: &[u32], format: Option<&str>) -> (r: String)
        ensures
            exists|parts: Seq<Seq<char>>| #![trigger concat_all(parts)] {
                &&& parts.len() == nodes@.len()
                &&& forall|i: int| 0 <= i < nodes@.len() ==> text_ok(*self.corpus, #[trigger] nodes@[i], opt_strref(format), None, parts[i])
                &&& r@ == concat_all(parts)
            },
    {
        self.corpus.text_nodes(nodes, format)
    }

    /// The texts of nodes (camel-case name).
    #[allow(non_snake_case)]
    pub fn textNodes(&self, nodes: &[u32], format: Option<&str>) -> (r: String)
        ensures
            exists|parts: Seq<Seq<char>>| #![trigger concat_all(parts)] {
                &&& parts.len() == nodes@.len()
                &&& forall|i: int| 0 <= i < nodes@.len() ==> text_ok(*self.corpus, #[trigger] nodes@[i], opt_strref(format), None, parts[i])
                &&& r@ == concat_all(parts)
            },
    {
        self.corpus.text_nodes(nodes, format)
    }
}

} // verus!

//! Navigation in a corpus: containment of nodes by their slots, the embedding nodes
//! (up), the embedded nodes (down), the intersecting nodes, and canonical sorting.

use vstd::prelude::*;
use crate::corpus::Corpus;
use crate::corpus_info::str_views;
use crate::feature::vec_contains;
use crate::sorting::{copy_nodes, pair_le, sort_nodes_keyed};
use crate::strs::str_eq;

verus! {

broadcast use vstd::seq_lib::group_to_multiset_ensures;

/// The rank of node `n` in a rank table (`r[n - 1]`, node 0 read as node 1), or `dflt`
/// beyond the table.
pub open spec fn rank_at(r: Seq<u32>, n: u32, dflt: u32) -> u32 {
    let i: int = if n == 0 { 0 } else { n - 1 };
    if i < r.len() { r[i] } else { dflt }
}

/// The sort key of a node under a rank table: its rank, then the node.
pub open spec fn key_fn(r: Seq<u32>, dflt: u32) -> spec_fn(u32) -> (u32, u32) {
    |n: u32| (rank_at(r, n, dflt), n)
}

/// `s` ascends in the rank of its nodes.
pub open spec fn rank_sorted(s: Seq<u32>, r: Seq<u32>, dflt: u32) -> bool {
    forall|i: int, j: int| 0 <= i <= j < s.len() ==> rank_at(r, #[trigger] s[i], dflt) <= rank_at(r, #[trigger] s[j], dflt)
}

/// `s` descends in the rank of its nodes.
pub open spec fn rank_sorted_desc(s: Seq<u32>, r: Seq<u32>, dflt: u32) -> bool {
    forall|i: int, j: int| 0 <= i <= j < s.len() ==> rank_at(r, #[trigger] s[j], dflt) <= rank_at(r, #[trigger] s[i], dflt)
}

/// The view of an optional list of node types.
pub open spec fn opt_types(t: Option<&[&str]>) -> Option<Seq<Seq<char>>> {
    match t {
        Some(v) => Some(str_views(v@)),
        None => None,
    }
}

/// The rank of `n` in `r`, or `dflt` beyond the table.
pub fn rank_at_exec(r: &Vec<u32>, n: u32, dflt: u32) -> (k: u32)
    ensures
        k == rank_at(r@, n, dflt),
{
    let i: usize = if n == 0 { 0 } else { (n - 1) as usize };
    if i < r.len() { r[i] } else { dflt }
}

/// The nodes ascending in rank (`dflt` beyond the table): same nodes, same length.
pub fn sort_by_rank_table(nodes: &Vec<u32>, r: &Vec<u32>, dflt: u32) -> (o: Vec<u32>)
    ensures
        o@.len() == nodes@.len(),
        forall|x: u32| o@.contains(x) <==> nodes@.contains(x),
        nodes@.no_duplicates() ==> o@.no_duplicates(),
        rank_sorted(o@, r@, dflt),
        o@.to_multiset() == nodes@.to_multiset(),
{
    let ghost f = key_fn(r@, dflt);
    let mut keys: Vec<(u32, u32)> = Vec::new();
    let mut i: usize = 0;
    while i < nodes.len()
        invariant
            0 <= i <= nodes.len(),
            f == key_fn(r@, dflt),
            keys@.len() == i,
            forall|j: int| 0 <= j < i ==> #[trigger] keys@[j] == f(nodes@[j]),
        decreases nodes.len() - i,
    {
        let k = rank_at_exec(r, nodes[i], dflt);
        keys.push((k, nodes[i]));
        i += 1;
    }
    let o = sort_nodes_keyed(nodes, keys, Ghost(f));
    proof {
        assert forall|a: int, b: int| 0 <= a <= b < o@.len() implies rank_at(r@, #[trigger] o@[a], dflt) <= rank_at(r@, #[trigger] o@[b], dflt) by {
            assert(pair_le(f(o@[a]), f(o@[b])));
        }
    }
    o
}

/// The list reversed.
pub fn reversed(v: Vec<u32>) -> (r: Vec<u32>)
    ensures
        r@ == v@.reverse(),
{
    let mut r: Vec<u32> = Vec::new();
    let mut i: usize = v.len();
    while i > 0
        invariant
            0 <= i <= v.len(),
            r@.len() == v.len() - i,
            forall|k: int| 0 <= k < r@.len() ==> #[trigger] r@[k] == v@[v.len() - 1 - k],
        decreases i,
    {
        i -= 1;
        r.push(v[i]);
    }
    proof {
        assert(r@ =~= v@.reverse());
    }
    r
}

impl Corpus {
    /// `parent` contains `child`: a slot lies in the parent's slots; another node's slots
    /// all lie in the parent's slots.
    pub open spec fn contains_spec(&self, parent: u32, child: u32) -> bool {
        if child <= self.max_slot {
            match self.oslots_of(parent) {
                Some(ps) => ps.contains(child),
                None => false,
            }
        } else {
            &&& self.oslots_of(child) is Some
            &&& self.oslots_of(parent) is Some
            &&& forall|s: u32| #[trigger] self.oslots_of(child)->0.contains(s) ==> self.oslots_of(parent)->0.contains(s)
        }
    }

    /// Node `n` has one of the types `t` (any type when `t` is absent).
    pub open spec fn allowed(&self, n: u32, t: Option<Seq<Seq<char>>>) -> bool {
        match t {
            None => true,
            Some(ts) => match self.type_of(n) {
                Some(ty) => ts.contains(ty),
                None => false,
            },
        }
    }

    /// The nodes that embed `node`, of the types `t`.
    pub open spec fn up_set(&self, node: u32, t: Option<Seq<Seq<char>>>) -> Set<u32> {
        Set::new(|c: u32| self.max_slot < c <= self.max_node && c != node && self.contains_spec(c, node) && self.allowed(c, t))
    }

    /// The non-slot nodes that `node` embeds, of the types `t`.
    pub open spec fn down_set(&self, node: u32, t: Option<Seq<Seq<char>>>) -> Set<u32> {
        Set::new(|c: u32| self.max_slot < c <= self.max_node && c != node && self.contains_spec(node, c) && self.allowed(c, t))
    }

    /// The non-slot nodes other than `node` that share a slot with `slots`, of the types `t`.
    pub open spec fn meet_set(&self, node: u32, slots: Seq<u32>, t: Option<Seq<Seq<char>>>) -> Set<u32> {
        Set::new(|c: u32| self.max_slot < c <= self.max_node && c != node && self.allowed(c, t)
            && match self.oslots_of(c) {
                Some(cs) => exists|s: u32| cs.contains(s) && slots.contains(s),
                None => false,
            })
    }

    /// Whether `parent` contains `child`.
    pub fn contains(&self, parent: u32, child: u32) -> (r: bool)
        ensures
            r == self.contains_spec(parent, child),
    {
        if child <= self.max_slot {
            return match self.slots_of(parent) {
                Some(ps) => slice_has(ps, child),
                None => false,
            };
        }
        let cs = match self.slots_of(child) {
            Some(cs) => cs,
            None => return false,
        };
        let ps = match self.slots_of(parent) {
            Some(ps) => ps,
            None => return false,
        };
        let mut i: usize = 0;
        while i < cs.len()
            invariant
                0 <= i <= cs.len(),
                child > self.max_slot,
                self.oslots_of(child) == Some(cs@),
                self.oslots_of(parent) == Some(ps@),
                forall|k: int| 0 <= k < i ==> ps@.contains(#[trigger] cs@[k]),
            decreases cs.len() - i,
        {
            if !slice_has(ps, cs[i]) {
                proof {
                    assert(cs@.contains(cs@[i as int]));
                    assert(!ps@.contains(cs@[i as int]));
                    let w = cs@[i as int];
                    assert(self.oslots_of(child)->0 == cs@);
                    assert(self.oslots_of(parent)->0 == ps@);
                    assert(self.oslots_of(child)->0.contains(w));
                    assert(!self.oslots_of(parent)->0.contains(w));
                    assert(!self.contains_spec(parent, child));
                }
                return false;
            }
            i += 1;
        }
        proof {
            assert forall|s: u32| cs@.contains(s) implies ps@.contains(s) by {
                let k = choose|k: int| 0 <= k < cs@.len() && cs@[k] == s;
            }
        }
        true
    }

    /// Whether `node` has one of the types (any type when none are given).
    pub fn node_type_allowed(&self, node: u32, node_types: Option<&[&str]>) -> (r: bool)
        ensures
            r == self.allowed(node, opt_types(node_types)),
    {
        match node_types {
            None => true,
            Some(ts) => match self.node_type(node) {
                Some(ty) => {
                    let mut i: usize = 0;
                    while i < ts.len()
                        invariant
                            0 <= i <= ts.len(),
                            node_types == Some(ts),
                            self.type_of(node) == Some(ty@),
                            forall|k: int| 0 <= k < i ==> (#[trigger] ts@[k])@ != ty@,
                        decreases ts.len() - i,
                    {
                        if str_eq(ts[i], ty) {
                            proof {
                                assert(str_views(ts@)[i as int] == ty@);
                                assert(str_views(ts@).contains(ty@));
                            }
                            return true;
                        }
                        i += 1;
                    }
                    proof {
                        assert(!str_views(ts@).contains(ty@)) by {
                            if str_views(ts@).contains(ty@) {
                                let k = choose|k: int| 0 <= k < str_views(ts@).len() && str_views(ts@)[k] == ty@;
                                assert(ts@[k]@ == ty@);
                            }
                        }
                    }
                    false
                },
                None => false,
            },
        }
    }

    /// The nodes sorted into canonical order (rank; nodes beyond the table last).
    pub fn sort_nodes(&self, nodes: &mut Vec<u32>)
        ensures
            final(nodes)@.len() == old(nodes)@.len(),
            forall|x: u32| final(nodes)@.contains(x) <==> old(nodes)@.contains(x),
            old(nodes)@.no_duplicates() ==> final(nodes)@.no_duplicates(),
            rank_sorted(final(nodes)@, self.rank@, u32::MAX),
            final(nodes)@.to_multiset() == old(nodes)@.to_multiset(),
    {
        let sorted = sort_by_rank_table(nodes, &self.rank, u32::MAX);
        *nodes = sorted;
    }

    /// The nodes in canonical order.
    pub fn sorted_nodes(&self, nodes: Vec<u32>) -> (r: Vec<u32>)
        ensures
            r@.len() == nodes@.len(),
            forall|x: u32| r@.contains(x) <==> nodes@.contains(x),
            nodes@.no_duplicates() ==> r@.no_duplicates(),
            rank_sorted(r@, self.rank@, u32::MAX),
            r@.to_multiset() == nodes@.to_multiset(),
    {
        sort_by_rank_table(&nodes, &self.rank, u32::MAX)
    }

    /// The nodes in canonical order (camel-case name).
    #[allow(non_snake_case)]
    pub fn sortNodes(&self, nodes: Vec<u32>) -> (r: Vec<u32>)
        ensures
            r@.len() == nodes@.len(),
            forall|x: u32| r@.contains(x) <==> nodes@.contains(x),
            nodes@.no_duplicates() ==> r@.no_duplicates(),
            rank_sorted(r@, self.rank@, u32::MAX),
            r@.to_multiset() == nodes@.to_multiset(),
    {
        self.sorted_nodes(nodes)
    }

    /// The canonical order of all nodes.
    pub fn order(&self) -> (r: Vec<u32>)
        ensures
            r@ == self.order@,
    {
        self.order.clone()
    }

    /// The rank of every node (at index `node - 1`).
    pub fn rank(&self) -> (r: Vec<u32>)
        ensures
            r@ == self.rank@,
    {
        self.rank.clone()
    }

    /// All nodes `1..=max_node` in canonical order.
    pub fn all_nodes(&self) -> (r: Vec<u32>)
        ensures
            r@.len() == self.max_node,
            forall|x: u32| r@.contains(x) <==> 1 <= x <= self.max_node,
            r@.no_duplicates(),
            rank_sorted(r@, self.rank@, u32::MAX),
    {
        let mut v: Vec<u32> = Vec::new();
        let mut n: u64 = 1;
        while n <= self.max_node as u64
            invariant
                1 <= n <= self.max_node as u64 + 1,
                v@.len() == n - 1,
                forall|k: int| 0 <= k < v@.len() ==> #[trigger] v@[k] == k + 1,
            decreases self.max_node as u64 + 1 - n,
        {
            v.push(n as u32);
            n += 1;
        }
        proof {
            assert forall|x: u32| v@.contains(x) <==> 1 <= x <= self.max_node by {
                if 1 <= x <= self.max_node {
                    assert(v@[x - 1] == x);
                }
            }
            assert forall|a: int, b: int| 0 <= a < v@.len() && 0 <= b < v@.len() && a != b implies v@[a] != v@[b] by {}
        }
        self.sorted_nodes(v)
    }

    /// All nodes in canonical order (camel-case name).
    #[allow(non_snake_case)]
    pub fn allNodes(&self) -> (r: Vec<u32>)
        ensures
            r@.len() == self.max_node,
            forall|x: u32| r@.contains(x) <==> 1 <= x <= self.max_node,
            r@.no_duplicates(),
            rank_sorted(r@, self.rank@, u32::MAX),
    {
        self.all_nodes()
    }

    /// The given nodes in canonical order, or the canonical order of all nodes.
    pub fn walk(&self, nodes: Option<&[u32]>) -> (r: Vec<u32>)
        ensures
            match nodes {
                Some(ns) => r@.len() == ns@.len() && (forall|x: u32| r@.contains(x) <==> ns@.contains(x))
                    && (ns@.no_duplicates() ==> r@.no_duplicates()) && rank_sorted(r@, self.rank@, u32::MAX)
                    && r@.to_multiset() == ns@.to_multiset(),
                None => r@ == self.order@,
            },
    {
        match nodes {
            Some(ns) => self.sorted_nodes(copy_nodes(ns)),
            None => self.order(),
        }
    }

    /// The nodes that embed `node`, of the given types; outermost first.
    pub fn up_types(&self, node: u32, node_types: Option<&[&str]>) -> (r: Vec<u32>)
        ensures
            forall|x: u32| r@.contains(x) <==> self.up_set(node, opt_types(node_types)).contains(x),
            r@.no_duplicates(),
            rank_sorted_desc(r@, self.rank@, u32::MAX),
    {
        let ghost t = opt_types(node_types);
        let mut result: Vec<u32> = Vec::new();
        let mut c: u64 = self.max_slot as u64 + 1;
        while c <= self.max_node as u64
            invariant
                self.max_slot as u64 + 1 <= c <= self.max_node as u64 + 1 || (c == self.max_slot as u64 + 1),
                t == opt_types(node_types),
                result@.no_duplicates(),
                forall|k: int| 0 <= k < result@.len() ==> (#[trigger] result@[k]) < c,
                forall|x: u32| result@.contains(x) <==> (x < c && self.up_set(node, t).contains(x)),
            decreases self.max_node as u64 + 1 - c,
        {
            let cand = c as u32;
            if cand != node && self.contains(cand, node) && self.node_type_allowed(cand, node_types) {
                let ghost r0 = result@;
                result.push(cand);
                proof {
                    assert forall|a: int, b: int| 0 <= a < result@.len() && 0 <= b < result@.len() && a != b implies result@[a] != result@[b] by {
                        if a < r0.len() && b < r0.len() {
                        } else if a == r0.len() {
                            assert(r0[b] < c);
                        } else {
                            assert(r0[a] < c);
                        }
                    }
                    assert forall|x: u32| result@.contains(x) <==> (x < c + 1 && self.up_set(node, t).contains(x)) by {
                        crate::sorting::lemma_push_contains_pub(r0, cand, x);
                    }
                }
            } else {
                proof {
                    assert forall|x: u32| result@.contains(x) <==> (x < c + 1 && self.up_set(node, t).contains(x)) by {
                        if x == cand {
                            assert(!self.up_set(node, t).contains(x));
                        }
                    }
                }
            }
            c += 1;
        }
        let mut sorted = result;
        self.sort_nodes(&mut sorted);
        let r = reversed(sorted);
        proof {
            assert forall|x: u32| r@.contains(x) <==> sorted@.contains(x) by {
                if r@.contains(x) {
                    let k = choose|k: int| 0 <= k < r@.len() && r@[k] == x;
                    assert(sorted@[sorted@.len() - 1 - k] == x);
                }
                if sorted@.contains(x) {
                    let k = choose|k: int| 0 <= k < sorted@.len() && sorted@[k] == x;
                    assert(r@[sorted@.len() - 1 - k] == x);
                }
            }
            assert forall|x: u32| result@.contains(x) <==> self.up_set(node, t).contains(x) by {}
            assert forall|a: int, b: int| 0 <= a < r@.len() && 0 <= b < r@.len() && a != b implies r@[a] != r@[b] by {
                assert(sorted@[sorted@.len() - 1 - a] != sorted@[sorted@.len() - 1 - b]);
            }
            assert forall|a: int, b: int| 0 <= a <= b < r@.len() implies rank_at(self.rank@, #[trigger] r@[b], u32::MAX) <= rank_at(self.rank@, #[trigger] r@[a], u32::MAX) by {
                assert(r@[a] == sorted@[sorted@.len() - 1 - a]);
                assert(r@[b] == sorted@[sorted@.len() - 1 - b]);
            }
        }
        r
    }

    /// The embedding nodes of the given types (short name).
    pub fn u_types(&self, node: u32, node_types: Option<&[&str]>) -> (r: Vec<u32>)
        ensures
            forall|x: u32| r@.contains(x) <==> self.up_set(node, opt_types(node_types)).contains(x),
            r@.no_duplicates(),
            rank_sorted_desc(r@, self.rank@, u32::MAX),
    {
        self.up_types(node, node_types)
    }

    /// The nodes that embed `node`, of type `node_type` if given; outermost first.
    pub fn up(&self, node: u32, node_type: Option<&str>) -> (r: Vec<u32>)
        ensures
            forall|x: u32| r@.contains(x) <==> self.up_set(node, one_type(node_type)).contains(x),
            r@.no_duplicates(),
            rank_sorted_desc(r@, self.rank@, u32::MAX),
    {
        match node_type {
            Some(t) => {
                let arr = [t];
                proof {
                    assert(str_views(arr@) =~= seq![t@]);
                }
                self.up_types(node, Some(arr.as_slice()))
            },
            None => self.up_types(node, None),
        }
    }

    /// The embedding nodes (short name).
    pub fn u(&self, node: u32, node_type: Option<&str>) -> (r: Vec<u32>)
        ensures
            forall|x: u32| r@.contains(x) <==> self.up_set(node, one_type(node_type)).contains(x),
            r@.no_duplicates(),
            rank_sorted_desc(r@, self.rank@, u32::MAX),
    {
        self.up(node, node_type)
    }

    /// The slots of `node` (when the types slots_wanted slots) and the non-slot nodes it embeds,
    /// of the given types, in canonical order; empty when `node` has no stored slots.
    pub fn down_types(&self, node: u32, node_types: Option<&[&str]>) -> (r: Vec<u32>)
        ensures
            match self.oslots_of(node) {
                None => r@.len() == 0,
                Some(ss) => {
                    &&& forall|x: u32| #[trigger] r@.contains(x) <==> ((slot_type_admitted(self.slot_type@, opt_types(node_types)) && ss.contains(x))
                        || self.down_set(node, opt_types(node_types)).contains(x))
                    &&& rank_sorted(r@, self.rank@, u32::MAX)
                },
            },
    {
        let ghost t = opt_types(node_types);
        let slots = match self.slots_of(node) {
            Some(s) => s,
            None => return Vec::new(),
        };
        let mut result: Vec<u32> = Vec::new();
        let slots_wanted = match node_types {
            None => true,
            Some(ts) => types_have(ts, self.slot_type.as_str()),
        };
        if slots_wanted {
            result = copy_nodes(slots);
        }
        let ghost base = result@;
        let mut c: u64 = self.max_slot as u64 + 1;
        while c <= self.max_node as u64
            invariant
                self.max_slot as u64 + 1 <= c <= self.max_node as u64 + 1 || (c == self.max_slot as u64 + 1),
                t == opt_types(node_types),
                forall|x: u32| #[trigger] result@.contains(x) <==> (base.contains(x) || (x < c && self.down_set(node, t).contains(x))),
            decreases self.max_node as u64 + 1 - c,
        {
            let cand = c as u32;
            if cand != node && self.contains(node, cand) && self.node_type_allowed(cand, node_types) {
                let ghost r0 = result@;
                result.push(cand);
                proof {
                    assert forall|x: u32| #[trigger] result@.contains(x) <==> (base.contains(x) || (x < c + 1 && self.down_set(node, t).contains(x))) by {
                        crate::sorting::lemma_push_contains_pub(r0, cand, x);
                    }
                }
            } else {
                proof {
                    assert forall|x: u32| #[trigger] result@.contains(x) <==> (base.contains(x) || (x < c + 1 && self.down_set(node, t).contains(x))) by {
                        if x == cand {
                            assert(!self.down_set(node, t).contains(x));
                        }
                    }
                }
            }
            c += 1;
        }
        let mut sorted = result;
        self.sort_nodes(&mut sorted);
        proof {
            assert(slots_wanted == slot_type_admitted(self.slot_type@, t));
            assert forall|x: u32| sorted@.contains(x) <==> ((slot_type_admitted(self.slot_type@, t) && slots@.contains(x)) || self.down_set(node, t).contains(x)) by {
                assert(self.down_set(node, t).contains(x) ==> x < c);
            }
        }
        sorted
    }

    /// The embedded nodes of the given types (short name).
    pub fn d_types(&self, node: u32, node_types: Option<&[&str]>) -> (r: Vec<u32>)
        ensures
            match self.oslots_of(node) {
                None => r@.len() == 0,
                Some(ss) => {
                    &&& forall|x: u32| #[trigger] r@.contains(x) <==> ((slot_type_admitted(self.slot_type@, opt_types(node_types)) && ss.contains(x))
                        || self.down_set(node, opt_types(node_types)).contains(x))
                    &&& rank_sorted(r@, self.rank@, u32::MAX)
                },
            },
    {
        self.down_types(node, node_types)
    }

    /// The embedded nodes, of type `node_type` if given.
    pub fn down(&self, node: u32, node_type: Option<&str>) -> (r: Vec<u32>)
        ensures
            match self.oslots_of(node) {
                None => r@.len() == 0,
                Some(ss) => {
                    &&& forall|x: u32| #[trigger] r@.contains(x) <==> ((slot_type_admitted(self.slot_type@, one_type(node_type)) && ss.contains(x))
                        || self.down_set(node, one_type(node_type)).contains(x))
                    &&& rank_sorted(r@, self.rank@, u32::MAX)
                },
            },
    {
        match node_type {
            Some(t) => {
                let arr = [t];
                proof {
                    assert(str_views(arr@) =~= seq![t@]);
                }
                self.down_types(node, Some(arr.as_slice()))
            },
            None => self.down_types(node, None),
        }
    }

    /// The embedded nodes (short name).
    pub fn d(&self, node: u32, node_type: Option<&str>) -> (r: Vec<u32>)
        ensures
            match self.oslots_of(node) {
                None => r@.len() == 0,
                Some(ss) => {
                    &&& forall|x: u32| #[trigger] r@.contains(x) <==> ((slot_type_admitted(self.slot_type@, one_type(node_type)) && ss.contains(x))
                        || self.down_set(node, one_type(node_type)).contains(x))
                    &&& rank_sorted(r@, self.rank@, u32::MAX)
                },
            },
    {
        self.down(node, node_type)
    }

    /// The slots of `node` (when node 1's type is admitted) and the other non-slot nodes
    /// sharing a slot with it, of the given types; outermost first. Empty for slots and
    /// nodes outside the range.
    pub fn intersecting_types(&self, node: u32, node_types: Option<&[&str]>) -> (r: Vec<u32>)
        ensures
            node <= self.max_slot || node > self.max_node || self.slots_spec(node).len() == 0 ==> r@.len() == 0,
            !(node <= self.max_slot || node > self.max_node || self.slots_spec(node).len() == 0) ==> {
                &&& forall|x: u32| #[trigger] r@.contains(x) <==> ((self.allowed(1, opt_types(node_types)) && self.slots_spec(node).contains(x))
                    || self.meet_set(node, self.slots_spec(node), opt_types(node_types)).contains(x))
                &&& rank_sorted_desc(r@, self.rank@, u32::MAX)
            },
    {
        let ghost t = opt_types(node_types);
        if node <= self.max_slot || node > self.max_node {
            return Vec::new();
        }
        let slots = self.slots(node);
        if slots.len() == 0 {
            return Vec::new();
        }
        let mut result: Vec<u32> = Vec::new();
        if self.node_type_allowed(1, node_types) {
            result = copy_nodes(slots.as_slice());
        }
        let ghost base = result@;
        let mut c: u64 = self.max_slot as u64 + 1;
        while c <= self.max_node as u64
            invariant
                self.max_slot as u64 + 1 <= c <= self.max_node as u64 + 1 || (c == self.max_slot as u64 + 1),
                t == opt_types(node_types),
                slots@ == self.slots_spec(node),
                forall|x: u32| #[trigger] result@.contains(x) <==> (base.contains(x) || (x < c && self.meet_set(node, slots@, t).contains(x))),
            decreases self.max_node as u64 + 1 - c,
        {
            let cand = c as u32;
            let mut hit = false;
            if cand != node && self.node_type_allowed(cand, node_types) {
                match self.slots_of(cand) {
                    Some(cs) => {
                        let mut k: usize = 0;
                        while k < cs.len() && !hit
                            invariant
                                0 <= k <= cs.len(),
                                hit ==> exists|s: u32| cs@.contains(s) && slots@.contains(s),
                                !hit ==> forall|q: int| 0 <= q < k ==> !slots@.contains(#[trigger] cs@[q]),
                            decreases cs.len() - k + (if hit { 0int } else { 1int }),
                        {
                            if vec_contains(&slots, cs[k]) {
                                proof {
                                    assert(cs@.contains(cs@[k as int]));
                                }
                                hit = true;
                            } else {
                                k += 1;
                            }
                        }
                        proof {
                            if !hit {
                                assert forall|s: u32| cs@.contains(s) implies !slots@.contains(s) by {
                                    let q = choose|q: int| 0 <= q < cs@.len() && cs@[q] == s;
                                }
                            }
                        }
                    },
                    None => {},
                }
            }
            proof {
                assert(hit == self.meet_set(node, slots@, t).contains(cand));
            }
            if hit {
                let ghost r0 = result@;
                result.push(cand);
                proof {
                    assert forall|x: u32| #[trigger] result@.contains(x) <==> (base.contains(x) || (x < c + 1 && self.meet_set(node, slots@, t).contains(x))) by {
                        crate::sorting::lemma_push_contains_pub(r0, cand, x);
                    }
                }
            } else {
                proof {
                    assert forall|x: u32| #[trigger] result@.contains(x) <==> (base.contains(x) || (x < c + 1 && self.meet_set(node, slots@, t).contains(x))) by {
                        if x == cand {
                            assert(!self.meet_set(node, slots@, t).contains(x));
                        }
                    }
                }
            }
            c += 1;
        }
        let mut sorted = result;
        self.sort_nodes(&mut sorted);
        let r = reversed(sorted);
        proof {
            assert forall|x: u32| r@.contains(x) <==> sorted@.contains(x) by {
                if r@.contains(x) {
                    let k = choose|k: int| 0 <= k < r@.len() && r@[k] == x;
                    assert(sorted@[sorted@.len() - 1 - k] == x);
                }
                if sorted@.contains(x) {
                    let k = choose|k: int| 0 <= k < sorted@.len() && sorted@[k] == x;
                    assert(r@[sorted@.len() - 1 - k] == x);
                }
            }
            assert forall|x: u32| r@.contains(x) <==> ((self.allowed(1, t) && self.slots_spec(node).contains(x)) || self.meet_set(node, self.slots_spec(node), t).contains(x)) by {
                assert(self.meet_set(node, slots@, t).contains(x) ==> x < c);
            }
            assert forall|a: int, b: int| 0 <= a <= b < r@.len() implies rank_at(self.rank@, #[trigger] r@[b], u32::MAX) <= rank_at(self.rank@, #[trigger] r@[a], u32::MAX) by {
                assert(r@[a] == sorted@[sorted@.len() - 1 - a]);
                assert(r@[b] == sorted@[sorted@.len() - 1 - b]);
            }
        }
        r
    }

    /// The intersecting nodes, of type `node_type` if given.
    pub fn intersecting(&self, node: u32, node_type: Option<&str>) -> (r: Vec<u32>)
        ensures
            node <= self.max_slot || node > self.max_node || self.slots_spec(node).len() == 0 ==> r@.len() == 0,
            !(node <= self.max_slot || node > self.max_node || self.slots_spec(node).len() == 0) ==> {
                &&& forall|x: u32| #[trigger] r@.contains(x) <==> ((self.allowed(1, one_type(node_type)) && self.slots_spec(node).contains(x))
                    || self.meet_set(node, self.slots_spec(node), one_type(node_type)).contains(x))
                &&& rank_sorted_desc(r@, self.rank@, u32::MAX)
            },
    {
        match node_type {
            Some(t) => {
                let arr = [t];
                proof {
                    assert(str_views(arr@) =~= seq![t@]);
                }
                self.intersecting_types(node, Some(arr.as_slice()))
            },
            None => self.intersecting_types(node, None),
        }
    }

    /// The intersecting nodes (short name).
    pub fn i(&self, node: u32, node_type: Option<&str>) -> (r: Vec<u32>)
        ensures
            node <= self.max_slot || node > self.max_node || self.slots_spec(node).len() == 0 ==> r@.len() == 0,
            !(node <= self.max_slot || node > self.max_node || self.slots_spec(node).len() == 0) ==> {
                &&& forall|x: u32| #[trigger] r@.contains(x) <==> ((self.allowed(1, one_type(node_type)) && self.slots_spec(node).contains(x))
                    || self.meet_set(node, self.slots_spec(node), one_type(node_type)).contains(x))
                &&& rank_sorted_desc(r@, self.rank@, u32::MAX)
            },
    {
        self.intersecting(node, node_type)
    }
}

/// The type list of one optional type.
pub open spec fn one_type(t: Option<&str>) -> Option<Seq<Seq<char>>> {
    match t {
        Some(x) => Some(seq![x@]),
        None => None,
    }
}

/// The slot type passes the type filter.
pub open spec fn slot_type_admitted(slot_type: Seq<char>, t: Option<Seq<Seq<char>>>) -> bool {
    match t {
        None => true,
        Some(ts) => ts.contains(slot_type),
    }
}

/// Whether the type list holds `ty`.
pub fn types_have(ts: &[&str], ty: &str) -> (r: bool)
    ensures
        r == str_views(ts@).contains(ty@),
{
    let mut i: usize = 0;
    while i < ts.len()
        invariant
            0 <= i <= ts.len(),
            forall|k: int| 0 <= k < i ==> (#[trigger] ts@[k])@ != ty@,
        decreases ts.len() - i,
    {
        if str_eq(ts[i], ty) {
            proof {
                assert(str_views(ts@)[i as int] == ty@);
                assert(str_views(ts@).contains(ty@));
            }
            return true;
        }
        i += 1;
    }
    proof {
        if str_views(ts@).contains(ty@) {
            let k = choose|k: int| 0 <= k < str_views(ts@).len() && str_views(ts@)[k] == ty@;
            assert(ts@[k]@ == ty@);
        }
    }
    false
}

/// Whether `s` holds `x`.
pub fn slice_has(s: &[u32], x: u32) -> (r: bool)
    ensures
        r == s@.contains(x),
{
    let mut i: usize = 0;
    while i < s.len()
        invariant
            0 <= i <= s.len(),
            forall|k: int| 0 <= k < i ==> s@[k] != x,
        decreases s.len() - i,
    {
        if s[i] == x {
            proof {
                assert(s@[i as int] == x);
            }
            return true;
        }
        i += 1;
    }
    false
}

} // verus!

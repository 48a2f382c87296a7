//! The slot boundaries of the nodes of a corpus, the nodes next to and before a node,
//! walking the corpus, and sort keys.

use vstd::prelude::*;
use crate::corpus::Corpus;
use crate::corpus_nav::{opt_types, one_type, rank_at, rank_sorted, rank_sorted_desc, reversed, sort_by_rank_table};
use crate::corpus_types::{Boundary, Chunk, ChunkLengthKey, ChunkPositionKey, WalkEvent};
use crate::corpus_info::str_views;

verus! {

broadcast use vstd::seq_lib::group_to_multiset_ensures;

impl Corpus {
    /// The first stored slot of `n`.
    pub open spec fn first_slot(&self, n: u32) -> Option<u32> {
        match self.oslots_of(n) {
            Some(s) => if s.len() > 0 { Some(s[0]) } else { None },
            None => None,
        }
    }

    /// The last stored slot of `n`.
    pub open spec fn last_slot(&self, n: u32) -> Option<u32> {
        match self.oslots_of(n) {
            Some(s) => if s.len() > 0 { Some(s.last()) } else { None },
            None => None,
        }
    }

    /// The non-slot nodes whose first slot is `s`.
    pub open spec fn starting(&self, s: u32) -> Set<u32> {
        Set::new(|n: u32| self.max_slot < n <= self.max_node && self.first_slot(n) == Some(s))
    }

    /// The non-slot nodes whose last slot is `s`.
    pub open spec fn ending(&self, s: u32) -> Set<u32> {
        Set::new(|n: u32| self.max_slot < n <= self.max_node && self.last_slot(n) == Some(s))
    }

    /// The boundary lists of the slots.
    pub open spec fn boundary_ok(&self, b: Boundary) -> bool {
        &&& b.first_slots@.len() == self.max_slot
        &&& b.last_slots@.len() == self.max_slot
        &&& forall|k: int| 0 <= k < self.max_slot ==> {
            &&& forall|x: u32| #[trigger] b.first_slots@[k]@.contains(x) <==> self.starting((k + 1) as u32).contains(x)
            &&& b.first_slots@[k]@.no_duplicates()
            &&& rank_sorted_desc(b.first_slots@[k]@, self.rank@, 0)
            &&& forall|x: u32| #[trigger] b.last_slots@[k]@.contains(x) <==> self.ending((k + 1) as u32).contains(x)
            &&& b.last_slots@[k]@.no_duplicates()
            &&& rank_sorted(b.last_slots@[k]@, self.rank@, u32::MAX)
        }
    }

    fn first_last(&self, n: u32) -> (r: (Option<u32>, Option<u32>))
        ensures
            r.0 == self.first_slot(n),
            r.1 == self.last_slot(n),
    {
        match self.slots_of(n) {
            Some(s) => if s.len() > 0 {
                (Some(s[0]), Some(s[s.len() - 1]))
            } else {
                (None, None)
            },
            None => (None, None),
        }
    }

    /// The non-slot nodes starting at slot `s`, in descending rank.
    pub fn starting_at(&self, s: u32) -> (r: Vec<u32>)
        ensures
            forall|x: u32| #[trigger] r@.contains(x) <==> self.starting(s).contains(x),
            r@.no_duplicates(),
            rank_sorted_desc(r@, self.rank@, 0),
    {
        let mut found: Vec<u32> = Vec::new();
        let mut c: u64 = self.max_slot as u64 + 1;
        while c <= self.max_node as u64
            invariant
                self.max_slot as u64 + 1 <= c <= self.max_node as u64 + 1 || c == self.max_slot as u64 + 1,
                found@.no_duplicates(),
                forall|k: int| 0 <= k < found@.len() ==> (#[trigger] found@[k]) < c,
                forall|x: u32| #[trigger] found@.contains(x) <==> (x < c && self.starting(s).contains(x)),
            decreases self.max_node as u64 + 1 - c,
        {
            let n = c as u32;
            let fl = self.first_last(n);
            let ghost f0 = found@;
            if fl.0 == Some(s) {
                found.push(n);
                proof {
                    assert forall|a: int, b: int| 0 <= a < found@.len() && 0 <= b < found@.len() && a != b implies found@[a] != found@[b] by {
                        if a < f0.len() && b < f0.len() {
                        } else if a == f0.len() {
                            assert(f0[b] < c);
                        } else {
                            assert(f0[a] < c);
                        }
                    }
                    assert forall|x: u32| #[trigger] found@.contains(x) <==> (x < c + 1 && self.starting(s).contains(x)) by {
                        crate::sorting::lemma_push_contains_pub(f0, n, x);
                    }
                }
            } else {
                proof {
                    assert forall|x: u32| #[trigger] found@.contains(x) <==> (x < c + 1 && self.starting(s).contains(x)) by {
                        if x == n {
                            assert(!self.starting(s).contains(x));
                        }
                    }
                }
            }
            c += 1;
        }
        let asc = sort_by_rank_table(&found, &self.rank, 0);
        let r = reversed(asc);
        proof {
            assert forall|x: u32| #[trigger] r@.contains(x) <==> self.starting(s).contains(x) by {
                if r@.contains(x) {
                    let k = choose|k: int| 0 <= k < r@.len() && r@[k] == x;
                    assert(asc@[asc@.len() - 1 - k] == x);
                    assert(asc@.contains(x));
                }
                if self.starting(s).contains(x) {
                    assert(found@.contains(x));
                    assert(asc@.contains(x));
                    let k = choose|k: int| 0 <= k < asc@.len() && asc@[k] == x;
                    assert(r@[asc@.len() - 1 - k] == x);
                }
            }
            assert forall|a: int, b: int| 0 <= a < r@.len() && 0 <= b < r@.len() && a != b implies r@[a] != r@[b] by {
                assert(asc@[asc@.len() - 1 - a] != asc@[asc@.len() - 1 - b]);
            }
            assert forall|a: int, b: int| 0 <= a <= b < r@.len() implies rank_at(self.rank@, #[trigger] r@[b], 0) <= rank_at(self.rank@, #[trigger] r@[a], 0) by {
                assert(r@[a] == asc@[asc@.len() - 1 - a]);
                assert(r@[b] == asc@[asc@.len() - 1 - b]);
            }
        }
        r
    }

    /// The non-slot nodes ending at slot `s`, in ascending rank.
    pub fn ending_at(&self, s: u32) -> (r: Vec<u32>)
        ensures
            forall|x: u32| #[trigger] r@.contains(x) <==> self.ending(s).contains(x),
            r@.no_duplicates(),
            rank_sorted(r@, self.rank@, u32::MAX),
    {
        let mut found: Vec<u32> = Vec::new();
        let mut c: u64 = self.max_slot as u64 + 1;
        while c <= self.max_node as u64
            invariant
                self.max_slot as u64 + 1 <= c <= self.max_node as u64 + 1 || c == self.max_slot as u64 + 1,
                found@.no_duplicates(),
                forall|k: int| 0 <= k < found@.len() ==> (#[trigger] found@[k]) < c,
                forall|x: u32| #[trigger] found@.contains(x) <==> (x < c && self.ending(s).contains(x)),
            decreases self.max_node as u64 + 1 - c,
        {
            let n = c as u32;
            let fl = self.first_last(n);
            let ghost f0 = found@;
            if fl.1 == Some(s) {
                found.push(n);
                proof {
                    assert forall|a: int, b: int| 0 <= a < found@.len() && 0 <= b < found@.len() && a != b implies found@[a] != found@[b] by {
                        if a < f0.len() && b < f0.len() {
                        } else if a == f0.len() {
                            assert(f0[b] < c);
                        } else {
                            assert(f0[a] < c);
                        }
                    }
                    assert forall|x: u32| #[trigger] found@.contains(x) <==> (x < c + 1 && self.ending(s).contains(x)) by {
                        crate::sorting::lemma_push_contains_pub(f0, n, x);
                    }
                }
            } else {
                proof {
                    assert forall|x: u32| #[trigger] found@.contains(x) <==> (x < c + 1 && self.ending(s).contains(x)) by {
                        if x == n {
                            assert(!self.ending(s).contains(x));
                        }
                    }
                }
            }
            c += 1;
        }
        sort_by_rank_table(&found, &self.rank, u32::MAX)
    }

    /// For every slot, the non-slot nodes starting and ending there.
    pub fn boundary(&self) -> (r: Boundary)
        ensures
            self.boundary_ok(r),
    {
        let mut first: Vec<Vec<u32>> = Vec::new();
        let mut last: Vec<Vec<u32>> = Vec::new();
        let mut s: u64 = 1;
        while s <= self.max_slot as u64
            invariant
                1 <= s <= self.max_slot as u64 + 1,
                first@.len() == s - 1,
                last@.len() == s - 1,
                forall|k: int| 0 <= k < s - 1 ==> {
                    &&& forall|x: u32| #[trigger] first@[k]@.contains(x) <==> self.starting((k + 1) as u32).contains(x)
                    &&& first@[k]@.no_duplicates()
                    &&& rank_sorted_desc(first@[k]@, self.rank@, 0)
                    &&& forall|x: u32| #[trigger] last@[k]@.contains(x) <==> self.ending((k + 1) as u32).contains(x)
                    &&& last@[k]@.no_duplicates()
                    &&& rank_sorted(last@[k]@, self.rank@, u32::MAX)
                },
            decreases self.max_slot as u64 + 1 - s,
        {
            first.push(self.starting_at(s as u32));
            last.push(self.ending_at(s as u32));
            s += 1;
        }
        Boundary { first_slots: first, last_slots: last }
    }

    /// The slot after (`forward`) or before `node`: next to a slot, or beyond the last,
    /// resp. first, stored slot of another node.
    pub open spec fn adjacent_spec(&self, node: u32, forward: bool) -> Option<u32> {
        if node <= self.max_slot {
            if forward {
                if node < u32::MAX { Some((node + 1) as u32) } else { None }
            } else {
                if node > 0 { Some((node - 1) as u32) } else { None }
            }
        } else if forward {
            match self.last_slot(node) {
                Some(l) => if l < u32::MAX { Some((l + 1) as u32) } else { None },
                None => None,
            }
        } else {
            match self.first_slot(node) {
                Some(f) => if f > 0 { Some((f - 1) as u32) } else { None },
                None => None,
            }
        }
    }

    fn adjacent_slot(&self, node: u32, forward: bool) -> (r: Option<u32>)
        ensures
            r == self.adjacent_spec(node, forward),
    {
        if node <= self.max_slot {
            return if forward { node.checked_add(1) } else { node.checked_sub(1) };
        }
        let fl = self.first_last(node);
        if forward {
            match fl.1 {
                Some(l) => l.checked_add(1),
                None => None,
            }
        } else {
            match fl.0 {
                Some(f) => f.checked_sub(1),
                None => None,
            }
        }
    }

    /// The nodes of `nodes` that have one of the types (all of them without types).
    fn filter_locality_nodes(&self, nodes: Vec<u32>, node_types: Option<&[&str]>) -> (r: Vec<u32>)
        ensures
            r@ == nodes@.filter(|n: u32| self.allowed(n, opt_types(node_types))),
    {
        let ghost p = |n: u32| self.allowed(n, opt_types(node_types));
        if node_types.is_none() {
            proof {
                lemma_filter_all(nodes@, p);
            }
            return nodes;
        }
        let mut r: Vec<u32> = Vec::new();
        let mut i: usize = 0;
        while i < nodes.len()
            invariant
                0 <= i <= nodes.len(),
                p == (|n: u32| self.allowed(n, opt_types(node_types))),
                r@ == nodes@.take(i as int).filter(p),
            decreases nodes.len() - i,
        {
            proof {
                assert(nodes@.take(i + 1) == nodes@.take(i as int).push(nodes@[i as int]));
                nodes@.take(i as int).lemma_filter_push(nodes@[i as int], p);
            }
            if self.node_type_allowed(nodes[i], node_types) {
                r.push(nodes[i]);
            }
            i += 1;
        }
        proof {
            assert(nodes@.take(nodes@.len() as int) == nodes@);
        }
        r
    }

    /// What comes right after `node`: the next slot and the nodes starting there, of the
    /// given types; empty at the end of the corpus and outside the node range.
    pub open spec fn next_spec(&self, node: u32, t: Option<Seq<Seq<char>>>, starts: Seq<u32>) -> Seq<u32> {
        (seq![self.adjacent_spec(node, true)->0] + starts).filter(|n: u32| self.allowed(n, t))
    }

    /// The next slot and the nodes starting there, of the given types; outer nodes first.
    pub fn next_types(&self, node: u32, node_types: Option<&[&str]>) -> (r: Vec<u32>)
        ensures
            (node == 0 || node == self.max_slot || node > self.max_node || self.adjacent_spec(node, true) is None
                || self.adjacent_spec(node, true)->0 > self.max_slot) ==> r@.len() == 0,
            !(node == 0 || node == self.max_slot || node > self.max_node || self.adjacent_spec(node, true) is None
                || self.adjacent_spec(node, true)->0 > self.max_slot) ==> exists|st: Seq<u32>| {
                &&& (forall|x: u32| #[trigger] st.contains(x) <==> self.starting(self.adjacent_spec(node, true)->0).contains(x))
                &&& st.no_duplicates()
                &&& rank_sorted_desc(st, self.rank@, 0)
                &&& r@ == self.next_spec(node, opt_types(node_types), st)
            },
    {
        if node == 0 || node == self.max_slot || node > self.max_node {
            return Vec::new();
        }
        let ns = match self.adjacent_slot(node, true) {
            Some(s) => s,
            None => return Vec::new(),
        };
        if ns > self.max_slot {
            return Vec::new();
        }
        let starts = self.starting_at(ns);
        let mut all: Vec<u32> = Vec::new();
        all.push(ns);
        let mut i: usize = 0;
        while i < starts.len()
            invariant
                0 <= i <= starts.len(),
                all@ == seq![ns] + starts@.take(i as int),
            decreases starts.len() - i,
        {
            all.push(starts[i]);
            i += 1;
            proof {
                assert(all@ =~= seq![ns] + starts@.take(i as int));
            }
        }
        proof {
            assert(starts@.take(starts@.len() as int) =~= starts@);
        }
        let r = self.filter_locality_nodes(all, node_types);
        proof {
            assert(r@ == self.next_spec(node, opt_types(node_types), starts@));
        }
        r
    }

    /// What comes right after `node`, of type `node_type` if given.
    pub fn next(&self, node: u32, node_type: Option<&str>) -> (r: Vec<u32>)
        ensures
            (node == 0 || node == self.max_slot || node > self.max_node || self.adjacent_spec(node, true) is None
                || self.adjacent_spec(node, true)->0 > self.max_slot) ==> r@.len() == 0,
            !(node == 0 || node == self.max_slot || node > self.max_node || self.adjacent_spec(node, true) is None
                || self.adjacent_spec(node, true)->0 > self.max_slot) ==> exists|st: Seq<u32>| {
                &&& (forall|x: u32| #[trigger] st.contains(x) <==> self.starting(self.adjacent_spec(node, true)->0).contains(x))
                &&& st.no_duplicates()
                &&& rank_sorted_desc(st, self.rank@, 0)
                &&& r@ == self.next_spec(node, one_type(node_type), st)
            },
    {
        match node_type {
            Some(t) => {
                let arr = [t];
                proof {
                    assert(str_views(arr@) =~= seq![t@]);
                }
                self.next_types(node, Some(arr.as_slice()))
            },
            None => self.next_types(node, None),
        }
    }

    /// What comes right after `node` (short name).
    pub fn n(&self, node: u32, node_type: Option<&str>) -> (r: Vec<u32>)
        ensures
            (node == 0 || node == self.max_slot || node > self.max_node || self.adjacent_spec(node, true) is None
                || self.adjacent_spec(node, true)->0 > self.max_slot) ==> r@.len() == 0,
            !(node == 0 || node == self.max_slot || node > self.max_node || self.adjacent_spec(node, true) is None
                || self.adjacent_spec(node, true)->0 > self.max_slot) ==> exists|st: Seq<u32>| {
                &&& (forall|x: u32| #[trigger] st.contains(x) <==> self.starting(self.adjacent_spec(node, true)->0).contains(x))
                &&& st.no_duplicates()
                &&& rank_sorted_desc(st, self.rank@, 0)
                &&& r@ == self.next_spec(node, one_type(node_type), st)
            },
    {
        self.next(node, node_type)
    }

    /// What comes right before `node`: the nodes ending at the previous slot and that
    /// slot, of the given types.
    pub open spec fn previous_spec(&self, node: u32, t: Option<Seq<Seq<char>>>, ends: Seq<u32>) -> Seq<u32> {
        (ends + seq![self.adjacent_spec(node, false)->0]).filter(|n: u32| self.allowed(n, t))
    }

    /// The nodes ending right before `node` and the slot before it, of the given types.
    pub fn previous_types(&self, node: u32, node_types: Option<&[&str]>) -> (r: Vec<u32>)
        ensures
            (node <= 1 || node > self.max_node || self.adjacent_spec(node, false) is None || self.adjacent_spec(node, false)->0 == 0) ==> r@.len() == 0,
            !(node <= 1 || node > self.max_node || self.adjacent_spec(node, false) is None || self.adjacent_spec(node, false)->0 == 0) ==> exists|en: Seq<u32>| {
                &&& (self.adjacent_spec(node, false)->0 <= self.max_slot ==> forall|x: u32| #[trigger] en.contains(x) <==> self.ending(self.adjacent_spec(node, false)->0).contains(x))
                &&& (self.adjacent_spec(node, false)->0 > self.max_slot ==> en.len() == 0)
                &&& en.no_duplicates()
                &&& rank_sorted(en, self.rank@, u32::MAX)
                &&& r@ == self.previous_spec(node, opt_types(node_types), en)
            },
    {
        if node <= 1 || node > self.max_node {
            return Vec::new();
        }
        let ps = match self.adjacent_slot(node, false) {
            Some(s) => s,
            None => return Vec::new(),
        };
        if ps == 0 {
            return Vec::new();
        }
        let mut all: Vec<u32> = if ps <= self.max_slot { self.ending_at(ps) } else { Vec::new() };
        let ghost en = all@;
        all.push(ps);
        proof {
            assert(all@ =~= en + seq![ps]);
        }
        let r = self.filter_locality_nodes(all, node_types);
        proof {
            assert(r@ == self.previous_spec(node, opt_types(node_types), en));
        }
        r
    }

    /// What comes right before `node`, of type `node_type` if given.
    pub fn previous(&self, node: u32, node_type: Option<&str>) -> (r: Vec<u32>)
        ensures
            (node <= 1 || node > self.max_node || self.adjacent_spec(node, false) is None || self.adjacent_spec(node, false)->0 == 0) ==> r@.len() == 0,
            !(node <= 1 || node > self.max_node || self.adjacent_spec(node, false) is None || self.adjacent_spec(node, false)->0 == 0) ==> exists|en: Seq<u32>| {
                &&& (self.adjacent_spec(node, false)->0 <= self.max_slot ==> forall|x: u32| #[trigger] en.contains(x) <==> self.ending(self.adjacent_spec(node, false)->0).contains(x))
                &&& (self.adjacent_spec(node, false)->0 > self.max_slot ==> en.len() == 0)
                &&& en.no_duplicates()
                &&& rank_sorted(en, self.rank@, u32::MAX)
                &&& r@ == self.previous_spec(node, one_type(node_type), en)
            },
    {
        match node_type {
            Some(t) => {
                let arr = [t];
                proof {
                    assert(str_views(arr@) =~= seq![t@]);
                }
                self.previous_types(node, Some(arr.as_slice()))
            },
            None => self.previous_types(node, None),
        }
    }

    /// What comes right before `node` (short name).
    pub fn p(&self, node: u32, node_type: Option<&str>) -> (r: Vec<u32>)
        ensures
            (node <= 1 || node > self.max_node || self.adjacent_spec(node, false) is None || self.adjacent_spec(node, false)->0 == 0) ==> r@.len() == 0,
            !(node <= 1 || node > self.max_node || self.adjacent_spec(node, false) is None || self.adjacent_spec(node, false)->0 == 0) ==> exists|en: Seq<u32>| {
                &&& (self.adjacent_spec(node, false)->0 <= self.max_slot ==> forall|x: u32| #[trigger] en.contains(x) <==> self.ending(self.adjacent_spec(node, false)->0).contains(x))
                &&& (self.adjacent_spec(node, false)->0 > self.max_slot ==> en.len() == 0)
                &&& en.no_duplicates()
                &&& rank_sorted(en, self.rank@, u32::MAX)
                &&& r@ == self.previous_spec(node, one_type(node_type), en)
            },
    {
        self.previous(node, node_type)
    }
}

proof fn lemma_filter_all(s: Seq<u32>, p: spec_fn(u32) -> bool)
    requires
        forall|x: u32| #[trigger] p(x),
    ensures
        s.filter(p) == s,
    decreases s.len(),
{
    if s.len() > 0 {
        lemma_filter_all(s.drop_last(), p);
        s.drop_last().lemma_filter_push(s.last(), p);
        assert(s.drop_last().push(s.last()) =~= s);
    } else {
        assert(s.filter(p) =~= s);
    }
}

/// The events of one walked node: a slot with the nodes ending there (those in `keep`,
/// latest first), or the start of another node.
pub open spec fn node_events(c: Corpus, b: Boundary, keep: Option<Seq<u32>>, n: u32) -> Seq<WalkEvent> {
    if c.type_of(n) == Some(c.slot_type@) {
        let ends = if 1 <= n && n - 1 < b.last_slots@.len() { b.last_slots@[n - 1]@ } else { seq![] };
        seq![WalkEvent::Slot(n)] + ends.reverse().filter(|e: u32| match keep {
            Some(k) => k.contains(e),
            None => true,
        }).map_values(|e: u32| WalkEvent::End(e))
    } else {
        seq![WalkEvent::Start(n)]
    }
}

/// The events of a walk.
pub open spec fn walk_events_spec(c: Corpus, b: Boundary, keep: Option<Seq<u32>>, ws: Seq<u32>) -> Seq<WalkEvent>
    decreases ws.len(),
{
    if ws.len() == 0 {
        seq![]
    } else {
        walk_events_spec(c, b, keep, ws.drop_last()) + node_events(c, b, keep, ws.last())
    }
}

pub open spec fn opt_nodes(o: Option<&[u32]>) -> Option<Seq<u32>> {
    match o {
        Some(v) => Some(v@),
        None => None,
    }
}

impl Corpus {
    /// The walk of `nodes` (all nodes without a list) as events: each slot, followed by
    /// the walked nodes that end there, latest first; each other node as its start.
    pub fn walk_events(&self, nodes: Option<&[u32]>) -> (r: Vec<WalkEvent>)
        ensures
            exists|b: Boundary, ws: Seq<u32>| {
                &&& self.boundary_ok(b)
                &&& match nodes {
                    Some(ns) => ws.len() == ns@.len() && (forall|x: u32| #[trigger] ws.contains(x) <==> ns@.contains(x)) && rank_sorted(ws, self.rank@, u32::MAX),
                    None => ws == self.order@,
                }
                &&& r@ == walk_events_spec(*self, b, opt_nodes(nodes), ws)
            },
    {
        let ws = self.walk(nodes);
        let b = self.boundary();
        let ghost keep = opt_nodes(nodes);
        let mut events: Vec<WalkEvent> = Vec::new();
        let mut i: usize = 0;
        while i < ws.len()
            invariant
                0 <= i <= ws.len(),
                keep == opt_nodes(nodes),
                events@ == walk_events_spec(*self, b, keep, ws@.take(i as int)),
            decreases ws.len() - i,
        {
            let node = ws[i];
            let ghost e0 = events@;
            proof {
                assert(ws@.take(i + 1).drop_last() =~= ws@.take(i as int));
            }
            let is_slot = match self.node_type(node) {
                Some(t) => crate::strs::str_eq(t, self.slot_type.as_str()),
                None => false,
            };
            if is_slot {
                events.push(WalkEvent::Slot(node));
                let ends: Vec<u32> = if 1 <= node && ((node - 1) as usize) < b.last_slots.len() {
                    crate::sorting::copy_nodes(b.last_slots[(node - 1) as usize].as_slice())
                } else {
                    Vec::new()
                };
                let ghost p = |e: u32| match keep {
                    Some(k) => k.contains(e),
                    None => true,
                };
                let ghost mid = events@;
                let mut k: usize = ends.len();
                while k > 0
                    invariant
                        0 <= k <= ends.len(),
                        keep == opt_nodes(nodes),
                        p == (|e: u32| match keep {
                            Some(k) => k.contains(e),
                            None => true,
                        }),
                        events@ == mid + ends@.reverse().take(ends.len() - k).filter(p).map_values(|e: u32| WalkEvent::End(e)),
                    decreases k,
                {
                    k -= 1;
                    let e = ends[k];
                    proof {
                        assert(ends@.reverse().take(ends.len() - k) =~= ends@.reverse().take(ends.len() - k - 1).push(e));
                        ends@.reverse().take(ends.len() - k - 1).lemma_filter_push(e, p);
                    }
                    let wanted = match nodes {
                        Some(ns) => crate::corpus_nav::slice_has(ns, e),
                        None => true,
                    };
                    if wanted {
                        events.push(WalkEvent::End(e));
                    }
                    proof {
                        assert(events@ =~= mid + ends@.reverse().take(ends.len() - k).filter(p).map_values(|e: u32| WalkEvent::End(e)));
                    }
                }
                proof {
                    assert(ends@.reverse().take(ends.len() as int) =~= ends@.reverse());
                    assert(events@ =~= e0 + node_events(*self, b, keep, node));
                }
            } else {
                events.push(WalkEvent::Start(node));
                proof {
                    assert(events@ =~= e0 + node_events(*self, b, keep, node));
                }
            }
            i += 1;
        }
        proof {
            assert(ws@.take(ws@.len() as int) =~= ws@);
        }
        events
    }

    /// The walk as events (camel-case name).
    #[allow(non_snake_case)]
    pub fn walkEvents(&self, nodes: Option<&[u32]>) -> (r: Vec<WalkEvent>)
        ensures
            exists|b: Boundary, ws: Seq<u32>| {
                &&& self.boundary_ok(b)
                &&& match nodes {
                    Some(ns) => ws.len() == ns@.len() && (forall|x: u32| #[trigger] ws.contains(x) <==> ns@.contains(x)) && rank_sorted(ws, self.rank@, u32::MAX),
                    None => ws == self.order@,
                }
                &&& r@ == walk_events_spec(*self, b, opt_nodes(nodes), ws)
            },
    {
        self.walk_events(nodes)
    }
}

} // verus!

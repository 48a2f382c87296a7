//! The levels of a corpus (its node types with their node ranges, highest type rank
//! first) and, per feature, the node types it applies to.

use vstd::prelude::*;
use crate::corpus::{find_named, named_get, Corpus};
use crate::feature::{fv_at, map_keys, tg_at, EdgeFeature, NodeFeature};
use crate::strs::{copy_string, views};
use crate::edge_tables::min_usize;
use crate::value::FeatureValue;

verus! {

broadcast use vstd::std_specs::hash::group_hash_axioms;

/// A level: a node type, its first and last node, and its type rank.
pub type LevelView = (Seq<char>, u32, u32, u32);

/// The position where a level of rank `r` goes among levels ordered by descending
/// rank: before the first of lower rank.
pub open spec fn first_lower(s: Seq<LevelView>, r: u32) -> int
    decreases s.len(),
{
    if s.len() == 0 {
        0
    } else if s[0].3 < r {
        0
    } else {
        1 + first_lower(s.drop_first(), r)
    }
}

/// Levels ordered by descending rank; levels of equal rank keep their order.
pub open spec fn by_rank_desc(s: Seq<LevelView>) -> Seq<LevelView>
    decreases s.len(),
{
    if s.len() == 0 {
        seq![]
    } else {
        let t = by_rank_desc(s.drop_last());
        t.insert(first_lower(t, s.last().3), s.last())
    }
}

/// The view of a list of levels.
pub open spec fn level_views(v: Seq<(String, u32, u32, u32)>) -> Seq<LevelView> {
    v.map_values(|e: (String, u32, u32, u32)| (e.0@, e.1, e.2, e.3))
}

/// Some node from `lo` to `hi` has a value.
pub open spec fn has_value_between(values: Map<u32, FeatureValue>, lo: u32, hi: u32) -> bool {
    exists|n: u32| lo <= n <= hi && #[trigger] values.contains_key(n)
}

/// Node `n` has at least one edge.
pub open spec fn has_edges_at(values: Map<u32, Vec<u32>>, n: u32) -> bool {
    tg_at(values, n) matches Some(t) && t.len() > 0
}

/// Some node from `lo` to `hi` has an edge.
pub open spec fn has_edge_from_between(values: Map<u32, Vec<u32>>, lo: u32, hi: u32) -> bool {
    exists|n: u32| lo <= n <= hi && #[trigger] has_edges_at(values, n)
}

/// Some edge goes to a node from `lo` to `hi`.
pub open spec fn has_edge_to_between(values: Map<u32, Vec<u32>>, lo: u32, hi: u32) -> bool {
    exists|s: u32, t: u32| values.contains_key(s) && #[trigger] values[s]@.contains(t) && lo <= t <= hi
}

/// The types of the levels on which a node feature has a value.
pub open spec fn node_types_in(levels: Seq<LevelView>, values: Map<u32, FeatureValue>) -> Seq<Seq<char>>
    decreases levels.len(),
{
    if levels.len() == 0 {
        seq![]
    } else {
        let prev = node_types_in(levels.drop_last(), values);
        let l = levels.last();
        if has_value_between(values, l.1, l.2) {
            prev.push(l.0)
        } else {
            prev
        }
    }
}

/// The types of the levels from which an edge feature has edges.
pub open spec fn source_types_in(levels: Seq<LevelView>, values: Map<u32, Vec<u32>>) -> Seq<Seq<char>>
    decreases levels.len(),
{
    if levels.len() == 0 {
        seq![]
    } else {
        let prev = source_types_in(levels.drop_last(), values);
        let l = levels.last();
        if has_edge_from_between(values, l.1, l.2) {
            prev.push(l.0)
        } else {
            prev
        }
    }
}

/// The types of the levels to which an edge feature has edges.
pub open spec fn target_types_in(levels: Seq<LevelView>, values: Map<u32, Vec<u32>>) -> Seq<Seq<char>>
    decreases levels.len(),
{
    if levels.len() == 0 {
        seq![]
    } else {
        let prev = target_types_in(levels.drop_last(), values);
        let l = levels.last();
        if has_edge_to_between(values, l.1, l.2) {
            prev.push(l.0)
        } else {
            prev
        }
    }
}

proof fn lemma_first_lower(s: Seq<LevelView>, r: u32, p: int)
    requires
        0 <= p <= s.len(),
        forall|j: int| 0 <= j < p ==> #[trigger] s[j].3 >= r,
        p == s.len() || s[p].3 < r,
    ensures
        first_lower(s, r) == p,
    decreases p,
{
    if p > 0 {
        lemma_first_lower(s.drop_first(), r, p - 1);
    }
}

impl Corpus {
    /// The rank of a node type (0 for a type without one).
    pub open spec fn named_type_rank(&self, t: Seq<char>) -> u32 {
        match named_get(self.type_ranks@, t) {
            Some(r) => r,
            None => 0,
        }
    }

    /// The level of node-type entry `i`: the type, its first and last node (0 when it has
    /// none), and its rank.
    pub open spec fn level_of(&self, i: int) -> LevelView {
        let e = self.nodes_by_type@[i];
        let v = e.1@;
        (e.0@, if v.len() > 0 { v[0] } else { 0 }, if v.len() > 0 { v.last() } else { 0 }, self.named_type_rank(e.0@))
    }

    /// The levels of the corpus, by node type, in the order of its node-type lists.
    pub open spec fn raw_levels(&self) -> Seq<LevelView> {
        Seq::new(self.nodes_by_type@.len(), |i: int| self.level_of(i))
    }

    /// The levels, highest rank first.
    pub open spec fn levels_spec(&self) -> Seq<LevelView> {
        by_rank_desc(self.raw_levels())
    }

    fn type_rank_exec(&self, t: &str) -> (r: u32)
        ensures
            r == self.named_type_rank(t@),
    {
        match find_named(&self.type_ranks, t) {
            Some(i) => self.type_ranks[i].1,
            None => 0,
        }
    }

    /// The levels with their ranks, highest rank first.
    fn ranked_levels(&self) -> (r: Vec<(String, u32, u32, u32)>)
        ensures
            level_views(r@) == self.levels_spec(),
    {
        let mut out: Vec<(String, u32, u32, u32)> = Vec::new();
        let mut i: usize = 0;
        proof {
            assert(self.raw_levels().take(0) =~= Seq::<LevelView>::empty());
            assert(level_views(out@) =~= Seq::<LevelView>::empty());
        }
        while i < self.nodes_by_type.len()
            invariant
                i <= self.nodes_by_type@.len(),
                level_views(out@) == by_rank_desc(self.raw_levels().take(i as int)),
            decreases self.nodes_by_type.len() - i,
        {
            let name = self.nodes_by_type[i].0.as_str();
            let nodes = &self.nodes_by_type[i].1;
            let lo: u32 = if nodes.len() > 0 { nodes[0] } else { 0 };
            let hi: u32 = if nodes.len() > 0 { nodes[nodes.len() - 1] } else { 0 };
            let rank = self.type_rank_exec(name);
            let ghost lv = level_views(out@);
            let mut p: usize = 0;
            while p < out.len() && !(out[p].3 < rank)
                invariant
                    p <= out@.len(),
                    lv == level_views(out@),
                    forall|j: int| 0 <= j < p ==> #[trigger] lv[j].3 >= rank,
                decreases out.len() - p,
            {
                p += 1;
            }
            proof {
                lemma_first_lower(lv, rank, p as int);
                let raw = self.raw_levels();
                assert(raw.take(i + 1).drop_last() =~= raw.take(i as int));
                assert(raw.take(i + 1).last() == self.level_of(i as int));
                assert(self.level_of(i as int) == (name@, lo, hi, rank));
            }
            let e = (copy_string(&self.nodes_by_type[i].0), lo, hi, rank);
            out.insert(p, e);
            proof {
                assert(level_views(out@) =~= lv.insert(p as int, (name@, lo, hi, rank)));
            }
            i += 1;
        }
        proof {
            assert(self.raw_levels().take(self.nodes_by_type@.len() as int) =~= self.raw_levels());
        }
        out
    }

    /// The levels: each node type with its first and last node, highest type rank first
    /// (types of equal rank in the order of the node-type lists).
    pub fn level_bounds(&self) -> (r: Vec<(String, u32, u32)>)
        ensures
            r@.len() == self.levels_spec().len(),
            forall|i: int| 0 <= i < r@.len() ==> ((#[trigger] r@[i]).0@, r@[i].1, r@[i].2) == (
                self.levels_spec()[i].0,
                self.levels_spec()[i].1,
                self.levels_spec()[i].2,
            ),
    {
        let ls = self.ranked_levels();
        let mut r: Vec<(String, u32, u32)> = Vec::new();
        let mut i: usize = 0;
        while i < ls.len()
            invariant
                i <= ls@.len(),
                level_views(ls@) == self.levels_spec(),
                r@.len() == i,
                forall|j: int| 0 <= j < i ==> ((#[trigger] r@[j]).0@, r@[j].1, r@[j].2) == (
                    self.levels_spec()[j].0,
                    self.levels_spec()[j].1,
                    self.levels_spec()[j].2,
                ),
            decreases ls.len() - i,
        {
            proof {
                assert(level_views(ls@)[i as int] == (ls@[i as int].0@, ls@[i as int].1, ls@[i as int].2, ls@[i as int].3));
            }
            r.push((copy_string(&ls[i].0), ls[i].1, ls[i].2));
            i += 1;
        }
        r
    }
}

/// Whether a node feature has a value on some node from `lo` to `hi`.
fn node_value_between(f: &NodeFeature, lo: u32, hi: u32) -> (r: bool)
    ensures
        r == has_value_between(f.values@, lo, hi),
{
    if lo > hi {
        return false;
    }
    let mut n: u32 = lo;
    loop
        invariant
            lo <= n <= hi,
            forall|m: u32| lo <= m < n ==> !#[trigger] f.values@.contains_key(m),
        decreases hi - n,
    {
        if f.v(n).is_some() {
            return true;
        }
        if n == hi {
            return false;
        }
        n += 1;
    }
}

/// Whether an edge feature has an edge from some node from `lo` to `hi`.
fn edge_from_between(f: &EdgeFeature, lo: u32, hi: u32) -> (r: bool)
    ensures
        r == has_edge_from_between(f.values@, lo, hi),
{
    if lo > hi {
        return false;
    }
    let mut n: u32 = lo;
    loop
        invariant
            lo <= n <= hi,
            forall|m: u32| lo <= m < n ==> !#[trigger] has_edges_at(f.values@, m),
        decreases hi - n,
    {
        match f.targets(n) {
            Some(t) => if t.len() > 0 {
                assert(has_edges_at(f.values@, n));
                return true;
            },
            None => {},
        }
        if n == hi {
            return false;
        }
        n += 1;
    }
}

/// Whether an edge feature has an edge to some node from `lo` to `hi`.
fn edge_to_between(f: &EdgeFeature, lo: u32, hi: u32) -> (r: bool)
    ensures
        r == has_edge_to_between(f.values@, lo, hi),
{
    let keys = map_keys(&f.values);
    let mut i: usize = 0;
    while i < keys.len()
        invariant
            i <= keys@.len(),
            forall|x: u32| keys@.contains(x) <==> f.values@.contains_key(x),
            forall|q: int, t: u32| 0 <= q < i && f.values@.contains_key(keys@[q]) && #[trigger] f.values@[keys@[q]]@.contains(t) ==> !(lo <= t <= hi),
        decreases keys.len() - i,
    {
        let s = keys[i];
        proof {
            assert(keys@.contains(s));
        }
        let ts = match f.targets(s) {
            Some(t) => t,
            None => &[],
        };
        proof {
            assert(f.values@.contains_key(s));
            assert(ts@ == f.values@[s]@);
        }
        let mut j: usize = 0;
        while j < ts.len()
            invariant
                j <= ts@.len(),
                f.values@.contains_key(s),
                ts@ == f.values@[s]@,
                forall|k: int| 0 <= k < j ==> !(lo <= #[trigger] ts@[k] <= hi),
            decreases ts.len() - j,
        {
            if lo <= ts[j] && ts[j] <= hi {
                proof {
                    assert(f.values@[s]@.contains(ts@[j as int]));
                }
                return true;
            }
            j += 1;
        }
        proof {
            assert forall|t: u32| f.values@.contains_key(keys@[i as int]) && #[trigger] f.values@[keys@[i as int]]@.contains(t) implies !(lo <= t <= hi) by {
                let k = choose|k: int| 0 <= k < ts@.len() && ts@[k] == t;
            }
        }
        i += 1;
    }
    proof {
        assert forall|s: u32, t: u32| f.values@.contains_key(s) && #[trigger] f.values@[s]@.contains(t) implies !(lo <= t <= hi) by {
            assert(keys@.contains(s));
            let q = choose|q: int| 0 <= q < keys@.len() && keys@[q] == s;
            assert(f.values@[keys@[q]]@.contains(t));
        }
    }
    false
}

impl Corpus {
    /// The node types on which node feature `feature_name` has a value, highest level
    /// first; none for an unknown feature.
    pub fn node_feature_types(&self, feature_name: &str) -> (r: Vec<String>)
        ensures
            views(r@) == match self.nf(feature_name@) {
                Some(f) => node_types_in(self.levels_spec(), f.values@),
                None => seq![],
            },
    {
        let f = match self.node_feature(feature_name) {
            Some(f) => f,
            None => return Vec::new(),
        };
        let ls = self.ranked_levels();
        let mut r: Vec<String> = Vec::new();
        let mut i: usize = 0;
        while i < ls.len()
            invariant
                i <= ls@.len(),
                views(r@) == node_types_in(level_views(ls@).take(i as int), f.values@),
            decreases ls.len() - i,
        {
            proof {
                assert(level_views(ls@).take(i + 1).drop_last() =~= level_views(ls@).take(i as int));
                assert(level_views(ls@).take(i + 1).last() == level_views(ls@)[i as int]);
            }
            if node_value_between(f, ls[i].1, ls[i].2) {
                let ghost r0 = views(r@);
                r.push(copy_string(&ls[i].0));
                proof {
                    assert(views(r@) =~= r0.push(ls@[i as int].0@));
                }
            }
            i += 1;
        }
        proof {
            assert(level_views(ls@).take(ls@.len() as int) =~= level_views(ls@));
        }
        r
    }

    /// The node types from which edge feature `feature_name` has edges, highest level
    /// first; none for an unknown feature.
    pub fn edge_feature_source_types(&self, feature_name: &str) -> (r: Vec<String>)
        ensures
            views(r@) == match self.ef(feature_name@) {
                Some(f) => source_types_in(self.levels_spec(), f.values@),
                None => seq![],
            },
    {
        let f = match self.edge_feature(feature_name) {
            Some(f) => f,
            None => return Vec::new(),
        };
        let ls = self.ranked_levels();
        let mut r: Vec<String> = Vec::new();
        let mut i: usize = 0;
        while i < ls.len()
            invariant
                i <= ls@.len(),
                views(r@) == source_types_in(level_views(ls@).take(i as int), f.values@),
            decreases ls.len() - i,
        {
            proof {
                assert(level_views(ls@).take(i + 1).drop_last() =~= level_views(ls@).take(i as int));
                assert(level_views(ls@).take(i + 1).last() == level_views(ls@)[i as int]);
            }
            if edge_from_between(f, ls[i].1, ls[i].2) {
                let ghost r0 = views(r@);
                r.push(copy_string(&ls[i].0));
                proof {
                    assert(views(r@) =~= r0.push(ls@[i as int].0@));
                }
            }
            i += 1;
        }
        proof {
            assert(level_views(ls@).take(ls@.len() as int) =~= level_views(ls@));
        }
        r
    }

    /// The node types to which edge feature `feature_name` has edges, highest level
    /// first; none for an unknown feature.
    pub fn edge_feature_target_types(&self, feature_name: &str) -> (r: Vec<String>)
        ensures
            views(r@) == match self.ef(feature_name@) {
                Some(f) => target_types_in(self.levels_spec(), f.values@),
                None => seq![],
            },
    {
        let f = match self.edge_feature(feature_name) {
            Some(f) => f,
            None => return Vec::new(),
        };
        let ls = self.ranked_levels();
        let mut r: Vec<String> = Vec::new();
        let mut i: usize = 0;
        while i < ls.len()
            invariant
                i <= ls@.len(),
                views(r@) == target_types_in(level_views(ls@).take(i as int), f.values@),
            decreases ls.len() - i,
        {
            proof {
                assert(level_views(ls@).take(i + 1).drop_last() =~= level_views(ls@).take(i as int));
                assert(level_views(ls@).take(i + 1).last() == level_views(ls@)[i as int]);
            }
            if edge_to_between(f, ls[i].1, ls[i].2) {
                let ghost r0 = views(r@);
                r.push(copy_string(&ls[i].0));
                proof {
                    assert(views(r@) =~= r0.push(ls@[i as int].0@));
                }
            }
            i += 1;
        }
        proof {
            assert(level_views(ls@).take(ls@.len() as int) =~= level_views(ls@));
        }
        r
    }
}

/// The number of slots of node `n`: one for a slot, else the length of its slot list.
pub open spec fn node_slot_count(c: Corpus, n: u32) -> nat {
    if n <= c.max_slot {
        1
    } else {
        match c.oslots_of(n) {
            Some(s) => s.len(),
            None => 0,
        }
    }
}

/// The total number of slots of the nodes `ns`.
pub open spec fn slot_total(c: Corpus, ns: Seq<u32>) -> nat
    decreases ns.len(),
{
    if ns.len() == 0 {
        0
    } else {
        slot_total(c, ns.drop_last()) + node_slot_count(c, ns.last())
    }
}

impl Corpus {
    /// The nodes of type `t` (none for an unknown type).
    pub open spec fn nodes_of(&self, t: Seq<char>) -> Seq<u32> {
        match self.type_nodes(t) {
            Some(v) => v,
            None => seq![],
        }
    }

    /// Per level, highest rank first: its type, the number of slots of its nodes
    /// (saturating) and its number of nodes; what the average size of a level's nodes
    /// is computed from.
    pub fn level_slot_counts(&self) -> (r: Vec<(String, usize, usize)>)
        ensures
            r@.len() == self.levels_spec().len(),
            forall|i: int|
                0 <= i < r@.len() ==> (#[trigger] r@[i]).0@ == self.levels_spec()[i].0 && r@[i].1 == min_usize(
                    slot_total(*self, self.nodes_of(self.levels_spec()[i].0)),
                ) && r@[i].2 == self.nodes_of(self.levels_spec()[i].0).len(),
    {
        let ls = self.level_bounds();
        let mut r: Vec<(String, usize, usize)> = Vec::new();
        let mut i: usize = 0;
        while i < ls.len()
            invariant
                i <= ls@.len(),
                ls@.len() == self.levels_spec().len(),
                forall|j: int| 0 <= j < ls@.len() ==> (#[trigger] ls@[j]).0@ == self.levels_spec()[j].0,
                r@.len() == i,
                forall|j: int|
                    0 <= j < i ==> (#[trigger] r@[j]).0@ == self.levels_spec()[j].0 && r@[j].1 == min_usize(
                        slot_total(*self, self.nodes_of(self.levels_spec()[j].0)),
                    ) && r@[j].2 == self.nodes_of(self.levels_spec()[j].0).len(),
            decreases ls.len() - i,
        {
            proof {
                assert(ls@[i as int].0@ == self.levels_spec()[i as int].0);
            }
            let nodes = self.nodes_of_type(ls[i].0.as_str());
            let mut total: usize = 0;
            let mut k: usize = 0;
            while k < nodes.len()
                invariant
                    k <= nodes@.len(),
                    total == min_usize(slot_total(*self, nodes@.take(k as int))),
                decreases nodes.len() - k,
            {
                let n = nodes[k];
                let count: usize = if n <= self.max_slot {
                    1
                } else {
                    match self.slots_of(n) {
                        Some(s) => s.len(),
                        None => 0,
                    }
                };
                proof {
                    assert(nodes@.take(k + 1).drop_last() =~= nodes@.take(k as int));
                    assert(count == node_slot_count(*self, n));
                }
                total = total.saturating_add(count);
                k += 1;
            }
            proof {
                assert(nodes@.take(nodes@.len() as int) =~= nodes@);
            }
            r.push((copy_string(&ls[i].0), total, nodes.len()));
            i += 1;
        }
        r
    }
}

} // verus!

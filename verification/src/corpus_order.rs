//! The canonical order of the nodes of a corpus: the node comparison, the order of
//! all nodes and the rank of each node.

use vstd::prelude::*;
use crate::corpus::{find_named, named_get, Corpus};
use crate::corpus_nav::slice_has;
use crate::sorting::copy_nodes;

verus! {

broadcast use vstd::seq_lib::group_to_multiset_ensures;

/// Every element of `b` lies in `a`.
pub open spec fn covers(a: Seq<u32>, b: Seq<u32>) -> bool {
    forall|v: u32| #[trigger] b.contains(v) ==> a.contains(v)
}

/// The first element of `a` that is not in `b`, if any.
pub open spec fn first_missing(a: Seq<u32>, b: Seq<u32>) -> Option<u32>
    decreases a.len(),
{
    if a.len() == 0 {
        None
    } else if !b.contains(a[0]) {
        Some(a[0])
    } else {
        first_missing(a.drop_first(), b)
    }
}

pub open spec fn or_max(o: Option<u32>) -> u32 {
    match o {
        Some(v) => v,
        None => u32::MAX,
    }
}

pub open spec fn sign3(a: int, b: int) -> int {
    if a < b { -1 } else if a == b { 0 } else { 1 }
}

/// The canonical comparison is a strict total order on `1..=max_node`.
pub open spec fn strict_total(c: Corpus) -> bool {
    &&& forall|a: u32, b: u32| 1 <= a <= c.max_node && 1 <= b <= c.max_node ==> #[trigger] c.node_order(a, b) == -c.node_order(b, a)
    &&& forall|a: u32, b: u32| 1 <= a <= c.max_node && 1 <= b <= c.max_node ==> (#[trigger] c.node_order(a, b) == 0 <==> a == b)
    &&& forall|a: u32, b: u32, d: u32| 1 <= a <= c.max_node && 1 <= b <= c.max_node && 1 <= d <= c.max_node
        && #[trigger] c.node_order(a, b) < 0 && #[trigger] c.node_order(b, d) < 0 ==> c.node_order(a, d) < 0
}

impl Corpus {
    /// The slots of `n` as used for ordering: itself for a slot, else its stored slots.
    pub open spec fn order_slots(&self, n: u32) -> Seq<u32> {
        if n <= self.max_slot {
            seq![n]
        } else {
            match self.oslots_of(n) {
                Some(s) => s,
                None => seq![],
            }
        }
    }

    /// The rank of the type of `n` (the slot type for an untyped node), or the largest
    /// `u32` for a type without rank.
    pub open spec fn type_rank_spec(&self, n: u32) -> u32 {
        let t = match self.type_of(n) {
            Some(t) => t,
            None => self.slot_type@,
        };
        match named_get(self.type_ranks@, t) {
            Some(r) => r,
            None => u32::MAX,
        }
    }

    /// The canonical comparison of two nodes: -1 when `l` comes first, 0 for the same
    /// node, 1 when `r` comes first.
    pub open spec fn node_order(&self, l: u32, r: u32) -> int {
        let ls = self.order_slots(l);
        let rs = self.order_slots(r);
        let lr = self.type_rank_spec(l);
        let rr = self.type_rank_spec(r);
        if l == r {
            0
        } else if ls == rs {
            if lr == rr { sign3(l as int, r as int) } else if lr > rr { -1 } else { 1 }
        } else if covers(ls, rs) {
            -1
        } else if covers(rs, ls) {
            1
        } else {
            sign3(or_max(first_missing(ls, rs)) as int, or_max(first_missing(rs, ls)) as int)
        }
    }

    fn order_slots_exec(&self, n: u32) -> (r: Vec<u32>)
        ensures
            r@ == self.order_slots(n),
    {
        if n <= self.max_slot {
            let mut v = Vec::new();
            v.push(n);
            proof {
                assert(v@ =~= seq![n]);
            }
            v
        } else {
            match self.slots_of(n) {
                Some(s) => copy_nodes(s),
                None => Vec::new(),
            }
        }
    }

    /// The rank of the type of `node`.
    pub fn type_rank(&self, node: u32) -> (r: u32)
        ensures
            r == self.type_rank_spec(node),
    {
        let t = match self.node_type(node) {
            Some(t) => t,
            None => self.slot_type.as_str(),
        };
        match find_named(&self.type_ranks, t) {
            Some(i) => self.type_ranks[i].1,
            None => u32::MAX,
        }
    }

    /// The canonical comparison of two nodes.
    pub fn compare_nodes(&self, left: u32, right: u32) -> (r: i8)
        ensures
            r as int == self.node_order(left, right),
    {
        if left == right {
            return 0;
        }
        let ls = self.order_slots_exec(left);
        let rs = self.order_slots_exec(right);
        let lr = self.type_rank(left);
        let rr = self.type_rank(right);
        if crate::feature::vec_eq_u32(&ls, &rs) {
            if lr == rr {
                if left < right { -1 } else { 1 }
            } else if lr > rr {
                -1
            } else {
                1
            }
        } else if covers_exec(&ls, &rs) {
            -1
        } else if covers_exec(&rs, &ls) {
            1
        } else {
            let a = first_missing_exec(&ls, &rs);
            let b = first_missing_exec(&rs, &ls);
            if a < b { -1 } else if a == b { 0 } else { 1 }
        }
    }

    /// All nodes `1..=max_node` in canonical order: each node once, and, when the
    /// comparison is a strict total order, ascending in it.
    pub fn compute_order(&self) -> (r: Vec<u32>)
        ensures
            r@.len() == self.max_node,
            forall|x: u32| r@.contains(x) <==> 1 <= x <= self.max_node,
            r@.no_duplicates(),
            strict_total(*self) ==> forall|i: int, j: int| 0 <= i < j < r@.len() ==> self.node_order(#[trigger] r@[i], #[trigger] r@[j]) < 0,
    {
        let mut out: Vec<u32> = Vec::new();
        let mut n: u64 = 1;
        while n <= self.max_node as u64
            invariant
                1 <= n <= self.max_node as u64 + 1,
                out@.len() == n - 1,
                forall|x: u32| out@.contains(x) <==> 1 <= x < n,
                out@.no_duplicates(),
                strict_total(*self) ==> forall|i: int, j: int| 0 <= i < j < out@.len() ==> self.node_order(#[trigger] out@[i], #[trigger] out@[j]) < 0,
            decreases self.max_node as u64 + 1 - n,
        {
            let x = n as u32;
            let mut p: usize = 0;
            while p < out.len() && self.compare_nodes(x, out[p]) >= 0
                invariant
                    0 <= p <= out.len(),
                    forall|k: int| 0 <= k < p ==> self.node_order(x, #[trigger] out@[k]) >= 0,
                decreases out.len() - p,
            {
                p += 1;
            }
            let ghost o0 = out@;
            proof {
                assert(!o0.contains(x));
            }
            out.insert(p, x);
            proof {
                assert(out@ == o0.insert(p as int, x));
                assert(x as int == n as int);
                assert forall|y: u32| out@.contains(y) <==> 1 <= y < n + 1 by {
                    lemma_insert_contains(o0, p as int, x, y);
                }
                lemma_insert_nodup(o0, p as int, x);
                if strict_total(*self) {
                    self.lemma_insert_sorted(o0, p as int, x);
                }
            }
            n += 1;
        }
        out
    }

    /// The rank of every node (index `node - 1`) under the order `order`.
    pub fn compute_rank(&self, order: &Vec<u32>) -> (r: Vec<u32>)
        requires
            order@.len() <= u32::MAX,
        ensures
            r@.len() == self.max_node,
            forall|i: int| 0 <= i < order@.len() && 1 <= #[trigger] order@[i] <= self.max_node && (forall|j: int| i < j < order@.len() ==> order@[j] != order@[i])
                ==> r@[order@[i] - 1] == i,
    {
        let mut rank: Vec<u32> = Vec::new();
        let mut k: u64 = 0;
        while k < self.max_node as u64
            invariant
                k <= self.max_node,
                rank@.len() == k,
            decreases self.max_node as u64 - k,
        {
            rank.push(0);
            k += 1;
        }
        let mut i: usize = 0;
        while i < order.len()
            invariant
                0 <= i <= order.len(),
                order@.len() <= u32::MAX,
                rank@.len() == self.max_node,
                forall|q: int| 0 <= q < i && 1 <= #[trigger] order@[q] <= self.max_node && (forall|j: int| q < j < i ==> order@[j] != order@[q])
                    ==> rank@[order@[q] - 1] == q,
            decreases order.len() - i,
        {
            let node = order[i];
            if node >= 1 && ((node - 1) as usize) < rank.len() {
                rank.set((node - 1) as usize, i as u32);
            }
            i += 1;
        }
        rank
    }
}


proof fn lemma_insert_contains(o0: Seq<u32>, p: int, x: u32, y: u32)
    requires
        0 <= p <= o0.len(),
    ensures
        o0.insert(p, x).contains(y) <==> (o0.contains(y) || y == x),
{
    let o = o0.insert(p, x);
    if o.contains(y) {
        let k = choose|k: int| 0 <= k < o.len() && o[k] == y;
        if k < p {
            assert(o0[k] == y);
        } else if k > p {
            assert(o0[k - 1] == y);
        }
    }
    if y == x {
        assert(o[p] == y);
    } else if o0.contains(y) {
        let k = choose|k: int| 0 <= k < o0.len() && o0[k] == y;
        if k < p {
            assert(o[k] == y);
        } else {
            assert(o[k + 1] == y);
        }
    }
}

proof fn lemma_insert_nodup(o0: Seq<u32>, p: int, x: u32)
    requires
        0 <= p <= o0.len(),
        o0.no_duplicates(),
        !o0.contains(x),
    ensures
        o0.insert(p, x).no_duplicates(),
{
    let o = o0.insert(p, x);
    assert forall|a: int, b: int| 0 <= a < o.len() && 0 <= b < o.len() && a != b implies o[a] != o[b] by {
        if a < p && b < p {
            assert(o0[a] != o0[b]);
        } else if a < p && b == p {
            assert(o0.contains(o0[a]));
        } else if a == p && b < p {
            assert(o0.contains(o0[b]));
        } else if a == p {
            assert(o0.contains(o0[b - 1]));
        } else if b == p {
            assert(o0.contains(o0[a - 1]));
        } else if a < p {
            assert(o0[a] != o0[b - 1]);
        } else if b < p {
            assert(o0[a - 1] != o0[b]);
        } else {
            assert(o0[a - 1] != o0[b - 1]);
        }
    }
}

impl Corpus {
    proof fn lemma_insert_sorted(&self, o0: Seq<u32>, p: int, x: u32)
        requires
            0 <= p <= o0.len(),
            strict_total(*self),
            1 <= x <= self.max_node,
            !o0.contains(x),
            forall|y: u32| o0.contains(y) ==> 1 <= y <= self.max_node,
            forall|i: int, j: int| 0 <= i < j < o0.len() ==> self.node_order(#[trigger] o0[i], #[trigger] o0[j]) < 0,
            forall|k: int| 0 <= k < p ==> self.node_order(x, #[trigger] o0[k]) >= 0,
            p < o0.len() ==> self.node_order(x, o0[p]) < 0,
        ensures
            forall|i: int, j: int| 0 <= i < j < o0.insert(p, x).len() ==> self.node_order(#[trigger] o0.insert(p, x)[i], #[trigger] o0.insert(p, x)[j]) < 0,
    {
        let out = o0.insert(p, x);
        assert forall|a: int, b: int| 0 <= a < b < out.len() implies self.node_order(#[trigger] out[a], #[trigger] out[b]) < 0 by {
            if b < p {
                assert(out[a] == o0[a] && out[b] == o0[b]);
            } else if b == p {
                assert(out[a] == o0[a]);
                assert(o0.contains(o0[a]));
                assert(self.node_order(x, o0[a]) >= 0);
                assert(self.node_order(x, o0[a]) == -self.node_order(o0[a], x));
                assert(x != o0[a]);
            } else if a == p {
                assert(out[b] == o0[b - 1]);
                assert(o0.contains(o0[b - 1]));
                assert(o0.contains(o0[p]));
                if b - 1 > p {
                    assert(self.node_order(o0[p], o0[b - 1]) < 0);
                }
            } else if a < p {
                assert(out[a] == o0[a] && out[b] == o0[b - 1]);
            } else {
                assert(out[a] == o0[a - 1] && out[b] == o0[b - 1]);
            }
        }
    }
}

/// Whether every element of `b` lies in `a`.
pub fn covers_exec(a: &Vec<u32>, b: &Vec<u32>) -> (r: bool)
    ensures
        r == covers(a@, b@),
{
    let mut i: usize = 0;
    while i < b.len()
        invariant
            0 <= i <= b.len(),
            forall|k: int| 0 <= k < i ==> a@.contains(#[trigger] b@[k]),
        decreases b.len() - i,
    {
        if !slice_has(a.as_slice(), b[i]) {
            proof {
                assert(b@.contains(b@[i as int]));
            }
            return false;
        }
        i += 1;
    }
    proof {
        assert forall|v: u32| #[trigger] b@.contains(v) implies a@.contains(v) by {
            let k = choose|k: int| 0 <= k < b@.len() && b@[k] == v;
        }
    }
    true
}

/// The first element of `a` not in `b`, or the largest `u32`.
pub fn first_missing_exec(a: &Vec<u32>, b: &Vec<u32>) -> (r: u32)
    ensures
        r == or_max(first_missing(a@, b@)),
{
    let mut i: usize = 0;
    proof {
        assert(a@.skip(0) =~= a@);
    }
    while i < a.len()
        invariant
            0 <= i <= a.len(),
            first_missing(a@, b@) == first_missing(a@.skip(i as int), b@),
        decreases a.len() - i,
    {
        proof {
            assert(a@.skip(i as int).drop_first() =~= a@.skip(i + 1));
            assert(a@.skip(i as int)[0] == a@[i as int]);
        }
        if !slice_has(b.as_slice(), a[i]) {
            return a[i];
        }
        i += 1;
    }
    proof {
        assert(a@.skip(a@.len() as int).len() == 0);
    }
    u32::MAX
}

} // verus!

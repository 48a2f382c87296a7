//! Compact per-node storage: interned string values, optional integer values,
//! adjacency rows, and rows of valued edges.
//!
//! A map keyed by node is given as a list of `(node, value)` entries in
//! ascending node order, the order in which an ordered map hands them out.

use vstd::prelude::*;
use crate::strs::{copy_string, str_eq, views};
use crate::sorting::{copy_nodes, sort_dedup, strictly_sorted_u32};

verus! {

broadcast use vstd::string::group_string_axioms;

/// The keys of entries are strictly ascending.
pub open spec fn keys_ascending<V>(data: Seq<(u32, V)>) -> bool {
    forall|i: int, j: int| 0 <= i < j < data.len() ==> data[i].0 < data[j].0
}

/// The value stored for `node` among the entries, if any.
pub open spec fn entry_value<V>(data: Seq<(u32, V)>, node: u32) -> Option<V> {
    if exists|i: int| 0 <= i < data.len() && data[i].0 == node {
        Some(data[choose|i: int| 0 <= i < data.len() && data[i].0 == node].1)
    } else {
        None
    }
}

proof fn lemma_entry_at<V>(data: Seq<(u32, V)>, i: int)
    requires
        keys_ascending(data),
        0 <= i < data.len(),
    ensures
        entry_value(data, data[i].0) == Some(data[i].1),
{
    let k = choose|k: int| 0 <= k < data.len() && data[k].0 == data[i].0;
    if k != i {
        assert(data[k].0 != data[i].0);
    }
}

/// The distinct texts of `s`, each where it first occurs.
pub open spec fn first_occurrences(s: Seq<Seq<char>>) -> Seq<Seq<char>>
    decreases s.len(),
{
    if s.len() == 0 {
        seq![]
    } else {
        let f = first_occurrences(s.drop_last());
        if f.contains(s.last()) {
            f
        } else {
            f.push(s.last())
        }
    }
}

/// The values of the entries whose node lies in `1..=max_node`, in entry order.
pub open spec fn pooled_values(data: Seq<(u32, String)>, max_node: u32) -> Seq<Seq<char>>
    decreases data.len(),
{
    if data.len() == 0 {
        seq![]
    } else {
        let rest = pooled_values(data.drop_last(), max_node);
        let e = data.last();
        if 1 <= e.0 <= max_node {
            rest.push(e.1@)
        } else {
            rest
        }
    }
}

/// String values of nodes, each distinct string stored once.
#[derive(Debug)]
pub struct StringPool {
    pub strings: Vec<String>,
    indices: Vec<Option<usize>>,
}

impl StringPool {
    /// The distinct strings of the pool, in pool order.
    pub closed spec fn pool_view(&self) -> Seq<Seq<char>> {
        views(self.strings@)
    }

    /// The value of `node`: its index into the pool, if both exist.
    pub closed spec fn value_of(&self, node: int) -> Option<Seq<char>> {
        if 0 < node < self.indices@.len() {
            match self.indices@[node] {
                Some(i) => if i < self.strings@.len() {
                    Some(self.strings@[i as int]@)
                } else {
                    None
                },
                None => None,
            }
        } else {
            None
        }
    }

    /// A pool of the entries whose node lies in `1..=max_node`; the pool holds
    /// each distinct value once, in order of first occurrence.
    pub fn from_dict(data: &[(u32, String)], max_node: u32) -> (r: Self)
        requires
            keys_ascending(data@),
            max_node < usize::MAX,
        ensures
            r.pool_view() == first_occurrences(pooled_values(data@, max_node)),
            forall|n: int| 0 < n <= max_node ==> #[trigger] r.value_of(n) == match entry_value(data@, n as u32) {
                Some(v) => Some(v@),
                None => None,
            },
            forall|n: int| n <= 0 || n > max_node ==> #[trigger] r.value_of(n) is None,
    {
        let mut strings: Vec<String> = Vec::new();
        let mut indices: Vec<Option<usize>> = Vec::new();
        let size = max_node as usize + 1;
        while indices.len() < size
            invariant
                indices@.len() <= size,
                forall|j: int| 0 <= j < indices@.len() ==> indices@[j] is None,
            decreases size - indices@.len(),
        {
            indices.push(None);
        }
        let mut i: usize = 0;
        while i < data.len()
            invariant
                0 <= i <= data.len(),
                size == max_node + 1,
                keys_ascending(data@),
                indices@.len() == size,
                views(strings@) == first_occurrences(pooled_values(data@.take(i as int), max_node)),
                forall|n: int| 0 <= n < indices@.len() ==> match #[trigger] indices@[n] {
                    Some(k) => k < strings@.len() && exists|j: int| 0 <= j < i && data@[j].0 == n
                        && strings@[k as int]@ == data@[j].1@,
                    None => !exists|j: int| 0 <= j < i && data@[j].0 == n && 1 <= n <= max_node,
                },
            decreases data.len() - i,
        {
            let node = data[i].0;
            proof {
                assert(data@.take(i + 1).drop_last() =~= data@.take(i as int));
            }
            if node == 0 || node > max_node {
                proof {
                    assert(pooled_values(data@.take(i + 1), max_node) == pooled_values(data@.take(i as int), max_node));
                }
            } else {
                let value = &data[i].1;
                let mut k: usize = 0;
                while k < strings.len() && !str_eq(strings[k].as_str(), value.as_str())
                    invariant
                        0 <= k <= strings.len(),
                        forall|m: int| 0 <= m < k ==> strings@[m]@ != value@,
                    decreases strings.len() - k,
                {
                    k += 1;
                }
                let ghost vs = views(strings@);
                let ghost pv = pooled_values(data@.take(i as int), max_node);
                proof {
                    assert(pooled_values(data@.take(i + 1), max_node) == pv.push(value@));
                    assert(pv.push(value@).drop_last() =~= pv);
                    assert(vs == first_occurrences(pv));
                }
                if k == strings.len() {
                    let t = copy_string(value);
                    strings.push(t);
                    proof {
                        assert(!vs.contains(value@)) by {
                            if vs.contains(value@) {
                                let m = choose|m: int| 0 <= m < vs.len() && vs[m] == value@;
                                assert(strings@[m]@ == vs[m]);
                            }
                        }
                        assert(views(strings@) =~= vs.push(value@));
                    }
                } else {
                    proof {
                        assert(vs[k as int] == value@);
                        assert(vs.contains(value@));
                    }
                }
                indices.set(node as usize, Some(k));
            }
            proof {
                assert forall|n: int| 0 <= n < indices@.len() implies match #[trigger] indices@[n] {
                    Some(k) => k < strings@.len() && exists|j: int| 0 <= j < i + 1 && data@[j].0 == n
                        && strings@[k as int]@ == data@[j].1@,
                    None => !exists|j: int| 0 <= j < i + 1 && data@[j].0 == n && 1 <= n <= max_node,
                } by {
                    if n == node as int && 1 <= node <= max_node {
                        assert(data@[i as int].0 == n);
                    } else {
                        if exists|j: int| 0 <= j < i + 1 && data@[j].0 == n && 1 <= n <= max_node {
                            let j = choose|j: int| 0 <= j < i + 1 && data@[j].0 == n && 1 <= n <= max_node;
                            assert(j != i);
                        }
                    }
                }
            }
            i += 1;
        }
        proof {
            assert(data@.take(data@.len() as int) =~= data@);
        }
        let r = StringPool { strings, indices };
        proof {
            assert forall|n: int| 0 < n <= max_node implies #[trigger] r.value_of(n) == match entry_value(data@, n as u32) {
                Some(v) => Some(v@),
                None => None,
            } by {
                if exists|j: int| 0 <= j < data@.len() && data@[j].0 == n {
                    let j = choose|j: int| 0 <= j < data@.len() && data@[j].0 == n;
                    lemma_entry_at(data@, j);
                    match r.indices@[n] {
                        Some(k) => {
                            let j2 = choose|j2: int| 0 <= j2 < data@.len() && data@[j2].0 == n
                                && r.strings@[k as int]@ == data@[j2].1@;
                            if j2 != j {
                                if j2 < j {
                                    assert(data@[j2].0 < data@[j].0);
                                } else {
                                    assert(data@[j].0 < data@[j2].0);
                                }
                            }
                        },
                        None => {
                            assert(data@[j].0 == n);
                        },
                    }
                } else {
                    match r.indices@[n] {
                        Some(k) => {
                            let j2 = choose|j2: int| 0 <= j2 < data@.len() && data@[j2].0 == n
                                && r.strings@[k as int]@ == data@[j2].1@;
                            assert(data@[j2].0 == n);
                        },
                        None => {},
                    }
                }
            }
        }
        r
    }

    /// The value of a node; nothing for node 0, negative nodes, and nodes without one.
    pub fn get(&self, node: i64) -> (r: Option<&str>)
        ensures
            match r {
                Some(s) => self.value_of(node as int) == Some(s@),
                None => self.value_of(node as int) is None,
            },
    {
        if node <= 0 {
            return None;
        }
        if node as u64 >= self.indices.len() as u64 {
            return None;
        }
        let n = node as usize;
        match self.indices[n] {
            Some(i) => if i < self.strings.len() {
                Some(self.strings[i].as_str())
            } else {
                None
            },
            None => None,
        }
    }

    /// The position of a value in the pool, if it is there.
    pub fn get_value_index(&self, value: &str) -> (r: Option<usize>)
        ensures
            match r {
                Some(i) => i < self.pool_view().len() && self.pool_view()[i as int] == value@
                    && forall|j: int| 0 <= j < i ==> self.pool_view()[j] != value@,
                None => !self.pool_view().contains(value@),
            },
    {
        let mut i: usize = 0;
        while i < self.strings.len()
            invariant
                0 <= i <= self.strings@.len(),
                forall|j: int| 0 <= j < i ==> self.strings@[j]@ != value@,
            decreases self.strings@.len() - i,
        {
            if str_eq(self.strings[i].as_str(), value) {
                return Some(i);
            }
            i += 1;
        }
        proof {
            if views(self.strings@).contains(value@) {
                let j = choose|j: int| 0 <= j < views(self.strings@).len() && views(self.strings@)[j] == value@;
                assert(self.strings@[j]@ == value@);
            }
        }
        None
    }

    /// The nodes, in their order, whose value is `expected`.
    pub fn filter_by_value(&self, nodes: &[u32], expected: &str) -> (r: Vec<u32>)
        ensures
            r@ == nodes@.filter(|n: u32| self.value_of(n as int) == Some(expected@)),
    {
        let ghost p = |n: u32| self.value_of(n as int) == Some(expected@);
        let mut r: Vec<u32> = Vec::new();
        let mut i: usize = 0;
        while i < nodes.len()
            invariant
                0 <= i <= nodes.len(),
                p == (|n: u32| self.value_of(n as int) == Some(expected@)),
                r@ == nodes@.take(i as int).filter(p),
            decreases nodes.len() - i,
        {
            let n = nodes[i];
            proof {
                assert(nodes@.take(i + 1) == nodes@.take(i as int).push(n));
                nodes@.take(i as int).lemma_filter_push(n, p);
            }
            let keep = match self.get(n as i64) {
                Some(v) => str_eq(v, expected),
                None => false,
            };
            if keep {
                r.push(n);
            }
            i += 1;
        }
        proof {
            assert(nodes@.take(nodes@.len() as int) == nodes@);
        }
        r
    }

    /// The nodes, in their order, whose value is one of `expected`.
    pub fn filter_by_values(&self, nodes: &[u32], expected: &[String]) -> (r: Vec<u32>)
        ensures
            r@ == nodes@.filter(|n: u32| match self.value_of(n as int) {
                Some(v) => views(expected@).contains(v),
                None => false,
            }),
    {
        let ghost p = |n: u32| match self.value_of(n as int) {
            Some(v) => views(expected@).contains(v),
            None => false,
        };
        let mut r: Vec<u32> = Vec::new();
        let mut i: usize = 0;
        while i < nodes.len()
            invariant
                0 <= i <= nodes.len(),
                p == (|n: u32| match self.value_of(n as int) {
                    Some(v) => views(expected@).contains(v),
                    None => false,
                }),
                r@ == nodes@.take(i as int).filter(p),
            decreases nodes.len() - i,
        {
            let n = nodes[i];
            proof {
                assert(nodes@.take(i + 1) == nodes@.take(i as int).push(n));
                nodes@.take(i as int).lemma_filter_push(n, p);
            }
            let keep = match self.get(n as i64) {
                Some(v) => text_in(expected, v),
                None => false,
            };
            if keep {
                r.push(n);
            }
            i += 1;
        }
        proof {
            assert(nodes@.take(nodes@.len() as int) == nodes@);
        }
        r
    }
}

/// Whether `v` is one of the strings of `list`.
fn text_in(list: &[String], v: &str) -> (r: bool)
    ensures
        r == views(list@).contains(v@),
{
    let mut i: usize = 0;
    while i < list.len()
        invariant
            0 <= i <= list@.len(),
            forall|j: int| 0 <= j < i ==> list@[j]@ != v@,
        decreases list@.len() - i,
    {
        if str_eq(list[i].as_str(), v) {
            assert(views(list@)[i as int] == v@);
            return true;
        }
        i += 1;
    }
    proof {
        if views(list@).contains(v@) {
            let j = choose|j: int| 0 <= j < views(list@).len() && views(list@)[j] == v@;
            assert(list@[j]@ == v@);
        }
    }
    false
}

// ---------------------------------------------------------------------------
// Integer values
// ---------------------------------------------------------------------------

/// Optional integer values of nodes.
#[derive(Debug)]
pub struct IntFeatureArray {
    values: Vec<Option<i64>>,
}

impl IntFeatureArray {
    /// The value of `node`, if it has one.
    pub closed spec fn value_of(&self, node: int) -> Option<i64> {
        if 0 < node < self.values@.len() {
            self.values@[node]
        } else {
            None
        }
    }

    /// The values of the entries whose node lies in `1..=max_node`.
    pub fn from_dict(data: &[(u32, i64)], max_node: u32) -> (r: Self)
        requires
            keys_ascending(data@),
            max_node < usize::MAX,
        ensures
            forall|n: int| 0 < n <= max_node ==> #[trigger] r.value_of(n) == entry_value(data@, n as u32),
            forall|n: int| n <= 0 || n > max_node ==> #[trigger] r.value_of(n) is None,
    {
        let mut values: Vec<Option<i64>> = Vec::new();
        let size = max_node as usize + 1;
        while values.len() < size
            invariant
                values@.len() <= size,
                forall|j: int| 0 <= j < values@.len() ==> values@[j] is None,
            decreases size - values@.len(),
        {
            values.push(None);
        }
        let mut i: usize = 0;
        while i < data.len()
            invariant
                0 <= i <= data.len(),
                size == max_node + 1,
                values@.len() == size,
                forall|n: int| 0 <= n < values@.len() ==> match #[trigger] values@[n] {
                    Some(v) => exists|j: int| 0 <= j < i && data@[j].0 == n && data@[j].1 == v,
                    None => !exists|j: int| 0 <= j < i && data@[j].0 == n && 1 <= n <= max_node,
                },
            decreases data.len() - i,
        {
            let (node, v) = data[i];
            if node != 0 && node <= max_node {
                values.set(node as usize, Some(v));
            }
            proof {
                assert forall|n: int| 0 <= n < values@.len() implies match #[trigger] values@[n] {
                    Some(v) => exists|j: int| 0 <= j < i + 1 && data@[j].0 == n && data@[j].1 == v,
                    None => !exists|j: int| 0 <= j < i + 1 && data@[j].0 == n && 1 <= n <= max_node,
                } by {
                    if n == node as int && 1 <= node <= max_node {
                        assert(data@[i as int].0 == n);
                    } else if exists|j: int| 0 <= j < i + 1 && data@[j].0 == n && 1 <= n <= max_node {
                        let j = choose|j: int| 0 <= j < i + 1 && data@[j].0 == n && 1 <= n <= max_node;
                        assert(j != i);
                    }
                }
            }
            i += 1;
        }
        let r = IntFeatureArray { values };
        proof {
            assert forall|n: int| 0 < n <= max_node implies #[trigger] r.value_of(n) == entry_value(data@, n as u32) by {
                match r.values@[n] {
                    Some(v) => {
                        let j = choose|j: int| 0 <= j < data@.len() && data@[j].0 == n && data@[j].1 == v;
                        lemma_entry_at(data@, j);
                    },
                    None => {
                        if exists|j: int| 0 <= j < data@.len() && data@[j].0 == n {
                            let j = choose|j: int| 0 <= j < data@.len() && data@[j].0 == n;
                            assert(data@[j].0 == n);
                        }
                    },
                }
            }
        }
        r
    }

    /// The value of a node; nothing for node 0, negative nodes, and nodes without one.
    pub fn get(&self, node: i64) -> (r: Option<i64>)
        ensures
            r == self.value_of(node as int),
    {
        if node <= 0 || node as u64 >= self.values.len() as u64 {
            return None;
        }
        self.values[node as usize]
    }

    /// The nodes, in their order, whose value is `expected`.
    pub fn filter_by_value(&self, nodes: &[u32], expected: i64) -> (r: Vec<u32>)
        ensures
            r@ == nodes@.filter(|n: u32| self.value_of(n as int) == Some(expected)),
    {
        let none: &[i64] = &[];
        let set: &[i64] = none;
        let r = self.filter_where(nodes, 0, expected, set);
        proof {
            assert((|n: u32| int_test(self.value_of(n as int), 0, expected, set@)) =~= (|n: u32| self.value_of(n as int) == Some(expected)));
        }
        r
    }

    /// The nodes, in their order, whose value is one of `expected`.
    pub fn filter_by_values(&self, nodes: &[u32], expected: &[i64]) -> (r: Vec<u32>)
        ensures
            r@ == nodes@.filter(|n: u32| match self.value_of(n as int) {
                Some(v) => expected@.contains(v),
                None => false,
            }),
    {
        let none: &[i64] = &[];
        let set: &[i64] = expected;
        let r = self.filter_where(nodes, 1, 0, set);
        proof {
            assert((|n: u32| int_test(self.value_of(n as int), 1, 0, set@)) =~= (|n: u32| match self.value_of(n as int) {
                Some(v) => expected@.contains(v),
                None => false,
            }));
        }
        r
    }

    /// The nodes, in their order, whose value is below `threshold`.
    pub fn filter_less_than(&self, nodes: &[u32], threshold: i64) -> (r: Vec<u32>)
        ensures
            r@ == nodes@.filter(|n: u32| match self.value_of(n as int) {
                Some(v) => v < threshold,
                None => false,
            }),
    {
        let none: &[i64] = &[];
        let set: &[i64] = none;
        let r = self.filter_where(nodes, 2, threshold, set);
        proof {
            assert((|n: u32| int_test(self.value_of(n as int), 2, threshold, set@)) =~= (|n: u32| match self.value_of(n as int) {
                Some(v) => v < threshold,
                None => false,
            }));
        }
        r
    }

    /// The nodes, in their order, whose value is above `threshold`.
    pub fn filter_greater_than(&self, nodes: &[u32], threshold: i64) -> (r: Vec<u32>)
        ensures
            r@ == nodes@.filter(|n: u32| match self.value_of(n as int) {
                Some(v) => v > threshold,
                None => false,
            }),
    {
        let none: &[i64] = &[];
        let set: &[i64] = none;
        let r = self.filter_where(nodes, 3, threshold, set);
        proof {
            assert((|n: u32| int_test(self.value_of(n as int), 3, threshold, set@)) =~= (|n: u32| match self.value_of(n as int) {
                Some(v) => v > threshold,
                None => false,
            }));
        }
        r
    }

    /// The nodes, in their order, that have a value.
    pub fn filter_has_value(&self, nodes: &[u32]) -> (r: Vec<u32>)
        ensures
            r@ == nodes@.filter(|n: u32| self.value_of(n as int) is Some),
    {
        let none: &[i64] = &[];
        let r = self.filter_where(nodes, 4, 0, none);
        proof {
            assert((|n: u32| int_test(self.value_of(n as int), 4, 0, none@)) =~= (|n: u32| self.value_of(n as int) is Some));
        }
        r
    }

    /// The nodes, in their order, that have no value.
    pub fn filter_missing_value(&self, nodes: &[u32]) -> (r: Vec<u32>)
        ensures
            r@ == nodes@.filter(|n: u32| self.value_of(n as int) is None),
    {
        let none: &[i64] = &[];
        let r = self.filter_where(nodes, 5, 0, none);
        proof {
            assert((|n: u32| int_test(self.value_of(n as int), 5, 0, none@)) =~= (|n: u32| self.value_of(n as int) is None));
        }
        r
    }

    fn filter_where(&self, nodes: &[u32], test: u8, bound: i64, set: &[i64]) -> (r: Vec<u32>)
        ensures
            r@ == nodes@.filter(|n: u32| int_test(self.value_of(n as int), test, bound, set@)),
    {
        let ghost p = |n: u32| int_test(self.value_of(n as int), test, bound, set@);
        let mut r: Vec<u32> = Vec::new();
        let mut i: usize = 0;
        while i < nodes.len()
            invariant
                0 <= i <= nodes.len(),
                p == (|n: u32| int_test(self.value_of(n as int), test, bound, set@)),
                r@ == nodes@.take(i as int).filter(p),
            decreases nodes.len() - i,
        {
            let n = nodes[i];
            proof {
                assert(nodes@.take(i + 1) == nodes@.take(i as int).push(n));
                nodes@.take(i as int).lemma_filter_push(n, p);
            }
            let v = self.get(n as i64);
            let keep = match v {
                Some(x) => if test == 0 {
                    x == bound
                } else if test == 1 {
                    int_in(set, x)
                } else if test == 2 {
                    x < bound
                } else if test == 3 {
                    x > bound
                } else {
                    test == 4
                },
                None => test == 5,
            };
            if keep {
                r.push(n);
            }
            i += 1;
        }
        proof {
            assert(nodes@.take(nodes@.len() as int) == nodes@);
        }
        r
    }
}

/// The tests by which integer values are filtered: equal to `bound` (0), in
/// `set` (1), below (2) or above (3) `bound`, present (4), absent (5).
pub open spec fn int_test(v: Option<i64>, test: u8, bound: i64, set: Seq<i64>) -> bool {
    match v {
        Some(x) => if test == 0 {
            x == bound
        } else if test == 1 {
            set.contains(x)
        } else if test == 2 {
            x < bound
        } else if test == 3 {
            x > bound
        } else {
            test == 4
        },
        None => test == 5,
    }
}

fn u32_in(set: &[u32], x: u32) -> (r: bool)
    ensures
        r == set@.contains(x),
{
    let mut i: usize = 0;
    while i < set.len()
        invariant
            0 <= i <= set@.len(),
            forall|j: int| 0 <= j < i ==> set@[j] != x,
        decreases set@.len() - i,
    {
        if set[i] == x {
            assert(set@[i as int] == x);
            return true;
        }
        i += 1;
    }
    false
}

fn int_in(set: &[i64], x: i64) -> (r: bool)
    ensures
        r == set@.contains(x),
{
    let mut i: usize = 0;
    while i < set.len()
        invariant
            0 <= i <= set@.len(),
            forall|j: int| 0 <= j < i ==> set@[j] != x,
        decreases set@.len() - i,
    {
        if set[i] == x {
            assert(set@[i as int] == x);
            return true;
        }
        i += 1;
    }
    false
}

// ---------------------------------------------------------------------------
// Adjacency rows
// ---------------------------------------------------------------------------

/// The rows as sequences.
pub open spec fn rows_seq(v: Seq<Vec<u32>>) -> Seq<Seq<u32>> {
    v.map_values(|r: Vec<u32>| r@)
}

fn copy_rows(v: &[Vec<u32>]) -> (r: Vec<Vec<u32>>)
    ensures
        rows_seq(r@) == rows_seq(v@),
{
    let mut r: Vec<Vec<u32>> = Vec::new();
    let mut i: usize = 0;
    while i < v.len()
        invariant
            0 <= i <= v.len(),
            rows_seq(r@) == rows_seq(v@.take(i as int)),
        decreases v.len() - i,
    {
        let row = copy_nodes(v[i].as_slice());
        let ghost before = r@;
        r.push(row);
        proof {
            assert(rows_seq(r@) =~= rows_seq(before).push(row@));
            assert(rows_seq(v@.take(i + 1)) =~= rows_seq(v@.take(i as int)).push(v@[i as int]@));
        }
        i += 1;
    }
    proof {
        assert(v@.take(v@.len() as int) == v@);
    }
    r
}

/// Rows of target nodes, one per source node (row `s - 1` for source `s`),
/// optionally with a cached copy of the rows in memory.
#[derive(Debug)]
pub struct CSRArray {
    rows: Vec<Vec<u32>>,
    cached_rows: Option<Vec<Vec<u32>>>,
}

impl CSRArray {
    /// A cached copy, when present, has the same rows.
    #[verifier::type_invariant]
    spec fn cache_matches(&self) -> bool {
        match self.cached_rows {
            Some(c) => rows_seq(c@) == rows_seq(self.rows@),
            None => true,
        }
    }

    /// The rows.
    pub closed spec fn view_rows(&self) -> Seq<Seq<u32>> {
        rows_seq(self.rows@)
    }

    pub closed spec fn cached(&self) -> bool {
        self.cached_rows is Some
    }

    /// The row of a source node, if the source has one.
    pub open spec fn source_row(&self, source: i64) -> Option<Seq<u32>> {
        if 1 <= source && source - 1 < self.view_rows().len() {
            Some(self.view_rows()[source - 1])
        } else {
            None
        }
    }

    /// `t` is a target of `source`.
    pub open spec fn source_has(&self, source: i64, t: u32) -> bool {
        match self.source_row(source) {
            Some(row) => row.contains(t),
            None => false,
        }
    }

    /// The rows of the given sequences, uncached.
    pub fn from_sequences(sequences: &[Vec<u32>]) -> (r: Self)
        ensures
            r.view_rows() == rows_seq(sequences@),
            !r.cached(),
    {
        CSRArray { rows: copy_rows(sequences), cached_rows: None }
    }

    pub fn len(&self) -> (r: usize)
        ensures
            r == self.view_rows().len(),
    {
        self.rows.len()
    }

    pub fn is_empty(&self) -> (r: bool)
        ensures
            r == (self.view_rows().len() == 0),
    {
        self.rows.len() == 0
    }

    /// Row `index`, if there is one.
    pub fn row(&self, index: usize) -> (r: Option<&[u32]>)
        ensures
            match r {
                Some(s) => index < self.view_rows().len() && s@ == self.view_rows()[index as int],
                None => index >= self.view_rows().len(),
            },
    {
        proof {
            use_type_invariant(self);
        }
        match &self.cached_rows {
            Some(c) => {
                proof {
                    assert(rows_seq(c@).len() == c@.len());
                }
                if index < c.len() {
                    proof {
                        assert(rows_seq(c@)[index as int] == c@[index as int]@);
                    }
                    Some(c[index].as_slice())
                } else {
                    None
                }
            },
            None => {
                if index < self.rows.len() {
                    Some(self.rows[index].as_slice())
                } else {
                    None
                }
            },
        }
    }

    /// Row `index` as a list; empty where there is no such row.
    pub fn get_as_tuple(&self, index: usize) -> (r: Vec<u32>)
        ensures
            r@ == if index < self.view_rows().len() {
                self.view_rows()[index as int]
            } else {
                seq![]
            },
    {
        match self.row(index) {
            Some(s) => copy_nodes(s),
            None => Vec::new(),
        }
    }

    fn row_for_source(&self, source: i64) -> (r: Option<&[u32]>)
        ensures
            match r {
                Some(s) => self.source_row(source) == Some(s@),
                None => self.source_row(source) is None,
            },
    {
        if source <= 0 {
            return None;
        }
        let k = (source - 1) as u64;
        if k >= self.len() as u64 {
            return None;
        }
        self.row(k as usize)
    }

    /// All targets of the given sources, ascending without repeats.
    pub fn get_all_targets(&self, sources: &[i64]) -> (r: Vec<u32>)
        ensures
            strictly_sorted_u32(r@),
            forall|t: u32| r@.contains(t) <==> exists|i: int| 0 <= i < sources@.len()
                && #[trigger] self.source_has(sources@[i], t),
    {
        let mut all: Vec<u32> = Vec::new();
        let mut i: usize = 0;
        while i < sources.len()
            invariant
                0 <= i <= sources.len(),
                forall|t: u32| #![trigger all@.contains(t)] all@.contains(t) <==> exists|j: int| 0 <= j < i
                    && #[trigger] self.source_has(sources@[j], t),
            decreases sources.len() - i,
        {
            let ghost before = all@;
            match self.row_for_source(sources[i]) {
                Some(row) => {
                    let mut k: usize = 0;
                    while k < row.len()
                        invariant
                            0 <= k <= row.len(),
                            forall|t: u32| #![trigger all@.contains(t)] all@.contains(t) <==> (before.contains(t)
                                || row@.take(k as int).contains(t)),
                        decreases row.len() - k,
                    {
                        let ghost b2 = all@;
                        all.push(row[k]);
                        proof {
                            assert forall|t: u32| #![trigger all@.contains(t)] all@.contains(t) <==> (before.contains(t)
                                || row@.take(k + 1).contains(t)) by {
                                crate::sorting::lemma_push_contains_pub(b2, row@[k as int], t);
                                assert(row@.take(k + 1) == row@.take(k as int).push(row@[k as int]));
                                crate::sorting::lemma_push_contains_pub(row@.take(k as int), row@[k as int], t);
                            }
                        }
                        k += 1;
                    }
                    proof {
                        assert(row@.take(row@.len() as int) == row@);
                        assert forall|t: u32| #![trigger all@.contains(t)] all@.contains(t) <==> exists|j: int| 0 <= j < i + 1
                            && #[trigger] self.source_has(sources@[j], t) by {
                            if before.contains(t) {
                                let j = choose|j: int| 0 <= j < i && #[trigger] self.source_has(sources@[j], t);
                                assert(0 <= j < i + 1);
                            }
                            if row@.contains(t) {
                                assert(self.source_has(sources@[i as int], t));
                            }
                            if exists|j: int| 0 <= j < i + 1 && #[trigger] self.source_has(sources@[j], t) {
                                let j = choose|j: int| 0 <= j < i + 1 && #[trigger] self.source_has(sources@[j], t);
                                if j < i {
                                    assert(before.contains(t));
                                }
                            }
                        }
                    }
                },
                None => {
                    proof {
                        assert forall|t: u32| #![trigger all@.contains(t)] all@.contains(t) <==> exists|j: int| 0 <= j < i + 1
                            && #[trigger] self.source_has(sources@[j], t) by {
                            if before.contains(t) {
                                let j = choose|j: int| 0 <= j < i && #[trigger] self.source_has(sources@[j], t);
                                assert(0 <= j < i + 1);
                            }
                            if exists|j: int| 0 <= j < i + 1 && #[trigger] self.source_has(sources@[j], t) {
                                let j = choose|j: int| 0 <= j < i + 1 && #[trigger] self.source_has(sources@[j], t);
                                if j < i {
                                    assert(before.contains(t));
                                }
                            }
                        }
                    }
                },
            }
            i += 1;
        }
        sort_dedup(all)
    }

    /// `source` has a target among `targets`.
    pub open spec fn hits(&self, source: i64, targets: Seq<u32>) -> bool {
        exists|t: u32| #[trigger] self.source_has(source, t) && targets.contains(t)
    }

    /// The sources (as nodes) that have a target among `targets`, and those
    /// targets that some given source reaches; both ascending without repeats.
    pub fn filter_sources_with_targets_in(&self, sources: &[i64], targets: &[u32]) -> (r: (Vec<u32>, Vec<u32>))
        ensures
            strictly_sorted_u32(r.0@),
            strictly_sorted_u32(r.1@),
            forall|x: u32| r.0@.contains(x) <==> exists|i: int| 0 <= i < sources@.len()
                && #[trigger] self.hits(sources@[i], targets@) && x == sources@[i] as u32,
            forall|t: u32| r.1@.contains(t) <==> (targets@.contains(t) && exists|i: int| 0 <= i < sources@.len()
                && #[trigger] self.source_has(sources@[i], t)),
    {
        let mut ms: Vec<u32> = Vec::new();
        let mut mt: Vec<u32> = Vec::new();
        let mut i: usize = 0;
        while i < sources.len()
            invariant
                0 <= i <= sources.len(),
                forall|x: u32| #![trigger ms@.contains(x)] ms@.contains(x) <==> exists|j: int| 0 <= j < i
                    && #[trigger] self.hits(sources@[j], targets@) && x == sources@[j] as u32,
                forall|t: u32| #![trigger mt@.contains(t)] mt@.contains(t) <==> (targets@.contains(t) && exists|j: int| 0 <= j < i
                    && #[trigger] self.source_has(sources@[j], t)),
            decreases sources.len() - i,
        {
            let ghost ms0 = ms@;
            let ghost mt0 = mt@;
            let src = sources[i];
            match self.row_for_source(src) {
                Some(row) => {
                    let mut hit = false;
                    let mut k: usize = 0;
                    while k < row.len()
                        invariant
                            0 <= k <= row.len(),
                            row@ == self.source_row(src)->0,
                            self.source_row(src) is Some,
                            hit == exists|t: u32| row@.take(k as int).contains(t) && #[trigger] targets@.contains(t),
                            forall|t: u32| #![trigger mt@.contains(t)] mt@.contains(t) <==> (mt0.contains(t)
                                || (row@.take(k as int).contains(t) && targets@.contains(t))),
                        decreases row.len() - k,
                    {
                        let t = row[k];
                        proof {
                            assert(row@.take(k + 1) == row@.take(k as int).push(t));
                        }
                        let ghost b = mt@;
                        if crate::storage::u32_in(targets, t) {
                            mt.push(t);
                            hit = true;
                            proof {
                                assert forall|y: u32| #![trigger mt@.contains(y)] mt@.contains(y) <==> (mt0.contains(y)
                                    || (row@.take(k + 1).contains(y) && targets@.contains(y))) by {
                                    crate::sorting::lemma_push_contains_pub(b, t, y);
                                    crate::sorting::lemma_push_contains_pub(row@.take(k as int), t, y);
                                }
                                assert(row@.take(k + 1)[k as int] == t);
                                assert(row@.take(k + 1).contains(t));
                            }
                        } else {
                            proof {
                                assert forall|y: u32| #![trigger mt@.contains(y)] mt@.contains(y) <==> (mt0.contains(y)
                                    || (row@.take(k + 1).contains(y) && targets@.contains(y))) by {
                                    crate::sorting::lemma_push_contains_pub(row@.take(k as int), t, y);
                                }
                                assert(hit == exists|y: u32| row@.take(k + 1).contains(y) && #[trigger] targets@.contains(y)) by {
                                    if exists|y: u32| row@.take(k + 1).contains(y) && #[trigger] targets@.contains(y) {
                                        let y = choose|y: u32| row@.take(k + 1).contains(y) && #[trigger] targets@.contains(y);
                                        crate::sorting::lemma_push_contains_pub(row@.take(k as int), t, y);
                                    }
                                    if hit {
                                        let y = choose|y: u32| row@.take(k as int).contains(y) && #[trigger] targets@.contains(y);
                                        crate::sorting::lemma_push_contains_pub(row@.take(k as int), t, y);
                                    }
                                }
                            }
                        }
                        k += 1;
                    }
                    proof {
                        assert(row@.take(row@.len() as int) == row@);
                        assert(hit == self.hits(src, targets@)) by {
                            if hit {
                                let y = choose|y: u32| row@.contains(y) && #[trigger] targets@.contains(y);
                                assert(self.source_has(src, y));
                            }
                            if self.hits(src, targets@) {
                                let y = choose|y: u32| #[trigger] self.source_has(src, y) && targets@.contains(y);
                                assert(row@.contains(y) && targets@.contains(y));
                            }
                        }
                    }
                    if hit {
                        ms.push(#[verifier::truncate] (src as u32));
                    }
                    proof {
                        assert forall|x: u32| #![trigger ms@.contains(x)] ms@.contains(x) <==> exists|j: int| 0 <= j < i + 1
                            && #[trigger] self.hits(sources@[j], targets@) && x == sources@[j] as u32 by {
                            if hit {
                                crate::sorting::lemma_push_contains_pub(ms0, src as u32, x);
                            }
                            if exists|j: int| 0 <= j < i + 1 && #[trigger] self.hits(sources@[j], targets@) && x == sources@[j] as u32 {
                                let j = choose|j: int| 0 <= j < i + 1 && #[trigger] self.hits(sources@[j], targets@) && x == sources@[j] as u32;
                                if j < i {
                                    assert(ms0.contains(x));
                                }
                            }
                            if ms0.contains(x) {
                                let j = choose|j: int| 0 <= j < i && #[trigger] self.hits(sources@[j], targets@) && x == sources@[j] as u32;
                                assert(0 <= j < i + 1);
                            }
                        }
                        assert forall|t: u32| #![trigger mt@.contains(t)] mt@.contains(t) <==> (targets@.contains(t) && exists|j: int| 0 <= j < i + 1
                            && #[trigger] self.source_has(sources@[j], t)) by {
                            if row@.contains(t) {
                                assert(self.source_has(sources@[i as int], t));
                            }
                            if mt0.contains(t) {
                                let j = choose|j: int| 0 <= j < i && #[trigger] self.source_has(sources@[j], t);
                                assert(0 <= j < i + 1);
                            }
                            if targets@.contains(t) && exists|j: int| 0 <= j < i + 1 && #[trigger] self.source_has(sources@[j], t) {
                                let j = choose|j: int| 0 <= j < i + 1 && #[trigger] self.source_has(sources@[j], t);
                                if j < i {
                                    assert(mt0.contains(t));
                                }
                            }
                        }
                    }
                },
                None => {
                    proof {
                        assert(!self.hits(src, targets@));
                        assert forall|x: u32| #![trigger ms@.contains(x)] ms@.contains(x) <==> exists|j: int| 0 <= j < i + 1
                            && #[trigger] self.hits(sources@[j], targets@) && x == sources@[j] as u32 by {
                            if exists|j: int| 0 <= j < i + 1 && #[trigger] self.hits(sources@[j], targets@) && x == sources@[j] as u32 {
                                let j = choose|j: int| 0 <= j < i + 1 && #[trigger] self.hits(sources@[j], targets@) && x == sources@[j] as u32;
                                assert(j != i);
                            }
                            if ms0.contains(x) {
                                let j = choose|j: int| 0 <= j < i && #[trigger] self.hits(sources@[j], targets@) && x == sources@[j] as u32;
                                assert(0 <= j < i + 1);
                            }
                        }
                        assert forall|t: u32| #![trigger mt@.contains(t)] mt@.contains(t) <==> (targets@.contains(t) && exists|j: int| 0 <= j < i + 1
                            && #[trigger] self.source_has(sources@[j], t)) by {
                            if mt0.contains(t) {
                                let j = choose|j: int| 0 <= j < i && #[trigger] self.source_has(sources@[j], t);
                                assert(0 <= j < i + 1);
                            }
                            if targets@.contains(t) && exists|j: int| 0 <= j < i + 1 && #[trigger] self.source_has(sources@[j], t) {
                                let j = choose|j: int| 0 <= j < i + 1 && #[trigger] self.source_has(sources@[j], t);
                                assert(j != i);
                            }
                        }
                    }
                },
            }
            i += 1;
        }
        (sort_dedup(ms), sort_dedup(mt))
    }

    pub fn is_cached(&self) -> (r: bool)
        ensures
            r == self.cached(),
    {
        self.cached_rows.is_some()
    }

    /// Keeps a copy of the rows in memory; the rows stay the same.
    pub fn preload_to_ram(&mut self)
        ensures
            final(self).view_rows() == old(self).view_rows(),
            final(self).cached(),
    {
        if self.cached_rows.is_none() {
            let c = copy_rows(self.rows.as_slice());
            self.cached_rows = Some(c);
        }
    }

    /// Drops the copy in memory; the rows stay the same.
    pub fn release_cache(&mut self)
        ensures
            final(self).view_rows() == old(self).view_rows(),
            !final(self).cached(),
    {
        self.cached_rows = None;
    }

    /// Bytes held by the copy in memory: four per target, none when uncached.
    pub fn memory_usage_bytes(&self) -> (r: usize)
        requires
            4 * total_len(self.view_rows()) <= usize::MAX,
        ensures
            r == if self.cached() {
                4 * total_len(self.view_rows())
            } else {
                0
            },
    {
        proof {
            use_type_invariant(self);
        }
        match &self.cached_rows {
            Some(c) => {
                let mut sum: usize = 0;
                let mut i: usize = 0;
                while i < c.len()
                    invariant
                        0 <= i <= c.len(),
                        rows_seq(c@) == self.view_rows(),
                        4 * total_len(self.view_rows()) <= usize::MAX,
                        sum == 4 * total_len(rows_seq(c@).take(i as int)),
                    decreases c.len() - i,
                {
                    proof {
                        assert(rows_seq(c@).take(i + 1).drop_last() =~= rows_seq(c@).take(i as int));
                        lemma_total_prefix(rows_seq(c@), i + 1);
                    }
                    sum = sum + 4 * c[i].len();
                    i += 1;
                }
                proof {
                    assert(rows_seq(c@).take(c@.len() as int) =~= rows_seq(c@));
                }
                sum
            },
            None => 0,
        }
    }
}

/// The number of targets in all rows.
pub open spec fn total_len(rows: Seq<Seq<u32>>) -> nat
    decreases rows.len(),
{
    if rows.len() == 0 {
        0
    } else {
        total_len(rows.drop_last()) + rows.last().len()
    }
}

proof fn lemma_total_prefix(rows: Seq<Seq<u32>>, k: int)
    requires
        0 <= k <= rows.len(),
    ensures
        total_len(rows.take(k)) <= total_len(rows),
    decreases rows.len(),
{
    if k < rows.len() {
        assert(rows.drop_last().take(k) =~= rows.take(k));
        lemma_total_prefix(rows.drop_last(), k);
    } else {
        assert(rows.take(k) =~= rows);
    }
}

// ---------------------------------------------------------------------------
// Rows of valued edges
// ---------------------------------------------------------------------------

/// The value of an edge: a number or a string.
#[derive(Debug, Clone, PartialEq, Eq)]
pub enum CsrValue {
    Int(i64),
    Str(String),
}

pub enum CsrValueView {
    Int(i64),
    Str(Seq<char>),
}

impl View for CsrValue {
    type V = CsrValueView;

    open spec fn view(&self) -> CsrValueView {
        match self {
            CsrValue::Int(i) => CsrValueView::Int(*i),
            CsrValue::Str(s) => CsrValueView::Str(s@),
        }
    }
}

/// An equal copy of a value.
pub fn copy_value(v: &CsrValue) -> (r: CsrValue)
    ensures
        r@ == v@,
{
    match v {
        CsrValue::Int(i) => CsrValue::Int(*i),
        CsrValue::Str(s) => CsrValue::Str(copy_string(s)),
    }
}

/// A row of `(target, value)` entries as values.
pub open spec fn entries_view(row: Seq<(u32, CsrValue)>) -> Seq<(u32, CsrValueView)> {
    row.map_values(|e: (u32, CsrValue)| (e.0, e.1@))
}

fn copy_entries(row: &[(u32, CsrValue)]) -> (r: Vec<(u32, CsrValue)>)
    ensures
        entries_view(r@) == entries_view(row@),
{
    let mut r: Vec<(u32, CsrValue)> = Vec::new();
    let mut i: usize = 0;
    while i < row.len()
        invariant
            0 <= i <= row.len(),
            entries_view(r@) == entries_view(row@.take(i as int)),
        decreases row.len() - i,
    {
        let v = copy_value(&row[i].1);
        let ghost before = r@;
        r.push((row[i].0, v));
        proof {
            assert(entries_view(r@) =~= entries_view(before).push((row@[i as int].0, v@)));
            assert(entries_view(row@.take(i + 1)) =~= entries_view(row@.take(i as int)).push(
                (row@[i as int].0, row@[i as int].1@),
            ));
        }
        i += 1;
    }
    proof {
        assert(row@.take(row@.len() as int) == row@);
    }
    r
}

/// The rows a list of `(row, entries)` gives when placed into `num_rows` empty
/// rows: each listed row within range holds its entries.
pub open spec fn placed_rows(data: Seq<(u32, Seq<(u32, CsrValueView)>)>, num_rows: nat) -> Seq<Seq<(u32, CsrValueView)>> {
    Seq::new(num_rows, |i: int| match entry_value(data, i as u32) {
        Some(e) => if i <= u32::MAX { e } else { seq![] },
        None => seq![],
    })
}

/// Integer entries as values.
pub open spec fn int_entries(row: Seq<(u32, i64)>) -> Seq<(u32, CsrValueView)> {
    row.map_values(|e: (u32, i64)| (e.0, CsrValueView::Int(e.1)))
}

/// String entries as values.
pub open spec fn str_entries(row: Seq<(u32, String)>) -> Seq<(u32, CsrValueView)> {
    row.map_values(|e: (u32, String)| (e.0, CsrValueView::Str(e.1@)))
}

/// Rows of valued edges: row `s` holds the `(target, value)` entries of source `s`.
#[derive(Debug)]
pub struct CSRArrayWithValues {
    rows: Vec<Vec<(u32, CsrValue)>>,
}

impl CSRArrayWithValues {
    pub closed spec fn view_rows(&self) -> Seq<Seq<(u32, CsrValueView)>> {
        self.rows@.map_values(|r: Vec<(u32, CsrValue)>| entries_view(r@))
    }

    /// `num_rows` rows, each listed row within range holding its entries.
    pub fn from_dict_of_dicts(data: &[(u32, Vec<(u32, CsrValue)>)], num_rows: usize) -> (r: Self)
        requires
            keys_ascending(data@),
        ensures
            r.view_rows() == placed_rows(
                data@.map_values(|e: (u32, Vec<(u32, CsrValue)>)| (e.0, entries_view(e.1@))),
                num_rows as nat,
            ),
    {
        let ghost d = data@.map_values(|e: (u32, Vec<(u32, CsrValue)>)| (e.0, entries_view(e.1@)));
        let mut rows: Vec<Vec<(u32, CsrValue)>> = Vec::new();
        while rows.len() < num_rows
            invariant
                rows@.len() <= num_rows,
                forall|j: int| 0 <= j < rows@.len() ==> rows@[j]@.len() == 0,
            decreases num_rows - rows@.len(),
        {
            rows.push(Vec::new());
        }
        let mut i: usize = 0;
        while i < data.len()
            invariant
                0 <= i <= data.len(),
                rows@.len() == num_rows,
                keys_ascending(data@),
                d == data@.map_values(|e: (u32, Vec<(u32, CsrValue)>)| (e.0, entries_view(e.1@))),
                forall|n: int| 0 <= n < rows@.len() ==> #[trigger] entries_view(rows@[n]@) == (
                    if exists|j: int| 0 <= j < i && data@[j].0 == n {
                        entries_view(data@[choose|j: int| 0 <= j < i && data@[j].0 == n].1@)
                    } else {
                        seq![]
                    }),
            decreases data.len() - i,
        {
            let node = data[i].0;
            if (node as usize) < num_rows {
                let row = copy_entries(data[i].1.as_slice());
                rows.set(node as usize, row);
            }
            proof {
                assert forall|n: int| 0 <= n < rows@.len() implies #[trigger] entries_view(rows@[n]@) == (
                    if exists|j: int| 0 <= j < i + 1 && data@[j].0 == n {
                        entries_view(data@[choose|j: int| 0 <= j < i + 1 && data@[j].0 == n].1@)
                    } else {
                        seq![]
                    }) by {
                    if n == node as int {
                        let j = choose|j: int| 0 <= j < i + 1 && data@[j].0 == n;
                        assert(data@[i as int].0 == n);
                        if j != i {
                            assert(data@[j].0 < data@[i as int].0);
                        }
                        if exists|j2: int| 0 <= j2 < i && data@[j2].0 == n {
                            let j2 = choose|j2: int| 0 <= j2 < i && data@[j2].0 == n;
                            assert(data@[j2].0 < data@[i as int].0);
                        }
                    } else {
                        if exists|j: int| 0 <= j < i + 1 && data@[j].0 == n {
                            let j = choose|j: int| 0 <= j < i + 1 && data@[j].0 == n;
                            assert(j != i);
                            assert(exists|j2: int| 0 <= j2 < i && data@[j2].0 == n);
                            let j2 = choose|j2: int| 0 <= j2 < i && data@[j2].0 == n;
                            if j != j2 {
                                if j < j2 {
                                    assert(data@[j].0 < data@[j2].0);
                                } else {
                                    assert(data@[j2].0 < data@[j].0);
                                }
                            }
                        } else {
                            assert(!exists|j2: int| 0 <= j2 < i && data@[j2].0 == n) by {
                                if exists|j2: int| 0 <= j2 < i && data@[j2].0 == n {
                                    let j2 = choose|j2: int| 0 <= j2 < i && data@[j2].0 == n;
                                    assert(0 <= j2 < i + 1 && data@[j2].0 == n);
                                }
                            }
                        }
                    }
                }
            }
            i += 1;
        }
        let r = CSRArrayWithValues { rows };
        proof {
            let p = placed_rows(d, num_rows as nat);
            assert forall|n: int| 0 <= n < num_rows implies r.view_rows()[n] == p[n] by {
                assert(r.view_rows()[n] == entries_view(rows@[n]@));
                if exists|j: int| 0 <= j < data@.len() && data@[j].0 == n {
                    let j = choose|j: int| 0 <= j < data@.len() && data@[j].0 == n;
                    assert(d[j].0 == n);
                    lemma_entry_at(d, j);
                    assert(keys_ascending(d)) by {
                        assert forall|a: int, b: int| 0 <= a < b < d.len() implies d[a].0 < d[b].0 by {
                            assert(d[a].0 == data@[a].0 && d[b].0 == data@[b].0);
                        }
                    }
                    lemma_entry_at(d, j);
                    assert(n <= u32::MAX);
                } else if n <= u32::MAX {
                    if exists|j: int| 0 <= j < d.len() && d[j].0 == n as u32 {
                        let j = choose|j: int| 0 <= j < d.len() && d[j].0 == n as u32;
                        assert(d[j].0 == data@[j].0);
                        assert(data@[j].0 == n);
                    }
                }
            }
            assert(r.view_rows() =~= p);
        }
        r
    }

    /// `num_rows` rows of integer-valued entries.
    pub fn from_int_dict_of_dicts(data: &[(u32, Vec<(u32, i64)>)], num_rows: usize) -> (r: Self)
        requires
            keys_ascending(data@),
        ensures
            r.view_rows() == placed_rows(
                data@.map_values(|e: (u32, Vec<(u32, i64)>)| (e.0, int_entries(e.1@))),
                num_rows as nat,
            ),
    {
        let mut conv: Vec<(u32, Vec<(u32, CsrValue)>)> = Vec::new();
        let mut i: usize = 0;
        while i < data.len()
            invariant
                0 <= i <= data.len(),
                conv@.len() == i,
                forall|j: int| 0 <= j < i ==> (#[trigger] conv@[j]).0 == data@[j].0
                    && entries_view(conv@[j].1@) == int_entries(data@[j].1@),
            decreases data.len() - i,
        {
            let row = &data[i].1;
            let mut out: Vec<(u32, CsrValue)> = Vec::new();
            let mut k: usize = 0;
            while k < row.len()
                invariant
                    0 <= k <= row.len(),
                    entries_view(out@) == int_entries(row@.take(k as int)),
                decreases row.len() - k,
            {
                let ghost before = out@;
                out.push((row[k].0, CsrValue::Int(row[k].1)));
                proof {
                    assert(entries_view(out@) =~= entries_view(before).push((row@[k as int].0, CsrValueView::Int(row@[k as int].1))));
                    assert(int_entries(row@.take(k + 1)) =~= int_entries(row@.take(k as int)).push(
                        (row@[k as int].0, CsrValueView::Int(row@[k as int].1)),
                    ));
                }
                k += 1;
            }
            proof {
                assert(row@.take(row@.len() as int) == row@);
            }
            conv.push((data[i].0, out));
            i += 1;
        }
        proof {
            assert forall|a: int, b: int| 0 <= a < b < conv@.len() implies conv@[a].0 < conv@[b].0 by {
                assert(conv@[a].0 == data@[a].0);
                assert(conv@[b].0 == data@[b].0);
            }
        }
        let r = Self::from_dict_of_dicts(conv.as_slice(), num_rows);
        proof {
            assert(conv@.map_values(|e: (u32, Vec<(u32, CsrValue)>)| (e.0, entries_view(e.1@))) =~= data@.map_values(
                |e: (u32, Vec<(u32, i64)>)| (e.0, int_entries(e.1@)),
            ));
        }
        r
    }

    /// `num_rows` rows of string-valued entries.
    pub fn from_string_dict_of_dicts(data: &[(u32, Vec<(u32, String)>)], num_rows: usize) -> (r: Self)
        requires
            keys_ascending(data@),
        ensures
            r.view_rows() == placed_rows(
                data@.map_values(|e: (u32, Vec<(u32, String)>)| (e.0, str_entries(e.1@))),
                num_rows as nat,
            ),
    {
        let mut conv: Vec<(u32, Vec<(u32, CsrValue)>)> = Vec::new();
        let mut i: usize = 0;
        while i < data.len()
            invariant
                0 <= i <= data.len(),
                conv@.len() == i,
                forall|j: int| 0 <= j < i ==> (#[trigger] conv@[j]).0 == data@[j].0
                    && entries_view(conv@[j].1@) == str_entries(data@[j].1@),
            decreases data.len() - i,
        {
            let row = &data[i].1;
            let mut out: Vec<(u32, CsrValue)> = Vec::new();
            let mut k: usize = 0;
            while k < row.len()
                invariant
                    0 <= k <= row.len(),
                    entries_view(out@) == str_entries(row@.take(k as int)),
                decreases row.len() - k,
            {
                let ghost before = out@;
                let t = copy_string(&row[k].1);
                out.push((row[k].0, CsrValue::Str(t)));
                proof {
                    assert(entries_view(out@) =~= entries_view(before).push((row@[k as int].0, CsrValueView::Str(row@[k as int].1@))));
                    assert(str_entries(row@.take(k + 1)) =~= str_entries(row@.take(k as int)).push(
                        (row@[k as int].0, CsrValueView::Str(row@[k as int].1@)),
                    ));
                }
                k += 1;
            }
            proof {
                assert(row@.take(row@.len() as int) == row@);
            }
            conv.push((data[i].0, out));
            i += 1;
        }
        proof {
            assert forall|a: int, b: int| 0 <= a < b < conv@.len() implies conv@[a].0 < conv@[b].0 by {
                assert(conv@[a].0 == data@[a].0);
                assert(conv@[b].0 == data@[b].0);
            }
        }
        let r = Self::from_dict_of_dicts(conv.as_slice(), num_rows);
        proof {
            assert(conv@.map_values(|e: (u32, Vec<(u32, CsrValue)>)| (e.0, entries_view(e.1@))) =~= data@.map_values(
                |e: (u32, Vec<(u32, String)>)| (e.0, str_entries(e.1@)),
            ));
        }
        r
    }

    pub fn len(&self) -> (r: usize)
        ensures
            r == self.view_rows().len(),
    {
        self.rows.len()
    }

    pub fn is_empty(&self) -> (r: bool)
        ensures
            r == (self.view_rows().len() == 0),
    {
        self.rows.len() == 0
    }

    /// The targets and the values of row `index`, if there is one.
    pub fn row(&self, index: usize) -> (r: Option<(Vec<u32>, Vec<CsrValue>)>)
        ensures
            match r {
                Some(p) => index < self.view_rows().len() && p.0@ == self.view_rows()[index as int].map_values(
                    |e: (u32, CsrValueView)| e.0,
                ) && p.1@.map_values(|v: CsrValue| v@) == self.view_rows()[index as int].map_values(
                    |e: (u32, CsrValueView)| e.1,
                ),
                None => index >= self.view_rows().len(),
            },
    {
        if index >= self.rows.len() {
            return None;
        }
        let row = &self.rows[index];
        let mut ts: Vec<u32> = Vec::new();
        let mut vs: Vec<CsrValue> = Vec::new();
        let mut i: usize = 0;
        while i < row.len()
            invariant
                0 <= i <= row.len(),
                ts@ == entries_view(row@.take(i as int)).map_values(|e: (u32, CsrValueView)| e.0),
                vs@.map_values(|v: CsrValue| v@) == entries_view(row@.take(i as int)).map_values(
                    |e: (u32, CsrValueView)| e.1,
                ),
            decreases row.len() - i,
        {
            let v = copy_value(&row[i].1);
            let ghost b1 = ts@;
            let ghost b2 = vs@;
            ts.push(row[i].0);
            vs.push(v);
            proof {
                let ev = entries_view(row@.take(i + 1));
                assert(ev =~= entries_view(row@.take(i as int)).push((row@[i as int].0, row@[i as int].1@)));
                assert(ts@ =~= ev.map_values(|e: (u32, CsrValueView)| e.0));
                assert(vs@ == b2.push(v));
                assert(vs@.map_values(|v: CsrValue| v@) =~= b2.map_values(|v: CsrValue| v@).push(v@));
                assert(vs@.map_values(|v: CsrValue| v@) =~= ev.map_values(|e: (u32, CsrValueView)| e.1));
            }
            i += 1;
        }
        proof {
            assert(row@.take(row@.len() as int) == row@);
        }
        Some((ts, vs))
    }

    /// Row `index` as `(target, value)` entries; empty where there is no such row.
    pub fn get_as_dict(&self, index: usize) -> (r: Vec<(u32, CsrValue)>)
        ensures
            entries_view(r@) == if index < self.view_rows().len() {
                self.view_rows()[index as int]
            } else {
                seq![]
            },
    {
        if index < self.rows.len() {
            copy_entries(self.rows[index].as_slice())
        } else {
            let r: Vec<(u32, CsrValue)> = Vec::new();
            assert(entries_view(r@) =~= seq![]);
            r
        }
    }
}

} // verus!

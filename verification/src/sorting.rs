//! Sorting and de-duplication of node lists.

use vstd::prelude::*;
use crate::strs::{copy_string, str_le, str_lt, views};

verus! {

broadcast use vstd::seq_lib::group_to_multiset_ensures;

pub open spec fn sorted_u32(s: Seq<u32>) -> bool {
    forall|i: int, j: int| 0 <= i <= j < s.len() ==> s[i] <= s[j]
}

pub open spec fn strictly_sorted_u32(s: Seq<u32>) -> bool {
    forall|i: int, j: int| 0 <= i < j < s.len() ==> s[i] < s[j]
}

pub open spec fn pair_le(a: (u32, u32), b: (u32, u32)) -> bool {
    a.0 < b.0 || (a.0 == b.0 && a.1 <= b.1)
}

pub open spec fn sorted_pairs(s: Seq<(u32, u32)>) -> bool {
    forall|i: int, j: int| 0 <= i <= j < s.len() ==> pair_le(s[i], s[j])
}

pub open spec fn sorted_strs(s: Seq<Seq<char>>) -> bool {
    forall|i: int, j: int| 0 <= i < j < s.len() ==> str_le(s[i], s[j])
}

/// `slice::sort_unstable` on `u32`: ascending order, same elements.
#[verifier::external_body]
pub fn sort_u32(v: &mut Vec<u32>)
    ensures
        sorted_u32(final(v)@),
        final(v)@.to_multiset() == old(v)@.to_multiset(),
{
    v.sort_unstable();
}

/// `slice::sort_unstable` on pairs of `u32`: lexicographic ascending order, same elements.
#[verifier::external_body]
pub fn sort_pairs(v: &mut Vec<(u32, u32)>)
    ensures
        sorted_pairs(final(v)@),
        final(v)@.to_multiset() == old(v)@.to_multiset(),
{
    v.sort_unstable();
}

/// `slice::sort` on strings: ascending byte order (which is the character order), same elements.
#[verifier::external_body]
pub fn sort_strings(v: &mut Vec<String>)
    ensures
        sorted_strs(views(final(v)@)),
        final(v)@.to_multiset() == old(v)@.to_multiset(),
{
    v.sort();
}

pub open spec fn triple_le(a: (u32, u32, u32), b: (u32, u32, u32)) -> bool {
    a.0 < b.0 || (a.0 == b.0 && (a.1 < b.1 || (a.1 == b.1 && a.2 <= b.2)))
}

pub open spec fn sorted_triples(s: Seq<(u32, u32, u32)>) -> bool {
    forall|i: int, j: int| 0 <= i <= j < s.len() ==> triple_le(s[i], s[j])
}

/// `slice::sort_unstable` on triples of `u32`: lexicographic ascending order, same elements.
#[verifier::external_body]
pub fn sort_triples(v: &mut Vec<(u32, u32, u32)>)
    ensures
        sorted_triples(final(v)@),
        final(v)@.to_multiset() == old(v)@.to_multiset(),
{
    v.sort_unstable();
}

/// The elements of a sorted vector with repeats removed.
pub fn dedup_sorted(v: &Vec<u32>) -> (r: Vec<u32>)
    requires
        sorted_u32(v@),
    ensures
        strictly_sorted_u32(r@),
        forall|x: u32| r@.contains(x) <==> v@.contains(x),
{
    let mut r: Vec<u32> = Vec::new();
    let mut i: usize = 0;
    while i < v.len()
        invariant
            0 <= i <= v.len(),
            sorted_u32(v@),
            strictly_sorted_u32(r@),
            forall|x: u32| r@.contains(x) <==> v@.take(i as int).contains(x),
            r@.len() > 0 ==> i > 0 && r@.last() == v@[i - 1],
        decreases v.len() - i,
    {
        let x = v[i];
        let ghost r0 = r@;
        proof {
            assert(v@.take(i + 1) == v@.take(i as int).push(x));
        }
        if r.len() == 0 || r[r.len() - 1] != x {
            proof {
                if r@.len() > 0 {
                    assert(r@.last() <= x);
                }
            }
            r.push(x);
            proof {
                assert(r@ == r0.push(x));
                assert forall|y: u32| r@.contains(y) <==> v@.take(i + 1).contains(y) by {
                    lemma_push_contains(r0, x, y);
                    lemma_push_contains(v@.take(i as int), x, y);
                }
            }
        } else {
            proof {
                assert forall|y: u32| r@.contains(y) <==> v@.take(i + 1).contains(y) by {
                    lemma_push_contains(v@.take(i as int), x, y);
                    assert(r@[r@.len() - 1] == x);
                }
            }
        }
        i += 1;
    }
    proof {
        assert(v@.take(v@.len() as int) == v@);
    }
    r
}

pub proof fn lemma_push_contains_pub<A>(s: Seq<A>, x: A, y: A)
    ensures
        s.push(x).contains(y) <==> (s.contains(y) || x == y),
{
    lemma_push_contains(s, x, y);
}

proof fn lemma_push_contains<A>(s: Seq<A>, x: A, y: A)
    ensures
        s.push(x).contains(y) <==> (s.contains(y) || x == y),
{
    if s.push(x).contains(y) && x != y {
        let k = choose|k: int| 0 <= k < s.push(x).len() && s.push(x)[k] == y;
        assert(s[k] == y);
    }
    if s.contains(y) {
        let k = choose|k: int| 0 <= k < s.len() && s[k] == y;
        assert(s.push(x)[k] == y);
    }
    if x == y {
        assert(s.push(x)[s.len() as int] == y);
    }
}

/// Sorts ascending and removes repeats.
pub fn sort_dedup(v: Vec<u32>) -> (r: Vec<u32>)
    ensures
        strictly_sorted_u32(r@),
        forall|x: u32| r@.contains(x) <==> v@.contains(x),
{
    let mut w = v;
    sort_u32(&mut w);
    proof {
        assert forall|x: u32| w@.contains(x) <==> v@.contains(x) by {
            assert(w@.to_multiset().count(x) == v@.to_multiset().count(x));
        }
    }
    dedup_sorted(&w)
}


// ---------------------------------------------------------------------------
// Canonical (rank) order of nodes
// ---------------------------------------------------------------------------

/// The canonical position of `node` under a rank table (`rank[node - 1]`), or
/// the node itself where the table has no entry.
pub open spec fn rank_of(rank: Option<Seq<u32>>, node: u32) -> u32 {
    let idx: int = if node == 0 {
        0
    } else {
        node - 1
    };
    match rank {
        Some(r) => if idx < r.len() {
            r[idx]
        } else {
            node
        },
        None => node,
    }
}

/// The sort key of a node: its rank, then the node number.
pub open spec fn rank_key(rank: Option<Seq<u32>>, node: u32) -> (u32, u32) {
    (rank_of(rank, node), node)
}

pub open spec fn sorted_by_rank(s: Seq<u32>, rank: Option<Seq<u32>>) -> bool {
    forall|i: int, j: int| 0 <= i <= j < s.len() ==> pair_le(rank_key(rank, s[i]), rank_key(rank, s[j]))
}

pub open spec fn opt_seq(r: Option<Vec<u32>>) -> Option<Seq<u32>> {
    match r {
        Some(v) => Some(v@),
        None => None,
    }
}

/// The rank key of `node`.
pub fn rank_key_exec(rank: &Option<Vec<u32>>, node: u32) -> (r: (u32, u32))
    ensures
        r == rank_key(opt_seq(*rank), node),
{
    let idx: usize = if node == 0 {
        0
    } else {
        (node - 1) as usize
    };
    match rank {
        Some(v) => if idx < v.len() {
            (v[idx], node)
        } else {
            (node, node)
        },
        None => (node, node),
    }
}

/// The nodes in canonical order: same elements, sorted by rank key.
pub fn sort_by_rank(nodes: Vec<u32>, rank: &Option<Vec<u32>>) -> (r: Vec<u32>)
    ensures
        r@.len() == nodes@.len(),
        forall|x: u32| r@.contains(x) <==> nodes@.contains(x),
        nodes@.no_duplicates() ==> r@.no_duplicates(),
        sorted_by_rank(r@, opt_seq(*rank)),
{
    let ghost rk = opt_seq(*rank);
    let mut pairs: Vec<(u32, u32)> = Vec::new();
    let mut i: usize = 0;
    while i < nodes.len()
        invariant
            0 <= i <= nodes.len(),
            rk == opt_seq(*rank),
            pairs@.len() == i,
            forall|j: int| 0 <= j < i ==> #[trigger] pairs@[j] == rank_key(rk, nodes@[j]),
        decreases nodes.len() - i,
    {
        let k = rank_key_exec(rank, nodes[i]);
        pairs.push(k);
        i += 1;
    }
    let ghost p0 = pairs@;
    sort_pairs(&mut pairs);
    proof {
        assert forall|j: int| 0 <= j < pairs@.len() implies #[trigger] pairs@[j] == rank_key(rk, pairs@[j].1) by {
            let q = pairs@[j];
            assert(pairs@.contains(q));
            assert(pairs@.to_multiset().count(q) > 0);
            assert(p0.to_multiset().count(q) > 0);
            assert(p0.contains(q));
            let k = choose|k: int| 0 <= k < p0.len() && p0[k] == q;
        }
    }
    let mut r: Vec<u32> = Vec::new();
    let mut j: usize = 0;
    while j < pairs.len()
        invariant
            0 <= j <= pairs.len(),
            r@.len() == j,
            forall|k: int| 0 <= k < j ==> #[trigger] r@[k] == pairs@[k].1,
        decreases pairs.len() - j,
    {
        r.push(pairs[j].1);
        j += 1;
    }
    proof {
        assert(pairs@.len() == p0.len()) by {
            assert(pairs@.to_multiset().len() == p0.to_multiset().len());
        }
        assert forall|x: u32| r@.contains(x) <==> nodes@.contains(x) by {
            if r@.contains(x) {
                let k = choose|k: int| 0 <= k < r@.len() && r@[k] == x;
                let q = pairs@[k];
                assert(pairs@.contains(q));
                assert(pairs@.to_multiset().count(q) > 0);
                assert(p0.contains(q));
                let m = choose|m: int| 0 <= m < p0.len() && p0[m] == q;
                assert(nodes@[m] == x);
            }
            if nodes@.contains(x) {
                let m = choose|m: int| 0 <= m < nodes@.len() && nodes@[m] == x;
                let q = p0[m];
                assert(p0.contains(q));
                assert(p0.to_multiset().count(q) > 0);
                assert(pairs@.contains(q));
                let k = choose|k: int| 0 <= k < pairs@.len() && pairs@[k] == q;
                assert(r@[k] == x);
            }
        }
        if nodes@.no_duplicates() {
            assert(p0.no_duplicates()) by {
                assert forall|a: int, b: int| 0 <= a < p0.len() && 0 <= b < p0.len() && a != b implies p0[a] != p0[b] by {
                    assert(p0[a].1 == nodes@[a]);
                    assert(p0[b].1 == nodes@[b]);
                }
            }
            p0.lemma_multiset_has_no_duplicates();
            pairs@.lemma_multiset_has_no_duplicates_conv();
            assert forall|a: int, b: int| 0 <= a < r@.len() && 0 <= b < r@.len() && a != b implies r@[a] != r@[b] by {
                if r@[a] == r@[b] {
                    assert(pairs@[a] == rank_key(rk, pairs@[a].1));
                    assert(pairs@[b] == rank_key(rk, pairs@[b].1));
                }
            }
        }
        assert forall|a: int, b: int| 0 <= a <= b < r@.len() implies pair_le(rank_key(rk, r@[a]), rank_key(rk, r@[b])) by {
            assert(pairs@[a] == rank_key(rk, pairs@[a].1));
            assert(pairs@[b] == rank_key(rk, pairs@[b].1));
        }
    }
    r
}

/// The nodes sorted by the keys `f`, whose second component is the node itself: same
/// elements, same length, no repeats added.
pub fn sort_nodes_keyed(nodes: &Vec<u32>, keys: Vec<(u32, u32)>, Ghost(f): Ghost<spec_fn(u32) -> (u32, u32)>) -> (r: Vec<u32>)
    requires
        keys@.len() == nodes@.len(),
        forall|j: int| 0 <= j < nodes@.len() ==> #[trigger] keys@[j] == f(nodes@[j]),
        forall|n: u32| #[trigger] f(n).1 == n,
    ensures
        r@.len() == nodes@.len(),
        forall|x: u32| r@.contains(x) <==> nodes@.contains(x),
        nodes@.no_duplicates() ==> r@.no_duplicates(),
        forall|i: int, j: int| 0 <= i <= j < r@.len() ==> pair_le(f(r@[i]), f(r@[j])),
        r@.to_multiset() == nodes@.to_multiset(),
{
    let mut pairs = keys;
    let ghost p0 = pairs@;
    sort_pairs(&mut pairs);
    proof {
        assert forall|j: int| 0 <= j < pairs@.len() implies #[trigger] pairs@[j] == f(pairs@[j].1) by {
            let q = pairs@[j];
            assert(pairs@.contains(q));
            assert(pairs@.to_multiset().count(q) > 0);
            assert(p0.to_multiset().count(q) > 0);
            assert(p0.contains(q));
            let k = choose|k: int| 0 <= k < p0.len() && p0[k] == q;
            assert(f(nodes@[k]).1 == nodes@[k]);
        }
    }
    let mut r: Vec<u32> = Vec::new();
    let mut j: usize = 0;
    while j < pairs.len()
        invariant
            0 <= j <= pairs.len(),
            r@.len() == j,
            forall|k: int| 0 <= k < j ==> #[trigger] r@[k] == pairs@[k].1,
        decreases pairs.len() - j,
    {
        r.push(pairs[j].1);
        j += 1;
    }
    proof {
        assert(pairs@.len() == p0.len()) by {
            assert(pairs@.to_multiset().len() == p0.to_multiset().len());
        }
        assert forall|x: u32| r@.contains(x) <==> nodes@.contains(x) by {
            if r@.contains(x) {
                let k = choose|k: int| 0 <= k < r@.len() && r@[k] == x;
                let q = pairs@[k];
                assert(pairs@.contains(q));
                assert(pairs@.to_multiset().count(q) > 0);
                assert(p0.contains(q));
                let m = choose|m: int| 0 <= m < p0.len() && p0[m] == q;
                assert(f(nodes@[m]).1 == nodes@[m]);
                assert(nodes@[m] == x);
            }
            if nodes@.contains(x) {
                let m = choose|m: int| 0 <= m < nodes@.len() && nodes@[m] == x;
                let q = p0[m];
                assert(p0.contains(q));
                assert(p0.to_multiset().count(q) > 0);
                assert(pairs@.contains(q));
                let k = choose|k: int| 0 <= k < pairs@.len() && pairs@[k] == q;
                assert(f(nodes@[m]).1 == nodes@[m]);
                assert(r@[k] == x);
            }
        }
        if nodes@.no_duplicates() {
            assert(p0.no_duplicates()) by {
                assert forall|a: int, b: int| 0 <= a < p0.len() && 0 <= b < p0.len() && a != b implies p0[a] != p0[b] by {
                    assert(f(nodes@[a]).1 == nodes@[a]);
                    assert(f(nodes@[b]).1 == nodes@[b]);
                }
            }
            p0.lemma_multiset_has_no_duplicates();
            pairs@.lemma_multiset_has_no_duplicates_conv();
            assert forall|a: int, b: int| 0 <= a < r@.len() && 0 <= b < r@.len() && a != b implies r@[a] != r@[b] by {
                if r@[a] == r@[b] {
                    assert(pairs@[a] == f(pairs@[a].1));
                    assert(pairs@[b] == f(pairs@[b].1));
                }
            }
        }
        assert forall|a: int, b: int| 0 <= a <= b < r@.len() implies pair_le(f(r@[a]), f(r@[b])) by {
            assert(pairs@[a] == f(pairs@[a].1));
            assert(pairs@[b] == f(pairs@[b].1));
        }
        let second = |p: (u32, u32)| p.1;
        assert(r@ =~= pairs@.map_values(second));
        assert(p0 =~= nodes@.map_values(f));
        assert(p0.map_values(second) =~= nodes@);
        lemma_map_multiset(pairs@, p0, second);
    }
    r
}

/// Sequences with the same elements keep the same elements under a map.
pub proof fn lemma_map_multiset<A, B>(a: Seq<A>, b: Seq<A>, f: spec_fn(A) -> B)
    requires
        a.to_multiset() == b.to_multiset(),
    ensures
        a.map_values(f).to_multiset() == b.map_values(f).to_multiset(),
    decreases a.len(),
{
    if a.len() == 0 {
        assert(b.to_multiset().len() == 0);
        assert(b.len() == 0);
        assert(a.map_values(f) =~= Seq::<B>::empty());
        assert(b.map_values(f) =~= Seq::<B>::empty());
    } else {
        let x = a.last();
        let a0 = a.drop_last();
        assert(a0.push(x) =~= a);
        assert(a.to_multiset() =~= a0.to_multiset().insert(x));
        assert(b.to_multiset().count(x) > 0);
        assert(b.contains(x));
        let i = choose|i: int| 0 <= i < b.len() && b[i] == x;
        let b0 = b.remove(i);
        assert(b0.to_multiset() =~= b.to_multiset().remove(x));
        assert(a0.to_multiset() =~= a.to_multiset().remove(x));
        lemma_map_multiset(a0, b0, f);
        assert(a.map_values(f) =~= a0.map_values(f).push(f(x)));
        assert(a.map_values(f).to_multiset() =~= a0.map_values(f).to_multiset().insert(f(x)));
        let bm = b.map_values(f);
        assert(b0.map_values(f) =~= bm.remove(i));
        assert(bm.remove(i).to_multiset() =~= bm.to_multiset().remove(bm[i]));
        assert(bm.to_multiset().count(f(x)) > 0) by {
            assert(bm[i] == f(x));
            assert(bm.contains(f(x)));
        }
        assert(bm.to_multiset().remove(f(x)).insert(f(x)) =~= bm.to_multiset());
    }
}

/// A copy of a node list.
pub fn copy_nodes(s: &[u32]) -> (r: Vec<u32>)
    ensures
        r@ == s@,
{
    let mut r: Vec<u32> = Vec::new();
    let mut i: usize = 0;
    while i < s.len()
        invariant
            0 <= i <= s.len(),
            r@ == s@.take(i as int),
        decreases s.len() - i,
    {
        r.push(s[i]);
        i += 1;
        proof {
            assert(r@ =~= s@.take(i as int));
        }
    }
    proof {
        assert(s@.take(s@.len() as int) =~= s@);
    }
    r
}

pub open spec fn strictly_sorted_strs(s: Seq<Seq<char>>) -> bool {
    forall|i: int, j: int| 0 <= i < j < s.len() ==> str_lt(s[i], s[j])
}

/// The strings in ascending order, each once.
pub fn sorted_unique_strings(v: Vec<String>) -> (r: Vec<String>)
    ensures
        strictly_sorted_strs(views(r@)),
        forall|x: Seq<char>| views(r@).contains(x) <==> views(v@).contains(x),
{
    let mut w = v;
    let ghost v0 = w@;
    sort_strings(&mut w);
    let mut r: Vec<String> = Vec::new();
    let mut i: usize = 0;
    while i < w.len()
        invariant
            0 <= i <= w.len(),
            sorted_strs(views(w@)),
            w@.to_multiset() == v0.to_multiset(),
            strictly_sorted_strs(views(r@)),
            forall|x: Seq<char>| views(r@).contains(x) <==> views(w@.take(i as int)).contains(x),
            r@.len() > 0 ==> i > 0 && views(r@).last() == w@[i - 1]@,
        decreases w.len() - i,
    {
        let ghost r0 = r@;
        proof {
            assert(views(w@.take(i + 1)) == views(w@.take(i as int)).push(w@[i as int]@));
        }
        let dup = r.len() > 0 && crate::strs::string_eq(&r[r.len() - 1], w[i].as_str());
        if !dup {
            let x = copy_string(&w[i]);
            proof {
                if r@.len() > 0 {
                    assert(views(w@)[i - 1] == w@[i - 1]@);
                    assert(views(w@)[i as int] == w@[i as int]@);
                    assert(str_le(views(w@)[i - 1], views(w@)[i as int]));
                    assert(str_le(w@[i - 1]@, w@[i as int]@));
                    assert(views(r0).last() != x@);
                }
            }
            r.push(x);
            proof {
                assert(views(r@) == views(r0).push(x@));
                assert forall|a: int, b: int| 0 <= a < b < views(r@).len() implies str_lt(views(r@)[a], views(r@)[b]) by {
                    if b == views(r0).len() && a < b {
                        if a < views(r0).len() - 1 {
                            assert(str_lt(views(r0)[a], views(r0).last()));
                            crate::strs::lemma_str_lt_trans(views(r0)[a], views(r0).last(), x@);
                        }
                    }
                }
                assert forall|y: Seq<char>| views(r@).contains(y) <==> views(w@.take(i + 1)).contains(y) by {
                    lemma_push_contains(views(r0), x@, y);
                    lemma_push_contains(views(w@.take(i as int)), x@, y);
                }
            }
        } else {
            proof {
                assert forall|y: Seq<char>| views(r@).contains(y) <==> views(w@.take(i + 1)).contains(y) by {
                    lemma_push_contains(views(w@.take(i as int)), w@[i as int]@, y);
                    assert(views(r@)[views(r@).len() - 1] == w@[i as int]@);
                }
            }
        }
        i += 1;
    }
    proof {
        assert(w@.take(w@.len() as int) == w@);
        assert forall|x: Seq<char>| views(w@).contains(x) <==> views(v0).contains(x) by {
            if views(w@).contains(x) {
                let k = choose|k: int| 0 <= k < views(w@).len() && views(w@)[k] == x;
                assert(w@.to_multiset().count(w@[k]) > 0);
                assert(v0.contains(w@[k]));
                let m = choose|m: int| 0 <= m < v0.len() && v0[m] == w@[k];
                assert(views(v0)[m] == x);
            }
            if views(v0).contains(x) {
                let k = choose|k: int| 0 <= k < views(v0).len() && views(v0)[k] == x;
                assert(v0.to_multiset().count(v0[k]) > 0);
                assert(w@.contains(v0[k]));
                let m = choose|m: int| 0 <= m < w@.len() && w@[m] == v0[k];
                assert(views(w@)[m] == x);
            }
        }
    }
    r
}

/// Two ascending lists without repeats that hold the same nodes are the same list.
pub proof fn lemma_sorted_same(a: Seq<u32>, b: Seq<u32>)
    requires
        strictly_sorted_u32(a),
        strictly_sorted_u32(b),
        forall|x: u32| a.contains(x) <==> b.contains(x),
    ensures
        a == b,
    decreases a.len(),
{
    if a.len() == 0 {
        if b.len() > 0 {
            assert(b.contains(b[0]));
        }
        assert(a =~= b);
    } else {
        assert(a.contains(a.last()));
        assert(b.len() > 0);
        assert(b.contains(b.last()));
        let i = choose|i: int| 0 <= i < b.len() && b[i] == a.last();
        let k = choose|k: int| 0 <= k < a.len() && a[k] == b.last();
        assert(a.last() == b.last());
        let a0 = a.drop_last();
        let b0 = b.drop_last();
        assert forall|x: u32| a0.contains(x) <==> b0.contains(x) by {
            if a0.contains(x) {
                let p = choose|p: int| 0 <= p < a0.len() && a0[p] == x;
                assert(a.contains(x));
                let q = choose|q: int| 0 <= q < b.len() && b[q] == x;
                if q == b.len() - 1 {
                    assert(a[p] < a[a.len() - 1]);
                }
                assert(b0[q] == x);
            }
            if b0.contains(x) {
                let q = choose|q: int| 0 <= q < b0.len() && b0[q] == x;
                assert(b.contains(x));
                let p = choose|p: int| 0 <= p < a.len() && a[p] == x;
                if p == a.len() - 1 {
                    assert(b[q] < b[b.len() - 1]);
                }
                assert(a0[p] == x);
            }
        }
        lemma_sorted_same(a0, b0);
        assert(a =~= a0.push(a.last()));
        assert(b =~= b0.push(b.last()));
    }
}

} // verus!

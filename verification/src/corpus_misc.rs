//! Sort keys of nodes and chunks, node listings, and text-format names.

use vstd::prelude::*;
use crate::corpus::{find_named, named_get, Corpus};
use crate::corpus_nav::rank_at;
use crate::corpus_types::{Chunk, ChunkLengthKey, ChunkPositionKey};
use crate::strs::{first_at, last_at, no_char, owned, from_chars, sub_chars, to_chars, find_char, rfind_char};

verus! {

/// The first position of `c` in `s`.
pub open spec fn first_pos(s: Seq<char>, c: char) -> Option<int> {
    if exists|i: int| first_at(s, c, i) {
        Some(choose|i: int| first_at(s, c, i))
    } else {
        None
    }
}

/// The last position of `c` in `s`.
pub open spec fn last_pos(s: Seq<char>, c: char) -> Option<int> {
    if exists|i: int| last_at(s, c, i) {
        Some(choose|i: int| last_at(s, c, i))
    } else {
        None
    }
}

pub proof fn lemma_first_pos(s: Seq<char>, c: char, i: int)
    requires
        first_at(s, c, i),
    ensures
        first_pos(s, c) == Some(i),
{
    let j = choose|j: int| first_at(s, c, j);
    if j < i {
        assert(s[j] != c);
    } else if i < j {
        assert(s[i] != c);
    }
}

pub proof fn lemma_last_pos(s: Seq<char>, c: char, i: int)
    requires
        last_at(s, c, i),
    ensures
        last_pos(s, c) == Some(i),
{
    let j = choose|j: int| last_at(s, c, j);
    if j < i {
        assert(s[i] != c);
    } else if i < j {
        assert(s[j] != c);
    }
}

pub proof fn lemma_no_pos(s: Seq<char>, c: char)
    requires
        no_char(s, c),
    ensures
        first_pos(s, c) is None,
        last_pos(s, c) is None,
{
}

/// The number of nodes in `1..=upto` that come before `node` in canonical order.
pub open spec fn count_before(c: Corpus, node: u32, upto: int) -> nat
    decreases upto,
{
    if upto <= 0 {
        0
    } else {
        count_before(c, node, upto - 1) + (if c.node_order((upto) as u32, node) < 0 { 1nat } else { 0nat })
    }
}

impl Corpus {
    /// The number of nodes that come before `node` in canonical order.
    pub fn order_rank(&self, node: u32) -> (r: usize)
        ensures
            r == count_before(*self, node, self.max_node as int),
    {
        let mut count: usize = 0;
        let mut c: u64 = 1;
        while c <= self.max_node as u64
            invariant
                1 <= c <= self.max_node as u64 + 1,
                count == count_before(*self, node, c - 1),
                count <= c - 1,
            decreases self.max_node as u64 + 1 - c,
        {
            if self.compare_nodes(c as u32, node) < 0 {
                count += 1;
            }
            c += 1;
        }
        count
    }

    /// The sort key of `node`: its rank, or, beyond the rank table, the number of nodes
    /// before it.
    pub open spec fn sort_key_spec(&self, node: u32) -> int {
        let i: int = if node == 0 { 0 } else { node - 1 };
        if i < self.rank@.len() { self.rank@[i] as int } else { count_before(*self, node, self.max_node as int) as int }
    }

    /// The sort key of `node`.
    pub fn sort_key(&self, node: u32) -> (r: usize)
        ensures
            r == self.sort_key_spec(node),
    {
        let i: usize = if node == 0 { 0 } else { (node - 1) as usize };
        if i < self.rank.len() {
            self.rank[i] as usize
        } else {
            self.order_rank(node)
        }
    }

    /// The sort key of `node` (camel-case name).
    #[allow(non_snake_case)]
    pub fn sortKey(&self, node: u32) -> (r: usize)
        ensures
            r == self.sort_key_spec(node),
    {
        self.sort_key(node)
    }

    /// The sort keys of `nodes`.
    pub fn sort_key_tuple(&self, nodes: &[u32]) -> (r: Vec<usize>)
        ensures
            r@.len() == nodes@.len(),
            forall|i: int| 0 <= i < nodes@.len() ==> #[trigger] r@[i] == self.sort_key_spec(nodes@[i]),
    {
        let mut r: Vec<usize> = Vec::new();
        let mut i: usize = 0;
        while i < nodes.len()
            invariant
                0 <= i <= nodes.len(),
                r@.len() == i,
                forall|k: int| 0 <= k < i ==> #[trigger] r@[k] == self.sort_key_spec(nodes@[k]),
            decreases nodes.len() - i,
        {
            r.push(self.sort_key(nodes[i]));
            i += 1;
        }
        r
    }

    /// The sort keys of `nodes` (camel-case name).
    #[allow(non_snake_case)]
    pub fn sortKeyTuple(&self, nodes: &[u32]) -> (r: Vec<usize>)
        ensures
            r@.len() == nodes@.len(),
            forall|i: int| 0 <= i < nodes@.len() ==> #[trigger] r@[i] == self.sort_key_spec(nodes@[i]),
    {
        self.sort_key_tuple(nodes)
    }

    /// The position key of a chunk.
    pub fn sort_key_chunk(&self, chunk: Chunk) -> (r: ChunkPositionKey)
        ensures
            r.start == chunk.start,
            r.reverse_type_rank == self.type_rank_spec(chunk.node),
            r.reverse_end == chunk.end,
            r.node == chunk.node,
    {
        ChunkPositionKey::new(chunk.start, self.type_rank(chunk.node), chunk.end, chunk.node)
    }

    /// The position key of a chunk (camel-case name).
    #[allow(non_snake_case)]
    pub fn sortKeyChunk(&self, chunk: Chunk) -> (r: ChunkPositionKey)
        ensures
            r.start == chunk.start,
            r.reverse_type_rank == self.type_rank_spec(chunk.node),
            r.reverse_end == chunk.end,
            r.node == chunk.node,
    {
        self.sort_key_chunk(chunk)
    }

    /// The length key of a chunk.
    pub fn sort_key_chunk_length(&self, chunk: Chunk) -> (r: ChunkLengthKey)
        ensures
            r.reverse_size == (if chunk.end >= chunk.start { chunk.end - chunk.start } else { 0 }),
            r.start == chunk.start,
            r.type_rank == self.type_rank_spec(chunk.node),
            r.node == chunk.node,
    {
        ChunkLengthKey::new(chunk.end.saturating_sub(chunk.start), chunk.start, self.type_rank(chunk.node), chunk.node)
    }

    /// The length key of a chunk (camel-case name).
    #[allow(non_snake_case)]
    pub fn sortKeyChunkLength(&self, chunk: Chunk) -> (r: ChunkLengthKey)
        ensures
            r.reverse_size == (if chunk.end >= chunk.start { chunk.end - chunk.start } else { 0 }),
            r.start == chunk.start,
            r.type_rank == self.type_rank_spec(chunk.node),
            r.node == chunk.node,
    {
        self.sort_key_chunk_length(chunk)
    }

    /// Every node of `1..=max_node` that has a type, ascending, with its type.
    pub fn node_type_items(&self) -> (r: Vec<(u32, String)>)
        ensures
            forall|i: int, j: int| 0 <= i < j < r@.len() ==> (#[trigger] r@[i]).0 < (#[trigger] r@[j]).0,
            forall|i: int| 0 <= i < r@.len() ==> 1 <= (#[trigger] r@[i]).0 <= self.max_node && self.type_of(r@[i].0) == Some(r@[i].1@),
            forall|n: u32| 1 <= n <= self.max_node && #[trigger] self.type_of(n) is Some ==> exists|i: int| 0 <= i < r@.len() && r@[i].0 == n,
    {
        let mut r: Vec<(u32, String)> = Vec::new();
        let mut c: u64 = 1;
        while c <= self.max_node as u64
            invariant
                1 <= c <= self.max_node as u64 + 1,
                forall|i: int, j: int| 0 <= i < j < r@.len() ==> (#[trigger] r@[i]).0 < (#[trigger] r@[j]).0,
                forall|i: int| 0 <= i < r@.len() ==> 1 <= (#[trigger] r@[i]).0 < c && self.type_of(r@[i].0) == Some(r@[i].1@),
                forall|n: u32| 1 <= n < c && #[trigger] self.type_of(n) is Some ==> exists|i: int| 0 <= i < r@.len() && r@[i].0 == n,
            decreases self.max_node as u64 + 1 - c,
        {
            let n = c as u32;
            match self.node_type(n) {
                Some(t) => {
                    let ghost r0 = r@;
                    r.push((n, owned(t)));
                    proof {
                        assert forall|m: u32| 1 <= m < c + 1 && #[trigger] self.type_of(m) is Some implies exists|i: int| 0 <= i < r@.len() && r@[i].0 == m by {
                            if m == n {
                                assert(r@[r0.len() as int].0 == m);
                            } else {
                                let i = choose|i: int| 0 <= i < r0.len() && r0[i].0 == m;
                                assert(r@[i].0 == m);
                            }
                        }
                    }
                },
                None => {},
            }
            c += 1;
        }
        r
    }

    /// The typed nodes with their types.
    pub fn otype_items(&self) -> (r: Vec<(u32, String)>)
        ensures
            forall|i: int, j: int| 0 <= i < j < r@.len() ==> (#[trigger] r@[i]).0 < (#[trigger] r@[j]).0,
            forall|i: int| 0 <= i < r@.len() ==> 1 <= (#[trigger] r@[i]).0 <= self.max_node && self.type_of(r@[i].0) == Some(r@[i].1@),
            forall|n: u32| 1 <= n <= self.max_node && #[trigger] self.type_of(n) is Some ==> exists|i: int| 0 <= i < r@.len() && r@[i].0 == n,
    {
        self.node_type_items()
    }

    /// The typed nodes with their types (camel-case name).
    #[allow(non_snake_case)]
    pub fn otypeItems(&self) -> (r: Vec<(u32, String)>)
        ensures
            forall|i: int, j: int| 0 <= i < j < r@.len() ==> (#[trigger] r@[i]).0 < (#[trigger] r@[j]).0,
            forall|i: int| 0 <= i < r@.len() ==> 1 <= (#[trigger] r@[i]).0 <= self.max_node && self.type_of(r@[i].0) == Some(r@[i].1@),
            forall|n: u32| 1 <= n <= self.max_node && #[trigger] self.type_of(n) is Some ==> exists|i: int| 0 <= i < r@.len() && r@[i].0 == n,
    {
        self.node_type_items()
    }

    /// Every non-slot node with stored slots, ascending, with its slots.
    pub fn oslots_items(&self) -> (r: Vec<(u32, Vec<u32>)>)
        ensures
            forall|i: int, j: int| 0 <= i < j < r@.len() ==> (#[trigger] r@[i]).0 < (#[trigger] r@[j]).0,
            forall|i: int| 0 <= i < r@.len() ==> self.max_slot < (#[trigger] r@[i]).0 <= self.max_node && self.oslots_of(r@[i].0) == Some(r@[i].1@),
            forall|n: u32| self.max_slot < n <= self.max_node && #[trigger] self.oslots_of(n) is Some ==> exists|i: int| 0 <= i < r@.len() && r@[i].0 == n,
    {
        let mut r: Vec<(u32, Vec<u32>)> = Vec::new();
        let mut c: u64 = self.max_slot as u64 + 1;
        while c <= self.max_node as u64
            invariant
                self.max_slot as u64 + 1 <= c <= self.max_node as u64 + 1 || c == self.max_slot as u64 + 1,
                forall|i: int, j: int| 0 <= i < j < r@.len() ==> (#[trigger] r@[i]).0 < (#[trigger] r@[j]).0,
                forall|i: int| 0 <= i < r@.len() ==> self.max_slot < (#[trigger] r@[i]).0 < c && self.oslots_of(r@[i].0) == Some(r@[i].1@),
                forall|n: u32| self.max_slot < n < c && #[trigger] self.oslots_of(n) is Some ==> exists|i: int| 0 <= i < r@.len() && r@[i].0 == n,
            decreases self.max_node as u64 + 1 - c,
        {
            let n = c as u32;
            match self.slots_of(n) {
                Some(s) => {
                    let ghost r0 = r@;
                    r.push((n, crate::sorting::copy_nodes(s)));
                    proof {
                        assert forall|m: u32| self.max_slot < m < c + 1 && #[trigger] self.oslots_of(m) is Some implies exists|i: int| 0 <= i < r@.len() && r@[i].0 == m by {
                            if m == n {
                                assert(r@[r0.len() as int].0 == m);
                            } else {
                                let i = choose|i: int| 0 <= i < r0.len() && r0[i].0 == m;
                                assert(r@[i].0 == m);
                            }
                        }
                    }
                },
                None => {},
            }
            c += 1;
        }
        r
    }

    /// A format template split into its target node type and its specification: a
    /// leading `type#` names a known type; otherwise the slot type and the whole template.
    pub open spec fn split_format_spec(&self, t: Seq<char>) -> (Seq<char>, Seq<char>) {
        match first_pos(t, '#') {
            Some(i) => if named_get(self.nodes_by_type@, t.take(i)) is Some {
                (t.take(i), t.skip(i + 1))
            } else {
                (self.slot_type@, t)
            },
            None => (self.slot_type@, t),
        }
    }

    /// The target node type and specification of a format template.
    pub fn split_format(&self, template: &str) -> (r: (String, String))
        ensures
            (r.0@, r.1@) == self.split_format_spec(template@),
    {
        let cs = to_chars(template);
        match find_char(cs.as_slice(), '#') {
            Some(i) => {
                proof {
                    lemma_first_pos(cs@, '#', i as int);
                }
                assert(i < cs.len());
                let first = from_chars(sub_chars(cs.as_slice(), 0, i).as_slice());
                proof {
                    assert(cs@.subrange(0, i as int) =~= cs@.take(i as int));
                }
                match find_named(&self.nodes_by_type, first.as_str()) {
                    Some(_) => {
                        let rest = from_chars(sub_chars(cs.as_slice(), i + 1, cs.len()).as_slice());
                        proof {
                            assert(cs@.subrange(i + 1, cs@.len() as int) =~= cs@.skip(i + 1));
                        }
                        (first, rest)
                    },
                    None => (crate::strs::copy_string(&self.slot_type), owned(template)),
                }
            },
            None => {
                proof {
                    lemma_no_pos(cs@, '#');
                }
                (crate::strs::copy_string(&self.slot_type), owned(template))
            },
        }
    }

    /// The target node type and specification of a format template (camel-case name).
    #[allow(non_snake_case)]
    pub fn splitFormat(&self, template: &str) -> (r: (String, String))
        ensures
            (r.0@, r.1@) == self.split_format_spec(template@),
    {
        self.split_format(template)
    }

    /// The node type of a `type-default` format name, when the type is known.
    pub open spec fn split_default_spec(&self, t: Seq<char>) -> Option<Seq<char>> {
        match last_pos(t, '-') {
            Some(i) => if t.skip(i + 1) == "default"@ && named_get(self.nodes_by_type@, t.take(i)) is Some {
                Some(t.take(i))
            } else {
                None
            },
            None => None,
        }
    }

    /// The node type of a `type-default` format name.
    pub fn split_default_format(&self, template: &str) -> (r: Option<String>)
        ensures
            match r {
                Some(s) => self.split_default_spec(template@) == Some(s@),
                None => self.split_default_spec(template@) is None,
            },
    {
        let cs = to_chars(template);
        match rfind_char(cs.as_slice(), '-') {
            Some(i) => {
                proof {
                    lemma_last_pos(cs@, '-', i as int);
                }
                assert(i < cs.len());
                let head = from_chars(sub_chars(cs.as_slice(), 0, i).as_slice());
                let tail = from_chars(sub_chars(cs.as_slice(), i + 1, cs.len()).as_slice());
                proof {
                    assert(cs@.subrange(0, i as int) =~= cs@.take(i as int));
                    assert(cs@.subrange(i + 1, cs@.len() as int) =~= cs@.skip(i + 1));
                    reveal_strlit("default");
                }
                if crate::strs::string_eq(&tail, "default") && find_named(&self.nodes_by_type, head.as_str()).is_some() {
                    Some(head)
                } else {
                    None
                }
            },
            None => {
                proof {
                    lemma_no_pos(cs@, '-');
                }
                None
            },
        }
    }

    /// The node type of a `type-default` format name (camel-case name).
    #[allow(non_snake_case)]
    pub fn splitDefaultFormat(&self, template: &str) -> (r: Option<String>)
        ensures
            match r {
                Some(s) => self.split_default_spec(template@) == Some(s@),
                None => self.split_default_spec(template@) is None,
            },
    {
        self.split_default_format(template)
    }
}

} // verus!

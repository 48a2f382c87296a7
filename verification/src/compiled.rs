//! The binary layout of a node feature in a compiled corpus: little-endian integers,
//! strings as their UTF-8 length and bytes, and the values either through a pool of
//! distinct strings or one by one with a type tag.

use vstd::prelude::*;
use crate::feature::{map_keys, NodeFeature};
use crate::laws::lemma_first_occurrences;
use crate::sorting::{lemma_sorted_same, sort_dedup, strictly_sorted_u32};
use crate::storage::first_occurrences;
use crate::strs::{owned, str_eq, to_chars, views};
use crate::value::{FValue, FeatureValue};

verus! {

/// `n` cut to 32 bits, as `as u32` does.
pub open spec fn wrap_u32(n: nat) -> u32 {
    (n % 4294967296) as u32
}

/// The four little-endian bytes of `v`.
pub open spec fn le_u32(v: u32) -> Seq<u8> {
    seq![(v % 256) as u8, ((v / 256) % 256) as u8, ((v / 65536) % 256) as u8, (v / 16777216) as u8]
}

/// The eight little-endian bytes of `v < 2^64`.
pub open spec fn le_u64(v: nat) -> Seq<u8> {
    seq![
        (v % 256) as u8,
        ((v / 0x100) % 256) as u8,
        ((v / 0x10000) % 256) as u8,
        ((v / 0x1000000) % 256) as u8,
        ((v / 0x100000000) % 256) as u8,
        ((v / 0x10000000000) % 256) as u8,
        ((v / 0x1000000000000) % 256) as u8,
        ((v / 0x100000000000000) % 256) as u8,
    ]
}

/// The eight little-endian bytes of `v` in two's complement.
pub open spec fn le_i64(v: i64) -> Seq<u8> {
    le_u64(if v >= 0 { v as nat } else { (v + 0x1_0000_0000_0000_0000) as nat })
}

/// The UTF-8 bytes of one character.
pub open spec fn utf8_char(c: char) -> Seq<u8> {
    let u = c as u32;
    if u < 0x80 {
        seq![u as u8]
    } else if u < 0x800 {
        seq![(0xC0 + u / 64) as u8, (0x80 + u % 64) as u8]
    } else if u < 0x10000 {
        seq![(0xE0 + u / 4096) as u8, (0x80 + (u / 64) % 64) as u8, (0x80 + u % 64) as u8]
    } else {
        seq![(0xF0 + u / 262144) as u8, (0x80 + (u / 4096) % 64) as u8, (0x80 + (u / 64) % 64) as u8, (0x80 + u % 64) as u8]
    }
}

/// The UTF-8 bytes of a string.
pub open spec fn utf8(s: Seq<char>) -> Seq<u8>
    decreases s.len(),
{
    if s.len() == 0 {
        seq![]
    } else {
        utf8(s.drop_last()) + utf8_char(s.last())
    }
}

/// A string as written: its byte length (32 bits) and its UTF-8 bytes.
pub open spec fn str_block(s: Seq<char>) -> Seq<u8> {
    le_u32(wrap_u32(utf8(s).len())) + utf8(s)
}

/// The keys of `m`, ascending.
pub open spec fn sorted_keys(m: Map<u32, FeatureValue>) -> Seq<u32> {
    choose|ks: Seq<u32>| strictly_sorted_u32(ks) && forall|x: u32| ks.contains(x) <==> m.contains_key(x)
}

/// Every value of `m` is a string.
pub open spec fn all_strings(m: Map<u32, FeatureValue>) -> bool {
    forall|k: u32| m.contains_key(k) ==> (#[trigger] m[k])@ is Str
}

/// The text of a string value (empty for another).
pub open spec fn text_of(v: FValue) -> Seq<char> {
    match v {
        FValue::Str(s) => s,
        FValue::Int(_) => seq![],
    }
}

/// The texts of the values at the nodes `ks`.
pub open spec fn texts_at(ks: Seq<u32>, m: Map<u32, FeatureValue>) -> Seq<Seq<char>> {
    ks.map_values(|k: u32| text_of(m[k]@))
}

/// The position of `s` in the pool.
pub open spec fn pool_index(pool: Seq<Seq<char>>, s: Seq<char>) -> int {
    choose|i: int| 0 <= i < pool.len() && pool[i] == s
}

/// The strings of the pool, one after the other.
pub open spec fn pool_blocks(pool: Seq<Seq<char>>) -> Seq<u8>
    decreases pool.len(),
{
    if pool.len() == 0 {
        seq![]
    } else {
        pool_blocks(pool.drop_last()) + str_block(pool.last())
    }
}

/// The rows of a pooled feature: each node with the pool position of its value.
pub open spec fn pooled_rows(ks: Seq<u32>, m: Map<u32, FeatureValue>, pool: Seq<Seq<char>>) -> Seq<u8>
    decreases ks.len(),
{
    if ks.len() == 0 {
        seq![]
    } else {
        pooled_rows(ks.drop_last(), m, pool) + le_u32(ks.last()) + le_u32(wrap_u32(pool_index(pool, text_of(m[ks.last()]@)) as nat))
    }
}

/// One value written with its type tag: 0 and the string, or 1 and the integer.
pub open spec fn tagged_value(v: FValue) -> Seq<u8> {
    match v {
        FValue::Str(s) => seq![0u8] + str_block(s),
        FValue::Int(i) => seq![1u8] + le_i64(i),
    }
}

/// The rows of a feature with other values than strings: each node with its tagged value.
pub open spec fn tagged_rows(ks: Seq<u32>, m: Map<u32, FeatureValue>) -> Seq<u8>
    decreases ks.len(),
{
    if ks.len() == 0 {
        seq![]
    } else {
        tagged_rows(ks.drop_last(), m) + le_u32(ks.last()) + tagged_value(m[ks.last()]@)
    }
}

/// The payload of a node feature: for string values the pool and the rows by pool
/// position, else the rows with tagged values; nodes ascending.
pub open spec fn node_payload(m: Map<u32, FeatureValue>) -> Seq<u8> {
    let ks = sorted_keys(m);
    let pool = first_occurrences(texts_at(ks, m));
    if all_strings(m) {
        le_u32(wrap_u32(pool.len())) + pool_blocks(pool) + le_u32(wrap_u32(ks.len())) + pooled_rows(ks, m, pool)
    } else {
        le_u32(wrap_u32(ks.len())) + tagged_rows(ks, m)
    }
}

/// The block of a node feature: its name, whether its values are all strings (0) or
/// not (1), its number of values, the size of its string pool (0 without one), and its
/// payload with the payload's length before it. The pool holds the distinct strings in
/// the order in which the nodes, ascending, first carry them.
pub open spec fn node_feature_block(name: Seq<char>, m: Map<u32, FeatureValue>) -> Seq<u8> {
    let ks = sorted_keys(m);
    let pool = first_occurrences(texts_at(ks, m));
    let payload = node_payload(m);
    str_block(name) + seq![if all_strings(m) { 0u8 } else { 1u8 }] + le_u32(wrap_u32(ks.len()))
        + le_u32(if all_strings(m) { wrap_u32(pool.len()) } else { 0 }) + le_u32(wrap_u32(payload.len())) + payload
}

/// Appends the little-endian bytes of `v`.
pub fn push_u32(out: &mut Vec<u8>, v: u32)
    ensures
        final(out)@ == old(out)@ + le_u32(v),
{
    out.push((v % 256) as u8);
    out.push(((v / 256) % 256) as u8);
    out.push(((v / 65536) % 256) as u8);
    out.push((v / 16777216) as u8);
    proof {
        assert(final(out)@ =~= old(out)@ + le_u32(v));
    }
}

/// Appends the little-endian two's-complement bytes of `v`.
pub fn push_i64(out: &mut Vec<u8>, v: i64)
    ensures
        final(out)@ == old(out)@ + le_i64(v),
{
    let u: u64 = if v >= 0 {
        v as u64
    } else {
        (u64::MAX - ((-(v + 1)) as u64))
    };
    proof {
        if v < 0 {
            assert(u as nat == (v + 0x1_0000_0000_0000_0000) as nat);
        }
    }
    out.push((u % 256) as u8);
    out.push(((u / 0x100) % 256) as u8);
    out.push(((u / 0x10000) % 256) as u8);
    out.push(((u / 0x1000000) % 256) as u8);
    out.push(((u / 0x100000000) % 256) as u8);
    out.push(((u / 0x10000000000) % 256) as u8);
    out.push(((u / 0x1000000000000) % 256) as u8);
    out.push(((u / 0x100000000000000) % 256) as u8);
    proof {
        assert(final(out)@ =~= old(out)@ + le_i64(v));
    }
}

/// Appends the UTF-8 bytes of `c`.
fn push_utf8_char(out: &mut Vec<u8>, c: char)
    ensures
        final(out)@ == old(out)@ + utf8_char(c),
{
    let u = c as u32;
    if u < 0x80 {
        out.push(u as u8);
    } else if u < 0x800 {
        out.push((0xC0 + u / 64) as u8);
        out.push((0x80 + u % 64) as u8);
    } else if u < 0x10000 {
        out.push((0xE0 + u / 4096) as u8);
        out.push((0x80 + (u / 64) % 64) as u8);
        out.push((0x80 + u % 64) as u8);
    } else {
        proof {
            assert(u <= 0x10FFFF);
        }
        out.push((0xF0 + u / 262144) as u8);
        out.push((0x80 + (u / 4096) % 64) as u8);
        out.push((0x80 + (u / 64) % 64) as u8);
        out.push((0x80 + u % 64) as u8);
    }
    proof {
        assert(final(out)@ =~= old(out)@ + utf8_char(c));
    }
}

/// The UTF-8 bytes of `s`.
pub fn utf8_bytes(s: &str) -> (r: Vec<u8>)
    ensures
        r@ == utf8(s@),
{
    let cs = to_chars(s);
    let mut out: Vec<u8> = Vec::new();
    let mut i: usize = 0;
    while i < cs.len()
        invariant
            i <= cs@.len(),
            cs@ == s@,
            out@ == utf8(cs@.take(i as int)),
        decreases cs.len() - i,
    {
        proof {
            assert(cs@.take(i + 1).drop_last() =~= cs@.take(i as int));
        }
        push_utf8_char(&mut out, cs[i]);
        i += 1;
    }
    proof {
        assert(cs@.take(cs@.len() as int) =~= cs@);
    }
    out
}

/// A length cut to 32 bits.
pub fn wrap_len(n: usize) -> (r: u32)
    ensures
        r == wrap_u32(n as nat),
{
    let m: u64 = n as u64;
    (m % 4294967296) as u32
}

/// Appends `bytes`.
fn push_bytes(out: &mut Vec<u8>, bytes: &Vec<u8>)
    ensures
        final(out)@ == old(out)@ + bytes@,
{
    let ghost o0 = out@;
    let mut i: usize = 0;
    while i < bytes.len()
        invariant
            i <= bytes@.len(),
            out@ == o0 + bytes@.take(i as int),
        decreases bytes.len() - i,
    {
        out.push(bytes[i]);
        proof {
            assert(bytes@.take(i + 1) =~= bytes@.take(i as int).push(bytes@[i as int]));
            assert(out@ =~= o0 + bytes@.take(i + 1));
        }
        i += 1;
    }
    proof {
        assert(bytes@.take(bytes@.len() as int) =~= bytes@);
    }
}

/// Appends a string as written: its byte length and its bytes.
pub fn push_str_block(out: &mut Vec<u8>, s: &str)
    ensures
        final(out)@ == old(out)@ + str_block(s@),
{
    let b = utf8_bytes(s);
    push_u32(out, wrap_len(b.len()));
    push_bytes(out, &b);
    proof {
        assert(final(out)@ =~= old(out)@ + str_block(s@));
    }
}

/// The pool position of `s`, if it is in the pool.
fn find_in_pool(pool: &Vec<String>, s: &str) -> (r: Option<usize>)
    ensures
        match r {
            Some(i) => i < pool@.len() && pool@[i as int]@ == s@,
            None => !views(pool@).contains(s@),
        },
{
    let mut i: usize = 0;
    while i < pool.len()
        invariant
            i <= pool@.len(),
            forall|j: int| 0 <= j < i ==> pool@[j]@ != s@,
        decreases pool.len() - i,
    {
        if str_eq(pool[i].as_str(), s) {
            return Some(i);
        }
        i += 1;
    }
    proof {
        if views(pool@).contains(s@) {
            let j = choose|j: int| 0 <= j < views(pool@).len() && views(pool@)[j] == s@;
            assert(pool@[j]@ == s@);
        }
    }
    None
}

/// The value of `f` at node `k`, which it has.
fn value_of(f: &NodeFeature, k: u32) -> (r: &FeatureValue)
    requires
        f.values@.contains_key(k),
    ensures
        r@ == f.values@[k]@,
{
    match f.value(k) {
        Some(v) => v,
        None => {
            proof {
                assert(false);
            }
            f.value(k).unwrap()
        },
    }
}

/// The text of a string value, empty for another.
fn text_exec(v: &FeatureValue) -> (r: &str)
    ensures
        r@ == text_of(v@),
{
    match v {
        FeatureValue::Str(s) => s.as_str(),
        FeatureValue::Int(_) => {
            proof {
                reveal_strlit("");
            }
            ""
        },
    }
}

/// The bytes of a node feature in a compiled corpus.
pub fn encode_node_feature(feature: &NodeFeature) -> (r: Vec<u8>)
    ensures
        r@ == node_feature_block(feature.name@, feature.values@),
{
    let ghost m = feature.values@;
    let keys = sort_dedup(map_keys(&feature.values));
    proof {
        let ks = sorted_keys(m);
        assert(strictly_sorted_u32(keys@) && forall|x: u32| keys@.contains(x) <==> m.contains_key(x));
        lemma_sorted_same(ks, keys@);
    }
    let ghost ks = keys@;
    let mut all = true;
    let mut i: usize = 0;
    while i < keys.len()
        invariant
            i <= ks.len(),
            ks == keys@,
            m == feature.values@,
            forall|x: u32| ks.contains(x) <==> m.contains_key(x),
            all == forall|j: int| 0 <= j < i ==> (#[trigger] m[ks[j]])@ is Str,
        decreases keys.len() - i,
    {
        proof {
            assert(ks.contains(ks[i as int]));
        }
        let v = value_of(feature, keys[i]);
        match v {
            FeatureValue::Str(_) => {},
            FeatureValue::Int(_) => {
                all = false;
            },
        }
        i += 1;
    }
    proof {
        assert(all == all_strings(m)) by {
            if all {
                assert forall|k: u32| m.contains_key(k) implies (#[trigger] m[k])@ is Str by {
                    assert(ks.contains(k));
                    let j = choose|j: int| 0 <= j < ks.len() && ks[j] == k;
                }
            } else {
                let j = choose|j: int| 0 <= j < ks.len() && !((#[trigger] m[ks[j]])@ is Str);
                assert(ks.contains(ks[j]));
            }
        }
    }
    let mut pool: Vec<String> = Vec::new();
    let mut i: usize = 0;
    while i < keys.len()
        invariant
            i <= ks.len(),
            ks == keys@,
            m == feature.values@,
            forall|x: u32| ks.contains(x) <==> m.contains_key(x),
            views(pool@) == first_occurrences(texts_at(ks.take(i as int), m)),
        decreases keys.len() - i,
    {
        proof {
            assert(ks.contains(ks[i as int]));
            assert(texts_at(ks.take(i + 1), m).drop_last() =~= texts_at(ks.take(i as int), m));
            assert(texts_at(ks.take(i + 1), m).last() == text_of(m[ks[i as int]]@));
        }
        let t = text_exec(value_of(feature, keys[i]));
        let found = find_in_pool(&pool, t);
        proof {
            if found is Some {
                assert(views(pool@)[found->0 as int] == t@);
                assert(views(pool@).contains(t@));
            }
        }
        if found.is_none() {
            let ghost p0 = views(pool@);
            pool.push(owned(t));
            proof {
                assert(views(pool@) =~= p0.push(t@));
            }
        }
        i += 1;
    }
    proof {
        assert(ks.take(ks.len() as int) =~= ks);
    }
    let ghost pv = views(pool@);
    let mut payload: Vec<u8> = Vec::new();
    if all {
        push_u32(&mut payload, wrap_len(pool.len()));
        let ghost start = payload@;
        let mut p: usize = 0;
        while p < pool.len()
            invariant
                p <= pool@.len(),
                pv == views(pool@),
                payload@ == start + pool_blocks(pv.take(p as int)),
            decreases pool.len() - p,
        {
            proof {
                assert(pv.take(p + 1).drop_last() =~= pv.take(p as int));
                assert(pv.take(p + 1).last() == pool@[p as int]@);
            }
            push_str_block(&mut payload, pool[p].as_str());
            proof {
                assert(start + pool_blocks(pv.take(p + 1)) =~= start + pool_blocks(pv.take(p as int)) + str_block(pool@[p as int]@));
            }
            p += 1;
        }
        proof {
            assert(pv.take(pv.len() as int) =~= pv);
            lemma_first_occurrences(texts_at(ks, m));
        }
        push_u32(&mut payload, wrap_len(keys.len()));
        let ghost start2 = payload@;
        let mut i: usize = 0;
        while i < keys.len()
            invariant
                i <= ks.len(),
                ks == keys@,
                m == feature.values@,
                pv == views(pool@),
                pv == first_occurrences(texts_at(ks, m)),
                pv.no_duplicates(),
                forall|x: Seq<char>| pv.contains(x) <==> texts_at(ks, m).contains(x),
                forall|x: u32| ks.contains(x) <==> m.contains_key(x),
                payload@ == start2 + pooled_rows(ks.take(i as int), m, pv),
            decreases keys.len() - i,
        {
            let k = keys[i];
            proof {
                assert(ks.contains(k));
                assert(ks.take(i + 1).drop_last() =~= ks.take(i as int));
                assert(ks.take(i + 1).last() == k);
                assert(texts_at(ks, m)[i as int] == text_of(m[k]@));
                assert(texts_at(ks, m).contains(text_of(m[k]@)));
            }
            let t = text_exec(value_of(feature, k));
            let idx = match find_in_pool(&pool, t) {
                Some(j) => j,
                None => {
                    proof {
                        assert(false);
                    }
                    0
                },
            };
            proof {
                let c = pool_index(pv, t@);
                assert(pv[idx as int] == t@);
                assert(0 <= c < pv.len() && pv[c] == t@);
                assert(c == idx);
            }
            push_u32(&mut payload, k);
            push_u32(&mut payload, wrap_len(idx));
            proof {
                assert(start2 + pooled_rows(ks.take(i + 1), m, pv) =~= start2 + pooled_rows(ks.take(i as int), m, pv) + le_u32(k)
                    + le_u32(wrap_u32(idx as nat)));
            }
            i += 1;
        }
        proof {
            assert(ks.take(ks.len() as int) =~= ks);
        }
    } else {
        push_u32(&mut payload, wrap_len(keys.len()));
        let ghost start = payload@;
        let mut i: usize = 0;
        while i < keys.len()
            invariant
                i <= ks.len(),
                ks == keys@,
                m == feature.values@,
                forall|x: u32| ks.contains(x) <==> m.contains_key(x),
                payload@ == start + tagged_rows(ks.take(i as int), m),
            decreases keys.len() - i,
        {
            let k = keys[i];
            proof {
                assert(ks.contains(k));
                assert(ks.take(i + 1).drop_last() =~= ks.take(i as int));
                assert(ks.take(i + 1).last() == k);
            }
            push_u32(&mut payload, k);
            let ghost before = payload@;
            match value_of(feature, k) {
                FeatureValue::Str(s) => {
                    payload.push(0u8);
                    push_str_block(&mut payload, s.as_str());
                    proof {
                        assert(payload@ =~= before + tagged_value(m[k]@));
                    }
                },
                FeatureValue::Int(n) => {
                    payload.push(1u8);
                    push_i64(&mut payload, *n);
                    proof {
                        assert(payload@ =~= before + tagged_value(m[k]@));
                    }
                },
            }
            proof {
                assert(start + tagged_rows(ks.take(i + 1), m) =~= start + tagged_rows(ks.take(i as int), m) + le_u32(k)
                    + tagged_value(m[k]@));
            }
            i += 1;
        }
        proof {
            assert(ks.take(ks.len() as int) =~= ks);
        }
    }
    proof {
        assert(payload@ =~= node_payload(m));
    }
    let mut out: Vec<u8> = Vec::new();
    push_str_block(&mut out, feature.name.as_str());
    out.push(if all { 0u8 } else { 1u8 });
    push_u32(&mut out, wrap_len(keys.len()));
    push_u32(&mut out, if all { wrap_len(pool.len()) } else { 0 });
    push_u32(&mut out, wrap_len(payload.len()));
    push_bytes(&mut out, &payload);
    proof {
        assert(out@ =~= node_feature_block(feature.name@, m));
    }
    out
}

} // verus!

//! Arrays of integers stored in NumPy `.npy` files: the magic and version, the header
//! with the element type (`descr`) and the shape, and the little-endian data after it.

use vstd::prelude::*;
use crate::compiled::utf8;
use crate::error::{CfError, CfErrorView};
use crate::strs::{
    contains_spec, contains_vec, find_char, first_at, no_char, owned, parse_u64, parse_u64_spec,
    split_spec, split_vec, starts_with_spec, str_eq, sub_chars, to_chars, trim_spec, trim_start_spec,
    trim_start_vec, trim_vec, cviews, from_chars,
};

verus! {

/// An array of integers with its shape, as read from a `.npy` file.
#[derive(Debug, Clone, PartialEq, Eq)]
pub struct MmapArray {
    values: Vec<i64>,
    shape: Vec<usize>,
}

impl View for MmapArray {
    type V = (Seq<i64>, Seq<usize>);

    /// The values and the shape.
    closed spec fn view(&self) -> (Seq<i64>, Seq<usize>) {
        (self.values@, self.shape@)
    }
}

impl MmapArray {
    /// The values, in storage order.
    pub fn values(&self) -> (r: &[i64])
        ensures
            r@ == self@.0,
    {
        self.values.as_slice()
    }

    /// The shape.
    pub fn shape(&self) -> (r: &[usize])
        ensures
            r@ == self@.1,
    {
        self.shape.as_slice()
    }
}

/// `std::str::from_utf8`: the text whose UTF-8 bytes are `bytes`, if they are valid
/// UTF-8.
#[verifier::external_body]
fn decode_utf8(bytes: &[u8]) -> (r: Option<String>)
    ensures
        match r {
            Some(s) => utf8(s@) == bytes@,
            None => forall|s: Seq<char>| utf8(s) != bytes@,
        },
{
    std::str::from_utf8(bytes).ok().map(|s| s.to_string())
}

/// The bytes start with the NumPy magic `\x93NUMPY` and have room for the version and
/// the header length.
pub open spec fn npy_magic_ok(b: Seq<u8>) -> bool {
    &&& b.len() >= 10
    &&& b[0] == 0x93u8 && b[1] == 78u8 && b[2] == 85u8 && b[3] == 77u8 && b[4] == 80u8 && b[5] == 89u8
}

/// The size of the header-length field for a major version: 2 bytes for version 1, 4
/// for versions 2 and 3.
pub open spec fn len_field_size(major: u8) -> Option<nat> {
    if major == 1 {
        Some(2)
    } else if major == 2 || major == 3 {
        Some(4)
    } else {
        None
    }
}

/// Little-endian unsigned integers of 2, 4 and 8 bytes at `at`.
pub open spec fn le16(b: Seq<u8>, at: int) -> nat {
    b[at] as nat + 256 * (b[at + 1] as nat)
}

pub open spec fn le32(b: Seq<u8>, at: int) -> nat {
    le16(b, at) + 65536 * le16(b, at + 2)
}

pub open spec fn le64(b: Seq<u8>, at: int) -> nat {
    le32(b, at) + 4294967296 * le32(b, at + 4)
}

/// `f` stands in `s` at `i`.
pub open spec fn sub_at(s: Seq<char>, f: Seq<char>, i: int) -> bool {
    0 <= i <= s.len() && starts_with_spec(s.skip(i), f)
}

/// Where `f` first stands in `s`.
pub open spec fn first_sub(s: Seq<char>, f: Seq<char>) -> Option<int> {
    if exists|i: int| #[trigger] sub_at(s, f, i) {
        Some(choose|i: int| #[trigger] sub_at(s, f, i) && forall|j: int| 0 <= j < i ==> !sub_at(s, f, j))
    } else {
        None
    }
}

/// The quoted text after `field` in a header: after the first occurrence of the field
/// and any whitespace, a quote (`'` or `"`) and the text up to the same quote.
pub open spec fn string_field(h: Seq<char>, field: Seq<char>) -> Option<Seq<char>> {
    match first_sub(h, field) {
        None => None,
        Some(i) => {
            let rest = trim_start_spec(h.skip(i + field.len()));
            if rest.len() == 0 || (rest[0] != '\'' && rest[0] != '"') {
                None
            } else {
                let r2 = rest.skip(1);
                match find_first(r2, rest[0]) {
                    Some(e) => Some(r2.take(e)),
                    None => None,
                }
            }
        },
    }
}

/// Where `c` first stands in `s`.
pub open spec fn find_first(s: Seq<char>, c: char) -> Option<int> {
    if exists|i: int| #[trigger] first_at(s, c, i) {
        Some(choose|i: int| #[trigger] first_at(s, c, i))
    } else {
        None
    }
}

/// The numbers of a shape's parts: each trimmed part that reads as a `usize`, empty
/// and unreadable parts left out.
pub open spec fn shape_values(parts: Seq<Seq<char>>) -> Seq<usize>
    decreases parts.len(),
{
    if parts.len() == 0 {
        seq![]
    } else {
        let prev = shape_values(parts.drop_last());
        let t = trim_spec(parts.last());
        match parse_u64_spec(t) {
            Some(v) => if t.len() > 0 && v <= usize::MAX {
                prev.push(v as usize)
            } else {
                prev
            },
            None => prev,
        }
    }
}

/// The shape in a header: the numbers between the brackets after `'shape':`; none
/// when there are none.
pub open spec fn shape_field(h: Seq<char>) -> Option<Seq<usize>> {
    match first_sub(h, "'shape':"@) {
        None => None,
        Some(i) => {
            let rest = trim_start_spec(h.skip(i + 8));
            match find_first(rest, '(') {
                None => None,
                Some(o) => match find_first(rest.skip(o + 1), ')') {
                    None => None,
                    Some(c) => {
                        let vals = shape_values(split_spec(rest.subrange(o + 1, o + 1 + c), ','));
                        if vals.len() == 0 {
                            None
                        } else {
                            Some(vals)
                        }
                    },
                },
            }
        },
    }
}

/// The number of elements of a shape.
pub open spec fn shape_count(s: Seq<usize>) -> nat
    decreases s.len(),
{
    if s.len() == 0 {
        1
    } else {
        shape_count(s.drop_last()) * (s.last() as nat)
    }
}

/// The first `count` elements of the data as integers of the type `d`, or the message
/// for too little data or an unknown type.
pub open spec fn decode_values(d: Seq<char>, count: nat, data: Seq<u8>) -> Result<Seq<i64>, Seq<char>> {
    if d == "|u1"@ || d == "<u1"@ {
        if data.len() < count {
            Err("truncated uint8 data"@)
        } else {
            Ok(Seq::new(count, |i: int| data[i] as i64))
        }
    } else if d == "|i1"@ || d == "<i1"@ {
        if data.len() < count {
            Err("truncated int8 data"@)
        } else {
            Ok(Seq::new(count, |i: int| (if data[i] >= 128 { data[i] as int - 256 } else { data[i] as int }) as i64))
        }
    } else if d == "<u4"@ {
        if data.len() < count * 4 {
            Err("truncated uint32 data"@)
        } else {
            Ok(Seq::new(count, |i: int| le32(data, 4 * i) as i64))
        }
    } else if d == "<i4"@ {
        if data.len() < count * 4 {
            Err("truncated int32 data"@)
        } else {
            Ok(Seq::new(count, |i: int| (if le32(data, 4 * i) >= 0x8000_0000 { le32(data, 4 * i) - 0x1_0000_0000 } else { le32(data, 4 * i) as int }) as i64))
        }
    } else if d == "<i8"@ {
        if data.len() < count * 8 {
            Err("truncated int64 data"@)
        } else {
            Ok(Seq::new(count, |i: int| (if le64(data, 8 * i) >= 0x8000_0000_0000_0000 { le64(data, 8 * i) - 0x1_0000_0000_0000_0000 } else { le64(data, 8 * i) as int }) as i64))
        }
    } else {
        Err("unsupported NumPy dtype"@)
    }
}

/// What a header `h` and the data after it give: an error for Fortran order, a missing
/// `descr` or shape; else the values of the shape's element count.
pub open spec fn npy_body(h: Seq<char>, data: Seq<u8>) -> Result<(Seq<i64>, Seq<usize>), Seq<char>> {
    if contains_spec(h, "'fortran_order': True"@) || contains_spec(h, "\"fortran_order\": True"@) {
        Err("Fortran-order arrays are not supported"@)
    } else {
        match string_field(h, "'descr':"@) {
            None => Err("missing NumPy descr"@),
            Some(d) => match shape_field(h) {
                None => Err("missing NumPy shape"@),
                Some(sh) => match decode_values(d, shape_count(sh), data) {
                    Ok(vs) => Ok((vs, sh)),
                    Err(m) => Err(m),
                },
            },
        }
    }
}

/// Where the header starts, and where the data starts, when the bytes hold them.
pub open spec fn npy_bounds(b: Seq<u8>) -> Result<(int, int), Seq<char>> {
    if !npy_magic_ok(b) {
        Err("missing NumPy magic header"@)
    } else {
        match len_field_size(b[6]) {
            None => Err("unsupported NumPy format version"@),
            Some(sz) => {
                let hs = 8 + sz;
                if b.len() < hs {
                    Err("truncated NumPy header"@)
                } else {
                    let hl = if sz == 2 { le16(b, 8) } else { le32(b, 8) };
                    if b.len() < hs + hl {
                        Err("truncated NumPy data"@)
                    } else {
                        Ok((hs as int, (hs + hl) as int))
                    }
                }
            },
        }
    }
}

/// The array that the bytes of a `.npy` file give, or the message of what is wrong,
/// where `h` is the text whose UTF-8 bytes are the header (none when they are not
/// UTF-8).
pub open spec fn npy_result(b: Seq<u8>, h: Option<Seq<char>>) -> Result<(Seq<i64>, Seq<usize>), Seq<char>> {
    match npy_bounds(b) {
        Err(m) => Err(m),
        Ok(p) => match h {
            None => Err("NumPy header is not UTF-8"@),
            Some(t) => npy_body(t, b.skip(p.1)),
        },
    }
}

/// `h` is the decoding of the header of `b`, where the bytes hold one.
pub open spec fn header_decodes(b: Seq<u8>, h: Option<Seq<char>>) -> bool {
    match npy_bounds(b) {
        Err(_) => true,
        Ok(p) => match h {
            Some(t) => utf8(t) == b.subrange(p.0, p.1),
            None => forall|s: Seq<char>| utf8(s) != b.subrange(p.0, p.1),
        },
    }
}

/// The first occurrence of `c` found by a scan is the one [`find_first`] names.
proof fn lemma_find_first(s: Seq<char>, c: char, r: Option<int>)
    requires
        match r {
            Some(i) => first_at(s, c, i),
            None => no_char(s, c),
        },
    ensures
        find_first(s, c) == r,
{
    match r {
        Some(i) => {
            assert(first_at(s, c, i));
            let k = choose|k: int| #[trigger] first_at(s, c, k);
            if k < i {
                assert(s[k] != c);
            } else if k > i {
                assert(s[i] != c);
            }
        },
        None => {
            if exists|i: int| #[trigger] first_at(s, c, i) {
                let i = choose|i: int| #[trigger] first_at(s, c, i);
                assert(s[i] != c);
            }
        },
    }
}

/// Where `c` first stands in `v`.
fn find_first_exec(v: &[char], c: char) -> (r: Option<usize>)
    ensures
        match r {
            Some(i) => find_first(v@, c) == Some(i as int) && i < v@.len(),
            None => find_first(v@, c) is None,
        },
{
    let r = find_char(v, c);
    proof {
        match r {
            Some(i) => lemma_find_first(v@, c, Some(i as int)),
            None => lemma_find_first(v@, c, None),
        }
    }
    r
}

/// Where `f` first stands in `v`.
fn find_sub(v: &[char], f: &[char]) -> (r: Option<usize>)
    ensures
        match r {
            Some(i) => first_sub(v@, f@) == Some(i as int) && i + f@.len() <= v@.len(),
            None => first_sub(v@, f@) is None,
        },
{
    let mut i: usize = 0;
    while i < v.len()
        invariant
            i <= v@.len(),
            forall|j: int| 0 <= j < i ==> !#[trigger] sub_at(v@, f@, j),
        decreases v@.len() - i,
    {
        if crate::text_formats::matches_at(v, i, f) {
            proof {
                lemma_first_sub_at(v@, f@, i as int);
            }
            return Some(i);
        }
        i += 1;
    }
    if crate::text_formats::matches_at(v, i, f) {
        proof {
            lemma_first_sub_at(v@, f@, i as int);
        }
        return Some(i);
    }
    proof {
        assert forall|j: int| !#[trigger] sub_at(v@, f@, j) by {
            if 0 <= j <= v@.len() && j != i {
                assert(j < i);
            }
        }
    }
    None
}

/// A first match found by a scan is the one [`first_sub`] names.
proof fn lemma_first_sub_at(v: Seq<char>, f: Seq<char>, i: int)
    requires
        sub_at(v, f, i),
        forall|j: int| 0 <= j < i ==> !#[trigger] sub_at(v, f, j),
    ensures
        first_sub(v, f) == Some(i),
        i + f.len() <= v.len(),
{
    let k = choose|k: int| #[trigger] sub_at(v, f, k) && forall|j: int| 0 <= j < k ==> !sub_at(v, f, j);
    if k < i {
        assert(!sub_at(v, f, k));
    } else if k > i {
        assert(!sub_at(v, f, i));
    }
    assert(v.skip(i).len() == v.len() - i);
}

/// `v[from..to]` of bytes.
fn sub_bytes(v: &[u8], from: usize, to: usize) -> (r: Vec<u8>)
    requires
        from <= to <= v@.len(),
    ensures
        r@ == v@.subrange(from as int, to as int),
{
    let mut r: Vec<u8> = Vec::new();
    let mut i: usize = from;
    while i < to
        invariant
            from <= i <= to <= v@.len(),
            r@ == v@.subrange(from as int, i as int),
        decreases to - i,
    {
        r.push(v[i]);
        proof {
            assert(v@.subrange(from as int, i + 1) =~= v@.subrange(from as int, i as int).push(v@[i as int]));
        }
        i += 1;
    }
    r
}

/// The quoted text after `field` in a header.
fn string_field_exec(h: &[char], field: &[char]) -> (r: Option<Vec<char>>)
    ensures
        match r {
            Some(x) => string_field(h@, field@) == Some(x@),
            None => string_field(h@, field@) is None,
        },
{
    let found = find_sub(h, field);
    let i = match found {
        Some(i) => i,
        None => return None,
    };
    let n = h.len();
    proof {
        assert(i + field@.len() <= n);
    }
    let after = sub_chars(h, i + field.len(), n);
    let rest = trim_start_vec(after.as_slice());
    proof {
        assert(after@ =~= h@.skip(i + field@.len()));
    }
    if rest.len() == 0 {
        return None;
    }
    let q = rest[0];
    if q != '\'' && q != '"' {
        return None;
    }
    let r2 = sub_chars(rest.as_slice(), 1, rest.len());
    proof {
        assert(r2@ =~= rest@.skip(1));
    }
    match find_first_exec(r2.as_slice(), q) {
        Some(e) => {
            let x = sub_chars(r2.as_slice(), 0, e);
            proof {
                assert(x@ =~= r2@.take(e as int));
            }
            Some(x)
        },
        None => None,
    }
}

/// The numbers of a shape's parts.
fn shape_values_exec(parts: &Vec<Vec<char>>) -> (r: Vec<usize>)
    ensures
        r@ == shape_values(cviews(parts@)),
{
    let mut r: Vec<usize> = Vec::new();
    let mut i: usize = 0;
    while i < parts.len()
        invariant
            i <= parts@.len(),
            r@ == shape_values(cviews(parts@).take(i as int)),
        decreases parts.len() - i,
    {
        proof {
            assert(cviews(parts@).take(i + 1).drop_last() =~= cviews(parts@).take(i as int));
            assert(cviews(parts@).take(i + 1).last() == parts@[i as int]@);
        }
        let t = trim_vec(parts[i].as_slice());
        let text = from_chars(t.as_slice());
        if t.len() > 0 {
            match parse_u64(text.as_str()) {
                Some(v) => {
                    if v <= usize::MAX as u64 {
                        r.push(v as usize);
                    }
                },
                None => {},
            }
        }
        i += 1;
    }
    proof {
        assert(cviews(parts@).take(parts@.len() as int) =~= cviews(parts@));
    }
    r
}

/// The shape in a header.
fn shape_field_exec(h: &[char]) -> (r: Option<Vec<usize>>)
    ensures
        match r {
            Some(x) => shape_field(h@) == Some(x@),
            None => shape_field(h@) is None,
        },
{
    let field = to_chars("'shape':");
    proof {
        reveal_strlit("'shape':");
        assert(field@.len() == 8);
    }
    let found = find_sub(h, field.as_slice());
    let i = match found {
        Some(i) => i,
        None => return None,
    };
    let n = h.len();
    proof {
        assert(i + 8 <= n);
    }
    let after = sub_chars(h, i + 8, n);
    let rest = trim_start_vec(after.as_slice());
    proof {
        assert(after@ =~= h@.skip(i + 8));
    }
    let o = match find_first_exec(rest.as_slice(), '(') {
        Some(o) => o,
        None => return None,
    };
    let rl = rest.len();
    let tail = sub_chars(rest.as_slice(), o + 1, rl);
    proof {
        assert(tail@ =~= rest@.skip(o + 1));
    }
    let c = match find_first_exec(tail.as_slice(), ')') {
        Some(c) => c,
        None => return None,
    };
    let inner = sub_chars(tail.as_slice(), 0, c);
    proof {
        assert(inner@ =~= rest@.subrange(o + 1, o + 1 + c));
    }
    let parts = split_vec(inner.as_slice(), ',');
    let vals = shape_values_exec(&parts);
    if vals.len() == 0 {
        None
    } else {
        Some(vals)
    }
}

/// A shape with a zero has no elements.
proof fn lemma_count_zero(s: Seq<usize>, k: int)
    requires
        0 <= k < s.len(),
        s[k] == 0,
    ensures
        shape_count(s) == 0,
    decreases s.len(),
{
    let p = shape_count(s.drop_last());
    let l = s.last() as nat;
    if k < s.len() - 1 {
        assert(s.drop_last()[k] == s[k]);
        lemma_count_zero(s.drop_last(), k);
        assert(p * l == 0) by (nonlinear_arith)
            requires
                p == 0,
        ;
    } else {
        assert(p * l == 0) by (nonlinear_arith)
            requires
                l == 0,
        ;
    }
}

/// Without zeros, the element count of a shape is at least that of each of its prefixes.
proof fn lemma_count_grows(s: Seq<usize>, i: int)
    requires
        0 <= i <= s.len(),
        forall|k: int| 0 <= k < s.len() ==> s[k] != 0,
    ensures
        shape_count(s) >= shape_count(s.take(i)),
    decreases s.len() - i,
{
    if i < s.len() {
        lemma_count_grows(s, i + 1);
        assert(s.take(i + 1).drop_last() =~= s.take(i));
        let a = shape_count(s.take(i));
        let b = s[i] as nat;
        assert(b >= 1);
        assert(a * b >= a) by (nonlinear_arith)
            requires
                b >= 1,
        ;
    } else {
        assert(s.take(i) =~= s);
    }
}

/// The element count of a shape when it fits in 64 bits.
fn shape_product(sh: &Vec<usize>) -> (r: Option<u64>)
    ensures
        match r {
            Some(c) => c as nat == shape_count(sh@),
            None => shape_count(sh@) > u64::MAX,
        },
{
    let mut k: usize = 0;
    while k < sh.len()
        invariant
            k <= sh@.len(),
            forall|j: int| 0 <= j < k ==> sh@[j] != 0,
        decreases sh.len() - k,
    {
        if sh[k] == 0 {
            proof {
                lemma_count_zero(sh@, k as int);
            }
            return Some(0);
        }
        k += 1;
    }
    let mut acc: u64 = 1;
    let mut i: usize = 0;
    proof {
        assert(sh@.take(0) =~= Seq::<usize>::empty());
    }
    while i < sh.len()
        invariant
            i <= sh@.len(),
            forall|j: int| 0 <= j < sh@.len() ==> sh@[j] != 0,
            acc as nat == shape_count(sh@.take(i as int)),
        decreases sh.len() - i,
    {
        proof {
            assert(sh@.take(i + 1).drop_last() =~= sh@.take(i as int));
        }
        match acc.checked_mul(sh[i] as u64) {
            Some(x) => {
                acc = x;
            },
            None => {
                proof {
                    lemma_count_grows(sh@, i + 1);
                }
                return None;
            },
        }
        i += 1;
    }
    proof {
        assert(sh@.take(sh@.len() as int) =~= sh@);
    }
    Some(acc)
}

/// Little-endian unsigned integers of the data.
fn read_le32(b: &[u8], at: usize) -> (r: u64)
    requires
        at + 4 <= b@.len(),
    ensures
        r as nat == le32(b@, at as int),
{
    let n = b.len();
    assert(at + 4 <= n);
    let b0 = b[at] as u64;
    let b1 = b[at + 1] as u64;
    let b2 = b[at + 2] as u64;
    let b3 = b[at + 3] as u64;
    assert(b1 * 256 <= 65280) by (nonlinear_arith)
        requires
            b1 <= 255,
    ;
    assert(b3 * 256 <= 65280) by (nonlinear_arith)
        requires
            b3 <= 255,
    ;
    let lo = b0 + 256 * b1;
    let hi = b2 + 256 * b3;
    assert(65536 * hi <= 65536 * 65535) by (nonlinear_arith)
        requires
            hi <= 65535,
    ;
    lo + 65536 * hi
}

fn read_le64(b: &[u8], at: usize) -> (r: u64)
    requires
        at + 8 <= b@.len(),
    ensures
        r as nat == le64(b@, at as int),
{
    let n = b.len();
    assert(at + 8 <= n);
    let lo = read_le32(b, at);
    let hi = read_le32(b, at + 4);
    assert(lo <= 4294967295 && hi <= 4294967295) by {
        assert(le16(b@, at as int) <= 65535);
        assert(le16(b@, at + 2) <= 65535);
        assert(le16(b@, at + 4) <= 65535);
        assert(le16(b@, at + 6) <= 65535);
    }
    assert(4294967296 * hi <= 4294967296 * 4294967295) by (nonlinear_arith)
        requires
            hi <= 4294967295,
    ;
    lo + 4294967296 * hi
}

/// A 64-bit pattern read as two's complement.
fn signed64(u: u64) -> (r: i64)
    ensures
        r as int == if u as nat >= 0x8000_0000_0000_0000 { u as int - 0x1_0000_0000_0000_0000 } else { u as int },
{
    if u <= 0x7FFF_FFFF_FFFF_FFFF {
        u as i64
    } else {
        let x = (u - 0x8000_0000_0000_0000) as i64;
        x - 0x7FFF_FFFF_FFFF_FFFF - 1
    }
}

/// Whether `w` elements of `count` (`None`: more than 64 bits' worth) need more than
/// the data holds; else how many elements there are.
fn fits(count: Option<u64>, Ghost(c): Ghost<nat>, w: u64, len: usize) -> (r: Option<usize>)
    requires
        w == 1 || w == 4 || w == 8,
        match count {
            Some(x) => x as nat == c,
            None => c > u64::MAX,
        },
    ensures
        match r {
            Some(n) => n as nat == c && c * w <= len,
            None => len < c * w,
        },
{
    let x = match count {
        Some(x) => x,
        None => {
            assert(c * w >= c) by (nonlinear_arith)
                requires
                    w >= 1,
            ;
            return None;
        },
    };
    match x.checked_mul(w) {
        Some(needed) => {
            if (len as u64) < needed {
                None
            } else {
                assert(x <= needed) by (nonlinear_arith)
                    requires
                        needed == x * w,
                        w >= 1,
                ;
                Some(x as usize)
            }
        },
        None => None,
    }
}

/// The first `n` bytes as unsigned integers.
fn decode_u1(data: &Vec<u8>, n: usize) -> (r: Vec<i64>)
    requires
        n <= data@.len(),
    ensures
        r@ == Seq::new(n as nat, |i: int| data@[i] as i64),
{
    let mut r: Vec<i64> = Vec::new();
    let mut i: usize = 0;
    while i < n
        invariant
            i <= n <= data@.len(),
            r@ == Seq::new(i as nat, |k: int| data@[k] as i64),
        decreases n - i,
    {
        r.push(data[i] as i64);
        proof {
            assert(r@ =~= Seq::new((i + 1) as nat, |k: int| data@[k] as i64));
        }
        i += 1;
    }
    r
}

/// The first `n` bytes as signed integers.
fn decode_i1(data: &Vec<u8>, n: usize) -> (r: Vec<i64>)
    requires
        n <= data@.len(),
    ensures
        r@ == Seq::new(n as nat, |i: int| (if data@[i] >= 128 { data@[i] as int - 256 } else { data@[i] as int }) as i64),
{
    let mut r: Vec<i64> = Vec::new();
    let mut i: usize = 0;
    while i < n
        invariant
            i <= n <= data@.len(),
            r@ == Seq::new(i as nat, |k: int| (if data@[k] >= 128 { data@[k] as int - 256 } else { data@[k] as int }) as i64),
        decreases n - i,
    {
        let b = data[i];
        let v: i64 = if b >= 128 { b as i64 - 256 } else { b as i64 };
        r.push(v);
        proof {
            assert(r@ =~= Seq::new((i + 1) as nat, |k: int| (if data@[k] >= 128 { data@[k] as int - 256 } else { data@[k] as int }) as i64));
        }
        i += 1;
    }
    r
}

/// The first `n` four-byte groups as unsigned or signed integers.
fn decode_4(data: &Vec<u8>, n: usize, signed: bool) -> (r: Vec<i64>)
    requires
        n * 4 <= data@.len(),
    ensures
        !signed ==> r@ == Seq::new(n as nat, |i: int| le32(data@, 4 * i) as i64),
        signed ==> r@ == Seq::new(n as nat, |i: int| (if le32(data@, 4 * i) >= 0x8000_0000 { le32(data@, 4 * i) - 0x1_0000_0000 } else { le32(data@, 4 * i) as int }) as i64),
{
    let mut r: Vec<i64> = Vec::new();
    let mut i: usize = 0;
    let dl = data.len();
    while i < n
        invariant
            i <= n,
            dl == data@.len(),
            n * 4 <= data@.len(),
            !signed ==> r@ == Seq::new(i as nat, |k: int| le32(data@, 4 * k) as i64),
            signed ==> r@ == Seq::new(i as nat, |k: int| (if le32(data@, 4 * k) >= 0x8000_0000 { le32(data@, 4 * k) - 0x1_0000_0000 } else { le32(data@, 4 * k) as int }) as i64),
        decreases n - i,
    {
        let u = read_le32(data.as_slice(), 4 * i);
        proof {
            assert(u <= 0xFFFF_FFFF) by {
                assert(le16(data@, 4 * i) <= 65535);
                assert(le16(data@, 4 * i + 2) <= 65535);
            }
        }
        let v: i64 = if signed && u >= 0x8000_0000 { u as i64 - 0x1_0000_0000 } else { u as i64 };
        r.push(v);
        proof {
            if signed {
                assert(r@ =~= Seq::new((i + 1) as nat, |k: int| (if le32(data@, 4 * k) >= 0x8000_0000 { le32(data@, 4 * k) - 0x1_0000_0000 } else { le32(data@, 4 * k) as int }) as i64));
            } else {
                assert(r@ =~= Seq::new((i + 1) as nat, |k: int| le32(data@, 4 * k) as i64));
            }
        }
        i += 1;
    }
    r
}

/// The first `n` eight-byte groups as signed integers.
fn decode_8(data: &Vec<u8>, n: usize) -> (r: Vec<i64>)
    requires
        n * 8 <= data@.len(),
    ensures
        r@ == Seq::new(n as nat, |i: int| (if le64(data@, 8 * i) >= 0x8000_0000_0000_0000 { le64(data@, 8 * i) - 0x1_0000_0000_0000_0000 } else { le64(data@, 8 * i) as int }) as i64),
{
    let mut r: Vec<i64> = Vec::new();
    let mut i: usize = 0;
    let dl = data.len();
    while i < n
        invariant
            i <= n,
            dl == data@.len(),
            n * 8 <= data@.len(),
            r@ == Seq::new(i as nat, |k: int| (if le64(data@, 8 * k) >= 0x8000_0000_0000_0000 { le64(data@, 8 * k) - 0x1_0000_0000_0000_0000 } else { le64(data@, 8 * k) as int }) as i64),
        decreases n - i,
    {
        let u = read_le64(data.as_slice(), 8 * i);
        r.push(signed64(u));
        proof {
            assert(r@ =~= Seq::new((i + 1) as nat, |k: int| (if le64(data@, 8 * k) >= 0x8000_0000_0000_0000 { le64(data@, 8 * k) - 0x1_0000_0000_0000_0000 } else { le64(data@, 8 * k) as int }) as i64));
        }
        i += 1;
    }
    r
}

/// The values of the data for element type `d`, or the message of what is wrong.
fn decode_exec(d: &str, count: Option<u64>, Ghost(c): Ghost<nat>, data: &Vec<u8>) -> (r: Result<Vec<i64>, String>)
    requires
        match count {
            Some(x) => x as nat == c,
            None => c > u64::MAX,
        },
    ensures
        match r {
            Ok(v) => decode_values(d@, c, data@) == Ok::<Seq<i64>, Seq<char>>(v@),
            Err(m) => decode_values(d@, c, data@) == Err::<Seq<i64>, Seq<char>>(m@),
        },
{
    if str_eq(d, "|u1") || str_eq(d, "<u1") {
        match fits(count, Ghost(c), 1, data.len()) {
            Some(n) => Ok(decode_u1(data, n)),
            None => Err(owned("truncated uint8 data")),
        }
    } else if str_eq(d, "|i1") || str_eq(d, "<i1") {
        match fits(count, Ghost(c), 1, data.len()) {
            Some(n) => Ok(decode_i1(data, n)),
            None => Err(owned("truncated int8 data")),
        }
    } else if str_eq(d, "<u4") {
        match fits(count, Ghost(c), 4, data.len()) {
            Some(n) => Ok(decode_4(data, n, false)),
            None => Err(owned("truncated uint32 data")),
        }
    } else if str_eq(d, "<i4") {
        match fits(count, Ghost(c), 4, data.len()) {
            Some(n) => Ok(decode_4(data, n, true)),
            None => Err(owned("truncated int32 data")),
        }
    } else if str_eq(d, "<i8") {
        match fits(count, Ghost(c), 8, data.len()) {
            Some(n) => Ok(decode_8(data, n)),
            None => Err(owned("truncated int64 data")),
        }
    } else {
        Err(owned("unsupported NumPy dtype"))
    }
}

/// The error for a `.npy` file at `path` that does not read.
fn npy_error(path: &str, message: String) -> (r: CfError)
    ensures
        r@ == (CfErrorView::Parse { path: path@, line: 0, message: message@ }),
{
    CfError::Parse { path: owned(path), line: 0, message }
}

/// Reads an array of integers from the bytes of a `.npy` file at `path`: version 1, 2
/// or 3, C order, element type unsigned or signed 8-bit, 32-bit or signed 64-bit,
/// little-endian.
pub fn parse_npy_i64_values(bytes: &[u8], path: &str) -> (r: Result<MmapArray, CfError>)
    ensures
        exists|h: Option<Seq<char>>| #[trigger] header_decodes(bytes@, h) && match npy_result(bytes@, h) {
            Ok(a) => r is Ok && r->Ok_0@ == a,
            Err(m) => r is Err && r->Err_0@ == (CfErrorView::Parse { path: path@, line: 0, message: m }),
        },
{
    let ghost none: Option<Seq<char>> = None;
    let n = bytes.len();
    if n < 10 || bytes[0] != 0x93u8 || bytes[1] != 78u8 || bytes[2] != 85u8 || bytes[3] != 77u8 || bytes[4] != 80u8
        || bytes[5] != 89u8 {
        proof {
            assert(header_decodes(bytes@, none));
        }
        return Err(npy_error(path, owned("missing NumPy magic header")));
    }
    let major = bytes[6];
    let sz: usize = if major == 1 {
        2
    } else if major == 2 || major == 3 {
        4
    } else {
        proof {
            assert(header_decodes(bytes@, none));
        }
        return Err(npy_error(path, owned("unsupported NumPy format version")));
    };
    let hs = 8 + sz;
    if n < hs {
        proof {
            assert(header_decodes(bytes@, none));
        }
        return Err(npy_error(path, owned("truncated NumPy header")));
    }
    let hl: u64 = if sz == 2 {
        let b8 = bytes[8] as u64;
        let b9 = bytes[9] as u64;
        assert(256 * b9 <= 65280) by (nonlinear_arith)
            requires
                b9 <= 255,
        ;
        b8 + 256 * b9
    } else {
        read_le32(bytes, 8)
    };
    let ds64: u64 = hs as u64 + hl;
    if (n as u64) < ds64 {
        proof {
            assert(header_decodes(bytes@, none));
        }
        return Err(npy_error(path, owned("truncated NumPy data")));
    }
    let ds = ds64 as usize;
    proof {
        assert(npy_bounds(bytes@) == Ok::<(int, int), Seq<char>>((hs as int, ds as int)));
    }
    let hb = sub_bytes(bytes, hs, ds);
    let text = match decode_utf8(hb.as_slice()) {
        Some(t) => t,
        None => {
            proof {
                assert(header_decodes(bytes@, none));
            }
            return Err(npy_error(path, owned("NumPy header is not UTF-8")));
        },
    };
    let h = to_chars(text.as_str());
    let ghost hv: Option<Seq<char>> = Some(h@);
    proof {
        assert(header_decodes(bytes@, hv));
    }
    let f1 = to_chars("'fortran_order': True");
    let f2 = to_chars("\"fortran_order\": True");
    if contains_vec(h.as_slice(), f1.as_slice()) || contains_vec(h.as_slice(), f2.as_slice()) {
        return Err(npy_error(path, owned("Fortran-order arrays are not supported")));
    }
    let field = to_chars("'descr':");
    let descr = match string_field_exec(h.as_slice(), field.as_slice()) {
        Some(d) => d,
        None => return Err(npy_error(path, owned("missing NumPy descr"))),
    };
    let shape = match shape_field_exec(h.as_slice()) {
        Some(s) => s,
        None => return Err(npy_error(path, owned("missing NumPy shape"))),
    };
    let count = shape_product(&shape);
    let data = sub_bytes(bytes, ds, n);
    proof {
        assert(data@ =~= bytes@.skip(ds as int));
    }
    let d = from_chars(descr.as_slice());
    match decode_exec(d.as_str(), count, Ghost(shape_count(shape@)), &data) {
        Ok(values) => Ok(MmapArray { values, shape }),
        Err(m) => Err(npy_error(path, m)),
    }
}

} // verus!

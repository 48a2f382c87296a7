//! Character-level text helpers with exact specifications.
//!
//! Text is specified through its view, the sequence of `char`s. Positions are
//! character positions, so the results agree with the byte-position code of the
//! corpus layer on every string.

use vstd::prelude::*;

verus! {

broadcast use vstd::string::group_string_axioms;

// ---------------------------------------------------------------------------
// Specifications
// ---------------------------------------------------------------------------

/// The decimal digit `d` as a character.
pub open spec fn digit_char(d: nat) -> char {
    (48 + d) as char
}

/// Decimal rendering of a natural number, without sign or leading zeros.
pub open spec fn dec_nat(n: nat) -> Seq<char>
    decreases n,
{
    if n < 10 {
        seq![digit_char(n)]
    } else {
        dec_nat(n / 10).push(digit_char(n % 10))
    }
}

/// Decimal rendering of an integer, with a leading `-` when negative.
pub open spec fn dec_int(n: int) -> Seq<char> {
    if n < 0 {
        seq!['-'] + dec_nat((-n) as nat)
    } else {
        dec_nat(n as nat)
    }
}

pub open spec fn is_digit(c: char) -> bool {
    '0' <= c <= '9'
}

pub open spec fn all_digits(s: Seq<char>) -> bool {
    forall|i: int| 0 <= i < s.len() ==> is_digit(#[trigger] s[i])
}

/// The value of a string of decimal digits.
pub open spec fn digits_val(s: Seq<char>) -> nat
    decreases s.len(),
{
    if s.len() == 0 {
        0
    } else {
        digits_val(s.drop_last()) * 10 + ((s.last() as nat) - 48) as nat
    }
}

/// A non-empty run of decimal digits and its value.
pub open spec fn parse_digits(s: Seq<char>) -> Option<nat> {
    if s.len() > 0 && all_digits(s) {
        Some(digits_val(s))
    } else {
        None
    }
}

/// What `str::parse::<u32>` accepts: an optional `+`, then decimal digits, in range.
pub open spec fn parse_u32_spec(s: Seq<char>) -> Option<u32> {
    let body = if s.len() > 0 && s[0] == '+' {
        s.drop_first()
    } else {
        s
    };
    match parse_digits(body) {
        Some(v) => if v <= u32::MAX {
            Some(v as u32)
        } else {
            None
        },
        None => None,
    }
}

/// What `str::parse::<u64>` accepts: an optional `+`, then decimal digits, in range.
pub open spec fn parse_u64_spec(s: Seq<char>) -> Option<u64> {
    let body = if s.len() > 0 && s[0] == '+' {
        s.drop_first()
    } else {
        s
    };
    match parse_digits(body) {
        Some(v) => if v <= u64::MAX {
            Some(v as u64)
        } else {
            None
        },
        None => None,
    }
}

/// What `str::parse::<i64>` accepts: an optional sign, then decimal digits, in range.
pub open spec fn parse_i64_spec(s: Seq<char>) -> Option<i64> {
    if s.len() > 0 && s[0] == '-' {
        match parse_digits(s.drop_first()) {
            Some(v) => if v <= 0x8000_0000_0000_0000 {
                Some((-(v as int)) as i64)
            } else {
                None
            },
            None => None,
        }
    } else {
        let body = if s.len() > 0 && s[0] == '+' {
            s.drop_first()
        } else {
            s
        };
        match parse_digits(body) {
            Some(v) => if v <= i64::MAX {
                Some(v as i64)
            } else {
                None
            },
            None => None,
        }
    }
}

/// Unicode `White_Space`, the set that `char::is_whitespace` and `str::trim` use.
pub open spec fn is_ws(c: char) -> bool {
    ||| '\t' <= c <= '\r'
    ||| c == ' '
    ||| c == '\u{85}'
    ||| c == '\u{A0}'
    ||| c == '\u{1680}'
    ||| '\u{2000}' <= c <= '\u{200A}'
    ||| c == '\u{2028}'
    ||| c == '\u{2029}'
    ||| c == '\u{202F}'
    ||| c == '\u{205F}'
    ||| c == '\u{3000}'
}

/// Number of leading whitespace characters.
pub open spec fn lead_ws(s: Seq<char>) -> nat
    decreases s.len(),
{
    if s.len() > 0 && is_ws(s[0]) {
        1 + lead_ws(s.drop_first())
    } else {
        0
    }
}

/// Number of trailing whitespace characters.
pub open spec fn trail_ws(s: Seq<char>) -> nat
    decreases s.len(),
{
    if s.len() > 0 && is_ws(s.last()) {
        1 + trail_ws(s.drop_last())
    } else {
        0
    }
}

pub open spec fn trim_start_spec(s: Seq<char>) -> Seq<char> {
    s.skip(lead_ws(s) as int)
}

pub open spec fn trim_end_spec(s: Seq<char>) -> Seq<char> {
    s.take(s.len() - trail_ws(s))
}

pub open spec fn trim_spec(s: Seq<char>) -> Seq<char> {
    trim_end_spec(trim_start_spec(s))
}

/// `s` with every `c` replaced by `r`.
pub open spec fn replace_char(s: Seq<char>, c: char, r: Seq<char>) -> Seq<char>
    decreases s.len(),
{
    if s.len() == 0 {
        seq![]
    } else {
        replace_char(s.drop_last(), c, r) + if s.last() == c {
            r
        } else {
            seq![s.last()]
        }
    }
}

/// The pieces of `s` between occurrences of `sep`, as `str::split` yields them.
pub open spec fn split_spec(s: Seq<char>, sep: char) -> Seq<Seq<char>>
    decreases s.len(),
{
    if s.len() == 0 {
        seq![seq![]]
    } else {
        let parts = split_spec(s.drop_last(), sep);
        if s.last() == sep {
            parts.push(seq![])
        } else {
            parts.update(parts.len() - 1, parts.last().push(s.last()))
        }
    }
}

/// The parts joined with `sep` between neighbours.
pub open spec fn join_spec(parts: Seq<Seq<char>>, sep: Seq<char>) -> Seq<char>
    decreases parts.len(),
{
    if parts.len() == 0 {
        seq![]
    } else if parts.len() == 1 {
        parts[0]
    } else {
        join_spec(parts.drop_last(), sep) + sep + parts.last()
    }
}

/// Index of the first occurrence of `c`, if any.
pub open spec fn find_spec(s: Seq<char>, c: char) -> Option<int> {
    if exists|i: int| 0 <= i < s.len() && s[i] == c {
        Some(choose|i: int| 0 <= i < s.len() && s[i] == c && forall|j: int| 0 <= j < i ==> s[j] != c)
    } else {
        None
    }
}

/// `c` occurs first at `i`.
pub open spec fn first_at(s: Seq<char>, c: char, i: int) -> bool {
    &&& 0 <= i < s.len()
    &&& s[i] == c
    &&& forall|j: int| 0 <= j < i ==> s[j] != c
}

/// `c` occurs last at `i`.
pub open spec fn last_at(s: Seq<char>, c: char, i: int) -> bool {
    &&& 0 <= i < s.len()
    &&& s[i] == c
    &&& forall|j: int| i < j < s.len() ==> s[j] != c
}

pub open spec fn no_char(s: Seq<char>, c: char) -> bool {
    forall|j: int| 0 <= j < s.len() ==> s[j] != c
}

/// `a` is a prefix of `s`.
pub open spec fn starts_with_spec(s: Seq<char>, a: Seq<char>) -> bool {
    a.len() <= s.len() && s.take(a.len() as int) == a
}

/// `a` is a suffix of `s`.
pub open spec fn ends_with_spec(s: Seq<char>, a: Seq<char>) -> bool {
    a.len() <= s.len() && s.skip(s.len() - a.len()) == a
}

/// `a` occurs somewhere in `s`.
pub open spec fn contains_spec(s: Seq<char>, a: Seq<char>) -> bool {
    exists|i: int| 0 <= i <= s.len() - a.len() && #[trigger] s.subrange(i, i + a.len()) == a
}

/// Lexicographic order on characters, which is the byte order of UTF-8 strings.
pub open spec fn str_lt(a: Seq<char>, b: Seq<char>) -> bool
    decreases a.len(),
{
    if a.len() == 0 {
        b.len() > 0
    } else if b.len() == 0 {
        false
    } else if a[0] != b[0] {
        a[0] < b[0]
    } else {
        str_lt(a.drop_first(), b.drop_first())
    }
}

pub open spec fn str_le(a: Seq<char>, b: Seq<char>) -> bool {
    a == b || str_lt(a, b)
}

/// No string is before itself.
pub proof fn lemma_str_lt_irrefl(a: Seq<char>)
    ensures
        !str_lt(a, a),
    decreases a.len(),
{
    if a.len() > 0 {
        lemma_str_lt_irrefl(a.drop_first());
    }
}

/// Two different strings are ordered one way and not both.
pub proof fn lemma_str_lt_total(a: Seq<char>, b: Seq<char>)
    ensures
        a != b ==> (str_lt(a, b) || str_lt(b, a)),
        !(str_lt(a, b) && str_lt(b, a)),
    decreases a.len(),
{
    if a.len() > 0 && b.len() > 0 && a[0] == b[0] {
        lemma_str_lt_total(a.drop_first(), b.drop_first());
        if a != b {
            assert(a == seq![a[0]] + a.drop_first());
            assert(b == seq![b[0]] + b.drop_first());
        }
    } else if a.len() == 0 && b.len() == 0 {
        assert(a == b);
    }

}

/// The string order is transitive.
pub proof fn lemma_str_lt_trans(a: Seq<char>, b: Seq<char>, c: Seq<char>)
    requires
        str_lt(a, b),
        str_lt(b, c),
    ensures
        str_lt(a, c),
    decreases a.len(),
{
    if a.len() > 0 && a[0] == b[0] && b[0] == c[0] {
        lemma_str_lt_trans(a.drop_first(), b.drop_first(), c.drop_first());
    }
}

/// `str_le` is a total preorder.
pub proof fn lemma_str_le_facts(a: Seq<char>, b: Seq<char>, c: Seq<char>)
    ensures
        str_le(a, b) || str_le(b, a),
        str_le(a, b) && str_le(b, c) ==> str_le(a, c),
        str_le(a, b) && str_le(b, a) ==> a == b,
{
    lemma_str_lt_total(a, b);
    lemma_str_lt_total(b, c);
    lemma_str_lt_total(a, c);
    if str_lt(a, b) && str_lt(b, c) {
        lemma_str_lt_trans(a, b, c);
    }
    if a == b && b == c {
    }
    if str_lt(a, b) && a == c {
        lemma_str_lt_irrefl(a);
    }
}


/// The views of a sequence of strings.
pub open spec fn views(v: Seq<String>) -> Seq<Seq<char>> {
    v.map_values(|s: String| s@)
}

// ---------------------------------------------------------------------------
// Wrappers of std string operations that vstd leaves unspecified
// ---------------------------------------------------------------------------

/// `String::push`: appends one character.
#[verifier::external_body]
pub(crate) fn push_char(s: &mut String, c: char)
    ensures
        final(s)@ == old(s)@.push(c),
{
    s.push(c);
}

/// `str::to_string`: an owned copy with the same characters.
#[verifier::external_body]
pub fn owned(s: &str) -> (r: String)
    ensures
        r@ == s@,
{
    s.to_string()
}

/// `String::clone`: an equal copy.
pub fn copy_string(s: &String) -> (r: String)
    ensures
        r@ == s@,
{
    s.clone()
}

// ---------------------------------------------------------------------------
// Conversions between strings and character vectors
// ---------------------------------------------------------------------------

/// The characters of `s`.
pub fn to_chars(s: &str) -> (r: Vec<char>)
    ensures
        r@ == s@,
{
    let mut r: Vec<char> = Vec::new();
    for c in it: s.chars()
        invariant
            it.seq() == s@,
            r@ == it.seq().take(it.index() as int),
        ensures
            r@ == s@,
    {
        proof {
            assert(it.seq().take(it.index() + 1) == it.seq().take(it.index() as int).push(c));
        }
        r.push(c);
    }
    r
}

/// The string made of the characters `v`.
pub fn from_chars(v: &[char]) -> (r: String)
    ensures
        r@ == v@,
{
    let mut r = String::new();
    let mut i: usize = 0;
    while i < v.len()
        invariant
            0 <= i <= v.len(),
            r@ == v@.take(i as int),
        decreases v.len() - i,
    {
        proof {
            assert(v@.take(i + 1) == v@.take(i as int).push(v@[i as int]));
        }
        push_char(&mut r, v[i]);
        i += 1;
    }
    proof {
        assert(v@.take(v@.len() as int) == v@);
    }
    r
}

/// Appends the characters `v` to `s`.
pub fn push_chars(s: &mut String, v: &[char])
    ensures
        final(s)@ == old(s)@ + v@,
{
    let mut i: usize = 0;
    while i < v.len()
        invariant
            0 <= i <= v.len(),
            s@ == old(s)@ + v@.take(i as int),
        decreases v.len() - i,
    {
        proof {
            assert(v@.take(i + 1) == v@.take(i as int).push(v@[i as int]));
            assert(old(s)@ + v@.take(i + 1) == (old(s)@ + v@.take(i as int)).push(v@[i as int]));
        }
        push_char(s, v[i]);
        i += 1;
    }
    proof {
        assert(v@.take(v@.len() as int) == v@);
    }
}

/// Appends `t` to `s`.
pub fn push_str(s: &mut String, t: &str)
    ensures
        final(s)@ == old(s)@ + t@,
{
    let cs = to_chars(t);
    push_chars(s, cs.as_slice());
}

/// Character-wise equality of two strings.
pub fn chars_eq(a: &[char], b: &[char]) -> (r: bool)
    ensures
        r == (a@ == b@),
{
    if a.len() != b.len() {
        return false;
    }
    let mut i: usize = 0;
    while i < a.len()
        invariant
            a.len() == b.len(),
            0 <= i <= a.len(),
            forall|j: int| 0 <= j < i ==> a@[j] == b@[j],
        decreases a.len() - i,
    {
        if a[i] != b[i] {
            return false;
        }
        i += 1;
    }
    proof {
        assert(a@ =~= b@);
    }
    true
}

/// Equality of two string slices.
pub fn str_eq(a: &str, b: &str) -> (r: bool)
    ensures
        r == (a@ == b@),
{
    let ac = to_chars(a);
    let bc = to_chars(b);
    chars_eq(ac.as_slice(), bc.as_slice())
}

/// Equality of a string with a string slice.
pub fn string_eq(a: &String, b: &str) -> (r: bool)
    ensures
        r == (a@ == b@),
{
    str_eq(a.as_str(), b)
}

/// Whether `c` is Unicode whitespace.
pub fn is_whitespace(c: char) -> (r: bool)
    ensures
        r == is_ws(c),
{
    ('\t' <= c && c <= '\r') || c == ' ' || c == '\u{85}' || c == '\u{A0}' || c == '\u{1680}'
        || ('\u{2000}' <= c && c <= '\u{200A}') || c == '\u{2028}' || c == '\u{2029}' || c
        == '\u{202F}' || c == '\u{205F}' || c == '\u{3000}'
}

// ---------------------------------------------------------------------------
// Numbers
// ---------------------------------------------------------------------------

fn digit(d: u64) -> (c: char)
    requires
        d < 10,
    ensures
        c == digit_char(d as nat),
{
    if d == 0 {
        '0'
    } else if d == 1 {
        '1'
    } else if d == 2 {
        '2'
    } else if d == 3 {
        '3'
    } else if d == 4 {
        '4'
    } else if d == 5 {
        '5'
    } else if d == 6 {
        '6'
    } else if d == 7 {
        '7'
    } else if d == 8 {
        '8'
    } else {
        '9'
    }
}

fn push_dec(n: u64, out: &mut Vec<char>)
    ensures
        final(out)@ == old(out)@ + dec_nat(n as nat),
    decreases n,
{
    if n >= 10 {
        push_dec(n / 10, out);
    }
    let c = digit(n % 10);
    out.push(c);
    proof {
        if n < 10 {
            assert(dec_nat(n as nat) == seq![digit_char(n as nat)]);
        }
    }
}

/// Decimal rendering of `n`.
pub fn u64_to_chars(n: u64) -> (r: Vec<char>)
    ensures
        r@ == dec_nat(n as nat),
{
    let mut out: Vec<char> = Vec::new();
    push_dec(n, &mut out);
    proof {
        assert(out@ =~= dec_nat(n as nat));
    }
    out
}

/// Decimal rendering of `n` as a string.
pub fn u64_to_string(n: u64) -> (r: String)
    ensures
        r@ == dec_nat(n as nat),
{
    let v = u64_to_chars(n);
    from_chars(v.as_slice())
}

/// Decimal rendering of a signed integer, with `-` for negatives.
pub fn i64_to_chars(n: i64) -> (r: Vec<char>)
    ensures
        r@ == dec_int(n as int),
{
    if n < 0 {
        let m: u64 = (0i128 - n as i128) as u64;
        let mut out: Vec<char> = Vec::new();
        out.push('-');
        push_dec(m, &mut out);
        proof {
            assert(out@ =~= seq!['-'] + dec_nat((-n) as nat));
        }
        out
    } else {
        u64_to_chars(n as u64)
    }
}

/// Decimal rendering of a signed integer as a string.
pub fn i64_to_string(n: i64) -> (r: String)
    ensures
        r@ == dec_int(n as int),
{
    let v = i64_to_chars(n);
    from_chars(v.as_slice())
}

proof fn lemma_digits_val_take(s: Seq<char>, i: int)
    requires
        0 <= i < s.len(),
    ensures
        digits_val(s.take(i + 1)) == digits_val(s.take(i)) * 10 + ((s[i] as nat) - 48) as nat,
{
    assert(s.take(i + 1).drop_last() == s.take(i));
}

/// Value of the digits `s[start..]`, saturated at `limit + 1`; `None` when a
/// character there is not a digit or the run is empty.
fn parse_digits_sat(s: &[char], start: usize, limit: u128) -> (r: Option<u128>)
    requires
        start <= s.len(),
        limit < 0x1_0000_0000_0000_0000_0000_0000_0000,
    ensures
        match parse_digits(s@.skip(start as int)) {
            Some(v) => r == Some(if v <= limit {
                v as u128
            } else {
                (limit + 1) as u128
            }),
            None => r is None,
        },
{
    let ghost t = s@.skip(start as int);
    if start == s.len() {
        return None;
    }
    let mut acc: u128 = 0;
    let mut i: usize = start;
    while i < s.len()
        invariant
            start <= i <= s.len(),
            t == s@.skip(start as int),
            limit < 0x1_0000_0000_0000_0000_0000_0000_0000,
            all_digits(t.take(i - start)),
            acc == if digits_val(t.take(i - start)) <= limit {
                digits_val(t.take(i - start))
            } else {
                (limit + 1) as nat
            },
        decreases s.len() - i,
    {
        let c = s[i];
        if !('0' <= c && c <= '9') {
            proof {
                assert(t[i - start] == c);
                assert(!all_digits(t));
            }
            return None;
        }
        let d: u128 = (c as u32 - 48) as u128;
        proof {
            lemma_digits_val_take(t, i - start);
            assert(t.take(i - start + 1) == t.take(i - start).push(c));
        }
        if acc > limit {
            acc = limit + 1;
        } else {
            let next = acc * 10 + d;
            acc = if next > limit {
                limit + 1
            } else {
                next
            };
        }
        i += 1;
    }
    proof {
        assert(t.take(i - start) == t);
    }
    Some(acc)
}

/// `str::parse::<u32>`.
pub fn parse_u32(s: &str) -> (r: Option<u32>)
    ensures
        r == parse_u32_spec(s@),
{
    let cs = to_chars(s);
    let start: usize = if cs.len() > 0 && cs[0] == '+' {
        1
    } else {
        0
    };
    proof {
        assert(cs@.skip(start as int) == if cs@.len() > 0 && cs@[0] == '+' {
            cs@.drop_first()
        } else {
            cs@
        });
    }
    match parse_digits_sat(cs.as_slice(), start, 0xFFFF_FFFF) {
        Some(v) => if v <= 0xFFFF_FFFF {
            Some(v as u32)
        } else {
            None
        },
        None => None,
    }
}

/// `str::parse::<u64>`.
pub fn parse_u64(s: &str) -> (r: Option<u64>)
    ensures
        r == parse_u64_spec(s@),
{
    let cs = to_chars(s);
    let start: usize = if cs.len() > 0 && cs[0] == '+' {
        1
    } else {
        0
    };
    proof {
        assert(cs@.skip(start as int) == if cs@.len() > 0 && cs@[0] == '+' {
            cs@.drop_first()
        } else {
            cs@
        });
    }
    match parse_digits_sat(cs.as_slice(), start, 0xFFFF_FFFF_FFFF_FFFF) {
        Some(v) => if v <= 0xFFFF_FFFF_FFFF_FFFF {
            Some(v as u64)
        } else {
            None
        },
        None => None,
    }
}

/// `str::parse::<i64>`.
pub fn parse_i64(s: &str) -> (r: Option<i64>)
    ensures
        r == parse_i64_spec(s@),
{
    let cs = to_chars(s);
    if cs.len() > 0 && cs[0] == '-' {
        proof {
            assert(cs@.skip(1) == cs@.drop_first());
        }
        match parse_digits_sat(cs.as_slice(), 1, 0x8000_0000_0000_0000) {
            Some(v) => if v <= 0x8000_0000_0000_0000 {
                Some((0i128 - v as i128) as i64)
            } else {
                None
            },
            None => None,
        }
    } else {
        let start: usize = if cs.len() > 0 && cs[0] == '+' {
            1
        } else {
            0
        };
        proof {
            assert(cs@.skip(start as int) == if cs@.len() > 0 && cs@[0] == '+' {
                cs@.drop_first()
            } else {
                cs@
            });
        }
        match parse_digits_sat(cs.as_slice(), start, 0x7FFF_FFFF_FFFF_FFFF) {
            Some(v) => if v <= 0x7FFF_FFFF_FFFF_FFFF {
                Some(v as i64)
            } else {
                None
            },
            None => None,
        }
    }
}


// ---------------------------------------------------------------------------
// Trimming, replacing, splitting, joining, searching
// ---------------------------------------------------------------------------

pub open spec fn cviews(v: Seq<Vec<char>>) -> Seq<Seq<char>> {
    v.map_values(|x: Vec<char>| x@)
}

proof fn lemma_lead_ws(s: Seq<char>, k: int)
    requires
        0 <= k <= s.len(),
        forall|j: int| 0 <= j < k ==> is_ws(#[trigger] s[j]),
        k == s.len() || !is_ws(s[k]),
    ensures
        lead_ws(s) == k,
    decreases k,
{
    if k > 0 {
        lemma_lead_ws(s.drop_first(), k - 1);
    }
}

proof fn lemma_trail_ws(s: Seq<char>, k: int)
    requires
        0 <= k <= s.len(),
        forall|j: int| s.len() - k <= j < s.len() ==> is_ws(#[trigger] s[j]),
        k == s.len() || !is_ws(s[s.len() - k - 1]),
    ensures
        trail_ws(s) == k,
    decreases k,
{
    if k > 0 {
        lemma_trail_ws(s.drop_last(), k - 1);
    }
}

/// Number of leading whitespace characters of `v`.
pub fn count_lead_ws(v: &[char]) -> (n: usize)
    ensures
        n == lead_ws(v@),
        n <= v@.len(),
{
    let mut i: usize = 0;
    while i < v.len() && is_whitespace(v[i])
        invariant
            0 <= i <= v.len(),
            forall|j: int| 0 <= j < i ==> is_ws(#[trigger] v@[j]),
        decreases v.len() - i,
    {
        i += 1;
    }
    proof {
        lemma_lead_ws(v@, i as int);
    }
    i
}

/// Number of trailing whitespace characters of `v`.
pub fn count_trail_ws(v: &[char]) -> (n: usize)
    ensures
        n == trail_ws(v@),
        n <= v@.len(),
{
    let mut k: usize = 0;
    while k < v.len() && is_whitespace(v[v.len() - k - 1])
        invariant
            0 <= k <= v.len(),
            forall|j: int| v.len() - k <= j < v.len() ==> is_ws(#[trigger] v@[j]),
        decreases v.len() - k,
    {
        k += 1;
    }
    proof {
        lemma_trail_ws(v@, k as int);
    }
    k
}

/// `v[from..to]` as a vector.
pub fn sub_chars(v: &[char], from: usize, to: usize) -> (r: Vec<char>)
    requires
        from <= to <= v.len(),
    ensures
        r@ == v@.subrange(from as int, to as int),
{
    let mut r: Vec<char> = Vec::new();
    let mut i: usize = from;
    while i < to
        invariant
            from <= i <= to <= v.len(),
            r@ == v@.subrange(from as int, i as int),
        decreases to - i,
    {
        proof {
            assert(v@.subrange(from as int, i + 1) == v@.subrange(from as int, i as int).push(
                v@[i as int],
            ));
        }
        r.push(v[i]);
        i += 1;
    }
    r
}

/// `str::trim`.
pub fn trim_vec(v: &[char]) -> (r: Vec<char>)
    ensures
        r@ == trim_spec(v@),
{
    let a = count_lead_ws(v);
    let rest = sub_chars(v, a, v.len());
    let b = count_trail_ws(rest.as_slice());
    sub_chars(rest.as_slice(), 0, rest.len() - b)
}

/// `str::trim_start`.
pub fn trim_start_vec(v: &[char]) -> (r: Vec<char>)
    ensures
        r@ == trim_start_spec(v@),
{
    let a = count_lead_ws(v);
    sub_chars(v, a, v.len())
}

/// `str::trim_end`.
pub fn trim_end_vec(v: &[char]) -> (r: Vec<char>)
    ensures
        r@ == trim_end_spec(v@),
{
    let b = count_trail_ws(v);
    sub_chars(v, 0, v.len() - b)
}

/// `str::trim` as a string.
pub fn trim_str(s: &str) -> (r: String)
    ensures
        r@ == trim_spec(s@),
{
    let v = to_chars(s);
    let t = trim_vec(v.as_slice());
    from_chars(t.as_slice())
}

/// `str::replace` of one character by a string.
pub fn replace_vec(v: &[char], c: char, rep: &[char]) -> (r: Vec<char>)
    ensures
        r@ == replace_char(v@, c, rep@),
{
    let mut r: Vec<char> = Vec::new();
    let mut i: usize = 0;
    while i < v.len()
        invariant
            0 <= i <= v.len(),
            r@ == replace_char(v@.take(i as int), c, rep@),
        decreases v.len() - i,
    {
        proof {
            assert(v@.take(i + 1).drop_last() == v@.take(i as int));
        }
        if v[i] == c {
            let mut j: usize = 0;
            let ghost r0 = r@;
            while j < rep.len()
                invariant
                    0 <= j <= rep.len(),
                    r@ == r0 + rep@.take(j as int),
                decreases rep.len() - j,
            {
                proof {
                    assert(rep@.take(j + 1) == rep@.take(j as int).push(rep@[j as int]));
                }
                r.push(rep[j]);
                j += 1;
            }
            proof {
                assert(rep@.take(rep@.len() as int) == rep@);
            }
        } else {
            r.push(v[i]);
        }
        i += 1;
    }
    proof {
        assert(v@.take(v@.len() as int) == v@);
    }
    r
}

/// `str::replace` of one character by a string, on strings.
pub fn replace_str(s: &str, c: char, rep: &str) -> (r: String)
    ensures
        r@ == replace_char(s@, c, rep@),
{
    let v = to_chars(s);
    let rv = to_chars(rep);
    let out = replace_vec(v.as_slice(), c, rv.as_slice());
    from_chars(out.as_slice())
}

/// `str::split` on one character.
pub fn split_vec(v: &[char], sep: char) -> (r: Vec<Vec<char>>)
    ensures
        cviews(r@) == split_spec(v@, sep),
        r@.len() >= 1,
{
    let mut r: Vec<Vec<char>> = Vec::new();
    let mut cur: Vec<char> = Vec::new();
    let mut i: usize = 0;
    proof {
        assert(v@.take(0) == Seq::<char>::empty());
    }
    while i < v.len()
        invariant
            0 <= i <= v.len(),
            cviews(r@).push(cur@) == split_spec(v@.take(i as int), sep),
        decreases v.len() - i,
    {
        proof {
            assert(v@.take(i + 1).drop_last() == v@.take(i as int));
        }
        if v[i] == sep {
            let done = cur;
            r.push(done);
            cur = Vec::new();
            proof {
                assert(cviews(r@) == cviews(old_r(r@)).push(done@)) by {
                    assert(cviews(r@) =~= cviews(r@.drop_last()).push(done@));
                }
            }
        } else {
            let ghost pre = cviews(r@).push(cur@);
            cur.push(v[i]);
            proof {
                assert(cviews(r@).push(cur@) =~= pre.update(pre.len() - 1, pre.last().push(
                    v@[i as int],
                )));
            }
        }
        i += 1;
    }
    proof {
        assert(v@.take(v@.len() as int) == v@);
    }
    r.push(cur);
    proof {
        assert(cviews(r@) =~= cviews(r@.drop_last()).push(r@.last()@));
    }
    r
}

spec fn old_r(r: Seq<Vec<char>>) -> Seq<Vec<char>> {
    r.drop_last()
}

/// `str::split` on one character, producing owned strings.
pub fn split_str(s: &str, sep: char) -> (r: Vec<String>)
    ensures
        views(r@) == split_spec(s@, sep),
{
    let v = to_chars(s);
    let parts = split_vec(v.as_slice(), sep);
    let mut r: Vec<String> = Vec::new();
    let mut i: usize = 0;
    while i < parts.len()
        invariant
            0 <= i <= parts.len(),
            r@.len() == i,
            forall|j: int| 0 <= j < i ==> #[trigger] r@[j]@ == parts@[j]@,
        decreases parts.len() - i,
    {
        let s1 = from_chars(parts[i].as_slice());
        r.push(s1);
        i += 1;
    }
    proof {
        assert(views(r@) =~= cviews(parts@));
    }
    r
}

/// `[String]::join` with a separator.
pub fn join_strings(parts: &[String], sep: &str) -> (r: String)
    ensures
        r@ == join_spec(views(parts@), sep@),
{
    let mut r = String::new();
    let mut i: usize = 0;
    while i < parts.len()
        invariant
            0 <= i <= parts.len(),
            r@ == join_spec(views(parts@).take(i as int), sep@),
        decreases parts.len() - i,
    {
        proof {
            assert(views(parts@).take(i + 1).drop_last() =~= views(parts@).take(i as int));
            assert(views(parts@).take(i + 1).last() == parts@[i as int]@);
        }
        if i > 0 {
            push_str(&mut r, sep);
        }
        push_str(&mut r, parts[i].as_str());
        proof {
            if i == 0 {
                assert(views(parts@).take(1) =~= seq![parts@[0]@]);
            }
        }
        i += 1;
    }
    proof {
        assert(views(parts@).take(parts@.len() as int) =~= views(parts@));
    }
    r
}

/// Position of the first `c` in `v`.
pub fn find_char(v: &[char], c: char) -> (r: Option<usize>)
    ensures
        match r {
            Some(i) => first_at(v@, c, i as int),
            None => no_char(v@, c),
        },
{
    let mut i: usize = 0;
    while i < v.len()
        invariant
            0 <= i <= v.len(),
            forall|j: int| 0 <= j < i ==> v@[j] != c,
        decreases v.len() - i,
    {
        if v[i] == c {
            return Some(i);
        }
        i += 1;
    }
    None
}

/// Position of the last `c` in `v`.
pub fn rfind_char(v: &[char], c: char) -> (r: Option<usize>)
    ensures
        match r {
            Some(i) => last_at(v@, c, i as int),
            None => no_char(v@, c),
        },
{
    let mut k: usize = v.len();
    while k > 0
        invariant
            0 <= k <= v.len(),
            forall|j: int| k <= j < v.len() ==> v@[j] != c,
        decreases k,
    {
        if v[k - 1] == c {
            return Some(k - 1);
        }
        k -= 1;
    }
    None
}

/// Whether `v` begins with `a`.
pub fn starts_with_vec(v: &[char], a: &[char]) -> (r: bool)
    ensures
        r == starts_with_spec(v@, a@),
{
    if a.len() > v.len() {
        return false;
    }
    let mut i: usize = 0;
    while i < a.len()
        invariant
            a.len() <= v.len(),
            0 <= i <= a.len(),
            forall|j: int| 0 <= j < i ==> v@[j] == a@[j],
        decreases a.len() - i,
    {
        if v[i] != a[i] {
            proof {
                assert(v@.take(a@.len() as int)[i as int] != a@[i as int]);
            }
            return false;
        }
        i += 1;
    }
    proof {
        assert(v@.take(a@.len() as int) =~= a@);
    }
    true
}

/// Whether `v` ends with `a`.
pub fn ends_with_vec(v: &[char], a: &[char]) -> (r: bool)
    ensures
        r == ends_with_spec(v@, a@),
{
    if a.len() > v.len() {
        return false;
    }
    let off = v.len() - a.len();
    let mut i: usize = 0;
    while i < a.len()
        invariant
            a.len() <= v.len(),
            off == v.len() - a.len(),
            0 <= i <= a.len(),
            forall|j: int| 0 <= j < i ==> v@[off + j] == a@[j],
        decreases a.len() - i,
    {
        if v[off + i] != a[i] {
            proof {
                assert(v@.skip(off as int)[i as int] != a@[i as int]);
            }
            return false;
        }
        i += 1;
    }
    proof {
        assert(v@.skip(off as int) =~= a@);
    }
    true
}

/// Whether `s` begins with `a`.
pub fn starts_with_str(s: &str, a: &str) -> (r: bool)
    ensures
        r == starts_with_spec(s@, a@),
{
    let v = to_chars(s);
    let av = to_chars(a);
    starts_with_vec(v.as_slice(), av.as_slice())
}

/// Whether `s` ends with `a`.
pub fn ends_with_str(s: &str, a: &str) -> (r: bool)
    ensures
        r == ends_with_spec(s@, a@),
{
    let v = to_chars(s);
    let av = to_chars(a);
    ends_with_vec(v.as_slice(), av.as_slice())
}

/// Whether `a` occurs in `v`.
pub fn contains_vec(v: &[char], a: &[char]) -> (r: bool)
    ensures
        r == contains_spec(v@, a@),
{
    if a.len() > v.len() {
        proof {
            assert forall|i: int| 0 <= i <= v@.len() - a@.len() implies #[trigger] v@.subrange(
                i,
                i + a@.len(),
            ) != a@ by {}
        }
        return false;
    }
    if a.len() == 0 {
        proof {
            assert(v@.subrange(0, 0 + a@.len() as int) =~= a@);
        }
        return true;
    }
    let mut i: usize = 0;
    while i <= v.len() - a.len()
        invariant
            1 <= a.len() <= v.len(),
            0 <= i <= v.len() - a.len() + 1,
            forall|k: int| 0 <= k < i ==> #[trigger] v@.subrange(k, k + a@.len()) != a@,
        decreases v.len() - a.len() + 1 - i,
    {
        let tail = sub_chars(v, i, i + a.len());
        if chars_eq(tail.as_slice(), a) {
            return true;
        }
        i += 1;
    }
    false
}

/// Whether `a` occurs in `s`.
pub fn contains_str(s: &str, a: &str) -> (r: bool)
    ensures
        r == contains_spec(s@, a@),
{
    let v = to_chars(s);
    let av = to_chars(a);
    contains_vec(v.as_slice(), av.as_slice())
}

/// Whether `c` occurs in `s`.
pub fn contains_char(s: &str, c: char) -> (r: bool)
    ensures
        r == !no_char(s@, c),
{
    let v = to_chars(s);
    find_char(v.as_slice(), c).is_some()
}

/// Lexicographic comparison, `a < b`.
pub fn lt_chars(a: &[char], b: &[char]) -> (r: bool)
    ensures
        r == str_lt(a@, b@),
{
    let mut i: usize = 0;
    proof {
        assert(a@.skip(0) == a@);
        assert(b@.skip(0) == b@);
    }
    while i < a.len() && i < b.len() && a[i] == b[i]
        invariant
            0 <= i <= a.len(),
            i <= b.len(),
            str_lt(a@, b@) == str_lt(a@.skip(i as int), b@.skip(i as int)),
        decreases a.len() - i,
    {
        proof {
            assert(a@.skip(i as int).drop_first() == a@.skip(i + 1));
            assert(b@.skip(i as int).drop_first() == b@.skip(i + 1));
        }
        i += 1;
    }
    if i == a.len() {
        i < b.len()
    } else if i == b.len() {
        false
    } else {
        a[i] < b[i]
    }
}

/// Lexicographic comparison of two strings, `a < b`.
pub fn str_lt_exec(a: &str, b: &str) -> (r: bool)
    ensures
        r == str_lt(a@, b@),
{
    let av = to_chars(a);
    let bv = to_chars(b);
    lt_chars(av.as_slice(), bv.as_slice())
}

/// A copy of a character list.
pub fn copy_chars(v: &[char]) -> (r: Vec<char>)
    ensures
        r@ == v@,
{
    let mut r: Vec<char> = Vec::new();
    let mut i: usize = 0;
    while i < v.len()
        invariant
            0 <= i <= v.len(),
            r@ == v@.take(i as int),
        decreases v.len() - i,
    {
        r.push(v[i]);
        i += 1;
        proof {
            assert(r@ =~= v@.take(i as int));
        }
    }
    proof {
        assert(v@.take(v@.len() as int) =~= v@);
    }
    r
}

/// The `Debug` rendering of a string: quoted, with escapes.
pub uninterp spec fn debug_text(s: Seq<char>) -> Seq<char>;

/// `format!("{:?}", s)`: the `Debug` rendering of a string. Its result is named,
/// as a function of the string, and not spelled out.
#[verifier::external_body]
pub fn debug_quoted(s: &str) -> (r: String)
    ensures
        r@ == debug_text(s@),
{
    format!("{s:?}")
}

/// `str::trim_end` as an owned string.
pub fn trim_end_str(s: &str) -> (r: String)
    ensures
        r@ == trim_end_spec(s@),
{
    let v = to_chars(s);
    let t = trim_end_vec(v.as_slice());
    from_chars(t.as_slice())
}

/// Splitting yields at least one part.
pub proof fn lemma_split_nonempty(s: Seq<char>, sep: char)
    ensures
        split_spec(s, sep).len() >= 1,
    decreases s.len(),
{
    if s.len() > 0 {
        lemma_split_nonempty(s.drop_last(), sep);
    }
}

} // verus!

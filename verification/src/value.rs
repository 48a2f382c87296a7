//! Feature values, the `.tf` value escapes, and feature metadata.

use vstd::prelude::*;
use crate::strs::{
    dec_int, from_chars, i64_to_chars, parse_i64, parse_i64_spec, push_char, string_eq, to_chars,
    str_lt, str_lt_exec,
};

verus! {

broadcast use vstd::string::group_string_axioms;

/// A value of a node or edge feature: a string or an integer.
#[derive(Debug, Clone, PartialEq, Eq, Hash)]
pub enum FeatureValue {
    Str(String),
    Int(i64),
}

/// The mathematical content of a feature value.
pub enum FValue {
    Str(Seq<char>),
    Int(i64),
}

impl View for FeatureValue {
    type V = FValue;

    open spec fn view(&self) -> FValue {
        match self {
            FeatureValue::Str(s) => FValue::Str(s@),
            FeatureValue::Int(i) => FValue::Int(*i),
        }
    }
}

pub open spec fn opt_fv(o: Option<FeatureValue>) -> Option<FValue> {
    match o {
        Some(v) => Some(v@),
        None => None,
    }
}

pub open spec fn opt_str(o: Option<String>) -> Option<Seq<char>> {
    match o {
        Some(s) => Some(s@),
        None => None,
    }
}

impl FeatureValue {
    /// A string value with the characters of `value`.
    pub fn string(value: &str) -> (r: Self)
        ensures
            r@ == FValue::Str(value@),
    {
        FeatureValue::Str(crate::strs::owned(value))
    }

    /// The string content, when the value is a string.
    pub fn as_str(&self) -> (r: Option<&str>)
        ensures
            match self@ {
                FValue::Str(s) => r is Some && r->0@ == s,
                FValue::Int(_) => r is None,
            },
    {
        match self {
            FeatureValue::Str(s) => Some(s.as_str()),
            FeatureValue::Int(_) => None,
        }
    }

    /// A copy with the same content.
    pub fn duplicate(&self) -> (r: Self)
        ensures
            r@ == self@,
    {
        match self {
            FeatureValue::Str(s) => FeatureValue::Str(s.clone()),
            FeatureValue::Int(i) => FeatureValue::Int(*i),
        }
    }

    /// Whether two values have the same content.
    pub fn same(&self, other: &Self) -> (r: bool)
        ensures
            r == (self@ == other@),
    {
        match (self, other) {
            (FeatureValue::Str(a), FeatureValue::Str(b)) => string_eq(a, b.as_str()),
            (FeatureValue::Int(a), FeatureValue::Int(b)) => *a == *b,
            _ => false,
        }
    }
}

/// A copy of an optional value.
pub fn dup_opt(v: &Option<FeatureValue>) -> (r: Option<FeatureValue>)
    ensures
        opt_fv(r) == opt_fv(*v),
{
    match v {
        Some(x) => Some(x.duplicate()),
        None => None,
    }
}

// ---------------------------------------------------------------------------
// The `.tf` escapes
// ---------------------------------------------------------------------------

/// Decoding of a raw `.tf` value: `\\` is a backslash, `\t` a tab, `\n` a newline,
/// every other character stands for itself.
pub open spec fn tf_decode(s: Seq<char>) -> Seq<char>
    decreases s.len(),
{
    if s.len() == 0 {
        seq![]
    } else if s.len() >= 2 && s[0] == '\\' && s[1] == '\\' {
        seq!['\\'] + tf_decode(s.skip(2))
    } else if s.len() >= 2 && s[0] == '\\' && s[1] == 't' {
        seq!['\t'] + tf_decode(s.skip(2))
    } else if s.len() >= 2 && s[0] == '\\' && s[1] == 'n' {
        seq!['\n'] + tf_decode(s.skip(2))
    } else {
        seq![s[0]] + tf_decode(s.skip(1))
    }
}

/// Encoding of one character in a `.tf` value.
pub open spec fn tf_escape_char(c: char) -> Seq<char> {
    if c == '\\' {
        seq!['\\', '\\']
    } else if c == '\t' {
        seq!['\\', 't']
    } else if c == '\n' {
        seq!['\\', 'n']
    } else {
        seq![c]
    }
}

/// Encoding of a string for a `.tf` file.
pub open spec fn tf_encode(s: Seq<char>) -> Seq<char>
    decreases s.len(),
{
    if s.len() == 0 {
        seq![]
    } else {
        tf_encode(s.drop_last()) + tf_escape_char(s.last())
    }
}

/// The `.tf` text of a feature value.
pub open spec fn tf_text(v: FValue) -> Seq<char> {
    match v {
        FValue::Str(s) => tf_encode(s),
        FValue::Int(i) => dec_int(i as int),
    }
}

/// Decodes the escapes of a raw `.tf` value.
pub fn value_from_tf(raw: &str) -> (r: String)
    ensures
        r@ == tf_decode(raw@),
{
    let v = to_chars(raw);
    let mut out = String::new();
    let mut i: usize = 0;
    proof {
        assert(v@.skip(0) == v@);
    }
    while i < v.len()
        invariant
            0 <= i <= v.len(),
            tf_decode(v@) == out@ + tf_decode(v@.skip(i as int)),
        decreases v.len() - i,
    {
        let ghost rest = v@.skip(i as int);
        if i + 1 < v.len() && v[i] == '\\' && (v[i + 1] == '\\' || v[i + 1] == 't' || v[i + 1]
            == 'n') {
            let c = if v[i + 1] == '\\' {
                '\\'
            } else if v[i + 1] == 't' {
                '\t'
            } else {
                '\n'
            };
            proof {
                assert(rest.skip(2) == v@.skip(i + 2));
                assert(tf_decode(rest) == seq![c] + tf_decode(rest.skip(2)));
                assert(out@.push(c) + tf_decode(v@.skip(i + 2)) == out@ + (seq![c] + tf_decode(
                    v@.skip(i + 2),
                )));
            }
            push_char(&mut out, c);
            i += 2;
        } else {
            let c = v[i];
            proof {
                assert(rest.skip(1) == v@.skip(i + 1));
                assert(tf_decode(rest) == seq![c] + tf_decode(rest.skip(1)));
                assert(out@.push(c) + tf_decode(v@.skip(i + 1)) == out@ + (seq![c] + tf_decode(
                    v@.skip(i + 1),
                )));
            }
            push_char(&mut out, c);
            i += 1;
        }
    }
    proof {
        assert(v@.skip(i as int) == Seq::<char>::empty());
        assert(out@ + seq![] == out@);
    }
    out
}

/// Camel-case name of [`value_from_tf`].
#[allow(non_snake_case)]
pub fn valueFromTf(raw: &str) -> (r: String)
    ensures
        r@ == tf_decode(raw@),
{
    value_from_tf(raw)
}

/// Encodes a string for a `.tf` file.
pub fn tf_encode_chars(s: &str) -> (r: Vec<char>)
    ensures
        r@ == tf_encode(s@),
{
    let v = to_chars(s);
    let mut out: Vec<char> = Vec::new();
    let mut i: usize = 0;
    while i < v.len()
        invariant
            0 <= i <= v.len(),
            out@ == tf_encode(v@.take(i as int)),
        decreases v.len() - i,
    {
        let c = v[i];
        proof {
            assert(v@.take(i + 1).drop_last() == v@.take(i as int));
        }
        if c == '\\' {
            out.push('\\');
            out.push('\\');
        } else if c == '\t' {
            out.push('\\');
            out.push('t');
        } else if c == '\n' {
            out.push('\\');
            out.push('n');
        } else {
            out.push(c);
        }
        proof {
            assert(out@ =~= tf_encode(v@.take(i as int)) + tf_escape_char(c));
        }
        i += 1;
    }
    proof {
        assert(v@.take(v@.len() as int) == v@);
    }
    out
}

/// The `.tf` text of a feature value: escaped string or decimal integer.
pub fn tf_from_value(value: &FeatureValue) -> (r: String)
    ensures
        r@ == tf_text(value@),
{
    match value {
        FeatureValue::Str(s) => {
            let v = tf_encode_chars(s.as_str());
            from_chars(v.as_slice())
        },
        FeatureValue::Int(i) => {
            let v = i64_to_chars(*i);
            from_chars(v.as_slice())
        },
    }
}

/// Camel-case name of [`tf_from_value`].
#[allow(non_snake_case)]
pub fn tfFromValue(value: &FeatureValue) -> (r: String)
    ensures
        r@ == tf_text(value@),
{
    tf_from_value(value)
}

// ---------------------------------------------------------------------------
// Matching and comparing values
// ---------------------------------------------------------------------------

/// A value matches an expected one when equal, or when an integer meets a string
/// that parses to the same integer.
pub open spec fn values_match(actual: FValue, expected: FValue) -> bool {
    actual == expected || match (actual, expected) {
        (FValue::Int(a), FValue::Str(e)) => parse_i64_spec(e) == Some(a),
        _ => false,
    }
}

/// Three-way comparison of values, as a number below, at or above zero; `None`
/// when a string side does not parse as an integer against an integer.
pub open spec fn compare_values(actual: FValue, expected: FValue) -> Option<int> {
    match (actual, expected) {
        (FValue::Int(a), FValue::Int(e)) => Some(sign(a as int - e as int)),
        (FValue::Int(a), FValue::Str(e)) => match parse_i64_spec(e) {
            Some(x) => Some(sign(a as int - x as int)),
            None => None,
        },
        (FValue::Str(a), FValue::Str(e)) => Some(
            if str_lt(a, e) {
                -1
            } else if a == e {
                0
            } else {
                1
            },
        ),
        (FValue::Str(a), FValue::Int(e)) => match parse_i64_spec(a) {
            Some(x) => Some(sign(x as int - e as int)),
            None => None,
        },
    }
}

pub open spec fn sign(x: int) -> int {
    if x < 0 {
        -1
    } else if x == 0 {
        0
    } else {
        1
    }
}

/// Whether `actual` matches `expected` (see [`values_match`]).
pub fn feature_values_match(actual: &FeatureValue, expected: &FeatureValue) -> (r: bool)
    ensures
        r == values_match(actual@, expected@),
{
    if actual.same(expected) {
        return true;
    }
    match (actual, expected) {
        (FeatureValue::Int(a), FeatureValue::Str(e)) => match parse_i64(e.as_str()) {
            Some(x) => x == *a,
            None => false,
        },
        _ => false,
    }
}

fn sign_of(a: i64, b: i64) -> (r: i8)
    ensures
        r as int == sign(a as int - b as int),
{
    if a < b {
        -1
    } else if a == b {
        0
    } else {
        1
    }
}

/// Three-way comparison of two values (see [`compare_values`]).
pub fn compare_feature_values(actual: &FeatureValue, expected: &FeatureValue) -> (r: Option<i8>)
    ensures
        match compare_values(actual@, expected@) {
            Some(c) => r is Some && r->0 as int == c,
            None => r is None,
        },
{
    match (actual, expected) {
        (FeatureValue::Int(a), FeatureValue::Int(e)) => Some(sign_of(*a, *e)),
        (FeatureValue::Int(a), FeatureValue::Str(e)) => match parse_i64(e.as_str()) {
            Some(x) => Some(sign_of(*a, x)),
            None => None,
        },
        (FeatureValue::Str(a), FeatureValue::Str(e)) => {
            if str_lt_exec(a.as_str(), e.as_str()) {
                Some(-1)
            } else if string_eq(a, e.as_str()) {
                Some(0)
            } else {
                Some(1)
            }
        },
        (FeatureValue::Str(a), FeatureValue::Int(e)) => match parse_i64(a.as_str()) {
            Some(x) => Some(sign_of(x, *e)),
            None => None,
        },
    }
}

// ---------------------------------------------------------------------------
// Metadata: key/value pairs; a key stands for its first occurrence
// ---------------------------------------------------------------------------

/// Feature metadata: `@key=value` lines (`None` for a bare `@key`).
pub type Metadata = Vec<(String, Option<String>)>;

/// The entry of `key`: the value of its first occurrence.
pub open spec fn meta_lookup(m: Seq<(String, Option<String>)>, key: Seq<char>) -> Option<
    Option<Seq<char>>,
>
    decreases m.len(),
{
    if m.len() == 0 {
        None
    } else if m[0].0@ == key {
        Some(opt_str(m[0].1))
    } else {
        meta_lookup(m.drop_first(), key)
    }
}

/// The string value of `key`, when present and not bare.
pub open spec fn meta_value(m: Seq<(String, Option<String>)>, key: Seq<char>) -> Option<Seq<char>> {
    match meta_lookup(m, key) {
        Some(Some(v)) => Some(v),
        _ => None,
    }
}

/// The value of `key`, falling back from `valueType` to `value_type`.
pub open spec fn metadata_value_spec(m: Seq<(String, Option<String>)>, key: Seq<char>) -> Option<
    Seq<char>,
> {
    match meta_value(m, key) {
        Some(v) => Some(v),
        None => if key == "valueType"@ {
            meta_value(m, "value_type"@)
        } else {
            None
        },
    }
}

pub open spec fn meta_has(m: Seq<(String, Option<String>)>, key: Seq<char>) -> bool {
    meta_lookup(m, key) is Some
}

proof fn lemma_lookup_skip(m: Seq<(String, Option<String>)>, key: Seq<char>, i: int)
    requires
        0 <= i < m.len(),
        forall|j: int| 0 <= j < i ==> m[j].0@ != key,
    ensures
        meta_lookup(m, key) == meta_lookup(m.skip(i), key),
    decreases i,
{
    if i > 0 {
        assert(m[0].0@ != key);
        assert(meta_lookup(m, key) == meta_lookup(m.drop_first(), key));
        assert(m.skip(i) == m.drop_first().skip(i - 1));
        lemma_lookup_skip(m.drop_first(), key, i - 1);
    } else {
        assert(m.skip(0) == m);
    }
}

proof fn lemma_lookup_absent(m: Seq<(String, Option<String>)>, key: Seq<char>)
    requires
        forall|j: int| 0 <= j < m.len() ==> m[j].0@ != key,
    ensures
        meta_lookup(m, key) is None,
    decreases m.len(),
{
    if m.len() > 0 {
        lemma_lookup_absent(m.drop_first(), key);
    }
}

/// Index of the first entry with key `key`.
pub fn meta_find(m: &Metadata, key: &str) -> (r: Option<usize>)
    ensures
        match r {
            Some(i) => i < m@.len() && m@[i as int].0@ == key@ && forall|j: int|
                0 <= j < i ==> m@[j].0@ != key@,
            None => forall|j: int| 0 <= j < m@.len() ==> m@[j].0@ != key@,
        },
        match r {
            Some(i) => meta_lookup(m@, key@) == Some(opt_str(m@[i as int].1)),
            None => meta_lookup(m@, key@) is None,
        },
{
    let mut i: usize = 0;
    while i < m.len()
        invariant
            0 <= i <= m.len(),
            forall|j: int| 0 <= j < i ==> m@[j].0@ != key@,
        decreases m.len() - i,
    {
        if string_eq(&m[i].0, key) {
            proof {
                lemma_lookup_skip(m@, key@, i as int);
            }
            return Some(i);
        }
        i += 1;
    }
    proof {
        lemma_lookup_absent(m@, key@);
    }
    None
}

/// The entry of `key` (see [`meta_lookup`]).
pub fn meta_get<'a>(m: &'a Metadata, key: &str) -> (r: Option<&'a Option<String>>)
    ensures
        match r {
            Some(v) => meta_lookup(m@, key@) == Some(opt_str(*v)),
            None => meta_lookup(m@, key@) is None,
        },
{
    match meta_find(m, key) {
        Some(i) => Some(&m[i].1),
        None => None,
    }
}

/// Whether `key` is present.
pub fn meta_contains(m: &Metadata, key: &str) -> (r: bool)
    ensures
        r == meta_has(m@, key@),
{
    meta_find(m, key).is_some()
}

/// The string value of `key`, when present and not bare.
pub fn meta_str<'a>(m: &'a Metadata, key: &str) -> (r: Option<&'a str>)
    ensures
        match r {
            Some(v) => meta_value(m@, key@) == Some(v@),
            None => meta_value(m@, key@) is None,
        },
{
    match meta_get(m, key) {
        Some(Some(v)) => Some(v.as_str()),
        _ => None,
    }
}

/// The value of `key`, falling back from `valueType` to `value_type`.
pub fn metadata_value<'a>(m: &'a Metadata, key: &str) -> (r: Option<&'a str>)
    ensures
        match r {
            Some(v) => metadata_value_spec(m@, key@) == Some(v@),
            None => metadata_value_spec(m@, key@) is None,
        },
{
    match meta_str(m, key) {
        Some(v) => Some(v),
        None => {
            if crate::strs::str_eq(key, "valueType") {
                meta_str(m, "value_type")
            } else {
                None
            }
        },
    }
}

proof fn lemma_lookup_update(
    m: Seq<(String, Option<String>)>,
    i: int,
    e: (String, Option<String>),
    key: Seq<char>,
)
    requires
        0 <= i < m.len(),
        m[i].0@ == e.0@,
        forall|j: int| 0 <= j < i ==> m[j].0@ != e.0@,
    ensures
        meta_lookup(m.update(i, e), key) == if key == e.0@ {
            Some(opt_str(e.1))
        } else {
            meta_lookup(m, key)
        },
    decreases i,
{
    if i > 0 {
        assert(m.update(i, e)[0] == m[0]);
        assert(m.update(i, e).drop_first() == m.drop_first().update(i - 1, e));
        lemma_lookup_update(m.drop_first(), i - 1, e, key);
    } else {
        assert(m.update(0, e)[0] == e);
        assert(m.update(0, e).drop_first() == m.drop_first());
    }
}

proof fn lemma_lookup_push(m: Seq<(String, Option<String>)>, e: (String, Option<String>), key: Seq<char>)
    ensures
        meta_lookup(m.push(e), key) == if meta_lookup(m, key) is Some {
            meta_lookup(m, key)
        } else if key == e.0@ {
            Some(opt_str(e.1))
        } else {
            None
        },
    decreases m.len(),
{
    if m.len() > 0 {
        assert(m.push(e)[0] == m[0]);
        assert(m.push(e).drop_first() == m.drop_first().push(e));
        lemma_lookup_push(m.drop_first(), e, key);
        if m[0].0@ != key {
            assert(meta_lookup(m, key) == meta_lookup(m.drop_first(), key));
            assert(meta_lookup(m.push(e), key) == meta_lookup(m.push(e).drop_first(), key));
        }
    } else {
        assert(m.push(e)[0] == e);
        assert(m.push(e).drop_first() == Seq::<(String, Option<String>)>::empty());
    }
}

/// Sets the entry of `key`, as `BTreeMap::insert` does.
pub fn meta_insert(m: &mut Metadata, key: String, value: Option<String>)
    ensures
        forall|k: Seq<char>|
            #![trigger meta_lookup(final(m)@, k)]
            meta_lookup(final(m)@, k) == if k == key@ {
                Some(opt_str(value))
            } else {
                meta_lookup(old(m)@, k)
            },
{
    match meta_find(m, key.as_str()) {
        Some(i) => {
            let ghost e = (key, value);
            let ghost m0 = m@;
            m.set(i, (key, value));
            proof {
                assert forall|k: Seq<char>| #![trigger meta_lookup(m@, k)] meta_lookup(m@, k) == if k == e.0@ {
                    Some(opt_str(e.1))
                } else {
                    meta_lookup(m0, k)
                } by {
                    lemma_lookup_update(m0, i as int, e, k);
                }
            }
        },
        None => {
            let ghost e = (key, value);
            let ghost m0 = m@;
            m.push((key, value));
            proof {
                assert forall|k: Seq<char>| #![trigger meta_lookup(m@, k)] meta_lookup(m@, k) == if k == e.0@ {
                    Some(opt_str(e.1))
                } else {
                    meta_lookup(m0, k)
                } by {
                    lemma_lookup_push(m0, e, k);
                }
            }
        },
    }
}

proof fn lemma_lookup_remove(m: Seq<(String, Option<String>)>, i: int, key: Seq<char>)
    requires
        0 <= i < m.len(),
    ensures
        m[i].0@ != key && (forall|j: int| 0 <= j < i ==> m[j].0@ != key) ==> meta_lookup(
            m.remove(i),
            key,
        ) == meta_lookup(m, key),
    decreases i,
{
    if i > 0 {
        assert(m.remove(i).drop_first() == m.drop_first().remove(i - 1));
        lemma_lookup_remove(m.drop_first(), i - 1, key);
    } else {
        assert(m.remove(0) == m.drop_first());
    }
}

/// Removes every entry of `key`, returning the entry it had.
pub fn meta_remove(m: &mut Metadata, key: &str) -> (r: Option<Option<String>>)
    ensures
        opt_opt_str(r) == meta_lookup(old(m)@, key@),
        forall|k: Seq<char>|
            #![trigger meta_lookup(final(m)@, k)]
            meta_lookup(final(m)@, k) == if k == key@ {
                None
            } else {
                meta_lookup(old(m)@, k)
            },
{
    let ghost m0 = m@;
    let mut out: Metadata = Vec::new();
    let mut found: Option<Option<String>> = None;
    let mut i: usize = 0;
    let n = m.len();
    proof {
        assert(m0.skip(0) == m0);
    }
    while i < n
        invariant
            n == m@.len(),
            m@ == m0,
            0 <= i <= n,
            forall|j: int| 0 <= j < out@.len() ==> out@[j].0@ != key@,
            forall|k: Seq<char>|
                k != key@ ==> (#[trigger] meta_lookup(m0, k) == if meta_lookup(out@, k) is Some {
                    meta_lookup(out@, k)
                } else {
                    meta_lookup(m0.skip(i as int), k)
                }),
            match found {
                Some(v) => meta_lookup(m0, key@) == Some(opt_str(v)),
                None => forall|j: int| 0 <= j < i ==> m0[j].0@ != key@,
            },
        decreases n - i,
    {
        let same = string_eq(&m[i].0, key);
        let ghost rest = m0.skip(i as int);
        proof {
            assert(rest.drop_first() == m0.skip(i + 1));
        }
        if same {
            if found.is_none() {
                let v = match &m[i].1 {
                    Some(s) => Some(s.clone()),
                    None => None,
                };
                proof {
                    lemma_lookup_skip(m0, key@, i as int);
                }
                found = Some(v);
            }
        } else {
            let k0 = m[i].0.clone();
            let v0 = match &m[i].1 {
                Some(s) => Some(s.clone()),
                None => None,
            };
            let ghost out0 = out@;
            out.push((k0, v0));
            proof {
                assert forall|k: Seq<char>| k != key@ implies #[trigger] meta_lookup(m0, k) == if meta_lookup(out@, k) is Some {
                    meta_lookup(out@, k)
                } else {
                    meta_lookup(m0.skip(i + 1), k)
                } by {
                    lemma_lookup_push(out0, (k0, v0), k);
                }
            }
        }
        i += 1;
    }
    proof {
        assert forall|k: Seq<char>| #![trigger meta_lookup(out@, k)] meta_lookup(out@, k) == if k == key@ {
            None
        } else {
            meta_lookup(m0, k)
        } by {
            if k == key@ {
                lemma_lookup_absent(out@, k);
            } else {
                assert(m0.skip(n as int) == Seq::<(String, Option<String>)>::empty());
            }
        }
        if found is None {
            lemma_lookup_absent(m0, key@);
        }
    }
    *m = out;
    found
}

pub open spec fn opt_opt_str(o: Option<Option<String>>) -> Option<Option<Seq<char>>> {
    match o {
        Some(v) => Some(opt_str(v)),
        None => None,
    }
}

/// A copy of metadata, entry by entry.
pub fn meta_clone(m: &Metadata) -> (r: Metadata)
    ensures
        r@.len() == m@.len(),
        forall|i: int| 0 <= i < m@.len() ==> (#[trigger] r@[i]).0@ == m@[i].0@ && opt_str(r@[i].1) == opt_str(m@[i].1),
        forall|k: Seq<char>| #![trigger meta_lookup(r@, k)] meta_lookup(r@, k) == meta_lookup(m@, k),
{
    let mut r: Metadata = Vec::new();
    let mut i: usize = 0;
    while i < m.len()
        invariant
            0 <= i <= m.len(),
            r@.len() == i,
            forall|j: int| 0 <= j < i ==> (#[trigger] r@[j]).0@ == m@[j].0@ && opt_str(r@[j].1) == opt_str(m@[j].1),
        decreases m.len() - i,
    {
        let k = m[i].0.clone();
        let v = match &m[i].1 {
            Some(s) => Some(s.clone()),
            None => None,
        };
        r.push((k, v));
        i += 1;
    }
    proof {
        assert forall|k: Seq<char>| #![trigger meta_lookup(r@, k)] meta_lookup(r@, k) == meta_lookup(m@, k) by {
            lemma_lookup_same(r@, m@, k);
        }
    }
    r
}

proof fn lemma_lookup_same(a: Seq<(String, Option<String>)>, b: Seq<(String, Option<String>)>, k: Seq<char>)
    requires
        a.len() == b.len(),
        forall|i: int| 0 <= i < a.len() ==> (#[trigger] a[i]).0@ == b[i].0@ && opt_str(a[i].1) == opt_str(b[i].1),
    ensures
        meta_lookup(a, k) == meta_lookup(b, k),
    decreases a.len(),
{
    if a.len() > 0 {
        lemma_lookup_same(a.drop_first(), b.drop_first(), k);
    }
}

/// A key that has an entry is present.
pub proof fn lemma_has_entry(m: Seq<(String, Option<String>)>, j: int)
    requires
        0 <= j < m.len(),
    ensures
        meta_has(m, m[j].0@),
    decreases j,
{
    if j > 0 && m[0].0@ != m[j].0@ {
        assert(m.drop_first()[j - 1] == m[j]);
        lemma_has_entry(m.drop_first(), j - 1);
    }
}

/// A present key has an entry.
pub proof fn lemma_entry_of(m: Seq<(String, Option<String>)>, k: Seq<char>) -> (j: int)
    requires
        meta_has(m, k),
    ensures
        0 <= j < m.len() && m[j].0@ == k,
    decreases m.len(),
{
    if m[0].0@ == k {
        0
    } else {
        let i = lemma_entry_of(m.drop_first(), k);
        assert(m[i + 1] == m.drop_first()[i]);
        i + 1
    }
}

} // verus!

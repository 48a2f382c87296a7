//! The search-template language: tokens, feature constraints, relation
//! operators, query plans and quantified templates.

use vstd::prelude::*;
use crate::corpus_misc::{first_pos, last_pos, lemma_first_pos, lemma_last_pos, lemma_no_pos};
use crate::error::{CfError, CfErrorView};
use crate::strs::{
    copy_string, find_char, from_chars, is_whitespace, is_ws, owned, parse_i64, parse_i64_spec,
    parse_u32, parse_u32_spec, rfind_char, str_eq, sub_chars, to_chars, views,
};
use crate::value::{FValue, FeatureValue};

verus! {

broadcast use vstd::string::group_string_axioms;

// ---------------------------------------------------------------------------
// Pieces of text
// ---------------------------------------------------------------------------

/// The text before and after the first `c`, if there is one (`str::split_once`).
pub open spec fn split_once_spec(s: Seq<char>, c: char) -> Option<(Seq<char>, Seq<char>)> {
    match first_pos(s, c) {
        Some(i) => Some((s.take(i), s.skip(i + 1))),
        None => None,
    }
}

/// The text before and after the last `c`, if there is one (`str::rsplit_once`).
pub open spec fn rsplit_once_spec(s: Seq<char>, c: char) -> Option<(Seq<char>, Seq<char>)> {
    match last_pos(s, c) {
        Some(i) => Some((s.take(i), s.skip(i + 1))),
        None => None,
    }
}

/// The text without a final `c`, if it ends with one.
pub open spec fn strip_suffix_spec(s: Seq<char>, c: char) -> Option<Seq<char>> {
    if s.len() > 0 && s.last() == c {
        Some(s.drop_last())
    } else {
        None
    }
}

/// The text without a leading `c`, if it starts with one.
pub open spec fn strip_prefix_spec(s: Seq<char>, c: char) -> Option<Seq<char>> {
    if s.len() > 0 && s[0] == c {
        Some(s.drop_first())
    } else {
        None
    }
}

pub fn split_once_char(s: &str, c: char) -> (r: Option<(String, String)>)
    ensures
        match r {
            Some(p) => split_once_spec(s@, c) == Some((p.0@, p.1@)),
            None => split_once_spec(s@, c) is None,
        },
{
    let v = to_chars(s);
    match find_char(v.as_slice(), c) {
        Some(i) => {
            proof {
                lemma_first_pos(s@, c, i as int);
            }
            let n = v.len();
            let a = sub_chars(v.as_slice(), 0, i);
            let b = sub_chars(v.as_slice(), i + 1, n);
            proof {
                assert(a@ =~= s@.take(i as int));
                assert(b@ =~= s@.skip(i + 1));
            }
            Some((from_chars(a.as_slice()), from_chars(b.as_slice())))
        },
        None => {
            proof {
                lemma_no_pos(s@, c);
            }
            None
        },
    }
}

pub fn rsplit_once_char(s: &str, c: char) -> (r: Option<(String, String)>)
    ensures
        match r {
            Some(p) => rsplit_once_spec(s@, c) == Some((p.0@, p.1@)),
            None => rsplit_once_spec(s@, c) is None,
        },
{
    let v = to_chars(s);
    match rfind_char(v.as_slice(), c) {
        Some(i) => {
            proof {
                lemma_last_pos(s@, c, i as int);
            }
            let n = v.len();
            let a = sub_chars(v.as_slice(), 0, i);
            let b = sub_chars(v.as_slice(), i + 1, n);
            proof {
                assert(a@ =~= s@.take(i as int));
                assert(b@ =~= s@.skip(i + 1));
            }
            Some((from_chars(a.as_slice()), from_chars(b.as_slice())))
        },
        None => {
            proof {
                lemma_no_pos(s@, c);
            }
            None
        },
    }
}

pub fn strip_suffix_char(s: &str, c: char) -> (r: Option<String>)
    ensures
        match r {
            Some(t) => strip_suffix_spec(s@, c) == Some(t@),
            None => strip_suffix_spec(s@, c) is None,
        },
{
    let v = to_chars(s);
    let n = v.len();
    if n > 0 && v[n - 1] == c {
        let a = sub_chars(v.as_slice(), 0, n - 1);
        proof {
            assert(a@ =~= s@.drop_last());
        }
        Some(from_chars(a.as_slice()))
    } else {
        None
    }
}

pub fn strip_prefix_char(s: &str, c: char) -> (r: Option<String>)
    ensures
        match r {
            Some(t) => strip_prefix_spec(s@, c) == Some(t@),
            None => strip_prefix_spec(s@, c) is None,
        },
{
    let v = to_chars(s);
    let n = v.len();
    if n > 0 && v[0] == c {
        let a = sub_chars(v.as_slice(), 1, n);
        proof {
            assert(a@ =~= s@.drop_first());
        }
        Some(from_chars(a.as_slice()))
    } else {
        None
    }
}

// ---------------------------------------------------------------------------
// Tokens
// ---------------------------------------------------------------------------

/// The tokens of the rest `s` of a line, given the token `cur` being read and
/// the tokens `acc` already read: whitespace separates tokens, and a backslash
/// keeps itself and the next character in the token.
pub open spec fn ws_tokens(s: Seq<char>, cur: Seq<char>, acc: Seq<Seq<char>>) -> Seq<Seq<char>>
    decreases s.len(),
{
    if s.len() == 0 {
        if cur.len() > 0 {
            acc.push(cur)
        } else {
            acc
        }
    } else if s[0] == '\\' {
        if s.len() == 1 {
            acc.push(cur.push('\\'))
        } else {
            ws_tokens(s.skip(2), cur + seq!['\\', s[1]], acc)
        }
    } else if is_ws(s[0]) {
        ws_tokens(s.skip(1), seq![], if cur.len() > 0 { acc.push(cur) } else { acc })
    } else {
        ws_tokens(s.skip(1), cur.push(s[0]), acc)
    }
}

fn push_token(acc: &mut Vec<String>, cur: &Vec<char>)
    ensures
        views(final(acc)@) == views(old(acc)@).push(cur@),
{
    let t = from_chars(cur.as_slice());
    let ghost before = acc@;
    acc.push(t);
    proof {
        assert(views(acc@) =~= views(before).push(t@));
    }
}

/// The whitespace-separated tokens of a template line, with backslash escapes kept.
pub fn split_query_whitespace(line: &str) -> (r: Vec<String>)
    ensures
        views(r@) == ws_tokens(line@, seq![], seq![]),
{
    let v = to_chars(line);
    let mut acc: Vec<String> = Vec::new();
    let mut cur: Vec<char> = Vec::new();
    let mut i: usize = 0;
    proof {
        assert(v@.skip(0) =~= v@);
        assert(views(acc@) =~= Seq::<Seq<char>>::empty());
    }
    while i < v.len()
        invariant
            0 <= i <= v.len(),
            v@ == line@,
            ws_tokens(line@, seq![], seq![]) == ws_tokens(v@.skip(i as int), cur@, views(acc@)),
        decreases v.len() - i,
    {
        let c = v[i];
        let ghost rest = v@.skip(i as int);
        let ghost cur0 = cur@;
        let ghost acc0 = views(acc@);
        proof {
            assert(rest[0] == c);
        }
        if c == '\\' {
            if i + 1 == v.len() {
                cur.push('\\');
                push_token(&mut acc, &cur);
                proof {
                    assert(rest.len() == 1);
                    assert(v@.skip(v@.len() as int) =~= Seq::<char>::empty());
                    assert(ws_tokens(rest, cur0, acc0) == acc0.push(cur0.push('\\')));
                }
                cur = Vec::new();
                i = v.len();
                proof {
                    assert(ws_tokens(v@.skip(i as int), cur@, views(acc@)) == views(acc@));
                }
            } else {
                cur.push('\\');
                cur.push(v[i + 1]);
                proof {
                    assert(rest[1] == v@[i + 1]);
                    assert(rest.skip(2) =~= v@.skip(i + 2));
                    assert(cur@ =~= cur0 + seq!['\\', rest[1]]);
                    assert(ws_tokens(rest, cur0, acc0) == ws_tokens(rest.skip(2), cur0 + seq!['\\', rest[1]], acc0));
                }
                i += 2;
            }
        } else if is_whitespace(c) {
            if cur.len() > 0 {
                push_token(&mut acc, &cur);
            }
            cur = Vec::new();
            proof {
                assert(rest.skip(1) =~= v@.skip(i + 1));
                assert(ws_tokens(rest, cur0, acc0) == ws_tokens(rest.skip(1), seq![], if cur0.len() > 0 { acc0.push(cur0) } else { acc0 }));
                assert(cur@ =~= Seq::<char>::empty());
            }
            i += 1;
        } else {
            cur.push(c);
            proof {
                assert(rest.skip(1) =~= v@.skip(i + 1));
                assert(ws_tokens(rest, cur0, acc0) == ws_tokens(rest.skip(1), cur0.push(c), acc0));
            }
            i += 1;
        }
    }
    proof {
        assert(v@.skip(i as int) =~= Seq::<char>::empty());
    }
    if cur.len() > 0 {
        push_token(&mut acc, &cur);
    }
    acc
}

/// The pieces of the rest `s` of a value between unescaped `delim`s, given the
/// piece `cur` being read and the pieces `acc` already read; a backslash keeps
/// itself and the next character.
pub open spec fn unescaped_pieces(s: Seq<char>, delim: char, cur: Seq<char>, acc: Seq<Seq<char>>) -> Seq<Seq<char>>
    decreases s.len(),
{
    if s.len() == 0 {
        acc.push(cur)
    } else if s[0] == '\\' {
        if s.len() == 1 {
            acc.push(cur.push('\\'))
        } else {
            unescaped_pieces(s.skip(2), delim, cur + seq!['\\', s[1]], acc)
        }
    } else if s[0] == delim {
        unescaped_pieces(s.skip(1), delim, seq![], acc.push(cur))
    } else {
        unescaped_pieces(s.skip(1), delim, cur.push(s[0]), acc)
    }
}

/// The pieces of a value between delimiters that are not escaped by a backslash.
pub fn split_unescaped(raw: &str, delimiter: char) -> (r: Vec<String>)
    ensures
        views(r@) == unescaped_pieces(raw@, delimiter, seq![], seq![]),
{
    let v = to_chars(raw);
    let mut acc: Vec<String> = Vec::new();
    let mut cur: Vec<char> = Vec::new();
    let mut i: usize = 0;
    proof {
        assert(v@.skip(0) =~= v@);
        assert(views(acc@) =~= Seq::<Seq<char>>::empty());
    }
    while i < v.len()
        invariant
            0 <= i <= v.len(),
            v@ == raw@,
            unescaped_pieces(raw@, delimiter, seq![], seq![]) == unescaped_pieces(v@.skip(i as int), delimiter, cur@, views(acc@)),
        decreases v.len() - i,
    {
        let c = v[i];
        let ghost rest = v@.skip(i as int);
        let ghost cur0 = cur@;
        let ghost acc0 = views(acc@);
        proof {
            assert(rest[0] == c);
        }
        if c == '\\' {
            if i + 1 == v.len() {
                cur.push('\\');
                push_token(&mut acc, &cur);
                proof {
                    assert(rest.len() == 1);
                    assert(unescaped_pieces(rest, delimiter, cur0, acc0) == acc0.push(cur0.push('\\')));
                }
                let r = acc;
                proof {
                    assert(views(r@) == unescaped_pieces(raw@, delimiter, seq![], seq![]));
                }
                return r;
            } else {
                cur.push('\\');
                cur.push(v[i + 1]);
                proof {
                    assert(rest[1] == v@[i + 1]);
                    assert(rest.skip(2) =~= v@.skip(i + 2));
                    assert(cur@ =~= cur0 + seq!['\\', rest[1]]);
                    assert(unescaped_pieces(rest, delimiter, cur0, acc0) == unescaped_pieces(rest.skip(2), delimiter, cur0 + seq!['\\', rest[1]], acc0));
                }
                i += 2;
            }
        } else if c == delimiter {
            push_token(&mut acc, &cur);
            cur = Vec::new();
            proof {
                assert(rest.skip(1) =~= v@.skip(i + 1));
                assert(unescaped_pieces(rest, delimiter, cur0, acc0) == unescaped_pieces(rest.skip(1), delimiter, seq![], acc0.push(cur0)));
                assert(cur@ =~= Seq::<char>::empty());
            }
            i += 1;
        } else {
            cur.push(c);
            proof {
                assert(rest.skip(1) =~= v@.skip(i + 1));
                assert(unescaped_pieces(rest, delimiter, cur0, acc0) == unescaped_pieces(rest.skip(1), delimiter, cur0.push(c), acc0));
            }
            i += 1;
        }
    }
    proof {
        assert(v@.skip(i as int) =~= Seq::<char>::empty());
    }
    push_token(&mut acc, &cur);
    acc
}

/// What an escaped character stands for in a value, if it is one of the escapes.
pub open spec fn escaped_char(c: char) -> Option<char> {
    if c == 't' {
        Some('\t')
    } else if c == 'n' {
        Some('\n')
    } else if c == ' ' || c == '\\' || c == '|' || c == '=' || c == '#' || c == '~' || c == '<' || c == '>' {
        Some(c)
    } else {
        None
    }
}

/// A value with its escapes resolved; an unknown escape keeps its backslash,
/// and a final lone backslash stays.
pub open spec fn unescape_spec(s: Seq<char>) -> Seq<char>
    decreases s.len(),
{
    if s.len() == 0 {
        seq![]
    } else if s[0] != '\\' {
        seq![s[0]] + unescape_spec(s.skip(1))
    } else if s.len() == 1 {
        seq!['\\']
    } else {
        match escaped_char(s[1]) {
            Some(e) => seq![e] + unescape_spec(s.skip(2)),
            None => seq!['\\', s[1]] + unescape_spec(s.skip(2)),
        }
    }
}

fn escaped_char_exec(c: char) -> (r: Option<char>)
    ensures
        r == escaped_char(c),
{
    if c == 't' {
        Some('\t')
    } else if c == 'n' {
        Some('\n')
    } else if c == ' ' || c == '\\' || c == '|' || c == '=' || c == '#' || c == '~' || c == '<' || c == '>' {
        Some(c)
    } else {
        None
    }
}

/// Resolves the escapes of a query value.
pub fn unescape_query_value(raw: &str) -> (r: String)
    ensures
        r@ == unescape_spec(raw@),
{
    let v = to_chars(raw);
    let mut out: Vec<char> = Vec::new();
    let mut i: usize = 0;
    proof {
        assert(v@.skip(0) =~= v@);
    }
    while i < v.len()
        invariant
            0 <= i <= v.len(),
            v@ == raw@,
            unescape_spec(raw@) == out@ + unescape_spec(v@.skip(i as int)),
        decreases v.len() - i,
    {
        let c = v[i];
        let ghost rest = v@.skip(i as int);
        proof {
            assert(rest[0] == c);
        }
        if c != '\\' {
            out.push(c);
            proof {
                assert(rest.skip(1) =~= v@.skip(i + 1));
                assert(out@ + unescape_spec(v@.skip(i + 1)) =~= out@.drop_last() + (seq![c] + unescape_spec(rest.skip(1))));
            }
            i += 1;
        } else if i + 1 == v.len() {
            out.push('\\');
            proof {
                assert(rest.len() == 1);
                assert(v@.skip(i + 1) =~= Seq::<char>::empty());
                assert(out@ + unescape_spec(v@.skip(i + 1)) =~= out@.drop_last() + seq!['\\']);
            }
            i += 1;
        } else {
            let d = v[i + 1];
            proof {
                assert(rest[1] == d);
                assert(rest.skip(2) =~= v@.skip(i + 2));
            }
            match escaped_char_exec(d) {
                Some(e) => {
                    out.push(e);
                    proof {
                        assert(out@ + unescape_spec(v@.skip(i + 2)) =~= out@.drop_last() + (seq![e] + unescape_spec(rest.skip(2))));
                    }
                },
                None => {
                    let ghost o0 = out@;
                    out.push('\\');
                    out.push(d);
                    proof {
                        assert(out@ + unescape_spec(v@.skip(i + 2)) =~= o0 + (seq!['\\', d] + unescape_spec(rest.skip(2))));
                    }
                },
            }
            i += 2;
        }
    }
    proof {
        assert(v@.skip(i as int) =~= Seq::<char>::empty());
        assert(out@ + Seq::<char>::empty() =~= out@);
    }
    from_chars(out.as_slice())
}

/// A query value: an integer where the text is one, a string otherwise.
pub open spec fn value_of_text(s: Seq<char>) -> FValue {
    match parse_i64_spec(s) {
        Some(i) => FValue::Int(i),
        None => FValue::Str(s),
    }
}

/// Reads a query value.
pub fn parse_value(value: &str) -> (r: FeatureValue)
    ensures
        r@ == value_of_text(value@),
{
    match parse_i64(value) {
        Some(i) => FeatureValue::Int(i),
        None => FeatureValue::string(value),
    }
}

/// The values of a `|`-separated list of alternatives, each unescaped and read.
pub open spec fn alternatives_spec(s: Seq<char>) -> Seq<FValue> {
    unescaped_pieces(s, '|', seq![], seq![]).map_values(|p: Seq<char>| value_of_text(unescape_spec(p)))
}

pub open spec fn fvalues(v: Seq<FeatureValue>) -> Seq<FValue> {
    v.map_values(|x: FeatureValue| x@)
}

/// Reads a list of alternative values separated by unescaped `|`.
pub fn parse_alternative_values(value: &str) -> (r: Vec<FeatureValue>)
    ensures
        fvalues(r@) == alternatives_spec(value@),
{
    let pieces = split_unescaped(value, '|');
    let mut r: Vec<FeatureValue> = Vec::new();
    let mut i: usize = 0;
    while i < pieces.len()
        invariant
            0 <= i <= pieces.len(),
            views(pieces@) == unescaped_pieces(value@, '|', seq![], seq![]),
            fvalues(r@) == views(pieces@).take(i as int).map_values(|p: Seq<char>| value_of_text(unescape_spec(p))),
        decreases pieces.len() - i,
    {
        let u = unescape_query_value(pieces[i].as_str());
        let x = parse_value(u.as_str());
        let ghost before = r@;
        r.push(x);
        proof {
            assert(fvalues(r@) =~= fvalues(before).push(x@));
            assert(views(pieces@)[i as int] == pieces@[i as int]@);
            assert(views(pieces@).take(i + 1).map_values(|p: Seq<char>| value_of_text(unescape_spec(p))) =~= views(
                pieces@,
            ).take(i as int).map_values(|p: Seq<char>| value_of_text(unescape_spec(p))).push(
                value_of_text(unescape_spec(pieces@[i as int]@)),
            ));
        }
        i += 1;
    }
    proof {
        assert(views(pieces@).take(pieces@.len() as int) =~= views(pieces@));
    }
    r
}

// ---------------------------------------------------------------------------
// Patterns
// ---------------------------------------------------------------------------

#[verifier::external_type_specification]
#[verifier::external_body]
pub struct ExRegex(regex::Regex);

/// Whether `regex::Regex::new` accepts a pattern (its syntax and its size).
pub uninterp spec fn regex_compiles(pattern: Seq<char>) -> bool;

/// The message of the error that `regex::Regex::new` gives for a pattern it refuses.
pub uninterp spec fn regex_error_text(pattern: Seq<char>) -> Seq<char>;

/// `regex::Regex::new`: the compiled pattern, or the text of its error.
#[verifier::external_body]
fn compile_regex(pattern: &str) -> (r: Result<regex::Regex, String>)
    ensures
        match r {
            Ok(_) => regex_compiles(pattern@),
            Err(m) => !regex_compiles(pattern@) && m@ == regex_error_text(pattern@),
        },
{
    match regex::Regex::new(pattern) {
        Ok(re) => Ok(re),
        Err(e) => Err(e.to_string()),
    }
}



/// A regular expression with the pattern it was compiled from. Only
/// [`RegexPattern::compile`] makes one, so its compiled form is always what
/// `regex::Regex::new` gives for its pattern.
#[derive(Debug)]
pub struct RegexPattern {
    source: String,
    compiled: regex::Regex,
}

impl View for RegexPattern {
    type V = Seq<char>;

    /// The pattern.
    closed spec fn view(&self) -> Seq<char> {
        self.source@
    }
}

impl RegexPattern {
    /// Compiles `pattern`, or gives the error text of `regex::Regex::new`.
    pub fn compile(pattern: &str) -> (r: Result<RegexPattern, String>)
        ensures
            match r {
                Ok(p) => regex_compiles(pattern@) && p@ == pattern@,
                Err(m) => !regex_compiles(pattern@) && m@ == regex_error_text(pattern@),
            },
    {
        match compile_regex(pattern) {
            Ok(re) => Ok(RegexPattern { source: owned(pattern), compiled: re }),
            Err(m) => Err(m),
        }
    }

    /// The pattern.
    pub fn as_str(&self) -> (r: &str)
        ensures
            r@ == self@,
    {
        self.source.as_str()
    }
}

/// Whether `pattern` (compiled by `regex::Regex::new`) matches somewhere in `text`.
pub uninterp spec fn regex_matches(pattern: Seq<char>, text: Seq<char>) -> bool;

/// `regex::Regex::is_match`: whether the pattern matches somewhere in `text`. Which
/// texts a pattern matches is not stated: the result is named by the pattern and the
/// text.
#[verifier::external_body]
pub(crate) fn regex_is_match(re: &RegexPattern, text: &str) -> (r: bool)
    ensures
        r == regex_matches(re@, text@),
{
    re.compiled.is_match(text)
}

/// What is left of `text` once every match of `pattern` (compiled by
/// `regex::Regex::new`) is replaced by nothing.
pub uninterp spec fn regex_removed(pattern: Seq<char>, text: Seq<char>) -> Seq<char>;

/// `regex::Regex::replace_all` with the empty replacement: `text` without the
/// matches of the pattern. Which parts of a text a pattern matches is not stated:
/// the result is named by the pattern and the text.
#[verifier::external_body]
pub(crate) fn regex_remove_all(re: &RegexPattern, text: &str) -> (r: String)
    ensures
        r@ == regex_removed(re@, text@),
{
    re.compiled.replace_all(text, "").into_owned()
}

// ---------------------------------------------------------------------------
// Relation operators
// ---------------------------------------------------------------------------

/// How two feature values are compared in a feature relation.
#[derive(Debug, Clone, Copy, PartialEq, Eq, Structural)]
pub enum FeatureRelationComparison {
    Eq,
    Ne,
    Lt,
    Gt,
}

/// A condition on the value of an edge.
#[derive(Debug)]
pub enum EdgeValueMatcher {
    Eq(Vec<FeatureValue>),
    Ne(Vec<FeatureValue>),
    Regex(RegexPattern),
}

pub enum EdgeMatchV {
    AnyOf(Seq<FValue>),
    NoneOf(Seq<FValue>),
    Pattern(Seq<char>),
}

impl EdgeValueMatcher {
    pub open spec fn view_matcher(&self) -> EdgeMatchV {
        match self {
            EdgeValueMatcher::Eq(v) => EdgeMatchV::AnyOf(fvalues(v@)),
            EdgeValueMatcher::Ne(v) => EdgeMatchV::NoneOf(fvalues(v@)),
            EdgeValueMatcher::Regex(p) => EdgeMatchV::Pattern(p@),
        }
    }
}

/// A relation between two nodes of a template.
#[derive(Debug)]
pub enum RelationOperator {
    Equal,
    Before,
    After,
    NotEqual,
    SameSlots,
    DifferentSlots,
    Overlaps,
    Disjoint,
    Embeds,
    EmbeddedIn,
    SlotBefore,
    SlotAfter,
    AdjacentBefore,
    AdjacentAfter,
    SameFirstSlot,
    SameLastSlot,
    SameBoundary,
    NearFirstSlot(u32),
    NearLastSlot(u32),
    NearBoundary(u32),
    NearBefore(u32),
    NearAfter(u32),
    EdgeForward(String),
    EdgeBackward(String),
    EdgeEither(String),
    EdgeForwardValue(String, EdgeValueMatcher),
    EdgeBackwardValue(String, EdgeValueMatcher),
    EdgeEitherValue(String, EdgeValueMatcher),
    FeatureCompare { left_feature: String, comparison: FeatureRelationComparison, right_feature: String },
    FeatureRegexCompare { left_feature: String, pattern: RegexPattern, right_feature: String },
}

pub enum RelOpV {
    Equal,
    Before,
    After,
    NotEqual,
    SameSlots,
    DifferentSlots,
    Overlaps,
    Disjoint,
    Embeds,
    EmbeddedIn,
    SlotBefore,
    SlotAfter,
    AdjacentBefore,
    AdjacentAfter,
    SameFirstSlot,
    SameLastSlot,
    SameBoundary,
    NearFirstSlot(u32),
    NearLastSlot(u32),
    NearBoundary(u32),
    NearBefore(u32),
    NearAfter(u32),
    EdgeForward(Seq<char>),
    EdgeBackward(Seq<char>),
    EdgeEither(Seq<char>),
    EdgeForwardValue(Seq<char>, EdgeMatchV),
    EdgeBackwardValue(Seq<char>, EdgeMatchV),
    EdgeEitherValue(Seq<char>, EdgeMatchV),
    FeatureCompare(Seq<char>, FeatureRelationComparison, Seq<char>),
    FeatureRegexCompare(Seq<char>, Seq<char>, Seq<char>),
}

impl RelationOperator {
    pub open spec fn view_op(&self) -> RelOpV {
        match self {
            RelationOperator::Equal => RelOpV::Equal,
            RelationOperator::Before => RelOpV::Before,
            RelationOperator::After => RelOpV::After,
            RelationOperator::NotEqual => RelOpV::NotEqual,
            RelationOperator::SameSlots => RelOpV::SameSlots,
            RelationOperator::DifferentSlots => RelOpV::DifferentSlots,
            RelationOperator::Overlaps => RelOpV::Overlaps,
            RelationOperator::Disjoint => RelOpV::Disjoint,
            RelationOperator::Embeds => RelOpV::Embeds,
            RelationOperator::EmbeddedIn => RelOpV::EmbeddedIn,
            RelationOperator::SlotBefore => RelOpV::SlotBefore,
            RelationOperator::SlotAfter => RelOpV::SlotAfter,
            RelationOperator::AdjacentBefore => RelOpV::AdjacentBefore,
            RelationOperator::AdjacentAfter => RelOpV::AdjacentAfter,
            RelationOperator::SameFirstSlot => RelOpV::SameFirstSlot,
            RelationOperator::SameLastSlot => RelOpV::SameLastSlot,
            RelationOperator::SameBoundary => RelOpV::SameBoundary,
            RelationOperator::NearFirstSlot(k) => RelOpV::NearFirstSlot(*k),
            RelationOperator::NearLastSlot(k) => RelOpV::NearLastSlot(*k),
            RelationOperator::NearBoundary(k) => RelOpV::NearBoundary(*k),
            RelationOperator::NearBefore(k) => RelOpV::NearBefore(*k),
            RelationOperator::NearAfter(k) => RelOpV::NearAfter(*k),
            RelationOperator::EdgeForward(e) => RelOpV::EdgeForward(e@),
            RelationOperator::EdgeBackward(e) => RelOpV::EdgeBackward(e@),
            RelationOperator::EdgeEither(e) => RelOpV::EdgeEither(e@),
            RelationOperator::EdgeForwardValue(e, m) => RelOpV::EdgeForwardValue(e@, m.view_matcher()),
            RelationOperator::EdgeBackwardValue(e, m) => RelOpV::EdgeBackwardValue(e@, m.view_matcher()),
            RelationOperator::EdgeEitherValue(e, m) => RelOpV::EdgeEitherValue(e@, m.view_matcher()),
            RelationOperator::FeatureCompare { left_feature, comparison, right_feature } => RelOpV::FeatureCompare(
                left_feature@,
                *comparison,
                right_feature@,
            ),
            RelationOperator::FeatureRegexCompare { left_feature, pattern, right_feature } => RelOpV::FeatureRegexCompare(
                left_feature@,
                pattern@,
                right_feature@,
            ),
        }
    }
}

/// The operators written with fixed symbols.
pub open spec fn fixed_op(op: Seq<char>) -> Option<RelOpV> {
    if op == "="@ {
        Some(RelOpV::Equal)
    } else if op == "<"@ {
        Some(RelOpV::Before)
    } else if op == ">"@ {
        Some(RelOpV::After)
    } else if op == "#"@ {
        Some(RelOpV::NotEqual)
    } else if op == "=="@ {
        Some(RelOpV::SameSlots)
    } else if op == "##"@ {
        Some(RelOpV::DifferentSlots)
    } else if op == "&&"@ {
        Some(RelOpV::Overlaps)
    } else if op == "||"@ {
        Some(RelOpV::Disjoint)
    } else if op == "[["@ {
        Some(RelOpV::Embeds)
    } else if op == "]]"@ {
        Some(RelOpV::EmbeddedIn)
    } else if op == "<<"@ {
        Some(RelOpV::SlotBefore)
    } else if op == ">>"@ {
        Some(RelOpV::SlotAfter)
    } else if op == "<:"@ {
        Some(RelOpV::AdjacentBefore)
    } else if op == ":>"@ {
        Some(RelOpV::AdjacentAfter)
    } else if op == "=:"@ {
        Some(RelOpV::SameFirstSlot)
    } else if op == ":="@ {
        Some(RelOpV::SameLastSlot)
    } else if op == "::"@ {
        Some(RelOpV::SameBoundary)
    } else {
        None
    }
}

fn fixed_op_exec(op: &str) -> (r: Option<RelationOperator>)
    ensures
        match r {
            Some(o) => fixed_op(op@) == Some(o.view_op()),
            None => fixed_op(op@) is None,
        },
{
    if str_eq(op, "=") {
        Some(RelationOperator::Equal)
    } else if str_eq(op, "<") {
        Some(RelationOperator::Before)
    } else if str_eq(op, ">") {
        Some(RelationOperator::After)
    } else if str_eq(op, "#") {
        Some(RelationOperator::NotEqual)
    } else if str_eq(op, "==") {
        Some(RelationOperator::SameSlots)
    } else if str_eq(op, "##") {
        Some(RelationOperator::DifferentSlots)
    } else if str_eq(op, "&&") {
        Some(RelationOperator::Overlaps)
    } else if str_eq(op, "||") {
        Some(RelationOperator::Disjoint)
    } else if str_eq(op, "[[") {
        Some(RelationOperator::Embeds)
    } else if str_eq(op, "]]") {
        Some(RelationOperator::EmbeddedIn)
    } else if str_eq(op, "<<") {
        Some(RelationOperator::SlotBefore)
    } else if str_eq(op, ">>") {
        Some(RelationOperator::SlotAfter)
    } else if str_eq(op, "<:") {
        Some(RelationOperator::AdjacentBefore)
    } else if str_eq(op, ":>") {
        Some(RelationOperator::AdjacentAfter)
    } else if str_eq(op, "=:") {
        Some(RelationOperator::SameFirstSlot)
    } else if str_eq(op, ":=") {
        Some(RelationOperator::SameLastSlot)
    } else if str_eq(op, "::") {
        Some(RelationOperator::SameBoundary)
    } else {
        None
    }
}

/// The text between a leading `prefix` and a trailing `suffix`, if the operator has both.
pub open spec fn inner_spec(op: Seq<char>, prefix: char, suffix: char) -> Option<Seq<char>> {
    match strip_prefix_spec(op, prefix) {
        Some(a) => strip_suffix_spec(a, suffix),
        None => None,
    }
}

fn inner_exec(op: &str, prefix: char, suffix: char) -> (r: Option<String>)
    ensures
        match r {
            Some(t) => inner_spec(op@, prefix, suffix) == Some(t@),
            None => inner_spec(op@, prefix, suffix) is None,
        },
{
    match strip_prefix_char(op, prefix) {
        Some(a) => strip_suffix_char(a.as_str(), suffix),
        None => None,
    }
}

/// A number between a leading `prefix` and a trailing `suffix`.
pub open spec fn surrounded_spec(op: Seq<char>, prefix: char, suffix: char) -> Option<u32> {
    match inner_spec(op, prefix, suffix) {
        Some(t) => parse_u32_spec(t),
        None => None,
    }
}

pub fn parse_surrounded_u32(operator: &str, prefix: char, suffix: char) -> (r: Option<u32>)
    ensures
        r == surrounded_spec(operator@, prefix, suffix),
{
    match inner_exec(operator, prefix, suffix) {
        Some(t) => parse_u32(t.as_str()),
        None => None,
    }
}

/// The nearness operators `=k:`, `:k=`, `:k:`, `<k:` and `:k>`.
pub open spec fn near_op(op: Seq<char>) -> Option<RelOpV> {
    if surrounded_spec(op, '=', ':') is Some {
        Some(RelOpV::NearFirstSlot(surrounded_spec(op, '=', ':')->0))
    } else if surrounded_spec(op, ':', '=') is Some {
        Some(RelOpV::NearLastSlot(surrounded_spec(op, ':', '=')->0))
    } else if surrounded_spec(op, ':', ':') is Some {
        Some(RelOpV::NearBoundary(surrounded_spec(op, ':', ':')->0))
    } else if surrounded_spec(op, '<', ':') is Some {
        Some(RelOpV::NearBefore(surrounded_spec(op, '<', ':')->0))
    } else if surrounded_spec(op, ':', '>') is Some {
        Some(RelOpV::NearAfter(surrounded_spec(op, ':', '>')->0))
    } else {
        None
    }
}

pub fn parse_near_relation_operator(operator: &str) -> (r: Option<RelationOperator>)
    ensures
        match r {
            Some(o) => near_op(operator@) == Some(o.view_op()),
            None => near_op(operator@) is None,
        },
{
    if let Some(k) = parse_surrounded_u32(operator, '=', ':') {
        Some(RelationOperator::NearFirstSlot(k))
    } else if let Some(k) = parse_surrounded_u32(operator, ':', '=') {
        Some(RelationOperator::NearLastSlot(k))
    } else if let Some(k) = parse_surrounded_u32(operator, ':', ':') {
        Some(RelationOperator::NearBoundary(k))
    } else if let Some(k) = parse_surrounded_u32(operator, '<', ':') {
        Some(RelationOperator::NearBefore(k))
    } else if let Some(k) = parse_surrounded_u32(operator, ':', '>') {
        Some(RelationOperator::NearAfter(k))
    } else {
        None
    }
}

/// A split at the first `c` whose first part is not empty.
pub open spec fn named_split(s: Seq<char>, c: char) -> Option<(Seq<char>, Seq<char>)> {
    match split_once_spec(s, c) {
        Some(p) => if p.0.len() > 0 {
            Some(p)
        } else {
            None
        },
        None => None,
    }
}

/// The edge name and value condition of `edge=values`, `edge#values` or
/// `edge~pattern` (the pattern unescaped; nothing if it does not compile).
pub open spec fn edge_matcher_spec(raw: Seq<char>) -> Option<(Seq<char>, EdgeMatchV)> {
    if named_split(raw, '=') is Some {
        let p = named_split(raw, '=')->0;
        Some((p.0, EdgeMatchV::AnyOf(alternatives_spec(p.1))))
    } else if named_split(raw, '#') is Some {
        let p = named_split(raw, '#')->0;
        Some((p.0, EdgeMatchV::NoneOf(alternatives_spec(p.1))))
    } else if named_split(raw, '~') is Some {
        let p = named_split(raw, '~')->0;
        if regex_compiles(unescape_spec(p.1)) {
            Some((p.0, EdgeMatchV::Pattern(unescape_spec(p.1))))
        } else {
            None
        }
    } else {
        None
    }
}

fn named_split_exec(s: &str, c: char) -> (r: Option<(String, String)>)
    ensures
        match r {
            Some(p) => named_split(s@, c) == Some((p.0@, p.1@)),
            None => named_split(s@, c) is None,
        },
{
    match split_once_char(s, c) {
        Some((a, b)) => if to_chars(a.as_str()).len() > 0 {
            Some((a, b))
        } else {
            None
        },
        None => None,
    }
}

pub fn parse_edge_value_matcher(raw: &str) -> (r: Option<(String, EdgeValueMatcher)>)
    ensures
        match r {
            Some(p) => edge_matcher_spec(raw@) == Some((p.0@, p.1.view_matcher())),
            None => edge_matcher_spec(raw@) is None,
        },
{
    if let Some((name, value)) = named_split_exec(raw, '=') {
        return Some((name, EdgeValueMatcher::Eq(parse_alternative_values(value.as_str()))));
    }
    if let Some((name, value)) = named_split_exec(raw, '#') {
        return Some((name, EdgeValueMatcher::Ne(parse_alternative_values(value.as_str()))));
    }
    if let Some((name, pattern)) = named_split_exec(raw, '~') {
        let p = unescape_query_value(pattern.as_str());
        return match RegexPattern::compile(p.as_str()) {
            Ok(re) => Some((name, EdgeValueMatcher::Regex(re))),
            Err(_) => None,
        };
    }
    None
}

/// An edge operator over `raw`: valued when `raw` carries a value condition.
pub open spec fn edge_op_spec(raw: Seq<char>, dir: int) -> RelOpV {
    match edge_matcher_spec(raw) {
        Some(p) => if dir == 0 {
            RelOpV::EdgeForwardValue(p.0, p.1)
        } else if dir == 1 {
            RelOpV::EdgeBackwardValue(p.0, p.1)
        } else {
            RelOpV::EdgeEitherValue(p.0, p.1)
        },
        None => if dir == 0 {
            RelOpV::EdgeForward(raw)
        } else if dir == 1 {
            RelOpV::EdgeBackward(raw)
        } else {
            RelOpV::EdgeEither(raw)
        },
    }
}

pub fn parse_edge_forward_operator(raw: &str) -> (r: RelationOperator)
    ensures
        r.view_op() == edge_op_spec(raw@, 0),
{
    match parse_edge_value_matcher(raw) {
        Some((name, m)) => RelationOperator::EdgeForwardValue(name, m),
        None => RelationOperator::EdgeForward(owned(raw)),
    }
}

pub fn parse_edge_backward_operator(raw: &str) -> (r: RelationOperator)
    ensures
        r.view_op() == edge_op_spec(raw@, 1),
{
    match parse_edge_value_matcher(raw) {
        Some((name, m)) => RelationOperator::EdgeBackwardValue(name, m),
        None => RelationOperator::EdgeBackward(owned(raw)),
    }
}

pub fn parse_edge_either_operator(raw: &str) -> (r: RelationOperator)
    ensures
        r.view_op() == edge_op_spec(raw@, 2),
{
    match parse_edge_value_matcher(raw) {
        Some((name, m)) => RelationOperator::EdgeEitherValue(name, m),
        None => RelationOperator::EdgeEither(owned(raw)),
    }
}

/// `.left~pattern~right.` inside the dots: the left feature before the first
/// `~`, the pattern up to the last `~`, the right feature after it; all three
/// non-empty and the pattern compiling.
pub open spec fn feature_regex_spec(inner: Seq<char>) -> Option<RelOpV> {
    match split_once_spec(inner, '~') {
        Some(a) => match rsplit_once_spec(a.1, '~') {
            Some(b) => if a.0.len() == 0 || b.0.len() == 0 || b.1.len() == 0 || !regex_compiles(b.0) {
                None
            } else {
                Some(RelOpV::FeatureRegexCompare(a.0, b.0, b.1))
            },
            None => None,
        },
        None => None,
    }
}

pub fn parse_feature_regex_relation_operator(inner: &str) -> (r: Option<RelationOperator>)
    ensures
        match r {
            Some(o) => feature_regex_spec(inner@) == Some(o.view_op()),
            None => feature_regex_spec(inner@) is None,
        },
{
    let (left, rest) = match split_once_char(inner, '~') {
        Some(p) => p,
        None => {
            return None;
        },
    };
    let (pattern, right) = match rsplit_once_char(rest.as_str(), '~') {
        Some(p) => p,
        None => {
            return None;
        },
    };
    if to_chars(left.as_str()).len() == 0 || to_chars(pattern.as_str()).len() == 0 || to_chars(right.as_str()).len() == 0 {
        return None;
    }
    match RegexPattern::compile(pattern.as_str()) {
        Ok(re) => Some(RelationOperator::FeatureRegexCompare { left_feature: left, pattern: re, right_feature: right }),
        Err(_) => None,
    }
}

/// A comparison by `c` between two non-empty feature names, if `c` occurs.
pub open spec fn comparison_split(inner: Seq<char>, c: char, cmp_kind: FeatureRelationComparison) -> Option<Option<RelOpV>> {
    match split_once_spec(inner, c) {
        Some(p) => if p.0.len() == 0 || p.1.len() == 0 {
            Some(None)
        } else {
            Some(Some(RelOpV::FeatureCompare(p.0, cmp_kind, p.1)))
        },
        None => None,
    }
}

/// `.f=g.`, `.f#g.`, `.f<g.`, `.f>g.`, `.f~re~g.`, or `.f.` for `.f=f.`.
pub open spec fn feature_op_spec(op: Seq<char>) -> Option<RelOpV> {
    match inner_spec(op, '.', '.') {
        None => None,
        Some(inner) => if inner.len() == 0 {
            None
        } else if feature_regex_spec(inner) is Some {
            feature_regex_spec(inner)
        } else if comparison_split(inner, '=', FeatureRelationComparison::Eq) is Some {
            comparison_split(inner, '=', FeatureRelationComparison::Eq)->0
        } else if comparison_split(inner, '#', FeatureRelationComparison::Ne) is Some {
            comparison_split(inner, '#', FeatureRelationComparison::Ne)->0
        } else if comparison_split(inner, '<', FeatureRelationComparison::Lt) is Some {
            comparison_split(inner, '<', FeatureRelationComparison::Lt)->0
        } else if comparison_split(inner, '>', FeatureRelationComparison::Gt) is Some {
            comparison_split(inner, '>', FeatureRelationComparison::Gt)->0
        } else {
            Some(RelOpV::FeatureCompare(inner, FeatureRelationComparison::Eq, inner))
        },
    }
}

fn comparison_exec(inner: &str, c: char, kind: FeatureRelationComparison) -> (r: Option<Option<RelationOperator>>)
    ensures
        match r {
            Some(Some(o)) => comparison_split(inner@, c, kind) == Some(Some(o.view_op())),
            Some(None) => comparison_split(inner@, c, kind) == Some(None::<RelOpV>),
            None => comparison_split(inner@, c, kind) is None,
        },
{
    match split_once_char(inner, c) {
        Some((a, b)) => if to_chars(a.as_str()).len() == 0 || to_chars(b.as_str()).len() == 0 {
            Some(None)
        } else {
            Some(Some(RelationOperator::FeatureCompare { left_feature: a, comparison: kind, right_feature: b }))
        },
        None => None,
    }
}

pub fn parse_feature_relation_operator(operator: &str) -> (r: Option<RelationOperator>)
    ensures
        match r {
            Some(o) => feature_op_spec(operator@) == Some(o.view_op()),
            None => feature_op_spec(operator@) is None,
        },
{
    let inner = match inner_exec(operator, '.', '.') {
        Some(t) => t,
        None => {
            return None;
        },
    };
    if to_chars(inner.as_str()).len() == 0 {
        return None;
    }
    if let Some(o) = parse_feature_regex_relation_operator(inner.as_str()) {
        return Some(o);
    }
    if let Some(o) = comparison_exec(inner.as_str(), '=', FeatureRelationComparison::Eq) {
        return o;
    }
    if let Some(o) = comparison_exec(inner.as_str(), '#', FeatureRelationComparison::Ne) {
        return o;
    }
    if let Some(o) = comparison_exec(inner.as_str(), '<', FeatureRelationComparison::Lt) {
        return o;
    }
    if let Some(o) = comparison_exec(inner.as_str(), '>', FeatureRelationComparison::Gt) {
        return o;
    }
    let right = copy_string(&inner);
    Some(RelationOperator::FeatureCompare { left_feature: inner, comparison: FeatureRelationComparison::Eq, right_feature: right })
}

/// A non-empty text between `prefix` and `suffix`.
pub open spec fn edge_inner(op: Seq<char>, prefix: char, suffix: char) -> Option<Seq<char>> {
    match inner_spec(op, prefix, suffix) {
        Some(t) => if t.len() > 0 {
            Some(t)
        } else {
            None
        },
        None => None,
    }
}

/// The relation operator a token stands for, if any: a fixed symbol, a
/// nearness operator, an edge (`-e>`, `<e-`, `<e>`, optionally with a value
/// condition), or a feature comparison (`.f=g.` and the like).
pub open spec fn relop_spec(op: Seq<char>) -> Option<RelOpV> {
    if fixed_op(op) is Some {
        fixed_op(op)
    } else if near_op(op) is Some {
        near_op(op)
    } else if edge_inner(op, '-', '>') is Some {
        Some(edge_op_spec(edge_inner(op, '-', '>')->0, 0))
    } else if edge_inner(op, '<', '-') is Some {
        Some(edge_op_spec(edge_inner(op, '<', '-')->0, 1))
    } else if edge_inner(op, '<', '>') is Some {
        Some(edge_op_spec(edge_inner(op, '<', '>')->0, 2))
    } else {
        feature_op_spec(op)
    }
}

fn edge_inner_exec(op: &str, prefix: char, suffix: char) -> (r: Option<String>)
    ensures
        match r {
            Some(t) => edge_inner(op@, prefix, suffix) == Some(t@),
            None => edge_inner(op@, prefix, suffix) is None,
        },
{
    match inner_exec(op, prefix, suffix) {
        Some(t) => if to_chars(t.as_str()).len() > 0 {
            Some(t)
        } else {
            None
        },
        None => None,
    }
}

/// The relation operator a token stands for, if any.
pub fn parse_relation_operator(operator: &str) -> (r: Option<RelationOperator>)
    ensures
        match r {
            Some(o) => relop_spec(operator@) == Some(o.view_op()),
            None => relop_spec(operator@) is None,
        },
{
    if let Some(o) = fixed_op_exec(operator) {
        return Some(o);
    }
    if let Some(o) = parse_near_relation_operator(operator) {
        return Some(o);
    }
    if let Some(e) = edge_inner_exec(operator, '-', '>') {
        return Some(parse_edge_forward_operator(e.as_str()));
    }
    if let Some(e) = edge_inner_exec(operator, '<', '-') {
        return Some(parse_edge_backward_operator(e.as_str()));
    }
    if let Some(e) = edge_inner_exec(operator, '<', '>') {
        return Some(parse_edge_either_operator(e.as_str()));
    }
    parse_feature_relation_operator(operator)
}

/// The operator of an atom line, which is read as a relation operator.
pub fn parse_atom_operator(raw: &str) -> (r: Option<RelationOperator>)
    ensures
        match r {
            Some(o) => relop_spec(raw@) == Some(o.view_op()),
            None => relop_spec(raw@) is None,
        },
{
    parse_relation_operator(raw)
}

// ---------------------------------------------------------------------------
// Feature constraints
// ---------------------------------------------------------------------------

/// A condition on the value of a feature.
#[derive(Debug)]
pub enum Matcher {
    Eq(Vec<FeatureValue>),
    Ne(Vec<FeatureValue>),
    Regex(RegexPattern),
    Exists,
    Missing,
    Lt(FeatureValue),
    Gt(FeatureValue),
}

pub enum MatcherV {
    Eq(Seq<FValue>),
    Ne(Seq<FValue>),
    Regex(Seq<char>),
    Exists,
    Missing,
    Lt(FValue),
    Gt(FValue),
}

impl Matcher {
    pub open spec fn view_matcher(&self) -> MatcherV {
        match self {
            Matcher::Eq(v) => MatcherV::Eq(fvalues(v@)),
            Matcher::Ne(v) => MatcherV::Ne(fvalues(v@)),
            Matcher::Regex(p) => MatcherV::Regex(p@),
            Matcher::Exists => MatcherV::Exists,
            Matcher::Missing => MatcherV::Missing,
            Matcher::Lt(v) => MatcherV::Lt(v@),
            Matcher::Gt(v) => MatcherV::Gt(v@),
        }
    }
}

/// A feature of an atom and the condition on its value.
#[derive(Debug)]
pub struct Constraint {
    pub feature: String,
    pub matcher: Matcher,
}

impl Constraint {
    pub open spec fn view_constraint(&self) -> (Seq<char>, MatcherV) {
        (self.feature@, self.matcher.view_matcher())
    }
}

pub open spec fn unsupported_constraint() -> Seq<char> {
    "unsupported constraint syntax \"\""@
}

/// What a constraint token means: `f*` (has a value), `f#` (has none),
/// `f=v|w`, `f#v|w`, `f~pattern`, `f<v`, `f>v`, or a bare feature name (has a
/// value), tried in that order; an empty token is an error, as is a pattern
/// that does not compile.
pub open spec fn constraint_spec(part: Seq<char>) -> Result<(Seq<char>, MatcherV), CfErrorView> {
    if strip_suffix_spec(part, '*') is Some {
        Ok((strip_suffix_spec(part, '*')->0, MatcherV::Exists))
    } else if strip_suffix_spec(part, '#') is Some {
        Ok((strip_suffix_spec(part, '#')->0, MatcherV::Missing))
    } else if split_once_spec(part, '=') is Some {
        let p = split_once_spec(part, '=')->0;
        Ok((p.0, MatcherV::Eq(alternatives_spec(p.1))))
    } else if split_once_spec(part, '#') is Some {
        let p = split_once_spec(part, '#')->0;
        Ok((p.0, MatcherV::Ne(alternatives_spec(p.1))))
    } else if split_once_spec(part, '~') is Some {
        let p = split_once_spec(part, '~')->0;
        if regex_compiles(p.1) {
            Ok((p.0, MatcherV::Regex(p.1)))
        } else {
            Err(CfErrorView::Regex(regex_error_text(p.1)))
        }
    } else if split_once_spec(part, '<') is Some {
        let p = split_once_spec(part, '<')->0;
        Ok((p.0, MatcherV::Lt(value_of_text(p.1))))
    } else if split_once_spec(part, '>') is Some {
        let p = split_once_spec(part, '>')->0;
        Ok((p.0, MatcherV::Gt(value_of_text(p.1))))
    } else if part.len() > 0 {
        Ok((part, MatcherV::Exists))
    } else {
        Err(CfErrorView::InvalidQuery(unsupported_constraint()))
    }
}

/// Reads a feature constraint of an atom.
pub fn parse_constraint(part: &str) -> (r: Result<Constraint, CfError>)
    ensures
        match r {
            Ok(c) => constraint_spec(part@) == Ok::<(Seq<char>, MatcherV), CfErrorView>(c.view_constraint()),
            Err(e) => constraint_spec(part@) == Err::<(Seq<char>, MatcherV), CfErrorView>(e@),
        },
{
    if let Some(f) = strip_suffix_char(part, '*') {
        return Ok(Constraint { feature: f, matcher: Matcher::Exists });
    }
    if let Some(f) = strip_suffix_char(part, '#') {
        return Ok(Constraint { feature: f, matcher: Matcher::Missing });
    }
    if let Some((f, v)) = split_once_char(part, '=') {
        return Ok(Constraint { feature: f, matcher: Matcher::Eq(parse_alternative_values(v.as_str())) });
    }
    if let Some((f, v)) = split_once_char(part, '#') {
        return Ok(Constraint { feature: f, matcher: Matcher::Ne(parse_alternative_values(v.as_str())) });
    }
    if let Some((f, p)) = split_once_char(part, '~') {
        return match RegexPattern::compile(p.as_str()) {
            Ok(re) => Ok(Constraint { feature: f, matcher: Matcher::Regex(re) }),
            Err(m) => Err(CfError::Regex(m)),
        };
    }
    if let Some((f, v)) = split_once_char(part, '<') {
        return Ok(Constraint { feature: f, matcher: Matcher::Lt(parse_value(v.as_str())) });
    }
    if let Some((f, v)) = split_once_char(part, '>') {
        return Ok(Constraint { feature: f, matcher: Matcher::Gt(parse_value(v.as_str())) });
    }
    if to_chars(part).len() > 0 {
        return Ok(Constraint { feature: owned(part), matcher: Matcher::Exists });
    }
    Err(CfError::InvalidQuery(owned("unsupported constraint syntax \"\"")))
}

/// A token that is plainly a constraint: it ends with `*` or `#`, or holds one
/// of `=`, `~`, `<`, `>`.
pub open spec fn explicit_constraint(part: Seq<char>) -> bool {
    strip_suffix_spec(part, '*') is Some || strip_suffix_spec(part, '#') is Some || part.contains('=')
        || part.contains('~') || part.contains('<') || part.contains('>')
}

fn has_char(s: &str, c: char) -> (r: bool)
    ensures
        r == s@.contains(c),
{
    let v = to_chars(s);
    match find_char(v.as_slice(), c) {
        Some(i) => {
            assert(s@[i as int] == c);
            true
        },
        None => false,
    }
}

pub fn looks_like_explicit_feature_constraint(part: &str) -> (r: bool)
    ensures
        r == explicit_constraint(part@),
{
    strip_suffix_char(part, '*').is_some() || strip_suffix_char(part, '#').is_some() || has_char(part, '=')
        || has_char(part, '~') || has_char(part, '<') || has_char(part, '>')
}

pub open spec fn constraint_views(v: Seq<Constraint>) -> Seq<(Seq<char>, MatcherV)> {
    v.map_values(|c: Constraint| c.view_constraint())
}

/// The first error among the constraint readings of `parts`, if any.
pub open spec fn first_constraint_error(parts: Seq<Seq<char>>) -> Option<CfErrorView>
    decreases parts.len(),
{
    if parts.len() == 0 {
        None
    } else {
        match constraint_spec(parts[0]) {
            Err(e) => Some(e),
            Ok(_) => first_constraint_error(parts.drop_first()),
        }
    }
}

/// The constraint readings of `parts`, all of which read.
pub open spec fn constraints_of(parts: Seq<Seq<char>>) -> Seq<(Seq<char>, MatcherV)> {
    parts.map_values(|p: Seq<char>| match constraint_spec(p) {
        Ok(c) => c,
        Err(_) => ("".view(), MatcherV::Exists),
    })
}

/// A line of only explicit constraints continues the previous atom: the
/// constraints of its tokens, nothing for a line with another token or none.
pub open spec fn continuation_spec(line: Seq<char>) -> Result<Option<Seq<(Seq<char>, MatcherV)>>, CfErrorView> {
    let toks = ws_tokens(line, seq![], seq![]);
    continuation_from(toks, 0)
}

/// Reading the tokens from `k` on: a non-explicit token ends the reading with
/// nothing, a failed constraint with its error.
pub open spec fn continuation_from(toks: Seq<Seq<char>>, k: int) -> Result<Option<Seq<(Seq<char>, MatcherV)>>, CfErrorView>
    decreases toks.len() - k,
{
    if k >= toks.len() {
        if toks.len() == 0 {
            Ok(None)
        } else {
            Ok(Some(seq![]))
        }
    } else if !explicit_constraint(toks[k]) {
        Ok(None)
    } else {
        match constraint_spec(toks[k]) {
            Err(e) => Err(e),
            Ok(c) => match continuation_from(toks, k + 1) {
                Ok(Some(rest)) => Ok(Some(seq![c] + rest)),
                other => other,
            },
        }
    }
}

/// The constraints of a continuation line, if it is one.
pub fn parse_feature_continuation_line(line: &str) -> (r: Result<Option<Vec<Constraint>>, CfError>)
    ensures
        match r {
            Ok(Some(v)) => continuation_spec(line@) == Ok::<Option<Seq<(Seq<char>, MatcherV)>>, CfErrorView>(Some(constraint_views(v@))),
            Ok(None) => continuation_spec(line@) == Ok::<Option<Seq<(Seq<char>, MatcherV)>>, CfErrorView>(None),
            Err(e) => continuation_spec(line@) == Err::<Option<Seq<(Seq<char>, MatcherV)>>, CfErrorView>(e@),
        },
{
    let toks = split_query_whitespace(line);
    let ghost ts = views(toks@);
    let mut out: Vec<Constraint> = Vec::new();
    let mut i: usize = 0;
    while i < toks.len()
        invariant
            0 <= i <= toks.len(),
            ts == views(toks@),
            ts == ws_tokens(line@, seq![], seq![]),
            forall|j: int| 0 <= j < i ==> explicit_constraint(#[trigger] ts[j]) && constraint_spec(ts[j]) is Ok,
            forall|j: int| 0 <= j < i ==> constraint_spec(#[trigger] ts[j]) == Ok::<(Seq<char>, MatcherV), CfErrorView>(
                constraint_views(out@)[j],
            ),
            out@.len() == i,
        decreases toks.len() - i,
    {
        proof {
            assert(ts[i as int] == toks@[i as int]@);
        }
        if !looks_like_explicit_feature_constraint(toks[i].as_str()) {
            proof {
                lemma_continuation_none(ts, i as int);
            }
            return Ok(None);
        }
        match parse_constraint(toks[i].as_str()) {
            Ok(c) => {
                let ghost before = out@;
                out.push(c);
                proof {
                    assert(constraint_views(out@) =~= constraint_views(before).push(c.view_constraint()));
                }
            },
            Err(e) => {
                proof {
                    lemma_continuation_err(ts, i as int);
                }
                return Err(e);
            },
        }
        i += 1;
    }
    if out.len() == 0 {
        proof {
            assert(continuation_from(ts, 0) == Ok::<Option<Seq<(Seq<char>, MatcherV)>>, CfErrorView>(None));
        }
        Ok(None)
    } else {
        proof {
            lemma_continuation_all(ts, 0, constraint_views(out@));
            assert(constraint_views(out@).skip(0) =~= constraint_views(out@));
        }
        Ok(Some(out))
    }
}

proof fn lemma_continuation_none(ts: Seq<Seq<char>>, i: int)
    requires
        0 <= i < ts.len(),
        forall|j: int| 0 <= j < i ==> explicit_constraint(#[trigger] ts[j]) && constraint_spec(ts[j]) is Ok,
        !explicit_constraint(ts[i]),
    ensures
        continuation_from(ts, 0) == Ok::<Option<Seq<(Seq<char>, MatcherV)>>, CfErrorView>(None),
{
    lemma_continuation_none_from(ts, 0, i);
}

proof fn lemma_continuation_none_from(ts: Seq<Seq<char>>, k: int, i: int)
    requires
        0 <= k <= i < ts.len(),
        forall|j: int| 0 <= j < i ==> explicit_constraint(#[trigger] ts[j]) && constraint_spec(ts[j]) is Ok,
        !explicit_constraint(ts[i]),
    ensures
        continuation_from(ts, k) == Ok::<Option<Seq<(Seq<char>, MatcherV)>>, CfErrorView>(None),
    decreases i - k,
{
    if k < i {
        lemma_continuation_none_from(ts, k + 1, i);
        assert(explicit_constraint(ts[k]));
    }
}

proof fn lemma_continuation_err(ts: Seq<Seq<char>>, i: int)
    requires
        0 <= i < ts.len(),
        forall|j: int| 0 <= j < i ==> explicit_constraint(#[trigger] ts[j]) && constraint_spec(ts[j]) is Ok,
        explicit_constraint(ts[i]),
        constraint_spec(ts[i]) is Err,
    ensures
        continuation_from(ts, 0) == Err::<Option<Seq<(Seq<char>, MatcherV)>>, CfErrorView>(constraint_spec(ts[i])->Err_0),
{
    lemma_continuation_err_from(ts, 0, i);
}

proof fn lemma_continuation_err_from(ts: Seq<Seq<char>>, k: int, i: int)
    requires
        0 <= k <= i < ts.len(),
        forall|j: int| 0 <= j < i ==> explicit_constraint(#[trigger] ts[j]) && constraint_spec(ts[j]) is Ok,
        explicit_constraint(ts[i]),
        constraint_spec(ts[i]) is Err,
    ensures
        continuation_from(ts, k) == Err::<Option<Seq<(Seq<char>, MatcherV)>>, CfErrorView>(constraint_spec(ts[i])->Err_0),
    decreases i - k,
{
    if k < i {
        lemma_continuation_err_from(ts, k + 1, i);
        assert(explicit_constraint(ts[k]));
    }
}

proof fn lemma_continuation_all(ts: Seq<Seq<char>>, k: int, cs: Seq<(Seq<char>, MatcherV)>)
    requires
        0 <= k <= ts.len(),
        ts.len() > 0,
        cs.len() == ts.len(),
        forall|j: int| 0 <= j < ts.len() ==> explicit_constraint(#[trigger] ts[j]) && constraint_spec(ts[j]) is Ok,
        forall|j: int| 0 <= j < ts.len() ==> constraint_spec(#[trigger] ts[j]) == Ok::<(Seq<char>, MatcherV), CfErrorView>(cs[j]),
    ensures
        continuation_from(ts, k) == Ok::<Option<Seq<(Seq<char>, MatcherV)>>, CfErrorView>(Some(cs.skip(k))),
    decreases ts.len() - k,
{
    if k < ts.len() {
        lemma_continuation_all(ts, k + 1, cs);
        assert(seq![cs[k]] + cs.skip(k + 1) =~= cs.skip(k));
        assert(explicit_constraint(ts[k]));
    } else {
        assert(cs.skip(k) =~= Seq::<(Seq<char>, MatcherV)>::empty());
    }
}

// ---------------------------------------------------------------------------
// Lines
// ---------------------------------------------------------------------------

pub open spec fn strip_cr(p: Seq<char>) -> Seq<char> {
    if p.len() > 0 && p.last() == '\r' {
        p.drop_last()
    } else {
        p
    }
}

/// The lines of a text as `str::lines` gives them: split at `\n`, a `\r`
/// before the `\n` dropped, and no empty line after a final `\n`.
pub open spec fn lines_spec(s: Seq<char>) -> Seq<Seq<char>> {
    let p = crate::strs::split_spec(s, '\n');
    let n = p.len();
    Seq::new((n - 1) as nat, |i: int| strip_cr(p[i])) + if p[n - 1].len() > 0 {
        seq![p[n - 1]]
    } else {
        seq![]
    }
}

/// The lines of a text.
pub fn text_lines(s: &str) -> (r: Vec<String>)
    ensures
        views(r@) == lines_spec(s@),
{
    let parts = crate::strs::split_str(s, '\n');
    proof {
        crate::strs::lemma_split_nonempty(s@, '\n');
    }
    let ghost p = views(parts@);
    let n = parts.len();
    let mut r: Vec<String> = Vec::new();
    let mut i: usize = 0;
    while i + 1 < n
        invariant
            0 <= i <= n - 1,
            n == parts@.len(),
            n >= 1,
            p == views(parts@),
            views(r@) == Seq::new(i as nat, |j: int| strip_cr(p[j])),
        decreases n - i,
    {
        let v = to_chars(parts[i].as_str());
        let k = v.len();
        let line = if k > 0 && v[k - 1] == '\r' {
            let a = sub_chars(v.as_slice(), 0, k - 1);
            from_chars(a.as_slice())
        } else {
            copy_string(&parts[i])
        };
        let ghost before = r@;
        r.push(line);
        proof {
            assert(p[i as int] == parts@[i as int]@);
            assert(line@ =~= strip_cr(p[i as int]));
            assert(views(r@) =~= views(before).push(line@));
            assert(views(r@) =~= Seq::new((i + 1) as nat, |j: int| strip_cr(p[j])));
        }
        i += 1;
    }
    let ghost front = views(r@);
    if to_chars(parts[n - 1].as_str()).len() > 0 {
        let last = copy_string(&parts[n - 1]);
        r.push(last);
        proof {
            assert(p[n - 1] == parts@[n - 1]@);
            assert(views(r@) =~= front + seq![p[n - 1]]);
        }
    } else {
        proof {
            assert(front + Seq::<Seq<char>>::empty() =~= front);
        }
    }
    r
}

// ---------------------------------------------------------------------------
// Query plans
// ---------------------------------------------------------------------------

/// One atom of a template: its indentation, the operator that relates it to
/// its parent, its name, node type, and constraints.
#[derive(Debug)]
pub struct QueryAtom {
    pub indent: usize,
    pub operator: Option<RelationOperator>,
    pub name: Option<String>,
    pub node_type: String,
    pub constraints: Vec<Constraint>,
}

/// A relation line between two named atoms.
#[derive(Debug)]
pub struct Relation {
    pub left: String,
    pub operator: RelationOperator,
    pub right: String,
}

/// The atoms of a template, the atom each name refers to, and the relations.
#[derive(Debug)]
pub struct QueryPlan {
    pub atoms: Vec<QueryAtom>,
    pub names: Vec<(String, usize)>,
    pub relations: Vec<Relation>,
}

pub struct AtomV {
    pub indent: nat,
    pub operator: Option<RelOpV>,
    pub name: Option<Seq<char>>,
    pub node_type: Seq<char>,
    pub constraints: Seq<(Seq<char>, MatcherV)>,
}

pub struct RelationV {
    pub left: Seq<char>,
    pub operator: RelOpV,
    pub right: Seq<char>,
}

pub struct PlanV {
    pub atoms: Seq<AtomV>,
    pub names: Map<Seq<char>, nat>,
    pub relations: Seq<RelationV>,
}

pub open spec fn opt_op(o: Option<RelationOperator>) -> Option<RelOpV> {
    match o {
        Some(x) => Some(x.view_op()),
        None => None,
    }
}

pub open spec fn atom_view(a: QueryAtom) -> AtomV {
    AtomV {
        indent: a.indent as nat,
        operator: opt_op(a.operator),
        name: match a.name {
            Some(n) => Some(n@),
            None => None,
        },
        node_type: a.node_type@,
        constraints: constraint_views(a.constraints@),
    }
}

/// The names of a plan as a map.
pub open spec fn names_map(v: Seq<(String, usize)>) -> Map<Seq<char>, nat> {
    Map::new(
        |k: Seq<char>| crate::explore::entry_of(v, k) is Some,
        |k: Seq<char>| crate::explore::entry_of(v, k)->0 as nat,
    )
}

pub open spec fn plan_view(p: QueryPlan) -> PlanV {
    PlanV {
        atoms: p.atoms@.map_values(|a: QueryAtom| atom_view(a)),
        names: names_map(p.names@),
        relations: p.relations@.map_values(|r: Relation| RelationV { left: r.left@, operator: r.operator.view_op(), right: r.right@ }),
    }
}

pub open spec fn empty_plan() -> PlanV {
    PlanV { atoms: seq![], names: Map::empty(), relations: seq![] }
}

/// The constraints of the tokens, or the first error among them.
pub open spec fn constraints_spec(parts: Seq<Seq<char>>) -> Result<Seq<(Seq<char>, MatcherV)>, CfErrorView>
    decreases parts.len(),
{
    if parts.len() == 0 {
        Ok(seq![])
    } else {
        match constraint_spec(parts[0]) {
            Err(e) => Err(e),
            Ok(c) => match constraints_spec(parts.drop_first()) {
                Ok(rest) => Ok(seq![c] + rest),
                Err(e) => Err(e),
            },
        }
    }
}

/// The name under which a reference to an earlier atom is recorded.
pub open spec fn ref_name(n: nat) -> Seq<char> {
    seq!['\0', 'r', 'e', 'f'] + crate::strs::dec_nat(n)
}

/// A line that says nothing: blank, or a comment starting with `%`.
pub open spec fn quiet_line(raw: Seq<char>) -> bool {
    crate::strs::trim_spec(raw).len() == 0 || crate::strs::trim_start_spec(raw)[0] == '%'
}

/// The atom part of an atom line: an optional leading operator, the atom
/// token, and the constraint tokens after it; an operator alone is an error.
pub open spec fn atom_parts(parts: Seq<Seq<char>>) -> Result<(Option<RelOpV>, Seq<char>, Seq<Seq<char>>), CfErrorView> {
    if relop_spec(parts[0]) is Some {
        if parts.len() < 2 {
            Err(CfErrorView::InvalidQuery("missing atom after operator "@ + crate::strs::debug_text(parts[0])))
        } else {
            Ok((relop_spec(parts[0]), parts[1], parts.skip(2)))
        }
    } else {
        Ok((None, parts[0], parts.skip(1)))
    }
}

/// The effect of one template line on the plan and on the operator waiting
/// for the next atom.
pub open spec fn query_step(plan: PlanV, pending: Option<RelOpV>, raw: Seq<char>) -> Result<(PlanV, Option<RelOpV>), CfErrorView> {
    let line = crate::strs::trim_spec(raw);
    let parts = ws_tokens(line, seq![], seq![]);
    if quiet_line(raw) {
        Ok((plan, pending))
    } else if relop_spec(line) is Some {
        Ok((plan, relop_spec(line)))
    } else if parts.len() == 3 && relop_spec(parts[1]) is Some {
        Ok((PlanV { relations: plan.relations.push(RelationV { left: parts[0], operator: relop_spec(parts[1])->0, right: parts[2] }), ..plan }, pending))
    } else if pending is None && plan.atoms.len() > 0 && continuation_spec(line) != Ok::<Option<Seq<(Seq<char>, MatcherV)>>, CfErrorView>(None) {
        match continuation_spec(line) {
            Err(e) => Err(e),
            Ok(cs) => {
                let last = plan.atoms.last();
                let a = AtomV { constraints: last.constraints + cs->0, ..last };
                Ok((PlanV { atoms: plan.atoms.update(plan.atoms.len() - 1, a), ..plan }, pending))
            },
        }
    } else if parts.len() == 0 {
        Ok((plan, pending))
    } else {
        match atom_parts(parts) {
            Err(e) => Err(e),
            Ok(ap) => {
                let operator = if ap.0 is Some { ap.0 } else { pending };
                let left_pending = if ap.0 is Some { pending } else { None };
                let indent = crate::strs::lead_ws(raw);
                match constraints_spec(ap.2) {
                    Err(e) => Err(e),
                    Ok(cs) => if plan.names.dom().contains(ap.1) {
                        let n = plan.atoms.len();
                        let rn = ref_name(n);
                        let a = AtomV { indent, operator, name: Some(rn), node_type: plan.atoms[plan.names[ap.1] as int].node_type, constraints: cs };
                        Ok((PlanV {
                            atoms: plan.atoms.push(a),
                            names: plan.names.insert(rn, n),
                            relations: plan.relations.push(RelationV { left: rn, operator: RelOpV::Equal, right: ap.1 }),
                        }, left_pending))
                    } else {
                        let n = plan.atoms.len();
                        let nt = match split_once_spec(ap.1, ':') { Some(q) => q.1, None => ap.1 };
                        let name = match split_once_spec(ap.1, ':') { Some(q) => Some(q.0), None => None };
                        let a = AtomV { indent, operator, name, node_type: nt, constraints: cs };
                        Ok((PlanV {
                            atoms: plan.atoms.push(a),
                            names: match name { Some(m) => plan.names.insert(m, n), None => plan.names },
                            ..plan
                        }, left_pending))
                    },
                }
            },
        }
    }
}

/// The plan of the lines, read in order; the first failing line gives the error.
pub open spec fn query_fold(lines: Seq<Seq<char>>) -> Result<(PlanV, Option<RelOpV>), CfErrorView>
    decreases lines.len(),
{
    if lines.len() == 0 {
        Ok((empty_plan(), None))
    } else {
        match query_fold(lines.drop_last()) {
            Err(e) => Err(e),
            Ok(st) => query_step(st.0, st.1, lines.last()),
        }
    }
}

/// The plan of a search template.
pub open spec fn query_spec(template: Seq<char>) -> Result<PlanV, CfErrorView> {
    match query_fold(lines_spec(template)) {
        Ok(st) => Ok(st.0),
        Err(e) => Err(e),
    }
}

/// Sets the entry of `key` to `val`, keeping keys unique.
fn set_name(names: &mut Vec<(String, usize)>, key: String, val: usize)
    requires
        forall|i: int, j: int| 0 <= i < j < old(names)@.len() ==> old(names)@[i].0@ != old(names)@[j].0@,
    ensures
        forall|i: int, j: int| 0 <= i < j < final(names)@.len() ==> final(names)@[i].0@ != final(names)@[j].0@,
        names_map(final(names)@) == names_map(old(names)@).insert(key@, val as nat),
{
    let mut i: usize = 0;
    while i < names.len()
        invariant
            0 <= i <= names@.len(),
            names@ == old(names)@,
            forall|a: int, b: int| 0 <= a < b < names@.len() ==> names@[a].0@ != names@[b].0@,
            forall|j: int| 0 <= j < i ==> names@[j].0@ != key@,
        decreases names@.len() - i,
    {
        if str_eq(names[i].0.as_str(), key.as_str()) {
            let ghost before = names@;
            let ghost k = key@;
            assert(k == before[i as int].0@);
            names.set(i, (key, val));
            proof {
                crate::explore::lemma_entry_update(before, i as int, names@[i as int], k);
                assert(names_map(names@) =~= names_map(before).insert(k, val as nat));
                assert forall|a: int, b: int| 0 <= a < b < names@.len() implies names@[a].0@ != names@[b].0@ by {
                    assert(names@[a].0@ == before[a].0@ && names@[b].0@ == before[b].0@);
                }
            }
            return;
        }
        i += 1;
    }
    let ghost before = names@;
    let ghost k = key@;
    names.push((key, val));
    proof {
        crate::explore::lemma_entry_push(before, names@[before.len() as int], k);
        assert(names_map(names@) =~= names_map(before).insert(k, val as nat));
    }
}

fn get_name(names: &Vec<(String, usize)>, key: &str) -> (r: Option<usize>)
    ensures
        match r {
            Some(i) => names_map(names@).dom().contains(key@) && names_map(names@)[key@] == i as nat,
            None => !names_map(names@).dom().contains(key@),
        },
{
    let mut i: usize = 0;
    proof {
        assert(names@.skip(0) =~= names@);
    }
    while i < names.len()
        invariant
            0 <= i <= names@.len(),
            crate::explore::entry_of(names@, key@) == crate::explore::entry_of(names@.skip(i as int), key@),
        decreases names@.len() - i,
    {
        proof {
            assert(names@.skip(i as int).drop_first() =~= names@.skip(i + 1));
        }
        if str_eq(names[i].0.as_str(), key) {
            return Some(names[i].1);
        }
        i += 1;
    }
    None
}

fn parse_constraints(parts: &Vec<String>, from: usize) -> (r: Result<Vec<Constraint>, CfError>)
    requires
        from <= parts@.len(),
    ensures
        match r {
            Ok(v) => constraints_spec(views(parts@).skip(from as int)) == Ok::<Seq<(Seq<char>, MatcherV)>, CfErrorView>(constraint_views(v@)),
            Err(e) => constraints_spec(views(parts@).skip(from as int)) == Err::<Seq<(Seq<char>, MatcherV)>, CfErrorView>(e@),
        },
    decreases parts@.len() - from,
{
    if from == parts.len() {
        proof {
            assert(views(parts@).skip(from as int) =~= Seq::<Seq<char>>::empty());
        }
        let v: Vec<Constraint> = Vec::new();
        proof {
            assert(constraint_views(v@) =~= Seq::<(Seq<char>, MatcherV)>::empty());
        }
        return Ok(v);
    }
    proof {
        assert(views(parts@).skip(from as int)[0] == parts@[from as int]@);
        assert(views(parts@).skip(from as int).drop_first() =~= views(parts@).skip(from + 1));
    }
    let c = parse_constraint(parts[from].as_str())?;
    let rest = parse_constraints(parts, from + 1)?;
    let mut v: Vec<Constraint> = Vec::new();
    v.push(c);
    let mut rest = rest;
    let ghost rv = constraint_views(rest@);
    v.append(&mut rest);
    proof {
        assert(constraint_views(v@) =~= seq![c.view_constraint()] + rv);
    }
    Ok(v)
}

/// The plan so far well-formed: names unique, each naming an atom.
pub open spec fn plan_ok(p: QueryPlan) -> bool {
    &&& forall|i: int, j: int| 0 <= i < j < p.names@.len() ==> p.names@[i].0@ != p.names@[j].0@
    &&& forall|i: int| 0 <= i < p.names@.len() ==> (#[trigger] p.names@[i]).1 < p.atoms@.len()
}

proof fn lemma_names_in_range(p: QueryPlan, k: Seq<char>)
    requires
        plan_ok(p),
        names_map(p.names@).dom().contains(k),
    ensures
        names_map(p.names@)[k] < p.atoms@.len(),
{
    lemma_entry_in(p.names@, k, p.atoms@.len());
}

proof fn lemma_entry_in(s: Seq<(String, usize)>, k: Seq<char>, bound: nat)
    requires
        forall|i: int| 0 <= i < s.len() ==> (#[trigger] s[i]).1 < bound,
        crate::explore::entry_of(s, k) is Some,
    ensures
        crate::explore::entry_of(s, k)->0 < bound,
    decreases s.len(),
{
    if s[0].0@ != k {
        assert forall|i: int| 0 <= i < s.drop_first().len() implies (#[trigger] s.drop_first()[i]).1 < bound by {
            assert(s.drop_first()[i] == s[i + 1]);
        }
        lemma_entry_in(s.drop_first(), k, bound);
    }
}

fn copy_constraint_list(v: Vec<Constraint>) -> (r: Vec<Constraint>)
    ensures
        constraint_views(r@) == constraint_views(v@),
{
    v
}

/// Applies one template line to the plan being built.
fn apply_line(plan: &mut QueryPlan, pending: &mut Option<RelationOperator>, raw: &str) -> (r: Result<(), CfError>)
    requires
        plan_ok(*old(plan)),
    ensures
        match r {
            Ok(_) => plan_ok(*final(plan)) && query_step(plan_view(*old(plan)), opt_op(*old(pending)), raw@)
                == Ok::<(PlanV, Option<RelOpV>), CfErrorView>((plan_view(*final(plan)), opt_op(*final(pending)))),
            Err(e) => query_step(plan_view(*old(plan)), opt_op(*old(pending)), raw@) == Err::<(PlanV, Option<RelOpV>), CfErrorView>(e@),
        },
{
    let ghost pv0 = plan_view(*plan);
    let ghost pend0 = opt_op(*pending);
    let v = to_chars(raw);
    let t = crate::strs::trim_vec(v.as_slice());
    if t.len() == 0 {
        return Ok(());
    }
    let ts = crate::strs::trim_start_vec(v.as_slice());
    proof {
        assert(crate::strs::trim_spec(raw@) == crate::strs::trim_end_spec(crate::strs::trim_start_spec(raw@)));
        assert(ts@.len() > 0) by {
            if ts@.len() == 0 {
                assert(crate::strs::trim_end_spec(ts@) =~= Seq::<char>::empty());
            }
        }
    }
    if ts[0] == '%' {
        return Ok(());
    }
    let indent = crate::strs::count_lead_ws(v.as_slice());
    let line = from_chars(t.as_slice());
    if let Some(op) = parse_atom_operator(line.as_str()) {
        *pending = Some(op);
        return Ok(());
    }
    let parts = split_query_whitespace(line.as_str());
    proof {
        assert(views(parts@).len() == parts@.len());
    }
    if parts.len() == 3 {
        proof {
            assert(views(parts@)[1] == parts@[1]@);
        }
        if let Some(op) = parse_relation_operator(parts[1].as_str()) {
            let rel = Relation { left: copy_string(&parts[0]), operator: op, right: copy_string(&parts[2]) };
            proof {
                assert(views(parts@)[0] == parts@[0]@);
                assert(views(parts@)[2] == parts@[2]@);
            }
            plan.relations.push(rel);
            proof {
                assert(plan_view(*plan).relations =~= pv0.relations.push(RelationV { left: rel.left@, operator: rel.operator.view_op(), right: rel.right@ }));
                assert(plan_view(*plan).atoms =~= pv0.atoms);
            }
            return Ok(());
        }
    }
    if pending.is_none() && plan.atoms.len() > 0 {
        match parse_feature_continuation_line(line.as_str()) {
            Err(e) => {
                return Err(e);
            },
            Ok(Some(cs)) => {
                let ghost n0 = plan.atoms@.len();
                let mut a = plan.atoms.pop().unwrap();
                let ghost a0 = atom_view(a);
                let mut cs = cs;
                let ghost cv = constraint_views(cs@);
                let ghost ac0 = a.constraints@;
                a.constraints.append(&mut cs);
                proof {
                    assert(constraint_views(a.constraints@) =~= constraint_views(ac0) + cv);
                }
                plan.atoms.push(a);
                proof {
                    assert(plan_view(*plan).atoms =~= pv0.atoms.update(n0 - 1, AtomV { constraints: a0.constraints + cv, ..a0 }));
                    assert(plan_view(*plan).relations =~= pv0.relations);
                }
                return Ok(());
            },
            Ok(None) => {},
        }
    }
    if parts.len() == 0 {
        return Ok(());
    }
    proof {
        assert(views(parts@)[0] == parts@[0]@);
    }
    let (op, first_index): (Option<RelationOperator>, usize) = match parse_atom_operator(parts[0].as_str()) {
        Some(o) => {
            if parts.len() < 2 {
                let mut m = owned("missing atom after operator ");
                let q = crate::strs::debug_quoted(parts[0].as_str());
                crate::strs::push_str(&mut m, q.as_str());
                return Err(CfError::InvalidQuery(m));
            }
            (Some(o), 1)
        },
        None => (None, 0),
    };
    proof {
        assert(views(parts@)[first_index as int] == parts@[first_index as int]@);
        assert(views(parts@).skip(first_index + 1) =~= views(parts@).skip(first_index + 1));
    }
    let constraints = parse_constraints(&parts, first_index + 1)?;
    let operator = if op.is_some() {
        op
    } else {
        pending.take()
    };
    let first = &parts[first_index];
    let n = plan.atoms.len();
    match get_name(&plan.names, first.as_str()) {
        Some(idx) => {
            proof {
                lemma_names_in_range(*plan, first@);
            }
            let node_type = copy_string(&plan.atoms[idx].node_type);
            let mut rn = owned("\0ref");
            let num = crate::strs::u64_to_string(n as u64);
            crate::strs::push_str(&mut rn, num.as_str());
            proof {
                reveal_strlit("\0ref");
                assert(rn@ =~= ref_name(n as nat));
            }
            let ghost names0 = plan.names@;
            set_name(&mut plan.names, copy_string(&rn), n);
            let rel = Relation { left: copy_string(&rn), operator: RelationOperator::Equal, right: copy_string(first) };
            let atom = QueryAtom { indent, operator, name: Some(rn), node_type, constraints };
            plan.atoms.push(atom);
            plan.relations.push(rel);
            proof {
                assert(plan_view(*plan).atoms =~= pv0.atoms.push(atom_view(atom)));
                assert(plan_view(*plan).relations =~= pv0.relations.push(RelationV { left: rel.left@, operator: RelOpV::Equal, right: rel.right@ }));
                assert forall|i: int| 0 <= i < plan.names@.len() implies (#[trigger] plan.names@[i]).1 < plan.atoms@.len() by {
                    lemma_names_bound(names0, plan.names@, rn@, n, i);
                }
            }
            Ok(())
        },
        None => {
            let (name, node_type): (Option<String>, String) = match split_once_char(first.as_str(), ':') {
                Some((a, b)) => (Some(a), b),
                None => (None, copy_string(first)),
            };
            let ghost names0 = plan.names@;
            match &name {
                Some(m) => {
                    set_name(&mut plan.names, copy_string(m), n);
                    proof {
                        assert forall|i: int| 0 <= i < plan.names@.len() implies (#[trigger] plan.names@[i]).1 < n + 1 by {
                            lemma_names_bound(names0, plan.names@, m@, n, i);
                        }
                    }
                },
                None => {},
            }
            let atom = QueryAtom { indent, operator, name, node_type, constraints };
            plan.atoms.push(atom);
            proof {
                assert(plan_view(*plan).atoms =~= pv0.atoms.push(atom_view(atom)));
                assert(plan_view(*plan).relations =~= pv0.relations);
            }
            Ok(())
        },
    }
}

proof fn lemma_names_bound(before: Seq<(String, usize)>, after: Seq<(String, usize)>, k: Seq<char>, n: usize, i: int)
    requires
        forall|j: int| 0 <= j < before.len() ==> (#[trigger] before[j]).1 < n,
        forall|a: int, b: int| 0 <= a < b < after.len() ==> after[a].0@ != after[b].0@,
        names_map(after) == names_map(before).insert(k, n as nat),
        0 <= i < after.len(),
    ensures
        after[i].1 <= n,
{
    let key = after[i].0@;
    lemma_entry_first(after, i);
    assert(names_map(after).dom().contains(key));
    assert(names_map(after)[key] == after[i].1 as nat);
    if key != k {
        assert(names_map(before).dom().contains(key));
        assert(names_map(before)[key] == names_map(after)[key]);
        lemma_entry_in(before, key, n as nat);
    } else {
        assert(names_map(after)[key] == n as nat);
    }
}

proof fn lemma_entry_first(s: Seq<(String, usize)>, i: int)
    requires
        forall|a: int, b: int| 0 <= a < b < s.len() ==> s[a].0@ != s[b].0@,
        0 <= i < s.len(),
    ensures
        crate::explore::entry_of(s, s[i].0@) == Some(s[i].1),
    decreases i,
{
    if i > 0 {
        assert forall|a: int, b: int| 0 <= a < b < s.drop_first().len() implies s.drop_first()[a].0@ != s.drop_first()[b].0@ by {
            assert(s.drop_first()[a] == s[a + 1] && s.drop_first()[b] == s[b + 1]);
        }
        lemma_entry_first(s.drop_first(), i - 1);
        assert(s[0].0@ != s[i].0@);
    }
}

/// Reads a search template into its plan: atoms with their constraints,
/// names, and relations, line by line; the first line that does not read
/// gives the error.
pub fn parse_query(template: &str) -> (r: Result<QueryPlan, CfError>)
    ensures
        match r {
            Ok(p) => query_spec(template@) == Ok::<PlanV, CfErrorView>(plan_view(p)),
            Err(e) => query_spec(template@) == Err::<PlanV, CfErrorView>(e@),
        },
{
    let lines = text_lines(template);
    let ghost ls = views(lines@);
    let mut plan = QueryPlan { atoms: Vec::new(), names: Vec::new(), relations: Vec::new() };
    let mut pending: Option<RelationOperator> = None;
    proof {
        assert(plan_view(plan).atoms =~= Seq::<AtomV>::empty());
        assert(plan_view(plan).relations =~= Seq::<RelationV>::empty());
        assert(plan_view(plan).names =~= Map::<Seq<char>, nat>::empty());
        assert(ls.take(0) =~= Seq::<Seq<char>>::empty());
    }
    let mut i: usize = 0;
    while i < lines.len()
        invariant
            0 <= i <= lines.len(),
            ls == views(lines@),
            ls == lines_spec(template@),
            plan_ok(plan),
            query_fold(ls.take(i as int)) == Ok::<(PlanV, Option<RelOpV>), CfErrorView>((plan_view(plan), opt_op(pending))),
        decreases lines.len() - i,
    {
        proof {
            assert(ls.take(i + 1).drop_last() =~= ls.take(i as int));
            assert(ls.take(i + 1).last() == lines@[i as int]@);
        }
        match apply_line(&mut plan, &mut pending, lines[i].as_str()) {
            Ok(()) => {},
            Err(e) => {
                proof {
                    lemma_fold_err(ls, i as int, e@);
                }
                return Err(e);
            },
        }
        i += 1;
    }
    proof {
        assert(ls.take(ls.len() as int) =~= ls);
    }
    Ok(plan)
}

proof fn lemma_fold_err(ls: Seq<Seq<char>>, i: int, e: CfErrorView)
    requires
        0 <= i < ls.len(),
        query_fold(ls.take(i + 1)) == Err::<(PlanV, Option<RelOpV>), CfErrorView>(e),
    ensures
        query_fold(ls) == Err::<(PlanV, Option<RelOpV>), CfErrorView>(e),
    decreases ls.len() - i,
{
    if i + 1 < ls.len() {
        assert(ls.take(i + 2).drop_last() =~= ls.take(i + 1));
        lemma_fold_err(ls, i + 1, e);
    } else {
        assert(ls.take(i + 1) =~= ls);
    }
}

// ---------------------------------------------------------------------------
// Quantified templates
// ---------------------------------------------------------------------------

/// How the alternatives of a quantifier block must match.
#[derive(Debug, Clone, Copy, PartialEq, Eq, Structural)]
pub enum QuantifierKind {
    With,
    Without,
}

/// A quantifier block: its kind and the templates of its alternatives.
#[derive(Debug)]
pub struct QuantifierBlock {
    pub kind: QuantifierKind,
    pub alternatives: Vec<String>,
}

/// A template split into its base and its quantifier blocks.
#[derive(Debug)]
pub struct QuantifiedTemplate {
    pub base: String,
    pub blocks: Vec<QuantifierBlock>,
}

pub open spec fn newline() -> Seq<char> {
    seq!['\n']
}

/// A line with nothing but whitespace.
pub open spec fn blank(l: Seq<char>) -> bool {
    crate::strs::trim_spec(l).len() == 0
}

/// The smallest indentation among the lines that are not blank, `fallback` for none.
pub open spec fn min_indent(lines: Seq<Seq<char>>, fallback: nat) -> nat
    decreases lines.len(),
{
    if lines.len() == 0 {
        fallback
    } else {
        let rest = min_indent(lines.drop_first(), fallback);
        let here = crate::strs::lead_ws(lines[0]);
        if blank(lines[0]) {
            rest
        } else if min_indent(lines.drop_first(), here) < here {
            min_indent(lines.drop_first(), here)
        } else {
            here
        }
    }
}

/// The indentation of the lines that are not blank, if there is one.
pub open spec fn common_indent(lines: Seq<Seq<char>>) -> nat
    decreases lines.len(),
{
    common_indent_from(lines, None)
}

pub open spec fn common_indent_from(lines: Seq<Seq<char>>, acc: Option<nat>) -> nat
    decreases lines.len(),
{
    if lines.len() == 0 {
        match acc {
            Some(m) => m,
            None => 0,
        }
    } else {
        let here = crate::strs::lead_ws(lines[0]);
        let next = if blank(lines[0]) {
            acc
        } else {
            match acc {
                Some(m) => if here < m { Some(here) } else { Some(m) },
                None => Some(here),
            }
        };
        common_indent_from(lines.drop_first(), next)
    }
}

/// The lines with their common indentation removed, joined by newlines.
pub open spec fn dedent_spec(lines: Seq<Seq<char>>) -> Seq<char> {
    let m = common_indent(lines);
    crate::strs::join_spec(
        lines.map_values(|l: Seq<char>| if l.len() >= m { l.skip(m as int) } else { l }),
        newline(),
    )
}

/// A relation line that only repeats that an alternative lies in its parent.
pub open spec fn redundant_parent_relation(line: Seq<char>) -> bool {
    let parts = ws_tokens(line, seq![], seq![]);
    parts.len() == 3 && ((parts[0] == ".."@ && parts[1] == "[["@) || (parts[1] == "]]"@ && parts[2] == ".."@))
}

/// The template without its redundant parent relations.
pub open spec fn drop_parent_relations_spec(t: Seq<char>) -> Seq<char> {
    crate::strs::join_spec(
        lines_spec(t).filter(|l: Seq<char>| !redundant_parent_relation(crate::strs::trim_spec(l))),
        newline(),
    )
}

/// The alternatives with the lines of one more alternative added, unless they are all blank.
pub open spec fn push_alternative_spec(alts: Seq<Seq<char>>, lines: Seq<Seq<char>>) -> Seq<Seq<char>> {
    if exists|i: int| 0 <= i < lines.len() && !blank(#[trigger] lines[i]) {
        alts.push(drop_parent_relations_spec(dedent_spec(lines)))
    } else {
        alts
    }
}

/// The state of reading a quantified template: base lines, finished blocks,
/// the open block's kind, lines and alternatives, and the nesting depth.
pub struct QtState {
    pub base: Seq<Seq<char>>,
    pub blocks: Seq<(QuantifierKind, Seq<Seq<char>>)>,
    pub kind: Option<QuantifierKind>,
    pub lines: Seq<Seq<char>>,
    pub alts: Seq<Seq<char>>,
    pub depth: nat,
}

pub open spec fn qt_step(s: QtState, line: Seq<char>) -> Result<QtState, CfErrorView> {
    let token = crate::strs::trim_spec(line);
    if token == "/where/"@ || token == "/with/"@ || token == "/without/"@ {
        if s.kind is Some {
            Ok(QtState { depth: s.depth + 1, lines: s.lines.push(line), ..s })
        } else {
            Ok(QtState { kind: Some(if token == "/without/"@ { QuantifierKind::Without } else { QuantifierKind::With }), ..s })
        }
    } else if token == "/have/"@ {
        if s.depth > 0 {
            Ok(QtState { lines: s.lines.push(line), ..s })
        } else if s.kind is None {
            Err(CfErrorView::InvalidQuery("quantifier continuation without quantifier"@))
        } else if s.kind != Some(QuantifierKind::With) {
            Err(CfErrorView::InvalidQuery("/have/ is only supported after /where/ or /with/"@))
        } else {
            Ok(QtState {
                blocks: s.blocks.push((QuantifierKind::With, push_alternative_spec(s.alts, s.lines))),
                alts: seq![],
                lines: seq![],
                kind: Some(QuantifierKind::With),
                ..s
            })
        }
    } else if token == "/or/"@ {
        if s.depth > 0 {
            Ok(QtState { lines: s.lines.push(line), ..s })
        } else if s.kind is None {
            Err(CfErrorView::InvalidQuery("quantifier alternative without quantifier"@))
        } else {
            Ok(QtState { alts: push_alternative_spec(s.alts, s.lines), lines: seq![], ..s })
        }
    } else if token == "/-/"@ {
        if s.depth > 0 {
            Ok(QtState { depth: (s.depth - 1) as nat, lines: s.lines.push(line), ..s })
        } else if s.kind is None {
            Err(CfErrorView::InvalidQuery("quantifier terminator without quantifier"@))
        } else {
            Ok(QtState {
                blocks: s.blocks.push((s.kind->0, push_alternative_spec(s.alts, s.lines))),
                alts: seq![],
                lines: seq![],
                kind: None,
                ..s
            })
        }
    } else if s.kind is Some {
        Ok(QtState { lines: s.lines.push(line), ..s })
    } else {
        Ok(QtState { base: s.base.push(line), ..s })
    }
}

pub open spec fn qt_fold(lines: Seq<Seq<char>>) -> Result<QtState, CfErrorView>
    decreases lines.len(),
{
    if lines.len() == 0 {
        Ok(QtState { base: seq![], blocks: seq![], kind: None, lines: seq![], alts: seq![], depth: 0 })
    } else {
        match qt_fold(lines.drop_last()) {
            Err(e) => Err(e),
            Ok(s) => qt_step(s, lines.last()),
        }
    }
}

/// A template read into its base (the lines outside quantifier blocks) and its
/// blocks, each with the templates of its alternatives; a misplaced or
/// unterminated quantifier is an error.
pub open spec fn quantified_spec(t: Seq<char>) -> Result<(Seq<char>, Seq<(QuantifierKind, Seq<Seq<char>>)>), CfErrorView> {
    match qt_fold(lines_spec(t)) {
        Err(e) => Err(e),
        Ok(s) => if s.kind is Some || s.depth > 0 {
            Err(CfErrorView::InvalidQuery("unterminated quantified block"@))
        } else {
            Ok((crate::strs::join_spec(s.base, newline()), s.blocks))
        },
    }
}

pub open spec fn blocks_view(b: Seq<QuantifierBlock>) -> Seq<(QuantifierKind, Seq<Seq<char>>)> {
    b.map_values(|x: QuantifierBlock| (x.kind, views(x.alternatives@)))
}

fn copy_strings_vec(v: &Vec<String>) -> (r: Vec<String>)
    ensures
        views(r@) == views(v@),
{
    let mut r: Vec<String> = Vec::new();
    let mut i: usize = 0;
    while i < v.len()
        invariant
            0 <= i <= v.len(),
            views(r@) == views(v@.take(i as int)),
        decreases v.len() - i,
    {
        let ghost before = r@;
        r.push(copy_string(&v[i]));
        proof {
            assert(views(r@) =~= views(before).push(v@[i as int]@));
            assert(views(v@.take(i + 1)) =~= views(v@.take(i as int)).push(v@[i as int]@));
        }
        i += 1;
    }
    proof {
        assert(v@.take(v@.len() as int) == v@);
    }
    r
}

fn is_blank(l: &str) -> (r: bool)
    ensures
        r == blank(l@),
{
    crate::strs::trim_str(l);
    let t = crate::strs::trim_str(l);
    to_chars(t.as_str()).len() == 0
}

/// The lines with their common indentation removed, joined by newlines.
pub fn normalize_indentation(lines: &Vec<String>) -> (r: String)
    ensures
        r@ == dedent_spec(views(lines@)),
{
    let ghost ls = views(lines@);
    let mut acc: Option<usize> = None;
    let mut i: usize = 0;
    proof {
        assert(ls.skip(0) =~= ls);
    }
    while i < lines.len()
        invariant
            0 <= i <= lines.len(),
            ls == views(lines@),
            common_indent(ls) == common_indent_from(ls.skip(i as int), match acc { Some(m) => Some(m as nat), None => None }),
        decreases lines.len() - i,
    {
        let ghost rest = ls.skip(i as int);
        proof {
            assert(rest[0] == lines@[i as int]@);
            assert(rest.drop_first() =~= ls.skip(i + 1));
        }
        if !is_blank(lines[i].as_str()) {
            let v = to_chars(lines[i].as_str());
            let here = crate::strs::count_lead_ws(v.as_slice());
            acc = match acc {
                Some(m) => if here < m { Some(here) } else { Some(m) },
                None => Some(here),
            };
        }
        i += 1;
    }
    let m: usize = match acc {
        Some(m) => m,
        None => 0,
    };
    proof {
        assert(ls.skip(i as int) =~= Seq::<Seq<char>>::empty());
    }
    let mut out: Vec<String> = Vec::new();
    let mut k: usize = 0;
    while k < lines.len()
        invariant
            0 <= k <= lines.len(),
            ls == views(lines@),
            m == common_indent(ls),
            views(out@) == ls.take(k as int).map_values(|l: Seq<char>| if l.len() >= m { l.skip(m as int) } else { l }),
        decreases lines.len() - k,
    {
        let v = to_chars(lines[k].as_str());
        let line = if v.len() >= m {
            let t = sub_chars(v.as_slice(), m, v.len());
            from_chars(t.as_slice())
        } else {
            copy_string(&lines[k])
        };
        let ghost before = out@;
        out.push(line);
        proof {
            assert(ls[k as int] == lines@[k as int]@);
            assert(line@ =~= (if ls[k as int].len() >= m { ls[k as int].skip(m as int) } else { ls[k as int] }));
            assert(views(out@) =~= views(before).push(line@));
            assert(ls.take(k + 1).map_values(|l: Seq<char>| if l.len() >= m { l.skip(m as int) } else { l }) =~= ls.take(
                k as int,
            ).map_values(|l: Seq<char>| if l.len() >= m { l.skip(m as int) } else { l }).push(line@));
        }
        k += 1;
    }
    proof {
        assert(ls.take(ls.len() as int) =~= ls);
        reveal_strlit("\n");
    }
    let nl = "\n";
    assert(nl@ =~= newline());
    crate::strs::join_strings(out.as_slice(), nl)
}

fn is_token(s: &String, t: &str) -> (r: bool)
    ensures
        r == (s@ == t@),
{
    str_eq(s.as_str(), t)
}

/// Whether a line only repeats that an alternative lies in its parent.
pub fn is_redundant_parent_containment_relation(line: &str) -> (r: bool)
    ensures
        r == redundant_parent_relation(line@),
{
    let parts = split_query_whitespace(line);
    proof {
        assert(views(parts@).len() == parts@.len());
    }
    if parts.len() != 3 {
        return false;
    }
    proof {
        assert(views(parts@)[0] == parts@[0]@);
        assert(views(parts@)[1] == parts@[1]@);
        assert(views(parts@)[2] == parts@[2]@);
    }
    (is_token(&parts[0], "..") && is_token(&parts[1], "[[")) || (is_token(&parts[1], "]]") && is_token(&parts[2], ".."))
}

/// The template without the lines that only repeat parent containment.
pub fn normalize_parent_reference_relations(template: &str) -> (r: String)
    ensures
        r@ == drop_parent_relations_spec(template@),
{
    let lines = text_lines(template);
    let ghost ls = views(lines@);
    let ghost keep = |l: Seq<char>| !redundant_parent_relation(crate::strs::trim_spec(l));
    let mut kept: Vec<String> = Vec::new();
    let mut i: usize = 0;
    while i < lines.len()
        invariant
            0 <= i <= lines.len(),
            ls == views(lines@),
            keep == (|l: Seq<char>| !redundant_parent_relation(crate::strs::trim_spec(l))),
            views(kept@) == ls.take(i as int).filter(keep),
        decreases lines.len() - i,
    {
        proof {
            assert(ls.take(i + 1) =~= ls.take(i as int).push(ls[i as int]));
            ls.take(i as int).lemma_filter_push(ls[i as int], keep);
            assert(ls[i as int] == lines@[i as int]@);
        }
        let t = crate::strs::trim_str(lines[i].as_str());
        if !is_redundant_parent_containment_relation(t.as_str()) {
            let ghost before = kept@;
            let c = copy_string(&lines[i]);
            kept.push(c);
            proof {
                assert(views(kept@) =~= views(before).push(c@));
            }
        }
        i += 1;
    }
    proof {
        assert(ls.take(ls.len() as int) =~= ls);
        reveal_strlit("\n");
    }
    let nl = "\n";
    assert(nl@ =~= newline());
    crate::strs::join_strings(kept.as_slice(), nl)
}

/// Adds the lines of an alternative to the alternatives, unless they are all blank.
pub fn push_quantifier_alternative(alternatives: &mut Vec<String>, lines: &Vec<String>)
    ensures
        views(final(alternatives)@) == push_alternative_spec(views(old(alternatives)@), views(lines@)),
{
    let mut any = false;
    let mut i: usize = 0;
    while i < lines.len()
        invariant
            0 <= i <= lines.len(),
            any == exists|j: int| 0 <= j < i && !blank(#[trigger] views(lines@)[j]),
        decreases lines.len() - i,
    {
        proof {
            assert(views(lines@)[i as int] == lines@[i as int]@);
        }
        if !is_blank(lines[i].as_str()) {
            any = true;
        }
        i += 1;
    }
    if any {
        let d = normalize_indentation(lines);
        let t = normalize_parent_reference_relations(d.as_str());
        let ghost before = alternatives@;
        alternatives.push(t);
        proof {
            assert(views(alternatives@) =~= views(before).push(t@));
        }
    }
}

struct QtExec {
    base: Vec<String>,
    blocks: Vec<QuantifierBlock>,
    kind: Option<QuantifierKind>,
    lines: Vec<String>,
    alts: Vec<String>,
    depth: usize,
}

spec fn qt_view(q: QtExec) -> QtState {
    QtState {
        base: views(q.base@),
        blocks: blocks_view(q.blocks@),
        kind: q.kind,
        lines: views(q.lines@),
        alts: views(q.alts@),
        depth: q.depth as nat,
    }
}

fn qt_apply(q: &mut QtExec, line: &String) -> (r: Result<(), CfError>)
    requires
        old(q).depth < usize::MAX,
    ensures
        final(q).depth <= old(q).depth + 1,
        match r {
            Ok(_) => qt_step(qt_view(*old(q)), line@) == Ok::<QtState, CfErrorView>(qt_view(*final(q))),
            Err(e) => qt_step(qt_view(*old(q)), line@) == Err::<QtState, CfErrorView>(e@),
        },
{
    let ghost s0 = qt_view(*q);
    let token = crate::strs::trim_str(line.as_str());
    let t = token.as_str();
    if str_eq(t, "/where/") || str_eq(t, "/with/") || str_eq(t, "/without/") {
        if q.kind.is_some() {
            q.depth = q.depth + 1;
            let ghost before = q.lines@;
            let c = copy_string(line);
            q.lines.push(c);
            proof {
                assert(views(q.lines@) =~= views(before).push(c@));
                assert(qt_view(*q) =~= QtState { depth: s0.depth + 1, lines: s0.lines.push(line@), ..s0 });
            }
        } else {
            q.kind = Some(if str_eq(t, "/without/") { QuantifierKind::Without } else { QuantifierKind::With });
        }
        Ok(())
    } else if str_eq(t, "/have/") {
        if q.depth > 0 {
            let ghost before = q.lines@;
            let c = copy_string(line);
            q.lines.push(c);
            proof {
                assert(views(q.lines@) =~= views(before).push(c@));
            }
            Ok(())
        } else if q.kind.is_none() {
            Err(CfError::InvalidQuery(owned("quantifier continuation without quantifier")))
        } else if q.kind != Some(QuantifierKind::With) {
            Err(CfError::InvalidQuery(owned("/have/ is only supported after /where/ or /with/")))
        } else {
            push_quantifier_alternative(&mut q.alts, &q.lines);
            let alts = copy_strings_vec(&q.alts);
            let ghost b0 = q.blocks@;
            let blk = QuantifierBlock { kind: QuantifierKind::With, alternatives: alts };
            q.blocks.push(blk);
            q.alts = Vec::new();
            q.lines = Vec::new();
            q.kind = Some(QuantifierKind::With);
            proof {
                assert(blocks_view(q.blocks@) =~= blocks_view(b0).push((QuantifierKind::With, views(blk.alternatives@))));
                assert(views(q.alts@) =~= Seq::<Seq<char>>::empty());
                assert(views(q.lines@) =~= Seq::<Seq<char>>::empty());
            }
            Ok(())
        }
    } else if str_eq(t, "/or/") {
        if q.depth > 0 {
            let ghost before = q.lines@;
            let c = copy_string(line);
            q.lines.push(c);
            proof {
                assert(views(q.lines@) =~= views(before).push(c@));
            }
            Ok(())
        } else if q.kind.is_none() {
            Err(CfError::InvalidQuery(owned("quantifier alternative without quantifier")))
        } else {
            push_quantifier_alternative(&mut q.alts, &q.lines);
            q.lines = Vec::new();
            proof {
                assert(views(q.lines@) =~= Seq::<Seq<char>>::empty());
            }
            Ok(())
        }
    } else if str_eq(t, "/-/") {
        if q.depth > 0 {
            q.depth = q.depth - 1;
            let ghost before = q.lines@;
            let c = copy_string(line);
            q.lines.push(c);
            proof {
                assert(views(q.lines@) =~= views(before).push(c@));
            }
            Ok(())
        } else {
            match q.kind {
                None => Err(CfError::InvalidQuery(owned("quantifier terminator without quantifier"))),
                Some(kind) => {
                    push_quantifier_alternative(&mut q.alts, &q.lines);
                    let alts = copy_strings_vec(&q.alts);
                    let ghost b0 = q.blocks@;
                    let blk = QuantifierBlock { kind, alternatives: alts };
                    q.blocks.push(blk);
                    q.alts = Vec::new();
                    q.lines = Vec::new();
                    q.kind = None;
                    proof {
                        assert(blocks_view(q.blocks@) =~= blocks_view(b0).push((kind, views(blk.alternatives@))));
                        assert(views(q.alts@) =~= Seq::<Seq<char>>::empty());
                        assert(views(q.lines@) =~= Seq::<Seq<char>>::empty());
                    }
                    Ok(())
                },
            }
        }
    } else if q.kind.is_some() {
        let ghost before = q.lines@;
        let c = copy_string(line);
        q.lines.push(c);
        proof {
            assert(views(q.lines@) =~= views(before).push(c@));
        }
        Ok(())
    } else {
        let ghost before = q.base@;
        let c = copy_string(line);
        q.base.push(c);
        proof {
            assert(views(q.base@) =~= views(before).push(c@));
        }
        Ok(())
    }
}

/// Splits a template into its base and its quantifier blocks.
pub fn parse_quantified_template(template: &str) -> (r: Result<QuantifiedTemplate, CfError>)
    ensures
        match r {
            Ok(qt) => quantified_spec(template@) == Ok::<(Seq<char>, Seq<(QuantifierKind, Seq<Seq<char>>)>), CfErrorView>(
                (qt.base@, blocks_view(qt.blocks@)),
            ),
            Err(e) => quantified_spec(template@) == Err::<(Seq<char>, Seq<(QuantifierKind, Seq<Seq<char>>)>), CfErrorView>(e@),
        },
{
    let lines = text_lines(template);
    let ghost ls = views(lines@);
    let mut q = QtExec { base: Vec::new(), blocks: Vec::new(), kind: None, lines: Vec::new(), alts: Vec::new(), depth: 0 };
    proof {
        assert(views(q.base@) =~= Seq::<Seq<char>>::empty());
        assert(views(q.lines@) =~= Seq::<Seq<char>>::empty());
        assert(views(q.alts@) =~= Seq::<Seq<char>>::empty());
        assert(blocks_view(q.blocks@) =~= Seq::<(QuantifierKind, Seq<Seq<char>>)>::empty());
        assert(ls.take(0) =~= Seq::<Seq<char>>::empty());
    }
    let mut i: usize = 0;
    while i < lines.len()
        invariant
            0 <= i <= lines.len(),
            ls == views(lines@),
            ls == lines_spec(template@),
            q.depth <= i,
            qt_fold(ls.take(i as int)) == Ok::<QtState, CfErrorView>(qt_view(q)),
        decreases lines.len() - i,
    {
        proof {
            assert(ls.take(i + 1).drop_last() =~= ls.take(i as int));
            assert(ls.take(i + 1).last() == lines@[i as int]@);
        }
        match qt_apply(&mut q, &lines[i]) {
            Ok(()) => {},
            Err(e) => {
                proof {
                    lemma_qt_err(ls, i as int, e@);
                }
                return Err(e);
            },
        }
        i += 1;
    }
    proof {
        assert(ls.take(ls.len() as int) =~= ls);
    }
    if q.kind.is_some() || q.depth > 0 {
        return Err(CfError::InvalidQuery(owned("unterminated quantified block")));
    }
    proof {
        reveal_strlit("\n");
    }
    let nl = "\n";
    assert(nl@ =~= newline());
    let base = crate::strs::join_strings(q.base.as_slice(), nl);
    Ok(QuantifiedTemplate { base, blocks: q.blocks })
}

proof fn lemma_qt_err(ls: Seq<Seq<char>>, i: int, e: CfErrorView)
    requires
        0 <= i < ls.len(),
        qt_fold(ls.take(i + 1)) == Err::<QtState, CfErrorView>(e),
    ensures
        qt_fold(ls) == Err::<QtState, CfErrorView>(e),
    decreases ls.len() - i,
{
    if i + 1 < ls.len() {
        assert(ls.take(i + 2).drop_last() =~= ls.take(i + 1));
        lemma_qt_err(ls, i + 1, e);
    } else {
        assert(ls.take(i + 1) =~= ls);
    }
}

/// Whether some line of a template is a quantifier keyword.
pub open spec fn has_quantifier_token(t: Seq<char>) -> bool {
    exists|i: int| 0 <= i < lines_spec(t).len() && quantifier_word(crate::strs::trim_spec(#[trigger] lines_spec(t)[i]))
}

pub open spec fn quantifier_word(w: Seq<char>) -> bool {
    w == "/where/"@ || w == "/with/"@ || w == "/without/"@ || w == "/have/"@ || w == "/or/"@ || w == "/-/"@
}

pub fn contains_quantifier_token(template: &str) -> (r: bool)
    ensures
        r == has_quantifier_token(template@),
{
    let lines = text_lines(template);
    let ghost ls = views(lines@);
    let mut i: usize = 0;
    while i < lines.len()
        invariant
            0 <= i <= lines.len(),
            ls == views(lines@),
            ls == lines_spec(template@),
            forall|j: int| 0 <= j < i ==> !quantifier_word(crate::strs::trim_spec(#[trigger] ls[j])),
        decreases lines.len() - i,
    {
        let t = crate::strs::trim_str(lines[i].as_str());
        proof {
            assert(ls[i as int] == lines@[i as int]@);
        }
        let s = t.as_str();
        if str_eq(s, "/where/") || str_eq(s, "/with/") || str_eq(s, "/without/") || str_eq(s, "/have/") || str_eq(s, "/or/")
            || str_eq(s, "/-/") {
            return true;
        }
        i += 1;
    }
    false
}

} // verus!

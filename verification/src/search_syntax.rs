//! Line-level syntax of search templates: quantifier lines, atom lines, relation
//! lines and the feature conditions that follow a node type on an atom line.
//!
//! Every recogniser is specified over the characters of its input. Indentation is
//! the run of leading Unicode whitespace, taken by characters.

use vstd::prelude::*;
use crate::corpus_text::opt_string;
use crate::query::{split_query_whitespace, split_once_char, split_once_spec, ws_tokens};
use crate::strs::{
    all_digits, copy_string, count_lead_ws, from_chars, is_digit, is_whitespace, is_ws,
    join_spec, lead_ws, owned, parse_u32, parse_u32_spec, str_eq, sub_chars, to_chars,
    trim_end_spec, trim_end_vec, trim_spec, trim_start_spec, trim_vec, views,
};

verus! {

broadcast use vstd::string::group_string_axioms;

// ---------------------------------------------------------------------------
// Character classes
// ---------------------------------------------------------------------------

/// `char::is_ascii_alphanumeric`.
pub open spec fn ascii_alnum(c: char) -> bool {
    ||| 'a' <= c <= 'z'
    ||| 'A' <= c <= 'Z'
    ||| '0' <= c <= '9'
}

/// The characters that operators are made of.
pub open spec fn is_op_char(c: char) -> bool {
    c == '.' || c == '#' || c == '&' || c == '|' || c == '[' || c == ']' || c == '<' || c == '>'
        || c == ':' || c == '=' || c == '-'
}

/// The characters of a feature name.
pub open spec fn is_feature_char(c: char) -> bool {
    ascii_alnum(c) || c == '-' || c == '@' || c == '_'
}

/// The characters of a search name (a node or set name).
pub open spec fn is_name_char(c: char) -> bool {
    ascii_alnum(c) || c == '_' || c == '.' || c == '-'
}

/// The characters that end a node type on an atom line.
pub open spec fn is_atom_stop(c: char) -> bool {
    is_ws(c) || c == '=' || c == '#' || c == '<' || c == '>' || c == '~' || c == '*'
}

/// The characters that may not occur in a named atom's name.
pub open spec fn is_prefix_stop(c: char) -> bool {
    is_ws(c) || c == ':' || c == '=' || c == '#' || c == '<' || c == '>' || c == '~' || c == '*'
}

/// The classes of characters that the recognisers test.
#[derive(Clone, Copy, PartialEq, Eq)]
enum CharClass {
    Feature,
    Name,
    AtomStop,
    PrefixStop,
    Op,
    OpOrVisible,
    Digit,
}

spec fn in_class(c: char, k: CharClass) -> bool {
    match k {
        CharClass::Feature => is_feature_char(c),
        CharClass::Name => is_name_char(c),
        CharClass::AtomStop => is_atom_stop(c),
        CharClass::PrefixStop => is_prefix_stop(c),
        CharClass::Op => is_op_char(c),
        CharClass::OpOrVisible => is_op_char(c) || !is_ws(c),
        CharClass::Digit => is_digit(c),
    }
}

fn char_in(c: char, k: CharClass) -> (r: bool)
    ensures
        r == in_class(c, k),
{
    let alnum = ('a' <= c && c <= 'z') || ('A' <= c && c <= 'Z') || ('0' <= c && c <= '9');
    let op = c == '.' || c == '#' || c == '&' || c == '|' || c == '[' || c == ']' || c == '<'
        || c == '>' || c == ':' || c == '=' || c == '-';
    match k {
        CharClass::Feature => alnum || c == '-' || c == '@' || c == '_',
        CharClass::Name => alnum || c == '_' || c == '.' || c == '-',
        CharClass::AtomStop => is_whitespace(c) || c == '=' || c == '#' || c == '<' || c == '>'
            || c == '~' || c == '*',
        CharClass::PrefixStop => is_whitespace(c) || c == ':' || c == '=' || c == '#' || c == '<'
            || c == '>' || c == '~' || c == '*',
        CharClass::Op => op,
        CharClass::OpOrVisible => op || !is_whitespace(c),
        CharClass::Digit => '0' <= c && c <= '9',
    }
}

/// Whether every character of `v` is in class `k`.
fn all_in(v: &[char], k: CharClass) -> (r: bool)
    ensures
        r == (forall|i: int| 0 <= i < v@.len() ==> in_class(#[trigger] v@[i], k)),
{
    let mut i: usize = 0;
    while i < v.len()
        invariant
            0 <= i <= v.len(),
            forall|j: int| 0 <= j < i ==> in_class(#[trigger] v@[j], k),
        decreases v.len() - i,
    {
        if !char_in(v[i], k) {
            return false;
        }
        i += 1;
    }
    true
}

/// Whether some character of `v` is in class `k`.
fn any_in(v: &[char], k: CharClass) -> (r: bool)
    ensures
        r == (exists|i: int| 0 <= i < v@.len() && in_class(#[trigger] v@[i], k)),
{
    let mut i: usize = 0;
    while i < v.len()
        invariant
            0 <= i <= v.len(),
            forall|j: int| 0 <= j < i ==> !in_class(#[trigger] v@[j], k),
        decreases v.len() - i,
    {
        if char_in(v[i], k) {
            assert(in_class(v@[i as int], k));
            return true;
        }
        i += 1;
    }
    false
}

// ---------------------------------------------------------------------------
// Tokens
// ---------------------------------------------------------------------------

/// A feature name: letters, digits, `-`, `@` and `_`, at least one.
pub open spec fn is_feature_name_spec(s: Seq<char>) -> bool {
    s.len() > 0 && forall|i: int| 0 <= i < s.len() ==> is_feature_char(#[trigger] s[i])
}

/// A node type on an atom line: no whitespace and none of `=#<>~*`.
pub open spec fn is_atom_name_spec(s: Seq<char>) -> bool {
    s.len() > 0 && forall|i: int| 0 <= i < s.len() ==> !is_atom_stop(#[trigger] s[i])
}

/// An operator token: no whitespace, and at least one operator character.
pub open spec fn is_operator_token_spec(s: Seq<char>) -> bool {
    &&& s.len() > 0
    &&& forall|i: int| 0 <= i < s.len() ==> (is_op_char(#[trigger] s[i]) || !is_ws(s[i]))
    &&& exists|i: int| 0 <= i < s.len() && is_op_char(#[trigger] s[i])
}

/// A search name: letters, digits, `_`, `.` and `-`, at least one.
pub open spec fn is_search_name_spec(s: Seq<char>) -> bool {
    s.len() > 0 && forall|i: int| 0 <= i < s.len() ==> is_name_char(#[trigger] s[i])
}

/// A whole number: an optional `-`, then at least one decimal digit.
pub open spec fn is_search_number_spec(s: Seq<char>) -> bool {
    let d = if s.len() > 0 && s[0] == '-' {
        s.drop_first()
    } else {
        s
    };
    d.len() > 0 && all_digits(d)
}

fn is_feature_name(s: &str) -> (r: bool)
    ensures
        r == is_feature_name_spec(s@),
{
    let v = to_chars(s);
    v.len() > 0 && all_in(v.as_slice(), CharClass::Feature)
}

fn is_atom_name_token(s: &str) -> (r: bool)
    ensures
        r == is_atom_name_spec(s@),
{
    let v = to_chars(s);
    let stop = any_in(v.as_slice(), CharClass::AtomStop);
    proof {
        if !stop {
            assert forall|i: int| 0 <= i < s@.len() implies !is_atom_stop(#[trigger] s@[i]) by {
                if is_atom_stop(s@[i]) {
                    assert(in_class(v@[i], CharClass::AtomStop));
                }
            }
        } else {
            let i = choose|i: int| 0 <= i < v@.len() && in_class(#[trigger] v@[i], CharClass::AtomStop);
            assert(is_atom_stop(s@[i]));
        }
    }
    v.len() > 0 && !stop
}

fn is_operator_token(s: &str) -> (r: bool)
    ensures
        r == is_operator_token_spec(s@),
{
    let v = to_chars(s);
    let all = all_in(v.as_slice(), CharClass::OpOrVisible);
    let any = any_in(v.as_slice(), CharClass::Op);
    proof {
        if all {
            assert forall|i: int| 0 <= i < s@.len() implies (is_op_char(#[trigger] s@[i]) || !is_ws(s@[i])) by {
                assert(in_class(v@[i], CharClass::OpOrVisible));
            }
        } else {
            let i = choose|i: int| !(0 <= i < v@.len() ==> in_class(#[trigger] v@[i], CharClass::OpOrVisible));
            assert(!(is_op_char(s@[i]) || !is_ws(s@[i])));
        }
        if any {
            let i = choose|i: int| 0 <= i < v@.len() && in_class(#[trigger] v@[i], CharClass::Op);
            assert(is_op_char(s@[i]));
        } else {
            assert forall|i: int| 0 <= i < s@.len() implies !is_op_char(#[trigger] s@[i]) by {
                if is_op_char(s@[i]) {
                    assert(in_class(v@[i], CharClass::Op));
                }
            }
        }
    }
    v.len() > 0 && all && any
}

/// Whether `value` is a search name: letters, digits, `_`, `.` and `-`, at least one.
pub fn is_search_name(value: &str) -> (r: bool)
    ensures
        r == is_search_name_spec(value@),
{
    let v = to_chars(value);
    v.len() > 0 && all_in(v.as_slice(), CharClass::Name)
}

/// Whether `value` is a whole number: an optional `-`, then decimal digits.
pub fn is_search_number(value: &str) -> (r: bool)
    ensures
        r == is_search_number_spec(value@),
{
    let v = to_chars(value);
    let start: usize = if v.len() > 0 && v[0] == '-' {
        1
    } else {
        0
    };
    let d = sub_chars(v.as_slice(), start, v.len());
    proof {
        if start == 1 {
            assert(d@ =~= value@.drop_first());
        } else {
            assert(d@ =~= value@);
        }
    }
    let ok = all_in(d.as_slice(), CharClass::Digit);
    proof {
        if ok {
            assert forall|i: int| 0 <= i < d@.len() implies is_digit(#[trigger] d@[i]) by {
                assert(in_class(d@[i], CharClass::Digit));
            }
        }
    }
    d.len() > 0 && ok
}

// ---------------------------------------------------------------------------
// Whole lines
// ---------------------------------------------------------------------------

/// A token that opens a quantifier: `/where/`, `/without/` or `/with/`.
pub open spec fn is_quantifier_init_spec(t: Seq<char>) -> bool {
    t == "/where/"@ || t == "/without/"@ || t == "/with/"@
}

/// A token that continues a quantifier: `/have/` or `/or/`.
pub open spec fn is_quantifier_continuation_spec(t: Seq<char>) -> bool {
    t == "/have/"@ || t == "/or/"@
}

/// The token that closes a quantifier: `/-/`.
pub open spec fn is_quantifier_terminator_spec(t: Seq<char>) -> bool {
    t == "/-/"@
}

/// A line that holds nothing but one quantifier token.
pub open spec fn is_quantifier_line_spec(line: Seq<char>) -> bool {
    let t = trim_spec(line);
    is_quantifier_init_spec(t) || is_quantifier_continuation_spec(t) || is_quantifier_terminator_spec(t)
}

/// A line that is blank or a comment (its first visible character is `%`).
pub open spec fn is_white_line_spec(line: Seq<char>) -> bool {
    let t = trim_start_spec(line);
    t.len() == 0 || t[0] == '%'
}

/// Whether `token` opens a quantifier.
pub fn is_quantifier_init(token: &str) -> (r: bool)
    ensures
        r == is_quantifier_init_spec(token@),
{
    str_eq(token, "/where/") || str_eq(token, "/without/") || str_eq(token, "/with/")
}

/// Whether `token` continues a quantifier.
pub fn is_quantifier_continuation(token: &str) -> (r: bool)
    ensures
        r == is_quantifier_continuation_spec(token@),
{
    str_eq(token, "/have/") || str_eq(token, "/or/")
}

/// Whether `token` closes a quantifier.
pub fn is_quantifier_terminator(token: &str) -> (r: bool)
    ensures
        r == is_quantifier_terminator_spec(token@),
{
    str_eq(token, "/-/")
}

/// Whether `line`, trimmed, is one quantifier token.
pub fn is_quantifier_line(line: &str) -> (r: bool)
    ensures
        r == is_quantifier_line_spec(line@),
{
    let v = to_chars(line);
    let t = from_chars(trim_vec(v.as_slice()).as_slice());
    let token = t.as_str();
    is_quantifier_init(token) || is_quantifier_continuation(token) || is_quantifier_terminator(
        token,
    )
}

/// Whether `line` is blank or a comment.
pub fn is_search_white_line(line: &str) -> (r: bool)
    ensures
        r == is_white_line_spec(line@),
{
    let v = to_chars(line);
    let k = count_lead_ws(v.as_slice());
    proof {
        if k < v@.len() {
            assert(trim_start_spec(line@)[0] == v@[k as int]);
        }
    }
    k == v.len() || v[k] == '%'
}

/// The leading whitespace of a line.
pub open spec fn indent_of(line: Seq<char>) -> Seq<char> {
    line.take(lead_ws(line) as int)
}

/// A line without its leading whitespace.
pub open spec fn after_indent(line: Seq<char>) -> Seq<char> {
    line.skip(lead_ws(line) as int)
}

/// The leading whitespace of `line`.
pub fn search_line_indent(line: &str) -> (r: String)
    ensures
        r@ == indent_of(line@),
{
    let v = to_chars(line);
    let k = count_lead_ws(v.as_slice());
    from_chars(sub_chars(v.as_slice(), 0, k).as_slice())
}

// ---------------------------------------------------------------------------
// Atom lines
// ---------------------------------------------------------------------------

/// The whitespace-separated tokens of a line, escapes kept.
pub open spec fn tokens(s: Seq<char>) -> Seq<Seq<char>> {
    ws_tokens(s, seq![], seq![])
}

/// The tokens from `from` on, joined with single spaces.
pub open spec fn rest_text(parts: Seq<Seq<char>>, from: int) -> Seq<char> {
    join_spec(parts.skip(from), seq![' '])
}

/// `None` for empty text.
pub open spec fn nonempty(s: Seq<char>) -> Option<Seq<char>> {
    if s.len() == 0 {
        None
    } else {
        Some(s)
    }
}

/// The parts of an atom line: indentation, node type and the feature conditions.
pub open spec fn atom_syntax_spec(line: Seq<char>) -> Option<(Seq<char>, Seq<char>, Option<Seq<char>>)> {
    let parts = tokens(trim_end_spec(after_indent(line)));
    if parts.len() == 0 || !is_atom_name_spec(parts[0]) {
        None
    } else {
        Some((indent_of(line), parts[0], nonempty(rest_text(parts, 1))))
    }
}

/// The parts of an atom line that starts with a relation operator.
pub open spec fn atom_operator_syntax_spec(line: Seq<char>) -> Option<
    (Seq<char>, Seq<char>, Seq<char>, Option<Seq<char>>),
> {
    let parts = tokens(trim_end_spec(after_indent(line)));
    if parts.len() < 2 || !is_operator_token_spec(parts[0]) || !is_atom_name_spec(parts[1]) {
        None
    } else {
        Some((indent_of(line), parts[0], parts[1], nonempty(rest_text(parts, 2))))
    }
}

/// An atom line: indentation, node type, and the conditions after it.
pub struct AtomSyntax {
    pub indent: String,
    pub node_type: String,
    pub features: Option<String>,
}

/// An atom line that starts with a relation operator to the atom before it.
pub struct AtomOperatorSyntax {
    pub indent: String,
    pub operator: String,
    pub node_type: String,
    pub features: Option<String>,
}

/// The leading whitespace of `line` and the rest of it.
fn split_indent(line: &str) -> (r: (String, Vec<char>))
    ensures
        r.0@ == indent_of(line@),
        r.1@ == after_indent(line@),
{
    let v = to_chars(line);
    let k = count_lead_ws(v.as_slice());
    let indent = from_chars(sub_chars(v.as_slice(), 0, k).as_slice());
    (indent, sub_chars(v.as_slice(), k, v.len()))
}

/// The strings of `parts` from `from` on, joined with single spaces.
fn join_from(parts: &Vec<String>, from: usize) -> (r: String)
    requires
        from <= parts.len(),
    ensures
        r@ == rest_text(views(parts@), from as int),
{
    let mut r = String::new();
    let mut i: usize = from;
    let ghost vs = views(parts@);
    while i < parts.len()
        invariant
            from <= i <= parts.len(),
            vs == views(parts@),
            r@ == join_spec(vs.subrange(from as int, i as int), seq![' ']),
        decreases parts.len() - i,
    {
        proof {
            assert(vs.subrange(from as int, i + 1).drop_last() =~= vs.subrange(from as int, i as int));
            assert(vs.subrange(from as int, i + 1).last() == parts@[i as int]@);
            if i == from {
                assert(vs.subrange(from as int, i + 1) =~= seq![parts@[i as int]@]);
            }
        }
        if i > from {
            crate::strs::push_str(&mut r, " ");
            proof {
                reveal_strlit(" ");
            }
        }
        crate::strs::push_str(&mut r, parts[i].as_str());
        i += 1;
    }
    proof {
        assert(vs.subrange(from as int, parts@.len() as int) =~= vs.skip(from as int));
    }
    r
}

/// `None` for an empty string.
fn nonempty_string(s: String) -> (r: Option<String>)
    ensures
        opt_string(r) == nonempty(s@),
{
    if to_chars(s.as_str()).len() == 0 {
        None
    } else {
        Some(s)
    }
}

/// The tokens of `v` after trailing whitespace is cut.
fn end_trimmed_tokens(v: &Vec<char>) -> (r: Vec<String>)
    ensures
        views(r@) == tokens(trim_end_spec(v@)),
{
    let t = from_chars(trim_end_vec(v.as_slice()).as_slice());
    split_query_whitespace(t.as_str())
}

/// The tokens of `s` after surrounding whitespace is cut.
fn trimmed_tokens(s: &str) -> (r: Vec<String>)
    ensures
        views(r@) == tokens(trim_spec(s@)),
{
    let v = to_chars(s);
    let t = from_chars(trim_vec(v.as_slice()).as_slice());
    split_query_whitespace(t.as_str())
}

/// Reads an atom line: indentation, a node type, and any conditions after it.
pub fn parse_atom_syntax(line: &str) -> (r: Option<AtomSyntax>)
    ensures
        match r {
            Some(a) => atom_syntax_spec(line@) == Some((a.indent@, a.node_type@, opt_string(a.features))),
            None => atom_syntax_spec(line@) is None,
        },
{
    let (indent, rest) = split_indent(line);
    let parts = end_trimmed_tokens(&rest);
    if parts.len() == 0 {
        return None;
    }
    proof {
        assert(views(parts@)[0] == parts@[0]@);
    }
    if !is_atom_name_token(parts[0].as_str()) {
        return None;
    }
    let features = nonempty_string(join_from(&parts, 1));
    Some(AtomSyntax { indent, node_type: copy_string(&parts[0]), features })
}

/// Reads an atom line that starts with a relation operator.
pub fn parse_atom_operator_syntax(line: &str) -> (r: Option<AtomOperatorSyntax>)
    ensures
        match r {
            Some(a) => atom_operator_syntax_spec(line@) == Some(
                (a.indent@, a.operator@, a.node_type@, opt_string(a.features)),
            ),
            None => atom_operator_syntax_spec(line@) is None,
        },
{
    let (indent, rest) = split_indent(line);
    let parts = end_trimmed_tokens(&rest);
    if parts.len() < 2 {
        return None;
    }
    proof {
        assert(views(parts@)[0] == parts@[0]@);
        assert(views(parts@)[1] == parts@[1]@);
    }
    if !is_operator_token(parts[0].as_str()) || !is_atom_name_token(parts[1].as_str()) {
        return None;
    }
    let features = nonempty_string(join_from(&parts, 2));
    Some(
        AtomOperatorSyntax {
            indent,
            operator: copy_string(&parts[0]),
            node_type: copy_string(&parts[1]),
            features,
        },
    )
}

// ---------------------------------------------------------------------------
// Feature conditions
// ---------------------------------------------------------------------------

/// `i` is the first position of `a` or `b` in `s`.
pub open spec fn first_of_at(s: Seq<char>, a: char, b: char, i: int) -> bool {
    &&& 0 <= i < s.len()
    &&& (s[i] == a || s[i] == b)
    &&& forall|j: int| 0 <= j < i ==> #[trigger] s[j] != a && s[j] != b
}

/// The first position of `a` or `b` in `s`.
pub open spec fn first_of(s: Seq<char>, a: char, b: char) -> Option<int> {
    if exists|i: int| first_of_at(s, a, b, i) {
        Some(choose|i: int| first_of_at(s, a, b, i))
    } else {
        None
    }
}

/// A condition `feature<op>value`, where `<op>` is the first `a` or `b` in the text.
pub open spec fn feature_operator_spec(v: Seq<char>, a: char, b: char) -> Option<
    (Seq<char>, char, Seq<char>),
> {
    match first_of(v, a, b) {
        Some(i) => if is_feature_name_spec(v.take(i)) && v.skip(i + 1).len() > 0 {
            Some((v.take(i), v[i], v.skip(i + 1)))
        } else {
            None
        },
        None => None,
    }
}

/// A feature condition: a feature, an operator and the value after it.
pub struct FeatureOperatorSyntax {
    pub feature: String,
    pub operator: String,
    pub value: String,
}

/// A feature that must be present (`feature`) or absent (`feature#`).
pub struct FeaturePresenceSyntax {
    pub feature: String,
    pub marker: Option<String>,
}

fn parse_feature_operator_syntax(value: &str, a: char, b: char) -> (r: Option<FeatureOperatorSyntax>)
    ensures
        match r {
            Some(f) => exists|c: char|
                feature_operator_spec(value@, a, b) == Some((f.feature@, c, f.value@))
                    && f.operator@ == seq![c],
            None => feature_operator_spec(value@, a, b) is None,
        },
{
    let v = to_chars(value);
    let mut i: usize = 0;
    while i < v.len() && v[i] != a && v[i] != b
        invariant
            0 <= i <= v.len(),
            v@ == value@,
            forall|j: int| 0 <= j < i ==> #[trigger] v@[j] != a && v@[j] != b,
        decreases v.len() - i,
    {
        i += 1;
    }
    if i == v.len() {
        proof {
            if exists|k: int| first_of_at(value@, a, b, k) {
                let k = choose|k: int| first_of_at(value@, a, b, k);
                assert(v@[k] != a && v@[k] != b);
            }
        }
        return None;
    }
    proof {
        assert(first_of_at(value@, a, b, i as int));
        let k = choose|k: int| first_of_at(value@, a, b, k);
        if k < i {
            assert(v@[k] != a && v@[k] != b);
        }
        if i < k {
            assert(value@[i as int] != a && value@[i as int] != b);
        }
        assert(first_of(value@, a, b) == Some(i as int));
    }
    let feature = from_chars(sub_chars(v.as_slice(), 0, i).as_slice());
    let rest = sub_chars(v.as_slice(), i + 1, v.len());
    proof {
        assert(rest@ =~= value@.skip(i + 1));
    }
    if !is_feature_name(feature.as_str()) || rest.len() == 0 {
        return None;
    }
    let mut op = String::new();
    crate::strs::push_char(&mut op, v[i]);
    proof {
        assert(op@ =~= seq![v@[i as int]]);
    }
    Some(FeatureOperatorSyntax { feature, operator: op, value: from_chars(rest.as_slice()) })
}

/// Reads an equality condition, `feature=value` or `feature#value`.
pub fn parse_ident_syntax(value: &str) -> (r: Option<FeatureOperatorSyntax>)
    ensures
        match r {
            Some(f) => exists|c: char|
                feature_operator_spec(value@, '=', '#') == Some((f.feature@, c, f.value@))
                    && f.operator@ == seq![c],
            None => feature_operator_spec(value@, '=', '#') is None,
        },
{
    parse_feature_operator_syntax(value, '=', '#')
}

/// Reads a comparison condition, `feature<value` or `feature>value`.
pub fn parse_comparison_syntax(value: &str) -> (r: Option<FeatureOperatorSyntax>)
    ensures
        match r {
            Some(f) => exists|c: char|
                feature_operator_spec(value@, '<', '>') == Some((f.feature@, c, f.value@))
                    && f.operator@ == seq![c],
            None => feature_operator_spec(value@, '<', '>') is None,
        },
{
    parse_feature_operator_syntax(value, '<', '>')
}

/// A regular-expression condition `feature~pattern`: the text around the first `~`.
pub open spec fn regex_feature_spec(v: Seq<char>) -> Option<(Seq<char>, Seq<char>)> {
    match split_once_spec(v, '~') {
        Some(p) => if is_feature_name_spec(p.0) {
            Some(p)
        } else {
            None
        },
        None => None,
    }
}

/// Reads a regular-expression condition, `feature~pattern`.
pub fn parse_regex_feature_syntax(value: &str) -> (r: Option<(String, String)>)
    ensures
        match r {
            Some(p) => regex_feature_spec(value@) == Some((p.0@, p.1@)),
            None => regex_feature_spec(value@) is None,
        },
{
    match split_once_char(value, '~') {
        Some(p) => if is_feature_name(p.0.as_str()) {
            Some(p)
        } else {
            None
        },
        None => None,
    }
}

/// A presence condition: `feature`, or `feature#` for absence, trailing space ignored.
pub open spec fn none_syntax_spec(v: Seq<char>) -> Option<(Seq<char>, Option<Seq<char>>)> {
    let t = trim_end_spec(v);
    let marked = t.len() > 0 && t.last() == '#';
    let feature = if marked {
        t.drop_last()
    } else {
        t
    };
    if is_feature_name_spec(feature) {
        Some((feature, if marked { Some(seq!['#']) } else { None }))
    } else {
        None
    }
}

/// A condition `feature*`: the feature may have any value, trailing space ignored.
pub open spec fn true_syntax_spec(v: Seq<char>) -> Option<Seq<char>> {
    let t = trim_end_spec(v);
    if t.len() > 0 && t.last() == '*' && is_feature_name_spec(t.drop_last()) {
        Some(t.drop_last())
    } else {
        None
    }
}

/// Reads a presence condition, `feature` or `feature#`.
pub fn parse_none_syntax(value: &str) -> (r: Option<FeaturePresenceSyntax>)
    ensures
        match r {
            Some(f) => none_syntax_spec(value@) == Some((f.feature@, opt_string(f.marker))),
            None => none_syntax_spec(value@) is None,
        },
{
    let v = to_chars(value);
    let t = trim_end_vec(v.as_slice());
    let marked = t.len() > 0 && t[t.len() - 1] == '#';
    let cut = if marked {
        t.len() - 1
    } else {
        t.len()
    };
    let feature = from_chars(sub_chars(t.as_slice(), 0, cut).as_slice());
    proof {
        if marked {
            assert(feature@ =~= t@.drop_last());
        } else {
            assert(feature@ =~= t@);
        }
    }
    if !is_feature_name(feature.as_str()) {
        return None;
    }
    let marker = if marked {
        let m = owned("#");
        proof {
            reveal_strlit("#");
        }
        Some(m)
    } else {
        None
    };
    Some(FeaturePresenceSyntax { feature, marker })
}

/// Reads a condition `feature*`.
pub fn parse_true_syntax(value: &str) -> (r: Option<String>)
    ensures
        opt_string(r) == true_syntax_spec(value@),
{
    let v = to_chars(value);
    let t = trim_end_vec(v.as_slice());
    if t.len() == 0 || t[t.len() - 1] != '*' {
        return None;
    }
    let feature = from_chars(sub_chars(t.as_slice(), 0, t.len() - 1).as_slice());
    proof {
        assert(feature@ =~= t@.drop_last());
    }
    if is_feature_name(feature.as_str()) {
        Some(feature)
    } else {
        None
    }
}

// ---------------------------------------------------------------------------
// Relation, quantifier and operator lines
// ---------------------------------------------------------------------------

/// A relation line: indentation, then exactly `name operator name`.
pub open spec fn relation_syntax_spec(line: Seq<char>) -> Option<
    (Seq<char>, Seq<char>, Seq<char>, Seq<char>),
> {
    let parts = tokens(trim_spec(line));
    if parts.len() == 3 && is_search_name_spec(parts[0]) && is_operator_token_spec(parts[1])
        && is_search_name_spec(parts[2]) {
        Some((indent_of(line), parts[0], parts[1], parts[2]))
    } else {
        None
    }
}

/// A quantifier line: indentation, then one quantifier token.
pub open spec fn quantifier_line_spec(line: Seq<char>) -> Option<(Seq<char>, Seq<char>)> {
    let q = trim_spec(after_indent(line));
    if is_quantifier_line_spec(q) {
        Some((indent_of(line), q))
    } else {
        None
    }
}

/// An operator line: indentation, then one operator token and nothing else.
pub open spec fn operator_line_spec(line: Seq<char>) -> Option<(Seq<char>, Seq<char>)> {
    let op = trim_spec(after_indent(line));
    if is_operator_token_spec(op) && !(exists|i: int| 0 <= i < op.len() && is_ws(#[trigger] op[i])) {
        Some((indent_of(line), op))
    } else {
        None
    }
}

/// What follows a leading operator token on a line, if anything does.
pub open spec fn strip_operator_spec(line: Seq<char>) -> Option<Seq<char>> {
    let parts = tokens(trim_spec(line));
    if parts.len() == 0 || !is_operator_token_spec(parts[0]) {
        None
    } else {
        nonempty(rest_text(parts, 1))
    }
}

/// A relation between two named atoms.
pub struct RelationSyntax {
    pub indent: String,
    pub left: String,
    pub operator: String,
    pub right: String,
}

/// A quantifier token with its indentation.
pub struct QuantifierLineSyntax {
    pub indent: String,
    pub quantifier: String,
}

/// Reads a relation line, `name operator name`.
pub fn parse_relation_syntax(line: &str) -> (r: Option<RelationSyntax>)
    ensures
        match r {
            Some(x) => relation_syntax_spec(line@) == Some((x.indent@, x.left@, x.operator@, x.right@)),
            None => relation_syntax_spec(line@) is None,
        },
{
    let indent = search_line_indent(line);
    let parts = trimmed_tokens(line);
    if parts.len() != 3 {
        return None;
    }
    proof {
        assert(views(parts@)[0] == parts@[0]@);
        assert(views(parts@)[1] == parts@[1]@);
        assert(views(parts@)[2] == parts@[2]@);
    }
    if !is_search_name(parts[0].as_str()) || !is_operator_token(parts[1].as_str())
        || !is_search_name(parts[2].as_str()) {
        return None;
    }
    Some(
        RelationSyntax {
            indent,
            left: copy_string(&parts[0]),
            operator: copy_string(&parts[1]),
            right: copy_string(&parts[2]),
        },
    )
}

/// Reads a quantifier line.
pub fn parse_quantifier_line_syntax(line: &str) -> (r: Option<QuantifierLineSyntax>)
    ensures
        match r {
            Some(x) => quantifier_line_spec(line@) == Some((x.indent@, x.quantifier@)),
            None => quantifier_line_spec(line@) is None,
        },
{
    let (indent, rest) = split_indent(line);
    let quantifier = from_chars(trim_vec(rest.as_slice()).as_slice());
    if is_quantifier_line(quantifier.as_str()) {
        Some(QuantifierLineSyntax { indent, quantifier })
    } else {
        None
    }
}

/// Reads an operator line: indentation and the operator.
pub fn parse_operator_line_syntax(line: &str) -> (r: Option<(String, String)>)
    ensures
        match r {
            Some(x) => operator_line_spec(line@) == Some((x.0@, x.1@)),
            None => operator_line_spec(line@) is None,
        },
{
    let (indent, rest) = split_indent(line);
    let t = trim_vec(rest.as_slice());
    let operator = from_chars(t.as_slice());
    let has_ws = any_in_ws(t.as_slice());
    if is_operator_token(operator.as_str()) && !has_ws {
        Some((indent, operator))
    } else {
        None
    }
}

/// Whether some character of `v` is whitespace.
fn any_in_ws(v: &[char]) -> (r: bool)
    ensures
        r == (exists|i: int| 0 <= i < v@.len() && is_ws(#[trigger] v@[i])),
{
    let mut i: usize = 0;
    while i < v.len()
        invariant
            0 <= i <= v.len(),
            forall|j: int| 0 <= j < i ==> !is_ws(#[trigger] v@[j]),
        decreases v.len() - i,
    {
        if is_whitespace(v[i]) {
            assert(is_ws(v@[i as int]));
            return true;
        }
        i += 1;
    }
    false
}

/// What follows a leading operator token on `line`, if anything does.
pub fn strip_operator_syntax(line: &str) -> (r: Option<String>)
    ensures
        opt_string(r) == strip_operator_spec(line@),
{
    let parts = trimmed_tokens(line);
    if parts.len() == 0 {
        return None;
    }
    proof {
        assert(views(parts@)[0] == parts@[0]@);
    }
    if !is_operator_token(parts[0].as_str()) {
        return None;
    }
    nonempty_string(join_from(&parts, 1))
}

// ---------------------------------------------------------------------------
// Nearness operators and named atoms
// ---------------------------------------------------------------------------

/// `i` is the first position of a decimal digit in `s`.
pub open spec fn first_digit_at(s: Seq<char>, i: int) -> bool {
    &&& 0 <= i < s.len()
    &&& is_digit(s[i])
    &&& forall|j: int| 0 <= j < i ==> !is_digit(#[trigger] s[j])
}

/// `i` is the last position of a decimal digit in `s`.
pub open spec fn last_digit_at(s: Seq<char>, i: int) -> bool {
    &&& 0 <= i < s.len()
    &&& is_digit(s[i])
    &&& forall|j: int| i < j < s.len() ==> !is_digit(#[trigger] s[j])
}

pub open spec fn first_digit(s: Seq<char>) -> Option<int> {
    if exists|i: int| first_digit_at(s, i) {
        Some(choose|i: int| first_digit_at(s, i))
    } else {
        None
    }
}

pub open spec fn last_digit(s: Seq<char>) -> Option<int> {
    if exists|i: int| last_digit_at(s, i) {
        Some(choose|i: int| last_digit_at(s, i))
    } else {
        None
    }
}

/// A nearness operator `before k after`: the text before the first digit, the number
/// from there to the last digit (all digits, within `u32`), and the text after it,
/// both non-empty.
pub open spec fn k_nearness_spec(v: Seq<char>) -> Option<(Seq<char>, u32, Seq<char>)> {
    match first_digit(v) {
        Some(f) => match last_digit(v) {
            Some(l) => {
                let before = v.take(f);
                let k_raw = v.subrange(f, l + 1);
                let after = v.skip(l + 1);
                if before.len() == 0 || after.len() == 0 || !all_digits(k_raw) {
                    None
                } else {
                    match parse_u32_spec(k_raw) {
                        Some(k) => Some((before, k, after)),
                        None => None,
                    }
                }
            },
            None => None,
        },
        None => None,
    }
}

/// A nearness operator split into its parts.
pub struct KNearnessSyntax {
    pub before: String,
    pub k: u32,
    pub after: String,
}

/// Reads a nearness operator such as `<3:`.
pub fn parse_k_nearness_syntax(value: &str) -> (r: Option<KNearnessSyntax>)
    ensures
        match r {
            Some(x) => k_nearness_spec(value@) == Some((x.before@, x.k, x.after@)),
            None => k_nearness_spec(value@) is None,
        },
{
    let v = to_chars(value);
    let mut f: usize = 0;
    while f < v.len() && !('0' <= v[f] && v[f] <= '9')
        invariant
            0 <= f <= v.len(),
            v@ == value@,
            forall|j: int| 0 <= j < f ==> !is_digit(#[trigger] v@[j]),
        decreases v.len() - f,
    {
        f += 1;
    }
    if f == v.len() {
        proof {
            if exists|i: int| first_digit_at(value@, i) {
                let i = choose|i: int| first_digit_at(value@, i);
                assert(!is_digit(v@[i]));
            }
        }
        return None;
    }
    proof {
        assert(first_digit_at(value@, f as int));
        let i = choose|i: int| first_digit_at(value@, i);
        if i < f {
            assert(!is_digit(v@[i]));
        }
        if f < i {
            assert(!is_digit(value@[f as int]));
        }
        assert(first_digit(value@) == Some(f as int));
    }
    let mut l: usize = v.len();
    while l > f && !('0' <= v[l - 1] && v[l - 1] <= '9')
        invariant
            f < v.len(),
            f < l <= v.len(),
            v@ == value@,
            is_digit(v@[f as int]),
            forall|j: int| l <= j < v.len() ==> !is_digit(#[trigger] v@[j]),
        decreases l,
    {
        l -= 1;
    }
    let last = l - 1;
    proof {
        assert(last_digit_at(value@, last as int));
        let i = choose|i: int| last_digit_at(value@, i);
        if i > last {
            assert(!is_digit(v@[i]));
        }
        if i < last {
            assert(!is_digit(value@[last as int]));
        }
        assert(last_digit(value@) == Some(last as int));
    }
    let before = sub_chars(v.as_slice(), 0, f);
    let k_raw = sub_chars(v.as_slice(), f, last + 1);
    let after = sub_chars(v.as_slice(), last + 1, v.len());
    proof {
        assert(after@ =~= value@.skip(last + 1));
    }
    if before.len() == 0 || after.len() == 0 || !all_in(k_raw.as_slice(), CharClass::Digit) {
        proof {
            if before.len() != 0 && after.len() != 0 {
                let i = choose|i: int| !(0 <= i < k_raw@.len() ==> in_class(#[trigger] k_raw@[i], CharClass::Digit));
                assert(!is_digit(k_raw@[i]));
            }
        }
        return None;
    }
    proof {
        assert forall|i: int| 0 <= i < k_raw@.len() implies is_digit(#[trigger] k_raw@[i]) by {
            assert(in_class(k_raw@[i], CharClass::Digit));
        }
    }
    let ks = from_chars(k_raw.as_slice());
    match parse_u32(ks.as_str()) {
        Some(k) => Some(
            KNearnessSyntax {
                before: from_chars(before.as_slice()),
                k,
                after: from_chars(after.as_slice()),
            },
        ),
        None => None,
    }
}

/// The name before the first `:` of a named atom, leading space ignored, when it is
/// non-empty and free of whitespace and of `:=#<>~*`.
pub open spec fn named_atom_prefix_spec(v: Seq<char>) -> Option<Seq<char>> {
    match split_once_spec(trim_start_spec(v), ':') {
        Some(p) => if p.0.len() > 0 && !(exists|i: int| 0 <= i < p.0.len() && is_prefix_stop(#[trigger] p.0[i])) {
            Some(p.0)
        } else {
            None
        },
        None => None,
    }
}

/// Reads the name of a named atom, `name:type ...`.
pub fn parse_named_atom_prefix(value: &str) -> (r: Option<String>)
    ensures
        opt_string(r) == named_atom_prefix_spec(value@),
{
    let v = to_chars(value);
    let t = from_chars(crate::strs::trim_start_vec(v.as_slice()).as_slice());
    match split_once_char(t.as_str(), ':') {
        Some(p) => {
            let name = to_chars(p.0.as_str());
            let stop = any_in(name.as_slice(), CharClass::PrefixStop);
            proof {
                if stop {
                    let i = choose|i: int| 0 <= i < name@.len() && in_class(#[trigger] name@[i], CharClass::PrefixStop);
                    assert(is_prefix_stop(p.0@[i]));
                } else {
                    assert forall|i: int| 0 <= i < p.0@.len() implies !is_prefix_stop(#[trigger] p.0@[i]) by {
                        if is_prefix_stop(p.0@[i]) {
                            assert(in_class(name@[i], CharClass::PrefixStop));
                        }
                    }
                }
            }
            if name.len() > 0 && !stop {
                Some(p.0)
            } else {
                None
            }
        },
        None => None,
    }
}

} // verus!

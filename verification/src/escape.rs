//! Escaping of text for Markdown, HTML, XML, TSV and data-frame output, and
//! the rules for turning feature names into clean identifiers.

use vstd::prelude::*;
use crate::strs::{
    replace_char, replace_str, to_chars, from_chars, owned, parse_i64, parse_i64_spec, str_eq,
};

verus! {

broadcast use vstd::string::group_string_axioms;

/// The text of an optional string; absent text is empty.
pub open spec fn opt_text(value: Option<&str>) -> Seq<char> {
    match value {
        Some(s) => s@,
        None => seq![],
    }
}

/// What a `$` becomes when it must not start mathematics.
pub open spec fn dollar_span() -> Seq<char> {
    seq!['<', 's', 'p', 'a', 'n', '>', '$', '<', '/', 's', 'p', 'a', 'n', '>']
}

/// Every `$` wrapped in a span.
pub open spec fn math_esc_spec(s: Seq<char>) -> Seq<char> {
    replace_char(s, '$', dollar_span())
}

/// `$` is wrapped unless mathematics is wanted.
pub open spec fn dollar_rule(s: Seq<char>, math: bool) -> Seq<char> {
    if math {
        s
    } else {
        math_esc_spec(s)
    }
}

/// The Markdown escape: `!#*[_|~` become numeric entities, in that order.
pub open spec fn md_esc_spec(s: Seq<char>, math: bool) -> Seq<char> {
    let a = replace_char(s, '!', seq!['&', '#', '3', '3', ';']);
    let b = replace_char(a, '#', seq!['&', '#', '3', '5', ';']);
    let c = replace_char(b, '*', seq!['&', '#', '4', '2', ';']);
    let d = replace_char(c, '[', seq!['&', '#', '9', '1', ';']);
    let e = replace_char(d, '_', seq!['&', '#', '9', '5', ';']);
    let f = replace_char(e, '|', seq!['&', '#', '1', '2', '4', ';']);
    let g = replace_char(f, '~', seq!['&', '#', '1', '2', '6', ';']);
    dollar_rule(g, math)
}

pub open spec fn amp_entity() -> Seq<char> {
    seq!['&', 'a', 'm', 'p', ';']
}

pub open spec fn lt_entity() -> Seq<char> {
    seq!['&', 'l', 't', ';']
}

pub open spec fn gt_entity() -> Seq<char> {
    seq!['&', 'g', 't', ';']
}

/// `&`, `<` and `>` as entities, `&` first so that no entity is escaped twice.
pub open spec fn angle_esc(s: Seq<char>) -> Seq<char> {
    replace_char(replace_char(replace_char(s, '&', amp_entity()), '<', lt_entity()), '>', gt_entity())
}

/// The HTML escape.
pub open spec fn html_esc_spec(s: Seq<char>, math: bool) -> Seq<char> {
    dollar_rule(angle_esc(s), math)
}

/// The XML escape: also both quotes become entities.
pub open spec fn xml_esc_spec(s: Seq<char>) -> Seq<char> {
    let a = replace_char(angle_esc(s), '\'', seq!['&', 'a', 'p', 'o', 's', ';']);
    replace_char(a, '"', seq!['&', 'q', 'u', 'o', 't', ';'])
}

/// The escape for Markdown tables holding HTML: as HTML, and `|` as an entity.
pub open spec fn mdhtml_esc_spec(s: Seq<char>, math: bool) -> Seq<char> {
    dollar_rule(replace_char(angle_esc(s), '|', seq!['&', '#', '1', '2', '4', ';']), math)
}

/// A TSV field that starts with a quote gets a backslash in front.
pub open spec fn tsv_esc_spec(s: Seq<char>) -> Seq<char> {
    if s.len() > 0 && (s[0] == '"' || s[0] == '\'') {
        seq!['\\'] + s
    } else {
        s
    }
}

/// Tabs become spaces and each `"` is preceded by the control character 1.
pub open spec fn pandas_esc_spec(s: Seq<char>) -> Seq<char> {
    replace_char(replace_char(s, '\t', seq![' ']), '"', seq!['\u{1}', '"'])
}

fn math_span(s: &str) -> (r: String)
    ensures
        r@ == math_esc_spec(s@),
{
    let span = "<span>$</span>";
    proof {
        reveal_strlit("<span>$</span>");
        assert(span@ =~= dollar_span());
    }
    replace_str(s, '$', span)
}

fn dollar_apply(s: String, math: bool) -> (r: String)
    ensures
        r@ == dollar_rule(s@, math),
{
    if math {
        s
    } else {
        math_span(s.as_str())
    }
}

fn angle_apply(s: &str) -> (r: String)
    ensures
        r@ == angle_esc(s@),
{
    let amp = "&amp;";
    let lt = "&lt;";
    let gt = "&gt;";
    proof {
        reveal_strlit("&amp;");
        reveal_strlit("&lt;");
        reveal_strlit("&gt;");
        assert(amp@ =~= amp_entity());
        assert(lt@ =~= lt_entity());
        assert(gt@ =~= gt_entity());
    }
    let a = replace_str(s, '&', amp);
    let b = replace_str(a.as_str(), '<', lt);
    replace_str(b.as_str(), '>', gt)
}

/// Wraps every `$` in a span so that it does not start mathematics.
pub fn math_esc(value: Option<&str>) -> (r: String)
    ensures
        r@ == math_esc_spec(opt_text(value)),
{
    match value {
        Some(s) => {
            assert(opt_text(value) == s@);
            math_span(s)
        },
        None => {
            proof {
                reveal_strlit("");
            }
            math_span("")
        },
    }
}

#[allow(non_snake_case)]
pub fn mathEsc(value: Option<&str>) -> (r: String)
    ensures
        r@ == math_esc_spec(opt_text(value)),
{
    math_esc(value)
}

/// Escapes the characters that Markdown would interpret; absent text gives the empty string.
pub fn md_esc(value: Option<&str>, math: bool) -> (r: String)
    ensures
        r@ == match value {
            Some(s) => md_esc_spec(s@, math),
            None => seq![],
        },
{
    let s = match value {
        Some(s) => s,
        None => {
            return String::new();
        },
    };
    let e1 = "&#33;";
    let e2 = "&#35;";
    let e3 = "&#42;";
    let e4 = "&#91;";
    let e5 = "&#95;";
    let e6 = "&#124;";
    let e7 = "&#126;";
    proof {
        reveal_strlit("&#33;");
        reveal_strlit("&#35;");
        reveal_strlit("&#42;");
        reveal_strlit("&#91;");
        reveal_strlit("&#95;");
        reveal_strlit("&#124;");
        reveal_strlit("&#126;");
        assert(e1@ =~= seq!['&', '#', '3', '3', ';']);
        assert(e2@ =~= seq!['&', '#', '3', '5', ';']);
        assert(e3@ =~= seq!['&', '#', '4', '2', ';']);
        assert(e4@ =~= seq!['&', '#', '9', '1', ';']);
        assert(e5@ =~= seq!['&', '#', '9', '5', ';']);
        assert(e6@ =~= seq!['&', '#', '1', '2', '4', ';']);
        assert(e7@ =~= seq!['&', '#', '1', '2', '6', ';']);
    }
    let a = replace_str(s, '!', e1);
    let b = replace_str(a.as_str(), '#', e2);
    let c = replace_str(b.as_str(), '*', e3);
    let d = replace_str(c.as_str(), '[', e4);
    let e = replace_str(d.as_str(), '_', e5);
    let f = replace_str(e.as_str(), '|', e6);
    let g = replace_str(f.as_str(), '~', e7);
    dollar_apply(g, math)
}

#[allow(non_snake_case)]
pub fn mdEsc(value: Option<&str>, math: bool) -> (r: String)
    ensures
        r@ == match value {
            Some(s) => md_esc_spec(s@, math),
            None => seq![],
        },
{
    md_esc(value, math)
}

/// Escapes `&`, `<`, `>` for HTML; absent text gives the empty string.
pub fn html_esc(value: Option<&str>, math: bool) -> (r: String)
    ensures
        r@ == match value {
            Some(s) => html_esc_spec(s@, math),
            None => seq![],
        },
{
    match value {
        Some(s) => dollar_apply(angle_apply(s), math),
        None => String::new(),
    }
}

#[allow(non_snake_case)]
pub fn htmlEsc(value: Option<&str>, math: bool) -> (r: String)
    ensures
        r@ == match value {
            Some(s) => html_esc_spec(s@, math),
            None => seq![],
        },
{
    html_esc(value, math)
}

/// Escapes the five XML special characters; absent text is treated as empty.
pub fn xml_esc(value: Option<&str>) -> (r: String)
    ensures
        r@ == xml_esc_spec(opt_text(value)),
{
    let s = match value {
        Some(s) => s,
        None => "",
    };
    let apos = "&apos;";
    let quot = "&quot;";
    proof {
        reveal_strlit("&apos;");
        reveal_strlit("&quot;");
        assert(apos@ =~= seq!['&', 'a', 'p', 'o', 's', ';']);
        assert(quot@ =~= seq!['&', 'q', 'u', 'o', 't', ';']);
        reveal_strlit("");
    }
    let a = angle_apply(s);
    let b = replace_str(a.as_str(), '\'', apos);
    replace_str(b.as_str(), '"', quot)
}

#[allow(non_snake_case)]
pub fn xmlEsc(value: Option<&str>) -> (r: String)
    ensures
        r@ == xml_esc_spec(opt_text(value)),
{
    xml_esc(value)
}

/// The HTML escape with `|` as an entity, for Markdown tables.
pub fn mdhtml_esc(value: Option<&str>, math: bool) -> (r: String)
    ensures
        r@ == match value {
            Some(s) => mdhtml_esc_spec(s@, math),
            None => seq![],
        },
{
    match value {
        Some(s) => {
            let bar = "&#124;";
            proof {
                reveal_strlit("&#124;");
                assert(bar@ =~= seq!['&', '#', '1', '2', '4', ';']);
            }
            let a = angle_apply(s);
            let b = replace_str(a.as_str(), '|', bar);
            dollar_apply(b, math)
        },
        None => String::new(),
    }
}

#[allow(non_snake_case)]
pub fn mdhtmlEsc(value: Option<&str>, math: bool) -> (r: String)
    ensures
        r@ == match value {
            Some(s) => mdhtml_esc_spec(s@, math),
            None => seq![],
        },
{
    mdhtml_esc(value, math)
}

/// Protects a TSV field that starts with a quote by a leading backslash.
pub fn tsv_esc(value: &str) -> (r: String)
    ensures
        r@ == tsv_esc_spec(value@),
{
    let v = to_chars(value);
    if v.len() > 0 && (v[0] == '"' || v[0] == '\'') {
        let mut out: Vec<char> = Vec::new();
        out.push('\\');
        let mut i: usize = 0;
        while i < v.len()
            invariant
                0 <= i <= v.len(),
                out@ == seq!['\\'] + v@.take(i as int),
            decreases v.len() - i,
        {
            proof {
                assert(v@.take(i + 1) == v@.take(i as int).push(v@[i as int]));
            }
            out.push(v[i]);
            i += 1;
        }
        proof {
            assert(v@.take(v@.len() as int) == v@);
        }
        from_chars(out.as_slice())
    } else {
        owned(value)
    }
}

#[allow(non_snake_case)]
pub fn tsvEsc(value: &str) -> (r: String)
    ensures
        r@ == tsv_esc_spec(value@),
{
    tsv_esc(value)
}

/// Tabs become spaces, and each `"` is marked for a data-frame reader.
pub fn pandas_esc(value: &str) -> (r: String)
    ensures
        r@ == pandas_esc_spec(value@),
{
    let sp = " ";
    let q = "\u{1}\"";
    proof {
        reveal_strlit(" ");
        reveal_strlit("\u{1}\"");
        assert(sp@ =~= seq![' ']);
        assert(q@ =~= seq!['\u{1}', '"']);
    }
    let a = replace_str(value, '\t', sp);
    replace_str(a.as_str(), '"', q)
}

#[allow(non_snake_case)]
pub fn pandasEsc(value: &str) -> (r: String)
    ensures
        r@ == pandas_esc_spec(value@),
{
    pandas_esc(value)
}

// ---------------------------------------------------------------------------
// Identifiers
// ---------------------------------------------------------------------------

pub open spec fn ascii_alpha(c: char) -> bool {
    ('a' <= c <= 'z') || ('A' <= c <= 'Z')
}

pub open spec fn ident_char(c: char) -> bool {
    ascii_alpha(c) || ('0' <= c <= '9') || c == '_'
}

/// A clean name starts with an ASCII letter and has only letters, digits and `_`.
pub open spec fn is_clean_spec(s: Seq<char>) -> bool {
    &&& s.len() > 0
    &&& ascii_alpha(s[0])
    &&& forall|i: int| 0 < i < s.len() ==> ident_char(#[trigger] s[i])
}

/// Each character that is not a letter, digit or `_` becomes `_`.
pub open spec fn underscored(s: Seq<char>) -> Seq<char> {
    Seq::new(s.len(), |i: int| if ident_char(s[i]) { s[i] } else { '_' })
}

/// The name with an `x` in front unless it starts with a letter.
pub open spec fn lettered(s: Seq<char>) -> Seq<char> {
    if s.len() > 0 && ascii_alpha(s[0]) {
        s
    } else {
        seq!['x'] + s
    }
}

/// The reserved words and what each becomes.
pub open spec fn reserved_table() -> Seq<(Seq<char>, Seq<char>)> {
    seq![
        (seq!['d', 'a', 't', 'a', 'b', 'a', 's', 'e'], seq!['d', 'b', 'a', 's', 'e']),
        (seq!['d', 'e', 'f', 'a', 'u', 'l', 't'], seq!['d', 'f', 'a', 'u', 'l', 't']),
        (seq!['f', 'i', 'r', 's', 't'], seq!['f', 'r', 's', 't']),
        (seq!['f', 'o', 'c', 'u', 's'], seq!['f', 'c', 'u', 's']),
        (seq!['g', 'a', 'p'], seq!['g', 'p']),
        (seq!['l', 'a', 's', 't'], seq!['l', 's', 't']),
        (seq!['n', 'o', 't', 'e', 'x', 'i', 's', 't'], seq!['n', 'o', 't', 'e', 'x', 's', 't']),
        (seq!['o', 'b', 'j', 'e', 'c', 't'], seq!['o', 'b', 'j', 'c', 't']),
        (seq!['r', 'e', 't', 'r', 'i', 'e', 'v', 'e'], seq!['r', 'e', 't', 'r', 'i', 'e', 'v']),
        (
            seq!['n', 'o', 'r', 'e', 't', 'r', 'i', 'e', 'v', 'e'],
            seq!['n', 'o', 'r', 'e', 't', 'r', 'i', 'e', 'v'],
        ),
        (seq!['t', 'y', 'p', 'e'], seq!['t', 'y', 'p']),
        (seq!['a', 's'], seq!['a', 's', '_']),
        (seq!['o', 'r'], seq!['o', 'r', '_']),
    ]
}

/// The replacement of `s` from the first row of `table` that names it, else `s`.
pub open spec fn rename_from(table: Seq<(Seq<char>, Seq<char>)>, s: Seq<char>) -> Seq<char>
    decreases table.len(),
{
    if table.len() == 0 {
        s
    } else if table[0].0 == s {
        table[0].1
    } else {
        rename_from(table.drop_first(), s)
    }
}

/// `clean_name`: underscores for foreign characters, a leading letter, no reserved word.
pub open spec fn clean_name_spec(s: Seq<char>) -> Seq<char> {
    rename_from(reserved_table(), lettered(underscored(s)))
}

fn is_ascii_alpha(c: char) -> (r: bool)
    ensures
        r == ascii_alpha(c),
{
    ('a' <= c && c <= 'z') || ('A' <= c && c <= 'Z')
}

fn is_ident_char(c: char) -> (r: bool)
    ensures
        r == ident_char(c),
{
    is_ascii_alpha(c) || ('0' <= c && c <= '9') || c == '_'
}

fn is_clean_str(s: &str) -> (r: bool)
    ensures
        r == is_clean_spec(s@),
{
    let v = to_chars(s);
    if v.len() == 0 || !is_ascii_alpha(v[0]) {
        proof {
            if v.len() > 0 {
                assert(s@[0] == v@[0]);
            }
        }
        return false;
    }
    let mut i: usize = 1;
    while i < v.len()
        invariant
            1 <= i <= v.len(),
            v@ == s@,
            forall|j: int| 0 < j < i ==> ident_char(#[trigger] v@[j]),
        decreases v.len() - i,
    {
        if !is_ident_char(v[i]) {
            assert(s@[i as int] == v@[i as int]);
            return false;
        }
        i += 1;
    }
    true
}

/// Whether a name is a clean identifier; an absent name is not.
pub fn is_clean(name: Option<&str>) -> (r: bool)
    ensures
        r == match name {
            Some(s) => is_clean_spec(s@),
            None => false,
        },
{
    match name {
        Some(s) => is_clean_str(s),
        None => false,
    }
}

#[allow(non_snake_case)]
pub fn isClean(name: Option<&str>) -> (r: bool)
    ensures
        r == match name {
            Some(s) => is_clean_spec(s@),
            None => false,
        },
{
    is_clean(name)
}

fn reserved_rows() -> (r: Vec<(&'static str, &'static str)>)
    ensures
        r@.len() == reserved_table().len(),
        forall|i: int| 0 <= i < r@.len() ==> (#[trigger] r@[i]).0@ == reserved_table()[i].0
            && r@[i].1@ == reserved_table()[i].1,
{
    proof {
        reveal_strlit("database");
        reveal_strlit("dbase");
        reveal_strlit("default");
        reveal_strlit("dfault");
        reveal_strlit("first");
        reveal_strlit("frst");
        reveal_strlit("focus");
        reveal_strlit("fcus");
        reveal_strlit("gap");
        reveal_strlit("gp");
        reveal_strlit("last");
        reveal_strlit("lst");
        reveal_strlit("notexist");
        reveal_strlit("notexst");
        reveal_strlit("object");
        reveal_strlit("objct");
        reveal_strlit("retrieve");
        reveal_strlit("retriev");
        reveal_strlit("noretrieve");
        reveal_strlit("noretriev");
        reveal_strlit("type");
        reveal_strlit("typ");
        reveal_strlit("as");
        reveal_strlit("as_");
        reveal_strlit("or");
        reveal_strlit("or_");
    }
    let r = vec![
        ("database", "dbase"),
        ("default", "dfault"),
        ("first", "frst"),
        ("focus", "fcus"),
        ("gap", "gp"),
        ("last", "lst"),
        ("notexist", "notexst"),
        ("object", "objct"),
        ("retrieve", "retriev"),
        ("noretrieve", "noretriev"),
        ("type", "typ"),
        ("as", "as_"),
        ("or", "or_"),
    ];
    proof {
        let t = reserved_table();
        assert(r@[0].0@ =~= t[0].0 && r@[0].1@ =~= t[0].1);
        assert(r@[1].0@ =~= t[1].0 && r@[1].1@ =~= t[1].1);
        assert(r@[2].0@ =~= t[2].0 && r@[2].1@ =~= t[2].1);
        assert(r@[3].0@ =~= t[3].0 && r@[3].1@ =~= t[3].1);
        assert(r@[4].0@ =~= t[4].0 && r@[4].1@ =~= t[4].1);
        assert(r@[5].0@ =~= t[5].0 && r@[5].1@ =~= t[5].1);
        assert(r@[6].0@ =~= t[6].0 && r@[6].1@ =~= t[6].1);
        assert(r@[7].0@ =~= t[7].0 && r@[7].1@ =~= t[7].1);
        assert(r@[8].0@ =~= t[8].0 && r@[8].1@ =~= t[8].1);
        assert(r@[9].0@ =~= t[9].0 && r@[9].1@ =~= t[9].1);
        assert(r@[10].0@ =~= t[10].0 && r@[10].1@ =~= t[10].1);
        assert(r@[11].0@ =~= t[11].0 && r@[11].1@ =~= t[11].1);
        assert(r@[12].0@ =~= t[12].0 && r@[12].1@ =~= t[12].1);
    }
    r
}

/// Turns a name into a clean identifier that avoids the reserved words.
pub fn clean_name(name: &str) -> (r: String)
    ensures
        r@ == clean_name_spec(name@),
{
    let v = to_chars(name);
    let mut u: Vec<char> = Vec::new();
    let mut i: usize = 0;
    while i < v.len()
        invariant
            0 <= i <= v.len(),
            v@ == name@,
            u@.len() == i,
            forall|j: int| 0 <= j < i ==> #[trigger] u@[j] == (if ident_char(v@[j]) {
                v@[j]
            } else {
                '_'
            }),
        decreases v.len() - i,
    {
        if is_ident_char(v[i]) {
            u.push(v[i]);
        } else {
            u.push('_');
        }
        i += 1;
    }
    proof {
        assert(u@ =~= underscored(name@));
    }
    let w: Vec<char> = if u.len() > 0 && is_ascii_alpha(u[0]) {
        u
    } else {
        let mut w: Vec<char> = Vec::new();
        w.push('x');
        let mut k: usize = 0;
        while k < u.len()
            invariant
                0 <= k <= u.len(),
                w@ == seq!['x'] + u@.take(k as int),
            decreases u.len() - k,
        {
            proof {
                assert(u@.take(k + 1) == u@.take(k as int).push(u@[k as int]));
            }
            w.push(u[k]);
            k += 1;
        }
        proof {
            assert(u@.take(u@.len() as int) == u@);
        }
        w
    };
    proof {
        assert(w@ =~= lettered(underscored(name@)));
    }
    let cand = from_chars(w.as_slice());
    let rows = reserved_rows();
    proof {
        assert(reserved_table().skip(0) =~= reserved_table());
    }
    let mut t: usize = 0;
    while t < rows.len()
        invariant
            0 <= t <= rows.len(),
            cand@ == lettered(underscored(name@)),
            rows@.len() == reserved_table().len(),
            forall|i: int| 0 <= i < rows@.len() ==> (#[trigger] rows@[i]).0@ == reserved_table()[i].0
                && rows@[i].1@ == reserved_table()[i].1,
            rename_from(reserved_table(), cand@) == rename_from(
                reserved_table().skip(t as int),
                cand@,
            ),
        decreases rows.len() - t,
    {
        let ghost rest = reserved_table().skip(t as int);
        proof {
            assert(rest[0] == reserved_table()[t as int]);
            assert(rest.drop_first() =~= reserved_table().skip(t + 1));
        }
        if str_eq(rows[t].0, cand.as_str()) {
            proof {
                assert(rest[0].0 == cand@);
                assert(rename_from(rest, cand@) == rest[0].1);
            }
            return owned(rows[t].1);
        }
        t += 1;
    }
    proof {
        assert(reserved_table().skip(t as int) =~= Seq::<(Seq<char>, Seq<char>)>::empty());
    }
    cand
}

#[allow(non_snake_case)]
pub fn cleanName(name: &str) -> (r: String)
    ensures
        r@ == clean_name_spec(name@),
{
    clean_name(name)
}

/// Whether the text is an integer that fits in 64 bits, with an optional sign.
pub fn is_int(value: &str) -> (r: bool)
    ensures
        r == parse_i64_spec(value@).is_some(),
{
    parse_i64(value).is_some()
}

#[allow(non_snake_case)]
pub fn isInt(value: &str) -> (r: bool)
    ensures
        r == parse_i64_spec(value@).is_some(),
{
    is_int(value)
}

} // verus!

//! The `.tf` feature-file grammar: node specifications, the header with its
//! metadata, and the data lines of node and edge features.

use std::collections::HashMap;
use vstd::prelude::*;
use crate::corpus_misc::{first_pos, lemma_first_pos, lemma_no_pos};
use crate::error::{CfError, CfErrorView};
use crate::strs::{
    debug_quoted, debug_text, find_char, from_chars, owned, parse_i64, parse_i64_spec, parse_u32,
    parse_u32_spec, push_str, split_spec, split_vec, cviews, sub_chars, to_chars,
};
use crate::feature::{fv_at, NodeFeature, EdgeFeature};
use crate::edge_tables::TfFeature;
use crate::value::{meta_contains, meta_insert, meta_lookup, meta_remove, tf_decode, value_from_tf, FValue, FeatureValue, Metadata};
use crate::strs::{trim_end_spec, views};

verus! {

/// The nodes `a..=b`.
pub open spec fn range_seq(a: u32, b: u32) -> Seq<u32> {
    Seq::new((b - a + 1) as nat, |k: int| (a + k) as u32)
}

/// The nodes of one comma-separated part: `n` or a range `a-b` (either way round), or
/// the text that is not a node number.
pub open spec fn part_nodes(part: Seq<char>) -> Result<Seq<u32>, Seq<char>> {
    match first_pos(part, '-') {
        Some(i) => match parse_u32_spec(part.take(i)) {
            None => Err(part.take(i)),
            Some(s) => match parse_u32_spec(part.skip(i + 1)) {
                None => Err(part.skip(i + 1)),
                Some(e) => if s <= e { Ok(range_seq(s, e)) } else { Ok(range_seq(e, s)) },
            },
        },
        None => match parse_u32_spec(part) {
            Some(n) => Ok(seq![n]),
            None => Err(part),
        },
    }
}

/// The nodes of the parts in order, or the first text that is not a node number.
pub open spec fn parts_nodes(parts: Seq<Seq<char>>) -> Result<Seq<u32>, Seq<char>>
    decreases parts.len(),
{
    if parts.len() == 0 {
        Ok(seq![])
    } else {
        match part_nodes(parts[0]) {
            Err(b) => Err(b),
            Ok(a) => match parts_nodes(parts.drop_first()) {
                Ok(r) => Ok(a + r),
                Err(b) => Err(b),
            },
        }
    }
}

/// The nodes of a node specification like `1,3-5`, or the text that is not a node number.
pub open spec fn node_spec(raw: Seq<char>) -> Result<Seq<u32>, Seq<char>> {
    parts_nodes(split_spec(raw, ','))
}

/// The parse error for `message` on `line` of the file at `path`.
pub open spec fn parse_error(path: Seq<char>, line: usize, message: Seq<char>) -> CfErrorView {
    CfErrorView::Parse { path, line, message }
}

/// The error for a text that is not a node number.
pub open spec fn bad_node_message(bad: Seq<char>) -> Seq<char> {
    "invalid node spec "@ + debug_text(bad)
}

fn push_range(out: &mut Vec<u32>, a: u32, b: u32)
    requires
        a <= b,
    ensures
        final(out)@ == old(out)@ + range_seq(a, b),
{
    let ghost o = out@;
    let mut k: u64 = a as u64;
    while k <= b as u64
        invariant
            a <= k <= b as u64 + 1,
            out@ == o + range_seq(a, b).take(k - a),
        decreases b as u64 + 1 - k,
    {
        out.push(k as u32);
        k += 1;
        proof {
            assert(out@ =~= o + range_seq(a, b).take(k - a));
        }
    }
    proof {
        assert(range_seq(a, b).take(b - a + 1) =~= range_seq(a, b));
    }
}

fn node_error(bad: &[char], path: &str, line: usize) -> (e: CfError)
    ensures
        e@ == parse_error(path@, line, bad_node_message(bad@)),
{
    let mut m = owned("invalid node spec ");
    let b = from_chars(bad);
    let d = debug_quoted(b.as_str());
    push_str(&mut m, d.as_str());
    proof {
        reveal_strlit("invalid node spec ");
    }
    CfError::Parse { path: owned(path), line, message: m }
}

fn parse_part(part: &[char], path: &str, line: usize) -> (r: Result<Vec<u32>, CfError>)
    ensures
        match part_nodes(part@) {
            Ok(ns) => r is Ok && r->Ok_0@ == ns,
            Err(b) => r is Err && r->Err_0@ == parse_error(path@, line, bad_node_message(b)),
        },
{
    match find_char(part, '-') {
        Some(i) => {
            proof {
                lemma_first_pos(part@, '-', i as int);
            }
            assert(i < part.len());
            let a = sub_chars(part, 0, i);
            let b = sub_chars(part, i + 1, part.len());
            proof {
                assert(part@.subrange(0, i as int) =~= part@.take(i as int));
                assert(part@.subrange(i + 1, part@.len() as int) =~= part@.skip(i + 1));
            }
            let sa = from_chars(a.as_slice());
            let s = match parse_u32(sa.as_str()) {
                Some(v) => v,
                None => return Err(node_error(a.as_slice(), path, line)),
            };
            let sb = from_chars(b.as_slice());
            let e = match parse_u32(sb.as_str()) {
                Some(v) => v,
                None => return Err(node_error(b.as_slice(), path, line)),
            };
            let mut out: Vec<u32> = Vec::new();
            if s <= e {
                push_range(&mut out, s, e);
            } else {
                push_range(&mut out, e, s);
            }
            proof {
                assert(out@ =~= seq![] + out@);
            }
            Ok(out)
        },
        None => {
            proof {
                lemma_no_pos(part@, '-');
            }
            let sp = from_chars(part);
            match parse_u32(sp.as_str()) {
                Some(n) => {
                    let mut out: Vec<u32> = Vec::new();
                    out.push(n);
                    proof {
                        assert(out@ =~= seq![n]);
                    }
                    Ok(out)
                },
                None => Err(node_error(part, path, line)),
            }
        },
    }
}

/// The nodes of a node specification like `1,3-5`; an invalid number is reported
/// with the line it came from.
pub fn parse_node_spec(raw: &str, path: &str, line: usize) -> (r: Result<Vec<u32>, CfError>)
    ensures
        match node_spec(raw@) {
            Ok(ns) => r is Ok && r->Ok_0@ == ns,
            Err(b) => r is Err && r->Err_0@ == parse_error(path@, line, bad_node_message(b)),
        },
{
    let cs = to_chars(raw);
    let parts = split_vec(cs.as_slice(), ',');
    let ghost ps = cviews(parts@);
    let mut nodes: Vec<u32> = Vec::new();
    let mut i: usize = 0;
    proof {
        assert(ps.skip(0) =~= ps);
        assert(nodes@ + seq![] =~= nodes@);
    }
    while i < parts.len()
        invariant
            0 <= i <= parts.len(),
            ps == cviews(parts@),
            ps == split_spec(raw@, ','),
            node_spec(raw@) == match parts_nodes(ps.skip(i as int)) {
                Ok(r) => Ok(nodes@ + r),
                Err(b) => Err(b),
            },
        decreases parts.len() - i,
    {
        proof {
            assert(ps.skip(i as int)[0] == parts@[i as int]@);
            assert(ps.skip(i as int).drop_first() =~= ps.skip(i + 1));
        }
        let got = parse_part(parts[i].as_slice(), path, line);
        match got {
            Ok(ns) => {
                let ghost n0 = nodes@;
                let mut k: usize = 0;
                while k < ns.len()
                    invariant
                        0 <= k <= ns.len(),
                        nodes@ == n0 + ns@.take(k as int),
                    decreases ns.len() - k,
                {
                    nodes.push(ns[k]);
                    k += 1;
                    proof {
                        assert(nodes@ =~= n0 + ns@.take(k as int));
                    }
                }
                proof {
                    assert(ns@.take(ns@.len() as int) =~= ns@);
                    match parts_nodes(ps.skip(i + 1)) {
                        Ok(r) => {
                            assert(n0 + (ns@ + r) =~= (n0 + ns@) + r);
                        },
                        Err(_) => {},
                    }
                }
            },
            Err(e) => {
                return Err(e);
            },
        }
        i += 1;
    }
    proof {
        assert(ps.skip(ps.len() as int).len() == 0);
        assert(nodes@ + seq![] =~= nodes@);
    }
    Ok(nodes)
}

/// The value of a raw field: an integer (none when empty) for `int` features, else the
/// decoded string; `None` for an invalid integer.
pub open spec fn value_spec(raw: Seq<char>, value_type: Seq<char>) -> Option<Option<FValue>> {
    if value_type == "int"@ {
        if raw.len() == 0 {
            Some(None)
        } else {
            match parse_i64_spec(raw) {
                Some(v) => Some(Some(FValue::Int(v))),
                None => None,
            }
        }
    } else {
        Some(Some(FValue::Str(tf_decode(raw))))
    }
}

pub open spec fn bad_int_message(raw: Seq<char>) -> Seq<char> {
    "expected integer value, got "@ + debug_text(raw)
}

pub open spec fn opt_value(o: Option<FeatureValue>) -> Option<FValue> {
    match o {
        Some(v) => Some(v@),
        None => None,
    }
}

/// The value of a raw field of a feature of type `value_type`.
pub fn parse_value(raw: &str, value_type: &str, path: &str, line: usize) -> (r: Result<Option<FeatureValue>, CfError>)
    ensures
        match value_spec(raw@, value_type@) {
            Some(v) => r is Ok && opt_value(r->Ok_0) == v,
            None => r is Err && r->Err_0@ == parse_error(path@, line, bad_int_message(raw@)),
        },
{
    proof {
        reveal_strlit("int");
        reveal_strlit("expected integer value, got ");
    }
    if crate::strs::str_eq(value_type, "int") {
        if raw.unicode_len() == 0 {
            return Ok(None);
        }
        match parse_i64(raw) {
            Some(v) => Ok(Some(FeatureValue::Int(v))),
            None => {
                let mut m = owned("expected integer value, got ");
                let d = debug_quoted(raw);
                push_str(&mut m, d.as_str());
                Err(CfError::Parse { path: owned(path), line, message: m })
            },
        }
    } else {
        Ok(Some(FeatureValue::Str(value_from_tf(raw))))
    }
}

/// The kind of a `.tf` file.
#[derive(Debug, Clone, Copy, PartialEq, Eq)]
pub enum TfFeatureKind {
    Node,
    Edge,
    Config,
}

/// The header of a `.tf` file: the feature's name, kind and metadata.
#[derive(Debug, Clone, PartialEq, Eq)]
pub struct TfFeatureMetadata {
    pub name: String,
    pub kind: TfFeatureKind,
    pub metadata: Metadata,
}

/// A parsed header and the index of the first data line.
#[derive(Debug)]
pub struct ParsedHeader {
    pub name: String,
    pub kind: TfFeatureKind,
    pub metadata: Metadata,
    pub next: usize,
}

/// The kind named by the first line (trailing whitespace ignored).
pub open spec fn kind_of(first: Seq<char>) -> Option<TfFeatureKind> {
    let t = trim_end_spec(first);
    if t == "@node"@ {
        Some(TfFeatureKind::Node)
    } else if t == "@edge"@ {
        Some(TfFeatureKind::Edge)
    } else if t == "@config"@ {
        Some(TfFeatureKind::Config)
    } else {
        None
    }
}

/// The metadata entry of an `@key=value` or `@key` line (after the `@`).
pub open spec fn meta_entry(rest: Seq<char>) -> (Seq<char>, Option<Seq<char>>) {
    match first_pos(rest, '=') {
        Some(i) => (rest.take(i), Some(rest.skip(i + 1))),
        None => (rest, None),
    }
}

/// The index of the first empty line at or after `k` (the end when there is none).
pub open spec fn meta_stop(lines: Seq<Seq<char>>, k: int) -> int
    decreases lines.len() - k,
{
    if k >= lines.len() {
        lines.len() as int
    } else if lines[k].len() == 0 {
        k
    } else {
        meta_stop(lines, k + 1)
    }
}

/// The first line from `k` up to the empty line that is not a metadata line.
pub open spec fn meta_bad(lines: Seq<Seq<char>>, k: int) -> Option<int>
    decreases lines.len() - k,
{
    if k >= lines.len() || lines[k].len() == 0 {
        None
    } else if lines[k][0] != '@' {
        Some(k)
    } else {
        meta_bad(lines, k + 1)
    }
}

/// The index of the first data line: after the empty line that ends the metadata.
pub open spec fn data_start(lines: Seq<Seq<char>>) -> int {
    if meta_stop(lines, 1) < lines.len() { meta_stop(lines, 1) + 1 } else { lines.len() as int }
}

/// The metadata of lines `1..k`: for each key, its last entry.
pub open spec fn meta_of(lines: Seq<Seq<char>>, k: int, key: Seq<char>) -> Option<Option<Seq<char>>>
    decreases k,
{
    if k <= 1 {
        None
    } else if meta_entry(lines[k - 1].drop_first()).0 == key {
        Some(meta_entry(lines[k - 1].drop_first()).1)
    } else {
        meta_of(lines, k - 1, key)
    }
}

/// The metadata after folding `desc` (with its example `eg`) into `description`,
/// unless a description is given.
pub open spec fn normalized(l: spec_fn(Seq<char>) -> Option<Option<Seq<char>>>, key: Seq<char>) -> Option<Option<Seq<char>>> {
    if l("description"@) is Some {
        l(key)
    } else {
        match l("desc"@) {
            None => l(key),
            Some(None) => if key == "desc"@ { None } else { l(key) },
            Some(Some(d)) => if key == "desc"@ || key == "eg"@ {
                None
            } else if key == "description"@ {
                Some(Some(match l("eg"@) {
                    Some(Some(eg)) => if eg.len() > 0 { d + " ("@ + eg + ")"@ } else { d },
                    _ => d,
                }))
            } else {
                l(key)
            },
        }
    }
}

/// Folds `desc` and `eg` into `description`.
pub fn normalize_metadata(m: &mut Metadata)
    ensures
        forall|k: Seq<char>| #![trigger meta_lookup(final(m)@, k)]
            meta_lookup(final(m)@, k) == normalized(|q: Seq<char>| meta_lookup(old(m)@, q), k),
{
    proof {
        reveal_strlit("description");
        reveal_strlit("desc");
        reveal_strlit("eg");
        reveal_strlit(" (");
        reveal_strlit(")");
    }
    let ghost m0 = m@;
    let ghost l = |q: Seq<char>| meta_lookup(m0, q);
    if meta_contains(m, "description") {
        proof {
            assert forall|k: Seq<char>| #![trigger meta_lookup(m@, k)] meta_lookup(m@, k) == normalized(l, k) by {
                assert(l("description"@) is Some);
            }
        }
        return;
    }
    let d0 = meta_remove(m, "desc");
    let ghost m1 = m@;
    let desc = match d0 {
        Some(Some(d)) => d,
        _ => {
            proof {
                assert forall|k: Seq<char>| #![trigger meta_lookup(m@, k)] meta_lookup(m@, k) == normalized(l, k) by {
                    assert(l("description"@) is None);
                    assert(l("desc"@) == crate::value::opt_opt_str(d0));
                }
            }
            return;
        },
    };
    let eg = meta_remove(m, "eg");
    let ghost m2 = m@;
    let ghost desc_v = desc@;
    let description = match eg {
        Some(Some(e)) => if e.unicode_len() > 0 {
            let mut t = desc;
            push_str(&mut t, " (");
            push_str(&mut t, e.as_str());
            push_str(&mut t, ")");
            t
        } else {
            desc
        },
        _ => desc,
    };
    proof {
        assert(l("desc"@) == Some(Some(desc_v)));
        reveal_strlit("eg");
        reveal_strlit("desc");
        assert("eg"@.len() == 2 && "desc"@.len() == 4);
        assert("eg"@ != "desc"@);
        assert(meta_lookup(m1, "eg"@) == meta_lookup(m0, "eg"@));
        assert(l("eg"@) == crate::value::opt_opt_str(eg));
        assert(Some(Some(description@)) == normalized(l, "description"@));
    }
    meta_insert(m, owned("description"), Some(description));
    proof {
        assert forall|k: Seq<char>| #![trigger meta_lookup(m@, k)] meta_lookup(m@, k) == normalized(l, k) by {
            assert(l("description"@) is None);
            if k == "description"@ {
            } else if k == "desc"@ {
                assert(meta_lookup(m@, k) == meta_lookup(m2, k));
                assert(meta_lookup(m2, k) == meta_lookup(m1, k));
            } else if k == "eg"@ {
                assert(meta_lookup(m@, k) == meta_lookup(m2, k));
            } else {
                assert(meta_lookup(m@, k) == meta_lookup(m2, k));
                assert(meta_lookup(m2, k) == meta_lookup(m1, k));
                assert(meta_lookup(m1, k) == meta_lookup(m0, k));
            }
        }
    }
}

pub open spec fn header_error(path: Seq<char>, lines: Seq<Seq<char>>) -> Option<CfErrorView> {
    if lines.len() == 0 {
        Some(parse_error(path, 1, "empty feature file"@))
    } else if kind_of(lines[0]) is None {
        Some(parse_error(path, 1, "missing @node/@edge/@config header, got "@ + debug_text(trim_end_spec(lines[0]))))
    } else {
        match meta_bad(lines, 1) {
            Some(k) => Some(parse_error(path, (k + 1) as usize, "missing blank line after metadata"@)),
            None => None,
        }
    }
}

/// Reads the header of a `.tf` file: the kind line, the metadata lines up to the first
/// empty line, with `desc`/`eg` folded into `description`.
pub fn read_header_and_metadata(path: &str, name: &str, lines: &[String]) -> (r: Result<ParsedHeader, CfError>)
    ensures
        match header_error(path@, views(lines@)) {
            Some(e) => r is Err && r->Err_0@ == e,
            None => r is Ok && {
                let h = r->Ok_0;
                &&& h.name@ == name@
                &&& Some(h.kind) == kind_of(views(lines@)[0])
                &&& h.next == data_start(views(lines@))
                &&& forall|k: Seq<char>| #![trigger meta_lookup(h.metadata@, k)]
                    meta_lookup(h.metadata@, k) == normalized(|q: Seq<char>| meta_of(views(lines@), meta_stop(views(lines@), 1), q), k)
            },
        },
{
    proof {
        reveal_strlit("empty feature file");
        reveal_strlit("@node");
        reveal_strlit("@edge");
        reveal_strlit("@config");
        reveal_strlit("missing @node/@edge/@config header, got ");
        reveal_strlit("missing blank line after metadata");
    }
    let ghost ls = views(lines@);
    if lines.len() == 0 {
        return Err(CfError::Parse { path: owned(path), line: 1, message: owned("empty feature file") });
    }
    let first = crate::strs::trim_end_str(lines[0].as_str());
    proof {
        assert(ls[0] == lines@[0]@);
    }
    let kind = if crate::strs::string_eq(&first, "@node") {
        TfFeatureKind::Node
    } else if crate::strs::string_eq(&first, "@edge") {
        TfFeatureKind::Edge
    } else if crate::strs::string_eq(&first, "@config") {
        TfFeatureKind::Config
    } else {
        let mut m = owned("missing @node/@edge/@config header, got ");
        let d = debug_quoted(first.as_str());
        push_str(&mut m, d.as_str());
        return Err(CfError::Parse { path: owned(path), line: 1, message: m });
    };
    let mut metadata: Metadata = Vec::new();
    let mut k: usize = 1;
    let mut stop = false;
    while k < lines.len() && !stop
        invariant
            1 <= k <= lines.len(),
            ls == views(lines@),
            ls.len() == lines.len(),
            kind_of(ls[0]) is Some,
            stop ==> k < lines.len() && meta_stop(ls, 1) == k && meta_bad(ls, 1) is None,
            !stop ==> meta_stop(ls, 1) == meta_stop(ls, k as int) && meta_bad(ls, 1) == meta_bad(ls, k as int),
            forall|q: Seq<char>| #![trigger meta_lookup(metadata@, q)] meta_lookup(metadata@, q) == meta_of(ls, k as int, q),
        decreases lines.len() - k + (if stop { 0int } else { 1int }),
    {
        let line = &lines[k];
        proof {
            assert(ls[k as int] == line@);
        }
        let cs = to_chars(line.as_str());
        if cs.len() == 0 {
            stop = true;
        } else if cs[0] == '@' {
            let rest = sub_chars(cs.as_slice(), 1, cs.len());
            proof {
                assert(cs@.subrange(1, cs@.len() as int) =~= cs@.drop_first());
            }
            match find_char(rest.as_slice(), '=') {
                Some(i) => {
                    proof {
                        lemma_first_pos(rest@, '=', i as int);
                        assert(rest@.subrange(0, i as int) =~= rest@.take(i as int));
                        assert(rest@.subrange(i + 1, rest@.len() as int) =~= rest@.skip(i + 1));
                    }
                    assert(i < rest.len());
                    let key = from_chars(sub_chars(rest.as_slice(), 0, i).as_slice());
                    let value = from_chars(sub_chars(rest.as_slice(), i + 1, rest.len()).as_slice());
                    meta_insert(&mut metadata, key, Some(value));
                },
                None => {
                    proof {
                        lemma_no_pos(rest@, '=');
                    }
                    let key = from_chars(rest.as_slice());
                    meta_insert(&mut metadata, key, None);
                },
            }
            k += 1;
        } else {
            proof {
                assert(meta_bad(ls, k as int) == Some(k as int));
            }
            return Err(CfError::Parse { path: owned(path), line: k + 1, message: owned("missing blank line after metadata") });
        }
    }
    let next: usize = if stop { k + 1 } else { k };
    normalize_metadata(&mut metadata);
    Ok(ParsedHeader { name: owned(name), kind, metadata, next })
}

/// Reads the header of a `.tf` file: the feature's name, kind and metadata.
pub fn parse_tf_file_metadata(path: &str, name: &str, lines: &[String]) -> (r: Result<TfFeatureMetadata, CfError>)
    ensures
        match header_error(path@, views(lines@)) {
            Some(e) => r is Err && r->Err_0@ == e,
            None => r is Ok && {
                let h = r->Ok_0;
                &&& h.name@ == name@
                &&& Some(h.kind) == kind_of(views(lines@)[0])
                &&& forall|k: Seq<char>| #![trigger meta_lookup(h.metadata@, k)]
                    meta_lookup(h.metadata@, k) == normalized(|q: Seq<char>| meta_of(views(lines@), meta_stop(views(lines@), 1), q), k)
            },
        },
{
    let h = read_header_and_metadata(path, name, lines)?;
    Ok(TfFeatureMetadata { name: h.name, kind: h.kind, metadata: h.metadata })
}

/// The node after `n`, wrapping to 0 after the largest.
pub open spec fn next_node(n: u32) -> u32 {
    if n == u32::MAX { 0 } else { (n + 1) as u32 }
}

/// The largest node of a non-empty list.
pub open spec fn seq_max(s: Seq<u32>) -> u32
    decreases s.len(),
{
    if s.len() <= 1 {
        s[0]
    } else if s.last() >= seq_max(s.drop_last()) {
        s.last()
    } else {
        seq_max(s.drop_last())
    }
}

/// `m` with each node of `ns` set to `v`.
pub open spec fn insert_all(m: Map<u32, FValue>, ns: Seq<u32>, v: FValue) -> Map<u32, FValue>
    decreases ns.len(),
{
    if ns.len() == 0 {
        m
    } else {
        insert_all(m, ns.drop_last(), v).insert(ns.last(), v)
    }
}

pub open spec fn map_get(m: Map<u32, FValue>, n: u32) -> Option<FValue> {
    if m.contains_key(n) { Some(m[n]) } else { None }
}

/// One data line of a node feature, applied to the next implicit node and the values.
pub open spec fn node_line(path: Seq<char>, vt: Seq<char>, st: (u32, Map<u32, FValue>), ln: usize, text: Seq<char>) -> Result<(u32, Map<u32, FValue>), CfErrorView> {
    let fields = split_spec(text, '\t');
    if text.len() == 0 {
        Ok(st)
    } else if fields.len() > 2 {
        Err(parse_error(path, ln, "node feature line has too many fields"@))
    } else {
        let nodes = if fields.len() == 1 { Ok(seq![st.0]) } else { node_spec(fields[0]) };
        match nodes {
            Err(b) => Err(parse_error(path, ln, bad_node_message(b))),
            Ok(ns) => {
                let implicit = next_node(seq_max(ns));
                let raw = if fields.len() == 1 { fields[0] } else { fields[1] };
                match value_spec(raw, vt) {
                    None => Err(parse_error(path, ln, bad_int_message(raw))),
                    Some(None) => Ok((implicit, st.1)),
                    Some(Some(v)) => Ok((implicit, insert_all(st.1, ns, v))),
                }
            },
        }
    }
}

/// The data lines `start..end` of a node feature (line `i` is numbered `i + 1`).
pub open spec fn node_lines(path: Seq<char>, vt: Seq<char>, lines: Seq<Seq<char>>, start: int, end: int) -> Result<(u32, Map<u32, FValue>), CfErrorView>
    decreases end - start,
{
    if end <= start {
        Ok((1u32, Map::empty()))
    } else {
        match node_lines(path, vt, lines, start, end - 1) {
            Err(e) => Err(e),
            Ok(st) => node_line(path, vt, st, end as usize, lines[end - 1]),
        }
    }
}

fn max_node(ns: &Vec<u32>) -> (m: u32)
    requires
        ns@.len() > 0,
    ensures
        m == seq_max(ns@),
{
    let mut m = ns[0];
    let mut i: usize = 1;
    proof {
        assert(ns@.take(1).drop_last() =~= Seq::<u32>::empty());
    }
    while i < ns.len()
        invariant
            1 <= i <= ns.len(),
            m == seq_max(ns@.take(i as int)),
        decreases ns.len() - i,
    {
        proof {
            assert(ns@.take(i + 1).drop_last() =~= ns@.take(i as int));
        }
        if ns[i] >= m {
            m = ns[i];
        }
        i += 1;
    }
    proof {
        assert(ns@.take(ns@.len() as int) =~= ns@);
    }
    m
}

fn insert_nodes(values: &mut HashMap<u32, FeatureValue>, ns: &Vec<u32>, v: &FeatureValue, Ghost(m): Ghost<Map<u32, FValue>>)
    requires
        forall|n: u32| #[trigger] fv_at(old(values)@, n) == map_get(m, n),
    ensures
        forall|n: u32| #[trigger] fv_at(final(values)@, n) == map_get(insert_all(m, ns@, v@), n),
{
    let mut i: usize = 0;
    while i < ns.len()
        invariant
            0 <= i <= ns.len(),
            forall|n: u32| #[trigger] fv_at(values@, n) == map_get(insert_all(m, ns@.take(i as int), v@), n),
        decreases ns.len() - i,
    {
        proof {
            assert(ns@.take(i + 1).drop_last() =~= ns@.take(i as int));
        }
        let ghost before = values@;
        values.insert(ns[i], v.duplicate());
        proof {
            assert forall|n: u32| #[trigger] fv_at(values@, n) == map_get(insert_all(m, ns@.take(i + 1), v@), n) by {
                if n != ns@[i as int] {
                    assert(fv_at(values@, n) == fv_at(before, n));
                }
            }
        }
        i += 1;
    }
    proof {
        assert(ns@.take(ns@.len() as int) =~= ns@);
    }
}

fn parse_error_exec(path: &str, line: usize, message: &str) -> (e: CfError)
    ensures
        e@ == parse_error(path@, line, message@),
{
    CfError::Parse { path: owned(path), line, message: owned(message) }
}

/// The node feature of the data lines `start..` of a `.tf` file.
pub fn parse_node_feature(name: String, metadata: Metadata, lines: &[String], start: usize, path: &str) -> (r: Result<TfFeature, CfError>)
    requires
        start <= lines@.len(),
    ensures
        match node_lines(path@, vt_of(metadata@), views(lines@), start as int, lines@.len() as int) {
            Err(e) => r is Err && r->Err_0@ == e,
            Ok(st) => r is Ok && (r->Ok_0 matches TfFeature::Node(f) && {
                &&& f.name == name
                &&& f.metadata == metadata
                &&& f.is_indexed() == (name@ != "otype"@)
                &&& forall|n: u32| #[trigger] fv_at(f.values@, n) == map_get(st.1, n)
            }),
        },
{
    proof {
        reveal_strlit("node feature line has too many fields");
        reveal_strlit("str");
        reveal_strlit("valueType");
        reveal_strlit("otype");
    }
    let ghost ls = views(lines@);
    let vt: String = match crate::value::metadata_value(&metadata, "valueType") {
        Some(v) => owned(v),
        None => owned("str"),
    };
    proof {
        assert(vt@ == vt_of(metadata@));
    }
    let mut values: HashMap<u32, FeatureValue> = HashMap::new();
    let mut implicit: u32 = 1;
    let ghost mut m: Map<u32, FValue> = Map::empty();
    let mut i: usize = start;
    while i < lines.len()
        invariant
            start <= i <= lines.len(),
            ls == views(lines@),
            vt@ == vt_of(metadata@),
            node_lines(path@, vt@, ls, start as int, i as int) == Ok::<(u32, Map<u32, FValue>), CfErrorView>((implicit, m)),
            forall|n: u32| #[trigger] fv_at(values@, n) == map_get(m, n),
        decreases lines.len() - i,
    {
        let line = &lines[i];
        proof {
            assert(ls[i as int] == line@);
        }
        let ln = i + 1;
        let cs = to_chars(line.as_str());
        if cs.len() > 0 {
            let fields = split_vec(cs.as_slice(), '\t');
            let ghost fs = cviews(fields@);
            if fields.len() > 2 {
                let e = parse_error_exec(path, ln, "node feature line has too many fields");
                proof {
                    lemma_node_lines_err(path@, vt@, ls, start as int, i + 1, lines@.len() as int);
                }
                return Err(e);
            }
            let nodes: Vec<u32> = if fields.len() == 1 {
                let mut v = Vec::new();
                v.push(implicit);
                proof {
                    assert(v@ =~= seq![implicit]);
                }
                v
            } else {
                let f0 = from_chars(fields[0].as_slice());
                proof {
                    assert(fs[0] == fields@[0]@);
                }
                match parse_node_spec(f0.as_str(), path, ln) {
                    Ok(v) => v,
                    Err(e) => {
                        proof {
                            lemma_node_lines_err(path@, vt@, ls, start as int, i + 1, lines@.len() as int);
                        }
                        return Err(e);
                    },
                }
            };
            proof {
                if fields.len() == 2 {
                    assert(node_spec(fs[0]) matches Ok(ns) && ns == nodes@);
                }
            }
            let raw = if fields.len() == 1 { from_chars(fields[0].as_slice()) } else { from_chars(fields[1].as_slice()) };
            proof {
                assert(fs[0] == fields@[0]@);
                if fields.len() == 2 {
                    assert(fs[1] == fields@[1]@);
                }
                assert(nodes@.len() > 0) by {
                    if fields.len() == 2 {
                        lemma_node_spec_nonempty(fs[0]);
                    }
                }
            }
            let mx = max_node(&nodes);
            let next_implicit: u32 = if mx == u32::MAX { 0 } else { mx + 1 };
            let parsed = match parse_value(raw.as_str(), vt.as_str(), path, ln) {
                Ok(p) => p,
                Err(e) => {
                    proof {
                        lemma_node_lines_err(path@, vt@, ls, start as int, i + 1, lines@.len() as int);
                    }
                    return Err(e);
                },
            };
            match parsed {
                Some(v) => {
                    insert_nodes(&mut values, &nodes, &v, Ghost(m));
                    proof {
                        m = insert_all(m, nodes@, v@);
                    }
                },
                None => {},
            }
            implicit = next_implicit;
        }
        proof {
            assert(node_lines(path@, vt@, ls, start as int, i + 1) == Ok::<(u32, Map<u32, FValue>), CfErrorView>((implicit, m)));
        }
        i += 1;
    }
    let build_index = !crate::strs::string_eq(&name, "otype");
    Ok(TfFeature::Node(NodeFeature::new_with_indexing(name, metadata, values, build_index)))
}

proof fn lemma_node_lines_err(path: Seq<char>, vt: Seq<char>, ls: Seq<Seq<char>>, start: int, k: int, end: int)
    requires
        start < k <= end,
        node_lines(path, vt, ls, start, k) is Err,
    ensures
        node_lines(path, vt, ls, start, end) == node_lines(path, vt, ls, start, k),
    decreases end - k,
{
    if end > k {
        lemma_node_lines_err(path, vt, ls, start, k, end - 1);
    }
}

/// The declared value type of a feature (`str` when undeclared).
pub open spec fn vt_of(m: Seq<(String, Option<String>)>) -> Seq<char> {
    match crate::value::metadata_value_spec(m, "valueType"@) {
        Some(v) => v,
        None => "str"@,
    }
}

proof fn lemma_node_spec_nonempty(raw: Seq<char>)
    requires
        node_spec(raw) is Ok,
    ensures
        node_spec(raw)->Ok_0.len() > 0,
{
    let parts = split_spec(raw, ',');
    crate::strs::lemma_split_nonempty(raw, ',');
    lemma_parts_first(parts);
}

proof fn lemma_parts_first(parts: Seq<Seq<char>>)
    requires
        parts.len() > 0,
        parts_nodes(parts) is Ok,
    ensures
        parts_nodes(parts)->Ok_0.len() > 0,
{
    let p = parts[0];
    match first_pos(p, '-') {
        Some(i) => {
            match (parse_u32_spec(p.take(i)), parse_u32_spec(p.skip(i + 1))) {
                (Some(s), Some(e)) => {
                    if s <= e {
                        assert(range_seq(s, e).len() > 0);
                    } else {
                        assert(range_seq(e, s).len() > 0);
                    }
                },
                _ => {},
            }
        },
        None => {},
    }
}

/// The target list of `s` (empty without one).
pub open spec fn list_of(m: Map<u32, Seq<u32>>, s: u32) -> Seq<u32> {
    if m.contains_key(s) { m[s] } else { seq![] }
}

/// `m` with `targets` appended to the list of each source.
pub open spec fn append_targets(m: Map<u32, Seq<u32>>, sources: Seq<u32>, targets: Seq<u32>) -> Map<u32, Seq<u32>>
    decreases sources.len(),
{
    if sources.len() == 0 {
        m
    } else {
        let prev = append_targets(m, sources.drop_last(), targets);
        prev.insert(sources.last(), list_of(prev, sources.last()) + targets)
    }
}

/// `m` with the value `v` on each edge from `s` to `targets`.
pub open spec fn set_values(m: Map<(u32, u32), FValue>, s: u32, targets: Seq<u32>, v: FValue) -> Map<(u32, u32), FValue>
    decreases targets.len(),
{
    if targets.len() == 0 {
        m
    } else {
        set_values(m, s, targets.drop_last(), v).insert((s, targets.last()), v)
    }
}

/// `m` with the value `v` on each edge from `sources` to `targets`.
pub open spec fn set_all_values(m: Map<(u32, u32), FValue>, sources: Seq<u32>, targets: Seq<u32>, v: FValue) -> Map<(u32, u32), FValue>
    decreases sources.len(),
{
    if sources.len() == 0 {
        m
    } else {
        set_values(set_all_values(m, sources.drop_last(), targets, v), sources.last(), targets, v)
    }
}

pub open spec fn pair_get(m: Map<(u32, u32), FValue>, s: u32, t: u32) -> Option<FValue> {
    if m.contains_key((s, t)) { Some(m[(s, t)]) } else { None }
}

pub type EdgeState = (u32, Map<u32, Seq<u32>>, Map<(u32, u32), FValue>);

/// One data line of an edge feature: `targets`, `sources<TAB>targets` or
/// `sources<TAB>targets<TAB>value`.
pub open spec fn edge_line(path: Seq<char>, vt: Seq<char>, has_ev: bool, st: EdgeState, ln: usize, text: Seq<char>) -> Result<EdgeState, CfErrorView> {
    let fields = split_spec(text, '\t');
    if text.len() == 0 {
        Ok(st)
    } else if fields.len() > 3 {
        Err(parse_error(path, ln, "edge feature line has too many fields"@))
    } else {
        let src = if fields.len() >= 2 { node_spec(fields[0]) } else { Ok(seq![st.0]) };
        let tgt = if fields.len() >= 2 { node_spec(fields[1]) } else { node_spec(fields[0]) };
        match src {
            Err(b) => Err(parse_error(path, ln, bad_node_message(b))),
            Ok(sources) => match tgt {
                Err(b) => Err(parse_error(path, ln, bad_node_message(b))),
                Ok(targets) => {
                    let implicit = next_node(seq_max(sources));
                    let vals = append_targets(st.1, sources, targets);
                    if has_ev && fields.len() == 3 {
                        match value_spec(fields[2], vt) {
                            None => Err(parse_error(path, ln, bad_int_message(fields[2]))),
                            Some(None) => Ok((implicit, vals, st.2)),
                            Some(Some(v)) => Ok((implicit, vals, set_all_values(st.2, sources, targets, v))),
                        }
                    } else {
                        Ok((implicit, vals, st.2))
                    }
                },
            },
        }
    }
}

/// The data lines `start..end` of an edge feature.
pub open spec fn edge_lines(path: Seq<char>, vt: Seq<char>, has_ev: bool, lines: Seq<Seq<char>>, start: int, end: int) -> Result<EdgeState, CfErrorView>
    decreases end - start,
{
    if end <= start {
        Ok((1u32, Map::empty(), Map::empty()))
    } else {
        match edge_lines(path, vt, has_ev, lines, start, end - 1) {
            Err(e) => Err(e),
            Ok(st) => edge_line(path, vt, has_ev, st, end as usize, lines[end - 1]),
        }
    }
}

proof fn lemma_edge_lines_err(path: Seq<char>, vt: Seq<char>, has_ev: bool, ls: Seq<Seq<char>>, start: int, k: int, end: int)
    requires
        start < k <= end,
        edge_lines(path, vt, has_ev, ls, start, k) is Err,
    ensures
        edge_lines(path, vt, has_ev, ls, start, end) == edge_lines(path, vt, has_ev, ls, start, k),
    decreases end - k,
{
    if end > k {
        lemma_edge_lines_err(path, vt, has_ev, ls, start, k, end - 1);
    }
}

fn append_to_sources(values: &mut HashMap<u32, Vec<u32>>, sources: &Vec<u32>, targets: &Vec<u32>, Ghost(m): Ghost<Map<u32, Seq<u32>>>)
    requires
        forall|n: u32| #[trigger] crate::feature::tg_or_empty(old(values)@, n) == list_of(m, n),
        forall|n: u32| #[trigger] old(values)@.contains_key(n) == m.contains_key(n),
    ensures
        forall|n: u32| #[trigger] crate::feature::tg_or_empty(final(values)@, n) == list_of(append_targets(m, sources@, targets@), n),
        forall|n: u32| #[trigger] final(values)@.contains_key(n) == append_targets(m, sources@, targets@).contains_key(n),
{
    let mut i: usize = 0;
    while i < sources.len()
        invariant
            0 <= i <= sources.len(),
            forall|n: u32| #[trigger] crate::feature::tg_or_empty(values@, n) == list_of(append_targets(m, sources@.take(i as int), targets@), n),
            forall|n: u32| #[trigger] values@.contains_key(n) == append_targets(m, sources@.take(i as int), targets@).contains_key(n),
        decreases sources.len() - i,
    {
        proof {
            assert(sources@.take(i + 1).drop_last() =~= sources@.take(i as int));
        }
        let s = sources[i];
        let ghost before = values@;
        let mut list: Vec<u32> = match values.remove(&s) {
            Some(l) => l,
            None => Vec::new(),
        };
        let ghost l0 = list@;
        proof {
            assert(l0 == crate::feature::tg_or_empty(before, s));
        }
        let mut k: usize = 0;
        while k < targets.len()
            invariant
                0 <= k <= targets.len(),
                list@ == l0 + targets@.take(k as int),
            decreases targets.len() - k,
        {
            list.push(targets[k]);
            k += 1;
            proof {
                assert(list@ =~= l0 + targets@.take(k as int));
            }
        }
        proof {
            assert(targets@.take(targets@.len() as int) =~= targets@);
        }
        values.insert(s, list);
        proof {
            assert forall|n: u32| #[trigger] crate::feature::tg_or_empty(values@, n) == list_of(append_targets(m, sources@.take(i + 1), targets@), n) by {
                if n != s {
                    assert(crate::feature::tg_or_empty(values@, n) == crate::feature::tg_or_empty(before, n));
                }
            }
            assert forall|n: u32| #[trigger] values@.contains_key(n) == append_targets(m, sources@.take(i + 1), targets@).contains_key(n) by {
                if n != s {
                    assert(values@.contains_key(n) == before.contains_key(n));
                }
            }
        }
        i += 1;
    }
    proof {
        assert(sources@.take(sources@.len() as int) =~= sources@);
    }
}

fn set_edge_values(ev: &mut HashMap<u32, HashMap<u32, FeatureValue>>, sources: &Vec<u32>, targets: &Vec<u32>, v: &FeatureValue, Ghost(m): Ghost<Map<(u32, u32), FValue>>)
    requires
        forall|s: u32, t: u32| #[trigger] crate::feature::ev_at(old(ev)@, s, t) == pair_get(m, s, t),
    ensures
        forall|s: u32, t: u32| #[trigger] crate::feature::ev_at(final(ev)@, s, t) == pair_get(set_all_values(m, sources@, targets@, v@), s, t),
{
    let mut i: usize = 0;
    while i < sources.len()
        invariant
            0 <= i <= sources.len(),
            forall|s: u32, t: u32| #[trigger] crate::feature::ev_at(ev@, s, t) == pair_get(set_all_values(m, sources@.take(i as int), targets@, v@), s, t),
        decreases sources.len() - i,
    {
        proof {
            assert(sources@.take(i + 1).drop_last() =~= sources@.take(i as int));
        }
        let s = sources[i];
        let ghost m_i = set_all_values(m, sources@.take(i as int), targets@, v@);
        let ghost before = ev@;
        let mut inner: HashMap<u32, FeatureValue> = match ev.remove(&s) {
            Some(x) => x,
            None => HashMap::new(),
        };
        proof {
            assert(targets@.take(0) =~= Seq::<u32>::empty());
            assert forall|t: u32| #[trigger] fv_at(inner@, t) == pair_get(set_values(m_i, s, targets@.take(0), v@), s, t) by {
                assert(crate::feature::ev_at(before, s, t) == pair_get(m_i, s, t));
            }
        }
        let mut k: usize = 0;
        while k < targets.len()
            invariant
                0 <= k <= targets.len(),
                forall|t: u32| #[trigger] fv_at(inner@, t) == pair_get(set_values(m_i, s, targets@.take(k as int), v@), s, t),
            decreases targets.len() - k,
        {
            proof {
                assert(targets@.take(k + 1).drop_last() =~= targets@.take(k as int));
            }
            let ghost ib = inner@;
            inner.insert(targets[k], v.duplicate());
            proof {
                assert forall|t: u32| #[trigger] fv_at(inner@, t) == pair_get(set_values(m_i, s, targets@.take(k + 1), v@), s, t) by {
                    if t != targets@[k as int] {
                        assert(fv_at(inner@, t) == fv_at(ib, t));
                    }
                }
            }
            k += 1;
        }
        proof {
            assert(targets@.take(targets@.len() as int) =~= targets@);
        }
        ev.insert(s, inner);
        proof {
            assert forall|a: u32, b: u32| #[trigger] crate::feature::ev_at(ev@, a, b) == pair_get(set_all_values(m, sources@.take(i + 1), targets@, v@), a, b) by {
                if a != s {
                    assert(crate::feature::ev_at(ev@, a, b) == crate::feature::ev_at(before, a, b));
                    lemma_set_values_other(m_i, s, targets@, v@, a, b);
                } else {
                    assert(fv_at(inner@, b) == pair_get(set_values(m_i, s, targets@, v@), s, b));
                }
            }
        }
        i += 1;
    }
    proof {
        assert(sources@.take(sources@.len() as int) =~= sources@);
    }
}

proof fn lemma_set_values_other(m: Map<(u32, u32), FValue>, s: u32, ts: Seq<u32>, v: FValue, a: u32, b: u32)
    requires
        a != s,
    ensures
        pair_get(set_values(m, s, ts, v), a, b) == pair_get(m, a, b),
    decreases ts.len(),
{
    if ts.len() > 0 {
        lemma_set_values_other(m, s, ts.drop_last(), v, a, b);
    }
}

/// The edge feature of the data lines `start..` of a `.tf` file.
pub fn parse_edge_feature(name: String, metadata: Metadata, lines: &[String], start: usize, path: &str) -> (r: Result<TfFeature, CfError>)
    requires
        start <= lines@.len(),
    ensures
        match edge_lines(path@, vt_of(metadata@), crate::value::meta_has(metadata@, "edgeValues"@), views(lines@), start as int, lines@.len() as int) {
            Err(e) => r is Err && r->Err_0@ == e,
            Ok(st) => r is Ok && (r->Ok_0 matches TfFeature::Edge(f) && {
                &&& f.name == name
                &&& f.metadata == metadata
                &&& f.rank_table() is None
                &&& f.values@.dom() == st.1.dom()
                &&& forall|n: u32| #[trigger] f.values@.contains_key(n) ==> crate::sorting::strictly_sorted_u32(f.values@[n]@)
                    && forall|x: u32| f.values@[n]@.contains(x) <==> st.1[n].contains(x)
                &&& forall|a: u32, b: u32| #[trigger] crate::feature::ev_at(f.edge_values@, a, b) == pair_get(st.2, a, b)
            }),
        },
{
    proof {
        reveal_strlit("edge feature line has too many fields");
        reveal_strlit("str");
        reveal_strlit("valueType");
        reveal_strlit("edgeValues");
    }
    let ghost ls = views(lines@);
    let has_ev = meta_contains(&metadata, "edgeValues");
    let vt: String = match crate::value::metadata_value(&metadata, "valueType") {
        Some(v) => owned(v),
        None => owned("str"),
    };
    proof {
        assert(vt@ == vt_of(metadata@));
    }
    let mut values: HashMap<u32, Vec<u32>> = HashMap::new();
    let mut evs: HashMap<u32, HashMap<u32, FeatureValue>> = HashMap::new();
    let mut implicit: u32 = 1;
    let ghost mut vm: Map<u32, Seq<u32>> = Map::empty();
    let ghost mut em: Map<(u32, u32), FValue> = Map::empty();
    let mut i: usize = start;
    while i < lines.len()
        invariant
            start <= i <= lines.len(),
            ls == views(lines@),
            vt@ == vt_of(metadata@),
            has_ev == crate::value::meta_has(metadata@, "edgeValues"@),
            edge_lines(path@, vt@, has_ev, ls, start as int, i as int) == Ok::<EdgeState, CfErrorView>((implicit, vm, em)),
            forall|n: u32| #[trigger] crate::feature::tg_or_empty(values@, n) == list_of(vm, n),
            forall|n: u32| #[trigger] values@.contains_key(n) == vm.contains_key(n),
            forall|a: u32, b: u32| #[trigger] crate::feature::ev_at(evs@, a, b) == pair_get(em, a, b),
        decreases lines.len() - i,
    {
        let line = &lines[i];
        proof {
            assert(ls[i as int] == line@);
        }
        let ln = i + 1;
        let cs = to_chars(line.as_str());
        if cs.len() > 0 {
            let fields = split_vec(cs.as_slice(), '\t');
            let ghost fs = cviews(fields@);
            proof {
                assert(fs[0] == fields@[0]@);
            }
            if fields.len() > 3 {
                let e = parse_error_exec(path, ln, "edge feature line has too many fields");
                proof {
                    lemma_edge_lines_err(path@, vt@, has_ev, ls, start as int, i + 1, lines@.len() as int);
                }
                return Err(e);
            }
            let sources: Vec<u32> = if fields.len() >= 2 {
                let f0 = from_chars(fields[0].as_slice());
                match parse_node_spec(f0.as_str(), path, ln) {
                    Ok(v) => v,
                    Err(e) => {
                        proof {
                            lemma_edge_lines_err(path@, vt@, has_ev, ls, start as int, i + 1, lines@.len() as int);
                        }
                        return Err(e);
                    },
                }
            } else {
                let mut v = Vec::new();
                v.push(implicit);
                proof {
                    assert(v@ =~= seq![implicit]);
                }
                v
            };
            let tf = if fields.len() >= 2 { from_chars(fields[1].as_slice()) } else { from_chars(fields[0].as_slice()) };
            proof {
                if fields.len() >= 2 {
                    assert(fs[1] == fields@[1]@);
                }
            }
            let targets: Vec<u32> = match parse_node_spec(tf.as_str(), path, ln) {
                Ok(v) => v,
                Err(e) => {
                    proof {
                        lemma_edge_lines_err(path@, vt@, has_ev, ls, start as int, i + 1, lines@.len() as int);
                    }
                    return Err(e);
                },
            };
            proof {
                assert(sources@.len() > 0) by {
                    if fields.len() >= 2 {
                        lemma_node_spec_nonempty(fs[0]);
                    }
                }
            }
            let mx = max_node(&sources);
            let next_implicit: u32 = if mx == u32::MAX { 0 } else { mx + 1 };
            let parsed: Option<FeatureValue> = if has_ev && fields.len() == 3 {
                let raw = from_chars(fields[2].as_slice());
                proof {
                    assert(fs[2] == fields@[2]@);
                }
                match parse_value(raw.as_str(), vt.as_str(), path, ln) {
                    Ok(p) => p,
                    Err(e) => {
                        proof {
                            lemma_edge_lines_err(path@, vt@, has_ev, ls, start as int, i + 1, lines@.len() as int);
                        }
                        return Err(e);
                    },
                }
            } else {
                None
            };
            append_to_sources(&mut values, &sources, &targets, Ghost(vm));
            proof {
                vm = append_targets(vm, sources@, targets@);
            }
            match parsed {
                Some(v) => {
                    set_edge_values(&mut evs, &sources, &targets, &v, Ghost(em));
                    proof {
                        em = set_all_values(em, sources@, targets@, v@);
                    }
                },
                None => {},
            }
            implicit = next_implicit;
        }
        proof {
            assert(edge_lines(path@, vt@, has_ev, ls, start as int, i + 1) == Ok::<EdgeState, CfErrorView>((implicit, vm, em)));
        }
        i += 1;
    }
    let f = EdgeFeature::new_with_values(name, metadata, values, evs);
    proof {
        assert forall|n: u32| #[trigger] f.values@.contains_key(n) implies forall|x: u32| f.values@[n]@.contains(x) <==> vm[n].contains(x) by {
            assert(crate::feature::tg_or_empty(values@, n) == list_of(vm, n));
        }
        assert(f.values@.dom() =~= vm.dom());
    }
    Ok(TfFeature::Edge(f))
}

/// A `.tf` file parsed from its lines: its kind, metadata and data.
pub fn parse_tf_file(path: &str, name: &str, lines: &[String]) -> (r: Result<TfFeature, CfError>)
    ensures
        header_error(path@, views(lines@)) is Some ==> r is Err && r->Err_0@ == header_error(path@, views(lines@))->0,
        header_error(path@, views(lines@)) is None && kind_of(views(lines@)[0]) == Some(TfFeatureKind::Config) ==> r is Ok && (r->Ok_0 matches TfFeature::Config { name: n, metadata: m } && n@ == name@
            && forall|k: Seq<char>| #![trigger meta_lookup(m@, k)] meta_lookup(m@, k) == normalized(|q: Seq<char>| meta_of(views(lines@), meta_stop(views(lines@), 1), q), k)),
        header_error(path@, views(lines@)) is None && kind_of(views(lines@)[0]) == Some(TfFeatureKind::Node) ==> exists|meta: Metadata| #![trigger vt_of(meta@)] {
            &&& (forall|k: Seq<char>| #![trigger meta_lookup(meta@, k)] meta_lookup(meta@, k) == normalized(|q: Seq<char>| meta_of(views(lines@), meta_stop(views(lines@), 1), q), k))
            &&& match node_lines(path@, vt_of(meta@), views(lines@), data_start(views(lines@)), lines@.len() as int) {
                Err(e) => r is Err && r->Err_0@ == e,
                Ok(st) => r is Ok && (r->Ok_0 matches TfFeature::Node(f) && f.name@ == name@ && f.metadata == meta
                    && f.is_indexed() == (name@ != "otype"@) && forall|n: u32| #[trigger] fv_at(f.values@, n) == map_get(st.1, n)),
            }
        },
        header_error(path@, views(lines@)) is None && kind_of(views(lines@)[0]) == Some(TfFeatureKind::Edge) ==> exists|meta: Metadata| #![trigger vt_of(meta@)] {
            &&& (forall|k: Seq<char>| #![trigger meta_lookup(meta@, k)] meta_lookup(meta@, k) == normalized(|q: Seq<char>| meta_of(views(lines@), meta_stop(views(lines@), 1), q), k))
            &&& match edge_lines(path@, vt_of(meta@), crate::value::meta_has(meta@, "edgeValues"@), views(lines@), data_start(views(lines@)), lines@.len() as int) {
                Err(e) => r is Err && r->Err_0@ == e,
                Ok(st) => r is Ok && (r->Ok_0 matches TfFeature::Edge(f) && f.name@ == name@ && f.metadata == meta && f.rank_table() is None
                    && f.values@.dom() == st.1.dom()
                    && (forall|n: u32| #[trigger] f.values@.contains_key(n) ==> crate::sorting::strictly_sorted_u32(f.values@[n]@)
                        && forall|x: u32| f.values@[n]@.contains(x) <==> st.1[n].contains(x))
                    && forall|a: u32, b: u32| #[trigger] crate::feature::ev_at(f.edge_values@, a, b) == pair_get(st.2, a, b)),
            }
        },
{
    let h = read_header_and_metadata(path, name, lines)?;
    proof {
        assert(h.next <= lines@.len());
    }
    let ghost meta = h.metadata;
    match h.kind {
        TfFeatureKind::Node => parse_node_feature(h.name, h.metadata, lines, h.next, path),
        TfFeatureKind::Edge => parse_edge_feature(h.name, h.metadata, lines, h.next, path),
        TfFeatureKind::Config => Ok(TfFeature::Config { name: h.name, metadata: h.metadata }),
    }
}

} // verus!

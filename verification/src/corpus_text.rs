//! Rendering text: format templates with `{feature}` placeholders and `\t`, `\n`
//! escapes, resolved through the `fmt:` settings of `otext`.

use vstd::prelude::*;
use crate::corpus::Corpus;
use crate::corpus_misc::{first_pos, lemma_first_pos, lemma_no_pos};
use crate::corpus_types::TextOptions;
use crate::feature::fv_at;
use crate::strs::{find_char, from_chars, split_spec, split_vec, cviews, sub_chars, to_chars, owned};
use crate::value::{meta_has, meta_value, FValue};

verus! {

/// A format literal with `\t` and `\n` turned into tab and newline; other backslashes stay.
pub open spec fn render_lit(s: Seq<char>) -> Seq<char>
    decreases s.len(),
{
    if s.len() == 0 {
        seq![]
    } else if s[0] != '\\' {
        seq![s[0]] + render_lit(s.drop_first())
    } else if s.len() == 1 {
        seq!['\\']
    } else if s[1] == 't' {
        seq!['\t'] + render_lit(s.skip(2))
    } else if s[1] == 'n' {
        seq!['\n'] + render_lit(s.skip(2))
    } else {
        seq!['\\', s[1]] + render_lit(s.skip(2))
    }
}

/// The string value of feature `name` at `slot`, empty when it has none.
pub open spec fn feature_text(c: Corpus, name: Seq<char>, slot: u32) -> Seq<char> {
    match c.nf(name) {
        Some(f) => match fv_at(f.values@, slot) {
            Some(FValue::Str(s)) => s,
            _ => seq![],
        },
        None => seq![],
    }
}

/// The first non-empty value among the features `names` at `slot`.
pub open spec fn first_text(c: Corpus, names: Seq<Seq<char>>, slot: u32) -> Option<Seq<char>>
    decreases names.len(),
{
    if names.len() == 0 {
        None
    } else if feature_text(c, names[0], slot).len() > 0 {
        Some(feature_text(c, names[0], slot))
    } else {
        first_text(c, names.drop_first(), slot)
    }
}

/// A placeholder `f1/f2/...:default`: the first non-empty feature value, else the default.
pub open spec fn placeholder_spec(c: Corpus, slot: u32, p: Seq<char>) -> Seq<char> {
    let fs = match first_pos(p, ':') {
        Some(i) => p.take(i),
        None => p,
    };
    let dflt = match first_pos(p, ':') {
        Some(i) => render_lit(p.skip(i + 1)),
        None => seq![],
    };
    match first_text(c, split_spec(fs, '/'), slot) {
        Some(v) => v,
        None => dflt,
    }
}

/// A format specification rendered for `node`.
pub open spec fn render_spec(c: Corpus, node: u32, s: Seq<char>) -> Seq<char>
    decreases s.len(),
{
    match first_pos(s, '{') {
        None => render_lit(s),
        Some(i) => if 0 <= i < s.len() {
            let after = s.skip(i + 1);
            match first_pos(after, '}') {
                None => render_lit(s.take(i)) + render_lit(s.skip(i)),
                Some(j) => if 0 <= j < after.len() {
                    render_lit(s.take(i)) + placeholder_spec(c, node, after.take(j)) + render_spec(c, node, after.skip(j + 1))
                } else {
                    seq![]
                },
            }
        } else {
            seq![]
        },
    }
}

/// The renderings of the nodes, one after the other.
pub open spec fn render_all(c: Corpus, ns: Seq<u32>, s: Seq<char>) -> Seq<char>
    decreases ns.len(),
{
    if ns.len() == 0 {
        seq![]
    } else {
        render_all(c, ns.drop_last(), s) + render_spec(c, ns.last(), s)
    }
}

/// A format literal with its escapes rendered.
pub fn render_format_literal(raw: &[char]) -> (r: Vec<char>)
    ensures
        r@ == render_lit(raw@),
{
    let mut out: Vec<char> = Vec::new();
    let mut i: usize = 0;
    proof {
        assert(raw@.skip(0) =~= raw@);
    }
    while i < raw.len()
        invariant
            0 <= i <= raw.len(),
            out@ + render_lit(raw@.skip(i as int)) == render_lit(raw@),
        decreases raw.len() - i,
    {
        let ghost rest = raw@.skip(i as int);
        let ch = raw[i];
        proof {
            assert(rest[0] == ch);
        }
        if ch != '\\' {
            let ghost o0 = out@;
            out.push(ch);
            proof {
                assert(rest.drop_first() =~= raw@.skip(i + 1));
                assert(out@ + render_lit(raw@.skip(i + 1)) =~= o0 + render_lit(rest));
            }
            i += 1;
        } else if i + 1 == raw.len() {
            let ghost o0 = out@;
            out.push('\\');
            proof {
                assert(rest.len() == 1);
                assert(raw@.skip(i + 1).len() == 0);
                assert(out@ + render_lit(raw@.skip(i + 1)) =~= o0 + render_lit(rest));
            }
            i += 1;
        } else {
            let next = raw[i + 1];
            let ghost o0 = out@;
            proof {
                assert(rest[1] == next);
                assert(rest.skip(2) =~= raw@.skip(i + 2));
            }
            if next == 't' {
                out.push('\t');
            } else if next == 'n' {
                out.push('\n');
            } else {
                out.push('\\');
                out.push(next);
            }
            proof {
                assert(out@ + render_lit(raw@.skip(i + 2)) =~= o0 + render_lit(rest));
            }
            i += 2;
        }
    }
    proof {
        assert(raw@.skip(raw@.len() as int).len() == 0);
        assert(out@ =~= out@ + render_lit(raw@.skip(i as int)));
    }
    out
}

/// The characters `a` then `b`.
fn concat_chars(a: &Vec<char>, b: &Vec<char>) -> (r: Vec<char>)
    ensures
        r@ == a@ + b@,
{
    let mut r = crate::strs::copy_chars(a.as_slice());
    let mut i: usize = 0;
    while i < b.len()
        invariant
            0 <= i <= b.len(),
            r@ == a@ + b@.take(i as int),
        decreases b.len() - i,
    {
        r.push(b[i]);
        i += 1;
        proof {
            assert(r@ =~= a@ + b@.take(i as int));
        }
    }
    proof {
        assert(b@.take(b@.len() as int) =~= b@);
    }
    r
}

impl Corpus {
    fn feature_text_exec(&self, name: &[char], slot: u32) -> (r: Vec<char>)
        ensures
            r@ == feature_text(*self, name@, slot),
    {
        let n = from_chars(name);
        match self.node_feature(n.as_str()) {
            Some(f) => match f.str_value(slot) {
                Some(v) => to_chars(v),
                None => Vec::new(),
            },
            None => Vec::new(),
        }
    }

    /// The value of a placeholder at `slot`.
    pub fn placeholder_value(&self, slot: u32, placeholder: &[char]) -> (r: Vec<char>)
        ensures
            r@ == placeholder_spec(*self, slot, placeholder@),
    {
        let (fs, dflt): (Vec<char>, Vec<char>) = match find_char(placeholder, ':') {
            Some(i) => {
                proof {
                    lemma_first_pos(placeholder@, ':', i as int);
                    assert(placeholder@.subrange(0, i as int) =~= placeholder@.take(i as int));
                    assert(placeholder@.subrange(i + 1, placeholder@.len() as int) =~= placeholder@.skip(i + 1));
                }
                assert(i < placeholder.len());
                let rest = sub_chars(placeholder, i + 1, placeholder.len());
                (sub_chars(placeholder, 0, i), render_format_literal(rest.as_slice()))
            },
            None => {
                proof {
                    lemma_no_pos(placeholder@, ':');
                }
                (crate::strs::copy_chars(placeholder), Vec::new())
            },
        };
        let ghost spec_fs = match first_pos(placeholder@, ':') {
            Some(i) => placeholder@.take(i),
            None => placeholder@,
        };
        let ghost spec_dflt = match first_pos(placeholder@, ':') {
            Some(i) => render_lit(placeholder@.skip(i + 1)),
            None => seq![],
        };
        assert(fs@ == spec_fs && dflt@ == spec_dflt);
        let names = split_vec(fs.as_slice(), '/');
        let ghost all = cviews(names@);
        let mut i: usize = 0;
        proof {
            assert(all.skip(0) =~= all);
        }
        while i < names.len()
            invariant
                0 <= i <= names.len(),
                all == cviews(names@),
                all == split_spec(fs@, '/'),
                fs@ == spec_fs,
                dflt@ == spec_dflt,
                spec_fs == (match first_pos(placeholder@, ':') {
                    Some(i) => placeholder@.take(i),
                    None => placeholder@,
                }),
                spec_dflt == (match first_pos(placeholder@, ':') {
                    Some(i) => render_lit(placeholder@.skip(i + 1)),
                    None => seq![],
                }),
                first_text(*self, all, slot) == first_text(*self, all.skip(i as int), slot),
            decreases names.len() - i,
        {
            let v = self.feature_text_exec(names[i].as_slice(), slot);
            proof {
                assert(all.skip(i as int)[0] == names@[i as int]@);
                assert(all.skip(i as int).drop_first() =~= all.skip(i + 1));
            }
            if v.len() > 0 {
                return v;
            }
            i += 1;
        }
        proof {
            assert(all.skip(all.len() as int).len() == 0);
        }
        dflt
    }

    /// A format specification rendered for `node`.
    pub fn text_for_node(&self, node: u32, spec: &[char]) -> (r: Vec<char>)
        ensures
            r@ == render_spec(*self, node, spec@),
        decreases spec@.len(),
    {
        match find_char(spec, '{') {
            None => {
                proof {
                    lemma_no_pos(spec@, '{');
                }
                render_format_literal(spec)
            },
            Some(start) => {
                proof {
                    lemma_first_pos(spec@, '{', start as int);
                }
                assert(start < spec.len());
                let before = render_format_literal(sub_chars(spec, 0, start).as_slice());
                let after = sub_chars(spec, start + 1, spec.len());
                proof {
                    assert(spec@.subrange(0, start as int) =~= spec@.take(start as int));
                    assert(spec@.subrange(start + 1, spec@.len() as int) =~= spec@.skip(start + 1));
                }
                match find_char(after.as_slice(), '}') {
                    None => {
                        proof {
                            lemma_no_pos(after@, '}');
                            assert(spec@.subrange(start as int, spec@.len() as int) =~= spec@.skip(start as int));
                        }
                        let tail = render_format_literal(sub_chars(spec, start, spec.len()).as_slice());
                        concat_chars(&before, &tail)
                    },
                    Some(end) => {
                        proof {
                            lemma_first_pos(after@, '}', end as int);
                            assert(after@.subrange(0, end as int) =~= after@.take(end as int));
                            assert(after@.subrange(end + 1, after@.len() as int) =~= after@.skip(end + 1));
                        }
                        let ph = self.placeholder_value(node, sub_chars(after.as_slice(), 0, end).as_slice());
                        let rest = sub_chars(after.as_slice(), end + 1, after.len());
                        let tail = self.text_for_node(node, rest.as_slice());
                        let head = concat_chars(&before, &ph);
                        concat_chars(&head, &tail)
                    },
                }
            },
        }
    }
}

/// The format named `format` (a `fmt:` prefix dropped), or, without a name, the
/// node type's default format if `otext` has one, else `text-orig-full`: its target
/// type, its specification, and whether the node type's default was taken.
pub open spec fn resolve_spec(c: Corpus, node_type: Seq<char>, format: Option<Seq<char>>) -> Option<(Seq<char>, Seq<char>, bool)> {
    match c.cfg("otext"@) {
        None => None,
        Some(m) => {
            let nd = node_type + "-default"@;
            let name = match format {
                Some(f) => if crate::strs::starts_with_spec(f, "fmt:"@) { f.skip(4) } else { f },
                None => if meta_has(m@, "fmt:"@ + nd) { nd } else { "text-orig-full"@ },
            };
            let implicit = format is None && meta_has(m@, "fmt:"@ + nd);
            match meta_value(m@, "fmt:"@ + name) {
                None => None,
                Some(sp) => Some((c.split_format_spec(sp).0, c.split_format_spec(sp).1, implicit)),
            }
        },
    }
}

/// The node type to descend to when rendering a node of type `node_type`.
pub open spec fn descend_to(res: (Seq<char>, Seq<char>, bool), descend: Option<bool>, node_type: Seq<char>) -> Option<Seq<char>> {
    let d = match descend {
        Some(true) => Some(res.0),
        Some(false) => None,
        None => if res.2 { None } else { Some(res.0) },
    };
    match d {
        Some(t) => if t == node_type { None } else { Some(t) },
        None => None,
    }
}

/// `ns` are the nodes whose text makes up the text of `node`.
pub open spec fn text_nodes_ok(c: Corpus, node: u32, down: Option<Seq<char>>, ns: Seq<u32>) -> bool {
    match down {
        None => ns == seq![node],
        Some(d) => if d == c.slot_type@ {
            ns == c.slots_spec(node)
        } else {
            match c.oslots_of(node) {
                None => ns.len() == 0,
                Some(ss) => {
                    &&& forall|x: u32| #[trigger] ns.contains(x) <==> ((crate::corpus_nav::slot_type_admitted(c.slot_type@, Some(seq![d])) && ss.contains(x))
                        || c.down_set(node, Some(seq![d])).contains(x))
                    &&& crate::corpus_nav::rank_sorted(ns, c.rank@, u32::MAX)
                },
            }
        },
    }
}

/// The text of `node` under the options: empty outside the node range, for an untyped
/// node, or without a usable format.
pub open spec fn text_ok(c: Corpus, node: u32, format: Option<Seq<char>>, descend: Option<bool>, r: Seq<char>) -> bool {
    if node == 0 || node > c.max_node || c.type_of(node) is None || resolve_spec(c, c.type_of(node)->0, format) is None {
        r.len() == 0
    } else {
        let res = resolve_spec(c, c.type_of(node)->0, format)->0;
        exists|ns: Seq<u32>| text_nodes_ok(c, node, descend_to(res, descend, c.type_of(node)->0), ns) && r == render_all(c, ns, res.1)
    }
}

/// The strings one after the other.
pub open spec fn concat_all(parts: Seq<Seq<char>>) -> Seq<char>
    decreases parts.len(),
{
    if parts.len() == 0 {
        seq![]
    } else {
        concat_all(parts.drop_last()) + parts.last()
    }
}

pub open spec fn opt_string(o: Option<String>) -> Option<Seq<char>> {
    match o {
        Some(s) => Some(s@),
        None => None,
    }
}

pub open spec fn opt_strref(o: Option<&str>) -> Option<Seq<char>> {
    match o {
        Some(s) => Some(s@),
        None => None,
    }
}

impl Corpus {
    fn resolve_text_format(&self, node_type: &str, format: Option<&str>) -> (r: Option<(String, String, bool)>)
        ensures
            match r {
                Some(x) => resolve_spec(*self, node_type@, opt_strref(format)) == Some((x.0@, x.1@, x.2)),
                None => resolve_spec(*self, node_type@, opt_strref(format)) is None,
            },
    {
        proof {
            reveal_strlit("otext");
            reveal_strlit("-default");
            reveal_strlit("fmt:");
            reveal_strlit("text-orig-full");
        }
        let otext = match self.config_feature("otext") {
            Some(m) => m,
            None => return None,
        };
        let mut nd = owned(node_type);
        crate::strs::push_str(&mut nd, "-default");
        let mut nd_key = owned("fmt:");
        crate::strs::push_str(&mut nd_key, nd.as_str());
        let has_default = crate::value::meta_contains(otext, nd_key.as_str());
        let name: String = match format {
            Some(f) => {
                if crate::strs::starts_with_str(f, "fmt:") {
                    let cs = to_chars(f);
                    proof {
                        assert(cs@.subrange(4, cs@.len() as int) =~= f@.skip(4));
                    }
                    from_chars(sub_chars(cs.as_slice(), 4, cs.len()).as_slice())
                } else {
                    owned(f)
                }
            },
            None => if has_default { nd } else { owned("text-orig-full") },
        };
        let implicit = format.is_none() && has_default;
        let mut key = owned("fmt:");
        crate::strs::push_str(&mut key, name.as_str());
        match crate::value::meta_str(otext, key.as_str()) {
            Some(sp) => {
                let (tt, spec) = self.split_format(sp);
                Some((tt, spec, implicit))
            },
            None => None,
        }
    }

    /// The text of `node` under the options.
    pub fn text_with_options(&self, node: u32, options: &TextOptions) -> (r: String)
        ensures
            text_ok(*self, node, opt_string(options.format), options.descend, r@),
    {
        if node == 0 || node > self.max_node {
            return String::new();
        }
        let node_type = match self.node_type(node) {
            Some(t) => t,
            None => return String::new(),
        };
        let fmt: Option<&str> = match &options.format {
            Some(f) => Some(f.as_str()),
            None => None,
        };
        proof {
            assert(opt_strref(fmt) == opt_string(options.format));
        }
        let res = match self.resolve_text_format(node_type, fmt) {
            Some(x) => x,
            None => return String::new(),
        };
        let ghost rs = (res.0@, res.1@, res.2);
        let down: Option<&str> = match options.descend {
            Some(true) => Some(res.0.as_str()),
            Some(false) => None,
            None => if res.2 { None } else { Some(res.0.as_str()) },
        };
        let down: Option<&str> = match down {
            Some(t) => if crate::strs::str_eq(t, node_type) { None } else { Some(t) },
            None => None,
        };
        proof {
            assert(opt_strref(down) == descend_to(rs, options.descend, node_type@));
        }
        let nodes: Vec<u32> = match down {
            Some(d) => if crate::strs::str_eq(d, self.slot_type.as_str()) {
                self.slots(node)
            } else {
                self.d(node, Some(d))
            },
            None => {
                let mut v = Vec::new();
                v.push(node);
                proof {
                    assert(v@ =~= seq![node]);
                }
                v
            },
        };
        proof {
            assert(text_nodes_ok(*self, node, descend_to(rs, options.descend, node_type@), nodes@));
        }
        let spec = to_chars(res.1.as_str());
        let mut out: Vec<char> = Vec::new();
        let mut i: usize = 0;
        while i < nodes.len()
            invariant
                0 <= i <= nodes.len(),
                spec@ == rs.1,
                out@ == render_all(*self, nodes@.take(i as int), spec@),
            decreases nodes.len() - i,
        {
            let t = self.text_for_node(nodes[i], spec.as_slice());
            proof {
                assert(nodes@.take(i + 1).drop_last() =~= nodes@.take(i as int));
            }
            out = concat_chars(&out, &t);
            i += 1;
        }
        proof {
            assert(nodes@.take(nodes@.len() as int) =~= nodes@);
        }
        from_chars(out.as_slice())
    }

    /// The text of `node` under the options (camel-case name).
    #[allow(non_snake_case)]
    pub fn textWithOptions(&self, node: u32, options: &TextOptions) -> (r: String)
        ensures
            text_ok(*self, node, opt_string(options.format), options.descend, r@),
    {
        self.text_with_options(node, options)
    }

    /// The text of `node` in `format` (the default format when none is given).
    pub fn text(&self, node: u32, format: Option<&str>) -> (r: String)
        ensures
            text_ok(*self, node, opt_strref(format), None, r@),
    {
        let f: Option<String> = match format {
            Some(s) => Some(owned(s)),
            None => None,
        };
        let options = TextOptions::new(f, None);
        self.text_with_options(node, &options)
    }

    /// The texts of `nodes` in `format`, one after the other.
    pub fn text_nodes(&self, nodes: &[u32], format: Option<&str>) -> (r: String)
        ensures
            exists|parts: Seq<Seq<char>>| #![trigger concat_all(parts)] {
                &&& parts.len() == nodes@.len()
                &&& forall|i: int| 0 <= i < nodes@.len() ==> text_ok(*self, #[trigger] nodes@[i], opt_strref(format), None, parts[i])
                &&& r@ == concat_all(parts)
            },
    {
        let mut out: Vec<char> = Vec::new();
        let ghost mut parts: Seq<Seq<char>> = seq![];
        let mut i: usize = 0;
        while i < nodes.len()
            invariant
                0 <= i <= nodes.len(),
                parts.len() == i,
                forall|k: int| 0 <= k < i ==> text_ok(*self, #[trigger] nodes@[k], opt_strref(format), None, parts[k]),
                out@ == concat_all(parts),
            decreases nodes.len() - i,
        {
            let t = self.text(nodes[i], format);
            let tc = to_chars(t.as_str());
            let ghost p0 = parts;
            proof {
                parts = parts.push(t@);
                assert(parts.drop_last() =~= p0);
            }
            out = concat_chars(&out, &tc);
            i += 1;
        }
        let r = from_chars(out.as_slice());
        proof {
            assert(r@ == concat_all(parts));
        }
        r
    }
}

} // verus!

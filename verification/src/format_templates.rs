//! Text-format templates of the `otext` configuration: `fmt:` settings whose `{...}`
//! placeholders name features (alternatives separated by `/`, a default after `:`).

use vstd::prelude::*;
use crate::corpus_misc::{first_pos, lemma_first_pos, lemma_no_pos};
use crate::query::{split_once_char, split_once_spec};
use crate::sorting::{sorted_unique_strings, strictly_sorted_strs};
use crate::strs::{
    copy_string, find_char, from_chars, owned, split_spec, split_str, starts_with_spec, sub_chars,
    to_chars, views,
};

verus! {

broadcast use vstd::string::group_string_axioms;

/// The non-empty parts, in order.
pub open spec fn drop_empty(parts: Seq<Seq<char>>) -> Seq<Seq<char>>
    decreases parts.len(),
{
    if parts.len() == 0 {
        seq![]
    } else {
        let r = drop_empty(parts.drop_last());
        if parts.last().len() > 0 {
            r.push(parts.last())
        } else {
            r
        }
    }
}

/// A placeholder's feature alternatives and default: `a/b:default`.
pub open spec fn placeholder_parts(ph: Seq<char>) -> (Seq<Seq<char>>, Seq<char>) {
    match split_once_spec(ph, ':') {
        Some(p) => (drop_empty(split_spec(p.0, '/')), p.1),
        None => (drop_empty(split_spec(ph, '/')), seq![]),
    }
}

/// A template with each complete placeholder replaced by `{}`, and the placeholders in
/// order. Text from an unclosed `{` on is kept as it is.
pub open spec fn render_template(rest: Seq<char>) -> (Seq<char>, Seq<(Seq<Seq<char>>, Seq<char>)>)
    decreases rest.len(),
{
    match first_pos(rest, '{') {
        None => (rest, seq![]),
        Some(start) => {
            let after = rest.skip(start + 1);
            match first_pos(after, '}') {
                None => (rest, seq![]),
                Some(end) => {
                    let tail = render_template(after.skip(end + 1));
                    (
                        rest.take(start) + seq!['{', '}'] + tail.0,
                        seq![placeholder_parts(after.take(end))] + tail.1,
                    )
                },
            }
        }
    }
}

/// A text format: its template, the template with `{}` for each placeholder, and each
/// placeholder's feature alternatives with the default.
#[derive(Debug, Clone, PartialEq, Eq)]
pub struct CollectedFormat {
    pub template: String,
    pub rendered_template: String,
    pub features: Vec<(Vec<String>, String)>,
}

/// The view of the placeholders of a collected format.
pub open spec fn placeholder_views(v: Seq<(Vec<String>, String)>) -> Seq<(Seq<Seq<char>>, Seq<char>)> {
    v.map_values(|p: (Vec<String>, String)| (views(p.0@), p.1@))
}

/// The non-empty strings of `parts`, in order.
fn keep_nonempty(parts: Vec<String>) -> (r: Vec<String>)
    ensures
        views(r@) == drop_empty(views(parts@)),
{
    let mut r: Vec<String> = Vec::new();
    let mut i: usize = 0;
    while i < parts.len()
        invariant
            i <= parts@.len(),
            views(r@) == drop_empty(views(parts@).take(i as int)),
        decreases parts.len() - i,
    {
        proof {
            assert(views(parts@).take(i + 1).drop_last() =~= views(parts@).take(i as int));
            assert(views(parts@).take(i + 1).last() == parts@[i as int]@);
        }
        if to_chars(parts[i].as_str()).len() > 0 {
            let ghost r0 = r@;
            r.push(copy_string(&parts[i]));
            proof {
                assert(views(r@) =~= views(r0).push(parts@[i as int]@));
            }
        }
        i += 1;
    }
    proof {
        assert(views(parts@).take(parts@.len() as int) =~= views(parts@));
    }
    r
}

/// The alternatives and default of a placeholder.
fn parse_placeholder(ph: &str) -> (r: (Vec<String>, String))
    ensures
        (views(r.0@), r.1@) == placeholder_parts(ph@),
{
    match split_once_char(ph, ':') {
        Some(p) => (keep_nonempty(split_str(p.0.as_str(), '/')), p.1),
        None => {
            let e = String::new();
            proof {
                assert(e@ =~= Seq::<char>::empty());
            }
            (keep_nonempty(split_str(ph, '/')), e)
        },
    }
}

/// Reads a template: the rendered template and its placeholders.
pub fn render_format_template(template: &str) -> (r: (String, Vec<(Vec<String>, String)>))
    ensures
        (r.0@, placeholder_views(r.1@)) == render_template(template@),
{
    let v = to_chars(template);
    let mut rendered = String::new();
    let mut feats: Vec<(Vec<String>, String)> = Vec::new();
    let mut pos: usize = 0;
    proof {
        assert(v@.skip(0) =~= v@);
        assert(rendered@ =~= Seq::<char>::empty());
        assert(placeholder_views(feats@) =~= Seq::<(Seq<Seq<char>>, Seq<char>)>::empty());
    }
    loop
        invariant
            pos <= v@.len(),
            v@ == template@,
            render_template(template@) == (
                rendered@ + render_template(v@.skip(pos as int)).0,
                placeholder_views(feats@) + render_template(v@.skip(pos as int)).1,
            ),
        decreases v@.len() - pos,
    {
        let rest = sub_chars(v.as_slice(), pos, v.len());
        proof {
            assert(rest@ =~= v@.skip(pos as int));
        }
        let start = match find_char(rest.as_slice(), '{') {
            Some(i) => i,
            None => {
                proof {
                    lemma_no_pos(rest@, '{');
                }
                crate::strs::push_chars(&mut rendered, rest.as_slice());
                proof {
                    assert(placeholder_views(feats@) + Seq::<(Seq<Seq<char>>, Seq<char>)>::empty() =~= placeholder_views(feats@));
                }
                return (rendered, feats);
            },
        };
        proof {
            lemma_first_pos(rest@, '{', start as int);
        }
        let after = sub_chars(rest.as_slice(), start + 1, rest.len());
        proof {
            assert(after@ =~= rest@.skip(start + 1));
        }
        let end = match find_char(after.as_slice(), '}') {
            Some(j) => j,
            None => {
                proof {
                    lemma_no_pos(after@, '}');
                }
                crate::strs::push_chars(&mut rendered, rest.as_slice());
                proof {
                    assert(placeholder_views(feats@) + Seq::<(Seq<Seq<char>>, Seq<char>)>::empty() =~= placeholder_views(feats@));
                }
                return (rendered, feats);
            },
        };
        proof {
            lemma_first_pos(after@, '}', end as int);
        }
        let head = sub_chars(rest.as_slice(), 0, start);
        crate::strs::push_chars(&mut rendered, head.as_slice());
        crate::strs::push_str(&mut rendered, "{}");
        proof {
            reveal_strlit("{}");
        }
        let ph = from_chars(sub_chars(after.as_slice(), 0, end).as_slice());
        let parsed = parse_placeholder(ph.as_str());
        let ghost f0 = placeholder_views(feats@);
        feats.push(parsed);
        proof {
            assert(placeholder_views(feats@) =~= f0.push((views(parsed.0@), parsed.1@)));
            assert(head@ =~= rest@.take(start as int));
            assert(ph@ =~= after@.take(end as int));
            assert(after@.skip(end + 1) =~= v@.skip(pos + start + 2 + end));
            let tail = render_template(after@.skip(end + 1));
            assert(f0 + (seq![placeholder_parts(after@.take(end as int))] + tail.1) =~= f0.push(
                placeholder_parts(after@.take(end as int)),
            ) + tail.1);
        }
        pos = pos + start + 2 + end;
    }
}

/// The feature alternatives of a list of placeholders, in order.
pub open spec fn flat_alts(ps: Seq<(Seq<Seq<char>>, Seq<char>)>) -> Seq<Seq<char>>
    decreases ps.len(),
{
    if ps.len() == 0 {
        seq![]
    } else {
        flat_alts(ps.drop_last()) + ps.last().0
    }
}

/// The format names of the `fmt:` entries of `config`, in order.
pub open spec fn collected_names(config: Seq<(String, String)>) -> Seq<Seq<char>>
    decreases config.len(),
{
    if config.len() == 0 {
        seq![]
    } else {
        let rest = collected_names(config.drop_last());
        let k = config.last().0@;
        if starts_with_spec(k, "fmt:"@) {
            rest.push(k.skip(4))
        } else {
            rest
        }
    }
}

/// The templates of the `fmt:` entries of `config`, in order.
pub open spec fn collected_templates(config: Seq<(String, String)>) -> Seq<Seq<char>>
    decreases config.len(),
{
    if config.len() == 0 {
        seq![]
    } else {
        let rest = collected_templates(config.drop_last());
        if starts_with_spec(config.last().0@, "fmt:"@) {
            rest.push(config.last().1@)
        } else {
            rest
        }
    }
}

/// The features named in the placeholders of the `fmt:` templates of `config`, in order,
/// repeats included.
pub open spec fn config_features(config: Seq<(String, String)>) -> Seq<Seq<char>>
    decreases config.len(),
{
    if config.len() == 0 {
        seq![]
    } else {
        let rest = config_features(config.drop_last());
        if starts_with_spec(config.last().0@, "fmt:"@) {
            rest + flat_alts(render_template(config.last().1@).1)
        } else {
            rest
        }
    }
}

/// Appends copies of `xs` to `all`.
fn append_all(all: &mut Vec<String>, xs: &Vec<String>)
    ensures
        views(final(all)@) == views(old(all)@) + views(xs@),
{
    let mut b: usize = 0;
    while b < xs.len()
        invariant
            b <= xs@.len(),
            views(all@) == views(old(all)@) + views(xs@).take(b as int),
        decreases xs.len() - b,
    {
        let ghost before = views(all@);
        all.push(copy_string(&xs[b]));
        proof {
            assert(views(all@) =~= before.push(xs@[b as int]@));
            assert(views(xs@).take(b + 1) =~= views(xs@).take(b as int).push(xs@[b as int]@));
        }
        b += 1;
    }
    proof {
        assert(views(xs@).take(xs@.len() as int) =~= views(xs@));
    }
}

/// The text formats of an `otext` configuration: the `fmt:` entries in the order of the
/// configuration (by key, as in a map), with their format names and parsed templates, and
/// the features their placeholders name, sorted without repeats.
pub fn collect_formats(config: &[(String, String)]) -> (r: (Vec<(String, CollectedFormat)>, Vec<String>))
    ensures
        r.0@.len() == collected_names(config@).len(),
        forall|i: int| 0 <= i < r.0@.len() ==> {
            &&& (#[trigger] r.0@[i]).0@ == collected_names(config@)[i]
            &&& r.0@[i].1.template@ == collected_templates(config@)[i]
            &&& (r.0@[i].1.rendered_template@, placeholder_views(r.0@[i].1.features@)) == render_template(
                collected_templates(config@)[i],
            )
        },
        strictly_sorted_strs(views(r.1@)),
        forall|f: Seq<char>| views(r.1@).contains(f) <==> config_features(config@).contains(f),
{
    let mut formats: Vec<(String, CollectedFormat)> = Vec::new();
    let mut all: Vec<String> = Vec::new();
    let mut i: usize = 0;
    while i < config.len()
        invariant
            i <= config@.len(),
            formats@.len() == collected_names(config@.take(i as int)).len(),
            collected_names(config@.take(i as int)).len() == collected_templates(config@.take(i as int)).len(),
            forall|q: int| 0 <= q < formats@.len() ==> {
                &&& (#[trigger] formats@[q]).0@ == collected_names(config@.take(i as int))[q]
                &&& formats@[q].1.template@ == collected_templates(config@.take(i as int))[q]
                &&& (formats@[q].1.rendered_template@, placeholder_views(formats@[q].1.features@)) == render_template(
                    collected_templates(config@.take(i as int))[q],
                )
            },
            views(all@) == config_features(config@.take(i as int)),
        decreases config.len() - i,
    {
        let ghost pre = config@.take(i as int);
        let ghost post = config@.take(i + 1);
        proof {
            assert(post.drop_last() =~= pre);
            assert(post.last() == config@[i as int]);
        }
        let is_fmt = crate::strs::starts_with_str(config[i].0.as_str(), "fmt:");
        if is_fmt {
            let key = to_chars(config[i].0.as_str());
            proof {
                reveal_strlit("fmt:");
                assert(key@.len() >= 4);
            }
            let name = from_chars(sub_chars(key.as_slice(), 4, key.len()).as_slice());
            let template = config[i].1.as_str();
            let (rendered_template, features) = render_format_template(template);
            let ghost fv = placeholder_views(features@);
            let ghost all0 = views(all@);
            let mut a: usize = 0;
            while a < features.len()
                invariant
                    a <= features@.len(),
                    fv == placeholder_views(features@),
                    views(all@) == all0 + flat_alts(fv.take(a as int)),
                decreases features.len() - a,
            {
                append_all(&mut all, &features[a].0);
                proof {
                    assert(fv.take(a + 1).drop_last() =~= fv.take(a as int));
                    assert(fv.take(a + 1).last() == fv[a as int]);
                    assert(fv[a as int].0 == views(features@[a as int].0@));
                    assert(all0 + flat_alts(fv.take(a + 1)) =~= all0 + flat_alts(fv.take(a as int)) + views(features@[a as int].0@));
                }
                a += 1;
            }
            proof {
                assert(fv.take(fv.len() as int) =~= fv);
            }
            let cf = CollectedFormat { template: owned(template), rendered_template, features };
            let ghost f0 = formats@;
            formats.push((name, cf));
            proof {
                assert(name@ =~= config@[i as int].0@.skip(4));
                assert(collected_names(post) == collected_names(pre).push(config@[i as int].0@.skip(4)));
                assert(collected_templates(post) == collected_templates(pre).push(config@[i as int].1@));
                assert(config_features(post) == config_features(pre) + flat_alts(render_template(config@[i as int].1@).1));
                assert forall|q: int| 0 <= q < formats@.len() implies {
                    &&& (#[trigger] formats@[q]).0@ == collected_names(post)[q]
                    &&& formats@[q].1.template@ == collected_templates(post)[q]
                    &&& (formats@[q].1.rendered_template@, placeholder_views(formats@[q].1.features@)) == render_template(
                        collected_templates(post)[q],
                    )
                } by {
                    if q < f0.len() {
                        assert(formats@[q] == f0[q]);
                    }
                }
            }
        } else {
            proof {
                assert(collected_names(post) == collected_names(pre));
                assert(collected_templates(post) == collected_templates(pre));
                assert(config_features(post) == config_features(pre));
            }
        }
        i += 1;
    }
    proof {
        assert(config@.take(config@.len() as int) =~= config@);
    }
    let names = sorted_unique_strings(all);
    (formats, names)
}

/// The text formats of a configuration (camel-case name).
#[allow(non_snake_case)]
pub fn collectFormats(config: &[(String, String)]) -> (r: (Vec<(String, CollectedFormat)>, Vec<String>))
    ensures
        r.0@.len() == collected_names(config@).len(),
        forall|i: int| 0 <= i < r.0@.len() ==> {
            &&& (#[trigger] r.0@[i]).0@ == collected_names(config@)[i]
            &&& r.0@[i].1.template@ == collected_templates(config@)[i]
            &&& (r.0@[i].1.rendered_template@, placeholder_views(r.0@[i].1.features@)) == render_template(
                collected_templates(config@)[i],
            )
        },
        strictly_sorted_strs(views(r.1@)),
        forall|f: Seq<char>| views(r.1@).contains(f) <==> config_features(config@).contains(f),
{
    collect_formats(config)
}

} // verus!

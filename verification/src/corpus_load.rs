//! Loading a corpus from the feature files of its directories: which files are read,
//! how parsed features of the same name replace each other, and the corpus built from
//! them.

use vstd::prelude::*;
use crate::corpus::{ef_key, find_edge_feature, find_key, find_named, find_node_feature, nf_key, pair_key, Corpus};
use crate::corpus_build::{built, str_val};
use crate::edge_tables::TfFeature;
use crate::error::{CfError, CfErrorView};
use crate::explore::{is_tf, stem_of, FeatureFile};
use crate::feature::{EdgeFeature, NodeFeature};
use crate::io::{path_extension, path_extension_text, path_stem};
use crate::parser::{
    data_start, edge_lines, header_error, kind_of, map_get, meta_of, meta_stop, node_lines, normalized, pair_get, parse_tf_file, vt_of,
    TfFeatureKind,
};
use crate::feature::{ev_at, fv_at};
use crate::sorting::strictly_sorted_u32;
use crate::value::{meta_has, meta_lookup};
use crate::strs::{str_eq, trim_end_spec, views};
use crate::value::Metadata;

verus! {

broadcast use vstd::string::group_string_axioms;

/// `f` replaces the node feature of its name, or is added after the others.
pub open spec fn put_node(v: Seq<NodeFeature>, f: NodeFeature) -> Seq<NodeFeature> {
    match find_key(v, nf_key(), f.name@) {
        Some(i) => v.update(i, f),
        None => v.push(f),
    }
}

/// `f` replaces the edge feature of its name, or is added after the others.
pub open spec fn put_edge(v: Seq<EdgeFeature>, f: EdgeFeature) -> Seq<EdgeFeature> {
    match find_key(v, ef_key(), f.name@) {
        Some(i) => v.update(i, f),
        None => v.push(f),
    }
}

/// `p` replaces the configuration of its name, or is added after the others.
pub open spec fn put_config(v: Seq<(String, Metadata)>, p: (String, Metadata)) -> Seq<(String, Metadata)> {
    match find_key(v, pair_key::<Metadata>(), p.0@) {
        Some(i) => v.update(i, p),
        None => v.push(p),
    }
}

/// The node, edge and configuration features of a list of parsed features, in order of
/// first appearance; of several with the same kind and name, the last one counts.
pub open spec fn sorted_out(parsed: Seq<TfFeature>) -> (Seq<NodeFeature>, Seq<EdgeFeature>, Seq<(String, Metadata)>)
    decreases parsed.len(),
{
    if parsed.len() == 0 {
        (seq![], seq![], seq![])
    } else {
        let prev = sorted_out(parsed.drop_last());
        match parsed.last() {
            TfFeature::Node(f) => (put_node(prev.0, f), prev.1, prev.2),
            TfFeature::Edge(f) => (prev.0, put_edge(prev.1, f), prev.2),
            TfFeature::Config { name, metadata } => (prev.0, prev.1, put_config(prev.2, (name, metadata))),
        }
    }
}

/// A corpus can be built from these features: node feature `otype` gives slot 1 a
/// type, and edge feature `oslots` is there.
pub open spec fn buildable(nf: Seq<NodeFeature>, ef: Seq<EdgeFeature>) -> bool {
    &&& find_key(nf, nf_key(), "otype"@) is Some
    &&& find_key(ef, ef_key(), "oslots"@) is Some
    &&& str_val(nf[find_key(nf, nf_key(), "otype"@)->0].values@, 1) is Some
}

impl Corpus {
    /// The corpus of a list of parsed features: node, edge and configuration features by
    /// name, a later one replacing an earlier one of the same kind and name.
    pub fn from_tf_features(parsed: Vec<TfFeature>) -> (r: Result<Corpus, CfError>)
        ensures
            ({
                let s = sorted_out(parsed@);
                &&& r is Ok <==> buildable(s.0, s.1)
                &&& r matches Ok(c) ==> exists|nf: Vec<NodeFeature>, ef: Vec<EdgeFeature>, cf: Vec<(String, Metadata)>|
                    nf@ == s.0 && ef@ == s.1 && cf@ == s.2 && #[trigger] built(nf, ef, cf, c)
            }),
    {
        let mut items = parsed;
        let n = items.len();
        let ghost all = items@;
        proof {
            assert(all.len() == n);
        }
        let mut nodes: Vec<NodeFeature> = Vec::new();
        let mut edges: Vec<EdgeFeature> = Vec::new();
        let mut configs: Vec<(String, Metadata)> = Vec::new();
        let mut k: usize = 0;
        proof {
            assert(all.skip(0) =~= all);
            assert(all.take(0) =~= Seq::<TfFeature>::empty());
        }
        while items.len() > 0
            invariant
                k + items@.len() == all.len(),
                all.len() <= usize::MAX,
                items@ == all.skip(k as int),
                sorted_out(all.take(k as int)) == (nodes@, edges@, configs@),
            decreases items@.len(),
        {
            let t = items.remove(0);
            proof {
                assert(t == all[k as int]);
                assert(all.take(k + 1).drop_last() =~= all.take(k as int));
                assert(all.take(k + 1).last() == t);
                assert(items@ =~= all.skip(k + 1));
            }
            match t {
                TfFeature::Node(f) => {
                    match find_node_feature(&nodes, f.name.as_str()) {
                        Some(i) => {
                            nodes.set(i, f);
                        },
                        None => {
                            nodes.push(f);
                        },
                    }
                },
                TfFeature::Edge(f) => {
                    match find_edge_feature(&edges, f.name.as_str()) {
                        Some(i) => {
                            edges.set(i, f);
                        },
                        None => {
                            edges.push(f);
                        },
                    }
                },
                TfFeature::Config { name, metadata } => {
                    match find_named(&configs, name.as_str()) {
                        Some(i) => {
                            configs.set(i, (name, metadata));
                        },
                        None => {
                            configs.push((name, metadata));
                        },
                    }
                },
            }
            k += 1;
        }
        proof {
            assert(all.take(all.len() as int) =~= all);
        }
        let r = Self::from_feature_maps_with_configs(nodes, edges, configs);
        proof {
            if r is Ok {
                assert(built(nodes, edges, configs, r->Ok_0));
            }
        }
        r
    }
}

/// Whether feature file `f` is read when `features` are asked for (all when none are):
/// a `.tf` file that is asked for, is `otype` or `oslots`, or holds a configuration.
pub open spec fn selected(f: FeatureFile, features: Option<Seq<Seq<char>>>) -> bool {
    &&& is_tf(f)
    &&& match features {
        None => true,
        Some(fs) => fs.contains(stem_of(f)) || stem_of(f) == "otype"@ || stem_of(f) == "oslots"@
            || (f.lines@.len() > 0 && kind_of(f.lines@[0]@) == Some(TfFeatureKind::Config)),
    }
}

/// The selected files, in order.
pub open spec fn selected_files(files: Seq<FeatureFile>, features: Option<Seq<Seq<char>>>) -> Seq<FeatureFile>
    decreases files.len(),
{
    if files.len() == 0 {
        seq![]
    } else {
        let prev = selected_files(files.drop_last(), features);
        if selected(files.last(), features) {
            prev.push(files.last())
        } else {
            prev
        }
    }
}

/// The name of a parsed feature.
pub open spec fn tf_name(t: TfFeature) -> Seq<char> {
    match t {
        TfFeature::Node(f) => f.name@,
        TfFeature::Edge(f) => f.name@,
        TfFeature::Config { name, .. } => name@,
    }
}

/// The kind of a parsed feature.
pub open spec fn tf_kind(t: TfFeature) -> TfFeatureKind {
    match t {
        TfFeature::Node(_) => TfFeatureKind::Node,
        TfFeature::Edge(_) => TfFeatureKind::Edge,
        TfFeature::Config { .. } => TfFeatureKind::Config,
    }
}

/// `parsed` are features read from `files`, one each: with the file's name and the kind
/// its header declares.
pub open spec fn read_from(files: Seq<FeatureFile>, parsed: Seq<TfFeature>) -> bool {
    &&& parsed.len() == files.len()
    &&& forall|j: int| 0 <= j < files.len() ==> {
        &&& tf_name(#[trigger] parsed[j]) == stem_of(files[j])
        &&& files[j].lines@.len() > 0 && kind_of(files[j].lines@[0]@) == Some(tf_kind(parsed[j]))
    }
}

/// The view of an optional list of requested names.
pub open spec fn opt_names(features: Option<&[&str]>) -> Option<Seq<Seq<char>>> {
    match features {
        Some(v) => Some(crate::corpus_info::str_views(v@)),
        None => None,
    }
}

fn is_selected(f: &FeatureFile, features: Option<&[&str]>) -> (r: bool)
    ensures
        r == selected(*f, opt_names(features)),
{
    proof {
        reveal_strlit("tf");
    }
    let ext = path_extension(f.path.as_str());
    let is_tf_file = match &ext {
        Some(e) => str_eq(e.as_str(), "tf"),
        None => false,
    };
    proof {
        match ext {
            Some(e) => {
                assert(path_extension_text(f.path@) == Some(e@));
                assert(is_tf_file == (e@ == "tf"@));
            },
            None => {},
        }
        assert(is_tf_file == is_tf(*f));
    }
    if !is_tf_file {
        return false;
    }
    let fs = match features {
        None => return true,
        Some(fs) => fs,
    };
    let name = path_stem(f.path.as_str());
    let mut i: usize = 0;
    while i < fs.len()
        invariant
            i <= fs@.len(),
            is_tf(*f),
            features == Some(fs),
            name@ == stem_of(*f),
            forall|j: int| 0 <= j < i ==> fs@[j]@ != name@,
        decreases fs.len() - i,
    {
        if str_eq(fs[i], name.as_str()) {
            proof {
                assert(crate::corpus_info::str_views(fs@)[i as int] == name@);
            }
            return true;
        }
        i += 1;
    }
    proof {
        if crate::corpus_info::str_views(fs@).contains(name@) {
            let j = choose|j: int| 0 <= j < crate::corpus_info::str_views(fs@).len() && crate::corpus_info::str_views(fs@)[j] == name@;
            assert(fs@[j]@ == name@);
        }
    }
    if str_eq(name.as_str(), "otype") || str_eq(name.as_str(), "oslots") {
        return true;
    }
    if f.lines.len() == 0 {
        return false;
    }
    let first = crate::strs::trim_end_str(f.lines[0].as_str());
    proof {
        assert(views(f.lines@)[0] == f.lines@[0]@);
        reveal_strlit("@node");
        reveal_strlit("@edge");
        reveal_strlit("@config");
    }
    let b = str_eq(first.as_str(), "@config");
    proof {
        if b {
            assert(trim_end_spec(f.lines@[0]@) == "@config"@);
            assert("@config"@.len() == 7);
            assert("@node"@.len() == 5);
            assert("@edge"@.len() == 5);
            assert(kind_of(f.lines@[0]@) == Some(TfFeatureKind::Config));
        }
    }
    b
}


/// The metadata that the header of a file's lines gives, key by key.
pub open spec fn file_meta(lines: Seq<Seq<char>>, k: Seq<char>) -> Option<Option<Seq<char>>> {
    normalized(|q: Seq<char>| meta_of(lines, meta_stop(lines, 1), q), k)
}

/// The value type that the header of a file's lines declares, `str` by default.
pub open spec fn file_value_type(lines: Seq<Seq<char>>) -> Seq<char> {
    match file_meta(lines, "valueType"@) {
        Some(Some(v)) => v,
        _ => match file_meta(lines, "value_type"@) {
            Some(Some(v)) => v,
            _ => "str"@,
        },
    }
}

/// The error of reading the file at `path` with lines `lines`: of its header, else of
/// its data lines; none when it reads.
pub open spec fn file_error(path: Seq<char>, lines: Seq<Seq<char>>) -> Option<CfErrorView> {
    match header_error(path, lines) {
        Some(e) => Some(e),
        None => match kind_of(lines[0]) {
            Some(TfFeatureKind::Node) => match node_lines(path, file_value_type(lines), lines, data_start(lines), lines.len() as int) {
                Err(e) => Some(e),
                Ok(_) => None,
            },
            Some(TfFeatureKind::Edge) => match edge_lines(
                path,
                file_value_type(lines),
                file_meta(lines, "edgeValues"@) is Some,
                lines,
                data_start(lines),
                lines.len() as int,
            ) {
                Err(e) => Some(e),
                Ok(_) => None,
            },
            _ => None,
        },
    }
}

/// The error of the first of `files` that does not read.
pub open spec fn first_file_error(files: Seq<FeatureFile>) -> Option<CfErrorView>
    decreases files.len(),
{
    if files.len() == 0 {
        None
    } else {
        match first_file_error(files.drop_last()) {
            Some(e) => Some(e),
            None => file_error(files.last().path@, views(files.last().lines@)),
        }
    }
}

/// `t` is the feature that the file at `path` with lines `lines` gives under the name
/// `name`: its kind, name and metadata from the header, and its values from the data
/// lines.
pub open spec fn parsed_as(path: Seq<char>, name: Seq<char>, lines: Seq<Seq<char>>, t: TfFeature) -> bool {
    match kind_of(lines[0]) {
        Some(TfFeatureKind::Config) => t matches TfFeature::Config { name: n, metadata: m } && n@ == name
            && forall|k: Seq<char>| #![trigger meta_lookup(m@, k)] meta_lookup(m@, k) == file_meta(lines, k),
        Some(TfFeatureKind::Node) => t matches TfFeature::Node(f) && f.name@ == name
            && (forall|k: Seq<char>| #![trigger meta_lookup(f.metadata@, k)] meta_lookup(f.metadata@, k) == file_meta(lines, k))
            && f.is_indexed() == (name != "otype"@)
            && forall|n: u32| #[trigger] fv_at(f.values@, n) == map_get(
                node_lines(path, file_value_type(lines), lines, data_start(lines), lines.len() as int)->Ok_0.1,
                n,
            ),
        Some(TfFeatureKind::Edge) => t matches TfFeature::Edge(f) && f.name@ == name
            && (forall|k: Seq<char>| #![trigger meta_lookup(f.metadata@, k)] meta_lookup(f.metadata@, k) == file_meta(lines, k))
            && f.rank_table() is None && {
                let st = edge_lines(
                    path,
                    file_value_type(lines),
                    file_meta(lines, "edgeValues"@) is Some,
                    lines,
                    data_start(lines),
                    lines.len() as int,
                )->Ok_0;
                &&& f.values@.dom() == st.1.dom()
                &&& forall|n: u32| #[trigger] f.values@.contains_key(n) ==> strictly_sorted_u32(f.values@[n]@)
                    && forall|x: u32| f.values@[n]@.contains(x) <==> st.1[n].contains(x)
                &&& forall|a: u32, b: u32| #[trigger] ev_at(f.edge_values@, a, b) == pair_get(st.2, a, b)
            },
        None => false,
    }
}

/// `parsed` are the features read from `files`, one each, as [`parsed_as`] says, under
/// the files' names.
pub open spec fn parsed_from(files: Seq<FeatureFile>, parsed: Seq<TfFeature>) -> bool {
    &&& read_from(files, parsed)
    &&& forall|j: int| 0 <= j < files.len() ==> parsed_as(files[j].path@, stem_of(files[j]), views(files[j].lines@), #[trigger] parsed[j])
}

/// Metadata that agrees with a file's header key by key has the header's value type and
/// edge-value flag.
pub proof fn lemma_meta_facts(meta: Seq<(String, Option<String>)>, lines: Seq<Seq<char>>)
    requires
        forall|k: Seq<char>| #![trigger meta_lookup(meta, k)] meta_lookup(meta, k) == file_meta(lines, k),
    ensures
        vt_of(meta) == file_value_type(lines),
        meta_has(meta, "edgeValues"@) == (file_meta(lines, "edgeValues"@) is Some),
{
    assert(meta_lookup(meta, "valueType"@) == file_meta(lines, "valueType"@));
    assert(meta_lookup(meta, "value_type"@) == file_meta(lines, "value_type"@));
    assert(meta_lookup(meta, "edgeValues"@) == file_meta(lines, "edgeValues"@));
}

/// Once a prefix of the files has an error, the selection of all of them has the same
/// first error.
proof fn lemma_first_error_extends(files: Seq<FeatureFile>, features: Option<Seq<Seq<char>>>, n: int)
    requires
        0 <= n <= files.len(),
        first_file_error(selected_files(files.take(n), features)) is Some,
    ensures
        first_file_error(selected_files(files, features)) == first_file_error(selected_files(files.take(n), features)),
    decreases files.len() - n,
{
    if n < files.len() {
        assert(files.take(n + 1).drop_last() =~= files.take(n));
        assert(files.take(n + 1).last() == files[n]);
        let a = selected_files(files.take(n), features);
        let b = selected_files(files.take(n + 1), features);
        if b != a {
            assert(b.drop_last() =~= a);
        }
        lemma_first_error_extends(files, features, n + 1);
    } else {
        assert(files.take(n) =~= files);
    }
}

impl Corpus {
    /// Loads a corpus from the files of its directories, reading only the features asked
    /// for (and `otype`, `oslots` and configurations), or all when none are asked for.
    /// A file that fails to parse makes the load fail.
    pub fn load_files(files: &[FeatureFile], features: Option<&[&str]>) -> (r: Result<Corpus, CfError>)
        ensures
            match first_file_error(selected_files(files@, opt_names(features))) {
                Some(e) => r is Err && r->Err_0@ == e,
                None => exists|parsed: Seq<TfFeature>| #[trigger] parsed_from(selected_files(files@, opt_names(features)), parsed) && {
                    let s = sorted_out(parsed);
                    &&& (r is Ok <==> buildable(s.0, s.1))
                    &&& r matches Ok(c) ==> exists|nf: Vec<NodeFeature>, ef: Vec<EdgeFeature>, cf: Vec<(String, Metadata)>|
                        nf@ == s.0 && ef@ == s.1 && cf@ == s.2 && #[trigger] built(nf, ef, cf, c)
                },
            },
    {
        let ghost sel = selected_files(files@, opt_names(features));
        let mut parsed: Vec<TfFeature> = Vec::new();
        let mut i: usize = 0;
        while i < files.len()
            invariant
                i <= files@.len(),
                parsed_from(selected_files(files@.take(i as int), opt_names(features)), parsed@),
                first_file_error(selected_files(files@.take(i as int), opt_names(features))) is None,
            decreases files.len() - i,
        {
            let ghost pre = selected_files(files@.take(i as int), opt_names(features));
            proof {
                assert(files@.take(i + 1).drop_last() =~= files@.take(i as int));
                assert(files@.take(i + 1).last() == files@[i as int]);
            }
            let f = &files[i];
            if is_selected(f, features) {
                let name = path_stem(f.path.as_str());
                let ghost ls = views(f.lines@);
                proof {
                    assert forall|meta: Metadata|
                        (forall|k: Seq<char>| #![trigger meta_lookup(meta@, k)] meta_lookup(meta@, k) == file_meta(ls, k)) implies
                        #[trigger] vt_of(meta@) == file_value_type(ls) && meta_has(meta@, "edgeValues"@) == (file_meta(ls, "edgeValues"@) is Some) by {
                        lemma_meta_facts(meta@, ls);
                    }
                    assert(ls.len() == f.lines@.len());
                }
                let res = parse_tf_file(f.path.as_str(), name.as_str(), f.lines.as_slice());
                match res {
                    Ok(t) => {
                        let ghost p0 = parsed@;
                        proof {
                            assert(header_error(f.path@, ls) is None);
                            assert(ls[0] == f.lines@[0]@);
                            assert(kind_of(f.lines@[0]@) == Some(tf_kind(t)));
                            assert(file_error(f.path@, ls) is None);
                            assert(parsed_as(f.path@, stem_of(*f), ls, t));
                        }
                        parsed.push(t);
                        proof {
                            let post = selected_files(files@.take(i + 1), opt_names(features));
                            assert(post == pre.push(*f));
                            assert(post.drop_last() =~= pre);
                            assert forall|j: int| 0 <= j < post.len() implies {
                                &&& tf_name(#[trigger] parsed@[j]) == stem_of(post[j])
                                &&& post[j].lines@.len() > 0 && kind_of(post[j].lines@[0]@) == Some(tf_kind(parsed@[j]))
                            } by {
                                if j < pre.len() {
                                    assert(parsed@[j] == p0[j]);
                                }
                            }
                            assert forall|j: int| 0 <= j < post.len() implies parsed_as(
                                post[j].path@,
                                stem_of(post[j]),
                                views(post[j].lines@),
                                #[trigger] parsed@[j],
                            ) by {
                                if j < pre.len() {
                                    assert(parsed@[j] == p0[j]);
                                }
                            }
                        }
                    },
                    Err(e) => {
                        proof {
                            assert(file_error(f.path@, ls) == Some(e@));
                            let post = selected_files(files@.take(i + 1), opt_names(features));
                            assert(post == pre.push(*f));
                            assert(post.drop_last() =~= pre);
                            assert(first_file_error(post) == Some(e@));
                            lemma_first_error_extends(files@, opt_names(features), i + 1);
                        }
                        return Err(e);
                    },
                }
            } else {
                proof {
                    assert(selected_files(files@.take(i + 1), opt_names(features)) == pre);
                }
            }
            i += 1;
        }
        proof {
            assert(files@.take(files@.len() as int) =~= files@);
        }
        let ghost pv = parsed@;
        let r = Self::from_tf_features(parsed);
        r
    }
}

} // verus!

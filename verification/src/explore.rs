//! The inventory of the feature files of a corpus: which `.tf` files hold
//! node, edge and config features, where each feature's files are, and the
//! metadata of each feature.

use vstd::prelude::*;
use crate::error::{CfError, CfErrorView};
use crate::io::{path_extension, path_extension_text, path_stem, path_stem_text};
use crate::parser::{header_error, kind_of, meta_of, meta_stop, normalized, parse_tf_file_metadata, TfFeatureKind};
use crate::sorting::{sorted_unique_strings, strictly_sorted_strs};
use crate::strs::{copy_string, owned, str_eq, views};
use crate::value::{meta_clone, meta_lookup, Metadata};

verus! {

broadcast use vstd::string::group_string_axioms;

/// A file of a corpus directory with its lines.
#[derive(Debug)]
pub struct FeatureFile {
    pub path: String,
    pub lines: Vec<String>,
}

/// A feature file is one with the extension `tf`.
pub open spec fn is_tf(f: FeatureFile) -> bool {
    path_extension_text(f.path@) == Some("tf"@)
}

/// The feature name of a file: its file stem.
pub open spec fn stem_of(f: FeatureFile) -> Seq<char> {
    path_stem_text(f.path@)
}

/// The error of the first feature file whose header does not read.
pub open spec fn first_error(files: Seq<FeatureFile>) -> Option<CfErrorView>
    decreases files.len(),
{
    if files.len() == 0 {
        None
    } else if is_tf(files[0]) && header_error(files[0].path@, views(files[0].lines@)) is Some {
        header_error(files[0].path@, views(files[0].lines@))
    } else {
        first_error(files.drop_first())
    }
}

/// A feature file of the given name and kind is among the files.
pub open spec fn has_feature(files: Seq<FeatureFile>, name: Seq<char>, kind: TfFeatureKind) -> bool {
    exists|j: int| 0 <= j < files.len() && is_tf(#[trigger] files[j]) && stem_of(files[j]) == name
        && kind_of(views(files[j].lines@)[0]) == Some(kind)
}

/// The paths of the feature files of a name, in order.
pub open spec fn name_paths(files: Seq<FeatureFile>, name: Seq<char>) -> Seq<Seq<char>>
    decreases files.len(),
{
    if files.len() == 0 {
        seq![]
    } else {
        let rest = name_paths(files.drop_last(), name);
        let f = files.last();
        if is_tf(f) && stem_of(f) == name {
            rest.push(f.path@)
        } else {
            rest
        }
    }
}

/// The metadata of the last feature file of a name, if any.
pub open spec fn last_meta(files: Seq<FeatureFile>, name: Seq<char>, key: Seq<char>) -> Option<Option<Option<Seq<char>>>>
    decreases files.len(),
{
    if files.len() == 0 {
        None
    } else {
        let f = files.last();
        if is_tf(f) && stem_of(f) == name {
            let ls = views(f.lines@);
            Some(normalized(|q: Seq<char>| meta_of(ls, meta_stop(ls, 1), q), key))
        } else {
            last_meta(files.drop_last(), name, key)
        }
    }
}

/// The entry of `key` in a list keyed by name: the value of its first occurrence.
pub open spec fn entry_of<V>(s: Seq<(String, V)>, key: Seq<char>) -> Option<V>
    decreases s.len(),
{
    if s.len() == 0 {
        None
    } else if s[0].0@ == key {
        Some(s[0].1)
    } else {
        entry_of(s.drop_first(), key)
    }
}

/// The feature files of a corpus by kind, with their paths and metadata.
#[derive(Debug)]
pub struct FeatureInventory {
    pub nodes: Vec<String>,
    pub edges: Vec<String>,
    pub configs: Vec<String>,
    pub computeds: Vec<String>,
    pub paths: Vec<(String, Vec<String>)>,
    pub metadata: Vec<(String, Metadata)>,
}

/// The computed features that every corpus has.
pub open spec fn computed_names() -> Seq<Seq<char>> {
    seq!["boundary"@, "levels"@, "order"@, "rank"@]
}

impl FeatureInventory {
    pub fn nodes(&self) -> (r: &[String])
        ensures
            r@ == self.nodes@,
    {
        self.nodes.as_slice()
    }

    pub fn edges(&self) -> (r: &[String])
        ensures
            r@ == self.edges@,
    {
        self.edges.as_slice()
    }

    pub fn configs(&self) -> (r: &[String])
        ensures
            r@ == self.configs@,
    {
        self.configs.as_slice()
    }

    pub fn computeds(&self) -> (r: &[String])
        ensures
            r@ == self.computeds@,
    {
        self.computeds.as_slice()
    }

    /// The four kinds with their feature names, in the order of the kind names.
    pub fn categories(&self) -> (r: Vec<(String, Vec<String>)>)
        ensures
            r@.len() == 4,
            r@[0].0@ == "computeds"@ && views(r@[0].1@) == views(self.computeds@),
            r@[1].0@ == "configs"@ && views(r@[1].1@) == views(self.configs@),
            r@[2].0@ == "edges"@ && views(r@[2].1@) == views(self.edges@),
            r@[3].0@ == "nodes"@ && views(r@[3].1@) == views(self.nodes@),
    {
        let mut r: Vec<(String, Vec<String>)> = Vec::new();
        r.push((owned("computeds"), copy_strings(&self.computeds)));
        r.push((owned("configs"), copy_strings(&self.configs)));
        r.push((owned("edges"), copy_strings(&self.edges)));
        r.push((owned("nodes"), copy_strings(&self.nodes)));
        r
    }

    /// The paths of the files of a feature, if it has any.
    pub fn feature_paths(&self, name: &str) -> (r: Option<&[String]>)
        ensures
            match r {
                Some(p) => entry_of(self.paths@, name@) matches Some(q) && q@ == p@,
                None => entry_of(self.paths@, name@) is None,
            },
    {
        let mut i: usize = 0;
        proof {
            assert(self.paths@.skip(0) =~= self.paths@);
        }
        while i < self.paths.len()
            invariant
                0 <= i <= self.paths@.len(),
                entry_of(self.paths@, name@) == entry_of(self.paths@.skip(i as int), name@),
            decreases self.paths@.len() - i,
        {
            proof {
                assert(self.paths@.skip(i as int).drop_first() =~= self.paths@.skip(i + 1));
            }
            if str_eq(self.paths[i].0.as_str(), name) {
                return Some(self.paths[i].1.as_slice());
            }
            i += 1;
        }
        None
    }

    /// The metadata of a feature, if it has any.
    pub fn feature_metadata(&self, name: &str) -> (r: Option<&Metadata>)
        ensures
            match r {
                Some(m) => entry_of(self.metadata@, name@) == Some(*m),
                None => entry_of(self.metadata@, name@) is None,
            },
    {
        let mut i: usize = 0;
        proof {
            assert(self.metadata@.skip(0) =~= self.metadata@);
        }
        while i < self.metadata.len()
            invariant
                0 <= i <= self.metadata@.len(),
                entry_of(self.metadata@, name@) == entry_of(self.metadata@.skip(i as int), name@),
            decreases self.metadata@.len() - i,
        {
            proof {
                assert(self.metadata@.skip(i as int).drop_first() =~= self.metadata@.skip(i + 1));
            }
            if str_eq(self.metadata[i].0.as_str(), name) {
                return Some(&self.metadata[i].1);
            }
            i += 1;
        }
        None
    }
}

fn copy_strings(v: &Vec<String>) -> (r: Vec<String>)
    ensures
        views(r@) == views(v@),
{
    let mut r: Vec<String> = Vec::new();
    let mut i: usize = 0;
    while i < v.len()
        invariant
            0 <= i <= v.len(),
            views(r@) == views(v@.take(i as int)),
        decreases v.len() - i,
    {
        let ghost before = r@;
        r.push(copy_string(&v[i]));
        proof {
            assert(views(r@) =~= views(before).push(v@[i as int]@));
            assert(views(v@.take(i + 1)) =~= views(v@.take(i as int)).push(v@[i as int]@));
        }
        i += 1;
    }
    proof {
        assert(v@.take(v@.len() as int) == v@);
    }
    r
}

/// `value` added to `values` unless it is there already.
fn push_unique(values: &mut Vec<String>, value: &String)
    ensures
        forall|x: Seq<char>| #![trigger views(final(values)@).contains(x)]
            views(final(values)@).contains(x) <==> (views(old(values)@).contains(x) || x == value@),
{
    let mut i: usize = 0;
    while i < values.len()
        invariant
            0 <= i <= values@.len(),
            values@ == old(values)@,
            forall|j: int| 0 <= j < i ==> values@[j]@ != value@,
        decreases values@.len() - i,
    {
        if str_eq(values[i].as_str(), value.as_str()) {
            proof {
                assert(views(values@)[i as int] == value@);
            }
            return;
        }
        i += 1;
    }
    let ghost before = values@;
    values.push(copy_string(value));
    proof {
        assert forall|x: Seq<char>| #![trigger views(values@).contains(x)]
            views(values@).contains(x) <==> (views(before).contains(x) || x == value@) by {
            assert(views(values@) =~= views(before).push(value@));
            crate::sorting::lemma_push_contains_pub(views(before), value@, x);
        }
    }
}

fn is_tf_file(f: &FeatureFile) -> (r: bool)
    ensures
        r == is_tf(*f),
{
    match path_extension(f.path.as_str()) {
        Some(e) => str_eq(e.as_str(), "tf"),
        None => false,
    }
}

/// The inventory of the feature files among `files` (the entries of the corpus
/// directories, in the order listed): node, edge and config feature names
/// ascending without repeats, the computed features, each feature's file paths
/// in order, and each feature's metadata from its last file. The first file
/// whose header does not read gives the error.
pub fn explore_feature_paths(files: &[FeatureFile]) -> (r: Result<FeatureInventory, CfError>)
    ensures
        match first_error(files@) {
            Some(e) => r is Err && r->Err_0@ == e,
            None => r is Ok && {
                let inv = r->Ok_0;
                &&& strictly_sorted_strs(views(inv.nodes@))
                &&& strictly_sorted_strs(views(inv.edges@))
                &&& strictly_sorted_strs(views(inv.configs@))
                &&& views(inv.computeds@) == computed_names()
                &&& forall|x: Seq<char>| #![trigger views(inv.nodes@).contains(x)]
                    views(inv.nodes@).contains(x) <==> has_feature(files@, x, TfFeatureKind::Node)
                &&& forall|x: Seq<char>| #![trigger views(inv.edges@).contains(x)]
                    views(inv.edges@).contains(x) <==> has_feature(files@, x, TfFeatureKind::Edge)
                &&& forall|x: Seq<char>| #![trigger views(inv.configs@).contains(x)]
                    views(inv.configs@).contains(x) <==> has_feature(files@, x, TfFeatureKind::Config)
                &&& forall|x: Seq<char>| #![trigger entry_of(inv.paths@, x)]
                    match entry_of(inv.paths@, x) {
                        Some(p) => views(p@) == name_paths(files@, x) && name_paths(files@, x).len() > 0,
                        None => name_paths(files@, x).len() == 0,
                    }
                &&& forall|x: Seq<char>, k: Seq<char>| #![trigger meta_lookup(entry_of(inv.metadata@, x)->0@, k)]
                    name_paths(files@, x).len() > 0 ==> entry_of(inv.metadata@, x) is Some
                        && Some(meta_lookup(entry_of(inv.metadata@, x)->0@, k)) == last_meta(files@, x, k)
            },
        },
{
    let mut nodes: Vec<String> = Vec::new();
    let mut edges: Vec<String> = Vec::new();
    let mut configs: Vec<String> = Vec::new();
    let mut paths: Vec<(String, Vec<String>)> = Vec::new();
    let mut metadata: Vec<(String, Metadata)> = Vec::new();
    let mut i: usize = 0;
    proof {
        assert(files@.skip(0) =~= files@);
        assert(files@.take(0) =~= Seq::<FeatureFile>::empty());
    }
    while i < files.len()
        invariant
            0 <= i <= files.len(),
            first_error(files@) == first_error(files@.skip(i as int)),
            forall|x: Seq<char>| #![trigger views(nodes@).contains(x)]
                views(nodes@).contains(x) <==> has_feature(files@.take(i as int), x, TfFeatureKind::Node),
            forall|x: Seq<char>| #![trigger views(edges@).contains(x)]
                views(edges@).contains(x) <==> has_feature(files@.take(i as int), x, TfFeatureKind::Edge),
            forall|x: Seq<char>| #![trigger views(configs@).contains(x)]
                views(configs@).contains(x) <==> has_feature(files@.take(i as int), x, TfFeatureKind::Config),
            forall|x: Seq<char>| #![trigger entry_of(paths@, x)]
                match entry_of(paths@, x) {
                    Some(p) => views(p@) == name_paths(files@.take(i as int), x) && name_paths(files@.take(i as int), x).len() > 0,
                    None => name_paths(files@.take(i as int), x).len() == 0,
                },
            forall|x: Seq<char>, k: Seq<char>| #![trigger meta_lookup(entry_of(metadata@, x)->0@, k)]
                name_paths(files@.take(i as int), x).len() > 0 ==> entry_of(metadata@, x) is Some
                    && Some(meta_lookup(entry_of(metadata@, x)->0@, k)) == last_meta(files@.take(i as int), x, k),
            forall|x: Seq<char>| #![trigger entry_of(metadata@, x)]
                name_paths(files@.take(i as int), x).len() == 0 ==> entry_of(metadata@, x) is None,
        decreases files.len() - i,
    {
        let f = &files[i];
        proof {
            assert(files@.skip(i as int).drop_first() =~= files@.skip(i + 1));
            assert(files@.skip(i as int)[0] == files@[i as int]);
            assert(files@.take(i + 1).drop_last() =~= files@.take(i as int));
            assert(files@.take(i + 1).last() == files@[i as int]);
        }
        if !is_tf_file(f) {
            proof {
                lemma_has_feature_skip(files@, i as int);
            }
            i += 1;
            continue;
        }
        let name = path_stem(f.path.as_str());
        let h = match parse_tf_file_metadata(f.path.as_str(), name.as_str(), f.lines.as_slice()) {
            Ok(h) => h,
            Err(e) => {
                return Err(e);
            },
        };
        proof {
            lemma_has_feature_step(files@, i as int);
        }
        match h.kind {
            TfFeatureKind::Node => push_unique(&mut nodes, &name),
            TfFeatureKind::Edge => push_unique(&mut edges, &name),
            TfFeatureKind::Config => push_unique(&mut configs, &name),
        }
        let ghost p0 = paths@;
        let ghost m0 = metadata@;
        add_path(&mut paths, &name, &f.path);
        set_meta(&mut metadata, &name, h.metadata);
        proof {
            let pre = files@.take(i as int);
            let post = files@.take(i + 1);
            assert forall|x: Seq<char>| #![trigger entry_of(paths@, x)]
                match entry_of(paths@, x) {
                    Some(p) => views(p@) == name_paths(post, x) && name_paths(post, x).len() > 0,
                    None => name_paths(post, x).len() == 0,
                } by {
                if x != name@ {
                    assert(entry_of(p0, x) == entry_of(paths@, x));
                } else {
                    assert(name_paths(post, x) == name_paths(pre, x).push(f.path@));
                }
            }
            assert forall|x: Seq<char>, k: Seq<char>| #![trigger meta_lookup(entry_of(metadata@, x)->0@, k)]
                name_paths(post, x).len() > 0 ==> entry_of(metadata@, x) is Some
                    && Some(meta_lookup(entry_of(metadata@, x)->0@, k)) == last_meta(post, x, k) by {
                if x != name@ {
                    assert(entry_of(m0, x) == entry_of(metadata@, x));
                    assert(name_paths(post, x) == name_paths(pre, x));
                    assert(last_meta(post, x, k) == last_meta(pre, x, k));
                    if name_paths(pre, x).len() > 0 {
                        assert(meta_lookup(entry_of(m0, x)->0@, k) == meta_lookup(entry_of(metadata@, x)->0@, k));
                    }
                }
            }
            assert forall|x: Seq<char>| #![trigger entry_of(metadata@, x)]
                name_paths(post, x).len() == 0 implies entry_of(metadata@, x) is None by {
                if x != name@ {
                    assert(entry_of(m0, x) == entry_of(metadata@, x));
                    assert(name_paths(post, x) == name_paths(pre, x));
                } else {
                    assert(name_paths(post, x) == name_paths(pre, x).push(f.path@));
                }
            }
        }
        i += 1;
    }
    proof {
        assert(files@.take(files@.len() as int) =~= files@);
        assert(files@.skip(files@.len() as int) =~= Seq::<FeatureFile>::empty());
    }
    let mut computeds: Vec<String> = Vec::new();
    computeds.push(owned("boundary"));
    computeds.push(owned("levels"));
    computeds.push(owned("order"));
    computeds.push(owned("rank"));
    proof {
        assert(views(computeds@) =~= computed_names());
    }
    let nodes = sorted_unique_strings(nodes);
    let edges = sorted_unique_strings(edges);
    let configs = sorted_unique_strings(configs);
    Ok(FeatureInventory { nodes, edges, configs, computeds, paths, metadata })
}

/// The inventory of the feature files of one directory.
pub fn explore_features(files: &[FeatureFile]) -> (r: Result<FeatureInventory, CfError>)
    ensures
        match first_error(files@) {
            Some(e) => r is Err && r->Err_0@ == e,
            None => r is Ok && {
                let inv = r->Ok_0;
                &&& strictly_sorted_strs(views(inv.nodes@))
                &&& strictly_sorted_strs(views(inv.edges@))
                &&& strictly_sorted_strs(views(inv.configs@))
                &&& views(inv.computeds@) == computed_names()
                &&& forall|x: Seq<char>| #![trigger views(inv.nodes@).contains(x)]
                    views(inv.nodes@).contains(x) <==> has_feature(files@, x, TfFeatureKind::Node)
                &&& forall|x: Seq<char>| #![trigger views(inv.edges@).contains(x)]
                    views(inv.edges@).contains(x) <==> has_feature(files@, x, TfFeatureKind::Edge)
                &&& forall|x: Seq<char>| #![trigger views(inv.configs@).contains(x)]
                    views(inv.configs@).contains(x) <==> has_feature(files@, x, TfFeatureKind::Config)
                &&& forall|x: Seq<char>| #![trigger entry_of(inv.paths@, x)]
                    match entry_of(inv.paths@, x) {
                        Some(p) => views(p@) == name_paths(files@, x) && name_paths(files@, x).len() > 0,
                        None => name_paths(files@, x).len() == 0,
                    }
                &&& forall|x: Seq<char>, k: Seq<char>| #![trigger meta_lookup(entry_of(inv.metadata@, x)->0@, k)]
                    name_paths(files@, x).len() > 0 ==> entry_of(inv.metadata@, x) is Some
                        && Some(meta_lookup(entry_of(inv.metadata@, x)->0@, k)) == last_meta(files@, x, k)
            },
        },
{
    explore_feature_paths(files)
}

proof fn lemma_has_feature_skip(files: Seq<FeatureFile>, i: int)
    requires
        0 <= i < files.len(),
        !is_tf(files[i]),
    ensures
        forall|x: Seq<char>, k: TfFeatureKind| has_feature(files.take(i + 1), x, k) <==> has_feature(files.take(i), x, k),
        forall|x: Seq<char>| name_paths(files.take(i + 1), x) == name_paths(files.take(i), x),
        forall|x: Seq<char>, k: Seq<char>| last_meta(files.take(i + 1), x, k) == last_meta(files.take(i), x, k),
{
    assert(files.take(i + 1).drop_last() =~= files.take(i));
    assert forall|x: Seq<char>, k: TfFeatureKind| has_feature(files.take(i + 1), x, k) <==> has_feature(files.take(i), x, k) by {
        if has_feature(files.take(i + 1), x, k) {
            let j = choose|j: int| 0 <= j < files.take(i + 1).len() && is_tf(#[trigger] files.take(i + 1)[j])
                && stem_of(files.take(i + 1)[j]) == x && kind_of(views(files.take(i + 1)[j].lines@)[0]) == Some(k);
            assert(j < i);
            assert(files.take(i)[j] == files.take(i + 1)[j]);
        }
        if has_feature(files.take(i), x, k) {
            let j = choose|j: int| 0 <= j < files.take(i).len() && is_tf(#[trigger] files.take(i)[j])
                && stem_of(files.take(i)[j]) == x && kind_of(views(files.take(i)[j].lines@)[0]) == Some(k);
            assert(files.take(i)[j] == files.take(i + 1)[j]);
        }
    }
}

proof fn lemma_has_feature_step(files: Seq<FeatureFile>, i: int)
    requires
        0 <= i < files.len(),
        is_tf(files[i]),
        header_error(files[i].path@, views(files[i].lines@)) is None,
    ensures
        forall|x: Seq<char>, k: TfFeatureKind| has_feature(files.take(i + 1), x, k) <==> (has_feature(files.take(i), x, k)
            || (x == stem_of(files[i]) && kind_of(views(files[i].lines@)[0]) == Some(k))),
{
    assert(files.take(i + 1).drop_last() =~= files.take(i));
    assert forall|x: Seq<char>, k: TfFeatureKind| has_feature(files.take(i + 1), x, k) <==> (has_feature(files.take(i), x, k)
        || (x == stem_of(files[i]) && kind_of(views(files[i].lines@)[0]) == Some(k))) by {
        if has_feature(files.take(i + 1), x, k) {
            let j = choose|j: int| 0 <= j < files.take(i + 1).len() && is_tf(#[trigger] files.take(i + 1)[j])
                && stem_of(files.take(i + 1)[j]) == x && kind_of(views(files.take(i + 1)[j].lines@)[0]) == Some(k);
            if j < i {
                assert(files.take(i)[j] == files.take(i + 1)[j]);
            }
        }
        if has_feature(files.take(i), x, k) {
            let j = choose|j: int| 0 <= j < files.take(i).len() && is_tf(#[trigger] files.take(i)[j])
                && stem_of(files.take(i)[j]) == x && kind_of(views(files.take(i)[j].lines@)[0]) == Some(k);
            assert(files.take(i)[j] == files.take(i + 1)[j]);
        }
        if x == stem_of(files[i]) && kind_of(views(files[i].lines@)[0]) == Some(k) {
            assert(files.take(i + 1)[i] == files[i]);
        }
    }
}

/// Adds `path` to the paths of `name`, keeping names unique.
fn add_path(paths: &mut Vec<(String, Vec<String>)>, name: &String, path: &String)
    ensures
        forall|x: Seq<char>| x != name@ ==> entry_of(final(paths)@, x) == entry_of(old(paths)@, x),
        entry_of(final(paths)@, name@) matches Some(p) && views(p@) == match entry_of(old(paths)@, name@) {
            Some(q) => views(q@).push(path@),
            None => seq![path@],
        },
{
    let mut i: usize = 0;
    while i < paths.len()
        invariant
            0 <= i <= paths@.len(),
            paths@ == old(paths)@,
            forall|j: int| 0 <= j < i ==> paths@[j].0@ != name@,
        decreases paths@.len() - i,
    {
        if str_eq(paths[i].0.as_str(), name.as_str()) {
            let ghost before = paths@;
            let mut list = copy_strings(&paths[i].1);
            let ghost q = list@;
            list.push(copy_string(path));
            proof {
                assert(views(list@) =~= views(q).push(path@));
            }
            let key = copy_string(&paths[i].0);
            paths.set(i, (key, list));
            proof {
                lemma_entry_update(before, i as int, paths@[i as int], name@);
            }
            return;
        }
        i += 1;
    }
    let ghost before = paths@;
    let mut v: Vec<String> = Vec::new();
    v.push(copy_string(path));
    proof {
        assert(views(v@) =~= seq![path@]);
    }
    paths.push((copy_string(name), v));
    proof {
        lemma_entry_push(before, paths@[before.len() as int], name@);
    }
}

/// Sets the metadata of `name`, keeping names unique.
fn set_meta(metadata: &mut Vec<(String, Metadata)>, name: &String, m: Metadata)
    ensures
        forall|x: Seq<char>| x != name@ ==> entry_of(final(metadata)@, x) == entry_of(old(metadata)@, x),
        entry_of(final(metadata)@, name@) == Some(m),
{
    let mut i: usize = 0;
    while i < metadata.len()
        invariant
            0 <= i <= metadata@.len(),
            metadata@ == old(metadata)@,
            forall|j: int| 0 <= j < i ==> metadata@[j].0@ != name@,
        decreases metadata@.len() - i,
    {
        if str_eq(metadata[i].0.as_str(), name.as_str()) {
            let ghost before = metadata@;
            let key = copy_string(&metadata[i].0);
            metadata.set(i, (key, m));
            proof {
                lemma_entry_update(before, i as int, metadata@[i as int], name@);
            }
            return;
        }
        i += 1;
    }
    let ghost before = metadata@;
    metadata.push((copy_string(name), m));
    proof {
        lemma_entry_push(before, metadata@[before.len() as int], name@);
    }
}

pub proof fn lemma_entry_update<V>(s: Seq<(String, V)>, i: int, e: (String, V), name: Seq<char>)
    requires
        0 <= i < s.len(),
        s[i].0@ == name,
        e.0@ == name,
        forall|j: int| 0 <= j < i ==> s[j].0@ != name,
    ensures
        forall|x: Seq<char>| x != name ==> entry_of(s.update(i, e), x) == entry_of(s, x),
        entry_of(s.update(i, e), name) == Some(e.1),
        entry_of(s, name) == Some(s[i].1),
    decreases i,
{
    let u = s.update(i, e);
    if i > 0 {
        assert(u.drop_first() =~= s.drop_first().update(i - 1, e));
        lemma_entry_update(s.drop_first(), i - 1, e, name);
        assert(u[0] == s[0]);
        assert forall|x: Seq<char>| x != name implies entry_of(u, x) == entry_of(s, x) by {
            assert(entry_of(u.drop_first(), x) == entry_of(s.drop_first(), x));
        }
    } else {
        assert(u.drop_first() =~= s.drop_first());
        assert forall|x: Seq<char>| x != name implies entry_of(u, x) == entry_of(s, x) by {
            assert(u[0].0@ == name);
        }
    }
}

pub proof fn lemma_entry_push<V>(s: Seq<(String, V)>, e: (String, V), name: Seq<char>)
    requires
        e.0@ == name,
        forall|j: int| 0 <= j < s.len() ==> s[j].0@ != name,
    ensures
        forall|x: Seq<char>| x != name ==> entry_of(s.push(e), x) == entry_of(s, x),
        entry_of(s.push(e), name) == Some(e.1),
        entry_of(s, name) is None,
    decreases s.len(),
{
    let u = s.push(e);
    if s.len() > 0 {
        assert(u.drop_first() =~= s.drop_first().push(e));
        lemma_entry_push(s.drop_first(), e, name);
        assert(u[0] == s[0]);
        assert forall|x: Seq<char>| x != name implies entry_of(u, x) == entry_of(s, x) by {
            assert(entry_of(u.drop_first(), x) == entry_of(s.drop_first(), x));
        }
    } else {
        assert(u.drop_first() =~= s);
        assert(u[0] == e);
        assert forall|x: Seq<char>| x != name implies entry_of(u, x) == entry_of(s, x) by {
            assert(entry_of(u.drop_first(), x) == entry_of(s, x));
        }
    }
}

} // verus!

//! Which features a corpus has loaded, with their kind, value type and metadata.

use vstd::prelude::*;
use crate::corpus::Corpus;
use crate::corpus_info::{computed_names_spec, keys_of, str_views};
use crate::corpus_types::{LoadedFeatureInfo, LoadedFeatureKind};
use crate::sorting::{sorted_unique_strings, strictly_sorted_strs};
use crate::strs::{copy_string, owned, str_eq, views};
use crate::value::{meta_clone, meta_has, meta_lookup, meta_remove, opt_str, Metadata};

verus! {

/// The declared value type that `m` gives up: the entry `valueType` (empty when bare),
/// else the entry `value_type`, else nothing.
pub open spec fn taken_value_type(m: Seq<(String, Option<String>)>) -> Seq<char> {
    match meta_lookup(m, "valueType"@) {
        Some(Some(v)) => v,
        Some(None) => seq![],
        None => match meta_lookup(m, "value_type"@) {
            Some(Some(v)) => v,
            _ => seq![],
        },
    }
}

/// The entry of `k` in `m` once the value type is taken out: `valueType` goes, and
/// `value_type` too where there was no `valueType`.
pub open spec fn stripped_lookup(m: Seq<(String, Option<String>)>, k: Seq<char>) -> Option<Option<Seq<char>>> {
    if k == "valueType"@ {
        None
    } else if k == "value_type"@ && meta_lookup(m, "valueType"@) is None {
        None
    } else {
        meta_lookup(m, k)
    }
}

/// Takes the declared value type out of `metadata` and returns it.
pub fn remove_value_type_metadata(metadata: &mut Metadata) -> (r: String)
    ensures
        r@ == taken_value_type(old(metadata)@),
        forall|k: Seq<char>|
            #![trigger meta_lookup(final(metadata)@, k)]
            meta_lookup(final(metadata)@, k) == stripped_lookup(old(metadata)@, k),
{
    let ghost m0 = metadata@;
    let first = meta_remove(metadata, "valueType");
    let ghost m1 = metadata@;
    match first {
        Some(Some(v)) => v,
        Some(None) => String::new(),
        None => {
            let second = meta_remove(metadata, "value_type");
            proof {
                assert forall|k: Seq<char>|
                    #![trigger meta_lookup(metadata@, k)]
                    meta_lookup(metadata@, k) == stripped_lookup(m0, k) by {
                    assert(meta_lookup(m1, k) == if k == "valueType"@ { None } else { meta_lookup(m0, k) });
                }
            }
            match second {
                Some(Some(v)) => v,
                _ => String::new(),
            }
        },
    }
}

/// `info` holds the kind `kind`, the value type taken from `m`, the rest of `m`, and
/// `edge_values`.
pub open spec fn info_of(info: LoadedFeatureInfo, kind: LoadedFeatureKind, m: Seq<(String, Option<String>)>, edge_values: Option<bool>) -> bool {
    &&& info.kind == kind
    &&& info.value_type@ == taken_value_type(m)
    &&& forall|k: Seq<char>| #![trigger meta_lookup(info.metadata@, k)] meta_lookup(info.metadata@, k) == stripped_lookup(m, k)
    &&& info.edge_values == edge_values
}

impl Corpus {
    /// `r` is what is known of the loaded feature `name`: a node feature first, then an
    /// edge feature, a configuration feature, or a computed one; nothing for another
    /// name.
    pub open spec fn loaded_info_ok(&self, name: Seq<char>, r: Option<LoadedFeatureInfo>) -> bool {
        match self.nf(name) {
            Some(f) => r is Some && info_of(r->0, LoadedFeatureKind::Node, f.metadata@, None),
            None => match self.ef(name) {
                Some(f) => r is Some && info_of(
                    r->0,
                    LoadedFeatureKind::Edge,
                    f.metadata@,
                    Some(name != "oslots"@ && meta_has(f.metadata@, "edgeValues"@)),
                ),
                None => match self.cfg(name) {
                    Some(m) => r is Some && info_of(r->0, LoadedFeatureKind::Config, m@, None),
                    None => if computed_names_spec().contains(name) {
                        &&& r is Some
                        &&& r->0.kind == LoadedFeatureKind::Computed
                        &&& r->0.value_type@.len() == 0
                        &&& r->0.metadata@.len() == 0
                        &&& r->0.edge_values is None
                    } else {
                        r is None
                    },
                },
            },
        }
    }

    /// What is known of the loaded feature `name`.
    pub fn loaded_feature_info(&self, name: &str) -> (r: Option<LoadedFeatureInfo>)
        ensures
            self.loaded_info_ok(name@, r),
    {
        if let Some(f) = self.node_feature(name) {
            let mut metadata = meta_clone(f.meta());
            let value_type = remove_value_type_metadata(&mut metadata);
            return Some(LoadedFeatureInfo { kind: LoadedFeatureKind::Node, value_type, metadata, edge_values: None });
        }
        if let Some(f) = self.edge_feature(name) {
            let mut metadata = meta_clone(f.meta());
            let value_type = remove_value_type_metadata(&mut metadata);
            let is_slots = str_eq(name, "oslots");
            let edge_values = !is_slots && f.has_edge_values();
            return Some(LoadedFeatureInfo { kind: LoadedFeatureKind::Edge, value_type, metadata, edge_values: Some(edge_values) });
        }
        if let Some(m) = self.config_feature(name) {
            let mut metadata = meta_clone(m);
            let value_type = remove_value_type_metadata(&mut metadata);
            return Some(LoadedFeatureInfo { kind: LoadedFeatureKind::Config, value_type, metadata, edge_values: None });
        }
        let computed = self.computed_names();
        let mut i: usize = 0;
        while i < 4
            invariant
                i <= 4,
                self.nf(name@) is None,
                self.ef(name@) is None,
                self.cfg(name@) is None,
                str_views(computed@) == computed_names_spec(),
                forall|j: int| 0 <= j < i ==> computed_names_spec()[j] != name@,
            decreases 4 - i,
        {
            proof {
                assert(str_views(computed@)[i as int] == computed@[i as int]@);
            }
            if str_eq(computed[i], name) {
                proof {
                    assert(computed_names_spec()[i as int] == name@);
                    assert(computed_names_spec().contains(name@));
                }
                return Some(LoadedFeatureInfo {
                    kind: LoadedFeatureKind::Computed,
                    value_type: String::new(),
                    metadata: Vec::new(),
                    edge_values: None,
                });
            }
            i += 1;
        }
        proof {
            assert(!computed_names_spec().contains(name@));
        }
        None
    }

    /// The names of the loaded features: node, edge, configuration and computed ones.
    pub open spec fn loaded_names(&self) -> Set<Seq<char>> {
        self.node_names() + self.edge_names() + self.config_names() + computed_names_spec().to_set()
    }

    /// The names of the loaded features, ascending, each once.
    fn loaded_feature_names(&self) -> (r: Vec<String>)
        ensures
            strictly_sorted_strs(views(r@)),
            forall|k: Seq<char>| views(r@).contains(k) <==> self.loaded_names().contains(k),
    {
        let mut all: Vec<String> = Vec::new();
        let parts = [self.node_name_list(), self.edge_name_list(), self.config_name_list()];
        let ghost groups = seq![self.node_names(), self.edge_names(), self.config_names()];
        let mut p: usize = 0;
        while p < 3
            invariant
                p <= 3,
                groups == seq![self.node_names(), self.edge_names(), self.config_names()],
                forall|q: int| 0 <= q < 3 ==> forall|k: Seq<char>| views(#[trigger] parts@[q]@).contains(k) <==> groups[q].contains(k),
                forall|k: Seq<char>| views(all@).contains(k) <==> exists|q: int| 0 <= q < p && #[trigger] groups[q].contains(k),
            decreases 3 - p,
        {
            let part = &parts[p];
            let mut i: usize = 0;
            let ghost a0 = views(all@);
            while i < part.len()
                invariant
                    i <= part@.len(),
                    part@ == parts@[p as int]@,
                    views(all@) == a0 + views(part@).take(i as int),
                decreases part.len() - i,
            {
                let ghost al = views(all@);
                all.push(copy_string(&part[i]));
                proof {
                    assert(views(all@) =~= al.push(part@[i as int]@));
                    assert(views(part@).take(i + 1) =~= views(part@).take(i as int).push(part@[i as int]@));
                }
                i += 1;
            }
            proof {
                assert(views(part@).take(part@.len() as int) =~= views(part@));
                assert forall|k: Seq<char>| views(all@).contains(k) <==> exists|q: int| 0 <= q < p + 1 && #[trigger] groups[q].contains(k) by {
                    if views(all@).contains(k) {
                        let x = choose|x: int| 0 <= x < views(all@).len() && views(all@)[x] == k;
                        if x < a0.len() {
                            assert(a0[x] == k);
                            assert(a0.contains(k));
                        } else {
                            assert(views(part@)[x - a0.len()] == k);
                            assert(views(parts@[p as int]@).contains(k));
                            assert(groups[p as int].contains(k));
                        }
                    }
                    if exists|q: int| 0 <= q < p + 1 && #[trigger] groups[q].contains(k) {
                        let q = choose|q: int| 0 <= q < p + 1 && #[trigger] groups[q].contains(k);
                        if q < p {
                            assert(a0.contains(k));
                            let x = choose|x: int| 0 <= x < a0.len() && a0[x] == k;
                            assert(views(all@)[x] == k);
                        } else {
                            assert(views(parts@[p as int]@).contains(k));
                            let x = choose|x: int| 0 <= x < views(part@).len() && views(part@)[x] == k;
                            assert(views(all@)[a0.len() + x] == k);
                        }
                    }
                }
            }
            p += 1;
        }
        let computed = self.computed_names();
        let mut i: usize = 0;
        let ghost a1 = views(all@);
        while i < 4
            invariant
                i <= 4,
                str_views(computed@) == computed_names_spec(),
                views(all@) == a1 + computed_names_spec().take(i as int),
            decreases 4 - i,
        {
            let ghost al = views(all@);
            all.push(owned(computed[i]));
            proof {
                assert(str_views(computed@)[i as int] == computed@[i as int]@);
                assert(views(all@) =~= al.push(computed_names_spec()[i as int]));
                assert(computed_names_spec().take(i + 1) =~= computed_names_spec().take(i as int).push(computed_names_spec()[i as int]));
            }
            i += 1;
        }
        proof {
            assert(computed_names_spec().take(4) =~= computed_names_spec());
            assert forall|k: Seq<char>| views(all@).contains(k) <==> self.loaded_names().contains(k) by {
                if views(all@).contains(k) {
                    let x = choose|x: int| 0 <= x < views(all@).len() && views(all@)[x] == k;
                    if x < a1.len() {
                        assert(a1.contains(k));
                        let q = choose|q: int| 0 <= q < 3 && #[trigger] groups[q].contains(k);
                    } else {
                        assert(computed_names_spec()[x - a1.len()] == k);
                        assert(computed_names_spec().contains(k));
                    }
                }
                if self.loaded_names().contains(k) {
                    if computed_names_spec().to_set().contains(k) {
                        let x = choose|x: int| 0 <= x < 4 && computed_names_spec()[x] == k;
                        assert(views(all@)[a1.len() + x] == k);
                    } else {
                        if self.node_names().contains(k) {
                            assert(groups[0].contains(k));
                        } else if self.edge_names().contains(k) {
                            assert(groups[1].contains(k));
                        } else {
                            assert(groups[2].contains(k));
                        }
                        assert(a1.contains(k));
                        let x = choose|x: int| 0 <= x < a1.len() && a1[x] == k;
                        assert(views(all@)[x] == k);
                    }
                }
            }
        }
        sorted_unique_strings(all)
    }

    /// The features `features` (all loaded ones without a list), each once, ascending,
    /// with what is known of them (nothing for a name that is not loaded).
    pub fn is_loaded(&self, features: Option<&[&str]>) -> (r: Vec<(String, Option<LoadedFeatureInfo>)>)
        ensures
            strictly_sorted_strs(keys_of(r@)),
            forall|k: Seq<char>| keys_of(r@).contains(k) <==> match features {
                Some(fs) => str_views(fs@).contains(k),
                None => self.loaded_names().contains(k),
            },
            forall|i: int| 0 <= i < r@.len() ==> self.loaded_info_ok((#[trigger] r@[i]).0@, r@[i].1),
    {
        let names = match features {
            Some(fs) => {
                let mut all: Vec<String> = Vec::new();
                let mut j: usize = 0;
                while j < fs.len()
                    invariant
                        j <= fs@.len(),
                        views(all@) == str_views(fs@).take(j as int),
                    decreases fs.len() - j,
                {
                    let ghost a0 = all@;
                    all.push(owned(fs[j]));
                    proof {
                        assert(views(all@) =~= views(a0).push(fs@[j as int]@));
                        assert(str_views(fs@).take(j + 1) =~= str_views(fs@).take(j as int).push(fs@[j as int]@));
                    }
                    j += 1;
                }
                proof {
                    assert(str_views(fs@).take(fs@.len() as int) =~= str_views(fs@));
                }
                sorted_unique_strings(all)
            },
            None => self.loaded_feature_names(),
        };
        let mut r: Vec<(String, Option<LoadedFeatureInfo>)> = Vec::new();
        let mut i: usize = 0;
        while i < names.len()
            invariant
                i <= names@.len(),
                keys_of(r@) == views(names@).take(i as int),
                forall|a: int| 0 <= a < r@.len() ==> self.loaded_info_ok((#[trigger] r@[a]).0@, r@[a].1),
            decreases names.len() - i,
        {
            let info = self.loaded_feature_info(names[i].as_str());
            let ghost r0 = r@;
            r.push((copy_string(&names[i]), info));
            proof {
                assert(keys_of(r@) =~= keys_of(r0).push(names@[i as int]@));
                assert(views(names@).take(i + 1) =~= views(names@).take(i as int).push(names@[i as int]@));
                assert forall|a: int| 0 <= a < r@.len() implies self.loaded_info_ok((#[trigger] r@[a]).0@, r@[a].1) by {
                    if a < r0.len() {
                        assert(r@[a] == r0[a]);
                    }
                }
            }
            i += 1;
        }
        proof {
            assert(views(names@).take(names@.len() as int) =~= views(names@));
        }
        r
    }

    /// The features with what is known of them (camel-case name).
    #[allow(non_snake_case)]
    pub fn isLoaded(&self, features: Option<&[&str]>) -> (r: Vec<(String, Option<LoadedFeatureInfo>)>)
        ensures
            strictly_sorted_strs(keys_of(r@)),
            forall|k: Seq<char>| keys_of(r@).contains(k) <==> match features {
                Some(fs) => str_views(fs@).contains(k),
                None => self.loaded_names().contains(k),
            },
            forall|i: int| 0 <= i < r@.len() ==> self.loaded_info_ok((#[trigger] r@[i]).0@, r@[i].1),
    {
        self.is_loaded(features)
    }
}

} // verus!

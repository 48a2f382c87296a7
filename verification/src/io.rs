//! A `.tf` feature file as an object: its path parts, kind, metadata and data; loading
//! it from the file's lines and rendering it back to `.tf` text.

use vstd::prelude::*;
use crate::edge_tables::TfFeature;
use crate::feature::{EdgeFeature, NodeFeature};
use crate::parser::{header_error, kind_of, meta_of, meta_stop, normalized, parse_tf_file, parse_tf_file_metadata, vt_of, TfFeatureKind};
use crate::corpus_load::{file_error, file_meta, file_value_type, lemma_meta_facts, parsed_as};
use crate::sorting::{sorted_unique_strings, strictly_sorted_strs};
use crate::strs::{copy_string, owned, push_str, string_eq, views, str_eq};
use crate::value::{meta_clone, meta_get, meta_has, meta_lookup, metadata_value_spec, tf_text, Metadata};

verus! {

/// The parent directory of a path (`Path::parent`, empty without one).
pub uninterp spec fn path_parent_text(p: Seq<char>) -> Seq<char>;

/// The file name without extension of a path (`Path::file_stem`, empty without one).
pub uninterp spec fn path_stem_text(p: Seq<char>) -> Seq<char>;

/// The extension of a path (`Path::extension`), if any.
pub uninterp spec fn path_extension_text(p: Seq<char>) -> Option<Seq<char>>;

/// The last component of a path (`Path::file_name`, empty without one).
pub uninterp spec fn path_file_name_text(p: Seq<char>) -> Seq<char>;

/// `Path::file_name` of `p`, as text; empty when there is none.
#[verifier::external_body]
pub(crate) fn path_file_name(p: &str) -> (r: String)
    ensures
        r@ == path_file_name_text(p@),
{
    std::path::Path::new(p).file_name().map(|x| x.to_string_lossy().into_owned()).unwrap_or_default()
}

/// `Path::parent` of `p`, as text; empty when there is none.
#[verifier::external_body]
pub(crate) fn path_parent(p: &str) -> (r: String)
    ensures
        r@ == path_parent_text(p@),
{
    std::path::Path::new(p).parent().map(|x| x.to_string_lossy().into_owned()).unwrap_or_default()
}

/// `Path::file_stem` of `p`, as text; empty when there is none.
#[verifier::external_body]
pub(crate) fn path_stem(p: &str) -> (r: String)
    ensures
        r@ == path_stem_text(p@),
{
    std::path::Path::new(p).file_stem().map(|x| x.to_string_lossy().into_owned()).unwrap_or_default()
}

/// `Path::extension` of `p`, as text.
#[verifier::external_body]
pub(crate) fn path_extension(p: &str) -> (r: Option<String>)
    ensures
        match r {
            Some(s) => path_extension_text(p@) == Some(s@),
            None => path_extension_text(p@) is None,
        },
{
    std::path::Path::new(p).extension().map(|x| x.to_string_lossy().into_owned())
}

/// The data of a loaded feature file.
#[derive(Debug, Clone, PartialEq, Eq)]
pub enum TfDataContent {
    Node(NodeFeature),
    Edge(EdgeFeature),
    Config { name: String, metadata: Metadata },
}

/// A feature file: where it is, what kind it is, its metadata and, once loaded, its data.
#[derive(Debug, Clone)]
pub struct TfData {
    pub path: String,
    pub dir_name: String,
    pub file_name: String,
    pub extension: String,
    pub edge_values: bool,
    pub is_edge: Option<bool>,
    pub is_config: Option<bool>,
    pub metadata: Metadata,
    pub data: Option<TfDataContent>,
    pub data_loaded: bool,
    pub data_error: bool,
    pub data_type: String,
}

/// The value types a feature can declare.
pub const DATA_TYPES: [&'static str; 2] = ["str", "int"];

/// The number of errors reported before the rest is cut off.
pub const ERROR_CUTOFF: usize = 20;

/// The data type a feature declares: `valueType` (else `value_type`) when it is one of
/// the known types, else `str`.
pub open spec fn data_type_of(m: Seq<(String, Option<String>)>) -> Seq<char> {
    match metadata_value_spec(m, "valueType"@) {
        Some(v) => if v == "str"@ || v == "int"@ { v } else { "str"@ },
        None => "str"@,
    }
}

impl TfData {
    /// A feature file at `path`, not loaded, with data type `str`.
    pub fn new(path: &str) -> (r: Self)
        ensures
            r.path@ == path@,
            r.dir_name@ == path_parent_text(path@),
            r.file_name@ == path_stem_text(path@),
            r.extension@ == match path_extension_text(path@) {
                Some(e) => seq!['.'] + e,
                None => seq![],
            },
            !r.edge_values,
            r.is_edge is None,
            r.is_config is None,
            r.metadata@.len() == 0,
            r.data is None,
            !r.data_loaded,
            !r.data_error,
            r.data_type@ == "str"@,
    {
        let extension = match path_extension(path) {
            Some(e) => {
                let mut x = owned(".");
                push_str(&mut x, e.as_str());
                proof {
                    reveal_strlit(".");
                    assert(x@ =~= seq!['.'] + e@);
                }
                x
            },
            None => String::new(),
        };
        TfData {
            path: owned(path),
            dir_name: path_parent(path),
            file_name: path_stem(path),
            extension,
            edge_values: false,
            is_edge: None,
            is_config: None,
            metadata: Vec::new(),
            data: None,
            data_loaded: false,
            data_error: false,
            data_type: owned("str"),
        }
    }

    /// Sets the data type from the metadata (configuration files keep theirs).
    pub fn set_data_type(&mut self)
        ensures
            old(self).is_config == Some(true) ==> *final(self) == *old(self),
            old(self).is_config != Some(true) ==> final(self).data_type@ == data_type_of(old(self).metadata@)
                && *final(self) == (TfData { data_type: final(self).data_type, ..*old(self) }),
    {
        if self.is_config == Some(true) {
            return;
        }
        proof {
            reveal_strlit("str");
            reveal_strlit("int");
            reveal_strlit("valueType");
        }
        let t: String = match crate::value::metadata_value(&self.metadata, "valueType") {
            Some(v) => if str_eq(v, "str") || str_eq(v, "int") { owned(v) } else { owned("str") },
            None => owned("str"),
        };
        self.data_type = t;
    }

    /// Sets the data type from the metadata (camel-case name).
    #[allow(non_snake_case)]
    pub fn setDataType(&mut self)
        ensures
            old(self).is_config == Some(true) ==> *final(self) == *old(self),
            old(self).is_config != Some(true) ==> final(self).data_type@ == data_type_of(old(self).metadata@)
                && *final(self) == (TfData { data_type: final(self).data_type, ..*old(self) }),
    {
        self.set_data_type()
    }

    /// Whether the data is loaded.
    #[allow(non_snake_case)]
    pub fn dataLoaded(&self) -> (r: bool)
        ensures
            r == self.data_loaded,
    {
        self.data_loaded
    }

    /// Whether loading failed.
    #[allow(non_snake_case)]
    pub fn dataError(&self) -> (r: bool)
        ensures
            r == self.data_error,
    {
        self.data_error
    }

    /// The directory of the file.
    #[allow(non_snake_case)]
    pub fn dirName(&self) -> (r: &str)
        ensures
            r@ == self.dir_name@,
    {
        self.dir_name.as_str()
    }

    /// The file name without extension.
    #[allow(non_snake_case)]
    pub fn fileName(&self) -> (r: &str)
        ensures
            r@ == self.file_name@,
    {
        self.file_name.as_str()
    }

    /// Whether the edges carry values.
    #[allow(non_snake_case)]
    pub fn edgeValues(&self) -> (r: bool)
        ensures
            r == self.edge_values,
    {
        self.edge_values
    }

    /// Whether the file holds an edge feature, once known.
    #[allow(non_snake_case)]
    pub fn isEdge(&self) -> (r: Option<bool>)
        ensures
            r == self.is_edge,
    {
        self.is_edge
    }

    /// Whether the file holds configuration only, once known.
    #[allow(non_snake_case)]
    pub fn isConfig(&self) -> (r: Option<bool>)
        ensures
            r == self.is_config,
    {
        self.is_config
    }

    /// The metadata.
    #[allow(non_snake_case)]
    pub fn metaData(&self) -> (r: &Metadata)
        ensures
            r == &self.metadata,
    {
        &self.metadata
    }

    /// The data type.
    #[allow(non_snake_case)]
    pub fn dataType(&self) -> (r: &str)
        ensures
            r@ == self.data_type@,
    {
        self.data_type.as_str()
    }

    /// Drops the loaded data.
    pub fn unload(&mut self)
        ensures
            *final(self) == (TfData { data: None, data_loaded: false, ..*old(self) }),
    {
        self.data = None;
        self.data_loaded = false;
    }

    /// Records the kind of the file.
    pub fn apply_kind(&mut self, kind: TfFeatureKind)
        ensures
            final(self).is_edge == Some(kind == TfFeatureKind::Edge),
            final(self).is_config == Some(kind == TfFeatureKind::Config),
            *final(self) == (TfData { is_edge: final(self).is_edge, is_config: final(self).is_config, ..*old(self) }),
    {
        match kind {
            TfFeatureKind::Node => {
                self.is_edge = Some(false);
                self.is_config = Some(false);
            },
            TfFeatureKind::Edge => {
                self.is_edge = Some(true);
                self.is_config = Some(false);
            },
            TfFeatureKind::Config => {
                self.is_edge = Some(false);
                self.is_config = Some(true);
            },
        }
    }

    /// Takes a parsed feature as the data of the file, with its kind and metadata.
    pub fn set_feature(&mut self, feature: TfFeature)
        ensures
            match feature {
                TfFeature::Node(f) => {
                    &&& final(self).is_edge == Some(false) && final(self).is_config == Some(false) && !final(self).edge_values
                    &&& (forall|k: Seq<char>| #![trigger meta_lookup(final(self).metadata@, k)] meta_lookup(final(self).metadata@, k) == meta_lookup(f.metadata@, k))
                    &&& final(self).data_type@ == data_type_of(f.metadata@)
                    &&& final(self).data == Some(TfDataContent::Node(f))
                },
                TfFeature::Edge(f) => {
                    &&& final(self).is_edge == Some(true) && final(self).is_config == Some(false)
                    &&& final(self).edge_values == meta_has(f.metadata@, "edgeValues"@)
                    &&& (forall|k: Seq<char>| #![trigger meta_lookup(final(self).metadata@, k)] meta_lookup(final(self).metadata@, k) == meta_lookup(f.metadata@, k))
                    &&& final(self).data_type@ == data_type_of(f.metadata@)
                    &&& final(self).data == Some(TfDataContent::Edge(f))
                },
                TfFeature::Config { name, metadata } => {
                    &&& final(self).is_edge == Some(false) && final(self).is_config == Some(true) && !final(self).edge_values
                    &&& (forall|k: Seq<char>| #![trigger meta_lookup(final(self).metadata@, k)] meta_lookup(final(self).metadata@, k) == meta_lookup(metadata@, k))
                    &&& final(self).data_type == old(self).data_type
                    &&& final(self).data == Some(TfDataContent::Config { name, metadata })
                },
            },
            final(self).path == old(self).path,
            final(self).dir_name == old(self).dir_name,
            final(self).file_name == old(self).file_name,
            final(self).extension == old(self).extension,
            final(self).data_loaded == old(self).data_loaded,
            final(self).data_error == old(self).data_error,
    {
        match feature {
            TfFeature::Node(f) => {
                self.is_edge = Some(false);
                self.is_config = Some(false);
                self.edge_values = false;
                self.metadata = meta_clone(&f.metadata);
                self.set_data_type();
                proof {
                    assert(meta_lookup(self.metadata@, "valueType"@) == meta_lookup(f.metadata@, "valueType"@));
                    assert(meta_lookup(self.metadata@, "value_type"@) == meta_lookup(f.metadata@, "value_type"@));
                }
                self.data = Some(TfDataContent::Node(f));
            },
            TfFeature::Edge(f) => {
                self.is_edge = Some(true);
                self.is_config = Some(false);
                self.edge_values = f.has_edge_values();
                self.metadata = meta_clone(&f.metadata);
                self.set_data_type();
                proof {
                    assert(meta_lookup(self.metadata@, "valueType"@) == meta_lookup(f.metadata@, "valueType"@));
                    assert(meta_lookup(self.metadata@, "value_type"@) == meta_lookup(f.metadata@, "value_type"@));
                }
                self.data = Some(TfDataContent::Edge(f));
            },
            TfFeature::Config { name, metadata } => {
                self.is_edge = Some(false);
                self.is_config = Some(true);
                self.edge_values = false;
                self.metadata = meta_clone(&metadata);
                self.data = Some(TfDataContent::Config { name, metadata });
            },
        }
    }
}

/// The data that a parsed feature gives a feature file.
pub open spec fn content_of(t: TfFeature) -> TfDataContent {
    match t {
        TfFeature::Node(f) => TfDataContent::Node(f),
        TfFeature::Edge(f) => TfDataContent::Edge(f),
        TfFeature::Config { name, metadata } => TfDataContent::Config { name, metadata },
    }
}

/// The header of a `.tf` file given by its lines, as a lookup: the normalised metadata.
pub open spec fn header_lookup(lines: Seq<Seq<char>>, k: Seq<char>) -> Option<Option<Seq<char>>> {
    normalized(|q: Seq<char>| meta_of(lines, meta_stop(lines, 1), q), k)
}

impl TfData {
    /// Loads the file from its lines (`None` when it does not exist): only its header
    /// when `meta_only`, else the whole feature. Returns whether it loaded; when it did
    /// not, the data is marked in error and nothing else changes.
    pub fn load(&mut self, lines: Option<&[String]>, meta_only: bool) -> (ok: bool)
        ensures
            !ok ==> *final(self) == (TfData { data_error: true, ..*old(self) }),
            lines is None ==> !ok,
            lines is Some && header_error(old(self).path@, views(lines->0@)) is Some ==> !ok,
            lines is Some && header_error(old(self).path@, views(lines->0@)) is None && meta_only ==> {
                let ls = views(lines->0@);
                let kind = kind_of(ls[0])->0;
                &&& ok
                &&& final(self).is_edge == Some(kind == TfFeatureKind::Edge)
                &&& final(self).is_config == Some(kind == TfFeatureKind::Config)
                &&& forall|k: Seq<char>| #![trigger meta_lookup(final(self).metadata@, k)]
                    meta_lookup(final(self).metadata@, k) == header_lookup(ls, k)
                &&& kind != TfFeatureKind::Config ==> final(self).data_type@ == data_type_of(final(self).metadata@)
                &&& kind == TfFeatureKind::Config ==> final(self).data_type == old(self).data_type
                &&& final(self).data is None
                &&& final(self).data_loaded == old(self).data_loaded
                &&& final(self).data_error == old(self).data_error
            },
            lines is Some && header_error(old(self).path@, views(lines->0@)) is None && !meta_only
                && kind_of(views(lines->0@)[0]) == Some(TfFeatureKind::Config) ==> ok,
            ok && !meta_only ==> {
                &&& final(self).data is Some
                &&& final(self).data_loaded == (old(self).data_loaded || final(self).is_config != Some(true))
                &&& final(self).data_error == old(self).data_error
            },
            ok ==> final(self).path == old(self).path && final(self).file_name == old(self).file_name
                && final(self).dir_name == old(self).dir_name && final(self).extension == old(self).extension,
            lines is Some && !meta_only ==> (ok <==> file_error(old(self).path@, views(lines->0@)) is None),
            ok && !meta_only ==> exists|t: TfFeature|
                #[trigger] parsed_as(old(self).path@, old(self).file_name@, views(lines->0@), t) && final(self).data == Some(content_of(t)),
    {
        let ls = match lines {
            Some(ls) => ls,
            None => {
                self.data_error = true;
                return false;
            },
        };
        if meta_only {
            match parse_tf_file_metadata(self.path.as_str(), self.file_name.as_str(), ls) {
                Ok(h) => {
                    self.apply_kind(h.kind);
                    self.metadata = h.metadata;
                    self.set_data_type();
                    self.data = None;
                    true
                },
                Err(_) => {
                    self.data_error = true;
                    false
                },
            }
        } else {
            let ghost lv = views(ls@);
            proof {
                assert forall|meta: Metadata|
                    (forall|k: Seq<char>| #![trigger meta_lookup(meta@, k)] meta_lookup(meta@, k) == file_meta(lv, k)) implies
                    #[trigger] vt_of(meta@) == file_value_type(lv) && meta_has(meta@, "edgeValues"@) == (file_meta(lv, "edgeValues"@) is Some) by {
                    lemma_meta_facts(meta@, lv);
                }
                assert(lv.len() == ls@.len());
            }
            match parse_tf_file(self.path.as_str(), self.file_name.as_str(), ls) {
                Ok(feature) => {
                    let ghost t = feature;
                    proof {
                        assert(file_error(self.path@, lv) is None);
                        assert(parsed_as(self.path@, self.file_name@, lv, t));
                    }
                    self.set_feature(feature);
                    if self.is_config != Some(true) {
                        self.data_loaded = true;
                    }
                    proof {
                        assert(self.data == Some(content_of(t)));
                    }
                    true
                },
                Err(e) => {
                    proof {
                        assert(file_error(self.path@, lv) == Some(e@));
                    }
                    self.data_error = true;
                    false
                },
            }
        }
    }

    /// Loads only the header of the file from its lines.
    pub fn load_meta_only(&mut self, lines: Option<&[String]>) -> (ok: bool)
        ensures
            !ok ==> *final(self) == (TfData { data_error: true, ..*old(self) }),
            lines is None ==> !ok,
            lines is Some ==> (ok <==> header_error(old(self).path@, views(lines->0@)) is None),
            ok ==> final(self).data is None && final(self).data_loaded == old(self).data_loaded
                && final(self).path == old(self).path && final(self).file_name == old(self).file_name,
    {
        self.load(lines, true)
    }

    /// Loads only the header (camel-case name).
    #[allow(non_snake_case)]
    pub fn loadMetaOnly(&mut self, lines: Option<&[String]>) -> (ok: bool)
        ensures
            !ok ==> *final(self) == (TfData { data_error: true, ..*old(self) }),
            lines is None ==> !ok,
            lines is Some ==> (ok <==> header_error(old(self).path@, views(lines->0@)) is None),
            ok ==> final(self).data is None && final(self).data_loaded == old(self).data_loaded
                && final(self).path == old(self).path && final(self).file_name == old(self).file_name,
    {
        self.load_meta_only(lines)
    }
}

/// The `.tf` line of a metadata key: `@key=value`, or `@key` for a bare key.
pub open spec fn meta_line(m: Seq<(String, Option<String>)>, k: Seq<char>) -> Seq<char> {
    match meta_lookup(m, k) {
        Some(Some(v)) => seq!['@'] + k + seq!['='] + v + seq!['\n'],
        _ => seq!['@'] + k + seq!['\n'],
    }
}

/// The metadata lines of the keys, in order.
pub open spec fn meta_lines(m: Seq<(String, Option<String>)>, keys: Seq<Seq<char>>) -> Seq<char>
    decreases keys.len(),
{
    if keys.len() == 0 {
        seq![]
    } else {
        meta_lines(m, keys.drop_last()) + meta_line(m, keys.last())
    }
}

/// The metadata block: one line per key, keys ascending.
pub open spec fn meta_block(m: Seq<(String, Option<String>)>, text: Seq<char>) -> bool {
    exists|keys: Seq<Seq<char>>| #![trigger meta_lines(m, keys)] {
        &&& strictly_sorted_strs(keys)
        &&& forall|k: Seq<char>| #[trigger] keys.contains(k) <==> meta_has(m, k)
        &&& text == meta_lines(m, keys)
    }
}

/// The `.tf` lines of node values.
pub open spec fn node_rows(rows: Seq<(u32, crate::value::FValue)>) -> Seq<char>
    decreases rows.len(),
{
    if rows.len() == 0 {
        seq![]
    } else {
        node_rows(rows.drop_last()) + crate::strs::dec_nat(rows.last().0 as nat) + seq!['\t'] + tf_text(rows.last().1) + seq!['\n']
    }
}

/// The `.tf` line of one edge.
pub open spec fn edge_row(f: EdgeFeature, s: u32, t: u32) -> Seq<char> {
    crate::strs::dec_nat(s as nat) + seq!['\t'] + crate::strs::dec_nat(t as nat) + match crate::feature::ev_at(f.edge_values@, s, t) {
        Some(v) => seq!['\t'] + tf_text(v) + seq!['\n'],
        None => seq!['\n'],
    }
}

/// The `.tf` lines of the edges from `s` to `ts`.
pub open spec fn edge_rows_of(f: EdgeFeature, s: u32, ts: Seq<u32>) -> Seq<char>
    decreases ts.len(),
{
    if ts.len() == 0 {
        seq![]
    } else {
        edge_rows_of(f, s, ts.drop_last()) + edge_row(f, s, ts.last())
    }
}

/// The `.tf` lines of the edges of all sources, source by source.
pub open spec fn edge_rows(f: EdgeFeature, items: Seq<(u32, Vec<u32>)>) -> Seq<char>
    decreases items.len(),
{
    if items.len() == 0 {
        seq![]
    } else {
        edge_rows(f, items.drop_last()) + edge_rows_of(f, items.last().0, items.last().1@)
    }
}

/// The `.tf` text of a feature file.
pub open spec fn tf_text_ok(d: TfData, out: Seq<char>) -> bool {
    match d.data {
        Some(TfDataContent::Node(f)) => exists|meta: Seq<char>, rows: Seq<(u32, crate::value::FValue)>| #![trigger meta_block(f.metadata@, meta), node_rows(rows)] {
            &&& meta_block(f.metadata@, meta)
            &&& crate::sorting::sorted_by_rank(rows.map_values(|p: (u32, crate::value::FValue)| p.0), f.rank_table())
            &&& rows.map_values(|p: (u32, crate::value::FValue)| p.0).no_duplicates()
            &&& forall|i: int| 0 <= i < rows.len() ==> #[trigger] crate::feature::fv_at(f.values@, rows[i].0) == Some(rows[i].1)
            &&& forall|n: u32| f.values@.contains_key(n) ==> exists|i: int| 0 <= i < rows.len() && #[trigger] rows[i].0 == n
            &&& out == "@node\n"@ + meta + "\n"@ + node_rows(rows)
        },
        Some(TfDataContent::Edge(f)) => exists|meta: Seq<char>, items: Seq<(u32, Vec<u32>)>| #![trigger meta_block(f.metadata@, meta), edge_rows(f, items)] {
            &&& meta_block(f.metadata@, meta)
            &&& forall|x: u32| crate::edge_tables::firsts(items).contains(x) <==> f.values@.contains_key(x)
            &&& crate::edge_tables::firsts(items).no_duplicates()
            &&& crate::sorting::sorted_by_rank(crate::edge_tables::firsts(items), f.rank_table())
            &&& forall|i: int| 0 <= i < items.len() ==> {
                &&& forall|t: u32| (#[trigger] items[i]).1@.contains(t) <==> crate::feature::has_edge(f.values@, items[i].0, t)
                &&& items[i].1@.no_duplicates()
                &&& crate::sorting::sorted_by_rank(items[i].1@, f.rank_table())
            }
            &&& out == "@edge\n"@ + meta + "\n"@ + edge_rows(f, items)
        },
        Some(TfDataContent::Config { metadata, .. }) => exists|meta: Seq<char>| #![trigger meta_block(metadata@, meta)] {
            &&& meta_block(metadata@, meta)
            &&& out == "@config\n"@ + meta + "\n"@
        },
        None => exists|meta: Seq<char>| #![trigger meta_block(d.metadata@, meta)] {
            &&& meta_block(d.metadata@, meta)
            &&& out == (if d.is_config == Some(true) { "@config"@ } else if d.is_edge == Some(true) { "@edge"@ } else { "@node"@ }) + "\n"@ + meta + "\n"@
        },
    }
}

fn push_chars_of(out: &mut Vec<char>, s: &str)
    ensures
        final(out)@ == old(out)@ + s@,
{
    let cs = crate::strs::to_chars(s);
    let ghost o = out@;
    let mut i: usize = 0;
    while i < cs.len()
        invariant
            0 <= i <= cs.len(),
            out@ == o + cs@.take(i as int),
        decreases cs.len() - i,
    {
        out.push(cs[i]);
        i += 1;
        proof {
            assert(out@ =~= o + cs@.take(i as int));
        }
    }
    proof {
        assert(cs@.take(cs@.len() as int) =~= cs@);
    }
}

/// The metadata lines of `m`, keys ascending.
fn write_metadata(out: &mut Vec<char>, m: &Metadata)
    ensures
        exists|text: Seq<char>| meta_block(m@, text) && final(out)@ == old(out)@ + text,
{
    let mut keys: Vec<String> = Vec::new();
    let mut i: usize = 0;
    while i < m.len()
        invariant
            0 <= i <= m.len(),
            keys@.len() == i,
            forall|j: int| 0 <= j < i ==> (#[trigger] keys@[j])@ == m@[j].0@,
        decreases m.len() - i,
    {
        keys.push(copy_string(&m[i].0));
        i += 1;
    }
    let sorted = sorted_unique_strings(keys);
    let ghost o = out@;
    let mut k: usize = 0;
    while k < sorted.len()
        invariant
            0 <= k <= sorted.len(),
            out@ == o + meta_lines(m@, views(sorted@).take(k as int)),
        decreases sorted.len() - k,
    {
        let key = &sorted[k];
        proof {
            assert(views(sorted@).take(k + 1).drop_last() =~= views(sorted@).take(k as int));
            assert(views(sorted@)[k as int] == key@);
        }
        let ghost before = out@;
        out.push('@');
        push_chars_of(out, key.as_str());
        match meta_get(m, key.as_str()) {
            Some(Some(v)) => {
                out.push('=');
                push_chars_of(out, v.as_str());
            },
            _ => {},
        }
        out.push('\n');
        proof {
            assert(out@ =~= before + meta_line(m@, key@));
        }
        k += 1;
    }
    proof {
        assert(views(sorted@).take(sorted@.len() as int) =~= views(sorted@));
        assert forall|q: Seq<char>| #[trigger] views(sorted@).contains(q) <==> meta_has(m@, q) by {
            if views(keys@).contains(q) {
                let j = choose|j: int| 0 <= j < views(keys@).len() && views(keys@)[j] == q;
                crate::value::lemma_has_entry(m@, j);
                assert(m@[j].0@ == q);
            }
            if meta_has(m@, q) {
                let j = crate::value::lemma_entry_of(m@, q);
                assert(views(keys@)[j] == q);
            }
        }
        assert(meta_block(m@, meta_lines(m@, views(sorted@))));
    }
}

impl TfData {
    /// The `.tf` text of the file: the kind line, the metadata lines with keys ascending,
    /// an empty line, and the data lines in canonical order.
    pub fn write_tf(&self) -> (r: String)
        ensures
            tf_text_ok(*self, r@),
    {
        proof {
            reveal_strlit("@node\n");
            reveal_strlit("@edge\n");
            reveal_strlit("@config\n");
            reveal_strlit("\n");
            reveal_strlit("@config");
            reveal_strlit("@edge");
            reveal_strlit("@node");
        }
        let mut out: Vec<char> = Vec::new();
        match &self.data {
            Some(TfDataContent::Node(f)) => {
                push_chars_of(&mut out, "@node\n");
                let ghost o1 = out@;
                write_metadata(&mut out, &f.metadata);
                let ghost meta = choose|t: Seq<char>| meta_block(f.metadata@, t) && out@ == o1 + t;
                out.push('\n');
                let ghost o2 = out@;
                let items = f.items();
                let ghost rows = items@.map_values(|p: (u32, crate::value::FeatureValue)| (p.0, p.1@));
                let mut i: usize = 0;
                while i < items.len()
                    invariant
                        0 <= i <= items.len(),
                        rows == items@.map_values(|p: (u32, crate::value::FeatureValue)| (p.0, p.1@)),
                        out@ == o2 + node_rows(rows.take(i as int)),
                    decreases items.len() - i,
                {
                    proof {
                        assert(rows.take(i + 1).drop_last() =~= rows.take(i as int));
                    }
                    let ghost before = out@;
                    let n = crate::strs::u64_to_string(items[i].0 as u64);
                    push_chars_of(&mut out, n.as_str());
                    out.push('\t');
                    let v = crate::value::tf_from_value(&items[i].1);
                    push_chars_of(&mut out, v.as_str());
                    out.push('\n');
                    proof {
                        assert(out@ =~= before + crate::strs::dec_nat(rows[i as int].0 as nat) + seq!['\t'] + tf_text(rows[i as int].1) + seq!['\n']);
                    }
                    i += 1;
                }
                proof {
                    assert(rows.take(rows.len() as int) =~= rows);
                    assert(rows.map_values(|p: (u32, crate::value::FValue)| p.0) =~= items@.map_values(|p: (u32, crate::value::FeatureValue)| p.0));
                    assert forall|i: int| 0 <= i < rows.len() implies #[trigger] crate::feature::fv_at(f.values@, rows[i].0) == Some(rows[i].1) by {
                        assert(crate::feature::fv_at(f.values@, items@[i].0) == Some(items@[i].1@));
                    }
                    assert forall|n: u32| f.values@.contains_key(n) implies exists|i: int| 0 <= i < rows.len() && #[trigger] rows[i].0 == n by {
                        let i = choose|i: int| 0 <= i < items@.len() && #[trigger] items@[i].0 == n;
                        assert(rows[i].0 == n);
                    }
                    assert(out@ =~= "@node\n"@ + meta + "\n"@ + node_rows(rows));
                    assert(tf_text_ok(*self, out@));
                }
            },
            Some(TfDataContent::Edge(f)) => {
                push_chars_of(&mut out, "@edge\n");
                let ghost o1 = out@;
                write_metadata(&mut out, &f.metadata);
                let ghost meta = choose|t: Seq<char>| meta_block(f.metadata@, t) && out@ == o1 + t;
                out.push('\n');
                let ghost o2 = out@;
                let items = f.items();
                let mut i: usize = 0;
                while i < items.len()
                    invariant
                        0 <= i <= items.len(),
                        out@ == o2 + edge_rows(*f, items@.take(i as int)),
                    decreases items.len() - i,
                {
                    proof {
                        assert(items@.take(i + 1).drop_last() =~= items@.take(i as int));
                    }
                    let s = items[i].0;
                    let ts = &items[i].1;
                    let ghost o3 = out@;
                    let mut k: usize = 0;
                    while k < ts.len()
                        invariant
                            0 <= k <= ts.len(),
                            out@ == o3 + edge_rows_of(*f, s, ts@.take(k as int)),
                        decreases ts.len() - k,
                    {
                        proof {
                            assert(ts@.take(k + 1).drop_last() =~= ts@.take(k as int));
                        }
                        let t = ts[k];
                        let ghost before = out@;
                        let sn = crate::strs::u64_to_string(s as u64);
                        push_chars_of(&mut out, sn.as_str());
                        out.push('\t');
                        let tn = crate::strs::u64_to_string(t as u64);
                        push_chars_of(&mut out, tn.as_str());
                        match f.edge_value(s, t) {
                            Some(v) => {
                                out.push('\t');
                                let vt = crate::value::tf_from_value(v);
                                push_chars_of(&mut out, vt.as_str());
                                out.push('\n');
                            },
                            None => {
                                out.push('\n');
                            },
                        }
                        proof {
                            assert(out@ =~= before + edge_row(*f, s, t));
                        }
                        k += 1;
                    }
                    proof {
                        assert(ts@.take(ts@.len() as int) =~= ts@);
                    }
                    i += 1;
                }
                proof {
                    assert(items@.take(items@.len() as int) =~= items@);
                    assert(out@ =~= "@edge\n"@ + meta + "\n"@ + edge_rows(*f, items@));
                    assert(tf_text_ok(*self, out@));
                }
            },
            Some(TfDataContent::Config { metadata, .. }) => {
                push_chars_of(&mut out, "@config\n");
                let ghost o1 = out@;
                write_metadata(&mut out, metadata);
                let ghost meta = choose|t: Seq<char>| meta_block(metadata@, t) && out@ == o1 + t;
                out.push('\n');
                proof {
                    assert(out@ =~= "@config\n"@ + meta + "\n"@);
                    assert(tf_text_ok(*self, out@));
                }
            },
            None => {
                let header = if self.is_config == Some(true) {
                    "@config"
                } else if self.is_edge == Some(true) {
                    "@edge"
                } else {
                    "@node"
                };
                push_chars_of(&mut out, header);
                out.push('\n');
                let ghost o1 = out@;
                write_metadata(&mut out, &self.metadata);
                let ghost meta = choose|t: Seq<char>| meta_block(self.metadata@, t) && out@ == o1 + t;
                out.push('\n');
                proof {
                    assert(out@ =~= header@ + "\n"@ + meta + "\n"@);
                    assert(tf_text_ok(*self, out@));
                }
            },
        }
        crate::strs::from_chars(out.as_slice())
    }
}

} // verus!

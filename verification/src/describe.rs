//! Describing a corpus, as free functions.

use vstd::prelude::*;
use crate::corpus::Corpus;
use crate::corpus_describe::opt_type_list;
use crate::corpus_info::{keys_of, str_views};
use crate::corpus_types::{CorpusDescription, CorpusOverview, FeatureCatalogEntry, FeatureDescription, FeatureKind, TextFormatInfo, TextRepresentationInfo};
use crate::sorting::strictly_sorted_strs;
use crate::strs::views;

verus! {

/// An overview of `corpus` under `name`.
pub fn describe_corpus_overview(corpus: &Corpus, name: &str) -> (r: CorpusOverview)
    ensures
        r.name@ == name@,
        views(r.section_types@) == corpus.otext_list("sectionTypes"@),
        corpus.node_type_rows_ok(r.node_types@),
{
    corpus.overview(name)
}

/// A description of `corpus` under `name`.
pub fn describe_corpus(corpus: &Corpus, name: &str) -> (r: CorpusDescription)
    ensures
        r.name@ == name@,
        corpus.node_type_rows_ok(r.node_types@),
        views(r.section_types@) == corpus.otext_list("sectionTypes"@),
        exists|ps: Seq<(Seq<char>, Seq<char>, Seq<char>, Seq<char>, Seq<char>)>, infos: Seq<Option<TextFormatInfo>>|
            #[trigger] corpus.representations_ok(ps, infos, r.text_representations),
        exists|k: int| #[trigger] corpus.catalog_ok(Some(FeatureKind::Node), None, r.node_features@, k),
        exists|k: int| #[trigger] corpus.catalog_ok(Some(FeatureKind::Edge), None, r.edge_features@, k),
{
    corpus.describe_corpus(name)
}

/// The catalog of the features of `corpus` of a kind and for node types.
pub fn list_features(corpus: &Corpus, kind: Option<FeatureKind>, node_types: Option<&[&str]>) -> (r: Vec<FeatureCatalogEntry>)
    ensures
        exists|k: int| #[trigger] corpus.catalog_ok(kind, opt_type_list(node_types), r@, k),
{
    corpus.feature_catalog(kind, node_types)
}

/// A description of one feature of `corpus`.
pub fn describe_feature(corpus: &Corpus, feature_name: &str, sample_limit: usize) -> (r: FeatureDescription)
    ensures
        corpus.describe_ok(feature_name@, sample_limit, r),
{
    corpus.describe_feature(feature_name, sample_limit)
}

/// Descriptions of features of `corpus`, each name once, ascending.
pub fn describe_features(corpus: &Corpus, feature_names: &[&str], sample_limit: usize) -> (r: Vec<(String, FeatureDescription)>)
    ensures
        strictly_sorted_strs(keys_of(r@)),
        forall|k: Seq<char>| keys_of(r@).contains(k) <==> str_views(feature_names@).contains(k),
        forall|i: int| 0 <= i < r@.len() ==> corpus.describe_ok((#[trigger] r@[i]).0@, sample_limit, r@[i].1),
{
    corpus.describe_features(feature_names, sample_limit)
}

/// The text formats of `corpus`.
pub fn describe_text_formats(corpus: &Corpus) -> (r: TextRepresentationInfo)
    ensures
        exists|ps: Seq<(Seq<char>, Seq<char>, Seq<char>, Seq<char>, Seq<char>)>, infos: Seq<Option<TextFormatInfo>>|
            #[trigger] corpus.representations_ok(ps, infos, r),
{
    corpus.text_representations()
}

/// The node types of a node feature of `corpus`.
pub fn get_feature_otypes(corpus: &Corpus, feature_name: &str) -> (r: Vec<String>)
    ensures
        views(r@) == corpus.node_types_of(feature_name@),
{
    corpus.node_feature_types(feature_name)
}

/// Every node feature of `corpus` with its node types, ascending by name.
pub fn get_all_feature_otypes(corpus: &Corpus) -> (r: Vec<(String, Vec<String>)>)
    ensures
        strictly_sorted_strs(keys_of(r@)),
        forall|k: Seq<char>| keys_of(r@).contains(k) <==> corpus.node_names().contains(k),
        forall|i: int| 0 <= i < r@.len() ==> views((#[trigger] r@[i]).1@) == corpus.node_types_of(r@[i].0@),
{
    corpus.all_node_feature_types()
}

} // verus!

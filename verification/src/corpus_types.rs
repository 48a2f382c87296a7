//! The plain record types that corpus queries return.

use vstd::prelude::*;
use crate::value::{FeatureValue, Metadata};

verus! {

/// For each slot (at index `slot - 1`): the non-slot nodes whose first, resp. last,
/// slot it is.
#[derive(Debug, Clone, PartialEq, Eq)]
pub struct Boundary {
    pub first_slots: Vec<Vec<u32>>,
    pub last_slots: Vec<Vec<u32>>,
}

/// A node type with its number of nodes.
#[derive(Debug, Clone, PartialEq, Eq)]
pub struct NodeTypeOverview {
    pub node_type: String,
    pub count: usize,
    pub is_slot_type: bool,
}

/// The node types and section levels of a corpus.
#[derive(Debug, Clone, PartialEq, Eq)]
pub struct CorpusOverview {
    pub name: String,
    pub node_types: Vec<NodeTypeOverview>,
    pub section_types: Vec<String>,
}

/// Whether a feature is a node or an edge feature.
#[derive(Debug, Clone, Copy, PartialEq, Eq)]
pub enum FeatureKind {
    Node,
    Edge,
}

/// One row of the feature catalog.
#[derive(Debug, Clone, PartialEq, Eq)]
pub struct FeatureCatalogEntry {
    pub name: String,
    pub kind: FeatureKind,
    pub value_type: String,
    pub description: String,
}

/// A value of a feature with its frequency.
#[derive(Debug, Clone, PartialEq, Eq)]
pub struct FeatureValueSample {
    pub value: Option<FeatureValue>,
    pub count: usize,
}

/// A feature with its node types and most frequent values, or the error for an
/// unknown feature.
#[derive(Debug, Clone, PartialEq, Eq)]
pub struct FeatureDescription {
    pub name: String,
    pub kind: Option<FeatureKind>,
    pub value_type: String,
    pub description: String,
    pub node_types: Vec<String>,
    pub unique_values: usize,
    pub sample_values: Vec<FeatureValueSample>,
    pub has_values: Option<bool>,
    pub error: Option<String>,
}

/// A word in an original and a transliterated text format.
#[derive(Debug, Clone, PartialEq, Eq)]
pub struct TextFormatSample {
    pub original: String,
    pub transliterated: String,
}

/// A pair of text formats with samples covering their characters.
#[derive(Debug, Clone, PartialEq, Eq)]
pub struct TextFormatInfo {
    pub name: String,
    pub original_spec: String,
    pub transliteration_spec: String,
    pub samples: Vec<TextFormatSample>,
    pub unique_characters: usize,
    pub total_samples: usize,
}

/// The text formats of a corpus.
#[derive(Debug, Clone, PartialEq, Eq)]
pub struct TextRepresentationInfo {
    pub description: String,
    pub formats: Vec<TextFormatInfo>,
}

/// The overview, text formats and feature catalogs of a corpus.
#[derive(Debug, Clone, PartialEq, Eq)]
pub struct CorpusDescription {
    pub name: String,
    pub node_types: Vec<NodeTypeOverview>,
    pub section_types: Vec<String>,
    pub text_representations: TextRepresentationInfo,
    pub node_features: Vec<FeatureCatalogEntry>,
    pub edge_features: Vec<FeatureCatalogEntry>,
}

/// How to render text: the format name and whether to descend to the format's node type.
#[derive(Debug, Clone, PartialEq, Eq, Default)]
pub struct TextOptions {
    pub format: Option<String>,
    pub descend: Option<bool>,
}

impl TextOptions {
    /// Options with the given format and descend setting.
    pub fn new(format: Option<String>, descend: Option<bool>) -> (r: Self)
        ensures
            r.format == format,
            r.descend == descend,
    {
        TextOptions { format, descend }
    }
}

/// A tree of structure nodes.
#[derive(Debug, PartialEq, Eq)]
pub enum StructureTree {
    Forest(Vec<StructureTree>),
    Node { node: u32, children: Vec<StructureTree> },
}

/// The structure levels of a corpus with node counts.
#[derive(Debug, Clone, PartialEq, Eq)]
pub struct StructureInfo {
    pub headings: Vec<(String, String)>,
    pub node_count: usize,
    pub multiple_count: usize,
}

/// How to compute a section tuple: from the last slot instead of the first, filling up
/// missing levels, and cutting at a level.
#[derive(Debug, Clone, PartialEq, Eq, Default)]
pub struct SectionOptions {
    pub last_slot: bool,
    pub fillup: bool,
    pub level: Option<usize>,
}

/// The kind of a loaded feature.
#[derive(Debug, Clone, Copy, PartialEq, Eq)]
pub enum LoadedFeatureKind {
    Node,
    Edge,
    Config,
    Computed,
}

/// What is known of a loaded feature.
#[derive(Debug, Clone, PartialEq, Eq)]
pub struct LoadedFeatureInfo {
    pub kind: LoadedFeatureKind,
    pub value_type: String,
    pub metadata: Metadata,
    pub edge_values: Option<bool>,
}

/// One step of a walk through the corpus.
#[derive(Debug, Clone, Copy, PartialEq, Eq)]
pub enum WalkEvent {
    Start(u32),
    End(u32),
    Slot(u32),
}

/// A stretch of slots `start..=end` covered by `node`.
#[derive(Debug, Clone, Copy, PartialEq, Eq)]
pub struct Chunk {
    pub node: u32,
    pub start: u32,
    pub end: u32,
}

/// The position key of a chunk: by start, then outer types first, then longer first,
/// then node.
#[derive(Debug, Clone, Copy, PartialEq, Eq)]
pub struct ChunkPositionKey {
    pub start: u32,
    pub reverse_type_rank: u32,
    pub reverse_end: u32,
    pub node: u32,
}

/// The length key of a chunk: longer first, then by start, type rank and node.
#[derive(Debug, Clone, Copy, PartialEq, Eq)]
pub struct ChunkLengthKey {
    pub reverse_size: u32,
    pub start: u32,
    pub type_rank: u32,
    pub node: u32,
}

impl ChunkPositionKey {
    /// The key of a chunk starting at `start`, of a node of rank `type_rank`, ending at `end`.
    pub fn new(start: u32, type_rank: u32, end: u32, node: u32) -> (r: Self)
        ensures
            r.start == start,
            r.reverse_type_rank == type_rank,
            r.reverse_end == end,
            r.node == node,
    {
        ChunkPositionKey { start, reverse_type_rank: type_rank, reverse_end: end, node }
    }
}

impl ChunkLengthKey {
    /// The key of a chunk of `size`, starting at `start`, of a node of rank `type_rank`.
    pub fn new(size: u32, start: u32, type_rank: u32, node: u32) -> (r: Self)
        ensures
            r.reverse_size == size,
            r.start == start,
            r.type_rank == type_rank,
            r.node == node,
    {
        ChunkLengthKey { reverse_size: size, start, type_rank, node }
    }
}

} // verus!

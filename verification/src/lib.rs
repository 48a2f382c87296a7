//! Context-Fabric: a verified core for corpus analysis over the Text-Fabric data model.
//!
//! The crate holds the in-memory corpus model (node and edge features, locality,
//! canonical order, text rendering), the `.tf` feature-file grammar, the compact
//! per-node storage arrays, and the small utilities that the corpus layer uses.
//! Every executable function here carries a contract that Verus proves.

pub mod api;
pub mod cli;
pub mod compiled;
pub mod corpus;
pub mod corpus_bound;
pub mod corpus_describe;
pub mod corpus_freq;
pub mod corpus_build;
pub mod corpus_info;
pub mod corpus_levels;
pub mod corpus_loaded;
pub mod corpus_load;
pub mod corpus_misc;
pub mod corpus_nav;
pub mod corpus_text;
pub mod corpus_order;
pub mod corpus_section;
pub mod corpus_types;
pub mod describe;
pub mod downloader;
pub mod edge_tables;
pub mod error;
pub mod escape;
pub mod explore;
pub mod fabric;
pub mod feature;
pub mod format_templates;
pub mod io;
pub mod laws;
pub mod navigation;
pub mod npy;
pub mod parser;
pub mod paths;
pub mod query;
pub mod ranges;
pub mod freq;
pub mod search;
pub mod search_candidates;
pub mod search_engine;
pub mod search_plan;
pub mod search_syntax;
pub mod sorting;
pub mod text_formats;
pub mod storage;
pub mod strs;
pub mod utils;
pub mod value;

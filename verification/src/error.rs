//! The error type of the library.

use vstd::prelude::*;

verus! {

/// What went wrong: a file could not be read, a line did not parse, a required
/// feature is missing, or a query, range specification or pattern is invalid.
#[derive(Debug, Clone, PartialEq, Eq)]
pub enum CfError {
    Io { path: String, message: String },
    Parse { path: String, line: usize, message: String },
    MissingFeature(String),
    InvalidQuery(String),
    InvalidSpec(String),
    Regex(String),
    Json(String),
    Yaml(String),
}

/// The mathematical content of an error.
pub enum CfErrorView {
    Io { path: Seq<char>, message: Seq<char> },
    Parse { path: Seq<char>, line: usize, message: Seq<char> },
    MissingFeature(Seq<char>),
    InvalidQuery(Seq<char>),
    InvalidSpec(Seq<char>),
    Regex(Seq<char>),
    Json(Seq<char>),
    Yaml(Seq<char>),
}

impl View for CfError {
    type V = CfErrorView;

    open spec fn view(&self) -> CfErrorView {
        match self {
            CfError::Io { path, message } => CfErrorView::Io { path: path@, message: message@ },
            CfError::Parse { path, line, message } => CfErrorView::Parse { path: path@, line: *line, message: message@ },
            CfError::MissingFeature(s) => CfErrorView::MissingFeature(s@),
            CfError::InvalidQuery(s) => CfErrorView::InvalidQuery(s@),
            CfError::InvalidSpec(s) => CfErrorView::InvalidSpec(s@),
            CfError::Regex(s) => CfErrorView::Regex(s@),
            CfError::Json(s) => CfErrorView::Json(s@),
            CfError::Yaml(s) => CfErrorView::Yaml(s@),
        }
    }
}

impl CfError {
    /// A missing-feature error naming `name`.
    pub fn missing(name: &str) -> (r: Self)
        ensures
            r@ == CfErrorView::MissingFeature(name@),
    {
        CfError::MissingFeature(crate::strs::owned(name))
    }
}

} // verus!

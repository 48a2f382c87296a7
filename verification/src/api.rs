//! The handle through which a loaded corpus is shared, and the reference
//! table of the short names of its parts.

use vstd::prelude::*;
use std::sync::Arc;
use crate::sorting::{sorted_unique_strings, strictly_sorted_strs};
use crate::strs::views;

verus! {

/// `Arc::clone`: another handle to the same value.
#[verifier::external_body]
fn arc_share<T>(a: &Arc<T>) -> (r: Arc<T>)
    ensures
        *r == **a,
{
    Arc::clone(a)
}

/// `Arc::ptr_eq`: whether two handles point to the same allocation. Which
/// allocation a handle points to is not a value that contracts can name.
#[verifier::external_body]
fn arc_same<T>(a: &Arc<T>, b: &Arc<T>) -> (r: bool)
{
    Arc::ptr_eq(a, b)
}

/// A loaded corpus under its two names, with the features that were ignored.
#[allow(non_snake_case)]
#[derive(Debug)]
pub struct Api<T> {
    pub CF: Arc<T>,
    pub TF: Arc<T>,
    pub ignored: Vec<String>,
}

impl<T> Api<T> {
    /// Both names for the same corpus, nothing ignored.
    pub fn new(fabric: T) -> (r: Self)
        ensures
            *r.CF == fabric,
            *r.TF == fabric,
            r.ignored@.len() == 0,
    {
        let f = Arc::new(fabric);
        Api { CF: arc_share(&f), TF: f, ignored: Vec::new() }
    }

    /// Both names for a shared corpus, with the ignored features ascending without repeats.
    pub fn from_arc(fabric: Arc<T>, ignored: Vec<String>) -> (r: Self)
        ensures
            *r.CF == *fabric,
            *r.TF == *fabric,
            strictly_sorted_strs(views(r.ignored@)),
            forall|x: Seq<char>| views(r.ignored@).contains(x) <==> views(ignored@).contains(x),
    {
        let ignored = sorted_unique_strings(ignored);
        Api { CF: arc_share(&fabric), TF: fabric, ignored }
    }

    pub fn cf(&self) -> (r: Arc<T>)
        ensures
            *r == *self.CF,
    {
        arc_share(&self.CF)
    }

    pub fn tf(&self) -> (r: Arc<T>)
        ensures
            *r == *self.TF,
    {
        arc_share(&self.TF)
    }

    /// Whether the two names hold the very same shared corpus.
    pub fn cf_and_tf_are_same_object(&self) -> bool {
        arc_same(&self.CF, &self.TF)
    }
}

/// The short names of the parts of a corpus, each with its class, the key of
/// its documentation and the anchor there, ordered by short name.
pub open spec fn api_ref_table() -> Seq<(Seq<char>, (Seq<char>, Seq<char>, Seq<char>))> {
    seq![
        ("C"@, ("Computed"@, "computed"@, "computed-data"@)),
        ("CF"@, ("Fabric"@, "fabric"@, "loading"@)),
        ("Computed"@, ("Computed"@, "computed"@, "computed-data"@)),
        ("Cs"@, ("Computed"@, "computedstr"@, "computed-data"@)),
        ("E"@, ("Features"@, "edge"@, "edge-features"@)),
        ("Edge"@, ("Features"@, "edge"@, "edge-features"@)),
        ("Es"@, ("Features"@, "edgestr"@, "edge-features"@)),
        ("F"@, ("Features"@, "node"@, "node-features"@)),
        ("Feature"@, ("Features"@, "node"@, "node-features"@)),
        ("Fs"@, ("Features"@, "nodestr"@, "node-features"@)),
        ("L"@, ("Locality"@, "locality"@, "locality"@)),
        ("Locality"@, ("Locality"@, "locality"@, "locality"@)),
        ("N"@, ("Nodes"@, "nodes"@, "navigating-nodes"@)),
        ("Nodes"@, ("Nodes"@, "nodes"@, "navigating-nodes"@)),
        ("S"@, ("Search"@, "search"@, "search"@)),
        ("Search"@, ("Search"@, "search"@, "search"@)),
        ("T"@, ("Text"@, "text"@, "text"@)),
        ("TF"@, ("Fabric"@, "fabric"@, "loading"@)),
        ("Text"@, ("Text"@, "text"@, "text"@)),
    ]
}

pub open spec fn ref_rows_view(r: Seq<(&str, (&str, &str, &str))>) -> Seq<(Seq<char>, (Seq<char>, Seq<char>, Seq<char>))> {
    r.map_values(|e: (&str, (&str, &str, &str))| (e.0@, (e.1.0@, e.1.1@, e.1.2@)))
}

/// The reference table of short names.
pub fn api_refs() -> (r: Vec<(&'static str, (&'static str, &'static str, &'static str))>)
    ensures
        ref_rows_view(r@) == api_ref_table(),
{
    let r = vec![
        ("C", ("Computed", "computed", "computed-data")),
        ("CF", ("Fabric", "fabric", "loading")),
        ("Computed", ("Computed", "computed", "computed-data")),
        ("Cs", ("Computed", "computedstr", "computed-data")),
        ("E", ("Features", "edge", "edge-features")),
        ("Edge", ("Features", "edge", "edge-features")),
        ("Es", ("Features", "edgestr", "edge-features")),
        ("F", ("Features", "node", "node-features")),
        ("Feature", ("Features", "node", "node-features")),
        ("Fs", ("Features", "nodestr", "node-features")),
        ("L", ("Locality", "locality", "locality")),
        ("Locality", ("Locality", "locality", "locality")),
        ("N", ("Nodes", "nodes", "navigating-nodes")),
        ("Nodes", ("Nodes", "nodes", "navigating-nodes")),
        ("S", ("Search", "search", "search")),
        ("Search", ("Search", "search", "search")),
        ("T", ("Text", "text", "text")),
        ("TF", ("Fabric", "fabric", "loading")),
        ("Text", ("Text", "text", "text")),
    ];
    proof {
        assert(ref_rows_view(r@) =~= api_ref_table());
    }
    r
}

} // verus!

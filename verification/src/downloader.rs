//! Corpora that can be fetched: the registry of known corpora, resolving a corpus name to
//! a repository, the request to send, and where fetched corpora are kept.

use vstd::prelude::*;
use crate::error::{CfError, CfErrorView};
use crate::fabric::{join_path, path_join};
use crate::strs::{contains_char, owned, push_str};

verus! {

broadcast use vstd::string::group_string_axioms;

/// A known corpus: its repository and what it is.
#[derive(Debug, Clone, PartialEq, Eq)]
pub struct CorpusRegistryEntry {
    pub repo_id: String,
    pub description: String,
    pub language: String,
    pub version: String,
}

/// What to fetch: a repository at a revision, whether to fetch again, and whether only the
/// compiled corpus is wanted (with the file patterns that select it).
#[derive(Debug, Clone, PartialEq, Eq)]
pub struct DownloadRequest {
    pub repo_id: String,
    pub revision: Option<String>,
    pub force: bool,
    pub compiled_only: bool,
    pub allow_patterns: Option<Vec<String>>,
}

/// The known corpora, by name. There are none yet: corpora are named by repository.
pub fn corpus_registry() -> (r: Vec<(String, CorpusRegistryEntry)>)
    ensures
        r@.len() == 0,
{
    Vec::new()
}

/// The known corpora (traditional name).
#[allow(non_snake_case)]
pub fn CORPUS_REGISTRY() -> (r: Vec<(String, CorpusRegistryEntry)>)
    ensures
        r@.len() == 0,
{
    corpus_registry()
}

/// The known corpora.
pub fn list_corpora() -> (r: Vec<(String, CorpusRegistryEntry)>)
    ensures
        r@.len() == 0,
{
    corpus_registry()
}

/// The message for a corpus name that is neither known nor a repository.
pub open spec fn unknown_corpus_message(id: Seq<char>) -> Seq<char> {
    "Unknown corpus: "@ + id
        + ". Use list_corpora() to see available corpora, or provide a full HF repo ID (e.g., 'username/cfabric-corpus')."@
}

/// The repository of a corpus: a name with a `/` is one already; other names are looked
/// up among the known corpora, of which there are none.
pub fn resolve_corpus_id(corpus_id: &str) -> (r: Result<String, CfError>)
    ensures
        corpus_id@.contains('/') ==> r is Ok && r->Ok_0@ == corpus_id@,
        !corpus_id@.contains('/') ==> r is Err && r->Err_0@ == CfErrorView::InvalidSpec(unknown_corpus_message(corpus_id@)),
{
    if contains_char(corpus_id, '/') {
        return Ok(owned(corpus_id));
    }
    let registry = corpus_registry();
    let mut i: usize = 0;
    while i < registry.len()
        invariant
            registry@.len() == 0,
        decreases registry.len() - i,
    {
        i += 1;
    }
    let mut m = owned("Unknown corpus: ");
    push_str(&mut m, corpus_id);
    push_str(
        &mut m,
        ". Use list_corpora() to see available corpora, or provide a full HF repo ID (e.g., 'username/cfabric-corpus').",
    );
    Err(CfError::InvalidSpec(m))
}

/// The message for clearing the cache, which is not done here.
pub open spec fn clear_cache_message() -> Seq<char> {
    "Cache clearing not yet implemented. Use huggingface_hub's cache management for now."@
}

/// Clearing the cache is left to the repository's own tools: always an error.
pub fn clear_cache(corpus_id: Option<&str>) -> (r: Result<(), CfError>)
    ensures
        r is Err && r->Err_0@ == CfErrorView::InvalidSpec(clear_cache_message()),
{
    Err(CfError::InvalidSpec(owned("Cache clearing not yet implemented. Use huggingface_hub's cache management for now.")))
}

/// The file patterns that select a compiled corpus.
pub open spec fn compiled_patterns() -> Seq<Seq<char>> {
    seq![".cfm/**"@, "corpus_info.json"@, "README.md"@]
}

/// The request for a corpus: its repository, the revision, and for a compiled-only fetch
/// the patterns of the compiled files.
pub fn build_download_request(corpus_id: &str, revision: Option<&str>, force: bool, compiled_only: bool) -> (r: Result<
    DownloadRequest,
    CfError,
>)
    ensures
        !corpus_id@.contains('/') ==> r is Err && r->Err_0@ == CfErrorView::InvalidSpec(unknown_corpus_message(corpus_id@)),
        corpus_id@.contains('/') ==> r is Ok && {
            let q = r->Ok_0;
            &&& q.repo_id@ == corpus_id@
            &&& crate::corpus_text::opt_string(q.revision) == crate::corpus_text::opt_strref(revision)
            &&& q.force == force
            &&& q.compiled_only == compiled_only
            &&& compiled_only ==> q.allow_patterns is Some && crate::strs::views(q.allow_patterns->0@) == compiled_patterns()
            &&& !compiled_only ==> q.allow_patterns is None
        },
{
    let repo_id = resolve_corpus_id(corpus_id)?;
    let allow_patterns = if compiled_only {
        let mut v: Vec<String> = Vec::new();
        v.push(owned(".cfm/**"));
        v.push(owned("corpus_info.json"));
        v.push(owned("README.md"));
        proof {
            assert(crate::strs::views(v@) =~= compiled_patterns());
        }
        Some(v)
    } else {
        None
    };
    let revision = match revision {
        Some(x) => Some(owned(x)),
        None => None,
    };
    Ok(DownloadRequest { repo_id, revision, force, compiled_only, allow_patterns })
}

/// The message for a fetch, which has no transport yet.
pub open spec fn no_transport_message(repo: Seq<char>) -> Seq<char> {
    "Rust downloader transport is not implemented yet for repo "@ + repo
}

/// Fetching a corpus: the request is built, but there is no transport to send it, so the
/// result is an error (the unknown-corpus error for a name that is not a repository).
pub fn download(corpus_id: &str, revision: Option<&str>, force: bool, compiled_only: bool) -> (r: Result<String, CfError>)
    ensures
        r is Err,
        !corpus_id@.contains('/') ==> r->Err_0@ == CfErrorView::InvalidSpec(unknown_corpus_message(corpus_id@)),
        corpus_id@.contains('/') ==> r->Err_0@ == CfErrorView::InvalidSpec(no_transport_message(corpus_id@)),
{
    let request = build_download_request(corpus_id, revision, force, compiled_only)?;
    let mut m = owned("Rust downloader transport is not implemented yet for repo ");
    push_str(&mut m, request.repo_id.as_str());
    Err(CfError::InvalidSpec(m))
}

/// A setting from the environment that counts: set and not empty.
pub open spec fn set_value(v: Option<Seq<char>>) -> bool {
    v matches Some(s) && s.len() > 0
}

/// Where fetched corpora are kept: `CFABRIC_CACHE` when set; on macOS the user's
/// `Library/Caches/cfabric`; on Windows `LOCALAPPDATA/cfabric/cfabric/Cache` when set;
/// else `XDG_CACHE_HOME/cfabric` when set, else `.cache/cfabric` in the home directory.
pub open spec fn cache_dir_spec(
    cfabric_cache: Option<Seq<char>>,
    is_macos: bool,
    is_windows: bool,
    local_app_data: Option<Seq<char>>,
    xdg_cache_home: Option<Seq<char>>,
    home: Seq<char>,
) -> Seq<char> {
    if set_value(cfabric_cache) {
        cfabric_cache->0
    } else if is_macos {
        path_join(path_join(path_join(home, "Library"@), "Caches"@), "cfabric"@)
    } else if is_windows && set_value(local_app_data) {
        path_join(path_join(path_join(local_app_data->0, "cfabric"@), "cfabric"@), "Cache"@)
    } else if set_value(xdg_cache_home) {
        path_join(xdg_cache_home->0, "cfabric"@)
    } else {
        path_join(path_join(home, ".cache"@), "cfabric"@)
    }
}

fn is_set(v: Option<&str>) -> (r: bool)
    ensures
        r == set_value(crate::corpus_text::opt_strref(v)),
{
    match v {
        Some(s) => crate::strs::to_chars(s).len() > 0,
        None => false,
    }
}

/// Where fetched corpora are kept, given the environment: the settings `CFABRIC_CACHE`,
/// `LOCALAPPDATA` and `XDG_CACHE_HOME`, the platform, and the home directory.
pub fn cache_dir_for(
    cfabric_cache: Option<&str>,
    is_macos: bool,
    is_windows: bool,
    local_app_data: Option<&str>,
    xdg_cache_home: Option<&str>,
    home: &str,
) -> (r: String)
    ensures
        r@ == cache_dir_spec(
            crate::corpus_text::opt_strref(cfabric_cache),
            is_macos,
            is_windows,
            crate::corpus_text::opt_strref(local_app_data),
            crate::corpus_text::opt_strref(xdg_cache_home),
            home@,
        ),
{
    if is_set(cfabric_cache) {
        return owned(cfabric_cache.unwrap());
    }
    if is_macos {
        let a = join_path(home, "Library");
        let b = join_path(a.as_str(), "Caches");
        return join_path(b.as_str(), "cfabric");
    }
    if is_windows && is_set(local_app_data) {
        let a = join_path(local_app_data.unwrap(), "cfabric");
        let b = join_path(a.as_str(), "cfabric");
        return join_path(b.as_str(), "Cache");
    }
    if is_set(xdg_cache_home) {
        return join_path(xdg_cache_home.unwrap(), "cfabric");
    }
    let a = join_path(home, ".cache");
    join_path(a.as_str(), "cfabric")
}

} // verus!

use context_fabric::downloader::{
    build_download_request, cache_dir_for, clear_cache, corpus_registry, download, list_corpora,
    resolve_corpus_id,
};
use context_fabric::error::CfError;

#[test]
fn corpus_names_resolve_to_repositories() {
    assert!(corpus_registry().is_empty());
    assert!(list_corpora().is_empty());
    assert_eq!(resolve_corpus_id("etcbc/bhsa").unwrap(), "etcbc/bhsa");
    match resolve_corpus_id("bhsa") {
        Err(CfError::InvalidSpec(m)) => assert!(m.starts_with("Unknown corpus: bhsa. Use list_corpora()")),
        _ => panic!("expected an unknown-corpus error"),
    }
}

#[test]
fn download_requests() {
    let r = build_download_request("etcbc/bhsa", Some("v2"), true, true).unwrap();
    assert_eq!(r.repo_id, "etcbc/bhsa");
    assert_eq!(r.revision.as_deref(), Some("v2"));
    assert!(r.force);
    assert_eq!(
        r.allow_patterns,
        Some(vec![".cfm/**".to_string(), "corpus_info.json".to_string(), "README.md".to_string()])
    );
    let plain = build_download_request("a/b", None, false, false).unwrap();
    assert!(plain.allow_patterns.is_none());
    assert!(build_download_request("b", None, false, false).is_err());
    assert_eq!(
        download("a/b", None, false, false),
        Err(CfError::InvalidSpec("Rust downloader transport is not implemented yet for repo a/b".to_string()))
    );
    assert!(clear_cache(None).is_err());
}

#[test]
fn cache_directories() {
    assert_eq!(cache_dir_for(Some("/c"), true, false, None, None, "/home/u"), "/c");
    assert_eq!(cache_dir_for(Some(""), true, false, None, None, "/home/u"), "/home/u/Library/Caches/cfabric");
    assert_eq!(cache_dir_for(None, false, true, Some("C:/L"), None, "/home/u"), "C:/L/cfabric/cfabric/Cache");
    assert_eq!(cache_dir_for(None, false, false, None, Some("/x"), "/home/u"), "/x/cfabric");
    assert_eq!(cache_dir_for(None, false, false, None, None, "/home/u"), "/home/u/.cache/cfabric");
}

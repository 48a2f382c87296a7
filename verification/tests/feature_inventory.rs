use context_fabric::explore::{explore_feature_paths, explore_features, FeatureFile};
use context_fabric::error::CfError;

fn file(path: &str, lines: &[&str]) -> FeatureFile {
    FeatureFile { path: path.to_string(), lines: lines.iter().map(|l| l.to_string()).collect() }
}

#[test]
fn inventory_of_feature_files() {
    let files = vec![
        file("/c/otype.tf", &["@node", "@valueType=str", "", "1\tword"]),
        file("/c/oslots.tf", &["@edge", "", "2\t1"]),
        file("/c/readme.md", &["# not a feature"]),
        file("/c/otext.tf", &["@config", "@fmt:text-orig-full={g}", ""]),
        file("/d/otype.tf", &["@node", "@valueType=int", ""]),
    ];
    let inv = explore_feature_paths(&files).unwrap();
    assert_eq!(inv.nodes(), &["otype".to_string()]);
    assert_eq!(inv.edges(), &["oslots".to_string()]);
    assert_eq!(inv.configs(), &["otext".to_string()]);
    assert_eq!(inv.computeds(), &["boundary", "levels", "order", "rank"]);
    assert_eq!(inv.feature_paths("otype").unwrap(), &["/c/otype.tf".to_string(), "/d/otype.tf".to_string()]);
    assert_eq!(inv.feature_paths("readme"), None);
    let meta = inv.feature_metadata("otype").unwrap();
    assert!(meta.iter().any(|(k, v)| k == "valueType" && v.as_deref() == Some("int")));
    let cats = inv.categories();
    assert_eq!(cats[0].0, "computeds");
    assert_eq!(cats[3], ("nodes".to_string(), vec!["otype".to_string()]));
}

#[test]
fn feature_file_with_bad_header() {
    let files = vec![file("/c/bad.tf", &["@nodes", ""])];
    match explore_features(&files) {
        Err(CfError::Parse { path, line, message }) => {
            assert_eq!(path, "/c/bad.tf");
            assert_eq!(line, 1);
            assert!(message.starts_with("missing @node/@edge/@config header, got "));
        }
        other => panic!("unexpected {other:?}"),
    }
    let empty = vec![file("/c/empty.tf", &[])];
    assert_eq!(
        explore_features(&empty).unwrap_err(),
        CfError::Parse { path: "/c/empty.tf".to_string(), line: 1, message: "empty feature file".to_string() }
    );
}

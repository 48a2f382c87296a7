use context_fabric::io::{TfData, TfDataContent};
use context_fabric::utils::console_message;

fn lines(text: &[&str]) -> Vec<String> {
    text.iter().map(|s| s.to_string()).collect()
}

#[test]
fn a_feature_file_loads_from_its_lines() {
    let mut data = TfData::new("/corpus/tf/lex.tf");
    let ls = lines(&["@node", "@valueType=str", "", "1\tin", "the"]);
    assert!(data.load(Some(&ls), false));
    assert!(data.data_loaded);
    assert!(!data.data_error);
    assert_eq!(data.is_edge, Some(false));
    assert_eq!(data.data_type, "str");
    match &data.data {
        Some(TfDataContent::Node(f)) => {
            assert_eq!(f.name, "lex");
            assert_eq!(f.values.len(), 2);
        }
        _ => panic!("expected node data"),
    }
}

#[test]
fn a_header_loads_alone_and_missing_files_fail() {
    let mut data = TfData::new("/corpus/tf/mother.tf");
    let ls = lines(&["@edge", "@edgeValues", "@valueType=int", "", "1\t2\t3"]);
    assert!(data.load_meta_only(Some(&ls)));
    assert_eq!(data.is_edge, Some(true));
    assert!(data.data.is_none());
    assert!(!data.data_loaded);
    assert_eq!(data.data_type, "int");

    let mut missing = TfData::new("/corpus/tf/none.tf");
    assert!(!missing.load(None, false));
    assert!(missing.data_error);

    let mut bad = TfData::new("/corpus/tf/bad.tf");
    assert!(!bad.load(Some(&lines(&["@nothing"])), true));
    assert!(bad.data_error);
}

#[test]
fn console_messages_are_joined_and_trimmed() {
    assert_eq!(console_message(&["\nsaved to", "/home/me/data\n"], true, "/home/me"), "saved to /home/me/data\n");
    assert_eq!(console_message(&["/home/me/data"], false, "/home/me"), "~/data");
    assert_eq!(console_message(&["a", "b"], false, "/home/me"), "a b");
    assert_eq!(console_message(&[], true, "/home/me"), "\n");
}

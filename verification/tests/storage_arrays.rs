use context_fabric::storage::{CSRArray, CSRArrayWithValues, CsrValue, IntFeatureArray, StringPool};

#[test]
fn string_pool_interns_values() {
    let data = vec![
        (1u32, "a".to_string()),
        (2, "b".to_string()),
        (3, "a".to_string()),
        (9, "z".to_string()),
    ];
    let pool = StringPool::from_dict(&data, 4);
    assert_eq!(pool.strings, vec!["a".to_string(), "b".to_string()]);
    assert_eq!(pool.get(1), Some("a"));
    assert_eq!(pool.get(3), Some("a"));
    assert_eq!(pool.get(4), None);
    assert_eq!(pool.get(9), None);
    assert_eq!(pool.get(0), None);
    assert_eq!(pool.get(-1), None);
    assert_eq!(pool.get_value_index("b"), Some(1));
    assert_eq!(pool.get_value_index("q"), None);
    assert_eq!(pool.filter_by_value(&[3, 2, 1, 7], "a"), vec![3, 1]);
    assert_eq!(pool.filter_by_values(&[3, 2, 1], &["b".to_string(), "a".to_string()]), vec![3, 2, 1]);
    assert_eq!(pool.filter_by_values(&[3, 2, 1], &[]), Vec::<u32>::new());
}

#[test]
fn integer_arrays_filter_nodes() {
    let data = vec![(1u32, 5i64), (2, -3), (4, 10)];
    let arr = IntFeatureArray::from_dict(&data, 4);
    assert_eq!(arr.get(1), Some(5));
    assert_eq!(arr.get(3), None);
    assert_eq!(arr.get(5), None);
    let nodes = [4, 3, 2, 1];
    assert_eq!(arr.filter_by_value(&nodes, 5), vec![1]);
    assert_eq!(arr.filter_by_values(&nodes, &[10, -3]), vec![4, 2]);
    assert_eq!(arr.filter_less_than(&nodes, 5), vec![2]);
    assert_eq!(arr.filter_greater_than(&nodes, 0), vec![4, 1]);
    assert_eq!(arr.filter_has_value(&nodes), vec![4, 2, 1]);
    assert_eq!(arr.filter_missing_value(&nodes), vec![3]);
}

#[test]
fn adjacency_rows_and_cache() {
    let mut csr = CSRArray::from_sequences(&[vec![2, 3], vec![], vec![1]]);
    assert_eq!(csr.len(), 3);
    assert!(!csr.is_empty());
    assert_eq!(csr.row(0), Some(&[2u32, 3][..]));
    assert_eq!(csr.row(3), None);
    assert_eq!(csr.get_as_tuple(2), vec![1]);
    assert_eq!(csr.get_as_tuple(7), Vec::<u32>::new());
    assert_eq!(csr.get_all_targets(&[1, 3, 0, 9]), vec![1, 2, 3]);
    let (sources, targets) = csr.filter_sources_with_targets_in(&[1, 2, 3], &[3, 1]);
    assert_eq!(sources, vec![1, 3]);
    assert_eq!(targets, vec![1, 3]);
    let (none_s, none_t) = csr.filter_sources_with_targets_in(&[1, 2, 3], &[]);
    assert!(none_s.is_empty() && none_t.is_empty());
    assert!(!csr.is_cached());
    assert_eq!(csr.memory_usage_bytes(), 0);
    csr.preload_to_ram();
    assert!(csr.is_cached());
    assert_eq!(csr.memory_usage_bytes(), 12);
    assert_eq!(csr.row(0), Some(&[2u32, 3][..]));
    csr.release_cache();
    assert!(!csr.is_cached());
    assert_eq!(csr.get_as_tuple(0), vec![2, 3]);
}

#[test]
fn valued_rows() {
    let data = vec![
        (0u32, vec![(5u32, CsrValue::Int(1))]),
        (2, vec![(6, CsrValue::Str("x".to_string())), (7, CsrValue::Int(2))]),
        (8, vec![(1, CsrValue::Int(3))]),
    ];
    let arr = CSRArrayWithValues::from_dict_of_dicts(&data, 3);
    assert_eq!(arr.len(), 3);
    assert_eq!(arr.row(1), Some((vec![], vec![])));
    assert_eq!(arr.row(2), Some((vec![6, 7], vec![CsrValue::Str("x".to_string()), CsrValue::Int(2)])));
    assert_eq!(arr.row(3), None);
    assert_eq!(arr.get_as_dict(0), vec![(5, CsrValue::Int(1))]);
    assert_eq!(arr.get_as_dict(5), vec![]);
    let ints = CSRArrayWithValues::from_int_dict_of_dicts(&[(1u32, vec![(2u32, 9i64)])], 2);
    assert_eq!(ints.get_as_dict(1), vec![(2, CsrValue::Int(9))]);
    let strs = CSRArrayWithValues::from_string_dict_of_dicts(&[(0u32, vec![(4u32, "v".to_string())])], 1);
    assert_eq!(strs.get_as_dict(0), vec![(4, CsrValue::Str("v".to_string()))]);
    assert!(CSRArrayWithValues::from_dict_of_dicts(&[], 0).is_empty());
}

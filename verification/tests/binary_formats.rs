use std::collections::HashMap;
use context_fabric::compiled::encode_node_feature;
use context_fabric::error::CfError;
use context_fabric::feature::NodeFeature;
use context_fabric::npy::parse_npy_i64_values;
use context_fabric::value::FeatureValue;

fn npy(header: &str, data: &[u8]) -> Vec<u8> {
    let mut b = vec![0x93, b'N', b'U', b'M', b'P', b'Y', 1, 0];
    let h = header.as_bytes();
    b.push((h.len() % 256) as u8);
    b.push((h.len() / 256) as u8);
    b.extend_from_slice(h);
    b.extend_from_slice(data);
    b
}

fn message(r: Result<context_fabric::npy::MmapArray, CfError>) -> String {
    match r {
        Err(CfError::Parse { line, message, .. }) => {
            assert_eq!(line, 0);
            message
        },
        other => panic!("unexpected {other:?}"),
    }
}

#[test]
fn npy_int64_and_uint32_arrays() {
    let mut data = Vec::new();
    for v in [5i64, -2, 1 << 40] {
        data.extend_from_slice(&v.to_le_bytes());
    }
    let a = parse_npy_i64_values(&npy("{'descr': '<i8', 'fortran_order': False, 'shape': (3,), }\n", &data), "a.npy").unwrap();
    assert_eq!(a.values(), &[5, -2, 1 << 40]);
    assert_eq!(a.shape(), &[3]);

    let mut data = Vec::new();
    for v in [1u32, 2, 3, 4_000_000_000] {
        data.extend_from_slice(&v.to_le_bytes());
    }
    let b = parse_npy_i64_values(&npy("{'descr': '<u4', 'shape': (2, 2)}", &data), "b.npy").unwrap();
    assert_eq!(b.values(), &[1, 2, 3, 4_000_000_000]);
    assert_eq!(b.shape(), &[2, 2]);

    let c = parse_npy_i64_values(&npy("{'descr': '|i1', 'shape': (2,)}", &[0xff, 7]), "c.npy").unwrap();
    assert_eq!(c.values(), &[-1, 7]);
    let d = parse_npy_i64_values(&npy("{'descr': '<i4', 'shape': (1,)}", &(-7i32).to_le_bytes()), "d.npy").unwrap();
    assert_eq!(d.values(), &[-7]);
}

#[test]
fn npy_errors() {
    assert_eq!(message(parse_npy_i64_values(b"nope", "x.npy")), "missing NumPy magic header");
    assert_eq!(
        message(parse_npy_i64_values(&npy("{'descr': '<f8', 'shape': (1,)}", &[0; 8]), "x.npy")),
        "unsupported NumPy dtype"
    );
    assert_eq!(
        message(parse_npy_i64_values(&npy("{'descr': '<i8', 'shape': (2,)}", &[0; 8]), "x.npy")),
        "truncated int64 data"
    );
    assert_eq!(
        message(parse_npy_i64_values(&npy("{'descr': '<i8', 'fortran_order': True, 'shape': (1,)}", &[0; 8]), "x.npy")),
        "Fortran-order arrays are not supported"
    );
    assert_eq!(message(parse_npy_i64_values(&npy("{'shape': (1,)}", &[0; 8]), "x.npy")), "missing NumPy descr");
    assert_eq!(message(parse_npy_i64_values(&npy("{'descr': '<i8'}", &[0; 8]), "x.npy")), "missing NumPy shape");
}

fn le(v: u32) -> Vec<u8> {
    v.to_le_bytes().to_vec()
}

#[test]
fn node_feature_blocks() {
    let mut values = HashMap::new();
    values.insert(2, FeatureValue::Str("b".to_string()));
    values.insert(1, FeatureValue::Str("a".to_string()));
    values.insert(3, FeatureValue::Str("a".to_string()));
    let f = NodeFeature::new("g".to_string(), Vec::new(), values);
    let mut payload = le(2);
    payload.extend(le(1));
    payload.push(b'a');
    payload.extend(le(1));
    payload.push(b'b');
    payload.extend(le(3));
    for (n, i) in [(1, 0), (2, 1), (3, 0)] {
        payload.extend(le(n));
        payload.extend(le(i));
    }
    let mut expected = le(1);
    expected.push(b'g');
    expected.push(0);
    expected.extend(le(3));
    expected.extend(le(2));
    expected.extend(le(payload.len() as u32));
    expected.extend(payload);
    assert_eq!(encode_node_feature(&f), expected);

    let mut values = HashMap::new();
    values.insert(4, FeatureValue::Int(-1));
    values.insert(5, FeatureValue::Str("é".to_string()));
    let f = NodeFeature::new("n".to_string(), Vec::new(), values);
    let mut payload = le(2);
    payload.extend(le(4));
    payload.push(1);
    payload.extend((-1i64).to_le_bytes());
    payload.extend(le(5));
    payload.push(0);
    payload.extend(le(2));
    payload.extend("é".as_bytes());
    let mut expected = le(1);
    expected.push(b'n');
    expected.push(1);
    expected.extend(le(2));
    expected.extend(le(0));
    expected.extend(le(payload.len() as u32));
    expected.extend(payload);
    assert_eq!(encode_node_feature(&f), expected);
}

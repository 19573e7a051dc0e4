use sproqet::variant::{SproqetStringMap, SproqetUintMap};
use sproqet::{SproqetError, SproqetNDArray, SproqetVariant};

fn encode(v: &SproqetVariant) -> Vec<u8> {
    let mut buf = Vec::new();
    v.serialize(&mut buf);
    buf
}

fn roundtrip(v: &SproqetVariant) -> SproqetVariant {
    SproqetVariant::deserialize(&encode(v)).unwrap()
}

#[test]
fn uint32_worked_example() {
    assert_eq!(encode(&SproqetVariant::Uint32(42)), vec![0x08, 0x2A, 0x00, 0x00, 0x00]);
}

#[test]
fn scalar_encodings() {
    assert_eq!(encode(&SproqetVariant::Null), vec![0x00]);
    assert_eq!(encode(&SproqetVariant::Bool(true)), vec![0x02, 0x01]);
    assert_eq!(encode(&SproqetVariant::Bool(false)), vec![0x02, 0x00]);
    assert_eq!(encode(&SproqetVariant::Int32(-2)), vec![0x07, 0xFE, 0xFF, 0xFF, 0xFF]);
    assert_eq!(
        encode(&SproqetVariant::Int64(-1)),
        vec![0x09, 0xFF, 0xFF, 0xFF, 0xFF, 0xFF, 0xFF, 0xFF, 0xFF]
    );
    assert_eq!(
        encode(&SproqetVariant::Uint64(0x0102_0304_0506_0708)),
        vec![0x0A, 8, 7, 6, 5, 4, 3, 2, 1]
    );
    assert_eq!(
        encode(&SproqetVariant::Double(1.5f64.to_bits())),
        vec![0x0C, 0, 0, 0, 0, 0, 0, 0xF8, 0x3F]
    );
    assert_eq!(encode(&SproqetVariant::Buffer(vec![9, 8])), vec![0x0D, 2, 0, 0, 0, 9, 8]);
    assert_eq!(encode(&SproqetVariant::String("hé".to_string())), vec![0x0E, 3, 0, 0, 0, b'h', 0xC3, 0xA9]);
}

#[test]
fn serialize_appends_to_existing_bytes() {
    let mut buf = vec![0xAA];
    SproqetVariant::Uint32(1).serialize(&mut buf);
    assert_eq!(buf, vec![0xAA, 0x08, 1, 0, 0, 0]);
}

#[test]
fn scalars_roundtrip() {
    assert!(matches!(roundtrip(&SproqetVariant::Null), SproqetVariant::Null));
    assert!(matches!(roundtrip(&SproqetVariant::Bool(true)), SproqetVariant::Bool(true)));
    assert!(matches!(roundtrip(&SproqetVariant::Int32(i32::MIN)), SproqetVariant::Int32(i32::MIN)));
    assert!(matches!(roundtrip(&SproqetVariant::Uint32(u32::MAX)), SproqetVariant::Uint32(u32::MAX)));
    assert!(matches!(roundtrip(&SproqetVariant::Int64(-5)), SproqetVariant::Int64(-5)));
    assert!(matches!(roundtrip(&SproqetVariant::Uint64(u64::MAX)), SproqetVariant::Uint64(u64::MAX)));
    match roundtrip(&SproqetVariant::Double((-0.25f64).to_bits())) {
        SproqetVariant::Double(bits) => assert_eq!(f64::from_bits(bits), -0.25),
        other => panic!("unexpected {other:?}"),
    }
}

#[test]
fn containers_roundtrip() {
    let mut smap = SproqetStringMap::new();
    smap.insert("beta".to_string(), SproqetVariant::Uint32(2));
    smap.insert("alpha".to_string(), SproqetVariant::Buffer(vec![1, 2, 3]));
    let mut umap = SproqetUintMap::new();
    umap.insert(7, SproqetVariant::String("seven".to_string()));
    umap.insert(3, SproqetVariant::Null);
    let v = SproqetVariant::Array(vec![
        SproqetVariant::StringMap(smap),
        SproqetVariant::UintMap(umap),
        SproqetVariant::Array(vec![]),
        SproqetVariant::NDArray(SproqetNDArray {
            shape: vec![2, 3],
            data_type: "int16".to_string(),
            data: vec![0; 12],
        }),
    ]);
    let bytes = encode(&v);
    let back = SproqetVariant::deserialize(&bytes).unwrap();
    assert_eq!(encode(&back), bytes);
    match back {
        SproqetVariant::Array(items) => {
            assert_eq!(items.len(), 4);
            match &items[0] {
                SproqetVariant::StringMap(m) => {
                    assert_eq!(m.len(), 2);
                    assert_eq!(m.entries()[0].0, "alpha");
                    assert!(matches!(&m.entries()[0].1, SproqetVariant::Buffer(b) if b == &vec![1, 2, 3]));
                    assert_eq!(m.entries()[1].0, "beta");
                    assert!(matches!(m.entries()[1].1, SproqetVariant::Uint32(2)));
                }
                other => panic!("unexpected {other:?}"),
            }
            match &items[1] {
                SproqetVariant::UintMap(m) => {
                    assert_eq!(m.len(), 2);
                    assert_eq!(m.entries()[0].0, 3);
                    assert_eq!(m.entries()[1].0, 7);
                    assert!(matches!(&m.entries()[1].1, SproqetVariant::String(s) if s == "seven"));
                }
                other => panic!("unexpected {other:?}"),
            }
            assert!(matches!(&items[2], SproqetVariant::Array(a) if a.is_empty()));
            match &items[3] {
                SproqetVariant::NDArray(nd) => {
                    assert_eq!(nd.shape, vec![2, 3]);
                    assert_eq!(nd.data_type, "int16");
                    assert_eq!(nd.data, vec![0; 12]);
                }
                other => panic!("unexpected {other:?}"),
            }
        }
        other => panic!("unexpected {other:?}"),
    }
}

#[test]
fn equal_values_encode_identically() {
    let mut a = SproqetStringMap::new();
    a.insert("x".to_string(), SproqetVariant::Null);
    a.insert("y".to_string(), SproqetVariant::Bool(true));
    let mut b = SproqetStringMap::new();
    b.insert("y".to_string(), SproqetVariant::Bool(true));
    b.insert("x".to_string(), SproqetVariant::Null);
    assert_eq!(encode(&SproqetVariant::StringMap(a)), encode(&SproqetVariant::StringMap(b)));
}

#[test]
fn ndarray_framing_overhead() {
    let nd = SproqetNDArray { shape: vec![1920, 1080, 3], data_type: "uint8".to_string(), data: vec![0x55; 10] };
    let bytes = encode(&SproqetVariant::NDArray(nd));
    assert_eq!(bytes.len(), 42 + 10);
    assert_eq!(bytes[0], 0x20);
    assert_eq!(&bytes[1..5], &[3, 0, 0, 0]);
    assert_eq!(&bytes[5..13], &1920u64.to_le_bytes());
}

#[test]
fn bool_nonzero_is_true_and_void_is_null() {
    assert!(matches!(SproqetVariant::deserialize(&[0x02, 0x07]), Ok(SproqetVariant::Bool(true))));
    assert!(matches!(SproqetVariant::deserialize(&[0x02, 0x00]), Ok(SproqetVariant::Bool(false))));
    assert!(matches!(SproqetVariant::deserialize(&[0x01]), Ok(SproqetVariant::Null)));
}

#[test]
fn trailing_bytes_are_ignored() {
    let v = SproqetVariant::deserialize(&[0x08, 0x2A, 0, 0, 0, 0xFF, 0xFF]).unwrap();
    assert!(matches!(v, SproqetVariant::Uint32(42)));
}

#[test]
fn uint_map_key_is_truncated_to_u32() {
    let bytes = [0x11, 1, 0, 0, 0, 5, 0, 0, 0, 1, 0, 0, 0, 0x00];
    match SproqetVariant::deserialize(&bytes).unwrap() {
        SproqetVariant::UintMap(m) => {
            assert_eq!(m.len(), 1);
            assert_eq!(m.entries()[0].0, 5);
            assert!(matches!(m.entries()[0].1, SproqetVariant::Null));
        }
        other => panic!("unexpected {other:?}"),
    }
}

#[test]
fn uint_map_keys_are_written_as_u64() {
    let mut m = SproqetUintMap::new();
    m.insert(0x0102_0304, SproqetVariant::Null);
    let v = SproqetVariant::UintMap(m);
    assert_eq!(encode(&v), vec![0x11, 1, 0, 0, 0, 4, 3, 2, 1, 0, 0, 0, 0, 0x00]);
}

#[test]
fn duplicate_map_keys_keep_last_value_in_key_order() {
    let mut bytes = vec![0x10, 3, 0, 0, 0];
    for (k, v) in [("b", 1u32), ("a", 2), ("b", 3)] {
        bytes.extend_from_slice(&(k.len() as u32).to_le_bytes());
        bytes.extend_from_slice(k.as_bytes());
        bytes.extend_from_slice(&encode(&SproqetVariant::Uint32(v)));
    }
    match SproqetVariant::deserialize(&bytes).unwrap() {
        SproqetVariant::StringMap(m) => {
            assert_eq!(m.len(), 2);
            assert_eq!(m.entries()[0].0, "a");
            assert!(matches!(m.entries()[0].1, SproqetVariant::Uint32(2)));
            assert_eq!(m.entries()[1].0, "b");
            assert!(matches!(m.entries()[1].1, SproqetVariant::Uint32(3)));
        }
        other => panic!("unexpected {other:?}"),
    }
}

#[test]
fn invalid_utf8_is_replaced() {
    match SproqetVariant::deserialize(&[0x0E, 2, 0, 0, 0, b'a', 0xFF]).unwrap() {
        SproqetVariant::String(s) => assert_eq!(s, "a\u{FFFD}"),
        other => panic!("unexpected {other:?}"),
    }
}

#[test]
fn string_keys_order_by_bytes() {
    let mut m = SproqetStringMap::new();
    for k in ["b", "ab", "a", "é", "B", "ab"] {
        m.insert(k.to_string(), SproqetVariant::Null);
    }
    let keys: Vec<&str> = m.entries().iter().map(|(k, _)| k.as_str()).collect();
    assert_eq!(keys, vec!["B", "a", "ab", "b", "é"]);
}

#[test]
fn uint_map_insert_replaces_existing_key() {
    let mut m = SproqetUintMap::new();
    m.insert(10, SproqetVariant::Uint32(1));
    m.insert(5, SproqetVariant::Uint32(2));
    m.insert(10, SproqetVariant::Uint32(3));
    assert_eq!(m.len(), 2);
    assert_eq!(m.entries()[0].0, 5);
    assert_eq!(m.entries()[1].0, 10);
    assert!(matches!(m.entries()[1].1, SproqetVariant::Uint32(3)));
}

#[test]
fn decode_errors() {
    assert!(matches!(SproqetVariant::deserialize(&[]), Err(SproqetError::BufferUnderflow)));
    assert!(matches!(SproqetVariant::deserialize(&[0x07, 1, 2, 3]), Err(SproqetError::BufferUnderflow)));
    assert!(matches!(
        SproqetVariant::deserialize(&[0x0F, 2, 0, 0, 0, 0x00, 0x03]),
        Err(SproqetError::UnknownTypeId(0x03))
    ));
    assert!(matches!(
        SproqetVariant::deserialize(&[0x20, 1, 0, 0, 0, 1, 2, 3]),
        Err(SproqetError::BufferUnderflow)
    ));
    assert!(matches!(
        SproqetVariant::deserialize(&[0x0F, 0xFF, 0xFF, 0xFF, 0xFF, 0x00]),
        Err(SproqetError::BufferUnderflow)
    ));
}

#[test]
fn from_conversions() {
    assert!(matches!(SproqetVariant::from(true), SproqetVariant::Bool(true)));
    assert!(matches!(SproqetVariant::from(-3i32), SproqetVariant::Int32(-3)));
    assert!(matches!(SproqetVariant::from(3u32), SproqetVariant::Uint32(3)));
    assert!(matches!(SproqetVariant::from(-3i64), SproqetVariant::Int64(-3)));
    assert!(matches!(SproqetVariant::from(3u64), SproqetVariant::Uint64(3)));
    assert!(matches!(SproqetVariant::from(vec![1u8]), SproqetVariant::Buffer(_)));
    let nd = SproqetNDArray { shape: vec![1], data_type: "uint8".to_string(), data: vec![1] };
    assert!(matches!(SproqetVariant::from(nd), SproqetVariant::NDArray(_)));
    assert!(matches!(SproqetVariant::from("hi"), SproqetVariant::String(s) if s == "hi"));
}

#[test]
fn map_insertion_order_does_not_matter() {
    let mut a = SproqetUintMap::new();
    let mut b = SproqetUintMap::new();
    for k in [9u32, 1, 5] {
        a.insert(k, SproqetVariant::Uint32(k));
    }
    for k in [5u32, 9, 1, 9] {
        b.insert(k, SproqetVariant::Uint32(k));
    }
    assert_eq!(a.len(), 3);
    assert_eq!(b.len(), 3);
    let ka: Vec<u32> = a.entries().iter().map(|(k, _)| *k).collect();
    assert_eq!(ka, vec![1, 5, 9]);
    assert_eq!(encode(&SproqetVariant::UintMap(a)), encode(&SproqetVariant::UintMap(b)));
}

#[test]
fn clone_is_deep_and_equal() {
    let mut m = SproqetStringMap::new();
    m.insert("k".to_string(), SproqetVariant::Array(vec![SproqetVariant::Int32(-1)]));
    let mut u = SproqetUintMap::new();
    u.insert(1, SproqetVariant::Buffer(vec![4, 5]));
    let v = SproqetVariant::Array(vec![
        SproqetVariant::StringMap(m),
        SproqetVariant::UintMap(u),
        SproqetVariant::NDArray(SproqetNDArray { shape: vec![1, 2], data_type: "u8".to_string(), data: vec![3, 4] }),
        SproqetVariant::String("s".to_string()),
    ]);
    let c = v.clone();
    assert_eq!(encode(&c), encode(&v));
}

#[test]
fn map_get_finds_inserted_values() {
    let mut m = SproqetStringMap::new();
    m.insert("one".to_string(), SproqetVariant::Uint32(1));
    m.insert("two".to_string(), SproqetVariant::Uint32(2));
    m.insert("one".to_string(), SproqetVariant::Uint32(11));
    assert!(matches!(m.get("one"), Some(SproqetVariant::Uint32(11))));
    assert!(matches!(m.get("two"), Some(SproqetVariant::Uint32(2))));
    assert!(m.get("three").is_none());
    let mut u = SproqetUintMap::new();
    u.insert(4, SproqetVariant::Bool(true));
    assert!(matches!(u.get(4), Some(SproqetVariant::Bool(true))));
    assert!(u.get(5).is_none());
}

#[test]
fn deeply_nested_arrays_decode() {
    let depth = 5_000;
    let mut bytes = Vec::new();
    for _ in 0..depth {
        bytes.extend_from_slice(&[0x0F, 1, 0, 0, 0]);
    }
    bytes.push(0x00);
    let v = SproqetVariant::deserialize(&bytes).unwrap();
    let mut levels = 0;
    let mut cur = &v;
    while let SproqetVariant::Array(items) = cur {
        assert_eq!(items.len(), 1);
        levels += 1;
        cur = &items[0];
    }
    assert_eq!(levels, depth);
    assert!(matches!(cur, SproqetVariant::Null));
    let mut truncated = bytes.clone();
    truncated.pop();
    assert!(matches!(SproqetVariant::deserialize(&truncated), Err(SproqetError::BufferUnderflow)));
}

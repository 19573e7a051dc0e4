use sproqet::{SproqetError, SproqetVariant};

#[test]
fn test_variant_safety() {
    // truncated string (claims 5 bytes, only 2)
    let bad = vec![0x0E, 0x05, 0x00, 0x00, 0x00, b'a', b'b'];
    assert!(matches!(
        SproqetVariant::deserialize(&bad),
        Err(SproqetError::BufferUnderflow)
    ));

    // truncated map (claims 1 entry, supplies nothing)
    let bad = vec![0x10, 0x01, 0x00, 0x00, 0x00];
    assert!(matches!(
        SproqetVariant::deserialize(&bad),
        Err(SproqetError::BufferUnderflow)
    ));

    // unknown type ID
    let bad = vec![0xFF];
    assert!(matches!(
        SproqetVariant::deserialize(&bad),
        Err(SproqetError::UnknownTypeId(0xFF))
    ));
}

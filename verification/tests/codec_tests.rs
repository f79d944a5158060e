use content_tree::DecodeError;
use content_tree::FullValue;

fn sample_value() -> FullValue {
    FullValue::Product(vec![
        FullValue::Sum(4, Box::new(FullValue::Blob(vec![1, 2, 3]))),
        FullValue::Blob(vec![2, 3, 4, 5]),
    ])
}

fn sample_bytes() -> Vec<u8> {
    vec![
        2, 0, 0, 0, 2, // Product, 2 children
        1, 0, 0, 0, 4, // Sum, discriminant 4
        0, 0, 0, 0, 0, 0, 0, 0, 3, 1, 2, 3, // Blob, 3 bytes
        0, 0, 0, 0, 0, 0, 0, 0, 4, 2, 3, 4, 5, // Blob, 4 bytes
    ]
}

#[test]
fn test_roundtrip_full_value() {
    let mut v = Vec::new();
    let val = FullValue::Product(vec![
        FullValue::Sum(4, Box::new(FullValue::Blob(vec![1, 2, 3]))),
        FullValue::Blob(vec![2, 3, 4, 5]),
    ]);
    val.serialize_into(&mut v);

    assert_eq!(FullValue::deserialize(&v).unwrap(), val);
}

#[test]
fn serialize_exact_bytes() {
    assert_eq!(sample_value().serialize(), sample_bytes());
}

#[test]
fn deserialize_exact_bytes() {
    assert_eq!(FullValue::deserialize(&sample_bytes()), Ok(sample_value()));
}

#[test]
fn empty_blob_serializes_to_nine_zero_bytes() {
    let blob = FullValue::Blob(vec![]);
    let bytes = blob.serialize();
    assert_eq!(bytes, vec![0u8; 9]);
    assert_eq!(bytes.len(), 9);
    assert_eq!(FullValue::deserialize(&bytes), Ok(FullValue::Blob(vec![])));
}

#[test]
fn size_matches_serialized_length() {
    let val = sample_value();
    assert_eq!(val.size(), val.serialize().len());
    assert_eq!(val.size(), 35);
    let blob = FullValue::Blob(vec![7; 10]);
    assert_eq!(blob.size(), blob.serialize().len());
    let empty_product = FullValue::Product(vec![]);
    assert_eq!(empty_product.size(), empty_product.serialize().len());
    assert_eq!(empty_product.size(), 5);
}

#[test]
fn serialize_into_appends() {
    let mut w = vec![9u8];
    FullValue::Blob(vec![]).serialize_into(&mut w);
    let mut expected = vec![9u8];
    expected.extend_from_slice(&[0u8; 9]);
    assert_eq!(w, expected);
}

#[test]
fn malformed_tag_rejected() {
    assert_eq!(FullValue::deserialize(&[3]), Err(DecodeError::MalformedTag));
    assert_eq!(FullValue::deserialize(&[255]), Err(DecodeError::MalformedTag));
    // A bad tag inside a product is found while parsing the children.
    assert_eq!(
        FullValue::deserialize(&[2, 0, 0, 0, 1, 9]),
        Err(DecodeError::MalformedTag)
    );
}

#[test]
fn every_strict_prefix_is_truncated() {
    let bytes = sample_bytes();
    for i in 0..bytes.len() {
        assert_eq!(
            FullValue::deserialize(&bytes[..i]),
            Err(DecodeError::Truncated)
        );
    }
}

#[test]
fn trailing_bytes_rejected_with_count() {
    let mut bytes = sample_bytes();
    bytes.push(0);
    assert_eq!(
        FullValue::deserialize(&bytes),
        Err(DecodeError::TrailingBytes(1))
    );
    bytes.push(7);
    bytes.push(7);
    assert_eq!(
        FullValue::deserialize(&bytes),
        Err(DecodeError::TrailingBytes(3))
    );
}

#[test]
fn nested_products_round_trip() {
    let val = FullValue::Product(vec![
        FullValue::Product(vec![]),
        FullValue::Product(vec![FullValue::Sum(
            4294967295,
            Box::new(FullValue::Blob(vec![0, 255])),
        )]),
    ]);
    let bytes = val.serialize();
    assert_eq!(FullValue::deserialize(&bytes), Ok(val));
}

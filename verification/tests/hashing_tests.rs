use content_tree::ContentHashed;
use content_tree::FullValue;
use content_tree::ValueFragment;
use sha3::Digest;
use sha3::Sha3_256;

#[test]
fn test_full_fragment_equivalence() {
    let blob = FullValue::Blob(vec![1, 2, 3]);
    let sum = FullValue::Sum(12, Box::new(FullValue::Blob(vec![1, 2, 3])));
    let prod = FullValue::Product(vec![
        FullValue::Blob(vec![1, 2, 3]),
        FullValue::Sum(12, Box::new(FullValue::Blob(vec![1, 2, 3]))),
    ]);

    let frag = ValueFragment::Product(vec![
        ValueFragment::Reference(blob.hash()),
        ValueFragment::Reference(sum.hash()),
        ValueFragment::Reference(prod.hash()),
    ]);

    let full = FullValue::Product(vec![blob, sum, prod]);

    assert_eq!(frag.hash(), full.hash());
}

#[test]
fn product_of_references_hashes_like_product() {
    let blob = FullValue::Blob(vec![1, 2, 3]);
    let sum = FullValue::Sum(12, Box::new(FullValue::Blob(vec![1, 2, 3])));
    let prod = FullValue::Product(vec![
        FullValue::Blob(vec![1, 2, 3]),
        FullValue::Sum(12, Box::new(FullValue::Blob(vec![1, 2, 3]))),
    ]);

    let frag = ValueFragment::Product(vec![
        ValueFragment::Reference(blob.hash()),
        ValueFragment::Reference(sum.hash()),
    ]);

    assert_eq!(frag.hash(), prod.hash());
}

#[test]
fn partially_dehydrated_product_hashes_like_product() {
    let sum = FullValue::Sum(12, Box::new(FullValue::Blob(vec![1, 2, 3])));
    let prod = FullValue::Product(vec![
        FullValue::Blob(vec![1, 2, 3]),
        FullValue::Sum(12, Box::new(FullValue::Blob(vec![1, 2, 3]))),
    ]);

    let frag = ValueFragment::Product(vec![
        ValueFragment::Blob(vec![1, 2, 3]),
        ValueFragment::Reference(sum.hash()),
    ]);

    assert_eq!(frag.hash(), prod.hash());
}

#[test]
fn hash_is_deterministic() {
    let val = FullValue::Product(vec![
        FullValue::Sum(7, Box::new(FullValue::Blob(vec![9, 8]))),
        FullValue::Blob(vec![]),
    ]);
    assert_eq!(val.hash(), val.hash());
    let frag = val.clone_fragment();
    assert_eq!(frag.hash(), frag.hash());
}

#[test]
fn clone_fragment_preserves_hash() {
    let val = FullValue::Product(vec![
        FullValue::Sum(7, Box::new(FullValue::Blob(vec![9, 8]))),
        FullValue::Blob(vec![4, 5, 6]),
    ]);
    assert_eq!(val.clone_fragment().hash(), val.hash());
}

#[test]
fn to_fragment_preserves_hash() {
    let val = FullValue::Sum(3, Box::new(FullValue::Product(vec![FullValue::Blob(vec![1])])));
    let h = val.hash();
    let frag = val.to_fragment();
    assert_eq!(frag.hash(), h);
}

#[test]
fn to_fragment_equals_clone_fragment() {
    let val = FullValue::Product(vec![
        FullValue::Blob(vec![1, 2]),
        FullValue::Sum(5, Box::new(FullValue::Blob(vec![]))),
    ]);
    let cloned = val.clone_fragment();
    assert_eq!(val.to_fragment(), cloned);
}

#[test]
fn blob_hash_is_sha3_of_its_bytes() {
    let h = FullValue::Blob(vec![1, 2, 3]).hash();
    let expected = Sha3_256::digest([1u8, 2, 3]);
    assert_eq!(h.as_bytes(), expected.as_slice());
}

#[test]
fn empty_product_hashes_like_empty_input() {
    let h = FullValue::Product(vec![]).hash();
    let expected = Sha3_256::digest([]);
    assert_eq!(h.as_bytes(), expected.as_slice());
}

#[test]
fn sum_hash_folds_discriminant_and_inner_hash() {
    let inner = FullValue::Blob(vec![10, 20, 30]);
    let sum = FullValue::Sum(12, Box::new(FullValue::Blob(vec![10, 20, 30])));

    let mut input = 12u32.to_be_bytes().to_vec();
    input.extend_from_slice(inner.hash().as_bytes());
    let expected = Sha3_256::digest(&input);

    assert_eq!(sum.hash().as_bytes(), expected.as_slice());
}

#[test]
fn hash_of_matches_direct_digest() {
    let h = content_tree::hashing::Hash::of(&[1, 2, 3]);
    let expected = Sha3_256::digest([1u8, 2, 3]);
    assert_eq!(h.as_bytes(), expected.as_slice());
}

#[test]
fn reference_hashes_to_its_own_digest() {
    let h = content_tree::hashing::Hash::of(b"anything");
    let frag = ValueFragment::Reference(h);
    assert_eq!(frag.hash(), h);
}

#[test]
fn sure_from_slice_copies_all_bytes() {
    let bytes: Vec<u8> = (0u8..32).collect();
    let h = content_tree::hashing::Hash::sure_from_slice(&bytes);
    assert_eq!(h.as_bytes(), &bytes[..]);
}

#[test]
fn debug_string_renders_full_hex_digest() {
    let bytes: Vec<u8> = (0u8..32).collect();
    let h = content_tree::hashing::Hash::sure_from_slice(&bytes);
    assert_eq!(
        h.debug_string(),
        "sha-256:000102030405060708090a0b0c0d0e0f101112131415161718191a1b1c1d1e1f"
    );
}

#[test]
fn display_string_renders_short_prefix() {
    let bytes: Vec<u8> = (0u8..32).collect();
    let h = content_tree::hashing::Hash::sure_from_slice(&bytes);
    assert_eq!(h.display_string(), "#00010203");
}

use rinha_fraud_rust::dataset::{Dataset, DIMS};
use rinha_fraud_rust::index_file::{encode_index, label_code, IndexError, HEADER_LEN};

fn sample() -> (Vec<u16>, Vec<u8>) {
    let mut vectors = Vec::new();
    for r in 0..3u16 {
        for d in 0..DIMS as u16 {
            vectors.push(r * 1000 + d * 300 + 1);
        }
    }
    vectors[5] = 0;
    vectors[20] = 65535;
    (vectors, vec![1, 0, 1])
}

#[test]
fn encoded_index_layout() {
    let (vectors, labels) = sample();
    let bytes = encode_index(&vectors, &labels);
    assert_eq!(&bytes[0..8], b"RINHAI01");
    assert_eq!(&bytes[8..12], &3u32.to_le_bytes());
    assert_eq!(bytes[12], 14);
    assert_eq!(bytes.len(), HEADER_LEN + 3 * DIMS * 2 + 3);
    assert_eq!(&bytes[13..15], &vectors[0].to_le_bytes());
    assert_eq!(&bytes[13 + 40..13 + 42], &65535u16.to_le_bytes());
    assert_eq!(&bytes[bytes.len() - 3..], &[1, 0, 1]);
}

#[test]
fn index_roundtrip() {
    let (vectors, labels) = sample();
    let bytes = encode_index(&vectors, &labels);
    let ds = Dataset::load_index(&bytes).unwrap();
    assert_eq!(ds.len, 3);
    assert_eq!(ds.vectors, vectors);
    assert_eq!(ds.labels, labels);
}

#[test]
fn trailing_bytes_are_ignored() {
    let (vectors, labels) = sample();
    let mut bytes = encode_index(&vectors, &labels);
    bytes.extend_from_slice(&[9, 9, 9]);
    let ds = Dataset::load_index(&bytes).unwrap();
    assert_eq!(ds.labels, labels);
}

#[test]
fn truncated_index() {
    let (vectors, labels) = sample();
    let bytes = encode_index(&vectors, &labels);
    assert_eq!(Dataset::load_index(&bytes[..5]).err(), Some(IndexError::Truncated));
    assert_eq!(Dataset::load_index(&bytes[..10]).err(), Some(IndexError::Truncated));
    assert_eq!(
        Dataset::load_index(&bytes[..bytes.len() - 1]).err(),
        Some(IndexError::Truncated)
    );
}

#[test]
fn invalid_magic() {
    let (vectors, labels) = sample();
    let mut bytes = encode_index(&vectors, &labels);
    bytes[0] = b'X';
    assert_eq!(Dataset::load_index(&bytes).err(), Some(IndexError::InvalidMagic));
    assert_eq!(Dataset::load_index(b"NOTANIDX").err(), Some(IndexError::InvalidMagic));
}

#[test]
fn invalid_dims() {
    let (vectors, labels) = sample();
    let mut bytes = encode_index(&vectors, &labels);
    bytes[12] = 13;
    assert_eq!(Dataset::load_index(&bytes).err(), Some(IndexError::InvalidDims(13)));
}

#[test]
fn empty_index() {
    let bytes = encode_index(&[], &[]);
    assert_eq!(bytes.len(), HEADER_LEN);
    let ds = Dataset::load_index(&bytes).unwrap();
    assert_eq!(ds.len, 0);
}

#[test]
fn labels_map_fraud_to_one() {
    assert_eq!(label_code("fraud"), 1);
    assert_eq!(label_code("legit"), 0);
    assert_eq!(label_code("Fraud"), 0);
    assert_eq!(label_code(""), 0);
}

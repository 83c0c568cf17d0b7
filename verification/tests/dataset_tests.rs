use rinha_fraud_rust::dataset::{
    bool_bucket, bucket_key_from_parts, bucket_key_from_quantized_vector, normalized_bucket,
    Dataset, AMOUNT_BUCKETS, DIMS, MCC_BUCKETS, TOTAL_BUCKETS,
};

fn vector_with(values: &[(usize, u16)]) -> Vec<u16> {
    let mut v = vec![1u16; DIMS];
    for &(i, x) in values {
        v[i] = x;
    }
    v
}

#[test]
fn bool_bucket_splits_at_the_midpoint() {
    assert_eq!(bool_bucket(0), 0);
    assert_eq!(bool_bucket(1), 0);
    assert_eq!(bool_bucket(32768), 0);
    assert_eq!(bool_bucket(32769), 1);
    assert_eq!(bool_bucket(65535), 1);
}

#[test]
fn normalized_bucket_edges() {
    assert_eq!(normalized_bucket(0, AMOUNT_BUCKETS), 0);
    assert_eq!(normalized_bucket(1, AMOUNT_BUCKETS), 0);
    assert_eq!(normalized_bucket(4096, AMOUNT_BUCKETS), 0);
    assert_eq!(normalized_bucket(4097, AMOUNT_BUCKETS), 1);
    assert_eq!(normalized_bucket(32768, AMOUNT_BUCKETS), 7);
    assert_eq!(normalized_bucket(65535, AMOUNT_BUCKETS), 15);
    assert_eq!(normalized_bucket(65535, MCC_BUCKETS), 7);
    assert_eq!(normalized_bucket(12345, 1), 0);
}

#[test]
fn bucket_key_mixes_the_parts() {
    assert_eq!(bucket_key_from_parts(0, 0, 0, 0, 0, 0), 0);
    assert_eq!(bucket_key_from_parts(1, 0, 1, 0, 3, 5), 1333);
    assert_eq!(bucket_key_from_parts(1, 1, 1, 1, 7, 15), TOTAL_BUCKETS - 1);
    assert_eq!(bucket_key_from_parts(0, 0, 0, 0, 0, 15), 15);
    assert_eq!(bucket_key_from_parts(0, 0, 0, 1, 0, 0), 128);
}

#[test]
fn bucket_key_of_a_quantized_vector() {
    // amount bucket 15, has a last transaction, online, card absent,
    // known merchant, MCC bucket 4
    let v = vector_with(&[(0, 65535), (5, 100), (9, 60000), (10, 10), (11, 0), (12, 40000)]);
    assert_eq!(bucket_key_from_quantized_vector(&v), bucket_key_from_parts(1, 1, 0, 0, 4, 15));
    // no previous transaction: dimension 5 holds the reserved value 0
    let w = vector_with(&[(5, 0)]);
    assert_eq!(bucket_key_from_quantized_vector(&w), 0);
}

#[test]
fn from_references_groups_references_by_key() {
    let mut vectors = Vec::new();
    vectors.extend(vector_with(&[(5, 0)]));
    vectors.extend(vector_with(&[(0, 65535)]));
    vectors.extend(vector_with(&[(5, 0), (3, 999)]));
    let labels = vec![0u8, 1, 0];
    let ds = Dataset::from_references(vectors.clone(), labels.clone());
    assert_eq!(ds.len, 3);
    assert_eq!(ds.vectors, vectors);
    assert_eq!(ds.labels, labels);
    assert_eq!(ds.buckets.len(), TOTAL_BUCKETS);
    assert_eq!(ds.buckets[0], vec![0u32, 2]);
    let k1 = bucket_key_from_parts(1, 0, 0, 0, 0, 15);
    assert_eq!(ds.buckets[k1], vec![1u32]);
    assert_eq!(ds.global_sample, vec![0u32, 1, 2]);
    assert_eq!(ds.non_empty_buckets(), 2);
}

#[test]
fn empty_dataset_has_empty_buckets() {
    let ds = Dataset::from_references(Vec::new(), Vec::new());
    assert_eq!(ds.len, 0);
    assert_eq!(ds.non_empty_buckets(), 0);
    assert!(ds.buckets.iter().all(|b| b.is_empty()));
}

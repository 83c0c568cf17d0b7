use rinha_fraud_rust::dataset::{Dataset, DIMS};
use rinha_fraud_rust::search::{
    approved, count_bool_slice_candidates, count_bucket_candidates, distance_squared_quantized,
    fraud_score_bucket, fraud_score_bucket_bounded_v1, fraud_score_bucket_bounded_v2,
    fraud_score_bucket_legacy, fraud_score_full, probe_bool_slice_with_phase,
    probe_bucket_keys_with_phase, probe_bucket_range_with_phase, query_shape, sq_diff,
    total_candidates,
};
use rinha_fraud_rust::dataset::{bucket_key_from_parts, bucket_key_from_quantized_vector};

fn base() -> [u16; DIMS] {
    // amount bucket 0, a previous transaction, no boolean flag, MCC bucket 0
    [1; DIMS]
}

fn dataset(refs: &[([u16; DIMS], u8)]) -> Dataset {
    let mut vectors = Vec::new();
    let mut labels = Vec::new();
    for (v, l) in refs {
        vectors.extend_from_slice(v);
        labels.push(*l);
    }
    Dataset::from_references(vectors, labels)
}

fn shifted(dim: usize, value: u16) -> [u16; DIMS] {
    let mut v = base();
    v[dim] = value;
    v
}

#[test]
fn squared_differences() {
    assert_eq!(sq_diff(3, 7), 16);
    assert_eq!(sq_diff(7, 3), 16);
    assert_eq!(sq_diff(0, 65535), 65535 * 65535);
    let q = base();
    let v = [1u16, 2, 3, 4, 5, 6, 7, 8, 9, 10, 11, 12, 13, 14, 99];
    // differences 0, 1, ..., 13
    assert_eq!(distance_squared_quantized(&q, &v, 0), 819);
    // differences 1, ..., 13 and 98
    assert_eq!(distance_squared_quantized(&q, &v, 1), 819 + 98 * 98);
    assert_eq!(distance_squared_quantized(&q, &q, 0), 0);
}

#[test]
fn decision_threshold() {
    // fraud_score = frauds / 5; approved = fraud_score < 0.6
    assert!(approved(0));
    assert!(approved(2));
    assert!(!approved(3));
    assert!(!approved(5));
}

#[test]
fn five_nearest_decide_the_count() {
    let labels = [1u8, 1, 0, 0, 1, 1, 1];
    let refs: Vec<([u16; DIMS], u8)> =
        (0..7).map(|d| (shifted(1, 1 + d as u16), labels[d])).collect();
    let ds = dataset(&refs);
    let q = base();
    assert_eq!(fraud_score_full(&q, &ds), 3);
    assert_eq!(fraud_score_bucket(&q, &ds), 3);
    assert_eq!(fraud_score_bucket_bounded_v1(&q, &ds), 3);
    // the borderline count 3 is re-checked by merging a second probe of the
    // same buckets, which offers the already kept neighbours once more: the two
    // nearest (both frauds) displace the two farthest kept ones
    assert_eq!(fraud_score_bucket_bounded_v2(&q, &ds), 4);
    assert_eq!(fraud_score_bucket_legacy(&q, &ds), 3);
    assert_eq!(count_bucket_candidates(&q, &ds), 7);
    assert_eq!(count_bool_slice_candidates(&q, &ds), 7);
    assert!(!approved(fraud_score_full(&q, &ds)));
}

#[test]
fn fewer_than_five_references_score_zero() {
    let refs = vec![(shifted(1, 2), 1u8), (shifted(1, 3), 1u8), (shifted(1, 4), 1u8)];
    let ds = dataset(&refs);
    let q = base();
    assert_eq!(fraud_score_full(&q, &ds), 0);
    assert_eq!(fraud_score_bucket_bounded_v1(&q, &ds), 0);
    assert_eq!(fraud_score_bucket_bounded_v2(&q, &ds), 0);
    assert_eq!(fraud_score_bucket_legacy(&q, &ds), 0);
}

#[test]
fn primary_probe_only_sees_the_query_amount_bucket() {
    // four legitimate references in the query's amount bucket, one just over
    // the bucket border (distance 1) and fraudulent
    let q = shifted(0, 4096);
    let mut refs = Vec::new();
    for d in 2..7u16 {
        let mut v = q;
        v[1] = 1 + d;
        refs.push((v, 0u8));
    }
    let mut near = q;
    near[0] = 4097;
    refs.push((near, 1u8));
    let ds = dataset(&refs);
    assert_eq!(count_bucket_candidates(&q, &ds), 5);
    assert_eq!(count_bool_slice_candidates(&q, &ds), 6);
    assert_eq!(fraud_score_full(&q, &ds), 1);
    assert_eq!(fraud_score_bucket_bounded_v1(&q, &ds), 0);
    assert_eq!(fraud_score_bucket_legacy(&q, &ds), 0);
}

#[test]
fn borderline_primary_is_settled_by_the_expanded_probe() {
    // primary bucket: 2 frauds among its 5 references (borderline);
    // the neighbouring amount bucket holds nearer legitimate references
    let q = shifted(0, 4096);
    let labels = [0u8, 0, 1, 1, 0];
    let mut refs = Vec::new();
    for d in 0..5usize {
        let mut v = q;
        v[1] = 10 + d as u16;
        refs.push((v, labels[d]));
    }
    for d in 0..3u16 {
        let mut v = q;
        v[0] = 4097;
        v[1] = 1 + d;
        refs.push((v, 0u8));
    }
    let ds = dataset(&refs);
    assert_eq!(fraud_score_full(&q, &ds), 0);
    assert_eq!(fraud_score_bucket_bounded_v1(&q, &ds), 0);
    assert_eq!(fraud_score_bucket_bounded_v2(&q, &ds), 0);
    assert_eq!(fraud_score_bucket_legacy(&q, &ds), 0);
}

#[test]
fn empty_buckets_fall_back_to_the_global_sample() {
    // the query has no previous transaction; every reference has one
    let mut q = base();
    q[5] = 0;
    let refs: Vec<([u16; DIMS], u8)> =
        (0..6).map(|d| (shifted(1, 1 + d as u16), if d < 4 { 1 } else { 0 })).collect();
    let ds = dataset(&refs);
    assert_eq!(count_bucket_candidates(&q, &ds), 0);
    assert_eq!(count_bool_slice_candidates(&q, &ds), 0);
    assert_eq!(fraud_score_full(&q, &ds), 4);
    assert_eq!(fraud_score_bucket_bounded_v1(&q, &ds), 4);
    assert_eq!(fraud_score_bucket_bounded_v2(&q, &ds), 4);
    assert_eq!(fraud_score_bucket_legacy(&q, &ds), 4);
}

fn hand_built(vectors: Vec<u16>, labels: Vec<u8>, len: usize, filled: &[(usize, Vec<u32>)]) -> Dataset {
    let mut buckets = vec![Vec::new(); rinha_fraud_rust::dataset::TOTAL_BUCKETS];
    for (k, b) in filled {
        buckets[*k] = b.clone();
    }
    Dataset { vectors, labels, len, buckets, global_sample: Vec::new() }
}

#[test]
fn full_scan_reads_no_bucket() {
    let mut vectors = Vec::new();
    for i in 1..=6u16 {
        vectors.extend(std::iter::repeat(i).take(DIMS));
    }
    let ds = hand_built(vectors, vec![1, 0, 1, 0, 1, 1], 6, &[]);
    // reference i lies at squared distance 14 * i * i from the query
    assert_eq!(fraud_score_full(&[1u16; DIMS], &ds), 3);
}

#[test]
fn searches_read_the_buckets_they_are_given() {
    // the buckets do not follow the vectors' keys: the searches take them as given
    let ds = hand_built(
        vec![0u16; 5 * DIMS],
        vec![1, 1, 1, 0, 0],
        5,
        &[(16, vec![0, 1, 2]), (1, vec![3, 4])],
    );
    let q = [0u16; DIMS];
    assert_eq!(count_bucket_candidates(&q, &ds), 3);
    assert_eq!(count_bool_slice_candidates(&q, &ds), 5);
    assert_eq!(fraud_score_bucket_bounded_v1(&q, &ds), 3);
    assert_eq!(fraud_score_bucket_legacy(&q, &ds), 3);
    assert_eq!(fraud_score_full(&q, &ds), 3);
}

#[test]
fn one_bucket_within_budget_matches_the_full_scan() {
    let labels = [0u8, 1, 1, 0, 1, 0, 1, 1, 0];
    let refs: Vec<([u16; DIMS], u8)> =
        (0..9).map(|d| (shifted(1, 1 + (d * 7 % 9) as u16), labels[d])).collect();
    let ds = dataset(&refs);
    let q = base();
    let full = fraud_score_full(&q, &ds);
    assert_eq!(fraud_score_bucket(&q, &ds), full);
    assert_eq!(fraud_score_bucket_legacy(&q, &ds), full);
    assert!(count_bucket_candidates(&q, &ds) <= count_bool_slice_candidates(&q, &ds));
}

#[test]
fn a_bucket_named_twice_is_probed_twice() {
    let mut vectors = Vec::new();
    for v in [1u16, 2, 3] {
        let mut r = [1u16; DIMS];
        r[0] = v;
        vectors.extend_from_slice(&r);
    }
    let ds = hand_built(vectors, vec![1, 0, 0], 3, &[(0, vec![0, 1, 2])]);
    let q = [1u16; DIMS];
    assert_eq!(total_candidates(&ds, &[0, 0]), 6);
    let r = probe_bucket_keys_with_phase(&q, &ds, &[0, 0], 100, 0);
    assert_eq!(r.filled, 5);
    assert_eq!(r.top, [(0, 1), (1, 0), (4, 0), (0, 1), (1, 0)]);
    assert_eq!(r.score(), Some(2));
    // nothing to visit: an empty result, whatever the budget
    let e = probe_bucket_keys_with_phase(&q, &ds, &[5, 7], 0, 3);
    assert_eq!(e.filled, 0);
}

#[test]
fn range_and_slice_probes() {
    let labels = [1u8, 0, 1, 0, 1, 0, 0];
    let refs: Vec<([u16; DIMS], u8)> =
        (0..7).map(|d| (shifted(1, 1 + d as u16), labels[d])).collect();
    let ds = dataset(&refs);
    let q = base();
    let p = probe_bucket_range_with_phase(&q, &ds, 0, 1, 8192, 0);
    assert_eq!(p.score(), Some(3));
    let b = probe_bool_slice_with_phase(&q, &ds, 12288, 1);
    assert_eq!(b.score(), Some(3));
}

#[test]
fn query_shape_names_the_query_bucket() {
    let mut q = [1u16; DIMS];
    q[0] = 40000;
    q[5] = 0;
    q[10] = 50000;
    q[12] = 65535;
    let s = query_shape(&q);
    assert_eq!(s, (9, 0, 0, 1, 0, 7));
    assert_eq!(bucket_key_from_parts(s.1, s.2, s.3, s.4, s.5, s.0), bucket_key_from_quantized_vector(&q));
}

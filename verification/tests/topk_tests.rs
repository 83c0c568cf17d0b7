use rinha_fraud_rust::topk::{find_worst_idx, merge_probe_results, update_top5, ProbeResult};

fn offer_all(items: &[(u64, u8)]) -> ProbeResult {
    let mut r = ProbeResult::empty();
    for &(d, l) in items {
        update_top5(&mut r.top, &mut r.filled, d, l);
    }
    r
}

fn kept_sorted(r: &ProbeResult) -> Vec<(u64, u8)> {
    let mut v = r.top[..r.filled].to_vec();
    v.sort();
    v
}

#[test]
fn empty_buffer_has_no_score() {
    let r = ProbeResult::empty();
    assert_eq!(r.filled, 0);
    assert_eq!(r.score(), None);
}

#[test]
fn first_five_candidates_fill_the_slots() {
    let r = offer_all(&[(9, 1), (3, 0), (7, 1), (1, 0)]);
    assert_eq!(r.filled, 4);
    assert_eq!(r.score(), None);
    let r = offer_all(&[(9, 1), (3, 0), (7, 1), (1, 0), (5, 1)]);
    assert_eq!(r.filled, 5);
    assert_eq!(r.top, [(9, 1), (3, 0), (7, 1), (1, 0), (5, 1)]);
    assert_eq!(r.score(), Some(3));
}

#[test]
fn worst_slot_is_the_first_farthest() {
    assert_eq!(find_worst_idx(&[(1, 0), (8, 0), (3, 0), (8, 1), (2, 0)]), 1);
    assert_eq!(find_worst_idx(&[(4, 0), (4, 0), (4, 0), (4, 0), (4, 0)]), 0);
    assert_eq!(find_worst_idx(&[(1, 0), (2, 0), (3, 0), (4, 0), (5, 0)]), 4);
}

#[test]
fn nearer_candidates_replace_the_farthest() {
    let mut r = offer_all(&[(9, 1), (3, 0), (7, 1), (1, 0), (5, 1)]);
    update_top5(&mut r.top, &mut r.filled, 2, 0);
    assert_eq!(r.top, [(2, 0), (3, 0), (7, 1), (1, 0), (5, 1)]);
    // equal to the farthest: not taken
    update_top5(&mut r.top, &mut r.filled, 7, 0);
    assert_eq!(r.top, [(2, 0), (3, 0), (7, 1), (1, 0), (5, 1)]);
    assert_eq!(r.score(), Some(2));
}

#[test]
fn keeps_the_five_nearest_of_a_stream() {
    let items: Vec<(u64, u8)> = (0..40u64).map(|i| ((i * 37) % 41, (i % 3 == 0) as u8)).collect();
    let r = offer_all(&items);
    let mut all = items.clone();
    all.sort();
    assert_eq!(kept_sorted(&r), all[..5].to_vec());
}

#[test]
fn merging_offers_the_kept_candidates_of_the_right_buffer() {
    let left = offer_all(&[(10, 0), (11, 0), (12, 0), (13, 0), (14, 0)]);
    let right = offer_all(&[(1, 1), (20, 0), (2, 1)]);
    let merged = merge_probe_results(left, right);
    assert_eq!(kept_sorted(&merged), vec![(1, 1), (2, 1), (10, 0), (11, 0), (12, 0)]);
    assert_eq!(merged.score(), Some(2));
    let partial = merge_probe_results(offer_all(&[(4, 1)]), offer_all(&[(3, 0)]));
    assert_eq!(partial.filled, 2);
    assert_eq!(partial.score(), None);
}

#[test]
fn unfilled_slots_keep_the_sentinel() {
    let r = offer_all(&[(9, 1), (3, 0)]);
    assert_eq!(r.filled, 2);
    assert_eq!(&r.top[2..], &[(u64::MAX, 0), (u64::MAX, 0), (u64::MAX, 0)]);
}

#[test]
fn merging_into_a_partial_buffer_keeps_the_nearest_of_both() {
    let left = offer_all(&[(30, 0), (10, 1)]);
    let right = offer_all(&[(5, 0), (50, 1), (20, 1), (40, 0), (1, 1), (60, 0)]);
    let merged = merge_probe_results(left, right);
    assert_eq!(kept_sorted(&merged), vec![(1, 1), (5, 0), (10, 1), (20, 1), (30, 0)]);
}

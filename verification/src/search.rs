//! Nearest-neighbour fraud scoring over the bucketed reference index.

use vstd::prelude::*;
use crate::dataset::{
    all_bucket_keys, all_indices, bool_bucket, bucket_key_from_parts, bucket_members, candidate_count, distinct_keys,
    keys_in_range,
    lemma_candidate_count_bound, lemma_candidate_count_nonneg, lemma_candidate_count_subset,
    lemma_normalized_bucket_in_range, reference_key, spec_vector_bucket_key, lemma_key_digits,
    count_refs_with_key, lemma_candidate_count_counts_references, lemma_bucket_key_decodes, normalized_bucket,
    lemma_reference_in_own_bucket, lemma_bucket_members, lemma_key_nonneg,
    parts_in_range, reference, spec_bool_bucket, spec_bucket_key, TOTAL_BUCKETS,
    spec_normalized_bucket, Dataset, AMOUNT_BUCKETS, DIMS, MCC_BUCKETS,
};
use crate::topk::{distinct_distances, lemma_offer_all_selects_nearest_from, lemma_nearest_selection_reordered,
    lemma_nearest_selection_unique, empty_state, fraud_count, is_nearest_selection, kept, lemma_offer_all_push,
    lemma_merge_selects_nearest_of_both, lemma_offer_all_selects_nearest, lemma_offer_all_shape,
    lemma_state_score_bound, merge_probe_results, offer_all, state_score, update_top5, Neighbor, ProbeResult, TopState, NEIGHBORS};

verus! {

/// Candidate budget of the legacy bucket search.
pub const LEGACY_MAX_CANDIDATES_PER_QUERY: usize = 50_000;

/// Candidate budget of the primary probe (exact amount bucket, MCC bucket ±1).
pub const PRIMARY_MAX_CANDIDATES_PER_QUERY: usize = 8_192;

/// Candidate budget of the expanded probe (amount and MCC buckets ±1).
pub const EXPANDED_MAX_CANDIDATES_PER_QUERY: usize = 16_384;

/// Candidate budget of the probe over every bucket sharing the query's boolean features.
pub const BOOL_SLICE_MAX_CANDIDATES_PER_QUERY: usize = 12_288;

/// Sum of the squared differences of the first `n` coordinates.
pub open spec fn sq_dist(a: Seq<u16>, b: Seq<u16>, n: int) -> int
    decreases n,
{
    if n <= 0 {
        0
    } else {
        sq_dist(a, b, n - 1) + (a[n - 1] - b[n - 1]) * (a[n - 1] - b[n - 1])
    }
}

/// Squared Euclidean distance between two quantized vectors.
pub open spec fn spec_distance(a: Seq<u16>, b: Seq<u16>) -> int {
    sq_dist(a, b, DIMS as int)
}

/// The candidate that reference `idx` makes for query `q`: its squared
/// distance and its label.
pub open spec fn candidate(q: Seq<u16>, ds: Dataset, idx: int) -> Neighbor {
    (spec_distance(q, reference(ds.vectors@, idx)) as u64, ds.labels@[idx])
}

/// The candidates of the references listed in `idxs`, in order.
pub open spec fn candidates(q: Seq<u16>, ds: Dataset, idxs: Seq<u32>) -> Seq<Neighbor> {
    idxs.map_values(|i: u32| candidate(q, ds, i as int))
}

pub fn sq_diff(a: u16, b: u16) -> (r: u64)
    ensures
        r == (a - b) * (a - b),
        r <= 65535 * 65535,
{
    let diff = a as i64 - b as i64;
    assert(0 <= diff * diff <= 65535 * 65535) by (nonlinear_arith)
        requires -65535 <= diff <= 65535;
    (diff * diff) as u64
}

proof fn lemma_sq_dist_bound(a: Seq<u16>, b: Seq<u16>, n: int)
    requires
        n >= 0,
    ensures
        0 <= sq_dist(a, b, n) <= n * 4294836225,
    decreases n,
{
    if n > 0 {
        lemma_sq_dist_bound(a, b, n - 1);
        let d = a[n - 1] - b[n - 1];
        assert(0 <= d * d <= 4294836225) by (nonlinear_arith)
            requires -65535 <= d <= 65535;
        assert(sq_dist(a, b, n) == sq_dist(a, b, n - 1) + d * d);
    }
}

/// The squared distance is symmetric, and zero between equal vectors.
pub proof fn lemma_distance_symmetric(a: Seq<u16>, b: Seq<u16>, n: int)
    ensures
        sq_dist(a, b, n) == sq_dist(b, a, n),
        sq_dist(a, a, n) == 0,
    decreases n,
{
    if n > 0 {
        lemma_distance_symmetric(a, b, n - 1);
        let d = a[n - 1] - b[n - 1];
        assert(d * d == (-d) * (-d)) by (nonlinear_arith);
    }
}

/// Squared distance between `query` and the vector stored at `vectors[offset..offset + DIMS]`.
pub fn distance_squared_quantized(query: &[u16; DIMS], vectors: &[u16], offset: usize) -> (r: u64)
    requires
        offset + DIMS <= vectors@.len(),
    ensures
        r == spec_distance(query@, vectors@.subrange(offset as int, offset + DIMS)),
{
    let ghost r = vectors@.subrange(offset as int, offset + DIMS);
    let n = vectors.len();
    let mut acc: u64 = 0;
    let mut i: usize = 0;
    while i < DIMS
        invariant
            i <= DIMS,
            offset + DIMS <= vectors@.len(),
            n == vectors@.len(),
            r == vectors@.subrange(offset as int, offset + DIMS),
            acc == sq_dist(query@, r, i as int),
        decreases DIMS - i,
    {
        proof {
            lemma_sq_dist_bound(query@, r, i as int);
        }
        assert(r[i as int] == vectors@[offset + i]);
        acc = acc + sq_diff(query[i], vectors[offset + i]);
        i = i + 1;
    }
    acc
}

/// Hash of a quantized query: the digits `q[0..DIMS]` read in base 131, modulo
/// the word size.
pub open spec fn seed_prefix(q: Seq<u16>, n: int) -> usize
    decreases n,
{
    if n <= 0 {
        0
    } else {
        vstd::wrapping::usize_specs::wrapping_add(
            vstd::wrapping::usize_specs::wrapping_mul(seed_prefix(q, n - 1), 131),
            q[n - 1] as usize,
        )
    }
}

pub open spec fn spec_query_seed(q: Seq<u16>) -> usize {
    seed_prefix(q, DIMS as int)
}

pub fn query_seed(query_q: &[u16; DIMS]) -> (seed: usize)
    ensures
        seed == spec_query_seed(query_q@),
{
    let mut seed: usize = 0;
    let mut i: usize = 0;
    while i < DIMS
        invariant
            i <= DIMS,
            seed == seed_prefix(query_q@, i as int),
        decreases DIMS - i,
    {
        seed = seed.wrapping_mul(131).wrapping_add(query_q[i] as usize);
        i = i + 1;
    }
    seed
}

/// The six bucketed features of a quantized query: amount bucket, presence of
/// a previous transaction, online, card present, unknown merchant, MCC bucket.
pub open spec fn spec_query_shape(q: Seq<u16>) -> (int, int, int, int, int, int) {
    (
        spec_normalized_bucket(q[0], AMOUNT_BUCKETS as int),
        if q[5] == 0 { 0 } else { 1 },
        spec_bool_bucket(q[9]),
        spec_bool_bucket(q[10]),
        spec_bool_bucket(q[11]),
        spec_normalized_bucket(q[12], MCC_BUCKETS as int),
    )
}

/// The six bucketed features of a quantized query; their bucket key is the
/// query's own bucket key.
pub fn query_shape(query_q: &[u16; DIMS]) -> (r: (usize, usize, usize, usize, usize, usize))
    ensures
        spec_bucket_key(r.1 as int, r.2 as int, r.3 as int, r.4 as int, r.5 as int, r.0 as int)
            == spec_vector_bucket_key(query_q@),
        (r.0 as int, r.1 as int, r.2 as int, r.3 as int, r.4 as int, r.5 as int)
            == spec_query_shape(query_q@),
        parts_in_range(r.1 as int, r.2 as int, r.3 as int, r.4 as int, r.5 as int, r.0 as int),
{
    (
        normalized_bucket(query_q[0], AMOUNT_BUCKETS),
        if query_q[5] == 0 { 0 } else { 1 },
        bool_bucket(query_q[9]),
        bool_bucket(query_q[10]),
        bool_bucket(query_q[11]),
        normalized_bucket(query_q[12], MCC_BUCKETS),
    )
}

} // verus!

verus! {

/// Bucket keys for amount bucket `a` and MCC buckets `m_start..m_stop`, with the
/// boolean features `flags` = (has_last, is_online, card_present, unknown_merchant).
pub open spec fn mcc_row(flags: (int, int, int, int), a: int, m_start: int, m_stop: int) -> Seq<
    usize,
> {
    Seq::new(
        (m_stop - m_start) as nat,
        |j: int| spec_bucket_key(flags.0, flags.1, flags.2, flags.3, m_start + j, a) as usize,
    )
}

/// Bucket keys for amount buckets `a_start..a_stop` (outer) and MCC buckets
/// `m_start..=m_end` (inner).
pub open spec fn amount_rows(
    flags: (int, int, int, int),
    a_start: int,
    a_stop: int,
    m_start: int,
    m_end: int,
) -> Seq<usize>
    decreases a_stop - a_start,
{
    if a_stop <= a_start {
        Seq::empty()
    } else {
        amount_rows(flags, a_start, a_stop - 1, m_start, m_end) + mcc_row(
            flags,
            a_stop - 1,
            m_start,
            m_end + 1,
        )
    }
}

pub open spec fn flags_in_range(flags: (int, int, int, int)) -> bool {
    &&& 0 <= flags.0 < 2
    &&& 0 <= flags.1 < 2
    &&& 0 <= flags.2 < 2
    &&& 0 <= flags.3 < 2
}

/// The keys of a rectangle of amount and MCC buckets are distinct bucket keys,
/// one per (amount, MCC) pair.
pub proof fn lemma_amount_rows(
    flags: (int, int, int, int),
    a_start: int,
    a_stop: int,
    m_start: int,
    m_end: int,
)
    requires
        flags_in_range(flags),
        0 <= a_start <= a_stop <= AMOUNT_BUCKETS,
        0 <= m_start <= m_end < MCC_BUCKETS,
    ensures
        amount_rows(flags, a_start, a_stop, m_start, m_end).len() == (a_stop - a_start) * (m_end
            - m_start + 1),
        distinct_keys(amount_rows(flags, a_start, a_stop, m_start, m_end)),
        forall|i: int|
            0 <= i < amount_rows(flags, a_start, a_stop, m_start, m_end).len() ==> {
                let e = #[trigger] amount_rows(flags, a_start, a_stop, m_start, m_end)[i];
                &&& a_start <= e % 16 < a_stop
                &&& m_start <= (e / 16) % 8 <= m_end
                &&& e == spec_bucket_key(flags.0, flags.1, flags.2, flags.3, (e as int / 16) % 8, e as int % 16)
            },
    decreases a_stop - a_start,
{
    let rows = amount_rows(flags, a_start, a_stop, m_start, m_end);
    if a_stop > a_start {
        let prev = amount_rows(flags, a_start, a_stop - 1, m_start, m_end);
        let row = mcc_row(flags, a_stop - 1, m_start, m_end + 1);
        lemma_amount_rows(flags, a_start, a_stop - 1, m_start, m_end);
        assert forall|j: int| 0 <= j < row.len() implies {
            let e = #[trigger] row[j];
            &&& e < TOTAL_BUCKETS
            &&& e % 16 == a_stop - 1
            &&& (e / 16) % 8 == m_start + j
            &&& e == spec_bucket_key(flags.0, flags.1, flags.2, flags.3, m_start + j, a_stop - 1)
        } by {
            lemma_bucket_key_decodes(flags.0, flags.1, flags.2, flags.3, m_start + j, a_stop - 1);
        }
        assert(rows == prev + row);
        assert(prev.len() == (a_stop - 1 - a_start) * (m_end - m_start + 1));
        assert(rows.len() == (a_stop - a_start) * (m_end - m_start + 1)) by (nonlinear_arith)
            requires
                rows.len() == prev.len() + row.len(),
                prev.len() == (a_stop - 1 - a_start) * (m_end - m_start + 1),
                row.len() == m_end - m_start + 1,
        ;
        assert forall|i: int| 0 <= i < rows.len() implies #[trigger] rows[i] < TOTAL_BUCKETS
            && a_start <= rows[i] % 16 < a_stop && m_start <= (rows[i] / 16) % 8 <= m_end
            && rows[i] == spec_bucket_key(
            flags.0,
            flags.1,
            flags.2,
            flags.3,
            (rows[i] as int / 16) % 8,
            rows[i] as int % 16,
        ) by {
            if i < prev.len() {
                assert(rows[i] == prev[i]);
            } else {
                assert(rows[i] == row[i - prev.len()]);
            }
        }
        assert forall|i: int, j: int| 0 <= i < j < rows.len() implies rows[i] != rows[j] by {
            if j < prev.len() {
                assert(rows[i] == prev[i] && rows[j] == prev[j]);
            } else if i < prev.len() {
                assert(rows[i] == prev[i] && rows[j] == row[j - prev.len()]);
                assert(prev[i] % 16 < a_stop - 1);
            } else {
                assert(rows[i] == row[i - prev.len()] && rows[j] == row[j - prev.len()]);
            }
        }
    } else {
        assert((a_stop - a_start) * (m_end - m_start + 1) == 0) by (nonlinear_arith)
            requires a_stop == a_start;
    }
}

/// Keys of the buckets with the given boolean features whose amount bucket lies
/// in `amount_start..=amount_end` and MCC bucket in `mcc_start..=mcc_end`, amount-major.
pub fn collect_bucket_keys(
    amount_start: usize,
    amount_end: usize,
    mcc_start: usize,
    mcc_end: usize,
    has_last: usize,
    is_online: usize,
    card_present: usize,
    unknown_merchant: usize,
) -> (keys: Vec<usize>)
    requires
        amount_start <= amount_end < AMOUNT_BUCKETS,
        mcc_start <= mcc_end < MCC_BUCKETS,
        flags_in_range(
            (has_last as int, is_online as int, card_present as int, unknown_merchant as int),
        ),
    ensures
        keys@ == amount_rows(
            (has_last as int, is_online as int, card_present as int, unknown_merchant as int),
            amount_start as int,
            amount_end + 1,
            mcc_start as int,
            mcc_end as int,
        ),
        distinct_keys(keys@),
        keys@.len() == (amount_end - amount_start + 1) * (mcc_end - mcc_start + 1),
{
    let ghost flags = (
        has_last as int,
        is_online as int,
        card_present as int,
        unknown_merchant as int,
    );
    let mut bucket_keys: Vec<usize> = Vec::new();
    let mut amount = amount_start;
    while amount <= amount_end
        invariant
            amount_start <= amount <= amount_end + 1,
            amount_end < AMOUNT_BUCKETS,
            mcc_start <= mcc_end < MCC_BUCKETS,
            flags_in_range(flags),
            flags == (has_last as int, is_online as int, card_present as int, unknown_merchant as int),
            bucket_keys@ == amount_rows(
                flags,
                amount_start as int,
                amount as int,
                mcc_start as int,
                mcc_end as int,
            ),
        decreases amount_end + 1 - amount,
    {
        let mut mcc = mcc_start;
        while mcc <= mcc_end
            invariant
                amount_start <= amount <= amount_end,
                amount_end < AMOUNT_BUCKETS,
                mcc_start <= mcc <= mcc_end + 1,
                mcc_end < MCC_BUCKETS,
                flags_in_range(flags),
                flags == (has_last as int, is_online as int, card_present as int, unknown_merchant as int),
                bucket_keys@ == amount_rows(
                    flags,
                    amount_start as int,
                    amount as int,
                    mcc_start as int,
                    mcc_end as int,
                ) + mcc_row(flags, amount as int, mcc_start as int, mcc as int),
            decreases mcc_end + 1 - mcc,
        {
            proof {
                lemma_bucket_key_decodes(
                    has_last as int,
                    is_online as int,
                    card_present as int,
                    unknown_merchant as int,
                    mcc as int,
                    amount as int,
                );
            }
            let key = bucket_key_from_parts(
                has_last,
                is_online,
                card_present,
                unknown_merchant,
                mcc,
                amount,
            );
            bucket_keys.push(key);
            assert(mcc_row(flags, amount as int, mcc_start as int, mcc + 1) =~= mcc_row(
                flags,
                amount as int,
                mcc_start as int,
                mcc as int,
            ).push(key));
            mcc = mcc + 1;
        }
        amount = amount + 1;
    }
    proof {
        lemma_amount_rows(flags, amount_start as int, amount_end + 1, mcc_start as int, mcc_end as int);
    }
    bucket_keys
}

} // verus!

verus! {

/// The entries of `c` at positions `pos`, `pos + step`, `pos + 2 * step`, ...
pub open spec fn strided(c: Seq<u32>, pos: int, step: int) -> Seq<u32>
    decreases if 0 <= pos < c.len() { c.len() - pos } else { 0 },
{
    if step <= 0 || pos < 0 || pos >= c.len() {
        Seq::empty()
    } else {
        seq![c[pos]] + strided(c, pos + step, step)
    }
}

/// The first `n` entries of `s` (all of them when `s` is shorter).
pub open spec fn prefix<A>(s: Seq<A>, n: int) -> Seq<A> {
    if n >= s.len() {
        s
    } else if n <= 0 {
        Seq::empty()
    } else {
        s.take(n)
    }
}

/// Position of the first candidate visited in a bucket of `len` entries, the
/// `bucket_idx`-th of a probe that takes every `step`-th candidate.
pub open spec fn probe_start(len: int, step: usize, seed: usize, bucket_idx: usize) -> int {
    if step == 1 {
        0
    } else if len <= step {
        seed as int % len
    } else {
        vstd::wrapping::usize_specs::wrapping_add(seed, bucket_idx) as int % step as int
    }
}

/// Every candidate a probe with the given step and seed visits in the buckets
/// named by `keys`, in order (before the candidate budget cuts it short).
pub open spec fn probe_order(buckets: Seq<Vec<u32>>, keys: Seq<usize>, step: usize, seed: usize) -> Seq<
    u32,
>
    decreases keys.len(),
{
    if keys.len() == 0 {
        Seq::empty()
    } else {
        let b = keys.len() - 1;
        let c = buckets[keys[b] as int]@;
        probe_order(buckets, keys.drop_last(), step, seed) + strided(
            c,
            probe_start(c.len() as int, step, seed, b as usize),
            step as int,
        )
    }
}

/// Stride that keeps a probe over `total` candidates within `max_candidates`.
pub open spec fn probe_step(total: int, max_candidates: int) -> int {
    if total > max_candidates {
        total / max_candidates
    } else {
        1
    }
}

/// Seed of a probe of query `q` in the given phase.
pub open spec fn probe_seed(q: Seq<u16>, phase: usize) -> usize {
    vstd::wrapping::usize_specs::wrapping_add(
        spec_query_seed(q),
        vstd::wrapping::usize_specs::wrapping_mul(phase, 1_000_003),
    )
}

/// The references that a probe of the buckets `keys` visits: every
/// `probe_step`-th candidate of each bucket from its start position, at most
/// `max_candidates` in all.
pub open spec fn probe_visits(
    q: Seq<u16>,
    ds: Dataset,
    keys: Seq<usize>,
    max_candidates: usize,
    phase: usize,
) -> Seq<u32> {
    let total = candidate_count(ds.buckets@, keys);
    prefix(
        probe_order(
            ds.buckets@,
            keys,
            probe_step(total, max_candidates as int) as usize,
            probe_seed(q, phase),
        ),
        max_candidates as int,
    )
}

/// Outcome of a probe: the five nearest among the visited references.
pub open spec fn spec_probe_keys(
    q: Seq<u16>,
    ds: Dataset,
    keys: Seq<usize>,
    max_candidates: usize,
    phase: usize,
) -> TopState {
    offer_all(empty_state(), candidates(q, ds, probe_visits(q, ds, keys, max_candidates, phase)))
}

proof fn lemma_prefix_concat<A>(a: Seq<A>, b: Seq<A>, m: int)
    requires
        m >= 0,
    ensures
        prefix(a + b, m) == prefix(a, m) + prefix(b, m - prefix(a, m).len()),
{
    if m >= a.len() {
        assert(prefix(a + b, m) =~= a + prefix(b, m - a.len()));
    } else {
        assert(prefix(b, m - prefix(a, m).len()) =~= Seq::<A>::empty());
        assert(prefix(a + b, m) =~= prefix(a, m));
    }
}

proof fn lemma_candidates_push(q: Seq<u16>, ds: Dataset, idxs: Seq<u32>, x: u32)
    ensures
        candidates(q, ds, idxs.push(x)) == candidates(q, ds, idxs).push(candidate(q, ds, x as int)),
{
    assert(candidates(q, ds, idxs.push(x)) =~= candidates(q, ds, idxs).push(
        candidate(q, ds, x as int),
    ));
}

} // verus!

verus! {

proof fn lemma_probe_order_empty(buckets: Seq<Vec<u32>>, keys: Seq<usize>, step: usize, seed: usize)
    requires
        candidate_count(buckets, keys) == 0,
    ensures
        probe_order(buckets, keys, step, seed) == Seq::<u32>::empty(),
    decreases keys.len(),
{
    if keys.len() > 0 {
        lemma_candidate_count_nonneg(buckets, keys.drop_last());
        lemma_probe_order_empty(buckets, keys.drop_last(), step, seed);
        let b = keys.len() - 1;
        let c = buckets[keys[b] as int]@;
        assert(strided(c, probe_start(c.len() as int, step, seed, b as usize), step as int)
            =~= Seq::<u32>::empty());
        assert(probe_order(buckets, keys, step, seed) =~= Seq::<u32>::empty());
    }
}

proof fn lemma_candidate_count_prefix(buckets: Seq<Vec<u32>>, keys: Seq<usize>, b: int)
    requires
        0 <= b <= keys.len(),
    ensures
        0 <= candidate_count(buckets, keys.take(b)) <= candidate_count(buckets, keys),
    decreases keys.len(),
{
    lemma_candidate_count_nonneg(buckets, keys.take(b));
    if b == keys.len() {
        assert(keys.take(b) =~= keys);
    } else {
        lemma_candidate_count_prefix(buckets, keys.drop_last(), b);
        assert(keys.drop_last().take(b) =~= keys.take(b));
    }
}

/// Number of candidates listed by the buckets named in `bucket_keys`
/// (a bucket named twice counts twice).
pub fn total_candidates(dataset: &Dataset, bucket_keys: &[usize]) -> (total: usize)
    requires
        dataset.wf(),
        keys_in_range(bucket_keys@),
        2 * candidate_count(dataset.buckets@, bucket_keys@) <= usize::MAX,
    ensures
        total == candidate_count(dataset.buckets@, bucket_keys@),
{
    let mut total: usize = 0;
    let mut b: usize = 0;
    while b < bucket_keys.len()
        invariant
            dataset.wf(),
            keys_in_range(bucket_keys@),
            2 * candidate_count(dataset.buckets@, bucket_keys@) <= usize::MAX,
            b <= bucket_keys@.len(),
            total == candidate_count(dataset.buckets@, bucket_keys@.take(b as int)),
        decreases bucket_keys@.len() - b,
    {
        proof {
            lemma_candidate_count_prefix(dataset.buckets@, bucket_keys@, b + 1);
            assert(bucket_keys@.take(b + 1).drop_last() =~= bucket_keys@.take(b as int));
        }
        total = total + dataset.buckets[bucket_keys[b]].len();
        b = b + 1;
    }
    assert(bucket_keys@.take(b as int) =~= bucket_keys@);
    total
}

/// Five nearest among the candidates of the buckets `bucket_keys` that a probe
/// visits: every `probe_step`-th one of each bucket from a start position drawn
/// from the query and the phase, at most `max_candidates` in all.
pub fn probe_bucket_keys_with_phase(
    query_q: &[u16; DIMS],
    dataset: &Dataset,
    bucket_keys: &[usize],
    max_candidates: usize,
    phase: usize,
) -> (r: ProbeResult)
    requires
        dataset.wf(),
        keys_in_range(bucket_keys@),
        2 * candidate_count(dataset.buckets@, bucket_keys@) <= usize::MAX,
        candidate_count(dataset.buckets@, bucket_keys@) > 0 ==> max_candidates > 0,
    ensures
        r.wf(),
        r@ == spec_probe_keys(query_q@, *dataset, bucket_keys@, max_candidates, phase),
{
    let ghost q = query_q@;
    let ghost keys = bucket_keys@;
    let total_candidates = total_candidates(dataset, bucket_keys);
    if total_candidates == 0 {
        proof {
            lemma_probe_order_empty(
                dataset.buckets@,
                keys,
                probe_step(0, max_candidates as int) as usize,
                probe_seed(q, phase),
            );
            assert(candidates(q, *dataset, Seq::<u32>::empty()) =~= Seq::<Neighbor>::empty());
        }
        return ProbeResult::empty();
    }
    let step = if total_candidates > max_candidates {
        assert(1 <= total_candidates / max_candidates <= total_candidates) by (nonlinear_arith)
            requires total_candidates > max_candidates, max_candidates > 0;
        total_candidates / max_candidates
    } else {
        1
    };
    let seed = query_seed(query_q).wrapping_add(phase.wrapping_mul(1_000_003));
    let mut top: [Neighbor; 5] = [(u64::MAX, 0), (u64::MAX, 0), (u64::MAX, 0), (u64::MAX, 0), (u64::MAX, 0)];
    let mut filled: usize = 0;
    let mut checked: usize = 0;
    let ghost mut visited: Seq<u32> = Seq::empty();
    proof {
        assert(top@ =~= empty_state().0);
        assert(candidates(q, *dataset, visited) =~= Seq::<Neighbor>::empty());
    }
    let nvec = dataset.vectors.len();
    let mut bucket_idx: usize = 0;
    while bucket_idx < bucket_keys.len()
        invariant
            dataset.wf(),
            nvec == dataset.vectors@.len(),
            q == query_q@,
            keys == bucket_keys@,
            keys_in_range(keys),
            max_candidates > 0,
            1 <= step <= total_candidates,
            2 * total_candidates <= usize::MAX,
            total_candidates == candidate_count(dataset.buckets@, keys),
            step == probe_step(candidate_count(dataset.buckets@, keys), max_candidates as int),
            seed == probe_seed(q, phase),
            bucket_idx <= keys.len(),
            filled <= NEIGHBORS,
            (top@, filled as nat) == offer_all(empty_state(), candidates(q, *dataset, visited)),
            visited == prefix(
                probe_order(dataset.buckets@, keys.take(bucket_idx as int), step, seed),
                max_candidates as int,
            ),
            checked == visited.len(),
            checked <= max_candidates,
        decreases keys.len() - bucket_idx,
    {
        let key = bucket_keys[bucket_idx];
        let bucket = &dataset.buckets[key];
        let ghost c = bucket@;
        let ghost full_b = probe_order(dataset.buckets@, keys.take(bucket_idx as int), step, seed);
        proof {
            lemma_bucket_within_count(dataset.buckets@, keys, bucket_idx as int);
            assert forall|j: int| 0 <= j < c.len() implies #[trigger] c[j] < dataset.len by {
                assert(c[j] == dataset.buckets@[key as int]@[j]);
            }
            assert(keys.take(bucket_idx + 1).drop_last() =~= keys.take(bucket_idx as int));
        }
        let mut pos: usize = if step == 1 {
            0
        } else if bucket.len() <= step {
            if bucket.len() == 0 {
                0
            } else {
                seed % bucket.len()
            }
        } else {
            seed.wrapping_add(bucket_idx) % step
        };
        let ghost start = probe_start(c.len() as int, step, seed, bucket_idx);
        let ghost s = strided(c, start, step as int);
        proof {
            assert(probe_order(dataset.buckets@, keys.take(bucket_idx + 1), step, seed) == full_b
                + s);
            if c.len() == 0 {
                assert(s =~= Seq::<u32>::empty());
            } else {
                assert(pos == start);
            }
            lemma_prefix_concat(full_b, s, max_candidates as int);
        }
        while pos < bucket.len() && checked < max_candidates
            invariant
                dataset.wf(),
                nvec == dataset.vectors@.len(),
                key < TOTAL_BUCKETS,
                q == query_q@,
                c == bucket@,
                c == dataset.buckets@[key as int]@,
                c.len() <= total_candidates,
                2 * total_candidates <= usize::MAX,
                forall|j: int| 0 <= j < c.len() ==> #[trigger] c[j] < dataset.len,
                1 <= step <= total_candidates,
                filled <= NEIGHBORS,
                (top@, filled as nat) == offer_all(empty_state(), candidates(q, *dataset, visited)),
                c.len() > 0 ==> visited + prefix(
                    strided(c, pos as int, step as int),
                    max_candidates - checked,
                ) == prefix(full_b + s, max_candidates as int),
                c.len() == 0 ==> visited == prefix(full_b + s, max_candidates as int),
                checked == visited.len(),
                checked <= max_candidates,
            decreases c.len() + step - pos,
        {
            let idx = bucket[pos] as usize;
            proof {
                assert(idx < dataset.len);
            }
            assert(idx * DIMS + DIMS <= dataset.vectors@.len()) by (nonlinear_arith)
                requires idx < dataset.len, dataset.vectors@.len() >= dataset.len * DIMS;
            let offset = idx * DIMS;
            let dist = distance_squared_quantized(query_q, dataset.vectors.as_slice(), offset);
            let label = dataset.labels[idx];
            update_top5(&mut top, &mut filled, dist, label);
            proof {
                let x = c[pos as int];
                let rest = strided(c, pos + step, step as int);
                assert(strided(c, pos as int, step as int) == seq![x] + rest);
                let r = max_candidates - checked;
                assert(prefix(seq![x] + rest, r) =~= seq![x] + prefix(rest, r - 1));
                assert(visited.push(x) + prefix(rest, r - 1) =~= visited + (seq![x] + prefix(
                    rest,
                    r - 1,
                )));
                lemma_candidates_push(q, *dataset, visited, x);
                assert(candidate(q, *dataset, x as int) == (dist, label));
                lemma_offer_all_push(empty_state(), candidates(q, *dataset, visited), (dist, label));
                visited = visited.push(x);
            }
            checked = checked + 1;
            pos = pos + step;
        }
        proof {
            if c.len() > 0 {
                assert(prefix(strided(c, pos as int, step as int), max_candidates - checked)
                    =~= Seq::<u32>::empty());
                assert(visited + Seq::<u32>::empty() =~= visited);
            }
        }
        bucket_idx = bucket_idx + 1;
    }
    assert(keys.take(keys.len() as int) =~= keys);
    ProbeResult { top, filled }
}

} // verus!

verus! {

/// The boolean features of a query's bucket key.
pub open spec fn query_flags(q: Seq<u16>) -> (int, int, int, int) {
    let s = spec_query_shape(q);
    (s.1, s.2, s.3, s.4)
}

/// Keys of the buckets within `amount_radius` amount buckets and `mcc_radius`
/// MCC buckets of the query's own bucket, sharing its boolean features.
pub open spec fn range_keys(q: Seq<u16>, amount_radius: int, mcc_radius: int) -> Seq<usize> {
    let s = spec_query_shape(q);
    let a_start = if s.0 >= amount_radius { s.0 - amount_radius } else { 0 };
    let a_end = if s.0 + amount_radius < AMOUNT_BUCKETS { s.0 + amount_radius } else { AMOUNT_BUCKETS - 1 };
    let m_start = if s.5 >= mcc_radius { s.5 - mcc_radius } else { 0 };
    let m_end = if s.5 + mcc_radius < MCC_BUCKETS { s.5 + mcc_radius } else { MCC_BUCKETS - 1 };
    amount_rows(query_flags(q), a_start, a_end + 1, m_start, m_end)
}

/// Keys of every bucket sharing the query's boolean features.
pub open spec fn bool_slice_keys(q: Seq<u16>) -> Seq<usize> {
    amount_rows(query_flags(q), 0, AMOUNT_BUCKETS as int, 0, MCC_BUCKETS - 1)
}

/// Probes the buckets within `amount_radius` amount buckets and `mcc_radius`
/// MCC buckets of the query's own, sharing its boolean features.
pub fn probe_bucket_range_with_phase(
    query_q: &[u16; DIMS],
    dataset: &Dataset,
    amount_radius: usize,
    mcc_radius: usize,
    max_candidates: usize,
    phase: usize,
) -> (r: ProbeResult)
    requires
        dataset.wf(),
        candidate_count(
            dataset.buckets@,
            range_keys(query_q@, amount_radius as int, mcc_radius as int),
        ) > 0 ==> max_candidates > 0,
        spec_query_shape(query_q@).0 + amount_radius <= usize::MAX,
        spec_query_shape(query_q@).5 + mcc_radius <= usize::MAX,
    ensures
        r.wf(),
        r@ == spec_probe_keys(
            query_q@,
            *dataset,
            range_keys(query_q@, amount_radius as int, mcc_radius as int),
            max_candidates,
            phase,
        ),
{
    let (amount_bucket, has_last, is_online, card_present, unknown_merchant, mcc_bucket) =
        query_shape(query_q);
    let amount_start = amount_bucket.saturating_sub(amount_radius);
    let amount_end = if amount_bucket + amount_radius < AMOUNT_BUCKETS - 1 {
        amount_bucket + amount_radius
    } else {
        AMOUNT_BUCKETS - 1
    };
    let mcc_start = mcc_bucket.saturating_sub(mcc_radius);
    let mcc_end = if mcc_bucket + mcc_radius < MCC_BUCKETS - 1 {
        mcc_bucket + mcc_radius
    } else {
        MCC_BUCKETS - 1
    };
    let bucket_keys = collect_bucket_keys(
        amount_start,
        amount_end,
        mcc_start,
        mcc_end,
        has_last,
        is_online,
        card_present,
        unknown_merchant,
    );
    proof {
        lemma_candidate_count_bound(dataset, bucket_keys@);
    }
    probe_bucket_keys_with_phase(query_q, dataset, bucket_keys.as_slice(), max_candidates, phase)
}

/// Probes every bucket that shares the query's boolean features.
pub fn probe_bool_slice_with_phase(
    query_q: &[u16; DIMS],
    dataset: &Dataset,
    max_candidates: usize,
    phase: usize,
) -> (r: ProbeResult)
    requires
        dataset.wf(),
        candidate_count(dataset.buckets@, bool_slice_keys(query_q@)) > 0 ==> max_candidates > 0,
    ensures
        r.wf(),
        r@ == spec_probe_keys(query_q@, *dataset, bool_slice_keys(query_q@), max_candidates, phase),
{
    let (_, has_last, is_online, card_present, unknown_merchant, _) = query_shape(query_q);
    let bucket_keys = collect_bucket_keys(
        0,
        AMOUNT_BUCKETS - 1,
        0,
        MCC_BUCKETS - 1,
        has_last,
        is_online,
        card_present,
        unknown_merchant,
    );
    proof {
        lemma_candidate_count_bound(dataset, bucket_keys@);
    }
    probe_bucket_keys_with_phase(query_q, dataset, bucket_keys.as_slice(), max_candidates, phase)
}

/// Outcome of scanning the dataset's global sample.
pub open spec fn spec_global_sample(q: Seq<u16>, ds: Dataset) -> TopState {
    offer_all(empty_state(), candidates(q, ds, ds.global_sample@))
}

/// Scans a list of reference indices in order, keeping the five nearest.
fn scan_indices(query_q: &[u16; DIMS], dataset: &Dataset, idxs: &[u32]) -> (r: ProbeResult)
    requires
        dataset.wf(),
        forall|g: int| 0 <= g < idxs@.len() ==> #[trigger] idxs@[g] < dataset.len,
    ensures
        r.wf(),
        r@ == offer_all(empty_state(), candidates(query_q@, *dataset, idxs@)),
{
    let ghost q = query_q@;
    let mut top: [Neighbor; 5] = [(u64::MAX, 0), (u64::MAX, 0), (u64::MAX, 0), (u64::MAX, 0), (u64::MAX, 0)];
    let mut filled: usize = 0;
    let nvec = dataset.vectors.len();
    proof {
        assert(top@ =~= empty_state().0);
        assert(candidates(q, *dataset, idxs@.take(0)) =~= Seq::<Neighbor>::empty());
    }
    let mut g: usize = 0;
    while g < idxs.len()
        invariant
            dataset.wf(),
            nvec == dataset.vectors@.len(),
            q == query_q@,
            forall|g: int| 0 <= g < idxs@.len() ==> #[trigger] idxs@[g] < dataset.len,
            g <= idxs@.len(),
            filled <= NEIGHBORS,
            (top@, filled as nat) == offer_all(
                empty_state(),
                candidates(q, *dataset, idxs@.take(g as int)),
            ),
        decreases idxs@.len() - g,
    {
        let idx = idxs[g] as usize;
        assert(idx * DIMS + DIMS <= dataset.vectors@.len()) by (nonlinear_arith)
            requires idx < dataset.len, dataset.vectors@.len() >= dataset.len * DIMS;
        let offset = idx * DIMS;
        let dist = distance_squared_quantized(query_q, dataset.vectors.as_slice(), offset);
        let label = dataset.labels[idx];
        update_top5(&mut top, &mut filled, dist, label);
        proof {
            assert(idxs@.take(g + 1) =~= idxs@.take(g as int).push(idxs@[g as int]));
            lemma_candidates_push(q, *dataset, idxs@.take(g as int), idxs@[g as int]);
            lemma_offer_all_push(
                empty_state(),
                candidates(q, *dataset, idxs@.take(g as int)),
                (dist, label),
            );
        }
        g = g + 1;
    }
    assert(idxs@.take(g as int) =~= idxs@);
    ProbeResult { top, filled }
}

/// Scans the dataset's global sample.
pub fn probe_global_sample(query_q: &[u16; DIMS], dataset: &Dataset) -> (r: ProbeResult)
    requires
        dataset.wf(),
    ensures
        r.wf(),
        r@ == spec_global_sample(query_q@, *dataset),
{
    scan_indices(query_q, dataset, dataset.global_sample.as_slice())
}

} // verus!

verus! {

/// The value of an optional score, or `d` when there is none.
pub open spec fn score_or(s: Option<nat>, d: nat) -> nat {
    match s {
        Some(v) => v,
        None => d,
    }
}

/// Outcome of probing the buckets around the query.
pub open spec fn spec_probe_range(
    q: Seq<u16>,
    ds: Dataset,
    amount_radius: int,
    mcc_radius: int,
    max_candidates: usize,
    phase: usize,
) -> TopState {
    spec_probe_keys(q, ds, range_keys(q, amount_radius, mcc_radius), max_candidates, phase)
}

/// Outcome of probing every bucket that shares the query's boolean features.
pub open spec fn spec_probe_bool_slice(q: Seq<u16>, ds: Dataset, phase: usize) -> TopState {
    spec_probe_keys(q, ds, bool_slice_keys(q), BOOL_SLICE_MAX_CANDIDATES_PER_QUERY, phase)
}

/// Fraud count of the bounded search: the primary probe decides unless its
/// count is the borderline 2 or 3 (of 5); a borderline primary is settled by
/// the expanded probe; a primary with fewer than five candidates falls back to
/// the boolean slice, then to the global sample (0 when even that has fewer
/// than five).
pub open spec fn spec_score_v1(q: Seq<u16>, ds: Dataset) -> nat {
    let primary = spec_probe_range(q, ds, 0, 1, PRIMARY_MAX_CANDIDATES_PER_QUERY, 0);
    let expanded = spec_probe_range(q, ds, 1, 1, EXPANDED_MAX_CANDIDATES_PER_QUERY, 0);
    let bool_slice = spec_probe_bool_slice(q, ds, 0);
    match state_score(primary) {
        Some(s) if s != 2 && s != 3 => s,
        Some(s) => score_or(state_score(expanded), s),
        None => match state_score(bool_slice) {
            Some(s) => s,
            None => score_or(state_score(spec_global_sample(q, ds)), 0),
        },
    }
}

/// Fraud count of the improved bounded search: as `spec_score_v1`, except that
/// a count of 3 from the expanded probe or from the boolean slice is re-checked
/// by merging in a second probe of the same buckets with another phase.
pub open spec fn spec_score_v2(q: Seq<u16>, ds: Dataset) -> nat {
    let primary = spec_probe_range(q, ds, 0, 1, PRIMARY_MAX_CANDIDATES_PER_QUERY, 0);
    let expanded = spec_probe_range(q, ds, 1, 1, EXPANDED_MAX_CANDIDATES_PER_QUERY, 0);
    let expanded2 = spec_probe_range(q, ds, 1, 1, EXPANDED_MAX_CANDIDATES_PER_QUERY, 1);
    let bool_slice = spec_probe_bool_slice(q, ds, 0);
    let bool_slice2 = spec_probe_bool_slice(q, ds, 1);
    match state_score(primary) {
        Some(s) if s != 2 && s != 3 => s,
        Some(s) => if state_score(expanded) == Some(3nat) {
            score_or(state_score(offer_all(expanded, kept(expanded2))), s)
        } else {
            score_or(state_score(expanded), s)
        },
        None => if state_score(bool_slice) == Some(3nat) {
            score_or(state_score(offer_all(bool_slice, kept(bool_slice2))), 0)
        } else {
            match state_score(bool_slice) {
                Some(s) => s,
                None => score_or(state_score(spec_global_sample(q, ds)), 0),
            }
        },
    }
}

pub fn score_or_default(r: ProbeResult, default: usize) -> (s: usize)
    requires
        r.wf(),
    ensures
        s == score_or(state_score(r@), default as nat),
{
    match r.score() {
        Some(s) => s,
        None => default,
    }
}

/// Fraud count of the bounded search, as `spec_score_v1` describes it.
pub fn score_with_bounded_search_v1(query_q: &[u16; DIMS], dataset: &Dataset) -> (s: usize)
    requires
        dataset.wf(),
    ensures
        s == spec_score_v1(query_q@, *dataset),
{
    let primary = probe_bucket_range_with_phase(
        query_q,
        dataset,
        0,
        1,
        PRIMARY_MAX_CANDIDATES_PER_QUERY,
        0,
    );
    if let Some(score) = primary.score() {
        if score != 2 && score != 3 {
            return score;
        }
    }
    if primary.filled >= NEIGHBORS {
        let primary_score = score_or_default(primary, 0);
        return score_or_default(
            probe_bucket_range_with_phase(
                query_q,
                dataset,
                1,
                1,
                EXPANDED_MAX_CANDIDATES_PER_QUERY,
                0,
            ),
            primary_score,
        );
    }
    if let Some(score) = probe_bool_slice_with_phase(
        query_q,
        dataset,
        BOOL_SLICE_MAX_CANDIDATES_PER_QUERY,
        0,
    ).score() {
        return score;
    }
    score_or_default(probe_global_sample(query_q, dataset), 0)
}

/// Fraud count of the improved bounded search, as `spec_score_v2` describes it.
pub fn score_with_bounded_search_v2(query_q: &[u16; DIMS], dataset: &Dataset) -> (s: usize)
    requires
        dataset.wf(),
    ensures
        s == spec_score_v2(query_q@, *dataset),
{
    let primary = probe_bucket_range_with_phase(
        query_q,
        dataset,
        0,
        1,
        PRIMARY_MAX_CANDIDATES_PER_QUERY,
        0,
    );
    if let Some(score) = primary.score() {
        if score != 2 && score != 3 {
            return score;
        }
    }
    if primary.filled >= NEIGHBORS {
        let primary_score = score_or_default(primary, 0);
        let expanded = probe_bucket_range_with_phase(
            query_q,
            dataset,
            1,
            1,
            EXPANDED_MAX_CANDIDATES_PER_QUERY,
            0,
        );
        if expanded.score() == Some(3usize) {
            return score_or_default(
                merge_probe_results(
                    expanded,
                    probe_bucket_range_with_phase(
                        query_q,
                        dataset,
                        1,
                        1,
                        EXPANDED_MAX_CANDIDATES_PER_QUERY,
                        1,
                    ),
                ),
                primary_score,
            );
        }
        return score_or_default(expanded, primary_score);
    }
    let bool_slice = probe_bool_slice_with_phase(
        query_q,
        dataset,
        BOOL_SLICE_MAX_CANDIDATES_PER_QUERY,
        0,
    );
    if bool_slice.score() == Some(3usize) {
        return score_or_default(
            merge_probe_results(
                bool_slice,
                probe_bool_slice_with_phase(query_q, dataset, BOOL_SLICE_MAX_CANDIDATES_PER_QUERY, 1),
            ),
            0,
        );
    }
    if let Some(score) = bool_slice.score() {
        return score;
    }
    score_or_default(probe_global_sample(query_q, dataset), 0)
}

} // verus!

verus! {

/// Every candidate of the buckets named by `keys`, bucket after bucket.
pub open spec fn all_candidates(buckets: Seq<Vec<u32>>, keys: Seq<usize>) -> Seq<u32>
    decreases keys.len(),
{
    if keys.len() == 0 {
        Seq::empty()
    } else {
        all_candidates(buckets, keys.drop_last()) + buckets[keys.last() as int]@
    }
}

/// The entries of `s` at positions divisible by `step`.
pub open spec fn every_nth(s: Seq<u32>, step: int) -> Seq<u32>
    decreases s.len(),
{
    if s.len() == 0 {
        Seq::empty()
    } else {
        every_nth(s.drop_last(), step) + if (s.len() - 1) % step == 0 {
            seq![s.last()]
        } else {
            Seq::empty()
        }
    }
}

/// The references the legacy search visits in the buckets `keys`: every
/// `step`-th candidate counted across all the buckets, at most
/// `LEGACY_MAX_CANDIDATES_PER_QUERY` of them.
pub open spec fn legacy_visits(buckets: Seq<Vec<u32>>, keys: Seq<usize>) -> Seq<u32> {
    let total = candidate_count(buckets, keys);
    prefix(
        every_nth(
            all_candidates(buckets, keys),
            probe_step(total, LEGACY_MAX_CANDIDATES_PER_QUERY as int),
        ),
        LEGACY_MAX_CANDIDATES_PER_QUERY as int,
    )
}

/// Legacy fraud count over the buckets around the query: nothing when they hold
/// fewer than five candidates.
pub open spec fn spec_legacy_range(
    q: Seq<u16>,
    ds: Dataset,
    amount_radius: int,
    mcc_radius: int,
) -> Option<nat> {
    let keys = range_keys(q, amount_radius, mcc_radius);
    if candidate_count(ds.buckets@, keys) < NEIGHBORS {
        None
    } else {
        state_score(offer_all(empty_state(), candidates(q, ds, legacy_visits(ds.buckets@, keys))))
    }
}

proof fn lemma_every_nth_push(s: Seq<u32>, x: u32, step: int)
    ensures
        every_nth(s.push(x), step) == every_nth(s, step) + if (s.len() as int) % step == 0 {
            seq![x]
        } else {
            Seq::empty()
        },
{
    assert(s.push(x).drop_last() =~= s);
}

proof fn lemma_every_nth_prefix(s: Seq<u32>, n: int, step: int)
    requires
        0 <= n <= s.len(),
    ensures
        every_nth(s.take(n), step).len() <= every_nth(s, step).len(),
        every_nth(s, step).take(every_nth(s.take(n), step).len() as int) == every_nth(s.take(n), step),
    decreases s.len(),
{
    if n == s.len() {
        assert(s.take(n) =~= s);
    } else {
        lemma_every_nth_prefix(s.drop_last(), n, step);
        assert(s.drop_last().take(n) =~= s.take(n));
        let a = every_nth(s.drop_last(), step);
        let t = every_nth(s.take(n), step);
        assert(every_nth(s, step).take(t.len() as int) =~= a.take(t.len() as int));
    }
}

proof fn lemma_all_candidates_prefix(buckets: Seq<Vec<u32>>, keys: Seq<usize>, b: int)
    requires
        0 <= b <= keys.len(),
    ensures
        all_candidates(buckets, keys.take(b)).len() <= all_candidates(buckets, keys).len(),
        all_candidates(buckets, keys).take(all_candidates(buckets, keys.take(b)).len() as int)
            == all_candidates(buckets, keys.take(b)),
    decreases keys.len(),
{
    if b == keys.len() {
        assert(keys.take(b) =~= keys);
    } else {
        lemma_all_candidates_prefix(buckets, keys.drop_last(), b);
        assert(keys.drop_last().take(b) =~= keys.take(b));
        let a = all_candidates(buckets, keys.drop_last());
        let t = all_candidates(buckets, keys.take(b));
        assert(all_candidates(buckets, keys).take(t.len() as int) =~= a.take(t.len() as int));
    }
}

proof fn lemma_all_candidates_members(buckets: Seq<Vec<u32>>, keys: Seq<usize>)
    ensures
        all_candidates(buckets, keys).len() == candidate_count(buckets, keys),
    decreases keys.len(),
{
    if keys.len() > 0 {
        lemma_all_candidates_members(buckets, keys.drop_last());
    }
}

proof fn lemma_bucket_within_count(buckets: Seq<Vec<u32>>, keys: Seq<usize>, i: int)
    requires
        0 <= i < keys.len(),
    ensures
        buckets[keys[i] as int]@.len() <= candidate_count(buckets, keys),
    decreases keys.len(),
{
    lemma_candidate_count_nonneg(buckets, keys.drop_last());
    if i < keys.len() - 1 {
        lemma_bucket_within_count(buckets, keys.drop_last(), i);
        assert(keys.drop_last()[i] == keys[i]);
    }
}

/// When the first `m` selected entries of a prefix are known, the longer
/// sequence selects the same first `m`.
proof fn lemma_prefix_of_prefix(short: Seq<u32>, long: Seq<u32>, m: int)
    requires
        0 <= m,
        short.len() <= long.len(),
        long.take(short.len() as int) == short,
        short.len() >= m,
    ensures
        prefix(long, m) == prefix(short, m),
{
    if m < short.len() {
        assert(long.take(m) =~= short.take(m));
    } else {
        assert(long.take(m) =~= short);
    }
}

/// Legacy fraud count over the buckets around the query, as
/// `spec_legacy_range` describes it.
pub fn fraud_score_bucket_range_legacy(
    query_q: &[u16; DIMS],
    dataset: &Dataset,
    amount_radius: usize,
    mcc_radius: usize,
) -> (r: Option<usize>)
    requires
        dataset.wf(),
        spec_query_shape(query_q@).0 + amount_radius <= usize::MAX,
        spec_query_shape(query_q@).5 + mcc_radius <= usize::MAX,
    ensures
        r matches Some(s) ==> spec_legacy_range(
            query_q@,
            *dataset,
            amount_radius as int,
            mcc_radius as int,
        ) == Some(s as nat),
        r is None ==> spec_legacy_range(
            query_q@,
            *dataset,
            amount_radius as int,
            mcc_radius as int,
        ) is None,
{
    let ghost q = query_q@;
    let (amount_bucket, has_last, is_online, card_present, unknown_merchant, mcc_bucket) =
        query_shape(query_q);
    let amount_start = amount_bucket.saturating_sub(amount_radius);
    let amount_end = if amount_bucket + amount_radius < AMOUNT_BUCKETS - 1 {
        amount_bucket + amount_radius
    } else {
        AMOUNT_BUCKETS - 1
    };
    let mcc_start = mcc_bucket.saturating_sub(mcc_radius);
    let mcc_end = if mcc_bucket + mcc_radius < MCC_BUCKETS - 1 {
        mcc_bucket + mcc_radius
    } else {
        MCC_BUCKETS - 1
    };
    let bucket_keys = collect_bucket_keys(
        amount_start,
        amount_end,
        mcc_start,
        mcc_end,
        has_last,
        is_online,
        card_present,
        unknown_merchant,
    );
    let ghost keys = bucket_keys@;
    proof {
        lemma_candidate_count_bound(dataset, keys);
    }
    let total_candidates = total_candidates(dataset, bucket_keys.as_slice());
    if total_candidates < NEIGHBORS {
        return None;
    }
    let step = if total_candidates > LEGACY_MAX_CANDIDATES_PER_QUERY {
        assert(1 <= total_candidates / LEGACY_MAX_CANDIDATES_PER_QUERY <= total_candidates)
            by (nonlinear_arith)
            requires total_candidates > LEGACY_MAX_CANDIDATES_PER_QUERY;
        total_candidates / LEGACY_MAX_CANDIDATES_PER_QUERY
    } else {
        1
    };
    let ghost all = all_candidates(dataset.buckets@, keys);
    let mut top: [Neighbor; 5] = [(u64::MAX, 0), (u64::MAX, 0), (u64::MAX, 0), (u64::MAX, 0), (u64::MAX, 0)];
    let mut filled: usize = 0;
    let mut checked: usize = 0;
    let mut global_pos: usize = 0;
    let ghost mut visited: Seq<u32> = Seq::empty();
    let ghost mut processed: Seq<u32> = Seq::empty();
    let nvec = dataset.vectors.len();
    proof {
        assert(top@ =~= empty_state().0);
        assert(candidates(q, *dataset, visited) =~= Seq::<Neighbor>::empty());
        lemma_all_candidates_members(dataset.buckets@, keys);
        assert(keys.take(0) =~= Seq::<usize>::empty());
    }
    let mut b: usize = 0;
    while b < bucket_keys.len() && checked < LEGACY_MAX_CANDIDATES_PER_QUERY
        invariant
            dataset.wf(),
            nvec == dataset.vectors@.len(),
            q == query_q@,
            keys == bucket_keys@,
            distinct_keys(keys),
            all == all_candidates(dataset.buckets@, keys),
            all.len() == total_candidates,
            2 * total_candidates <= usize::MAX,
            1 <= step,
            b <= keys.len(),
            filled <= NEIGHBORS,
            (top@, filled as nat) == offer_all(empty_state(), candidates(q, *dataset, visited)),
            checked < LEGACY_MAX_CANDIDATES_PER_QUERY ==> processed == all_candidates(
                dataset.buckets@,
                keys.take(b as int),
            ),
            processed.len() <= all.len(),
            all.take(processed.len() as int) == processed,
            global_pos == processed.len(),
            visited == prefix(every_nth(processed, step as int), LEGACY_MAX_CANDIDATES_PER_QUERY as int),
            checked < LEGACY_MAX_CANDIDATES_PER_QUERY ==> visited == every_nth(processed, step as int),
            checked == visited.len(),
            checked <= LEGACY_MAX_CANDIDATES_PER_QUERY,
        decreases keys.len() - b,
    {
        let key = bucket_keys[b];
        let bucket = &dataset.buckets[key];
        let ghost c = bucket@;
        let ghost base = processed;
        proof {
            assert forall|i: int| 0 <= i < c.len() implies #[trigger] c[i] < dataset.len by {
                assert(c[i] == dataset.buckets@[key as int]@[i]);
            }
            lemma_all_candidates_prefix(dataset.buckets@, keys, b + 1);
            assert(keys.take(b + 1).drop_last() =~= keys.take(b as int));
            assert(c.take(0) =~= Seq::<u32>::empty());
            assert(base + c.take(0) =~= base);
        }
        let mut j: usize = 0;
        while j < bucket.len() && checked < LEGACY_MAX_CANDIDATES_PER_QUERY
            invariant
                dataset.wf(),
                nvec == dataset.vectors@.len(),
                q == query_q@,
                c == bucket@,
                forall|i: int| 0 <= i < c.len() ==> #[trigger] c[i] < dataset.len,
                base + c == all_candidates(dataset.buckets@, keys.take(b + 1)),
                (base + c).len() <= all.len(),
                all.take((base + c).len() as int) == base + c,
                all.len() == total_candidates,
                2 * total_candidates <= usize::MAX,
                1 <= step,
                j <= c.len(),
                filled <= NEIGHBORS,
                (top@, filled as nat) == offer_all(empty_state(), candidates(q, *dataset, visited)),
                processed == base + c.take(j as int),
                global_pos == processed.len(),
                visited == prefix(every_nth(processed, step as int), LEGACY_MAX_CANDIDATES_PER_QUERY as int),
                checked < LEGACY_MAX_CANDIDATES_PER_QUERY ==> visited == every_nth(processed, step as int),
                checked == visited.len(),
                checked <= LEGACY_MAX_CANDIDATES_PER_QUERY,
            decreases c.len() - j,
        {
            let x = bucket[j];
            proof {
                assert(base + c.take(j + 1) =~= (base + c.take(j as int)).push(x));
                lemma_every_nth_push(processed, x, step as int);
            }
            if step > 1 && global_pos % step != 0 {
                global_pos = global_pos + 1;
            } else {
                let idx = x as usize;
                assert(idx * DIMS + DIMS <= dataset.vectors@.len()) by (nonlinear_arith)
                    requires idx < dataset.len, dataset.vectors@.len() >= dataset.len * DIMS;
                let offset = idx * DIMS;
                let dist = distance_squared_quantized(query_q, dataset.vectors.as_slice(), offset);
                let label = dataset.labels[idx];
                update_top5(&mut top, &mut filled, dist, label);
                proof {
                    lemma_candidates_push(q, *dataset, visited, x);
                    lemma_offer_all_push(empty_state(), candidates(q, *dataset, visited), (dist, label));
                    visited = visited.push(x);
                }
                checked = checked + 1;
                global_pos = global_pos + 1;
            }
            proof {
                processed = processed.push(x);
                assert((base + c).take(processed.len() as int) =~= processed);
                assert(all.take(processed.len() as int) =~= (base + c).take(processed.len() as int));
            }
            j = j + 1;
        }
        proof {
            if j == c.len() {
                assert(c.take(j as int) =~= c);
            }
        }
        b = b + 1;
    }
    proof {
        let p = every_nth(processed, step as int);
        let full = every_nth(all, step as int);
        let m = LEGACY_MAX_CANDIDATES_PER_QUERY as int;
        if checked < LEGACY_MAX_CANDIDATES_PER_QUERY {
            assert(keys.take(b as int) =~= keys);
        } else {
            // the budget was reached on a prefix of the candidates
            lemma_every_nth_prefix(all, processed.len() as int, step as int);
            assert(p.len() >= m);
            lemma_prefix_of_prefix(p, full, m);
        }
    }
    ProbeResult { top, filled }.score()
}

} // verus!

verus! {

/// The candidates of references `0..n`, in order.
pub open spec fn first_candidates(q: Seq<u16>, ds: Dataset, n: nat) -> Seq<Neighbor> {
    Seq::new(n, |i: int| candidate(q, ds, i))
}

/// Outcome of scanning every reference in order.
pub open spec fn spec_full_state(q: Seq<u16>, ds: Dataset) -> TopState {
    offer_all(empty_state(), first_candidates(q, ds, ds.len as nat))
}

fn fraud_score_full_scan_quantized(query_q: &[u16; DIMS], dataset: &Dataset) -> (s: usize)
    requires
        dataset.holds_references(),
    ensures
        s == score_or(state_score(spec_full_state(query_q@, *dataset)), 0),
{
    let ghost q = query_q@;
    let mut top: [Neighbor; 5] = [(u64::MAX, 0), (u64::MAX, 0), (u64::MAX, 0), (u64::MAX, 0), (u64::MAX, 0)];
    let mut filled: usize = 0;
    let nvec = dataset.vectors.len();
    proof {
        assert(top@ =~= empty_state().0);
        assert(first_candidates(q, *dataset, 0) =~= Seq::<Neighbor>::empty());
    }
    let mut idx: usize = 0;
    while idx < dataset.len
        invariant
            dataset.holds_references(),
            nvec == dataset.vectors@.len(),
            q == query_q@,
            idx <= dataset.len,
            filled <= NEIGHBORS,
            (top@, filled as nat) == offer_all(
                empty_state(),
                first_candidates(q, *dataset, idx as nat),
            ),
        decreases dataset.len - idx,
    {
        assert(idx * DIMS + DIMS <= dataset.vectors@.len()) by (nonlinear_arith)
            requires idx < dataset.len, dataset.vectors@.len() >= dataset.len * DIMS;
        let offset = idx * DIMS;
        let dist = distance_squared_quantized(query_q, dataset.vectors.as_slice(), offset);
        let label = dataset.labels[idx];
        update_top5(&mut top, &mut filled, dist, label);
        proof {
            assert(first_candidates(q, *dataset, (idx + 1) as nat) =~= first_candidates(
                q,
                *dataset,
                idx as nat,
            ).push(candidate(q, *dataset, idx as int)));
            lemma_offer_all_push(
                empty_state(),
                first_candidates(q, *dataset, idx as nat),
                (dist, label),
            );
        }
        idx = idx + 1;
    }
    score_or_default(ProbeResult { top, filled }, 0)
}

/// Number of frauds among the five nearest references found by the bounded
/// bucket search (the search the service answers with).
pub fn fraud_score_bucket(query_q: &[u16; DIMS], dataset: &Dataset) -> (frauds: usize)
    requires
        dataset.wf(),
    ensures
        frauds == spec_score_v1(query_q@, *dataset),
        frauds <= NEIGHBORS,
{
    proof {
        lemma_scores_bounded(query_q@, *dataset);
    }
    score_with_bounded_search_v1(query_q, dataset)
}

/// Number of frauds among the five nearest references found by the bounded
/// bucket search.
pub fn fraud_score_bucket_bounded_v1(query_q: &[u16; DIMS], dataset: &Dataset) -> (frauds: usize)
    requires
        dataset.wf(),
    ensures
        frauds == spec_score_v1(query_q@, *dataset),
        frauds <= NEIGHBORS,
{
    proof {
        lemma_scores_bounded(query_q@, *dataset);
    }
    score_with_bounded_search_v1(query_q, dataset)
}

/// Number of frauds among the five nearest references found by the improved
/// bounded bucket search.
pub fn fraud_score_bucket_bounded_v2(query_q: &[u16; DIMS], dataset: &Dataset) -> (frauds: usize)
    requires
        dataset.wf(),
    ensures
        frauds == spec_score_v2(query_q@, *dataset),
        frauds <= NEIGHBORS,
{
    proof {
        lemma_scores_bounded(query_q@, *dataset);
    }
    score_with_bounded_search_v2(query_q, dataset)
}

/// Fraud count of the legacy search: the primary buckets decide unless they
/// hold fewer than five candidates (full scan) or give the borderline count 2
/// or 3, which the expanded buckets settle (or, lacking five candidates, the
/// full scan).
pub open spec fn spec_score_legacy(q: Seq<u16>, ds: Dataset) -> nat {
    let full = score_or(state_score(spec_full_state(q, ds)), 0);
    match spec_legacy_range(q, ds, 0, 1) {
        None => full,
        Some(s) => if s == 2 || s == 3 {
            match spec_legacy_range(q, ds, 1, 1) {
                Some(e) => e,
                None => full,
            }
        } else {
            s
        },
    }
}

/// Number of frauds among the five nearest references found by the legacy
/// bucket search.
pub fn fraud_score_bucket_legacy(query_q: &[u16; DIMS], dataset: &Dataset) -> (frauds: usize)
    requires
        dataset.wf(),
    ensures
        frauds == spec_score_legacy(query_q@, *dataset),
        frauds <= NEIGHBORS,
{
    proof {
        lemma_scores_bounded(query_q@, *dataset);
    }
    let score = match fraud_score_bucket_range_legacy(query_q, dataset, 0, 1) {
        Some(score) => score,
        None => return fraud_score_full_scan_quantized(query_q, dataset),
    };
    if score == 2 || score == 3 {
        return match fraud_score_bucket_range_legacy(query_q, dataset, 1, 1) {
            Some(expanded_score) => expanded_score,
            None => fraud_score_full_scan_quantized(query_q, dataset),
        };
    }
    score
}

/// Number of frauds among the five nearest references of the whole dataset
/// (0 when it holds fewer than five references).
pub fn fraud_score_full(query_q: &[u16; DIMS], dataset: &Dataset) -> (frauds: usize)
    requires
        dataset.holds_references(),
    ensures
        frauds == score_or(state_score(spec_full_state(query_q@, *dataset)), 0),
        dataset.len >= NEIGHBORS ==> frauds == fraud_count(kept(spec_full_state(query_q@, *dataset))),
        dataset.len < NEIGHBORS ==> frauds == 0,
        is_nearest_selection(
            kept(spec_full_state(query_q@, *dataset)),
            first_candidates(query_q@, *dataset, dataset.len as nat),
            NEIGHBORS as nat,
        ),
        frauds <= NEIGHBORS,
{
    let frauds = fraud_score_full_scan_quantized(query_q, dataset);
    proof {
        let items = first_candidates(query_q@, *dataset, dataset.len as nat);
        lemma_offer_all_selects_nearest(items);
        lemma_state_score_bound(spec_full_state(query_q@, *dataset));
        let st = spec_full_state(query_q@, *dataset);
        lemma_offer_all_shape(empty_state(), items);
        assert(items.len() == dataset.len);
        assert(kept(st).len() == st.1);
        if dataset.len >= NEIGHBORS {
            assert(st.0.take(5) =~= st.0);
        }
    }
    frauds
}

/// Number of candidates in the primary buckets of a query: its amount bucket
/// and the MCC buckets within one of its own.
pub fn count_bucket_candidates(query_q: &[u16; DIMS], dataset: &Dataset) -> (n: usize)
    requires
        dataset.wf(),
    ensures
        n == candidate_count(dataset.buckets@, range_keys(query_q@, 0, 1)),
        dataset.is_indexed() ==> n == count_refs_with_key(
            dataset.vectors@,
            dataset.len as int,
            |k: int| primary_match(query_q@, k),
        ),
{
    let (amount_bucket, has_last, is_online, card_present, unknown_merchant, mcc_bucket) =
        query_shape(query_q);
    let mcc_end = if mcc_bucket + 1 < MCC_BUCKETS - 1 {
        mcc_bucket + 1
    } else {
        MCC_BUCKETS - 1
    };
    let bucket_keys = collect_bucket_keys(
        amount_bucket,
        amount_bucket,
        mcc_bucket.saturating_sub(1),
        mcc_end,
        has_last,
        is_online,
        card_present,
        unknown_merchant,
    );
    proof {
        lemma_candidate_count_bound(dataset, bucket_keys@);
        if dataset.is_indexed() {
            lemma_primary_count_counts_references(query_q@, *dataset);
        }
    }
    total_candidates(dataset, bucket_keys.as_slice())
}

/// Number of candidates in every bucket sharing the query's boolean features.
pub fn count_bool_slice_candidates(query_q: &[u16; DIMS], dataset: &Dataset) -> (n: usize)
    requires
        dataset.wf(),
    ensures
        n == candidate_count(dataset.buckets@, bool_slice_keys(query_q@)),
        dataset.is_indexed() ==> n == count_refs_with_key(
            dataset.vectors@,
            dataset.len as int,
            |k: int| 0 <= k < TOTAL_BUCKETS && k / 128 == spec_vector_bucket_key(query_q@) / 128,
        ),
{
    let (_, has_last, is_online, card_present, unknown_merchant, _) = query_shape(query_q);
    let bucket_keys = collect_bucket_keys(
        0,
        AMOUNT_BUCKETS - 1,
        0,
        MCC_BUCKETS - 1,
        has_last,
        is_online,
        card_present,
        unknown_merchant,
    );
    proof {
        lemma_candidate_count_bound(dataset, bucket_keys@);
        if dataset.is_indexed() {
            lemma_bool_slice_count_counts_references(query_q@, *dataset);
        }
    }
    total_candidates(dataset, bucket_keys.as_slice())
}

/// Fraud count from which a transaction is denied: a score of 3 / 5 = 0.6 or more.
pub const DENY_FROM_FRAUDS: usize = 3;

/// Decision for a transaction whose five nearest references hold `frauds`
/// frauds: approved when the score `frauds / 5` is below 0.6.
pub fn approved(frauds: usize) -> (ok: bool)
    ensures
        ok == (frauds < DENY_FROM_FRAUDS),
{
    frauds < DENY_FROM_FRAUDS
}

} // verus!

verus! {

/// A probe keeps five nearest among the references it visits (all of them
/// when it visits fewer than five).
pub proof fn lemma_probe_selects_nearest(
    q: Seq<u16>,
    ds: Dataset,
    keys: Seq<usize>,
    max_candidates: usize,
    phase: usize,
)
    ensures
        is_nearest_selection(
            kept(spec_probe_keys(q, ds, keys, max_candidates, phase)),
            candidates(q, ds, probe_visits(q, ds, keys, max_candidates, phase)),
            NEIGHBORS as nat,
        ),
{
    lemma_offer_all_selects_nearest(
        candidates(q, ds, probe_visits(q, ds, keys, max_candidates, phase)),
    );
}

proof fn lemma_from_empty_bounded(items: Seq<Neighbor>)
    ensures
        offer_all(empty_state(), items).0.len() == NEIGHBORS,
        offer_all(empty_state(), items).1 <= NEIGHBORS,
        state_score(offer_all(empty_state(), items)) matches Some(s) ==> s <= NEIGHBORS,
{
    lemma_offer_all_shape(empty_state(), items);
    lemma_state_score_bound(offer_all(empty_state(), items));
}

/// Every search counts at most five frauds: a score is the number of frauds
/// among five neighbours.
pub proof fn lemma_scores_bounded(q: Seq<u16>, ds: Dataset)
    ensures
        spec_score_v1(q, ds) <= NEIGHBORS,
        spec_score_v2(q, ds) <= NEIGHBORS,
        spec_score_legacy(q, ds) <= NEIGHBORS,
        score_or(state_score(spec_full_state(q, ds)), 0) <= NEIGHBORS,
{
    let primary = spec_probe_range(q, ds, 0, 1, PRIMARY_MAX_CANDIDATES_PER_QUERY, 0);
    let expanded = spec_probe_range(q, ds, 1, 1, EXPANDED_MAX_CANDIDATES_PER_QUERY, 0);
    let expanded2 = spec_probe_range(q, ds, 1, 1, EXPANDED_MAX_CANDIDATES_PER_QUERY, 1);
    let bool_slice = spec_probe_bool_slice(q, ds, 0);
    let bool_slice2 = spec_probe_bool_slice(q, ds, 1);
    lemma_from_empty_bounded(
        candidates(q, ds, probe_visits(q, ds, range_keys(q, 0, 1), PRIMARY_MAX_CANDIDATES_PER_QUERY, 0)),
    );
    lemma_from_empty_bounded(
        candidates(q, ds, probe_visits(q, ds, range_keys(q, 1, 1), EXPANDED_MAX_CANDIDATES_PER_QUERY, 0)),
    );
    lemma_from_empty_bounded(
        candidates(q, ds, probe_visits(q, ds, range_keys(q, 1, 1), EXPANDED_MAX_CANDIDATES_PER_QUERY, 1)),
    );
    lemma_from_empty_bounded(
        candidates(q, ds, probe_visits(q, ds, bool_slice_keys(q), BOOL_SLICE_MAX_CANDIDATES_PER_QUERY, 0)),
    );
    lemma_from_empty_bounded(
        candidates(q, ds, probe_visits(q, ds, bool_slice_keys(q), BOOL_SLICE_MAX_CANDIDATES_PER_QUERY, 1)),
    );
    lemma_from_empty_bounded(candidates(q, ds, ds.global_sample@));
    lemma_from_empty_bounded(first_candidates(q, ds, ds.len as nat));
    lemma_offer_all_shape(expanded, kept(expanded2));
    lemma_state_score_bound(offer_all(expanded, kept(expanded2)));
    lemma_offer_all_shape(bool_slice, kept(bool_slice2));
    lemma_state_score_bound(offer_all(bool_slice, kept(bool_slice2)));
    lemma_from_empty_bounded(
        candidates(q, ds, legacy_visits(ds.buckets@, range_keys(q, 0, 1))),
    );
    lemma_from_empty_bounded(
        candidates(q, ds, legacy_visits(ds.buckets@, range_keys(q, 1, 1))),
    );
}

} // verus!

verus! {

proof fn lemma_strided_one(c: Seq<u32>, pos: int)
    requires
        0 <= pos <= c.len(),
    ensures
        strided(c, pos, 1) == c.skip(pos),
    decreases c.len() - pos,
{
    if pos < c.len() {
        lemma_strided_one(c, pos + 1);
        assert(seq![c[pos]] + c.skip(pos + 1) =~= c.skip(pos));
    } else {
        assert(c.skip(pos) =~= Seq::<u32>::empty());
    }
}

proof fn lemma_probe_order_step_one(buckets: Seq<Vec<u32>>, keys: Seq<usize>, seed: usize)
    ensures
        probe_order(buckets, keys, 1, seed) == all_candidates(buckets, keys),
        all_candidates(buckets, keys).len() == candidate_count(buckets, keys),
    decreases keys.len(),
{
    if keys.len() > 0 {
        lemma_probe_order_step_one(buckets, keys.drop_last(), seed);
        let c = buckets[keys.last() as int]@;
        lemma_strided_one(c, 0);
        assert(c.skip(0) =~= c);
    }
}

/// A probe of buckets that together hold no more candidates than its budget
/// visits every one of them, bucket after bucket: it then keeps five nearest
/// among all references of those buckets.
pub proof fn lemma_probe_within_budget_visits_all(
    q: Seq<u16>,
    ds: Dataset,
    keys: Seq<usize>,
    max_candidates: usize,
    phase: usize,
)
    requires
        candidate_count(ds.buckets@, keys) <= max_candidates,
    ensures
        probe_visits(q, ds, keys, max_candidates, phase) == all_candidates(ds.buckets@, keys),
        is_nearest_selection(
            kept(spec_probe_keys(q, ds, keys, max_candidates, phase)),
            candidates(q, ds, all_candidates(ds.buckets@, keys)),
            NEIGHBORS as nat,
        ),
{
    lemma_probe_order_step_one(ds.buckets@, keys, probe_seed(q, phase));
    lemma_probe_selects_nearest(q, ds, keys, max_candidates, phase);
}

} // verus!

verus! {

/// Merging a second-phase probe of the same buckets into the first keeps five
/// nearest among the references visited by either probe (counted once per visit).
pub proof fn lemma_two_phase_merge_nearest(
    q: Seq<u16>,
    ds: Dataset,
    keys: Seq<usize>,
    max_candidates: usize,
)
    ensures
        is_nearest_selection(
            kept(
                offer_all(
                    spec_probe_keys(q, ds, keys, max_candidates, 0),
                    kept(spec_probe_keys(q, ds, keys, max_candidates, 1)),
                ),
            ),
            candidates(q, ds, probe_visits(q, ds, keys, max_candidates, 0)) + candidates(
                q,
                ds,
                probe_visits(q, ds, keys, max_candidates, 1),
            ),
            NEIGHBORS as nat,
        ),
{
    lemma_merge_selects_nearest_of_both(
        candidates(q, ds, probe_visits(q, ds, keys, max_candidates, 0)),
        candidates(q, ds, probe_visits(q, ds, keys, max_candidates, 1)),
    );
}

} // verus!

verus! {

proof fn lemma_amount_rows_contains(
    flags: (int, int, int, int),
    a_start: int,
    a_stop: int,
    m_start: int,
    m_end: int,
    a: int,
    m: int,
)
    requires
        flags_in_range(flags),
        0 <= a_start <= a < a_stop <= AMOUNT_BUCKETS,
        0 <= m_start <= m <= m_end < MCC_BUCKETS,
    ensures
        amount_rows(flags, a_start, a_stop, m_start, m_end).contains(
            spec_bucket_key(flags.0, flags.1, flags.2, flags.3, m, a) as usize,
        ),
    decreases a_stop - a_start,
{
    let rows = amount_rows(flags, a_start, a_stop, m_start, m_end);
    let prev = amount_rows(flags, a_start, a_stop - 1, m_start, m_end);
    let row = mcc_row(flags, a_stop - 1, m_start, m_end + 1);
    assert(rows == prev + row);
    if a == a_stop - 1 {
        assert(rows[prev.len() + (m - m_start)] == row[m - m_start]);
    } else {
        lemma_amount_rows_contains(flags, a_start, a_stop - 1, m_start, m_end, a, m);
        let i = choose|i: int|
            0 <= i < prev.len() && prev[i] == spec_bucket_key(
                flags.0,
                flags.1,
                flags.2,
                flags.3,
                m,
                a,
            ) as usize;
        assert(rows[i] == prev[i]);
    }
}

/// The primary buckets of a query (its amount bucket, MCC buckets within one)
/// are among the buckets sharing its boolean features, so they never hold
/// more candidates.
pub proof fn lemma_primary_within_bool_slice(q: Seq<u16>, buckets: Seq<Vec<u32>>)
    ensures
        candidate_count(buckets, range_keys(q, 0, 1)) <= candidate_count(buckets, bool_slice_keys(q)),
{
    let s = spec_query_shape(q);
    let flags = query_flags(q);
    lemma_normalized_bucket_in_range(q[0], AMOUNT_BUCKETS as int);
    lemma_normalized_bucket_in_range(q[12], MCC_BUCKETS as int);
    let m_start = if s.5 >= 1 { s.5 - 1 } else { 0 };
    let m_end = if s.5 + 1 < MCC_BUCKETS { s.5 + 1 } else { MCC_BUCKETS - 1 };
    let a = range_keys(q, 0, 1);
    let b = bool_slice_keys(q);
    assert(a == amount_rows(flags, s.0, s.0 + 1, m_start, m_end));
    lemma_amount_rows(flags, s.0, s.0 + 1, m_start, m_end);
    lemma_amount_rows(flags, 0, AMOUNT_BUCKETS as int, 0, MCC_BUCKETS - 1);
    assert forall|i: int| 0 <= i < a.len() implies b.contains(#[trigger] a[i]) by {
        let e = a[i];
        lemma_amount_rows_contains(
            flags,
            0,
            AMOUNT_BUCKETS as int,
            0,
            MCC_BUCKETS - 1,
            e as int % 16,
            (e as int / 16) % 8,
        );
    }
    lemma_candidate_count_subset(buckets, a, b);
}

} // verus!

verus! {

/// Every reference of the dataset has the bucket key of query `q`.
pub open spec fn all_in_query_bucket(q: Seq<u16>, ds: Dataset) -> bool {
    forall|i: int| 0 <= i < ds.len ==> #[trigger] reference_key(ds.vectors@, i) == spec_vector_bucket_key(q)
}

proof fn lemma_members_single_key(vectors: Seq<u16>, n: int, key: int, k: int)
    requires
        0 <= n <= u32::MAX + 1,
        forall|i: int| 0 <= i < n ==> #[trigger] reference_key(vectors, i) == key,
    ensures
        k == key ==> bucket_members(vectors, n, k) == all_indices(n as nat),
        k != key ==> bucket_members(vectors, n, k) == Seq::<u32>::empty(),
    decreases n,
{
    if n > 0 {
        lemma_members_single_key(vectors, n - 1, key, k);
        assert(reference_key(vectors, n - 1) == key);
        assert(all_indices(n as nat) =~= all_indices((n - 1) as nat).push((n - 1) as u32));
    } else {
        assert(all_indices(0) =~= Seq::<u32>::empty());
    }
}

proof fn lemma_all_candidates_single_bucket(
    buckets: Seq<Vec<u32>>,
    keys: Seq<usize>,
    key: int,
    only: Seq<u32>,
)
    requires
        distinct_keys(keys),
        buckets.len() == TOTAL_BUCKETS,
        0 <= key < TOTAL_BUCKETS,
        buckets[key]@ == only,
        forall|k: int| 0 <= k < TOTAL_BUCKETS && k != key ==> #[trigger] buckets[k]@ == Seq::<u32>::empty(),
    ensures
        all_candidates(buckets, keys) == if keys.contains(key as usize) {
            only
        } else {
            Seq::<u32>::empty()
        },
    decreases keys.len(),
{
    if keys.len() > 0 {
        let d = keys.drop_last();
        assert forall|i: int| 0 <= i < d.len() implies #[trigger] d[i] < TOTAL_BUCKETS by {
            assert(d[i] == keys[i]);
        }
        assert forall|i: int, j: int| 0 <= i < j < d.len() implies d[i] != d[j] by {
            assert(d[i] == keys[i] && d[j] == keys[j]);
        }
        lemma_all_candidates_single_bucket(buckets, d, key, only);
        let last = keys.last();
        assert(last < TOTAL_BUCKETS);
        if last == key as usize {
            assert(!d.contains(key as usize)) by {
                if d.contains(key as usize) {
                    let i = choose|i: int| 0 <= i < d.len() && d[i] == key as usize;
                    assert(keys[i] == keys[keys.len() - 1]);
                }
            }
            assert(keys.contains(key as usize)) by {
                assert(keys[keys.len() - 1] == key as usize);
            }
            assert(Seq::<u32>::empty() + only =~= only);
        } else {
            assert(buckets[last as int]@ == Seq::<u32>::empty());
            assert(keys.contains(key as usize) == d.contains(key as usize)) by {
                if keys.contains(key as usize) {
                    let i = choose|i: int| 0 <= i < keys.len() && keys[i] == key as usize;
                    assert(i < keys.len() - 1);
                    assert(d[i] == keys[i]);
                }
                if d.contains(key as usize) {
                    let i = choose|i: int| 0 <= i < d.len() && d[i] == key as usize;
                    assert(keys[i] == d[i]);
                }
            }
            assert(all_candidates(buckets, d) + Seq::<u32>::empty() =~= all_candidates(buckets, d));
        }
    }
}

proof fn lemma_query_key_in_rows(q: Seq<u16>, amount_radius: int, mcc_radius: int)
    requires
        amount_radius >= 0,
        mcc_radius >= 0,
    ensures
        range_keys(q, amount_radius, mcc_radius).contains(spec_vector_bucket_key(q) as usize),
        bool_slice_keys(q).contains(spec_vector_bucket_key(q) as usize),
        distinct_keys(range_keys(q, amount_radius, mcc_radius)),
        distinct_keys(bool_slice_keys(q)),
        0 <= spec_vector_bucket_key(q) < TOTAL_BUCKETS,
{
    let s = spec_query_shape(q);
    let flags = query_flags(q);
    lemma_normalized_bucket_in_range(q[0], AMOUNT_BUCKETS as int);
    lemma_normalized_bucket_in_range(q[12], MCC_BUCKETS as int);
    lemma_bucket_key_decodes(flags.0, flags.1, flags.2, flags.3, s.5, s.0);
    let a_start = if s.0 >= amount_radius { s.0 - amount_radius } else { 0 };
    let a_end = if s.0 + amount_radius < AMOUNT_BUCKETS { s.0 + amount_radius } else { AMOUNT_BUCKETS - 1 };
    let m_start = if s.5 >= mcc_radius { s.5 - mcc_radius } else { 0 };
    let m_end = if s.5 + mcc_radius < MCC_BUCKETS { s.5 + mcc_radius } else { MCC_BUCKETS - 1 };
    lemma_amount_rows_contains(flags, a_start, a_end + 1, m_start, m_end, s.0, s.5);
    lemma_amount_rows_contains(flags, 0, AMOUNT_BUCKETS as int, 0, MCC_BUCKETS - 1, s.0, s.5);
    lemma_amount_rows(flags, a_start, a_end + 1, m_start, m_end);
    lemma_amount_rows(flags, 0, AMOUNT_BUCKETS as int, 0, MCC_BUCKETS - 1);
}

proof fn lemma_every_nth_one(s: Seq<u32>)
    ensures
        every_nth(s, 1) == s,
    decreases s.len(),
{
    if s.len() > 0 {
        lemma_every_nth_one(s.drop_last());
        assert(s.drop_last() + seq![s.last()] =~= s);
    }
}

/// When every reference has the query's key and there are at most `max`
/// references, the buckets named by `keys` (among them the query's) list every
/// reference in index order, and a probe with that budget offers the same
/// candidates as the full scan.
proof fn lemma_single_bucket_probe(q: Seq<u16>, ds: Dataset, keys: Seq<usize>, max: usize, phase: usize)
    requires
        ds.is_indexed(),
        all_in_query_bucket(q, ds),
        distinct_keys(keys),
        keys.contains(spec_vector_bucket_key(q) as usize),
        0 <= spec_vector_bucket_key(q) < TOTAL_BUCKETS,
        ds.len <= max,
    ensures
        all_candidates(ds.buckets@, keys) == all_indices(ds.len as nat),
        candidate_count(ds.buckets@, keys) == ds.len,
        candidates(q, ds, all_indices(ds.len as nat)) == first_candidates(q, ds, ds.len as nat),
        spec_probe_keys(q, ds, keys, max, phase) == spec_full_state(q, ds),
{
    let key = spec_vector_bucket_key(q);
    assert forall|k: int| 0 <= k < TOTAL_BUCKETS implies (k == key ==> #[trigger] ds.buckets@[k]@
        == all_indices(ds.len as nat)) && (k != key ==> ds.buckets@[k]@ == Seq::<u32>::empty()) by {
        lemma_members_single_key(ds.vectors@, ds.len as int, key, k);
    }
    lemma_all_candidates_single_bucket(ds.buckets@, keys, key, all_indices(ds.len as nat));
    lemma_all_candidates_members(ds.buckets@, keys);
    assert(candidates(q, ds, all_indices(ds.len as nat)) =~= first_candidates(q, ds, ds.len as nat));
    lemma_probe_within_budget_visits_all(q, ds, keys, max, phase);
}

/// When every reference has the query's bucket key and there are no more of
/// them than the primary probe's budget, the bounded search finds the same
/// count as the full scan.
pub proof fn lemma_bounded_search_matches_full_scan(q: Seq<u16>, ds: Dataset)
    requires
        ds.is_indexed(),
        all_in_query_bucket(q, ds),
        ds.len <= PRIMARY_MAX_CANDIDATES_PER_QUERY,
    ensures
        spec_score_v1(q, ds) == score_or(state_score(spec_full_state(q, ds)), 0),
{
    lemma_query_key_in_rows(q, 0, 1);
    lemma_query_key_in_rows(q, 1, 1);
    lemma_single_bucket_probe(q, ds, range_keys(q, 0, 1), PRIMARY_MAX_CANDIDATES_PER_QUERY, 0);
    lemma_single_bucket_probe(q, ds, range_keys(q, 1, 1), EXPANDED_MAX_CANDIDATES_PER_QUERY, 0);
    lemma_single_bucket_probe(q, ds, bool_slice_keys(q), BOOL_SLICE_MAX_CANDIDATES_PER_QUERY, 0);
}

/// When every reference has the query's bucket key and there are at most
/// `LEGACY_MAX_CANDIDATES_PER_QUERY` of them, the legacy search finds the same
/// count as the full scan.
pub proof fn lemma_legacy_search_matches_full_scan(q: Seq<u16>, ds: Dataset)
    requires
        ds.is_indexed(),
        all_in_query_bucket(q, ds),
        ds.len <= LEGACY_MAX_CANDIDATES_PER_QUERY,
    ensures
        spec_score_legacy(q, ds) == score_or(state_score(spec_full_state(q, ds)), 0),
{
    lemma_every_nth_one(all_indices(ds.len as nat));
    lemma_query_key_in_rows(q, 0, 1);
    lemma_query_key_in_rows(q, 1, 1);
    lemma_single_bucket_probe(q, ds, range_keys(q, 0, 1), LEGACY_MAX_CANDIDATES_PER_QUERY, 0);
    lemma_single_bucket_probe(q, ds, range_keys(q, 1, 1), LEGACY_MAX_CANDIDATES_PER_QUERY, 0);
    assert(legacy_visits(ds.buckets@, range_keys(q, 0, 1)) == all_indices(ds.len as nat));
    assert(legacy_visits(ds.buckets@, range_keys(q, 1, 1)) == all_indices(ds.len as nat));
}

} // verus!

verus! {

/// `x` lies within `r` of `c`.
pub open spec fn within(x: int, c: int, r: int) -> bool {
    c - r <= x <= c + r
}

/// Bucket key `e` shares the boolean features of bucket key `k`, and its amount
/// and MCC buckets lie within `amount_radius` and `mcc_radius` of those of `k`,
/// on either side.
pub open spec fn near_key(e: int, k: int, amount_radius: int, mcc_radius: int) -> bool {
    &&& 0 <= e < TOTAL_BUCKETS
    &&& e / 128 == k / 128
    &&& within(e % 16, k % 16, amount_radius)
    &&& within((e / 16) % 8, (k / 16) % 8, mcc_radius)
}

/// The buckets probed around a query are exactly the buckets near the query's
/// own bucket: same boolean features, amount bucket within `amount_radius`
/// and MCC bucket within `mcc_radius`, below as well as above.
pub proof fn lemma_range_keys_members(q: Seq<u16>, amount_radius: int, mcc_radius: int, e: usize)
    requires
        amount_radius >= 0,
        mcc_radius >= 0,
    ensures
        range_keys(q, amount_radius, mcc_radius).contains(e) <==> near_key(
            e as int,
            spec_vector_bucket_key(q),
            amount_radius,
            mcc_radius,
        ),
{
    let s = spec_query_shape(q);
    let flags = query_flags(q);
    let k = spec_vector_bucket_key(q);
    lemma_normalized_bucket_in_range(q[0], AMOUNT_BUCKETS as int);
    lemma_normalized_bucket_in_range(q[12], MCC_BUCKETS as int);
    lemma_bucket_key_decodes(flags.0, flags.1, flags.2, flags.3, s.5, s.0);
    let a_start = if s.0 >= amount_radius { s.0 - amount_radius } else { 0 };
    let a_end = if s.0 + amount_radius < AMOUNT_BUCKETS { s.0 + amount_radius } else { AMOUNT_BUCKETS - 1 };
    let m_start = if s.5 >= mcc_radius { s.5 - mcc_radius } else { 0 };
    let m_end = if s.5 + mcc_radius < MCC_BUCKETS { s.5 + mcc_radius } else { MCC_BUCKETS - 1 };
    let rows = range_keys(q, amount_radius, mcc_radius);
    lemma_amount_rows(flags, a_start, a_end + 1, m_start, m_end);
    if rows.contains(e) {
        let i = choose|i: int| 0 <= i < rows.len() && rows[i] == e;
        assert(rows[i] == e);
        let ei = e as int;
        lemma_bucket_key_decodes(flags.0, flags.1, flags.2, flags.3, (ei / 16) % 8, ei % 16);
    }
    if near_key(e as int, k, amount_radius, mcc_radius) {
        let ei = e as int;
        lemma_key_digits(ei);
        lemma_bucket_key_decodes(flags.0, flags.1, flags.2, flags.3, (ei / 16) % 8, ei % 16);
        assert(ei == spec_bucket_key(flags.0, flags.1, flags.2, flags.3, (ei / 16) % 8, ei % 16));
        lemma_amount_rows_contains(flags, a_start, a_end + 1, m_start, m_end, ei % 16, (ei / 16) % 8);
    }
}

/// Bucket key `e` is a primary bucket for query `q`: the query's boolean
/// features and amount bucket, MCC bucket within one of the query's.
pub open spec fn primary_match(q: Seq<u16>, e: int) -> bool {
    near_key(e, spec_vector_bucket_key(q), 0, 1)
}

/// In an indexed dataset the primary count of a query is the number of
/// references with its boolean features and amount bucket whose MCC bucket is
/// within one of its own (below or above).
pub proof fn lemma_primary_count_counts_references(q: Seq<u16>, ds: Dataset)
    requires
        ds.is_indexed(),
    ensures
        candidate_count(ds.buckets@, range_keys(q, 0, 1)) == count_refs_with_key(
            ds.vectors@,
            ds.len as int,
            |k: int| primary_match(q, k),
        ),
{
    lemma_query_key_in_rows(q, 0, 1);
    let pred = |k: int| primary_match(q, k);
    assert forall|k: int| 0 <= k < TOTAL_BUCKETS implies (range_keys(q, 0, 1).contains(
        k as usize,
    ) <==> #[trigger] pred(k)) by {
        lemma_range_keys_members(q, 0, 1, k as usize);
    }
    lemma_candidate_count_counts_references(&ds, range_keys(q, 0, 1), pred);
}

/// In an indexed dataset the boolean-slice count of a query is the number of
/// references with its boolean features.
pub proof fn lemma_bool_slice_count_counts_references(q: Seq<u16>, ds: Dataset)
    requires
        ds.is_indexed(),
    ensures
        candidate_count(ds.buckets@, bool_slice_keys(q)) == count_refs_with_key(
            ds.vectors@,
            ds.len as int,
            |k: int| 0 <= k < TOTAL_BUCKETS && k / 128 == spec_vector_bucket_key(q) / 128,
        ),
{
    lemma_query_key_in_rows(q, 0, 1);
    let pred = |k: int| 0 <= k < TOTAL_BUCKETS && k / 128 == spec_vector_bucket_key(q) / 128;
    lemma_normalized_bucket_in_range(q[0], AMOUNT_BUCKETS as int);
    lemma_normalized_bucket_in_range(q[12], MCC_BUCKETS as int);
    assert(range_keys(q, 15, 7) == bool_slice_keys(q));
    assert forall|k: int| 0 <= k < TOTAL_BUCKETS implies (bool_slice_keys(q).contains(k as usize)
        <==> #[trigger] pred(k)) by {
        lemma_range_keys_members(q, 15, 7, k as usize);
        lemma_key_digits(k);
        lemma_key_digits(spec_vector_bucket_key(q));
    }
    lemma_amount_rows(query_flags(q), 0, AMOUNT_BUCKETS as int, 0, MCC_BUCKETS - 1);
    lemma_candidate_count_counts_references(&ds, bool_slice_keys(q), pred);
}

} // verus!

verus! {

/// The bounded search decides as follows. A primary probe (the query's amount
/// bucket, MCC buckets within one) that keeps five candidates with a fraud
/// count other than 2 or 3 gives that count. A borderline count (2 or 3) is
/// replaced by the fraud count of the expanded probe (amount and MCC buckets
/// within one) whenever that probe keeps five candidates, and stays when it
/// does not. Without five primary candidates, the boolean-slice probe's count
/// decides if it keeps five, then the global sample's, and 0 when neither does.
pub proof fn lemma_v1_decision(q: Seq<u16>, ds: Dataset)
    ensures
        ({
            let primary = spec_probe_range(q, ds, 0, 1, PRIMARY_MAX_CANDIDATES_PER_QUERY, 0);
            let expanded = spec_probe_range(q, ds, 1, 1, EXPANDED_MAX_CANDIDATES_PER_QUERY, 0);
            let bool_slice = spec_probe_bool_slice(q, ds, 0);
            let sample = spec_global_sample(q, ds);
            let p = fraud_count(kept(primary));
            &&& primary.1 == NEIGHBORS && p != 2 && p != 3 ==> spec_score_v1(q, ds) == p
            &&& primary.1 == NEIGHBORS && (p == 2 || p == 3) && expanded.1 == NEIGHBORS
                ==> spec_score_v1(q, ds) == fraud_count(kept(expanded))
            &&& primary.1 == NEIGHBORS && (p == 2 || p == 3) && expanded.1 < NEIGHBORS
                ==> spec_score_v1(q, ds) == p
            &&& primary.1 < NEIGHBORS && bool_slice.1 == NEIGHBORS ==> spec_score_v1(q, ds)
                == fraud_count(kept(bool_slice))
            &&& primary.1 < NEIGHBORS && bool_slice.1 < NEIGHBORS && sample.1 == NEIGHBORS
                ==> spec_score_v1(q, ds) == fraud_count(kept(sample))
            &&& primary.1 < NEIGHBORS && bool_slice.1 < NEIGHBORS && sample.1 < NEIGHBORS
                ==> spec_score_v1(q, ds) == 0
        }),
{
    lemma_probe_states_full(q, ds);
}

/// Each probe's state has five slots; once they are all filled the kept
/// candidates are the five slots.
proof fn lemma_probe_states_full(q: Seq<u16>, ds: Dataset)
    ensures
        ({
            let primary = spec_probe_range(q, ds, 0, 1, PRIMARY_MAX_CANDIDATES_PER_QUERY, 0);
            let expanded = spec_probe_range(q, ds, 1, 1, EXPANDED_MAX_CANDIDATES_PER_QUERY, 0);
            let bool_slice = spec_probe_bool_slice(q, ds, 0);
            let sample = spec_global_sample(q, ds);
            &&& primary.1 == NEIGHBORS ==> kept(primary) == primary.0
            &&& expanded.1 == NEIGHBORS ==> kept(expanded) == expanded.0
            &&& bool_slice.1 == NEIGHBORS ==> kept(bool_slice) == bool_slice.0
            &&& sample.1 == NEIGHBORS ==> kept(sample) == sample.0
            &&& primary.1 <= NEIGHBORS && expanded.1 <= NEIGHBORS
            &&& bool_slice.1 <= NEIGHBORS && sample.1 <= NEIGHBORS
        }),
{
    let primary = spec_probe_range(q, ds, 0, 1, PRIMARY_MAX_CANDIDATES_PER_QUERY, 0);
    let expanded = spec_probe_range(q, ds, 1, 1, EXPANDED_MAX_CANDIDATES_PER_QUERY, 0);
    let bool_slice = spec_probe_bool_slice(q, ds, 0);
    let sample = spec_global_sample(q, ds);
    lemma_from_empty_bounded(
        candidates(q, ds, probe_visits(q, ds, range_keys(q, 0, 1), PRIMARY_MAX_CANDIDATES_PER_QUERY, 0)),
    );
    lemma_from_empty_bounded(
        candidates(q, ds, probe_visits(q, ds, range_keys(q, 1, 1), EXPANDED_MAX_CANDIDATES_PER_QUERY, 0)),
    );
    lemma_from_empty_bounded(
        candidates(q, ds, probe_visits(q, ds, bool_slice_keys(q), BOOL_SLICE_MAX_CANDIDATES_PER_QUERY, 0)),
    );
    lemma_from_empty_bounded(candidates(q, ds, ds.global_sample@));
    assert(primary.1 == NEIGHBORS ==> kept(primary) =~= primary.0);
    assert(expanded.1 == NEIGHBORS ==> kept(expanded) =~= expanded.0);
    assert(bool_slice.1 == NEIGHBORS ==> kept(bool_slice) =~= bool_slice.0);
    assert(sample.1 == NEIGHBORS ==> kept(sample) =~= sample.0);
}

/// The improved bounded search decides as the bounded search, except that an
/// expanded count of exactly 3 is re-checked: a primary probe that keeps five
/// candidates with a fraud count other than 2 or 3 gives that count, and a
/// borderline primary whose expanded probe keeps five candidates with a count
/// other than 3 gives the expanded count.
pub proof fn lemma_v2_decision(q: Seq<u16>, ds: Dataset)
    ensures
        ({
            let primary = spec_probe_range(q, ds, 0, 1, PRIMARY_MAX_CANDIDATES_PER_QUERY, 0);
            let expanded = spec_probe_range(q, ds, 1, 1, EXPANDED_MAX_CANDIDATES_PER_QUERY, 0);
            let p = fraud_count(kept(primary));
            let e = fraud_count(kept(expanded));
            &&& primary.1 == NEIGHBORS && p != 2 && p != 3 ==> spec_score_v2(q, ds) == p
            &&& primary.1 == NEIGHBORS && (p == 2 || p == 3) && expanded.1 == NEIGHBORS && e != 3
                ==> spec_score_v2(q, ds) == e
            &&& primary.1 == NEIGHBORS && (p == 2 || p == 3) && expanded.1 < NEIGHBORS
                ==> spec_score_v2(q, ds) == p
        }),
{
    lemma_probe_states_full(q, ds);
}

/// When every reference has the query's bucket key and there are no more of
/// them than the primary budget, the improved bounded search finds the full
/// scan's count unless that count is 3 (which its re-check may change).
pub proof fn lemma_v2_matches_full_scan(q: Seq<u16>, ds: Dataset)
    requires
        ds.is_indexed(),
        all_in_query_bucket(q, ds),
        ds.len <= PRIMARY_MAX_CANDIDATES_PER_QUERY,
        score_or(state_score(spec_full_state(q, ds)), 0) != 3,
    ensures
        spec_score_v2(q, ds) == score_or(state_score(spec_full_state(q, ds)), 0),
{
    lemma_query_key_in_rows(q, 0, 1);
    lemma_query_key_in_rows(q, 1, 1);
    lemma_single_bucket_probe(q, ds, range_keys(q, 0, 1), PRIMARY_MAX_CANDIDATES_PER_QUERY, 0);
    lemma_single_bucket_probe(q, ds, range_keys(q, 1, 1), EXPANDED_MAX_CANDIDATES_PER_QUERY, 0);
    lemma_single_bucket_probe(q, ds, bool_slice_keys(q), BOOL_SLICE_MAX_CANDIDATES_PER_QUERY, 0);
}

/// The legacy search decides as follows. With fewer than five candidates in the
/// primary buckets it gives the full scan's count. A primary count other than
/// 2 or 3 is returned as it is. A borderline primary count, 2 as well as 3, is
/// replaced by the count over the expanded buckets when they hold five
/// candidates, and by the full scan's count when they do not.
pub proof fn lemma_legacy_decision(q: Seq<u16>, ds: Dataset)
    ensures
        ({
            let full = score_or(state_score(spec_full_state(q, ds)), 0);
            let p = spec_legacy_range(q, ds, 0, 1);
            let e = spec_legacy_range(q, ds, 1, 1);
            &&& p is None ==> spec_score_legacy(q, ds) == full
            &&& p is Some && p->0 != 2 && p->0 != 3 ==> spec_score_legacy(q, ds) == p->0
            &&& p is Some && (p->0 == 2 || p->0 == 3) && e is Some ==> spec_score_legacy(q, ds) == e->0
            &&& p is Some && (p->0 == 2 || p->0 == 3) && e is None ==> spec_score_legacy(q, ds) == full
        }),
{
}

} // verus!

verus! {

broadcast use {
    vstd::seq_lib::group_to_multiset_ensures,
    vstd::multiset::group_multiset_axioms,
    vstd::seq_lib::lemma_multiset_commutative,
};

/// Listing the same references in another order lists the same candidates.
proof fn lemma_candidates_same_multiset(q: Seq<u16>, ds: Dataset, a: Seq<u32>, b: Seq<u32>)
    requires
        a.to_multiset() == b.to_multiset(),
    ensures
        candidates(q, ds, a).to_multiset() == candidates(q, ds, b).to_multiset(),
    decreases a.len(),
{
    assert(a.to_multiset().len() == a.len() && b.to_multiset().len() == b.len());
    if a.len() == 0 {
        assert(b =~= a);
    } else {
        let x = a.last();
        let d = a.drop_last();
        assert(d.push(x) =~= a);
        assert(a.to_multiset().count(x) > 0);
        assert(b.contains(x));
        let j = choose|j: int| 0 <= j < b.len() && b[j] == x;
        assert(b.remove(j).to_multiset() =~= d.to_multiset()) by {
            assert(d.push(x).to_multiset() == d.to_multiset().insert(x));
        }
        lemma_candidates_same_multiset(q, ds, d, b.remove(j));
        lemma_candidates_push(q, ds, d, x);
        let cb = candidates(q, ds, b);
        let c = candidate(q, ds, x as int);
        assert(candidates(q, ds, b.remove(j)) =~= cb.remove(j));
        assert(cb[j] == c);
        assert(cb.remove(j).to_multiset() == cb.to_multiset().remove(c));
        assert(cb.to_multiset().count(c) > 0);
        assert(cb.to_multiset() =~= cb.to_multiset().remove(c).insert(c));
        assert(candidates(q, ds, d).push(c).to_multiset() == candidates(q, ds, d).to_multiset().insert(c));
    }
}

/// How often reference `x` is listed by the buckets named by `keys`: once when
/// its key is among them, never otherwise.
proof fn lemma_all_candidates_count(ds: Dataset, keys: Seq<usize>, x: u32)
    requires
        ds.is_indexed(),
        distinct_keys(keys),
    ensures
        all_candidates(ds.buckets@, keys).to_multiset().count(x) == if x < ds.len && keys.contains(
            reference_key(ds.vectors@, x as int) as usize,
        ) {
            1nat
        } else {
            0nat
        },
    decreases keys.len(),
{
    if keys.len() > 0 {
        let d = keys.drop_last();
        let last = keys.last();
        assert forall|i: int| 0 <= i < d.len() implies #[trigger] d[i] < TOTAL_BUCKETS by {
            assert(d[i] == keys[i]);
        }
        assert forall|i: int, j: int| 0 <= i < j < d.len() implies d[i] != d[j] by {
            assert(d[i] == keys[i] && d[j] == keys[j]);
        }
        lemma_all_candidates_count(ds, d, x);
        assert(last < TOTAL_BUCKETS);
        let bucket = ds.buckets@[last as int]@;
        assert(all_candidates(ds.buckets@, keys) == all_candidates(ds.buckets@, d) + bucket);
        lemma_bucket_members(ds.vectors@, ds.len as int, last as int);
        assert(bucket.no_duplicates()) by {
            assert forall|i: int, j: int|
                0 <= i < bucket.len() && 0 <= j < bucket.len() && i != j implies bucket[i] != bucket[j] by {
                if i < j {
                    assert(bucket[i] < bucket[j]);
                } else {
                    assert(bucket[j] < bucket[i]);
                }
            }
        }
        bucket.lemma_multiset_has_no_duplicates();
        let rk = reference_key(ds.vectors@, x as int);
        if x < ds.len {
            lemma_reference_in_own_bucket(&ds, x as int, last as int);
            assert(bucket.contains(x) <==> rk == last);
            if bucket.contains(x) {
                assert(bucket.to_multiset().count(x) == 1);
            }
            assert(keys.contains(rk as usize) <==> (d.contains(rk as usize) || last == rk as usize)) by {
                if keys.contains(rk as usize) {
                    let i = choose|i: int| 0 <= i < keys.len() && keys[i] == rk as usize;
                    if i < keys.len() - 1 {
                        assert(d[i] == keys[i]);
                    }
                }
                if d.contains(rk as usize) {
                    let i = choose|i: int| 0 <= i < d.len() && d[i] == rk as usize;
                    assert(keys[i] == d[i]);
                }
                assert(keys[keys.len() - 1] == last);
            }
            if d.contains(rk as usize) && last == rk as usize {
                let i = choose|i: int| 0 <= i < d.len() && d[i] == rk as usize;
                assert(keys[i] == keys[keys.len() - 1]);
            }
            assert(0 <= rk) by {
                lemma_key_nonneg(ds.vectors@, x as int);
            }
        } else {
            if bucket.contains(x) {
                let j = choose|j: int| 0 <= j < bucket.len() && bucket[j] == x;
                assert(bucket[j] < ds.len);
            }
        }
    }
}

/// In an indexed dataset, buckets whose keys cover every reference's key list
/// every reference exactly once: the same references as the full scan, in
/// bucket order.
proof fn lemma_all_candidates_reorders_references(q: Seq<u16>, ds: Dataset, keys: Seq<usize>)
    requires
        ds.is_indexed(),
        distinct_keys(keys),
        forall|i: int| 0 <= i < ds.len ==> keys.contains(#[trigger] reference_key(ds.vectors@, i) as usize),
    ensures
        all_candidates(ds.buckets@, keys).to_multiset() == all_indices(ds.len as nat).to_multiset(),
        candidate_count(ds.buckets@, keys) == ds.len,
        candidates(q, ds, all_candidates(ds.buckets@, keys)).to_multiset() == first_candidates(
            q,
            ds,
            ds.len as nat,
        ).to_multiset(),
{
    let ai = all_indices(ds.len as nat);
    let ac = all_candidates(ds.buckets@, keys);
    assert(ai.no_duplicates());
    ai.lemma_multiset_has_no_duplicates();
    assert forall|x: u32| ac.to_multiset().count(x) == ai.to_multiset().count(x) by {
        lemma_all_candidates_count(ds, keys, x);
        if x < ds.len {
            assert(ai[x as int] == x);
            assert(ai.contains(x));
            assert(keys.contains(reference_key(ds.vectors@, x as int) as usize));
        } else {
            if ai.contains(x) {
                let j = choose|j: int| 0 <= j < ai.len() && ai[j] == x;
            }
        }
    }
    assert(ac.to_multiset() =~= ai.to_multiset());
    assert(ac.to_multiset().len() == ac.len() && ai.to_multiset().len() == ai.len());
    lemma_all_candidates_members(ds.buckets@, keys);
    lemma_candidates_same_multiset(q, ds, ac, ai);
    assert(candidates(q, ds, ai) =~= first_candidates(q, ds, ds.len as nat));
}

} // verus!

verus! {

proof fn lemma_strided_len(c: Seq<u32>, pos: int, step: int)
    ensures
        strided(c, pos, step).len() <= if 0 <= pos < c.len() { c.len() - pos } else { 0 },
    decreases if 0 <= pos < c.len() { c.len() - pos } else { 0 },
{
    if step > 0 && 0 <= pos < c.len() {
        lemma_strided_len(c, pos + step, step);
    }
}

proof fn lemma_probe_order_len(buckets: Seq<Vec<u32>>, keys: Seq<usize>, step: usize, seed: usize)
    ensures
        probe_order(buckets, keys, step, seed).len() <= candidate_count(buckets, keys),
    decreases keys.len(),
{
    if keys.len() > 0 {
        lemma_probe_order_len(buckets, keys.drop_last(), step, seed);
        let b = keys.len() - 1;
        let c = buckets[keys[b] as int]@;
        lemma_strided_len(c, probe_start(c.len() as int, step, seed, b as usize), step as int);
    }
}

/// A probe visits no more references than its buckets list.
proof fn lemma_probe_visits_len(q: Seq<u16>, ds: Dataset, keys: Seq<usize>, max: usize, phase: usize)
    ensures
        probe_visits(q, ds, keys, max, phase).len() <= candidate_count(ds.buckets@, keys),
{
    let total = candidate_count(ds.buckets@, keys);
    lemma_probe_order_len(
        ds.buckets@,
        keys,
        probe_step(total, max as int) as usize,
        probe_seed(q, phase),
    );
}

/// Every reference lies in the query's expanded buckets: the query's boolean
/// features, amount and MCC buckets within one of the query's.
pub open spec fn all_in_expanded_buckets(q: Seq<u16>, ds: Dataset) -> bool {
    forall|i: int|
        0 <= i < ds.len ==> near_key(#[trigger] reference_key(ds.vectors@, i), spec_vector_bucket_key(q), 1, 1)
}

/// When every reference lies in the query's expanded buckets, those buckets
/// list every reference once, the primary buckets list no more, and an
/// expanded probe within its budget keeps five nearest of all references.
proof fn lemma_expanded_sees_all(q: Seq<u16>, ds: Dataset, max: usize, phase: usize)
    requires
        ds.is_indexed(),
        all_in_expanded_buckets(q, ds),
        ds.len <= max,
    ensures
        candidate_count(ds.buckets@, range_keys(q, 1, 1)) == ds.len,
        candidate_count(ds.buckets@, range_keys(q, 0, 1)) <= ds.len,
        probe_visits(q, ds, range_keys(q, 0, 1), PRIMARY_MAX_CANDIDATES_PER_QUERY, 0).len() <= ds.len,
        candidates(q, ds, all_candidates(ds.buckets@, range_keys(q, 1, 1))).to_multiset()
            == first_candidates(q, ds, ds.len as nat).to_multiset(),
        all_candidates(ds.buckets@, range_keys(q, 1, 1)).len() == ds.len,
        is_nearest_selection(
            kept(spec_probe_range(q, ds, 1, 1, max, phase)),
            first_candidates(q, ds, ds.len as nat),
            NEIGHBORS as nat,
        ),
        kept(spec_probe_range(q, ds, 1, 1, max, phase)).len() == spec_probe_range(q, ds, 1, 1, max, phase).1,
{
    let k = spec_vector_bucket_key(q);
    let wide = range_keys(q, 1, 1);
    let narrow = range_keys(q, 0, 1);
    lemma_query_key_in_rows(q, 1, 1);
    lemma_query_key_in_rows(q, 0, 1);
    assert forall|i: int| 0 <= i < ds.len implies wide.contains(
        #[trigger] reference_key(ds.vectors@, i) as usize,
    ) by {
        let rk = reference_key(ds.vectors@, i);
        lemma_key_nonneg(ds.vectors@, i);
        lemma_range_keys_members(q, 1, 1, rk as usize);
    }
    lemma_all_candidates_reorders_references(q, ds, wide);
    lemma_all_candidates_members(ds.buckets@, wide);
    assert forall|i: int| 0 <= i < narrow.len() implies wide.contains(#[trigger] narrow[i]) by {
        assert(narrow.contains(narrow[i]));
        lemma_range_keys_members(q, 0, 1, narrow[i]);
        lemma_range_keys_members(q, 1, 1, narrow[i]);
    }
    lemma_candidate_count_subset(ds.buckets@, narrow, wide);
    lemma_probe_visits_len(q, ds, narrow, PRIMARY_MAX_CANDIDATES_PER_QUERY, 0);
    lemma_probe_within_budget_visits_all(q, ds, wide, max, phase);
    lemma_nearest_selection_reordered(
        kept(spec_probe_range(q, ds, 1, 1, max, phase)),
        candidates(q, ds, all_candidates(ds.buckets@, wide)),
        first_candidates(q, ds, ds.len as nat),
        NEIGHBORS as nat,
    );
    lemma_from_empty_bounded(candidates(q, ds, probe_visits(q, ds, wide, max, phase)));
}

/// A primary probe that keeps five candidates visited at least five references.
proof fn lemma_full_primary_visits(q: Seq<u16>, ds: Dataset)
    requires
        spec_probe_range(q, ds, 0, 1, PRIMARY_MAX_CANDIDATES_PER_QUERY, 0).1 == NEIGHBORS,
    ensures
        probe_visits(q, ds, range_keys(q, 0, 1), PRIMARY_MAX_CANDIDATES_PER_QUERY, 0).len() >= NEIGHBORS,
{
    let items = candidates(q, ds, probe_visits(q, ds, range_keys(q, 0, 1), PRIMARY_MAX_CANDIDATES_PER_QUERY, 0));
    lemma_offer_all_selects_nearest(items);
    lemma_from_empty_bounded(items);
}

/// Five nearest of all references: the full scan keeps such a selection, and
/// when no two references lie at the same distance every such selection has
/// the full scan's fraud count.
proof fn lemma_full_scan_nearest(q: Seq<u16>, ds: Dataset, sel: Seq<Neighbor>)
    requires
        ds.len >= NEIGHBORS,
        is_nearest_selection(sel, first_candidates(q, ds, ds.len as nat), NEIGHBORS as nat),
    ensures
        distinct_distances(first_candidates(q, ds, ds.len as nat)) ==> fraud_count(sel) == score_or(
            state_score(spec_full_state(q, ds)),
            0,
        ),
{
    let items = first_candidates(q, ds, ds.len as nat);
    let full = spec_full_state(q, ds);
    lemma_offer_all_selects_nearest(items);
    lemma_from_empty_bounded(items);
    assert(kept(full) =~= full.0);
    if distinct_distances(items) {
        lemma_nearest_selection_unique(sel, kept(full), items);
    }
}

/// When every reference lies in the query's expanded buckets (its boolean
/// features, amount and MCC buckets within one) and they number no more than
/// the expanded budget, a borderline primary count (2 or 3 of five) is settled
/// by five nearest of all references: the bounded search returns their fraud
/// count, which is the full scan's when no two references lie at the same
/// distance.
pub proof fn lemma_v1_borderline_settled_by_all_references(q: Seq<u16>, ds: Dataset)
    requires
        ds.is_indexed(),
        all_in_expanded_buckets(q, ds),
        ds.len <= EXPANDED_MAX_CANDIDATES_PER_QUERY,
        spec_probe_range(q, ds, 0, 1, PRIMARY_MAX_CANDIDATES_PER_QUERY, 0).1 == NEIGHBORS,
        fraud_count(kept(spec_probe_range(q, ds, 0, 1, PRIMARY_MAX_CANDIDATES_PER_QUERY, 0))) == 2
            || fraud_count(kept(spec_probe_range(q, ds, 0, 1, PRIMARY_MAX_CANDIDATES_PER_QUERY, 0))) == 3,
    ensures
        exists|sel: Seq<Neighbor>|
            is_nearest_selection(sel, first_candidates(q, ds, ds.len as nat), NEIGHBORS as nat)
                && spec_score_v1(q, ds) == fraud_count(sel),
        distinct_distances(first_candidates(q, ds, ds.len as nat)) ==> spec_score_v1(q, ds) == score_or(
            state_score(spec_full_state(q, ds)),
            0,
        ),
{
    let expanded = spec_probe_range(q, ds, 1, 1, EXPANDED_MAX_CANDIDATES_PER_QUERY, 0);
    lemma_expanded_sees_all(q, ds, EXPANDED_MAX_CANDIDATES_PER_QUERY, 0);
    lemma_full_primary_visits(q, ds);
    lemma_v1_decision(q, ds);
    assert(expanded.1 == NEIGHBORS);
    lemma_full_scan_nearest(q, ds, kept(expanded));
}

/// When every reference lies in the query's expanded buckets and they number
/// no more than the expanded budget, a borderline primary count whose expanded
/// count is not 3 is settled by five nearest of all references, as in the
/// bounded search.
pub proof fn lemma_v2_borderline_settled_by_all_references(q: Seq<u16>, ds: Dataset)
    requires
        ds.is_indexed(),
        all_in_expanded_buckets(q, ds),
        ds.len <= EXPANDED_MAX_CANDIDATES_PER_QUERY,
        spec_probe_range(q, ds, 0, 1, PRIMARY_MAX_CANDIDATES_PER_QUERY, 0).1 == NEIGHBORS,
        fraud_count(kept(spec_probe_range(q, ds, 0, 1, PRIMARY_MAX_CANDIDATES_PER_QUERY, 0))) == 2
            || fraud_count(kept(spec_probe_range(q, ds, 0, 1, PRIMARY_MAX_CANDIDATES_PER_QUERY, 0))) == 3,
        fraud_count(kept(spec_probe_range(q, ds, 1, 1, EXPANDED_MAX_CANDIDATES_PER_QUERY, 0))) != 3,
    ensures
        exists|sel: Seq<Neighbor>|
            is_nearest_selection(sel, first_candidates(q, ds, ds.len as nat), NEIGHBORS as nat)
                && spec_score_v2(q, ds) == fraud_count(sel),
        distinct_distances(first_candidates(q, ds, ds.len as nat)) ==> spec_score_v2(q, ds) == score_or(
            state_score(spec_full_state(q, ds)),
            0,
        ),
{
    let expanded = spec_probe_range(q, ds, 1, 1, EXPANDED_MAX_CANDIDATES_PER_QUERY, 0);
    lemma_expanded_sees_all(q, ds, EXPANDED_MAX_CANDIDATES_PER_QUERY, 0);
    lemma_full_primary_visits(q, ds);
    lemma_v2_decision(q, ds);
    assert(expanded.1 == NEIGHBORS);
    lemma_full_scan_nearest(q, ds, kept(expanded));
}

} // verus!

verus! {

/// When every reference lies in the query's expanded buckets (its boolean
/// features, amount and MCC buckets within one) and they number no more than
/// the legacy budget, a borderline primary count, 2 as well as 3, is settled
/// by five nearest of all references: the legacy search returns their fraud
/// count, which is the full scan's when no two references lie at the same
/// distance.
pub proof fn lemma_legacy_borderline_settled_by_all_references(q: Seq<u16>, ds: Dataset)
    requires
        ds.is_indexed(),
        all_in_expanded_buckets(q, ds),
        ds.len <= LEGACY_MAX_CANDIDATES_PER_QUERY,
        spec_legacy_range(q, ds, 0, 1) == Some(2nat) || spec_legacy_range(q, ds, 0, 1) == Some(3nat),
    ensures
        exists|sel: Seq<Neighbor>|
            is_nearest_selection(sel, first_candidates(q, ds, ds.len as nat), NEIGHBORS as nat)
                && spec_score_legacy(q, ds) == fraud_count(sel),
        distinct_distances(first_candidates(q, ds, ds.len as nat)) ==> spec_score_legacy(q, ds)
            == score_or(state_score(spec_full_state(q, ds)), 0),
{
    let wide = range_keys(q, 1, 1);
    let ac = all_candidates(ds.buckets@, wide);
    lemma_expanded_sees_all(q, ds, LEGACY_MAX_CANDIDATES_PER_QUERY, 0);
    lemma_every_nth_one(ac);
    assert(legacy_visits(ds.buckets@, wide) == ac);
    let items = candidates(q, ds, ac);
    let st = offer_all(empty_state(), items);
    lemma_offer_all_selects_nearest(items);
    lemma_from_empty_bounded(items);
    lemma_nearest_selection_reordered(kept(st), items, first_candidates(q, ds, ds.len as nat), NEIGHBORS as nat);
    assert(st.1 == NEIGHBORS);
    assert(kept(st) =~= st.0);
    assert(spec_legacy_range(q, ds, 1, 1) == Some(fraud_count(kept(st))));
    lemma_full_scan_nearest(q, ds, kept(st));
}

} // verus!

verus! {

/// A probe that kept five candidates, merged with a second probe of the same
/// buckets, still holds five: its fraud count is that of five nearest among
/// the references both probes visited.
proof fn lemma_recheck_full(q: Seq<u16>, ds: Dataset, keys: Seq<usize>, max: usize)
    requires
        spec_probe_keys(q, ds, keys, max, 0).1 == NEIGHBORS,
    ensures
        ({
            let merged = offer_all(spec_probe_keys(q, ds, keys, max, 0), kept(spec_probe_keys(q, ds, keys, max, 1)));
            &&& merged.1 == NEIGHBORS
            &&& state_score(merged) == Some(fraud_count(kept(merged)))
            &&& is_nearest_selection(
                kept(merged),
                candidates(q, ds, probe_visits(q, ds, keys, max, 0)) + candidates(
                    q,
                    ds,
                    probe_visits(q, ds, keys, max, 1),
                ),
                NEIGHBORS as nat,
            )
        }),
{
    let first = spec_probe_keys(q, ds, keys, max, 0);
    let second = spec_probe_keys(q, ds, keys, max, 1);
    let merged = offer_all(first, kept(second));
    lemma_from_empty_bounded(candidates(q, ds, probe_visits(q, ds, keys, max, 0)));
    lemma_from_empty_bounded(candidates(q, ds, probe_visits(q, ds, keys, max, 1)));
    lemma_offer_all_selects_nearest_from(first, kept(second));
    lemma_offer_all_shape(first, kept(second));
    assert(kept(first).len() == NEIGHBORS);
    assert((kept(first) + kept(second)).len() >= NEIGHBORS);
    assert(kept(merged).len() == NEIGHBORS);
    assert(merged.1 == NEIGHBORS);
    assert(kept(merged) =~= merged.0);
    lemma_two_phase_merge_nearest(q, ds, keys, max);
}

/// The improved bounded search re-checks a count of exactly 3: when the
/// primary count is borderline and the expanded probe keeps five candidates of
/// which 3 are frauds, or when the primary probe has fewer than five
/// candidates and the boolean-slice probe keeps five of which 3 are frauds,
/// the result is the fraud count of five nearest among the references visited
/// by that probe and by its second-phase repetition. Without five primary
/// candidates, a boolean-slice probe that keeps five with another count gives
/// that count; failing that the global sample's count decides, and 0 when it
/// has fewer than five candidates.
pub proof fn lemma_v2_recheck_decision(q: Seq<u16>, ds: Dataset)
    ensures
        ({
            let primary = spec_probe_range(q, ds, 0, 1, PRIMARY_MAX_CANDIDATES_PER_QUERY, 0);
            let expanded = spec_probe_range(q, ds, 1, 1, EXPANDED_MAX_CANDIDATES_PER_QUERY, 0);
            let bool_slice = spec_probe_bool_slice(q, ds, 0);
            let sample = spec_global_sample(q, ds);
            let p = fraud_count(kept(primary));
            let wide_visits = candidates(
                q,
                ds,
                probe_visits(q, ds, range_keys(q, 1, 1), EXPANDED_MAX_CANDIDATES_PER_QUERY, 0),
            ) + candidates(
                q,
                ds,
                probe_visits(q, ds, range_keys(q, 1, 1), EXPANDED_MAX_CANDIDATES_PER_QUERY, 1),
            );
            let slice_visits = candidates(
                q,
                ds,
                probe_visits(q, ds, bool_slice_keys(q), BOOL_SLICE_MAX_CANDIDATES_PER_QUERY, 0),
            ) + candidates(
                q,
                ds,
                probe_visits(q, ds, bool_slice_keys(q), BOOL_SLICE_MAX_CANDIDATES_PER_QUERY, 1),
            );
            &&& primary.1 == NEIGHBORS && (p == 2 || p == 3) && expanded.1 == NEIGHBORS
                && fraud_count(kept(expanded)) == 3 ==> exists|sel: Seq<Neighbor>|
                is_nearest_selection(sel, wide_visits, NEIGHBORS as nat) && spec_score_v2(q, ds)
                    == fraud_count(sel)
            &&& primary.1 < NEIGHBORS && bool_slice.1 == NEIGHBORS && fraud_count(kept(bool_slice)) == 3
                ==> exists|sel: Seq<Neighbor>|
                is_nearest_selection(sel, slice_visits, NEIGHBORS as nat) && spec_score_v2(q, ds)
                    == fraud_count(sel)
            &&& primary.1 < NEIGHBORS && bool_slice.1 == NEIGHBORS && fraud_count(kept(bool_slice)) != 3
                ==> spec_score_v2(q, ds) == fraud_count(kept(bool_slice))
            &&& primary.1 < NEIGHBORS && bool_slice.1 < NEIGHBORS && sample.1 == NEIGHBORS
                ==> spec_score_v2(q, ds) == fraud_count(kept(sample))
            &&& primary.1 < NEIGHBORS && bool_slice.1 < NEIGHBORS && sample.1 < NEIGHBORS
                ==> spec_score_v2(q, ds) == 0
        }),
{
    let primary = spec_probe_range(q, ds, 0, 1, PRIMARY_MAX_CANDIDATES_PER_QUERY, 0);
    let expanded = spec_probe_range(q, ds, 1, 1, EXPANDED_MAX_CANDIDATES_PER_QUERY, 0);
    let bool_slice = spec_probe_bool_slice(q, ds, 0);
    lemma_probe_states_full(q, ds);
    if expanded.1 == NEIGHBORS {
        lemma_recheck_full(q, ds, range_keys(q, 1, 1), EXPANDED_MAX_CANDIDATES_PER_QUERY);
    }
    if bool_slice.1 == NEIGHBORS {
        lemma_recheck_full(q, ds, bool_slice_keys(q), BOOL_SLICE_MAX_CANDIDATES_PER_QUERY);
    }
}

} // verus!

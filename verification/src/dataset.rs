use vstd::prelude::*;

verus! {

/// Number of dimensions of every reference and query vector.
pub const DIMS: usize = 14;

/// Number of buckets along the (quantized) amount dimension.
pub const AMOUNT_BUCKETS: usize = 16;

/// Number of buckets along the (quantized) MCC-risk dimension.
pub const MCC_BUCKETS: usize = 8;

/// Total number of buckets: four boolean dimensions, MCC risk and amount.
pub const TOTAL_BUCKETS: usize = 2048;

/// Bucket of a boolean feature: set when the quantized value lies above the midpoint.
pub open spec fn spec_bool_bucket(value: u16) -> int {
    if value > 32768 { 1 } else { 0 }
}

pub fn bool_bucket(value: u16) -> (r: usize)
    ensures
        r == spec_bool_bucket(value),
{
    if value > 32768 {
        1
    } else {
        0
    }
}

/// Bucket of a quantized value in `[1, 65535]` split evenly into `buckets` parts;
/// the reserved value 0 ("absent") goes to bucket 0.
pub open spec fn spec_normalized_bucket(value: u16, buckets: int) -> int {
    if value == 0 {
        0
    } else {
        let b = (value - 1) * buckets / 65535;
        if b < buckets - 1 { b } else { buckets - 1 }
    }
}

pub fn normalized_bucket(value: u16, buckets: usize) -> (r: usize)
    requires
        buckets >= 1,
        buckets * 65534 <= usize::MAX,
    ensures
        r == spec_normalized_bucket(value, buckets as int),
        r < buckets,
{
    if value == 0 {
        return 0;
    }
    let normalized = value.saturating_sub(1) as usize;
    assert(normalized * buckets <= 65534 * buckets) by (nonlinear_arith)
        requires normalized <= 65534;
    let bucket = normalized * buckets / 65535;
    if bucket < buckets - 1 {
        bucket
    } else {
        buckets - 1
    }
}

} // verus!

verus! {

/// Bucket key of the six bucketed features: `amount` varies fastest, then the
/// MCC-risk bucket, then the four boolean features.
pub open spec fn spec_bucket_key(
    has_last: int,
    is_online: int,
    card_present: int,
    unknown_merchant: int,
    mcc_bucket: int,
    amount_bucket: int,
) -> int {
    amount_bucket + 16 * (mcc_bucket + 8 * (unknown_merchant + 2 * (card_present + 2 * (is_online
        + 2 * has_last))))
}

/// The parts of a bucket key each lie in their own range.
pub open spec fn parts_in_range(
    has_last: int,
    is_online: int,
    card_present: int,
    unknown_merchant: int,
    mcc_bucket: int,
    amount_bucket: int,
) -> bool {
    &&& 0 <= has_last < 2
    &&& 0 <= is_online < 2
    &&& 0 <= card_present < 2
    &&& 0 <= unknown_merchant < 2
    &&& 0 <= mcc_bucket < MCC_BUCKETS
    &&& 0 <= amount_bucket < AMOUNT_BUCKETS
}

pub fn bucket_key_from_parts(
    has_last: usize,
    is_online: usize,
    card_present: usize,
    unknown_merchant: usize,
    mcc_bucket: usize,
    amount_bucket: usize,
) -> (key: usize)
    requires
        spec_bucket_key(
            has_last as int,
            is_online as int,
            card_present as int,
            unknown_merchant as int,
            mcc_bucket as int,
            amount_bucket as int,
        ) <= usize::MAX,
    ensures
        key == spec_bucket_key(
            has_last as int,
            is_online as int,
            card_present as int,
            unknown_merchant as int,
            mcc_bucket as int,
            amount_bucket as int,
        ),
{
    amount_bucket + AMOUNT_BUCKETS * (mcc_bucket + MCC_BUCKETS * (unknown_merchant + 2 * (
    card_present + 2 * (is_online + 2 * has_last))))
}

/// Every in-range choice of parts gives a key below `TOTAL_BUCKETS`, and the key
/// determines the parts: they are its digits in the mixed radix
/// (16, 8, 2, 2, 2, 2).
pub proof fn lemma_bucket_key_decodes(
    has_last: int,
    is_online: int,
    card_present: int,
    unknown_merchant: int,
    mcc_bucket: int,
    amount_bucket: int,
)
    requires
        parts_in_range(has_last, is_online, card_present, unknown_merchant, mcc_bucket, amount_bucket),
    ensures
        ({
            let key = spec_bucket_key(
                has_last,
                is_online,
                card_present,
                unknown_merchant,
                mcc_bucket,
                amount_bucket,
            );
            &&& 0 <= key < TOTAL_BUCKETS
            &&& key % 16 == amount_bucket
            &&& (key / 16) % 8 == mcc_bucket
            &&& (key / 128) % 2 == unknown_merchant
            &&& (key / 256) % 2 == card_present
            &&& (key / 512) % 2 == is_online
            &&& key / 2048 == 0
            &&& key / 512 == is_online + 2 * has_last
            &&& has_last == key / 512 / 2
            &&& key / 128 == unknown_merchant + 2 * (card_present + 2 * (is_online + 2 * has_last))
        }),
{
    let key = spec_bucket_key(
        has_last,
        is_online,
        card_present,
        unknown_merchant,
        mcc_bucket,
        amount_bucket,
    );
    let r1 = mcc_bucket + 8 * (unknown_merchant + 2 * (card_present + 2 * (is_online + 2 * has_last)));
    let r2 = unknown_merchant + 2 * (card_present + 2 * (is_online + 2 * has_last));
    let r3 = card_present + 2 * (is_online + 2 * has_last);
    let r4 = is_online + 2 * has_last;
    assert(key == amount_bucket + 16 * r1);
    assert(key % 16 == amount_bucket && key / 16 == r1) by (nonlinear_arith)
        requires key == amount_bucket + 16 * r1, 0 <= amount_bucket < 16, r1 >= 0;
    assert(r1 % 8 == mcc_bucket && r1 / 8 == r2) by (nonlinear_arith)
        requires r1 == mcc_bucket + 8 * r2, 0 <= mcc_bucket < 8, r2 >= 0;
    assert(key / 128 == r2) by (nonlinear_arith)
        requires key == amount_bucket + 16 * (mcc_bucket + 8 * r2), 0 <= amount_bucket < 16,
            0 <= mcc_bucket < 8, r2 >= 0;
    assert(r2 % 2 == unknown_merchant && r2 / 2 == r3) by (nonlinear_arith)
        requires r2 == unknown_merchant + 2 * r3, 0 <= unknown_merchant < 2, r3 >= 0;
    assert(key / 256 == r3) by (nonlinear_arith)
        requires key / 128 == r2, r2 / 2 == r3, key >= 0;
    assert(r3 % 2 == card_present && r3 / 2 == r4) by (nonlinear_arith)
        requires r3 == card_present + 2 * r4, 0 <= card_present < 2, r4 >= 0;
    assert(key / 512 == r4) by (nonlinear_arith)
        requires key / 256 == r3, r3 / 2 == r4, key >= 0;
    assert(r4 % 2 == is_online && r4 / 2 == has_last) by (nonlinear_arith)
        requires r4 == is_online + 2 * has_last, 0 <= is_online < 2, 0 <= has_last < 2;
    assert(key / 2048 == 0) by (nonlinear_arith)
        requires key / 512 == r4, r4 < 4, key >= 0;
}

/// Distinct in-range parts give distinct bucket keys.
pub proof fn lemma_bucket_key_injective(
    a: (int, int, int, int, int, int),
    b: (int, int, int, int, int, int),
)
    requires
        parts_in_range(a.0, a.1, a.2, a.3, a.4, a.5),
        parts_in_range(b.0, b.1, b.2, b.3, b.4, b.5),
        spec_bucket_key(a.0, a.1, a.2, a.3, a.4, a.5) == spec_bucket_key(
            b.0,
            b.1,
            b.2,
            b.3,
            b.4,
            b.5,
        ),
    ensures
        a == b,
{
    lemma_bucket_key_decodes(a.0, a.1, a.2, a.3, a.4, a.5);
    lemma_bucket_key_decodes(b.0, b.1, b.2, b.3, b.4, b.5);
}

} // verus!

verus! {

/// Bucket key of a quantized vector: amount (dim 0), presence of a previous
/// transaction (dim 5, 0 when absent), online (dim 9), card present (dim 10),
/// unknown merchant (dim 11) and MCC risk (dim 12).
pub open spec fn spec_vector_bucket_key(v: Seq<u16>) -> int {
    spec_bucket_key(
        if v[5] == 0 { 0 } else { 1 },
        spec_bool_bucket(v[9]),
        spec_bool_bucket(v[10]),
        spec_bool_bucket(v[11]),
        spec_normalized_bucket(v[12], MCC_BUCKETS as int),
        spec_normalized_bucket(v[0], AMOUNT_BUCKETS as int),
    )
}

/// The bucket key of any quantized vector names one of the `TOTAL_BUCKETS` buckets.
pub proof fn lemma_vector_bucket_key_in_range(v: Seq<u16>)
    requires
        v.len() > 12,
    ensures
        0 <= spec_vector_bucket_key(v) < TOTAL_BUCKETS,
{
    lemma_normalized_bucket_in_range(v[12], MCC_BUCKETS as int);
    lemma_normalized_bucket_in_range(v[0], AMOUNT_BUCKETS as int);
    lemma_bucket_key_decodes(
        if v[5] == 0 { 0 } else { 1 },
        spec_bool_bucket(v[9]),
        spec_bool_bucket(v[10]),
        spec_bool_bucket(v[11]),
        spec_normalized_bucket(v[12], MCC_BUCKETS as int),
        spec_normalized_bucket(v[0], AMOUNT_BUCKETS as int),
    );
}

/// A normalized bucket lies in `[0, buckets)`.
pub proof fn lemma_normalized_bucket_in_range(value: u16, buckets: int)
    requires
        buckets >= 1,
    ensures
        0 <= spec_normalized_bucket(value, buckets) < buckets,
{
    if value != 0 {
        assert((value - 1) * buckets / 65535 >= 0) by (nonlinear_arith)
            requires value >= 1, buckets >= 1;
    }
}

/// Normalized buckets are monotone in the quantized value.
pub proof fn lemma_normalized_bucket_monotone(a: u16, b: u16, buckets: int)
    requires
        buckets >= 1,
        a <= b,
    ensures
        spec_normalized_bucket(a, buckets) <= spec_normalized_bucket(b, buckets),
{
    lemma_normalized_bucket_in_range(a, buckets);
    lemma_normalized_bucket_in_range(b, buckets);
    if a != 0 {
        assert((a - 1) * buckets / 65535 <= (b - 1) * buckets / 65535) by (nonlinear_arith)
            requires 1 <= a <= b, buckets >= 1;
    }
}

fn key_of_values(v0: u16, v5: u16, v9: u16, v10: u16, v11: u16, v12: u16) -> (key: usize)
    ensures
        key == spec_bucket_key(
            if v5 == 0 { 0 } else { 1 },
            spec_bool_bucket(v9),
            spec_bool_bucket(v10),
            spec_bool_bucket(v11),
            spec_normalized_bucket(v12, MCC_BUCKETS as int),
            spec_normalized_bucket(v0, AMOUNT_BUCKETS as int),
        ),
        key < TOTAL_BUCKETS,
{
    let amount_bucket = normalized_bucket(v0, AMOUNT_BUCKETS);
    let has_last: usize = if v5 == 0 { 0 } else { 1 };
    let is_online = bool_bucket(v9);
    let card_present = bool_bucket(v10);
    let unknown_merchant = bool_bucket(v11);
    let mcc_bucket = normalized_bucket(v12, MCC_BUCKETS);
    proof {
        lemma_bucket_key_decodes(
            has_last as int,
            is_online as int,
            card_present as int,
            unknown_merchant as int,
            mcc_bucket as int,
            amount_bucket as int,
        );
    }
    bucket_key_from_parts(has_last, is_online, card_present, unknown_merchant, mcc_bucket, amount_bucket)
}

pub fn bucket_key_from_quantized_vector(vector: &[u16]) -> (key: usize)
    requires
        vector@.len() > 12,
    ensures
        key == spec_vector_bucket_key(vector@),
        key < TOTAL_BUCKETS,
{
    key_of_values(vector[0], vector[5], vector[9], vector[10], vector[11], vector[12])
}

/// The `i`-th reference vector stored (row after row) in `vectors`.
pub open spec fn reference(vectors: Seq<u16>, i: int) -> Seq<u16> {
    vectors.subrange(i * DIMS, i * DIMS + DIMS)
}

/// Bucket key of the `i`-th reference vector.
pub open spec fn reference_key(vectors: Seq<u16>, i: int) -> int {
    spec_vector_bucket_key(reference(vectors, i))
}

/// The indices below `n` of the references whose bucket key is `k`, in increasing order.
pub open spec fn bucket_members(vectors: Seq<u16>, n: int, k: int) -> Seq<u32>
    decreases n,
{
    if n <= 0 {
        Seq::empty()
    } else if reference_key(vectors, n - 1) == k {
        bucket_members(vectors, n - 1, k).push((n - 1) as u32)
    } else {
        bucket_members(vectors, n - 1, k)
    }
}

/// The reference index, as a `Dataset` holds `len` quantized vectors of
/// `DIMS` values each, their labels (1 for fraud), the buckets that group
/// reference indices by bucket key, and the sample of indices scanned when no
/// bucket can supply five neighbours.
pub struct Dataset {
    pub vectors: Vec<u16>,
    pub labels: Vec<u8>,
    pub len: usize,
    pub buckets: Vec<Vec<u32>>,
    pub global_sample: Vec<u32>,
}

impl Dataset {
    /// The vectors and labels hold (at least) `len` references.
    pub open spec fn holds_references(&self) -> bool {
        &&& self.vectors@.len() >= self.len * DIMS
        &&& self.labels@.len() >= self.len
    }

    /// Well-formedness as the searches need it: the vectors and labels hold
    /// `len` references, there is one bucket per key, every bucket entry and
    /// every global-sample entry names one of the references, and twice the
    /// number of entries in all buckets fits in a `usize`.
    pub open spec fn wf(&self) -> bool {
        &&& self.holds_references()
        &&& self.buckets@.len() == TOTAL_BUCKETS
        &&& forall|k: int, j: int|
            0 <= k < TOTAL_BUCKETS && 0 <= j < self.buckets@[k]@.len() ==> #[trigger] self.buckets@[k]@[j]
                < self.len
        &&& forall|g: int|
            0 <= g < self.global_sample@.len() ==> #[trigger] self.global_sample@[g] < self.len
        &&& 2 * candidate_count(self.buckets@, all_bucket_keys()) <= usize::MAX
    }

    /// The dataset is the index of its references: it holds exactly `len`
    /// of them, bucket `k` lists exactly the references whose key is `k`, in
    /// increasing order, and the global sample lists every reference in order.
    pub open spec fn is_indexed(&self) -> bool {
        &&& self.wf()
        &&& self.vectors@.len() == self.len * DIMS
        &&& self.labels@.len() == self.len
        &&& self.len <= u32::MAX
        &&& forall|k: int|
            0 <= k < TOTAL_BUCKETS ==> #[trigger] self.buckets@[k]@ == bucket_members(
                self.vectors@,
                self.len as int,
                k,
            )
        &&& self.global_sample@ == all_indices(self.len as nat)
    }
}

/// Indices `0..n` of every reference.
pub open spec fn all_indices(n: nat) -> Seq<u32> {
    Seq::new(n, |i: int| i as u32)
}

/// Every bucket key, in increasing order.
pub open spec fn all_bucket_keys() -> Seq<usize> {
    Seq::new(TOTAL_BUCKETS as nat, |k: int| k as usize)
}

} // verus!

verus! {

/// Every member of bucket `k` among the first `n` references is below `n`, has
/// key `k`, and members appear in strictly increasing order.
pub proof fn lemma_bucket_members(vectors: Seq<u16>, n: int, k: int)
    requires
        0 <= n <= u32::MAX + 1,
    ensures
        bucket_members(vectors, n, k).len() <= n,
        forall|j: int|
            0 <= j < bucket_members(vectors, n, k).len() ==> {
                let m = #[trigger] bucket_members(vectors, n, k)[j];
                &&& m < n
                &&& reference_key(vectors, m as int) == k
            },
        forall|i: int, j: int|
            0 <= i < j < bucket_members(vectors, n, k).len() ==> bucket_members(vectors, n, k)[i]
                < bucket_members(vectors, n, k)[j],
    decreases n,
{
    if n > 0 {
        lemma_bucket_members(vectors, n - 1, k);
    }
}

/// Total number of candidates listed by the buckets named in `keys`.
pub open spec fn candidate_count(buckets: Seq<Vec<u32>>, keys: Seq<usize>) -> int
    decreases keys.len(),
{
    if keys.len() == 0 {
        0
    } else {
        candidate_count(buckets, keys.drop_last()) + buckets[keys.last() as int]@.len()
    }
}

/// Every entry of `keys` is a bucket key.
pub open spec fn keys_in_range(keys: Seq<usize>) -> bool {
    forall|i: int| 0 <= i < keys.len() ==> #[trigger] keys[i] < TOTAL_BUCKETS
}

/// The entries of `keys` are pairwise distinct bucket keys.
pub open spec fn distinct_keys(keys: Seq<usize>) -> bool {
    &&& keys_in_range(keys)
    &&& forall|i: int, j: int| 0 <= i < j < keys.len() ==> keys[i] != keys[j]
}

spec fn members_total(vectors: Seq<u16>, n: int, keys: Seq<usize>) -> int
    decreases keys.len(),
{
    if keys.len() == 0 {
        0
    } else {
        members_total(vectors, n, keys.drop_last()) + bucket_members(
            vectors,
            n,
            keys.last() as int,
        ).len()
    }
}

spec fn occurrences(keys: Seq<usize>, x: int) -> int
    decreases keys.len(),
{
    if keys.len() == 0 {
        0
    } else {
        occurrences(keys.drop_last(), x) + if keys.last() == x { 1int } else { 0int }
    }
}

proof fn lemma_occurrences_at_most_one(keys: Seq<usize>, x: int)
    requires
        forall|i: int, j: int| 0 <= i < j < keys.len() ==> keys[i] != keys[j],
    ensures
        0 <= occurrences(keys, x) <= 1,
        !keys.contains(x as usize) && 0 <= x ==> occurrences(keys, x) == 0,
    decreases keys.len(),
{
    if keys.len() > 0 {
        let d = keys.drop_last();
        assert forall|i: int, j: int| 0 <= i < j < d.len() implies d[i] != d[j] by {
            assert(d[i] == keys[i] && d[j] == keys[j]);
        }
        lemma_occurrences_at_most_one(d, x);
        if keys.last() == x {
            assert(!d.contains(x as usize)) by {
                if d.contains(x as usize) {
                    let i = choose|i: int| 0 <= i < d.len() && d[i] == x as usize;
                    assert(keys[i] == keys[keys.len() - 1]);
                }
            }
        }
        if !keys.contains(x as usize) && 0 <= x {
            assert(keys[keys.len() - 1] != x as usize);
            assert forall|i: int| 0 <= i < d.len() implies d[i] != x as usize by {
                assert(d[i] == keys[i]);
            }
        }
    }
}

proof fn lemma_members_total_step(vectors: Seq<u16>, n: int, keys: Seq<usize>)
    requires
        n >= 0,
    ensures
        members_total(vectors, n + 1, keys) == members_total(vectors, n, keys) + occurrences(
            keys,
            reference_key(vectors, n),
        ),
    decreases keys.len(),
{
    if keys.len() > 0 {
        lemma_members_total_step(vectors, n, keys.drop_last());
    }
}

proof fn lemma_members_total_bound(vectors: Seq<u16>, n: int, keys: Seq<usize>)
    requires
        n >= 0,
        forall|i: int, j: int| 0 <= i < j < keys.len() ==> keys[i] != keys[j],
    ensures
        0 <= members_total(vectors, n, keys) <= n,
    decreases n,
{
    if n == 0 {
        lemma_members_total_zero(vectors, keys);
    } else {
        lemma_members_total_bound(vectors, n - 1, keys);
        lemma_members_total_step(vectors, n - 1, keys);
        lemma_occurrences_at_most_one(keys, reference_key(vectors, n - 1));
    }
}

proof fn lemma_members_total_zero(vectors: Seq<u16>, keys: Seq<usize>)
    ensures
        members_total(vectors, 0, keys) == 0,
    decreases keys.len(),
{
    if keys.len() > 0 {
        lemma_members_total_zero(vectors, keys.drop_last());
    }
}

pub proof fn lemma_candidate_count_nonneg(buckets: Seq<Vec<u32>>, keys: Seq<usize>)
    ensures
        candidate_count(buckets, keys) >= 0,
    decreases keys.len(),
{
    if keys.len() > 0 {
        lemma_candidate_count_nonneg(buckets, keys.drop_last());
    }
}

proof fn lemma_candidate_count_remove(buckets: Seq<Vec<u32>>, keys: Seq<usize>, j: int)
    requires
        0 <= j < keys.len(),
    ensures
        candidate_count(buckets, keys) == candidate_count(buckets, keys.remove(j))
            + buckets[keys[j] as int]@.len(),
    decreases keys.len(),
{
    if j == keys.len() - 1 {
        assert(keys.remove(j) =~= keys.drop_last());
    } else {
        let d = keys.drop_last();
        lemma_candidate_count_remove(buckets, d, j);
        assert(keys.remove(j).drop_last() =~= d.remove(j));
        assert(keys.remove(j).last() == keys.last());
        assert(d[j] == keys[j]);
    }
}

/// The buckets named by pairwise distinct keys `a`, all of which also occur in
/// the pairwise distinct keys `b`, list no more candidates than those of `b`.
pub proof fn lemma_candidate_count_subset(buckets: Seq<Vec<u32>>, a: Seq<usize>, b: Seq<usize>)
    requires
        forall|i: int, j: int| 0 <= i < j < a.len() ==> a[i] != a[j],
        forall|i: int, j: int| 0 <= i < j < b.len() ==> b[i] != b[j],
        forall|i: int| 0 <= i < a.len() ==> b.contains(#[trigger] a[i]),
    ensures
        candidate_count(buckets, a) <= candidate_count(buckets, b),
    decreases a.len(),
{
    if a.len() == 0 {
        lemma_candidate_count_nonneg(buckets, b);
    } else {
        let x = a.last();
        assert(b.contains(a[a.len() - 1]));
        let j = choose|j: int| 0 <= j < b.len() && b[j] == x;
        let b2 = b.remove(j);
        let a2 = a.drop_last();
        assert forall|i: int, k: int| 0 <= i < k < a2.len() implies a2[i] != a2[k] by {
            assert(a2[i] == a[i] && a2[k] == a[k]);
        }
        assert forall|i: int, k: int| 0 <= i < k < b2.len() implies b2[i] != b2[k] by {
            let ii = if i < j { i } else { i + 1 };
            let kk = if k < j { k } else { k + 1 };
            assert(b2[i] == b[ii] && b2[k] == b[kk]);
        }
        assert forall|i: int| 0 <= i < a2.len() implies b2.contains(#[trigger] a2[i]) by {
            assert(a2[i] == a[i]);
            assert(b.contains(a[i]));
            let p = choose|p: int| 0 <= p < b.len() && b[p] == a[i];
            assert(a[i] != a[a.len() - 1]);
            assert(p != j);
            if p < j {
                assert(b2[p] == b[p]);
            } else {
                assert(b2[p - 1] == b[p]);
            }
        }
        lemma_candidate_count_subset(buckets, a2, b2);
        lemma_candidate_count_remove(buckets, b, j);
    }
}

/// In a well-formed dataset the buckets of distinct keys list at most as many
/// candidates as all buckets together, so twice their number fits in a `usize`.
pub proof fn lemma_candidate_count_bound(ds: &Dataset, keys: Seq<usize>)
    requires
        ds.wf(),
        distinct_keys(keys),
    ensures
        0 <= candidate_count(ds.buckets@, keys) <= candidate_count(ds.buckets@, all_bucket_keys()),
        2 * candidate_count(ds.buckets@, keys) <= usize::MAX,
{
    let all = all_bucket_keys();
    assert forall|i: int| 0 <= i < keys.len() implies all.contains(#[trigger] keys[i]) by {
        assert(all[keys[i] as int] == keys[i]);
    }
    lemma_candidate_count_nonneg(ds.buckets@, keys);
    lemma_candidate_count_subset(ds.buckets@, keys, all);
}

proof fn lemma_candidate_count_members(
    buckets: Seq<Vec<u32>>,
    vectors: Seq<u16>,
    n: int,
    keys: Seq<usize>,
)
    requires
        buckets.len() == TOTAL_BUCKETS,
        forall|k: int| 0 <= k < TOTAL_BUCKETS ==> #[trigger] buckets[k]@ == bucket_members(vectors, n, k),
        forall|i: int| 0 <= i < keys.len() ==> #[trigger] keys[i] < TOTAL_BUCKETS,
    ensures
        candidate_count(buckets, keys) == members_total(vectors, n, keys),
    decreases keys.len(),
{
    if keys.len() > 0 {
        let d = keys.drop_last();
        assert forall|i: int| 0 <= i < d.len() implies #[trigger] d[i] < TOTAL_BUCKETS by {
            assert(d[i] == keys[i]);
        }
        lemma_candidate_count_members(buckets, vectors, n, d);
        assert(keys.last() < TOTAL_BUCKETS);
        assert(buckets[keys.last() as int]@ == bucket_members(vectors, n, keys.last() as int));
    }
}

/// Buckets that list exactly the references of each key hold `n` entries at
/// most in all, each naming one of the `n` references.
proof fn lemma_members_structure(buckets: Seq<Vec<u32>>, vectors: Seq<u16>, n: int)
    requires
        0 <= n <= u32::MAX,
        buckets.len() == TOTAL_BUCKETS,
        forall|k: int| 0 <= k < TOTAL_BUCKETS ==> #[trigger] buckets[k]@ == bucket_members(vectors, n, k),
    ensures
        candidate_count(buckets, all_bucket_keys()) <= n,
        forall|k: int, j: int|
            0 <= k < TOTAL_BUCKETS && 0 <= j < buckets[k]@.len() ==> #[trigger] buckets[k]@[j] < n,
{
    let all = all_bucket_keys();
    assert forall|i: int| 0 <= i < all.len() implies #[trigger] all[i] < TOTAL_BUCKETS by {}
    assert forall|i: int, j: int| 0 <= i < j < all.len() implies all[i] != all[j] by {}
    lemma_candidate_count_members(buckets, vectors, n, all);
    lemma_members_total_bound(vectors, n, all);
    assert forall|k: int, j: int|
        0 <= k < TOTAL_BUCKETS && 0 <= j < buckets[k]@.len() implies #[trigger] buckets[k]@[j] < n by {
        lemma_bucket_members(vectors, n, k);
        assert(buckets[k]@[j] == bucket_members(vectors, n, k)[j]);
    }
}

} // verus!

verus! {

fn reference_key_at(vectors: &Vec<u16>, idx: usize) -> (key: usize)
    requires
        idx * DIMS + DIMS <= vectors@.len(),
    ensures
        key == reference_key(vectors@, idx as int),
        key < TOTAL_BUCKETS,
{
    let n = vectors.len();
    assert(idx * DIMS + DIMS <= n);
    let offset = idx * DIMS;
    let ghost r = reference(vectors@, idx as int);
    assert(r[0] == vectors@[offset as int] && r[5] == vectors@[offset + 5] && r[9]
        == vectors@[offset + 9] && r[10] == vectors@[offset + 10] && r[11] == vectors@[offset + 11]
        && r[12] == vectors@[offset + 12]);
    key_of_values(
        vectors[offset],
        vectors[offset + 5],
        vectors[offset + 9],
        vectors[offset + 10],
        vectors[offset + 11],
        vectors[offset + 12],
    )
}

impl Dataset {
    /// Builds the index over `labels.len()` references whose quantized vectors
    /// are stored row after row in `vectors`: bucket `k` lists, in increasing
    /// order, the references whose bucket key is `k`, and the global sample
    /// lists every reference.
    pub fn from_references(vectors: Vec<u16>, labels: Vec<u8>) -> (ds: Dataset)
        requires
            vectors@.len() == labels@.len() * DIMS,
            labels@.len() <= u32::MAX,
        ensures
            ds.is_indexed(),
            ds.vectors@ == vectors@,
            ds.labels@ == labels@,
            ds.len == labels@.len(),
    {
        let len = labels.len();
        let nvec = vectors.len();
        let mut buckets: Vec<Vec<u32>> = Vec::new();
        let mut k: usize = 0;
        while k < TOTAL_BUCKETS
            invariant
                k <= TOTAL_BUCKETS,
                buckets@.len() == k,
                forall|j: int| 0 <= j < k ==> #[trigger] buckets@[j]@ == Seq::<u32>::empty(),
            decreases TOTAL_BUCKETS - k,
        {
            buckets.push(Vec::new());
            k = k + 1;
        }
        let mut global_sample: Vec<u32> = Vec::new();
        let mut idx: usize = 0;
        while idx < len
            invariant
                idx <= len,
                len == labels@.len(),
                len <= u32::MAX,
                vectors@.len() == len * DIMS,
                buckets@.len() == TOTAL_BUCKETS,
                forall|j: int|
                    0 <= j < TOTAL_BUCKETS ==> #[trigger] buckets@[j]@ == bucket_members(
                        vectors@,
                        idx as int,
                        j,
                    ),
                nvec == vectors@.len(),
                global_sample@.len() == idx,
                forall|g: int| 0 <= g < idx ==> #[trigger] global_sample@[g] == g,
            decreases len - idx,
        {
            assert(idx * DIMS + DIMS <= vectors@.len()) by (nonlinear_arith)
                requires idx < len, vectors@.len() == len * DIMS;
            let key = reference_key_at(&vectors, idx);
            buckets[key].push(idx as u32);
            global_sample.push(idx as u32);
            idx = idx + 1;
        }
        proof {
            lemma_members_structure(buckets@, vectors@, len as int);
            assert(global_sample@ =~= all_indices(len as nat));
            assert(2 * len <= nvec);
        }
        let ds = Dataset { vectors, labels, len, buckets, global_sample };
        ds
    }
}

} // verus!

verus! {

/// Number of non-empty buckets among the first `n`.
pub open spec fn count_non_empty(buckets: Seq<Vec<u32>>, n: int) -> int
    decreases n,
{
    if n <= 0 {
        0
    } else {
        count_non_empty(buckets, n - 1) + if buckets[n - 1]@.len() > 0 { 1int } else { 0int }
    }
}

impl Dataset {
    /// Number of buckets that list at least one reference.
    pub fn non_empty_buckets(&self) -> (n: usize)
        ensures
            n == count_non_empty(self.buckets@, self.buckets@.len() as int),
    {
        let mut n: usize = 0;
        let mut k: usize = 0;
        while k < self.buckets.len()
            invariant
                k <= self.buckets@.len(),
                n == count_non_empty(self.buckets@, k as int),
                n <= k,
            decreases self.buckets@.len() - k,
        {
            if self.buckets[k].len() > 0 {
                n = n + 1;
            }
            k = k + 1;
        }
        n
    }
}

} // verus!

verus! {

proof fn lemma_bucket_members_contains(vectors: Seq<u16>, n: int, k: int, i: int)
    requires
        0 <= i < n <= u32::MAX + 1,
    ensures
        bucket_members(vectors, n, k).contains(i as u32) <==> reference_key(vectors, i) == k,
    decreases n,
{
    lemma_bucket_members(vectors, n, k);
    let m = bucket_members(vectors, n, k);
    if i < n - 1 {
        lemma_bucket_members_contains(vectors, n - 1, k, i);
        lemma_bucket_members(vectors, n - 1, k);
        let p = bucket_members(vectors, n - 1, k);
        if reference_key(vectors, n - 1) == k {
            assert(m == p.push((n - 1) as u32));
            if m.contains(i as u32) {
                let j = choose|j: int| 0 <= j < m.len() && m[j] == i as u32;
                if j < p.len() {
                    assert(p[j] == i as u32);
                }
            }
            if p.contains(i as u32) {
                let j = choose|j: int| 0 <= j < p.len() && p[j] == i as u32;
                assert(m[j] == i as u32);
            }
        }
    } else {
        if reference_key(vectors, n - 1) == k {
            assert(m[m.len() - 1] == i as u32);
        } else {
            lemma_bucket_members(vectors, n - 1, k);
            if m.contains(i as u32) {
                let j = choose|j: int| 0 <= j < m.len() && m[j] == i as u32;
                assert(m[j] < n - 1);
            }
        }
    }
}

/// In an indexed dataset every reference is listed in the bucket of its own
/// key and in no other bucket.
pub proof fn lemma_reference_in_own_bucket(ds: &Dataset, i: int, k: int)
    requires
        ds.is_indexed(),
        0 <= i < ds.len,
        0 <= k < TOTAL_BUCKETS,
    ensures
        ds.buckets@[k]@.contains(i as u32) <==> reference_key(ds.vectors@, i) == k,
{
    lemma_bucket_members_contains(ds.vectors@, ds.len as int, k, i);
}

} // verus!

verus! {

/// A bucket key is its amount part plus 16 times its MCC part plus 128 times
/// its boolean part.
pub proof fn lemma_key_digits(e: int)
    requires
        0 <= e < TOTAL_BUCKETS,
    ensures
        e == e % 16 + 16 * ((e / 16) % 8 + 8 * (e / 128)),
        0 <= e % 16 < AMOUNT_BUCKETS,
        0 <= (e / 16) % 8 < MCC_BUCKETS,
{
    assert(e == e % 16 + 16 * ((e / 16) % 8 + 8 * (e / 128))) by (nonlinear_arith)
        requires 0 <= e;
}

/// Number of references `i < n` whose bucket key satisfies `pred`.
pub open spec fn count_refs_with_key(vectors: Seq<u16>, n: int, pred: spec_fn(int) -> bool) -> int
    decreases n,
{
    if n <= 0 {
        0
    } else {
        count_refs_with_key(vectors, n - 1, pred) + if pred(reference_key(vectors, n - 1)) {
            1int
        } else {
            0int
        }
    }
}

proof fn lemma_occurrences_contained(keys: Seq<usize>, x: int)
    requires
        0 <= x < TOTAL_BUCKETS,
        keys.contains(x as usize),
    ensures
        occurrences(keys, x) >= 1,
    decreases keys.len(),
{
    let d = keys.drop_last();
    lemma_occurrences_nonneg(d, x);
    if keys.last() != x as usize {
        let i = choose|i: int| 0 <= i < keys.len() && keys[i] == x as usize;
        assert(i < keys.len() - 1);
        assert(d[i] == keys[i]);
        lemma_occurrences_contained(d, x);
    }
}

proof fn lemma_occurrences_nonneg(keys: Seq<usize>, x: int)
    ensures
        occurrences(keys, x) >= 0,
    decreases keys.len(),
{
    if keys.len() > 0 {
        lemma_occurrences_nonneg(keys.drop_last(), x);
    }
}

/// Every reference's bucket key is a bucket key.
pub proof fn lemma_key_nonneg(vectors: Seq<u16>, i: int)
    ensures
        0 <= reference_key(vectors, i) < TOTAL_BUCKETS,
{
    let v = reference(vectors, i);
    lemma_normalized_bucket_in_range(v[12], MCC_BUCKETS as int);
    lemma_normalized_bucket_in_range(v[0], AMOUNT_BUCKETS as int);
    lemma_bucket_key_decodes(
        if v[5] == 0 { 0 } else { 1 },
        spec_bool_bucket(v[9]),
        spec_bool_bucket(v[10]),
        spec_bool_bucket(v[11]),
        spec_normalized_bucket(v[12], MCC_BUCKETS as int),
        spec_normalized_bucket(v[0], AMOUNT_BUCKETS as int),
    );
}

proof fn lemma_members_total_counts(
    vectors: Seq<u16>,
    n: int,
    keys: Seq<usize>,
    pred: spec_fn(int) -> bool,
)
    requires
        n >= 0,
        distinct_keys(keys),
        forall|k: int| 0 <= k < TOTAL_BUCKETS ==> (keys.contains(k as usize) <==> #[trigger] pred(k)),
    ensures
        members_total(vectors, n, keys) == count_refs_with_key(vectors, n, pred),
    decreases n,
{
    if n == 0 {
        lemma_members_total_zero(vectors, keys);
    } else {
        lemma_members_total_counts(vectors, n - 1, keys, pred);
        lemma_members_total_step(vectors, n - 1, keys);
        let k = reference_key(vectors, n - 1);
        lemma_key_nonneg(vectors, n - 1);
        lemma_occurrences_at_most_one(keys, k);
        if keys.contains(k as usize) {
            lemma_occurrences_contained(keys, k);
        }
        assert(pred(k) <==> keys.contains(k as usize));
    }
}

/// In an indexed dataset the buckets named by distinct keys list exactly the
/// references whose key is among them: as many candidates as such references.
pub proof fn lemma_candidate_count_counts_references(
    ds: &Dataset,
    keys: Seq<usize>,
    pred: spec_fn(int) -> bool,
)
    requires
        ds.is_indexed(),
        distinct_keys(keys),
        forall|k: int| 0 <= k < TOTAL_BUCKETS ==> (keys.contains(k as usize) <==> #[trigger] pred(k)),
    ensures
        candidate_count(ds.buckets@, keys) == count_refs_with_key(ds.vectors@, ds.len as int, pred),
{
    lemma_candidate_count_members(ds.buckets@, ds.vectors@, ds.len as int, keys);
    lemma_members_total_counts(ds.vectors@, ds.len as int, keys, pred);
}

} // verus!

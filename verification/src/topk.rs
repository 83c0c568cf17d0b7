//! Keeping the five nearest candidates seen so far.

use vstd::prelude::*;
use vstd::multiset::Multiset;

verus! {

broadcast use {
    vstd::seq_lib::group_to_multiset_ensures,
    vstd::multiset::group_multiset_axioms,
    vstd::multiset::group_multiset_properties,
};

/// Number of neighbours that decide a score.
pub const NEIGHBORS: usize = 5;

/// A candidate neighbour: its squared distance to the query and its label
/// (1 for fraud).
pub type Neighbor = (u64, u8);

/// Abstract state of a top-five buffer: its five slots and how many of them are filled.
pub type TopState = (Seq<Neighbor>, nat);

/// Index of the first slot with the largest distance among slots `0..n`.
pub open spec fn worst_slot(top: Seq<Neighbor>, n: int) -> int
    decreases n,
{
    if n <= 1 {
        0
    } else {
        let w = worst_slot(top, n - 1);
        if top[n - 1].0 > top[w].0 {
            n - 1
        } else {
            w
        }
    }
}

/// The slots of a state that hold candidates.
pub open spec fn kept(st: TopState) -> Seq<Neighbor> {
    st.0.take(st.1 as int)
}

/// The state before any candidate was seen.
pub open spec fn empty_state() -> TopState {
    (Seq::new(5, |i: int| (u64::MAX, 0u8)), 0)
}

/// Offering candidate `c`: a free slot takes it; once all five slots are
/// filled it replaces the first farthest candidate if it is strictly nearer.
pub open spec fn offer(st: TopState, c: Neighbor) -> TopState {
    if st.1 < NEIGHBORS {
        (st.0.update(st.1 as int, c), st.1 + 1)
    } else {
        let w = worst_slot(st.0, NEIGHBORS as int);
        if c.0 < st.0[w].0 {
            (st.0.update(w, c), st.1)
        } else {
            st
        }
    }
}

/// Offering every candidate of `items`, in order.
pub open spec fn offer_all(st: TopState, items: Seq<Neighbor>) -> TopState
    decreases items.len(),
{
    if items.len() == 0 {
        st
    } else {
        offer(offer_all(st, items.drop_last()), items.last())
    }
}

/// Number of candidates labelled as fraud.
pub open spec fn fraud_count(s: Seq<Neighbor>) -> nat
    decreases s.len(),
{
    if s.len() == 0 {
        0
    } else {
        fraud_count(s.drop_last()) + if s.last().1 == 1 { 1nat } else { 0nat }
    }
}

/// Score of a state: the number of frauds among its five candidates, or
/// nothing while fewer than five were seen.
pub open spec fn state_score(st: TopState) -> Option<nat> {
    if st.1 < NEIGHBORS {
        None
    } else {
        Some(fraud_count(st.0))
    }
}

/// `kept` holds `min(k, |items|)` of `items` (counted with multiplicity), and
/// none of the items left out is strictly nearer than any kept one.
pub open spec fn is_nearest_selection(kept: Seq<Neighbor>, items: Seq<Neighbor>, k: nat) -> bool {
    &&& kept.len() == if items.len() < k { items.len() } else { k }
    &&& kept.to_multiset().subset_of(items.to_multiset())
    &&& forall|x: Neighbor, y: Neighbor|
        #[trigger] kept.contains(x) && #[trigger] kept.to_multiset().count(y)
            < items.to_multiset().count(y)
            ==> x.0 <= y.0
}

/// Buffer of the (at most) five nearest candidates seen so far.
#[derive(Clone, Copy)]
pub struct ProbeResult {
    pub top: [Neighbor; 5],
    pub filled: usize,
}

impl View for ProbeResult {
    type V = TopState;

    open spec fn view(&self) -> TopState {
        (self.top@, self.filled as nat)
    }
}

impl ProbeResult {
    pub open spec fn wf(&self) -> bool {
        self.filled <= NEIGHBORS
    }

    pub fn empty() -> (r: ProbeResult)
        ensures
            r@ == empty_state(),
            r.wf(),
    {
        let r = ProbeResult {
            top: [(u64::MAX, 0), (u64::MAX, 0), (u64::MAX, 0), (u64::MAX, 0), (u64::MAX, 0)],
            filled: 0,
        };
        assert(r.top@ =~= empty_state().0);
        r
    }

    /// Number of frauds among the five kept candidates, once five were seen.
    pub fn score(self) -> (r: Option<usize>)
        requires
            self.wf(),
        ensures
            r matches Some(n) ==> state_score(self@) == Some(n as nat),
            r is None ==> state_score(self@) is None,
    {
        if self.filled < NEIGHBORS {
            return None;
        }
        let mut frauds: usize = 0;
        let mut i: usize = 0;
        while i < NEIGHBORS
            invariant
                i <= NEIGHBORS,
                frauds == fraud_count(self.top@.take(i as int)),
                frauds <= i,
            decreases NEIGHBORS - i,
        {
            assert(self.top@.take(i + 1).drop_last() =~= self.top@.take(i as int));
            if self.top[i].1 == 1 {
                frauds = frauds + 1;
            }
            i = i + 1;
        }
        assert(self.top@.take(5) =~= self.top@);
        Some(frauds)
    }
}

/// The first slot holding the largest distance.
pub fn find_worst_idx(top: &[Neighbor; 5]) -> (r: usize)
    ensures
        r == worst_slot(top@, NEIGHBORS as int),
        r < NEIGHBORS,
        forall|i: int| 0 <= i < NEIGHBORS ==> (#[trigger] top@[i]).0 <= top@[r as int].0,
        forall|i: int| 0 <= i < r ==> (#[trigger] top@[i]).0 < top@[r as int].0,
{
    proof {
        lemma_worst_slot(top@, NEIGHBORS as int);
    }
    let mut worst_idx: usize = 0;
    let mut worst_dist = top[0].0;
    let mut i: usize = 1;
    while i < NEIGHBORS
        invariant
            1 <= i <= NEIGHBORS,
            worst_idx == worst_slot(top@, i as int),
            worst_idx < i,
            worst_dist == top@[worst_idx as int].0,
        decreases NEIGHBORS - i,
    {
        if top[i].0 > worst_dist {
            worst_dist = top[i].0;
            worst_idx = i;
        }
        i = i + 1;
    }
    worst_idx
}

/// Offers candidate `(dist, label)` to the buffer `top` with `filled` slots in use.
pub fn update_top5(top: &mut [Neighbor; 5], filled: &mut usize, dist: u64, label: u8)
    requires
        *old(filled) <= NEIGHBORS,
    ensures
        (final(top)@, *final(filled) as nat) == offer(
            (old(top)@, *old(filled) as nat),
            (dist, label),
        ),
        *final(filled) <= NEIGHBORS,
{
    if *filled < NEIGHBORS {
        top[*filled] = (dist, label);
        *filled = *filled + 1;
        return;
    }
    let worst_idx = find_worst_idx(top);
    let worst_dist = top[worst_idx].0;
    if dist < worst_dist {
        top[worst_idx] = (dist, label);
    }
}

/// Offers every kept candidate of `right` to `left`.
pub fn merge_probe_results(left: ProbeResult, right: ProbeResult) -> (r: ProbeResult)
    requires
        left.wf(),
        right.wf(),
    ensures
        r.wf(),
        r@ == offer_all(left@, kept(right@)),
{
    let ghost start = left@;
    let mut left = left;
    let mut i: usize = 0;
    while i < right.filled
        invariant
            i <= right.filled <= NEIGHBORS,
            left.wf(),
            left@ == offer_all(start, kept(right@).take(i as int)),
        decreases right.filled - i,
    {
        let (dist, label) = right.top[i];
        update_top5(&mut left.top, &mut left.filled, dist, label);
        assert(kept(right@).take(i + 1).drop_last() =~= kept(right@).take(i as int));
        i = i + 1;
    }
    assert(kept(right@).take(right.filled as int) =~= kept(right@));
    left
}

} // verus!

verus! {

/// The worst slot among `0..n` is one of them and no slot there is farther.
pub proof fn lemma_worst_slot(top: Seq<Neighbor>, n: int)
    requires
        1 <= n <= top.len(),
    ensures
        0 <= worst_slot(top, n) < n,
        forall|i: int| 0 <= i < n ==> (#[trigger] top[i]).0 <= top[worst_slot(top, n)].0,
        forall|i: int|
            0 <= i < worst_slot(top, n) ==> (#[trigger] top[i]).0 < top[worst_slot(top, n)].0,
    decreases n,
{
    if n > 1 {
        lemma_worst_slot(top, n - 1);
    }
}

spec fn selection_inv(st: TopState, items: Seq<Neighbor>, disc: Seq<Neighbor>) -> bool {
    &&& st.0.len() == NEIGHBORS
    &&& st.1 == if items.len() < NEIGHBORS { items.len() } else { NEIGHBORS as nat }
    &&& kept(st).to_multiset().add(disc.to_multiset()) == items.to_multiset()
    &&& forall|i: int, j: int|
        0 <= i < kept(st).len() && 0 <= j < disc.len() ==> #[trigger] kept(st)[i].0
            <= #[trigger] disc[j].0
}

proof fn lemma_offer_all_inv(st0: TopState, items: Seq<Neighbor>) -> (disc: Seq<Neighbor>)
    requires
        st0.0.len() == NEIGHBORS,
        st0.1 <= NEIGHBORS,
    ensures
        selection_inv(offer_all(st0, items), kept(st0) + items, disc),
    decreases items.len(),
{
    if items.len() == 0 {
        let e = Seq::<Neighbor>::empty();
        let k = kept(st0);
        assert(k + items =~= k);
        assert(e.to_multiset().len() == 0);
        assert(e.to_multiset() =~= Multiset::empty());
        assert(k.to_multiset().add(e.to_multiset()) =~= k.to_multiset());
        e
    } else {
        let prev = items.drop_last();
        let c = items.last();
        let disc0 = lemma_offer_all_inv(st0, prev);
        let allprev = kept(st0) + prev;
        let all = kept(st0) + items;
        let st = offer_all(st0, prev);
        let st2 = offer(st, c);
        assert(items =~= prev.push(c));
        assert(all =~= allprev.push(c));
        assert(offer_all(st0, items) == st2);
        let k0 = kept(st);
        if st.1 < NEIGHBORS {
            // no candidate was discarded yet
            assert(k0.to_multiset().len() == k0.len());
            assert(allprev.to_multiset().len() == allprev.len());
            assert(disc0.to_multiset().len() == disc0.len());
            assert(k0.to_multiset().add(disc0.to_multiset()).len() == k0.to_multiset().len()
                + disc0.to_multiset().len());
            assert(disc0.len() == 0);
            assert(kept(st2) =~= k0.push(c));
            assert(kept(st2).to_multiset().add(disc0.to_multiset()) =~= all.to_multiset());
            disc0
        } else {
            assert(k0 =~= st.0);
            lemma_worst_slot(st.0, NEIGHBORS as int);
            let w = worst_slot(st.0, NEIGHBORS as int);
            let worst = st.0[w];
            if c.0 < worst.0 {
                let disc = disc0.push(worst);
                assert(kept(st2) =~= st.0.update(w, c));
                assert(st.0.update(w, c).to_multiset() == st.0.to_multiset().insert(c).remove(worst));
                assert(st.0.to_multiset().count(worst) > 0);
                assert(kept(st2).to_multiset().add(disc.to_multiset()) =~= all.to_multiset());
                assert forall|i: int, j: int|
                    0 <= i < kept(st2).len() && 0 <= j < disc.len() implies #[trigger] kept(
                    st2,
                )[i].0 <= #[trigger] disc[j].0 by {
                    if j < disc0.len() {
                        assert(disc[j] == disc0[j]);
                        assert(k0[w].0 <= disc0[j].0);
                    }
                }
                disc
            } else {
                let disc = disc0.push(c);
                assert(kept(st2) =~= st.0);
                assert(kept(st2).to_multiset().add(disc.to_multiset()) =~= all.to_multiset());
                assert forall|i: int, j: int|
                    0 <= i < kept(st2).len() && 0 <= j < disc.len() implies #[trigger] kept(
                    st2,
                )[i].0 <= #[trigger] disc[j].0 by {
                    if j < disc0.len() {
                        assert(disc[j] == disc0[j]);
                    }
                }
                disc
            }
        }
    }
}

/// Offering candidates to any buffer keeps a selection of the five nearest
/// among the candidates it kept and the ones offered.
pub proof fn lemma_offer_all_selects_nearest_from(st: TopState, items: Seq<Neighbor>)
    requires
        st.0.len() == NEIGHBORS,
        st.1 <= NEIGHBORS,
    ensures
        is_nearest_selection(kept(offer_all(st, items)), kept(st) + items, NEIGHBORS as nat),
        offer_all(st, items).0.len() == NEIGHBORS,
{
    let all = kept(st) + items;
    let disc = lemma_offer_all_inv(st, items);
    let k = kept(offer_all(st, items));
    assert(k.to_multiset().subset_of(all.to_multiset()));
    assert forall|x: Neighbor, y: Neighbor|
        #[trigger] k.contains(x) && #[trigger] k.to_multiset().count(y)
            < all.to_multiset().count(y) implies x.0 <= y.0 by {
        assert(disc.to_multiset().count(y) > 0);
        assert(disc.contains(y));
        let j = choose|j: int| 0 <= j < disc.len() && disc[j] == y;
        let i = choose|i: int| 0 <= i < k.len() && k[i] == x;
        assert(k[i].0 <= disc[j].0);
    }
}

/// Merging any buffer `left` with the buffer of `right` keeps five nearest
/// among the candidates both of them kept.
pub proof fn lemma_merge_kept_nearest(left: TopState, right: TopState)
    requires
        left.0.len() == NEIGHBORS,
        left.1 <= NEIGHBORS,
    ensures
        is_nearest_selection(
            kept(offer_all(left, kept(right))),
            kept(left) + kept(right),
            NEIGHBORS as nat,
        ),
{
    lemma_offer_all_selects_nearest_from(left, kept(right));
}

/// Offering a sequence of candidates to an empty buffer keeps a selection of
/// the five nearest of them (all of them while fewer than five were offered).
pub proof fn lemma_offer_all_selects_nearest(items: Seq<Neighbor>)
    ensures
        is_nearest_selection(kept(offer_all(empty_state(), items)), items, NEIGHBORS as nat),
        offer_all(empty_state(), items).0.len() == NEIGHBORS,
{
    lemma_offer_all_selects_nearest_from(empty_state(), items);
    assert(kept(empty_state()) + items =~= items);
}

} // verus!

verus! {

/// Offering one more candidate after a sequence is offering the extended sequence.
pub proof fn lemma_offer_all_push(st: TopState, items: Seq<Neighbor>, c: Neighbor)
    ensures
        offer_all(st, items.push(c)) == offer(offer_all(st, items), c),
{
    assert(items.push(c).drop_last() =~= items);
}

} // verus!

verus! {

/// Offering candidates keeps five slots and at most five of them filled.
pub proof fn lemma_offer_all_shape(st: TopState, items: Seq<Neighbor>)
    requires
        st.0.len() == NEIGHBORS,
        st.1 <= NEIGHBORS,
    ensures
        offer_all(st, items).0.len() == NEIGHBORS,
        offer_all(st, items).1 <= NEIGHBORS,
    decreases items.len(),
{
    if items.len() > 0 {
        lemma_offer_all_shape(st, items.drop_last());
        lemma_worst_slot(offer_all(st, items.drop_last()).0, NEIGHBORS as int);
    }
}

/// At most as many frauds as candidates.
pub proof fn lemma_fraud_count_bound(s: Seq<Neighbor>)
    ensures
        fraud_count(s) <= s.len(),
    decreases s.len(),
{
    if s.len() > 0 {
        lemma_fraud_count_bound(s.drop_last());
    }
}

/// A score, when there is one, counts frauds among five candidates: it is at most five.
pub proof fn lemma_state_score_bound(st: TopState)
    requires
        st.0.len() == NEIGHBORS,
    ensures
        state_score(st) matches Some(s) ==> s <= NEIGHBORS,
{
    lemma_fraud_count_bound(st.0);
}

} // verus!

verus! {

/// Offering `a` then `b` is offering `a + b`.
pub proof fn lemma_offer_all_concat(st: TopState, a: Seq<Neighbor>, b: Seq<Neighbor>)
    ensures
        offer_all(st, a + b) == offer_all(offer_all(st, a), b),
    decreases b.len(),
{
    if b.len() == 0 {
        assert(a + b =~= a);
    } else {
        lemma_offer_all_concat(st, a, b.drop_last());
        assert((a + b).drop_last() =~= a + b.drop_last());
        assert((a + b).last() == b.last());
    }
}

/// Merging the buffer of `right` into the buffer of `left` keeps five nearest
/// among everything offered to `left` and the candidates `right` kept.
pub proof fn lemma_merge_selects_nearest(left_items: Seq<Neighbor>, right_items: Seq<Neighbor>)
    ensures
        ({
            let left = offer_all(empty_state(), left_items);
            let right = offer_all(empty_state(), right_items);
            is_nearest_selection(
                kept(offer_all(left, kept(right))),
                left_items + kept(right),
                NEIGHBORS as nat,
            )
        }),
{
    let right = offer_all(empty_state(), right_items);
    lemma_offer_all_concat(empty_state(), left_items, kept(right));
    lemma_offer_all_selects_nearest(left_items + kept(right));
}

} // verus!

verus! {

/// A submultiset as large as the whole is the whole.
proof fn lemma_sub_multiset_same_len(small: Multiset<Neighbor>, big: Multiset<Neighbor>, v: Neighbor)
    requires
        small.subset_of(big),
        small.len() >= big.len(),
    ensures
        small.count(v) == big.count(v),
{
    assert(big.sub(small).len() == 0);
    assert(big.sub(small) =~= Multiset::empty());
    assert(big.sub(small).count(v) == 0);
}

/// Five nearest among `a` and five nearest of `b` are five nearest among `a` and `b`.
pub proof fn lemma_nearest_of_nearest(
    a: Seq<Neighbor>,
    b: Seq<Neighbor>,
    r: Seq<Neighbor>,
    k: Seq<Neighbor>,
)
    requires
        is_nearest_selection(r, b, NEIGHBORS as nat),
        is_nearest_selection(k, a + r, NEIGHBORS as nat),
    ensures
        is_nearest_selection(k, a + b, NEIGHBORS as nat),
{
    let am = a.to_multiset();
    let bm = b.to_multiset();
    let rm = r.to_multiset();
    let km = k.to_multiset();
    vstd::seq_lib::lemma_multiset_commutative(a, r);
    vstd::seq_lib::lemma_multiset_commutative(a, b);
    assert((a + r).to_multiset() == am.add(rm));
    assert((a + b).to_multiset() == am.add(bm));
    assert((a + r).len() == a.len() + r.len());
    assert((a + b).len() == a.len() + b.len());
    assert forall|v: Neighbor| km.count(v) <= #[trigger] am.add(bm).count(v) by {
        assert(km.count(v) <= am.add(rm).count(v));
        assert(rm.count(v) <= bm.count(v));
    }
    assert(km.subset_of(am.add(bm)));
    assert forall|x: Neighbor, y: Neighbor|
        #[trigger] k.contains(x) && #[trigger] km.count(y) < (a + b).to_multiset().count(y)
            implies x.0 <= y.0 by {
        if km.count(y) < (a + r).to_multiset().count(y) {
            // y is left out of the selection among `a + r`
        } else {
            assert(rm.count(y) < bm.count(y));
            if x.0 > y.0 {
                // every candidate kept from `b` is at most as far as `y`, so all
                // of them are kept among `a + r`
                assert forall|v: Neighbor| rm.count(v) <= #[trigger] km.count(v) by {
                    if rm.count(v) > 0 {
                        assert(r.contains(v));
                        assert(v.0 <= y.0);
                        if km.count(v) < am.add(rm).count(v) {
                            assert(x.0 <= v.0);
                        }
                    }
                }
                assert(rm.subset_of(km));
                assert(rm.subset_of(bm));
                assert(rm.len() == r.len() && bm.len() == b.len() && km.len() == k.len());
                if b.len() <= NEIGHBORS {
                    lemma_sub_multiset_same_len(rm, bm, y);
                }
                assert(r.len() == NEIGHBORS);
                assert(km.subset_of(am.add(rm)));
                assert(k.len() <= NEIGHBORS);
                lemma_sub_multiset_same_len(rm, km, x);
                assert(km.count(x) > 0);
                assert(r.contains(x));
                assert(x.0 <= y.0);
            }
        }
    }
}

/// Merging the buffer of a probe over `right_items` into the buffer of a probe
/// over `left_items` keeps five nearest among both item sequences.
pub proof fn lemma_merge_selects_nearest_of_both(
    left_items: Seq<Neighbor>,
    right_items: Seq<Neighbor>,
)
    ensures
        is_nearest_selection(
            kept(
                offer_all(
                    offer_all(empty_state(), left_items),
                    kept(offer_all(empty_state(), right_items)),
                ),
            ),
            left_items + right_items,
            NEIGHBORS as nat,
        ),
{
    let right = offer_all(empty_state(), right_items);
    lemma_offer_all_selects_nearest(right_items);
    lemma_merge_selects_nearest(left_items, right_items);
    lemma_nearest_of_nearest(
        left_items,
        right_items,
        kept(right),
        kept(offer_all(offer_all(empty_state(), left_items), kept(right))),
    );
}

} // verus!

verus! {

/// Slots that no candidate has filled yet keep the sentinel `(u64::MAX, 0)`.
pub proof fn lemma_unfilled_slots(items: Seq<Neighbor>)
    ensures
        forall|i: int|
            offer_all(empty_state(), items).1 <= i < NEIGHBORS ==> #[trigger] offer_all(
                empty_state(),
                items,
            ).0[i] == (u64::MAX, 0u8),
    decreases items.len(),
{
    if items.len() > 0 {
        lemma_unfilled_slots(items.drop_last());
        lemma_offer_all_shape(empty_state(), items.drop_last());
    }
}

} // verus!

verus! {

/// No two of `items` lie at the same distance.
pub open spec fn distinct_distances(items: Seq<Neighbor>) -> bool {
    forall|i: int, j: int| 0 <= i < j < items.len() ==> items[i].0 != items[j].0
}

proof fn lemma_fraud_count_remove(s: Seq<Neighbor>, j: int)
    requires
        0 <= j < s.len(),
    ensures
        fraud_count(s) == fraud_count(s.remove(j)) + if s[j].1 == 1 { 1nat } else { 0nat },
    decreases s.len(),
{
    if j == s.len() - 1 {
        assert(s.remove(j) =~= s.drop_last());
    } else {
        lemma_fraud_count_remove(s.drop_last(), j);
        assert(s.remove(j).drop_last() =~= s.drop_last().remove(j));
        assert(s.remove(j).last() == s.last());
    }
}

/// The fraud count of a sequence of candidates depends only on which
/// candidates it holds, not on their order.
pub proof fn lemma_fraud_count_same_multiset(a: Seq<Neighbor>, b: Seq<Neighbor>)
    requires
        a.to_multiset() == b.to_multiset(),
    ensures
        fraud_count(a) == fraud_count(b),
    decreases a.len(),
{
    assert(a.to_multiset().len() == a.len() && b.to_multiset().len() == b.len());
    if a.len() == 0 {
        assert(b =~= a);
    } else {
        let x = a.last();
        let d = a.drop_last();
        assert(d.push(x) =~= a);
        assert(a.to_multiset().count(x) > 0);
        assert(b.contains(x));
        let j = choose|j: int| 0 <= j < b.len() && b[j] == x;
        assert(b.remove(j).to_multiset() =~= d.to_multiset()) by {
            assert(d.push(x).to_multiset() == d.to_multiset().insert(x));
        }
        lemma_fraud_count_same_multiset(d, b.remove(j));
        lemma_fraud_count_remove(b, j);
    }
}

/// A nearest selection among `a` is one among any reordering of `a`.
pub proof fn lemma_nearest_selection_reordered(
    sel: Seq<Neighbor>,
    a: Seq<Neighbor>,
    b: Seq<Neighbor>,
    k: nat,
)
    requires
        is_nearest_selection(sel, a, k),
        a.to_multiset() == b.to_multiset(),
    ensures
        is_nearest_selection(sel, b, k),
{
    assert(a.to_multiset().len() == a.len() && b.to_multiset().len() == b.len());
}

/// Among candidates at pairwise distinct distances, any two selections of the
/// five nearest hold the same candidates, and so the same fraud count.
pub proof fn lemma_nearest_selection_unique(s1: Seq<Neighbor>, s2: Seq<Neighbor>, items: Seq<Neighbor>)
    requires
        is_nearest_selection(s1, items, NEIGHBORS as nat),
        is_nearest_selection(s2, items, NEIGHBORS as nat),
        distinct_distances(items),
    ensures
        s1.to_multiset() == s2.to_multiset(),
        fraud_count(s1) == fraud_count(s2),
{
    let m1 = s1.to_multiset();
    let m2 = s2.to_multiset();
    let im = items.to_multiset();
    assert(items.no_duplicates()) by {
        assert forall|i: int, j: int|
            0 <= i < items.len() && 0 <= j < items.len() && i != j implies items[i] != items[j] by {
            if i < j {
                assert(items[i].0 != items[j].0);
            } else {
                assert(items[j].0 != items[i].0);
            }
        }
    }
    items.lemma_multiset_has_no_duplicates();
    assert forall|v: Neighbor| im.count(v) <= 1 by {
        if im.count(v) > 0 {
            assert(im.contains(v));
        }
    }
    assert(m1.len() == m2.len());
    assert forall|y: Neighbor| #[trigger] m1.count(y) <= m2.count(y) by {
        if m1.count(y) > m2.count(y) {
            assert(m1.count(y) <= im.count(y));
            assert(s1.contains(y));
            if forall|v: Neighbor| #[trigger] m2.count(v) <= m1.count(v) {
                assert(m2.subset_of(m1));
                lemma_sub_multiset_same_len(m2, m1, y);
            } else {
                let x = choose|v: Neighbor| #[trigger] m2.count(v) > m1.count(v);
                assert(m2.count(x) <= im.count(x));
                assert(s2.contains(x));
                assert(m1.count(x) < im.count(x));
                assert(m2.count(y) < im.count(y));
                assert(y.0 <= x.0);
                assert(x.0 <= y.0);
                assert(items.contains(x));
                assert(items.contains(y));
                let i = choose|i: int| 0 <= i < items.len() && items[i] == x;
                let j = choose|j: int| 0 <= j < items.len() && items[j] == y;
                if i < j {
                    assert(items[i].0 != items[j].0);
                } else if j < i {
                    assert(items[j].0 != items[i].0);
                }
            }
        }
    }
    assert(m1.subset_of(m2));
    assert forall|v: Neighbor| m1.count(v) == m2.count(v) by {
        lemma_sub_multiset_same_len(m1, m2, v);
    }
    assert(m1 =~= m2);
    lemma_fraud_count_same_multiset(s1, s2);
}

} // verus!

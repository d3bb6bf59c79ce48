use rand::Rng;
use vstd::prelude::*;

verus! {

/// A sequence is sorted in non-decreasing order.
pub open spec fn is_sorted(a: Seq<i64>) -> bool {
    forall|i: int, j: int| 0 <= i <= j < a.len() ==> a[i] <= a[j]
}

/// Leftmost insertion point of `x` in `a`: the index `lo` such that every element
/// before it is below `x` and the element at it (if any) is at least `x`.
pub fn bisect_left(a: &Vec<i64>, x: i64) -> (lo: usize)
    ensures
        lo <= a.len(),
        lo == 0 || a[lo - 1] < x,
        lo == a.len() || a[lo as int] >= x,
        is_sorted(a@) ==> forall|i: int| 0 <= i < lo ==> a[i] < x,
        is_sorted(a@) ==> forall|i: int| lo <= i < a.len() ==> a[i] >= x,
{
    let mut lo: usize = 0;
    let mut hi: usize = a.len();
    while lo < hi
        invariant
            lo <= hi <= a.len(),
            lo == 0 || a[lo - 1] < x,
            hi == a.len() || a[hi as int] >= x,
        decreases hi - lo,
    {
        let mid = lo + (hi - lo) / 2;
        if a[mid] < x {
            lo = mid + 1;
        } else {
            hi = mid;
        }
    }
    lo
}

/// The weight an item effectively carries: non-positive weights count as zero.
pub open spec fn effective_weight(w: i64) -> int {
    if w <= 0 { 0 } else { w as int }
}

/// The effective weights of a whole weight list.
pub open spec fn effective_weights(ws: Seq<i64>) -> Seq<int> {
    Seq::new(ws.len(), |i: int| effective_weight(ws[i]))
}

/// Sum of a sequence of integers.
pub open spec fn seq_sum(s: Seq<int>) -> int
    decreases s.len(),
{
    if s.len() == 0 { 0 } else { seq_sum(s.drop_last()) + s.last() }
}

/// Sum of the first `n` elements.
pub open spec fn prefix_sum(s: Seq<int>, n: int) -> int {
    seq_sum(s.take(n))
}

/// Number of strictly positive elements.
pub open spec fn positive_count(s: Seq<int>) -> nat
    decreases s.len(),
{
    if s.len() == 0 {
        0
    } else {
        positive_count(s.drop_last()) + if s.last() > 0 { 1nat } else { 0nat }
    }
}

pub open spec fn all_nonneg(s: Seq<int>) -> bool {
    forall|i: int| 0 <= i < s.len() ==> s[i] >= 0
}

proof fn lemma_prefix_step(s: Seq<int>, n: int)
    requires
        0 <= n < s.len(),
    ensures
        prefix_sum(s, n + 1) == prefix_sum(s, n) + s[n],
{
    assert(s.take(n + 1).drop_last() =~= s.take(n));
}

proof fn lemma_prefix_full(s: Seq<int>)
    ensures
        prefix_sum(s, s.len() as int) == seq_sum(s),
{
    assert(s.take(s.len() as int) =~= s);
}

proof fn lemma_prefix_zero(s: Seq<int>)
    ensures
        prefix_sum(s, 0) == 0,
{
    assert(s.take(0) =~= Seq::<int>::empty());
}

proof fn lemma_prefix_monotone(s: Seq<int>, a: int, b: int)
    requires
        all_nonneg(s),
        0 <= a <= b <= s.len(),
    ensures
        prefix_sum(s, a) <= prefix_sum(s, b),
    decreases b - a,
{
    if a < b {
        lemma_prefix_monotone(s, a, b - 1);
        lemma_prefix_step(s, b - 1);
    }
}

proof fn lemma_prefix_nonneg(s: Seq<int>, n: int)
    requires
        all_nonneg(s),
        0 <= n <= s.len(),
    ensures
        prefix_sum(s, n) >= 0,
{
    lemma_prefix_zero(s);
    lemma_prefix_monotone(s, 0, n);
}

proof fn lemma_prefix_update(s: Seq<int>, i: int, v: int, n: int)
    requires
        0 <= i < s.len(),
        0 <= n <= s.len(),
    ensures
        prefix_sum(s.update(i, v), n) == prefix_sum(s, n) + if i < n { v - s[i] } else { 0 },
    decreases n,
{
    if n == 0 {
        lemma_prefix_zero(s);
        lemma_prefix_zero(s.update(i, v));
    } else {
        lemma_prefix_update(s, i, v, n - 1);
        lemma_prefix_step(s, n - 1);
        lemma_prefix_step(s.update(i, v), n - 1);
    }
}

proof fn lemma_positive_count_update(s: Seq<int>, i: int)
    requires
        0 <= i < s.len(),
        s[i] > 0,
    ensures
        positive_count(s.update(i, 0)) + 1 == positive_count(s),
    decreases s.len(),
{
    let t = s.update(i, 0);
    if i == s.len() - 1 {
        assert(t.drop_last() =~= s.drop_last());
    } else {
        assert(t.drop_last() =~= s.drop_last().update(i, 0));
        lemma_positive_count_update(s.drop_last(), i);
    }
}

proof fn lemma_sum_positive(s: Seq<int>)
    requires
        all_nonneg(s),
        positive_count(s) > 0,
    ensures
        seq_sum(s) >= 1,
    decreases s.len(),
{
    let d = s.drop_last();
    assert(all_nonneg(d));
    if positive_count(d) > 0 {
        lemma_sum_positive(d);
    } else {
        lemma_prefix_full(d);
        lemma_prefix_nonneg(d, d.len() as int);
    }
}

proof fn lemma_positive_count_bound(s: Seq<int>)
    ensures
        positive_count(s) <= s.len(),
    decreases s.len(),
{
    if s.len() > 0 {
        lemma_positive_count_bound(s.drop_last());
    }
}

/// One weighted draw: `d` lies in `1..=total` and `i` is the item whose
/// cumulative-weight interval `(prefix_sum(r, i), prefix_sum(r, i + 1)]` holds it.
pub open spec fn draw_rule(r: Seq<int>, d: int, i: int) -> bool {
    &&& 1 <= d <= seq_sum(r)
    &&& 0 <= i < r.len()
    &&& prefix_sum(r, i) < d <= prefix_sum(r, i + 1)
}

/// The weights left once the items in `picked` were drawn.
pub open spec fn pool_after(ew: Seq<int>, picked: Seq<usize>) -> Seq<int> {
    Seq::new(ew.len(), |i: int| if picked.contains(i as usize) { 0 } else { ew[i] })
}

/// `picks` come from the numbers `draws`, one draw each, every draw taken from
/// the weights left by the draws before it.
pub open spec fn drawn_by(ew: Seq<int>, picks: Seq<usize>, draws: Seq<i64>) -> bool {
    &&& draws.len() == picks.len()
    &&& forall|t: int|
        0 <= t < picks.len() ==> #[trigger] draw_rule(
            pool_after(ew, picks.take(t)),
            draws[t] as int,
            picks[t] as int,
        )
}

/// The first of several draws is a draw from the full weights.
pub(crate) proof fn lemma_first_draw(ew: Seq<int>, picks: Seq<usize>, draws: Seq<i64>)
    requires
        drawn_by(ew, picks, draws),
        picks.len() >= 1,
    ensures
        draw_rule(ew, draws[0] as int, picks[0] as int),
{
    assert(draw_rule(pool_after(ew, picks.take(0)), draws[0] as int, picks[0] as int));
    assert(pool_after(ew, picks.take(0)) =~= ew);
}

/// The numbers that draw item `i` from weights `r` are exactly the `r[i]`
/// numbers just above the weight of the items before it; so with a number
/// taken uniformly from `1..=` the total, item `i` comes with chance `r[i]`
/// over the total.
pub proof fn lemma_draw_interval(r: Seq<int>, i: int, d: int)
    requires
        all_nonneg(r),
        0 <= i < r.len(),
    ensures
        0 <= prefix_sum(r, i),
        prefix_sum(r, i) + r[i] <= seq_sum(r),
        draw_rule(r, d, i) <==> prefix_sum(r, i) < d <= prefix_sum(r, i) + r[i],
{
    lemma_prefix_step(r, i);
    lemma_prefix_nonneg(r, i);
    lemma_prefix_monotone(r, i + 1, r.len() as int);
    lemma_prefix_full(r);
}

/// One number draws one item: two items drawn by the same number are the same.
pub proof fn lemma_draw_unique(r: Seq<int>, d: int, i: int, j: int)
    requires
        all_nonneg(r),
        draw_rule(r, d, i),
        draw_rule(r, d, j),
    ensures
        i == j,
{
    if i < j {
        lemma_prefix_step(r, i);
        lemma_prefix_monotone(r, i + 1, j);
    } else if j < i {
        lemma_prefix_step(r, j);
        lemma_prefix_monotone(r, j + 1, i);
    }
}

proof fn lemma_sum_pointwise_le(a: Seq<int>, b: Seq<int>)
    requires
        a.len() == b.len(),
        forall|i: int| 0 <= i < a.len() ==> a[i] <= b[i],
    ensures
        seq_sum(a) <= seq_sum(b),
    decreases a.len(),
{
    if a.len() > 0 {
        lemma_sum_pointwise_le(a.drop_last(), b.drop_last());
    }
}

/// Every order of distinct items of positive weight can come out of a run of
/// draws: for each such sequence of picks there are numbers, each in range
/// for the weights left at its turn, that draw exactly those picks.
pub proof fn lemma_any_picks_drawable(ew: Seq<int>, picks: Seq<usize>)
    requires
        all_nonneg(ew),
        seq_sum(ew) <= i64::MAX,
        picks.no_duplicates(),
        forall|k: int| 0 <= k < picks.len() ==> picks[k] < ew.len() && ew[picks[k] as int] > 0,
    ensures
        exists|draws: Seq<i64>| drawn_by(ew, picks, draws),
{
    let draws = Seq::new(
        picks.len(),
        |t: int| prefix_sum(pool_after(ew, picks.take(t)), picks[t] + 1) as i64,
    );
    assert forall|t: int| 0 <= t < picks.len() implies #[trigger] draw_rule(
        pool_after(ew, picks.take(t)),
        draws[t] as int,
        picks[t] as int,
    ) by {
        let pool = pool_after(ew, picks.take(t));
        let i = picks[t] as int;
        assert(all_nonneg(pool));
        assert(!picks.take(t).contains(picks[t])) by {
            if picks.take(t).contains(picks[t]) {
                let m = choose|m: int| 0 <= m < picks.take(t).len() && picks.take(t)[m] == picks[t];
                assert(picks[m] == picks[t]);
            }
        }
        assert(pool[i] == ew[i]);
        lemma_sum_pointwise_le(pool, ew);
        lemma_draw_interval(pool, i, prefix_sum(pool, i + 1));
        lemma_prefix_step(pool, i);
    }
    assert(drawn_by(ew, picks, draws));
}

/// The weights of `n` items of weight one each.
pub open spec fn equal_weights(n: nat) -> Seq<int> {
    Seq::new(n, |i: int| 1int)
}

/// A pool of weighted items from which items are drawn without replacement.
///
/// `sums[i]` is the cumulative remaining weight of items `0..=i`; drawing an
/// item removes its weight from the pool.
pub struct WeightPool {
    weights: Vec<i64>,
    sums: Vec<i64>,
    remaining: Ghost<Seq<int>>,
}

impl View for WeightPool {
    type V = Seq<int>;

    /// The weight each item still carries (zero once drawn).
    closed spec fn view(&self) -> Seq<int> {
        self.remaining@
    }
}

impl WeightPool {
    /// The effective weight each item was created with.
    pub closed spec fn initial(&self) -> Seq<int> {
        self.weights@.map_values(|w: i64| w as int)
    }

    pub closed spec fn wf(&self) -> bool {
        &&& self.weights.len() == self.sums.len()
        &&& self.remaining@.len() == self.weights.len()
        &&& forall|i: int| 0 <= i < self.weights.len() ==> self.weights[i] >= 0
        &&& forall|i: int|
            0 <= i < self.weights.len() ==> #[trigger] self.remaining@[i] == 0
                || self.remaining@[i] == self.weights[i]
        &&& forall|i: int|
            0 <= i < self.sums.len() ==> #[trigger] self.sums[i] == prefix_sum(
                self.remaining@,
                i + 1,
            )
    }

    proof fn lemma_view_nonneg(&self)
        requires
            self.wf(),
        ensures
            all_nonneg(self@),
            self@.len() == self.initial().len(),
            forall|i: int| 0 <= i < self@.len() ==> self@[i] == 0 || self@[i] == self.initial()[i],
    {
        assert forall|i: int| 0 <= i < self@.len() implies self@[i] >= 0 by {
            assert(self.remaining@[i] == 0 || self.remaining@[i] == self.weights[i]);
        }
        assert forall|i: int| 0 <= i < self@.len() implies self@[i] == 0 || self@[i]
            == self.initial()[i] by {
            assert(self.remaining@[i] == 0 || self.remaining@[i] == self.weights[i]);
        }
    }

    /// Builds the pool from raw weights; a weight of zero or less makes an item
    /// impossible to draw.
    pub fn new(weight: &Vec<i64>) -> (pool: WeightPool)
        requires
            seq_sum(effective_weights(weight@)) <= i64::MAX,
        ensures
            pool.wf(),
            pool@ == effective_weights(weight@),
            pool.initial() == effective_weights(weight@),
    {
        let ghost ew = effective_weights(weight@);
        let mut weights: Vec<i64> = Vec::new();
        let mut sums: Vec<i64> = Vec::new();
        proof {
            assert forall|i: int| 0 <= i < ew.len() implies ew[i] >= 0 by {}
            lemma_prefix_full(ew);
        }
        for i in 0..weight.len()
            invariant
                ew == effective_weights(weight@),
                all_nonneg(ew),
                prefix_sum(ew, ew.len() as int) <= i64::MAX,
                weights.len() == i,
                sums.len() == i,
                forall|k: int| 0 <= k < i ==> weights[k] == ew[k],
                forall|k: int| 0 <= k < i ==> #[trigger] sums[k] == prefix_sum(ew, k + 1),
        {
            let mut curr_weight = weight[i];
            if curr_weight <= 0 {
                curr_weight = 0;
            }
            proof {
                lemma_prefix_step(ew, i as int);
                lemma_prefix_monotone(ew, i + 1, ew.len() as int);
                if i > 0 {
                    lemma_prefix_step(ew, i - 1);
                }
                lemma_prefix_zero(ew);
            }
            weights.push(curr_weight);
            if i == 0 {
                sums.push(curr_weight);
            } else {
                let last = sums[sums.len() - 1];
                sums.push(curr_weight + last);
            }
        }
        let pool = WeightPool { weights, sums, remaining: Ghost(ew) };
        proof {
            assert(pool.initial() =~= ew);
            assert forall|i: int| 0 <= i < pool.weights.len() implies pool.weights[i] >= 0 by {
                assert(pool.weights[i] == ew[i]);
            }
            assert forall|i: int| 0 <= i < pool.sums.len() implies #[trigger] pool.sums[i]
                == prefix_sum(pool.remaining@, i + 1) by {}
            assert forall|i: int| 0 <= i < pool.weights.len() implies #[trigger] pool.remaining@[i]
                == 0 || pool.remaining@[i] == pool.weights[i] by {}
        }
        pool
    }

    /// Total weight still in the pool.
    pub fn total(&self) -> (t: i64)
        requires
            self.wf(),
        ensures
            t == seq_sum(self@),
    {
        proof {
            lemma_prefix_full(self@);
            lemma_prefix_zero(self@);
        }
        if self.sums.len() == 0 {
            0
        } else {
            self.sums[self.sums.len() - 1]
        }
    }

    /// Draws the item whose cumulative weight interval holds `select`
    /// (`1 <= select <= total`) and removes it from the pool.
    pub fn pick(&mut self, select: i64) -> (idx: usize)
        requires
            old(self).wf(),
            1 <= select <= seq_sum(old(self)@),
        ensures
            final(self).wf(),
            draw_rule(old(self)@, select as int, idx as int),
            old(self)@[idx as int] > 0,
            final(self)@ == old(self)@.update(idx as int, 0),
            seq_sum(final(self)@) == seq_sum(old(self)@) - old(self)@[idx as int],
            final(self).initial() == old(self).initial(),
    {
        let ghost rem = self@;
        proof {
            self.lemma_view_nonneg();
            lemma_prefix_full(rem);
            lemma_prefix_zero(rem);
            assert forall|i: int, j: int| 0 <= i <= j < self.sums.len() implies self.sums[i]
                <= self.sums[j] by {
                lemma_prefix_monotone(rem, i + 1, j + 1);
            }
        }
        let idx = bisect_left(&self.sums, select);
        proof {
            if idx == self.sums.len() {
                if self.sums.len() > 0 {
                    assert(self.sums[self.sums.len() - 1] == prefix_sum(rem, rem.len() as int));
                }
                assert(false);
            }
            lemma_prefix_step(rem, idx as int);
            if idx > 0 {
                assert(self.sums[idx - 1] == prefix_sum(rem, idx as int));
            }
            assert(self.remaining@[idx as int] == 0 || self.remaining@[idx as int]
                == self.weights[idx as int]);
        }
        let w = self.weights[idx];
        let n = self.sums.len();
        let ghost old_sums = self.sums@;
        proof {
            assert forall|k: int| 0 <= k < n implies old_sums[k] == prefix_sum(rem, k + 1) by {
                assert(self.sums[k] == prefix_sum(self.remaining@, k + 1));
            }
            lemma_prefix_nonneg(rem, idx as int);
            assert forall|k: int| idx <= k < n implies old_sums[k] >= w by {
                lemma_prefix_monotone(rem, idx + 1, k + 1);
            }
            assert(old(self).initial().len() == n);
            assert forall|i: int| 0 <= i < n implies rem[i] == 0 || rem[i] == old(self).initial()[i] by {
            }
        }
        let mut j = idx;
        while j < n
            invariant
                idx <= j <= n,
                n == self.sums.len(),
                self.weights@ == old(self).weights@,
                self.remaining@ == rem,
                rem.len() == n,
                forall|i: int| 0 <= i < n ==> rem[i] == 0 || rem[i] == old(self).initial()[i],
                old_sums.len() == n,
                w == rem[idx as int],
                w >= 1,
                forall|k: int| 0 <= k < idx ==> self.sums[k] == old_sums[k],
                forall|k: int| idx <= k < j ==> self.sums[k] == old_sums[k] - w,
                forall|k: int| j <= k < n ==> self.sums[k] == old_sums[k],
                forall|k: int| 0 <= k < n ==> old_sums[k] == prefix_sum(rem, k + 1),
                forall|k: int| idx <= k < n ==> old_sums[k] >= w,
            decreases n - j,
        {
            let v = self.sums[j];
            assert(v == old_sums[j as int]);
            assert(old_sums[j as int] >= w);
            self.sums.set(j, v - w);
            j += 1;
        }
        self.remaining = Ghost(rem.update(idx as int, 0));
        proof {
            let nr = rem.update(idx as int, 0);
            lemma_prefix_update(rem, idx as int, 0, rem.len() as int);
            lemma_prefix_full(rem);
            lemma_prefix_full(nr);
            assert forall|k: int| 0 <= k < self.sums.len() implies #[trigger] self.sums[k]
                == prefix_sum(nr, k + 1) by {
                lemma_prefix_update(rem, idx as int, 0, k + 1);
                assert(old_sums[k] == prefix_sum(rem, k + 1));
                if k < idx {
                    assert(self.sums[k] == old_sums[k]);
                } else {
                    assert(self.sums[k] == old_sums[k] - w);
                }
            }
            assert forall|i: int| 0 <= i < self.weights.len() implies #[trigger] self.remaining@[i]
                == 0 || self.remaining@[i] == self.weights[i] by {
                if i != idx {
                    assert(rem[i] == 0 || rem[i] == old(self).initial()[i]);
                }
            }
        }
        idx
    }
}


/// rand's handle to the thread-local generator; Verus sees no inside of it.
#[verifier::external_type_specification]
#[verifier::external_body]
pub struct ExThreadRng(rand::rngs::ThreadRng);

/// Calls `rand::thread_rng`, the handle to the thread-local generator seeded by
/// the system. Nothing is promised of the handle.
#[verifier::external_body]
fn thread_rng() -> rand::rngs::ThreadRng {
    rand::thread_rng()
}

/// Calls `Rng::gen_range` on the inclusive range `lo..=hi`. rand documents that
/// the value lies in the range (and panics on an empty range, which `requires`
/// rules out); which value comes is not stated.
#[verifier::external_body]
fn gen_range_inclusive(rng: &mut rand::rngs::ThreadRng, lo: i64, hi: i64) -> (r: i64)
    requires
        lo <= hi,
    ensures
        lo <= r <= hi,
{
    rng.gen_range(lo..=hi)
}

proof fn lemma_positive_count_take(s: Seq<int>, i: int)
    requires
        0 <= i < s.len(),
    ensures
        positive_count(s.take(i + 1)) == positive_count(s.take(i)) + if s[i] > 0 { 1nat } else { 0nat },
{
    assert(s.take(i + 1).drop_last() =~= s.take(i));
}

proof fn lemma_positive_count_full(s: Seq<int>)
    ensures
        positive_count(s.take(s.len() as int)) == positive_count(s),
{
    assert(s.take(s.len() as int) =~= s);
}

/// A handle to the thread-local random generator that keeps, as ghost state,
/// every number it has handed out, in order.
pub struct RandomDraws {
    rng: rand::rngs::ThreadRng,
    drawn: Ghost<Seq<i64>>,
}

impl RandomDraws {
    /// The numbers handed out so far, oldest first.
    pub closed spec fn history(&self) -> Seq<i64> {
        self.drawn@
    }

    /// A handle that has handed out nothing yet.
    pub fn new() -> (r: Self)
        ensures
            r.history() == Seq::<i64>::empty(),
    {
        RandomDraws { rng: thread_rng(), drawn: Ghost(Seq::empty()) }
    }

    /// A fresh number from the generator in `lo..=hi`; it is recorded as the
    /// newest entry of the history.
    pub fn draw(&mut self, lo: i64, hi: i64) -> (r: i64)
        requires
            lo <= hi,
        ensures
            lo <= r <= hi,
            final(self).history() == old(self).history().push(r),
    {
        let r = gen_range_inclusive(&mut self.rng, lo, hi);
        self.drawn = Ghost(self.drawn@.push(r));
        r
    }
}

/// Draws up to `num` distinct indices of `weight`, each draw with probability
/// proportional to the remaining weights; items of weight zero or less are never
/// drawn. Exactly `min(num, number of positive weights)` indices come back, each
/// the item whose cumulative interval of the weights still left holds a number
/// drawn uniformly from `1..=` their total.
pub fn weight_sample_index_from_vec(weight: &Vec<i64>, num: u64) -> (result: Vec<usize>)
    requires
        seq_sum(effective_weights(weight@)) <= i64::MAX,
    ensures
        result.len() == if num < positive_count(effective_weights(weight@)) {
            num as int
        } else {
            positive_count(effective_weights(weight@)) as int
        },
        forall|k: int| 0 <= k < result.len() ==> result[k] < weight.len() && weight[result[k] as int] > 0,
        result@.no_duplicates(),
        exists|draws: Seq<i64>| drawn_by(effective_weights(weight@), result@, draws),
{
    let mut rng = RandomDraws::new();
    let result = weight_sample_index_with(weight, num, &mut rng);
    proof {
        assert(drawn_by(effective_weights(weight@), result@, rng.history().skip(0)));
    }
    result
}

/// `weight_sample_index_from_vec` on the generator `rng`: the numbers it draws
/// are exactly the ones added to `rng`'s history by this call, one per index
/// returned, and the `t`-th index is the item whose cumulative interval, in the
/// weights left after the first `t` draws, holds the `t`-th of those numbers.
pub fn weight_sample_index_with(weight: &Vec<i64>, num: u64, rng: &mut RandomDraws) -> (result: Vec<usize>)
    requires
        seq_sum(effective_weights(weight@)) <= i64::MAX,
    ensures
        result.len() == if num < positive_count(effective_weights(weight@)) {
            num as int
        } else {
            positive_count(effective_weights(weight@)) as int
        },
        forall|k: int| 0 <= k < result.len() ==> result[k] < weight.len() && weight[result[k] as int] > 0,
        result@.no_duplicates(),
        final(rng).history().len() == old(rng).history().len() + result.len(),
        final(rng).history().take(old(rng).history().len() as int) == old(rng).history(),
        drawn_by(
            effective_weights(weight@),
            result@,
            final(rng).history().skip(old(rng).history().len() as int),
        ),
{
    let ghost h0 = rng.history();
    let ghost ew = effective_weights(weight@);
    let mut pool = WeightPool::new(weight);
    let mut effect_num: u64 = 0;
    proof {
        assert(ew.take(0) =~= Seq::<int>::empty());
    }
    for i in 0..weight.len()
        invariant
            ew == effective_weights(weight@),
            effect_num == positive_count(ew.take(i as int)),
            effect_num <= i,
    {
        proof {
            lemma_positive_count_take(ew, i as int);
        }
        if weight[i] > 0 {
            effect_num += 1;
        }
    }
    proof {
        lemma_positive_count_full(ew);
        lemma_positive_count_bound(ew);
    }
    let final_num = if effect_num < num { effect_num } else { num };
    let mut result: Vec<usize> = Vec::new();
    let ghost mut draws: Seq<i64> = Seq::empty();
    proof {
        assert(pool@ =~= pool_after(ew, result@));
    }
    let mut k: u64 = 0;
    while k < final_num
        invariant
            ew == effective_weights(weight@),
            pool.wf(),
            pool.initial() == ew,
            pool@.len() == ew.len(),
            final_num <= positive_count(ew),
            k <= final_num,
            result.len() == k,
            positive_count(pool@) + k == positive_count(ew),
            forall|m: int| 0 <= m < result.len() ==> result[m] < ew.len() && ew[result[m] as int] > 0,
            forall|m: int| 0 <= m < result.len() ==> pool@[result[m] as int] == 0,
            result@.no_duplicates(),
            pool@ == pool_after(ew, result@),
            drawn_by(ew, result@, draws),
            rng.history() == h0 + draws,
        decreases final_num - k,
    {
        proof {
            pool.lemma_view_nonneg();
            lemma_sum_positive(pool@);
        }
        let total = pool.total();
        let select = rng.draw(1, total);
        let ghost before = pool@;
        let idx = pool.pick(select);
        proof {
            lemma_positive_count_update(before, idx as int);
            assert(before[idx as int] == 0 || before[idx as int] == ew[idx as int]);
            assert forall|m: int| 0 <= m < result.len() implies result[m] != idx by {
                assert(before[result[m] as int] == 0);
            }
        }
        let ghost old_result = result@;
        result.push(idx);
        proof {
            assert forall|i: int| 0 <= i < ew.len() implies pool@[i] == pool_after(ew, result@)[i] by {
                if i == idx {
                    assert(result@[result@.len() - 1] == idx);
                } else {
                    if result@.contains(i as usize) {
                        let m = choose|m: int| 0 <= m < result@.len() && result@[m] == i as usize;
                        assert(old_result[m] == i as usize);
                    }
                    if old_result.contains(i as usize) {
                        let m = choose|m: int| 0 <= m < old_result.len() && old_result[m] == i as usize;
                        assert(result@[m] == i as usize);
                    }
                }
            }
            assert(pool@ =~= pool_after(ew, result@));
            let nd = draws.push(select);
            assert forall|t: int| 0 <= t < result@.len() implies #[trigger] draw_rule(
                pool_after(ew, result@.take(t)),
                nd[t] as int,
                result@[t] as int,
            ) by {
                if t < old_result.len() {
                    assert(result@.take(t) =~= old_result.take(t));
                    assert(draw_rule(pool_after(ew, old_result.take(t)), draws[t] as int, old_result[t] as int));
                } else {
                    assert(result@.take(t) =~= old_result);
                }
            }
            draws = nd;
            assert(rng.history() =~= h0 + draws);
        }
        k += 1;
    }
    proof {
        assert((h0 + draws).take(h0.len() as int) =~= h0);
        assert((h0 + draws).skip(h0.len() as int) =~= draws);
        assert forall|m: int| 0 <= m < result.len() implies weight[result[m] as int] > 0 by {
            assert(ew[result[m] as int] > 0);
        }
    }
    result
}


proof fn lemma_all_ones(s: Seq<int>)
    requires
        forall|i: int| 0 <= i < s.len() ==> s[i] == 1,
    ensures
        seq_sum(s) == s.len(),
        positive_count(s) == s.len(),
    decreases s.len(),
{
    if s.len() > 0 {
        lemma_all_ones(s.drop_last());
    }
}

/// `result` holds the elements of `data` at the distinct positions `picks`, in
/// order, drawn one by one by the numbers `draws`, all positions of equal weight.
pub open spec fn sampled_by<T>(data: Seq<T>, result: Seq<T>, picks: Seq<usize>, draws: Seq<i64>) -> bool {
    &&& picks.len() == result.len()
    &&& picks.no_duplicates()
    &&& drawn_by(equal_weights(data.len()), picks, draws)
    &&& forall|k: int| 0 <= k < picks.len() ==> picks[k] < data.len() && result[k] == data[picks[k] as int]
}

/// Picks `num` distinct elements of `data` with equal chance (all of them, in
/// random order, when `num` is negative or at least the length).
pub fn sample<T: Copy>(data: &Vec<T>, num: i64) -> (result: Vec<T>)
    requires
        data.len() <= i64::MAX,
    ensures
        result.len() == if 0 <= num < data.len() { num as int } else { data.len() as int },
        exists|picks: Seq<usize>, draws: Seq<i64>| sampled_by(data@, result@, picks, draws),
{
    let mut rng = RandomDraws::new();
    let ghost h0 = rng.history();
    let result = sample_with(data, num, &mut rng);
    proof {
        let draws = rng.history().skip(h0.len() as int);
        let picks = choose|picks: Seq<usize>| sampled_by(data@, result@, picks, draws);
        assert(sampled_by(data@, result@, picks, draws));
    }
    result
}

/// `sample` on the generator `rng`: the `t`-th element is the one at the
/// position drawn by the `t`-th number this call added to `rng`'s history,
/// among the positions not drawn before it, all of equal weight.
pub fn sample_with<T: Copy>(data: &Vec<T>, num: i64, rng: &mut RandomDraws) -> (result: Vec<T>)
    requires
        data.len() <= i64::MAX,
    ensures
        result.len() == if 0 <= num < data.len() { num as int } else { data.len() as int },
        final(rng).history().len() == old(rng).history().len() + result.len(),
        final(rng).history().take(old(rng).history().len() as int) == old(rng).history(),
        exists|picks: Seq<usize>|
            sampled_by(data@, result@, picks, final(rng).history().skip(old(rng).history().len() as int)),
{
    let mut weight: Vec<i64> = Vec::new();
    for _i in 0..data.len()
        invariant
            weight.len() == _i,
            forall|k: int| 0 <= k < weight.len() ==> weight[k] == 1,
    {
        weight.push(1);
    }
    proof {
        let ew = effective_weights(weight@);
        assert forall|i: int| 0 <= i < ew.len() implies ew[i] == 1 by {}
        lemma_all_ones(ew);
        assert(ew =~= equal_weights(data.len() as nat));
    }
    let count = num as u64;
    proof {
        if num < 0 {
            assert(num < 0 ==> count >= 0x8000_0000_0000_0000u64) by (bit_vector)
                requires count == num as u64;
        }
    }
    let ghost h0 = rng.history();
    let select_index = weight_sample_index_with(&weight, count, rng);
    let mut result: Vec<T> = Vec::new();
    for j in 0..select_index.len()
        invariant
            result.len() == j,
            forall|k: int| 0 <= k < select_index.len() ==> select_index[k] < data.len(),
            forall|k: int| 0 <= k < j ==> result@[k] == data@[select_index[k] as int],
    {
        result.push(data[select_index[j]]);
    }
    proof {
        let picks = select_index@;
        assert(sampled_by(data@, result@, picks, rng.history().skip(h0.len() as int)));
    }
    result
}


/// Positions of the positive elements.
pub open spec fn positive_positions(s: Seq<int>) -> Set<int> {
    Set::new(|i: int| 0 <= i < s.len() && s[i] > 0)
}

proof fn lemma_positive_positions(s: Seq<int>)
    ensures
        positive_positions(s).finite(),
        positive_positions(s).len() == positive_count(s),
    decreases s.len(),
{
    if s.len() == 0 {
        assert(positive_positions(s) =~= Set::<int>::empty());
    } else {
        let d = s.drop_last();
        lemma_positive_positions(d);
        if s.last() > 0 {
            assert(positive_positions(s) =~= positive_positions(d).insert(s.len() - 1));
        } else {
            assert(positive_positions(s) =~= positive_positions(d));
        }
    }
}

/// Draws that are distinct, all of positive weight, and as many as there are
/// items of positive weight, draw every item of positive weight: asking
/// `weight_sample_index_from_vec` for at least that many draws returns all of
/// them, in some order.
pub proof fn lemma_draws_cover_positive(weight: Seq<i64>, drawn: Seq<usize>)
    requires
        drawn.no_duplicates(),
        forall|k: int| 0 <= k < drawn.len() ==> drawn[k] < weight.len() && weight[drawn[k] as int] > 0,
        drawn.len() == positive_count(effective_weights(weight)),
    ensures
        forall|i: int| 0 <= i < weight.len() && weight[i] > 0 ==> drawn.contains(i as usize),
{
    let ew = effective_weights(weight);
    let d = drawn.map_values(|u: usize| u as int);
    assert forall|a: int, b: int| 0 <= a < d.len() && 0 <= b < d.len() && a != b implies d[a] != d[b] by {
        assert(drawn[a] != drawn[b]);
    }
    assert(d.no_duplicates());
    d.unique_seq_to_set();
    let ds = d.to_set();
    let ps = positive_positions(ew);
    lemma_positive_positions(ew);
    assert forall|x: int| ds.contains(x) implies ps.contains(x) by {
        let k = choose|k: int| 0 <= k < d.len() && d[k] == x;
        assert(weight[drawn[k] as int] > 0);
    }
    vstd::set_lib::lemma_len_subset(ds, ps);
    vstd::set_lib::lemma_subset_equality(ds, ps);
    assert forall|i: int| 0 <= i < weight.len() && weight[i] > 0 implies drawn.contains(i as usize) by {
        assert(ps.contains(i));
        assert(ds.contains(i));
        let k = choose|k: int| 0 <= k < d.len() && d[k] == i;
        assert(drawn[k] == i as usize);
    }
}

} // verus!

//! The center-of-gravity oscillator over a sliding window.

use crate::echo::{lemma_echo_is_identity, Echo};
use crate::fixed::{floor_div, saturate, wide_floor_div, Fixed, SCALE};
use crate::sliding_window::{
    lemma_newest_absorbs, lemma_newest_forgets, lemma_trace_prefix, lemma_trace_unfold, newest,
    trace, SlidingWindow, StreamTransform,
};
use vstd::arithmetic::div_mod::{lemma_div_is_ordered, lemma_div_pos_is_pos};
use vstd::prelude::*;

verus! {

/// The longest window a center-of-gravity filter accepts: the weighted sum
/// of a window this long fits a 128-bit accumulator whatever the samples are.
pub const MAX_WINDOW_LEN: usize = 32768;

/// The sum of the first `k` entries of `w`.
pub open spec fn prefix_sum(w: Seq<int>, k: nat) -> int
    decreases k,
{
    if k == 0 {
        0
    } else {
        prefix_sum(w, (k - 1) as nat) + w[k - 1]
    }
}

/// The weighted sum of the first `k` entries of `w`, where entry `i` weighs
/// `i + 1`. Over a whole window the oldest entry weighs one and the newest
/// weighs `w.len()`: counted back from the newest, the `j`-th entry weighs
/// `w.len() - j`.
pub open spec fn prefix_moment(w: Seq<int>, k: nat) -> int
    decreases k,
{
    if k == 0 {
        0
    } else {
        prefix_moment(w, (k - 1) as nat) + k * w[k - 1]
    }
}

/// The center of gravity of the window `w`, as a raw fixed-point value:
/// `(len + 1) / 2 - moment / sum`, rounded down to a multiple of 2^-32 and
/// saturated; zero where the entries sum to zero.
pub open spec fn center_of_gravity(w: Seq<int>) -> int {
    let sum = prefix_sum(w, w.len());
    let moment = prefix_moment(w, w.len());
    if sum == 0 {
        0
    } else {
        saturate(floor_div(((w.len() + 1) * sum - 2 * moment) * SCALE, 2 * sum))
    }
}

/// Computes the center of gravity of the samples in `window`.
pub fn weigh(window: &SlidingWindow) -> (out: Fixed)
    requires
        window@.len() <= MAX_WINDOW_LEN,
    ensures
        out@ == center_of_gravity(window@),
{
    let q_len = window.len();
    let ghost w = window@;
    proof {
        window.lemma_entries_are_samples();
    }
    let mut denom: i128 = 0;
    let mut num: i128 = 0;
    let mut i: usize = 0;
    while i < q_len
        invariant
            w == window@,
            q_len == w.len(),
            q_len <= MAX_WINDOW_LEN,
            i <= q_len,
            forall|j: int| 0 <= j < w.len() ==> i64::MIN <= #[trigger] w[j] <= i64::MAX,
            denom == prefix_sum(w, i as nat),
            num == prefix_moment(w, i as nat),
            -i * 0x8000_0000_0000_0000 <= denom <= i * 0x8000_0000_0000_0000,
            -i * 0x4000_0000_0000_0000_0000 <= num <= i * 0x4000_0000_0000_0000_0000,
        decreases q_len - i,
    {
        let weight: i128 = (i + 1) as i128;
        let val_i: i128 = window.get(i).raw as i128;
        assert(-0x4000_0000_0000_0000_0000 <= weight * val_i <= 0x4000_0000_0000_0000_0000)
            by (nonlinear_arith)
            requires
                1 <= weight <= 32768,
                -0x8000_0000_0000_0000 <= val_i <= 0x8000_0000_0000_0000,
        ;
        num = num + weight * val_i;
        denom = denom + val_i;
        i = i + 1;
    }
    if denom != 0 {
        let span: i128 = q_len as i128 + 1;
        assert(-0x2000_4000_0000_0000_0000_0000 <= span * denom
            <= 0x2000_4000_0000_0000_0000_0000) by (nonlinear_arith)
            requires
                1 <= span <= 32769,
                -0x4000_0000_0000_0000_0000 <= denom <= 0x4000_0000_0000_0000_0000,
        ;
        let centered: i128 = span * denom - 2 * num;
        assert(-0x6000_4000_0000_0000_0000_0000_0000_0000 <= centered * SCALE
            <= 0x6000_4000_0000_0000_0000_0000_0000_0000) by (nonlinear_arith)
            requires
                -0x6000_4000_0000_0000_0000_0000 <= centered <= 0x6000_4000_0000_0000_0000_0000,
                SCALE == 0x1_0000_0000,
        ;
        let scaled: i128 = centered * (SCALE as i128);
        Fixed::saturating_from(wide_floor_div(scaled, 2 * denom))
    } else {
        Fixed { raw: 0 }
    }
}

/// The center-of-gravity oscillator: the balance point of the `window_len`
/// newest outputs of the transform it owns.
pub struct CenterOfGravity<V: StreamTransform + ?Sized> {
    window_len: usize,
    q_vals: SlidingWindow,
    out: Fixed,
    view: Box<V>,
}

impl<V: StreamTransform + ?Sized> CenterOfGravity<V> {
    /// The transform whose outputs this filter weighs.
    pub closed spec fn inner(&self) -> &V {
        &*self.view
    }

    /// The number of samples the window holds once it is full.
    pub closed spec fn window_len(&self) -> nat {
        self.window_len as nat
    }

    /// The inner outputs held, oldest first, as raw values.
    pub closed spec fn window(&self) -> Seq<int> {
        self.q_vals@
    }

    /// The window once `future` has been absorbed: the `window_len()` newest
    /// of the entries held now and the inner outputs along `future`.
    pub open spec fn window_after(&self, future: Seq<int>) -> Seq<int> {
        newest(self.window() + trace(self.inner(), future), self.window_len())
    }

    /// What well-formedness says of the parts.
    pub proof fn lemma_wf(&self)
        requires
            self.wf(),
        ensures
            self.inner().wf(),
            1 <= self.window_len() <= MAX_WINDOW_LEN,
            self.window().len() <= self.window_len(),
            self.response(Seq::empty()) == center_of_gravity(self.window()),
    {
        self.q_vals.lemma_bounds();
        assert(self.window() + trace(self.inner(), Seq::empty()) =~= self.window());
    }

    /// A filter over the outputs of `view`, with an empty window of
    /// `window_len` samples.
    pub fn new(view: Box<V>, window_len: usize) -> (filter: Box<Self>)
        requires
            view.wf(),
            1 <= window_len <= MAX_WINDOW_LEN,
        ensures
            filter.wf(),
            filter.inner() == view,
            filter.window_len() == window_len,
            filter.window() == Seq::<int>::empty(),
    {
        Box::new(
            CenterOfGravity {
                window_len,
                q_vals: SlidingWindow::new(window_len),
                out: Fixed { raw: 0 },
                view,
            },
        )
    }
}

impl CenterOfGravity<Echo> {
    /// A filter that weighs the raw samples themselves.
    pub fn new_final(window_len: usize) -> (filter: Box<Self>)
        requires
            1 <= window_len <= MAX_WINDOW_LEN,
        ensures
            filter.wf(),
            filter.inner().value() == 0,
            filter.window_len() == window_len,
            filter.window() == Seq::<int>::empty(),
    {
        Self::new(Echo::new(), window_len)
    }
}

impl<V: StreamTransform + ?Sized> StreamTransform for CenterOfGravity<V> {
    closed spec fn wf(&self) -> bool {
        &&& self.view.wf()
        &&& self.q_vals.wf()
        &&& self.q_vals.capacity() == self.window_len
        &&& 1 <= self.window_len <= MAX_WINDOW_LEN
        &&& self.out@ == center_of_gravity(self.q_vals@)
    }

    /// The center of gravity of the window that `future` leaves.
    open spec fn response(&self, future: Seq<int>) -> int {
        center_of_gravity(self.window_after(future))
    }

    /// Feeds `val` to the inner transform, takes its output into the window
    /// and weighs the window anew.
    fn update(&mut self, val: Fixed)
        ensures
            final(self).window_len() == old(self).window_len(),
            final(self).window() == old(self).window_after(seq![val@]),
            final(self).window() == newest(
                old(self).window().push(final(self).inner().response(Seq::empty())),
                old(self).window_len(),
            ),
            forall|future: Seq<int>| #[trigger]
                final(self).inner().response(future) == old(self).inner().response(
                    seq![val@] + future,
                ),
    {
        self.view.update(val);
        let v = self.view.last();
        self.q_vals.push(v);
        self.out = weigh(&self.q_vals);
        proof {
            let cap = old(self).window_len();
            let grown = old(self).window().push(v@);
            assert forall|future: Seq<int>| #[trigger]
                self.response(future) == old(self).response(seq![val@] + future) by {
                let rest = trace(self.inner(), future);
                lemma_trace_unfold(old(self).inner(), self.inner(), val@, future);
                lemma_newest_absorbs(grown, rest, cap);
                assert(grown + rest =~= old(self).window() + (seq![v@] + rest));
            }
            lemma_trace_unfold(old(self).inner(), self.inner(), val@, Seq::empty());
            assert(old(self).window() + (seq![v@] + Seq::<int>::empty()) =~= grown);
        }
    }

    /// The center of gravity of the window as it stands.
    fn last(&self) -> (out: Fixed)
        ensures
            out@ == center_of_gravity(self.window()),
    {
        proof {
            self.lemma_wf();
        }
        self.out
    }
}

/// A window that holds only zeros sums to zero.
proof fn lemma_zero_prefix_sum(w: Seq<int>, k: nat)
    requires
        k <= w.len(),
        forall|i: int| 0 <= i < w.len() ==> w[i] == 0,
    ensures
        prefix_sum(w, k) == 0,
    decreases k,
{
    if k > 0 {
        lemma_zero_prefix_sum(w, (k - 1) as nat);
    }
}

/// The center of gravity of a window that holds only zeros is zero, whatever
/// its length.
pub proof fn lemma_zero_window(w: Seq<int>)
    requires
        forall|i: int| 0 <= i < w.len() ==> w[i] == 0,
    ensures
        center_of_gravity(w) == 0,
{
    lemma_zero_prefix_sum(w, w.len());
}

/// The balance of the first `k` entries of `w` about the middle of the whole
/// window: entry `i` counts `w.len() - 1 - 2 * i` times, so early entries pull
/// up and late entries pull down. Over the whole window this is the numerator
/// of the center of gravity, `(len + 1) * sum - 2 * moment`.
pub open spec fn prefix_balance(w: Seq<int>, k: nat) -> int {
    (w.len() + 1) * prefix_sum(w, k) - 2 * prefix_moment(w, k)
}

/// Along a window that never declines, the balance of a prefix is no more
/// than if each of its entries were as large as its last.
proof fn lemma_rising_balance(w: Seq<int>, k: nat)
    requires
        1 <= k <= w.len(),
        forall|i: int, j: int| 0 <= i <= j < w.len() ==> w[i] <= w[j],
    ensures
        prefix_balance(w, k) <= k * (w.len() - k) * w[k - 1],
    decreases k,
{
    let q = w.len() as int;
    if k == 1 {
        assert(prefix_sum(w, 0) == 0 && prefix_moment(w, 0) == 0);
        assert(prefix_balance(w, 1) == 1 * (q - 1) * w[0]) by (nonlinear_arith)
            requires
                prefix_balance(w, 1) == (q + 1) * prefix_sum(w, 1) - 2 * prefix_moment(w, 1),
                prefix_sum(w, 1) == w[0],
                prefix_moment(w, 1) == 1 * w[0],
        ;
    } else {
        let j = (k - 1) as nat;
        lemma_rising_balance(w, j);
        let a = w[j - 1];
        let b = w[k - 1];
        assert(prefix_balance(w, k) == prefix_balance(w, j) + (q - 1 - 2 * j) * b)
            by (nonlinear_arith)
            requires
                k == j + 1,
                prefix_balance(w, k) == (q + 1) * prefix_sum(w, k) - 2 * prefix_moment(w, k),
                prefix_balance(w, j) == (q + 1) * prefix_sum(w, j) - 2 * prefix_moment(w, j),
                prefix_sum(w, k) == prefix_sum(w, j) + b,
                prefix_moment(w, k) == prefix_moment(w, j) + k * b,
        ;
        assert(j * (q - j) * a + (q - 1 - 2 * j) * b <= k * (q - k) * b) by (nonlinear_arith)
            requires
                k == j + 1,
                1 <= j < q,
                a <= b,
        ;
    }
}

/// Along a window that never rises, the balance of a prefix is no less than
/// if each of its entries were as small as its last.
proof fn lemma_falling_balance(w: Seq<int>, k: nat)
    requires
        1 <= k <= w.len(),
        forall|i: int, j: int| 0 <= i <= j < w.len() ==> w[i] >= w[j],
    ensures
        prefix_balance(w, k) >= k * (w.len() - k) * w[k - 1],
    decreases k,
{
    let q = w.len() as int;
    if k == 1 {
        assert(prefix_sum(w, 0) == 0 && prefix_moment(w, 0) == 0);
        assert(prefix_balance(w, 1) == 1 * (q - 1) * w[0]) by (nonlinear_arith)
            requires
                prefix_balance(w, 1) == (q + 1) * prefix_sum(w, 1) - 2 * prefix_moment(w, 1),
                prefix_sum(w, 1) == w[0],
                prefix_moment(w, 1) == 1 * w[0],
        ;
    } else {
        let j = (k - 1) as nat;
        lemma_falling_balance(w, j);
        let a = w[j - 1];
        let b = w[k - 1];
        assert(prefix_balance(w, k) == prefix_balance(w, j) + (q - 1 - 2 * j) * b)
            by (nonlinear_arith)
            requires
                k == j + 1,
                prefix_balance(w, k) == (q + 1) * prefix_sum(w, k) - 2 * prefix_moment(w, k),
                prefix_balance(w, j) == (q + 1) * prefix_sum(w, j) - 2 * prefix_moment(w, j),
                prefix_sum(w, k) == prefix_sum(w, j) + b,
                prefix_moment(w, k) == prefix_moment(w, j) + k * b,
        ;
        assert(j * (q - j) * a + (q - 1 - 2 * j) * b >= k * (q - k) * b) by (nonlinear_arith)
            requires
                k == j + 1,
                1 <= j < q,
                a >= b,
        ;
    }
}

/// The newest entries weigh most, so a rise draws the weighted mean past the
/// middle of the window: over a window that never declines and sums to more
/// than zero, the center of gravity is not positive.
pub proof fn lemma_rising_window(w: Seq<int>)
    requires
        forall|i: int, j: int| 0 <= i <= j < w.len() ==> w[i] <= w[j],
        prefix_sum(w, w.len()) > 0,
    ensures
        center_of_gravity(w) <= 0,
{
    let sum = prefix_sum(w, w.len());
    let balance = prefix_balance(w, w.len());
    assert(w.len() >= 1);
    lemma_rising_balance(w, w.len());
    assert(balance <= 0) by (nonlinear_arith)
        requires
            balance <= w.len() * (w.len() - w.len()) * w[w.len() - 1],
    ;
    assert(balance * SCALE <= 0) by (nonlinear_arith)
        requires
            balance <= 0,
            SCALE > 0,
    ;
    lemma_div_is_ordered(balance * SCALE, 0, 2 * sum);
}

/// Over a window that never rises and sums to more than zero, the center of
/// gravity is not negative.
pub proof fn lemma_falling_window(w: Seq<int>)
    requires
        forall|i: int, j: int| 0 <= i <= j < w.len() ==> w[i] >= w[j],
        prefix_sum(w, w.len()) > 0,
    ensures
        center_of_gravity(w) >= 0,
{
    let sum = prefix_sum(w, w.len());
    let balance = prefix_balance(w, w.len());
    assert(w.len() >= 1);
    lemma_falling_balance(w, w.len());
    assert(balance >= 0) by (nonlinear_arith)
        requires
            balance >= w.len() * (w.len() - w.len()) * w[w.len() - 1],
    ;
    assert(balance * SCALE >= 0) by (nonlinear_arith)
        requires
            balance >= 0,
            SCALE > 0,
    ;
    lemma_div_pos_is_pos(balance * SCALE, 2 * sum);
}

/// A flat series centers on the middle of the window: where all entries are
/// equal, the center of gravity is zero.
pub proof fn lemma_flat_window(w: Seq<int>)
    requires
        forall|i: int, j: int| 0 <= i < w.len() && 0 <= j < w.len() ==> w[i] == w[j],
    ensures
        center_of_gravity(w) == 0,
{
    let sum = prefix_sum(w, w.len());
    let balance = prefix_balance(w, w.len());
    if sum != 0 {
        assert(w.len() >= 1);
        lemma_rising_balance(w, w.len());
        lemma_falling_balance(w, w.len());
        assert(balance == 0) by (nonlinear_arith)
            requires
                balance >= w.len() * (w.len() - w.len()) * w[w.len() - 1],
                balance <= w.len() * (w.len() - w.len()) * w[w.len() - 1],
        ;
        assert(balance * SCALE == 0);
        assert(0int / (2 * sum) == 0 && 0int / (-(2 * sum)) == 0) by (nonlinear_arith)
            requires
                sum != 0,
        ;
    }
}

/// The window never outgrows `window_len()`. Once `window_len()` or more
/// samples have come it is full and holds the newest inner outputs alone, so
/// the output no longer depends on anything older. Until it is full it keeps
/// every entry.
pub proof fn lemma_window_cap<V: StreamTransform + ?Sized>(
    filter: &CenterOfGravity<V>,
    future: Seq<int>,
)
    requires
        filter.wf(),
    ensures
        filter.window_after(future).len() <= filter.window_len(),
        future.len() >= filter.window_len() ==> {
            &&& filter.window_after(future).len() == filter.window_len()
            &&& filter.window_after(future) == newest(
                trace(filter.inner(), future),
                filter.window_len(),
            )
        },
        filter.window().len() + future.len() <= filter.window_len() ==> filter.window_after(future)
            == filter.window() + trace(filter.inner(), future),
{
    filter.lemma_wf();
    if future.len() >= filter.window_len() {
        lemma_newest_forgets(filter.window(), trace(filter.inner(), future), filter.window_len());
    }
}

/// Standing alone, a filter weighs the newest raw samples themselves.
pub proof fn lemma_alone_weighs_samples(filter: &CenterOfGravity<Echo>, samples: Seq<int>)
    ensures
        filter.window_after(samples) == newest(filter.window() + samples, filter.window_len()),
{
    lemma_echo_is_identity(filter.inner(), samples);
}

/// A filter chained over an inner transform reports, at each step, what the
/// same filter standing alone reports when it is fed the outputs of the
/// inner transform.
pub proof fn lemma_chain_composes<V: StreamTransform + ?Sized>(
    chain: &CenterOfGravity<V>,
    alone: &CenterOfGravity<Echo>,
    samples: Seq<int>,
)
    requires
        alone.window() == chain.window(),
        alone.window_len() == chain.window_len(),
    ensures
        chain.response(samples) == alone.response(trace(chain.inner(), samples)),
        trace(chain, samples) == trace(alone, trace(chain.inner(), samples)),
{
    let fed = trace(chain.inner(), samples);
    lemma_echo_is_identity(alone.inner(), fed);
    let left = trace(chain, samples);
    let right = trace(alone, fed);
    assert forall|i: int| 0 <= i < samples.len() implies left[i] == right[i] by {
        lemma_trace_prefix(chain.inner(), samples, i + 1);
        lemma_echo_is_identity(alone.inner(), fed.take(i + 1));
    }
    assert(left =~= right);
}

} // verus!

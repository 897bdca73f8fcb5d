//! A relative-strength oscillator over a four-stage Laguerre cascade.

use crate::echo::{lemma_echo_is_identity, Echo};
use crate::fixed::{floor_div, saturate, wide_floor_div, Fixed, SCALE};
use crate::sliding_window::{
    lemma_trace_prefix, lemma_trace_unfold, newest, trace, SlidingWindow, StreamTransform,
};
use vstd::arithmetic::div_mod::{
    lemma_div_by_multiple, lemma_div_is_ordered, lemma_div_is_ordered_by_denominator,
    lemma_div_pos_is_pos,
};
use vstd::prelude::*;

verus! {

/// The number of entries each stage of the cascade keeps.
pub const STAGE_HISTORY: usize = 3;

/// The decay constant `2 / (window_len + 1)` as a raw fixed-point value,
/// rounded down.
pub open spec fn gamma_of(window_len: nat) -> int {
    (2 * SCALE) / (window_len as int + 1)
}

/// The first stage: `(1 - gamma) * v + gamma * prev`, rounded down and
/// saturated.
pub open spec fn low_pass(gamma: int, v: int, prev: int) -> int {
    saturate(floor_div((SCALE - gamma) * v + gamma * prev, SCALE as int))
}

/// A later stage: `-gamma * fed + fed_prev + gamma * prev`, rounded down and
/// saturated. `fed` is the new entry of the stage before and `fed_prev` the
/// entry of that stage that `prev` is of this one.
pub open spec fn all_pass(gamma: int, fed: int, fed_prev: int, prev: int) -> int {
    saturate(floor_div(-gamma * fed + SCALE * fed_prev + gamma * prev, SCALE as int))
}

/// What the step from stage value `a` to the next stage value `b` adds to
/// the upward total.
pub open spec fn rise(a: int, b: int) -> int {
    if a >= b {
        a - b
    } else {
        0
    }
}

/// What the step from stage value `a` to the next stage value `b` adds to
/// the downward total.
pub open spec fn fall(a: int, b: int) -> int {
    if a >= b {
        0
    } else {
        b - a
    }
}

/// The share of the upward total in the whole movement across the four
/// stage values, rounded down; `held` where nothing moved.
pub open spec fn relative_strength(n0: int, n1: int, n2: int, n3: int, held: int) -> int {
    let cu = rise(n0, n1) + rise(n1, n2) + rise(n2, n3);
    let cd = fall(n0, n1) + fall(n1, n2) + fall(n2, n3);
    if cu + cd != 0 {
        (cu * SCALE) / (cu + cd)
    } else {
        held
    }
}

/// The histories of the four stages, oldest entry first, and the output.
pub struct Cascade {
    pub l0: Seq<int>,
    pub l1: Seq<int>,
    pub l2: Seq<int>,
    pub l3: Seq<int>,
    pub value: int,
}

impl Cascade {
    /// The cascade before any sample: empty histories, output zero.
    pub open spec fn fresh() -> Cascade {
        Cascade {
            l0: Seq::empty(),
            l1: Seq::empty(),
            l2: Seq::empty(),
            l3: Seq::empty(),
            value: 0,
        }
    }

    /// The four histories are equally long, none longer than
    /// `STAGE_HISTORY`, and the output lies between zero and one.
    pub open spec fn wf(self) -> bool {
        &&& self.l0.len() <= STAGE_HISTORY
        &&& self.l1.len() == self.l0.len()
        &&& self.l2.len() == self.l0.len()
        &&& self.l3.len() == self.l0.len()
        &&& 0 <= self.value <= SCALE
    }

    /// The cascade after the sample `v`. While a history holds fewer than
    /// two entries every stage takes a zero and the output stays; afterwards
    /// each stage takes its new value, computed from its entry before the
    /// last, and the output is the relative strength of the new values.
    pub open spec fn step(self, gamma: int, v: int) -> Cascade {
        let cap = STAGE_HISTORY as nat;
        if self.l0.len() < 2 {
            Cascade {
                l0: newest(self.l0.push(0), cap),
                l1: newest(self.l1.push(0), cap),
                l2: newest(self.l2.push(0), cap),
                l3: newest(self.l3.push(0), cap),
                value: self.value,
            }
        } else {
            let p0 = self.l0[self.l0.len() - 2];
            let p1 = self.l1[self.l1.len() - 2];
            let p2 = self.l2[self.l2.len() - 2];
            let p3 = self.l3[self.l3.len() - 2];
            let n0 = low_pass(gamma, v, p0);
            let n1 = all_pass(gamma, n0, p0, p1);
            let n2 = all_pass(gamma, n1, p1, p2);
            let n3 = all_pass(gamma, n2, p2, p3);
            Cascade {
                l0: newest(self.l0.push(n0), cap),
                l1: newest(self.l1.push(n1), cap),
                l2: newest(self.l2.push(n2), cap),
                l3: newest(self.l3.push(n3), cap),
                value: relative_strength(n0, n1, n2, n3, self.value),
            }
        }
    }

    /// The cascade after the samples of `inputs`, taken in order.
    pub open spec fn run(self, gamma: int, inputs: Seq<int>) -> Cascade
        decreases inputs.len(),
    {
        if inputs.len() == 0 {
            self
        } else {
            self.step(gamma, inputs[0]).run(gamma, inputs.drop_first())
        }
    }
}

/// The decay constant lies between zero and one, and a longer window gives a
/// smaller one.
pub proof fn lemma_gamma_bounds(window_len: nat, longer: nat)
    requires
        1 <= window_len <= longer,
    ensures
        0 <= gamma_of(longer) <= gamma_of(window_len) <= SCALE,
{
    let short_span = window_len as int + 1;
    let long_span = longer as int + 1;
    lemma_div_is_ordered_by_denominator(2 * SCALE, 2, short_span);
    lemma_div_is_ordered_by_denominator(2 * SCALE, short_span, long_span);
    lemma_div_pos_is_pos(2 * SCALE, long_span);
}

/// The relative strength lies between zero and one whenever the held value does.
pub proof fn lemma_relative_strength_bounded(n0: int, n1: int, n2: int, n3: int, held: int)
    requires
        0 <= held <= SCALE,
    ensures
        0 <= relative_strength(n0, n1, n2, n3, held) <= SCALE,
{
    let cu = rise(n0, n1) + rise(n1, n2) + rise(n2, n3);
    let cd = fall(n0, n1) + fall(n1, n2) + fall(n2, n3);
    if cu + cd != 0 {
        assert(0 <= cu * SCALE <= SCALE * (cu + cd)) by (nonlinear_arith)
            requires
                0 <= cu,
                0 <= cd,
                SCALE > 0,
        ;
        lemma_div_pos_is_pos(cu * SCALE, cu + cd);
        lemma_div_is_ordered(cu * SCALE, SCALE * (cu + cd), cu + cd);
        lemma_div_by_multiple(SCALE as int, cu + cd);
    }
}

/// A step keeps a cascade well-formed.
pub proof fn lemma_step_wf(c: Cascade, gamma: int, v: int)
    requires
        c.wf(),
    ensures
        c.step(gamma, v).wf(),
{
    if c.l0.len() >= 2 {
        let p0 = c.l0[c.l0.len() - 2];
        let p1 = c.l1[c.l1.len() - 2];
        let p2 = c.l2[c.l2.len() - 2];
        let p3 = c.l3[c.l3.len() - 2];
        let n0 = low_pass(gamma, v, p0);
        let n1 = all_pass(gamma, n0, p0, p1);
        let n2 = all_pass(gamma, n1, p1, p2);
        let n3 = all_pass(gamma, n2, p2, p3);
        lemma_relative_strength_bounded(n0, n1, n2, n3, c.value);
    }
}

/// Any run keeps a cascade well-formed: the output never leaves the range
/// from zero to one.
pub proof fn lemma_run_wf(c: Cascade, gamma: int, inputs: Seq<int>)
    requires
        c.wf(),
    ensures
        c.run(gamma, inputs).wf(),
    decreases inputs.len(),
{
    if inputs.len() > 0 {
        lemma_step_wf(c, gamma, inputs[0]);
        lemma_run_wf(c.step(gamma, inputs[0]), gamma, inputs.drop_first());
    }
}

/// The first two samples only fill the histories: a fresh cascade still
/// reports zero after them.
pub proof fn lemma_warm_up(gamma: int, inputs: Seq<int>)
    requires
        inputs.len() <= 2,
    ensures
        Cascade::fresh().run(gamma, inputs).value == 0,
{
    reveal_with_fuel(Cascade::run, 3);
    if inputs.len() == 2 {
        assert(inputs.drop_first().len() == 1);
        assert(inputs.drop_first().drop_first().len() == 0);
    }
}

/// Computes the first stage.
pub fn low_pass_stage(gamma: Fixed, v: Fixed, prev: Fixed) -> (out: Fixed)
    requires
        0 <= gamma@ <= SCALE,
    ensures
        out@ == low_pass(gamma@, v@, prev@),
{
    let g: i128 = gamma.raw as i128;
    let rest: i128 = SCALE as i128 - g;
    let x: i128 = v.raw as i128;
    let p: i128 = prev.raw as i128;
    assert(-0x8000_0000_0000_0000_0000_0000 <= rest * x <= 0x8000_0000_0000_0000_0000_0000
        && -0x8000_0000_0000_0000_0000_0000 <= g * p <= 0x8000_0000_0000_0000_0000_0000)
        by (nonlinear_arith)
        requires
            0 <= g <= 0x1_0000_0000,
            0 <= rest <= 0x1_0000_0000,
            -0x8000_0000_0000_0000 <= x <= 0x8000_0000_0000_0000,
            -0x8000_0000_0000_0000 <= p <= 0x8000_0000_0000_0000,
    ;
    Fixed::saturating_from(wide_floor_div(rest * x + g * p, SCALE as i128))
}

/// Computes a later stage.
pub fn all_pass_stage(gamma: Fixed, fed: Fixed, fed_prev: Fixed, prev: Fixed) -> (out: Fixed)
    requires
        0 <= gamma@ <= SCALE,
    ensures
        out@ == all_pass(gamma@, fed@, fed_prev@, prev@),
{
    let g: i128 = gamma.raw as i128;
    let one: i128 = SCALE as i128;
    let f: i128 = fed.raw as i128;
    let fp: i128 = fed_prev.raw as i128;
    let p: i128 = prev.raw as i128;
    assert(-0x8000_0000_0000_0000_0000_0000 <= (-g) * f <= 0x8000_0000_0000_0000_0000_0000
        && -0x8000_0000_0000_0000_0000_0000 <= one * fp <= 0x8000_0000_0000_0000_0000_0000
        && -0x8000_0000_0000_0000_0000_0000 <= g * p <= 0x8000_0000_0000_0000_0000_0000)
        by (nonlinear_arith)
        requires
            0 <= g <= 0x1_0000_0000,
            one == 0x1_0000_0000,
            -0x8000_0000_0000_0000 <= f <= 0x8000_0000_0000_0000,
            -0x8000_0000_0000_0000 <= fp <= 0x8000_0000_0000_0000,
            -0x8000_0000_0000_0000 <= p <= 0x8000_0000_0000_0000,
    ;
    Fixed::saturating_from(wide_floor_div((-g) * f + one * fp + g * p, one))
}

/// Computes the relative strength of four new stage values.
pub fn rate(n0: Fixed, n1: Fixed, n2: Fixed, n3: Fixed, held: Fixed) -> (out: Fixed)
    ensures
        out@ == relative_strength(n0@, n1@, n2@, n3@, held@),
{
    let a: i128 = n0.raw as i128;
    let b: i128 = n1.raw as i128;
    let c: i128 = n2.raw as i128;
    let d: i128 = n3.raw as i128;
    let mut cu: i128 = 0;
    let mut cd: i128 = 0;
    if a >= b {
        cu = a - b;
    } else {
        cd = b - a;
    }
    if b >= c {
        cu = cu + (b - c);
    } else {
        cd = cd + (c - b);
    }
    if c >= d {
        cu = cu + (c - d);
    } else {
        cd = cd + (d - c);
    }
    if cu + cd != 0 {
        proof {
            lemma_relative_strength_bounded(n0@, n1@, n2@, n3@, 0);
        }
        assert(0 <= cu * SCALE <= 0x3_0000_0000_0000_0000_0000_0000) by (nonlinear_arith)
            requires
                0 <= cu <= 0x3_0000_0000_0000_0000,
                SCALE == 0x1_0000_0000,
        ;
        let share: i128 = (cu * (SCALE as i128)) / (cu + cd);
        Fixed { raw: share as i64 }
    } else {
        held
    }
}

/// The Laguerre relative-strength oscillator over the outputs of the
/// transform it owns.
pub struct LaguerreRSI<V: StreamTransform + ?Sized> {
    value: Fixed,
    gamma: Fixed,
    l0s: SlidingWindow,
    l1s: SlidingWindow,
    l2s: SlidingWindow,
    l3s: SlidingWindow,
    view: Box<V>,
}

impl<V: StreamTransform + ?Sized> LaguerreRSI<V> {
    /// The transform whose outputs feed the cascade.
    pub closed spec fn inner(&self) -> &V {
        &*self.view
    }

    /// The decay constant, as a raw fixed-point value.
    pub closed spec fn gamma(&self) -> int {
        self.gamma@
    }

    /// The stage histories and the output held.
    pub closed spec fn cascade(&self) -> Cascade {
        Cascade {
            l0: self.l0s@,
            l1: self.l1s@,
            l2: self.l2s@,
            l3: self.l3s@,
            value: self.value@,
        }
    }

    /// What well-formedness says of the parts.
    pub proof fn lemma_wf(&self)
        requires
            self.wf(),
        ensures
            self.inner().wf(),
            self.cascade().wf(),
            0 <= self.gamma() <= SCALE,
            self.response(Seq::empty()) == self.cascade().value,
    {
    }

    /// A filter over the outputs of `view`, with the decay constant that
    /// belongs to `window_len` and a fresh cascade.
    pub fn new(view: Box<V>, window_len: usize) -> (filter: Box<Self>)
        requires
            view.wf(),
            window_len >= 1,
        ensures
            filter.wf(),
            filter.inner() == view,
            filter.gamma() == gamma_of(window_len as nat),
            filter.cascade() == Cascade::fresh(),
    {
        let gamma: u128 = (2 * (SCALE as u128)) / (window_len as u128 + 1);
        proof {
            lemma_gamma_bounds(window_len as nat, window_len as nat);
        }
        Box::new(
            LaguerreRSI {
                value: Fixed { raw: 0 },
                gamma: Fixed { raw: gamma as i64 },
                l0s: SlidingWindow::new(STAGE_HISTORY),
                l1s: SlidingWindow::new(STAGE_HISTORY),
                l2s: SlidingWindow::new(STAGE_HISTORY),
                l3s: SlidingWindow::new(STAGE_HISTORY),
                view,
            },
        )
    }
}

impl LaguerreRSI<Echo> {
    /// A filter over the raw samples themselves.
    pub fn new_final(window_len: usize) -> (filter: Box<Self>)
        requires
            window_len >= 1,
        ensures
            filter.wf(),
            filter.inner().value() == 0,
            filter.gamma() == gamma_of(window_len as nat),
            filter.cascade() == Cascade::fresh(),
    {
        Self::new(Echo::new(), window_len)
    }
}

impl<V: StreamTransform + ?Sized> StreamTransform for LaguerreRSI<V> {
    closed spec fn wf(&self) -> bool {
        &&& self.view.wf()
        &&& 0 <= self.gamma@ <= SCALE
        &&& self.l0s.wf()
        &&& self.l1s.wf()
        &&& self.l2s.wf()
        &&& self.l3s.wf()
        &&& self.l0s.capacity() == STAGE_HISTORY
        &&& self.l1s.capacity() == STAGE_HISTORY
        &&& self.l2s.capacity() == STAGE_HISTORY
        &&& self.l3s.capacity() == STAGE_HISTORY
        &&& self.cascade().wf()
    }

    /// The output of the cascade once it has run over the inner outputs
    /// along `future`.
    open spec fn response(&self, future: Seq<int>) -> int {
        self.cascade().run(self.gamma(), trace(self.inner(), future)).value
    }

    /// Feeds `val` to the inner transform and steps the cascade with its
    /// output.
    fn update(&mut self, val: Fixed)
        ensures
            final(self).gamma() == old(self).gamma(),
            final(self).cascade() == old(self).cascade().step(
                old(self).gamma(),
                final(self).inner().response(Seq::empty()),
            ),
            forall|future: Seq<int>| #[trigger]
                final(self).inner().response(future) == old(self).inner().response(
                    seq![val@] + future,
                ),
    {
        self.view.update(val);
        let v = self.view.last();
        let held = self.l0s.len();
        if held < 2 {
            let zero = Fixed { raw: 0 };
            self.l0s.push(zero);
            self.l1s.push(zero);
            self.l2s.push(zero);
            self.l3s.push(zero);
        } else {
            let p0 = self.l0s.get(held - 2);
            let p1 = self.l1s.get(held - 2);
            let p2 = self.l2s.get(held - 2);
            let p3 = self.l3s.get(held - 2);
            let n0 = low_pass_stage(self.gamma, v, p0);
            let n1 = all_pass_stage(self.gamma, n0, p0, p1);
            let n2 = all_pass_stage(self.gamma, n1, p1, p2);
            let n3 = all_pass_stage(self.gamma, n2, p2, p3);
            self.l0s.push(n0);
            self.l1s.push(n1);
            self.l2s.push(n2);
            self.l3s.push(n3);
            self.value = rate(n0, n1, n2, n3, self.value);
        }
        proof {
            let gamma = old(self).gamma();
            let before = old(self).cascade();
            lemma_step_wf(before, gamma, v@);
            assert forall|future: Seq<int>| #[trigger]
                self.response(future) == old(self).response(seq![val@] + future) by {
                let rest = trace(self.inner(), future);
                lemma_trace_unfold(old(self).inner(), self.inner(), val@, future);
                let whole = seq![v@] + rest;
                assert(whole.drop_first() =~= rest);
                assert(before.run(gamma, whole) == before.step(gamma, whole[0]).run(
                    gamma,
                    whole.drop_first(),
                ));
            }
        }
    }

    fn last(&self) -> (out: Fixed)
        ensures
            out@ == self.cascade().value,
            0 <= out@ <= SCALE,
    {
        self.value
    }
}

/// Whatever samples follow, the output stays between zero and one.
pub proof fn lemma_output_bounded<V: StreamTransform + ?Sized>(
    filter: &LaguerreRSI<V>,
    future: Seq<int>,
)
    requires
        filter.wf(),
    ensures
        0 <= filter.response(future) <= SCALE,
{
    filter.lemma_wf();
    lemma_run_wf(filter.cascade(), filter.gamma(), trace(filter.inner(), future));
}

/// A filter with a fresh cascade reports zero until more than two samples
/// have come, whatever its decay constant and whatever the samples are.
pub proof fn lemma_output_zero_in_warm_up<V: StreamTransform + ?Sized>(
    filter: &LaguerreRSI<V>,
    future: Seq<int>,
)
    requires
        filter.cascade() == Cascade::fresh(),
        future.len() <= 2,
    ensures
        filter.response(future) == 0,
{
    lemma_warm_up(filter.gamma(), trace(filter.inner(), future));
}

/// Standing alone, a filter runs its cascade over the raw samples themselves.
pub proof fn lemma_alone_runs_on_samples(filter: &LaguerreRSI<Echo>, samples: Seq<int>)
    ensures
        filter.response(samples) == filter.cascade().run(filter.gamma(), samples).value,
{
    lemma_echo_is_identity(filter.inner(), samples);
}

/// A filter chained over an inner transform reports, at each step, what the
/// same filter standing alone reports when it is fed the outputs of the
/// inner transform.
pub proof fn lemma_chain_composes<V: StreamTransform + ?Sized>(
    chain: &LaguerreRSI<V>,
    alone: &LaguerreRSI<Echo>,
    samples: Seq<int>,
)
    requires
        alone.cascade() == chain.cascade(),
        alone.gamma() == chain.gamma(),
    ensures
        chain.response(samples) == alone.response(trace(chain.inner(), samples)),
        trace(chain, samples) == trace(alone, trace(chain.inner(), samples)),
{
    let fed = trace(chain.inner(), samples);
    lemma_echo_is_identity(alone.inner(), fed);
    let left = trace(chain, samples);
    let right = trace(alone, fed);
    assert forall|i: int| 0 <= i < samples.len() implies left[i] == right[i] by {
        lemma_trace_prefix(chain.inner(), samples, i + 1);
        lemma_echo_is_identity(alone.inner(), fed.take(i + 1));
    }
    assert(left =~= right);
}

} // verus!

//! The identity transform, the innermost node of every chain.

use crate::fixed::Fixed;
use crate::sliding_window::{trace, StreamTransform};
use vstd::prelude::*;

verus! {

/// Reports each sample as it came.
pub struct Echo {
    out: Fixed,
}

impl Echo {
    /// The raw value of the sample held.
    pub closed spec fn value(&self) -> int {
        self.out@
    }

    /// An echo that holds zero until its first sample.
    pub fn new() -> (e: Box<Self>)
        ensures
            e.wf(),
            e.value() == 0,
    {
        Box::new(Echo { out: Fixed { raw: 0 } })
    }
}

impl StreamTransform for Echo {
    /// An echo is always consistent.
    open spec fn wf(&self) -> bool {
        true
    }

    /// The newest sample of `future`; the sample held where `future` is empty.
    open spec fn response(&self, future: Seq<int>) -> int {
        if future.len() == 0 {
            self.value()
        } else {
            future.last()
        }
    }

    /// Takes `val` as the sample held.
    fn update(&mut self, val: Fixed)
        ensures
            final(self).value() == val@,
    {
        self.out = val;
        assert forall|future: Seq<int>| #[trigger]
            self.response(future) == old(self).response(seq![val@] + future) by {
            let whole = seq![val@] + future;
            assert(whole.last() == if future.len() == 0 {
                val@
            } else {
                future.last()
            });
        }
    }

    /// The sample held.
    fn last(&self) -> (out: Fixed)
        ensures
            out@ == self.value(),
    {
        self.out
    }
}

/// An echo reproduces its input sample for sample.
pub proof fn lemma_echo_is_identity(echo: &Echo, samples: Seq<int>)
    ensures
        trace(echo, samples) == samples,
{
    assert(trace(echo, samples) =~= samples);
}

/// Two echoes in a row reproduce the raw input: the outer one, fed what the
/// inner one reports, reports every sample unchanged.
pub proof fn lemma_echo_chain_is_identity(outer: &Echo, inner: &Echo, samples: Seq<int>)
    ensures
        trace(outer, trace(inner, samples)) == samples,
        samples.len() > 0 ==> outer.response(trace(inner, samples)) == samples.last(),
{
    lemma_echo_is_identity(inner, samples);
    lemma_echo_is_identity(outer, samples);
}

} // verus!

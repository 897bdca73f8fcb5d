//! The contract every filter meets, and the bounded window filters keep.

use crate::fixed::Fixed;
use std::collections::VecDeque;
use vstd::prelude::*;

verus! {

/// A stateful, causal transform of a sample stream: one output per sample.
///
/// A transform is described by its `response`: the output it would report
/// once the samples of `future` have been fed to it, in order, from its
/// present state. With no further sample that is the output it reports now.
pub trait StreamTransform {
    /// The state is consistent, together with that of every transform it owns.
    spec fn wf(&self) -> bool;

    /// The output after absorbing `future` from the present state.
    spec fn response(&self, future: Seq<int>) -> int;

    /// Absorbs the next sample. What lay one sample ahead is now the present:
    /// every response of the new state is the response of the old state to
    /// `val` followed by the same samples.
    fn update(&mut self, val: Fixed)
        requires
            old(self).wf(),
        ensures
            final(self).wf(),
            forall|future: Seq<int>| #[trigger]
                final(self).response(future) == old(self).response(seq![val@] + future),
    ;

    /// The most recent output; the state is left as it is.
    fn last(&self) -> (out: Fixed)
        requires
            self.wf(),
        ensures
            out@ == self.response(Seq::empty()),
    ;
}

/// The outputs that `node` reports along `future`: entry `i` is its output
/// once samples `0..=i` have been absorbed.
pub open spec fn trace<V: StreamTransform + ?Sized>(node: &V, future: Seq<int>) -> Seq<int> {
    Seq::new(future.len(), |i: int| node.response(future.take(i + 1)))
}

/// Feeding `x` first and then `rest` yields the output after `x`, followed by
/// what the state after `x` yields along `rest`.
pub proof fn lemma_trace_unfold<V: StreamTransform + ?Sized>(
    before: &V,
    after: &V,
    x: int,
    rest: Seq<int>,
)
    requires
        forall|future: Seq<int>| #[trigger]
            after.response(future) == before.response(seq![x] + future),
    ensures
        trace(before, seq![x] + rest) == seq![after.response(Seq::empty())] + trace(after, rest),
{
    let whole = seq![x] + rest;
    let left = trace(before, whole);
    let right = seq![after.response(Seq::empty())] + trace(after, rest);
    assert forall|i: int| 0 <= i < left.len() implies left[i] == right[i] by {
        if i == 0 {
            assert(whole.take(1) =~= seq![x] + Seq::<int>::empty());
        } else {
            assert(whole.take(i + 1) =~= seq![x] + rest.take(i));
        }
    }
    assert(left =~= right);
}

/// Outputs are causal: what a transform reports along the first `k` samples
/// does not depend on the samples after them.
pub proof fn lemma_trace_prefix<V: StreamTransform + ?Sized>(node: &V, future: Seq<int>, k: int)
    requires
        0 <= k <= future.len(),
    ensures
        trace(node, future.take(k)) == trace(node, future).take(k),
{
    let left = trace(node, future.take(k));
    let right = trace(node, future).take(k);
    assert forall|i: int| 0 <= i < k implies left[i] == right[i] by {
        assert(future.take(k).take(i + 1) =~= future.take(i + 1));
    }
    assert(left =~= right);
}

/// The `n` newest entries of `s`, oldest first; all of `s` where it holds no more.
pub open spec fn newest(s: Seq<int>, n: nat) -> Seq<int> {
    if s.len() <= n {
        s
    } else {
        s.subrange(s.len() - n, s.len() as int)
    }
}

/// Entries that already fell out of a window of `n` stay out when more follow.
pub proof fn lemma_newest_absorbs(s: Seq<int>, more: Seq<int>, n: nat)
    ensures
        newest(newest(s, n) + more, n) == newest(s + more, n),
{
    assert(newest(newest(s, n) + more, n) =~= newest(s + more, n));
}

/// Once `n` or more entries have followed, a window of `n` holds none of
/// what it held before.
pub proof fn lemma_newest_forgets(s: Seq<int>, more: Seq<int>, n: nat)
    requires
        more.len() >= n,
    ensures
        newest(s + more, n) == newest(more, n),
{
    assert(newest(s + more, n) =~= newest(more, n));
}

/// A queue that holds the newest samples, up to a fixed capacity.
pub struct SlidingWindow {
    limit: usize,
    items: VecDeque<i64>,
}

impl View for SlidingWindow {
    type V = Seq<int>;

    /// The raw values held, oldest first.
    closed spec fn view(&self) -> Seq<int> {
        self.items@.map_values(|x: i64| x as int)
    }
}

impl SlidingWindow {
    /// The largest number of samples the window holds.
    pub closed spec fn capacity(&self) -> nat {
        self.limit as nat
    }

    /// The window holds at most `capacity()` samples, and `capacity()` is positive.
    pub closed spec fn wf(&self) -> bool {
        &&& self.limit >= 1
        &&& self.items@.len() <= self.limit
    }

    /// A well-formed window holds no more than its capacity, which is positive.
    pub proof fn lemma_bounds(&self)
        requires
            self.wf(),
        ensures
            1 <= self.capacity() <= usize::MAX,
            self@.len() <= self.capacity(),
    {
    }

    /// Every entry is the raw value of a sample.
    pub proof fn lemma_entries_are_samples(&self)
        ensures
            forall|i: int| 0 <= i < self@.len() ==> i64::MIN <= #[trigger] self@[i] <= i64::MAX,
    {
    }

    /// An empty window of capacity `limit`.
    pub fn new(limit: usize) -> (w: Self)
        requires
            limit >= 1,
        ensures
            w.wf(),
            w.capacity() == limit,
            w@ == Seq::<int>::empty(),
    {
        let w = SlidingWindow { limit, items: VecDeque::new() };
        assert(w@ =~= Seq::<int>::empty());
        w
    }

    /// The number of samples held.
    pub fn len(&self) -> (n: usize)
        ensures
            n == self@.len(),
    {
        self.items.len()
    }

    /// The sample at position `i`, counted from the oldest.
    pub fn get(&self, i: usize) -> (v: Fixed)
        requires
            i < self@.len(),
        ensures
            v@ == self@[i as int],
    {
        Fixed { raw: self.items[i] }
    }

    /// Appends `v` as the newest sample; a full window first drops its oldest.
    pub fn push(&mut self, v: Fixed)
        requires
            old(self).wf(),
        ensures
            final(self).wf(),
            final(self).capacity() == old(self).capacity(),
            final(self)@ == newest(old(self)@.push(v@), old(self).capacity()),
    {
        if self.items.len() >= self.limit {
            self.items.pop_front();
        }
        self.items.push_back(v.raw);
        assert(self@ =~= newest(old(self)@.push(v@), old(self).capacity()));
    }
}

} // verus!

//! The samples kept for the charts a new client first draws: the most
//! recent `HISTORY_SIZE` of them, oldest first.
use vstd::prelude::*;
use std::collections::VecDeque;

verus! {

/// How many samples are kept: five minutes at one sample a second.
pub const HISTORY_SIZE: usize = 300;

/// What is kept after `sample` joins the kept samples `kept`: the oldest one
/// leaves when the history is full.
pub open spec fn pushed<T>(kept: Seq<T>, sample: T) -> Seq<T> {
    if kept.len() >= HISTORY_SIZE {
        kept.drop_first().push(sample)
    } else {
        kept.push(sample)
    }
}

/// The last `HISTORY_SIZE` of the samples `all` (all of them if there are fewer).
pub open spec fn window<T>(all: Seq<T>) -> Seq<T> {
    if all.len() > HISTORY_SIZE {
        all.skip(all.len() - HISTORY_SIZE)
    } else {
        all
    }
}

/// A bounded history of samples.
pub struct History<T> {
    samples: VecDeque<T>,
}

impl<T> View for History<T> {
    type V = Seq<T>;

    closed spec fn view(&self) -> Seq<T> {
        self.samples@
    }
}

impl<T> History<T> {
    #[verifier::type_invariant]
    spec fn bounded(self) -> bool {
        self.samples@.len() <= HISTORY_SIZE
    }

    /// An empty history.
    pub fn new() -> (h: Self)
        ensures
            h@ == Seq::<T>::empty(),
    {
        History { samples: VecDeque::with_capacity(HISTORY_SIZE) }
    }

    /// Adds `sample` as the newest one, dropping the oldest one when the
    /// history is full.
    pub fn push(&mut self, sample: T)
        ensures
            final(self)@ == pushed(old(self)@, sample),
            final(self)@.len() <= HISTORY_SIZE,
    {
        proof {
            use_type_invariant(&*self);
        }
        let mut q: VecDeque<T> = VecDeque::new();
        std::mem::swap(&mut q, &mut self.samples);
        if q.len() >= HISTORY_SIZE {
            q.pop_front();
        }
        q.push_back(sample);
        self.samples = q;
    }

    /// The number of samples kept.
    pub fn len(&self) -> (r: usize)
        ensures
            r == self@.len(),
            r <= HISTORY_SIZE,
    {
        proof {
            use_type_invariant(self);
        }
        self.samples.len()
    }

    /// The samples kept, oldest first.
    pub fn samples(&self) -> (r: &VecDeque<T>)
        ensures
            r@ == self@,
    {
        &self.samples
    }
}

/// A history that started empty and had every sample of `all` pushed, in
/// order, holds the last `HISTORY_SIZE` of them: pushing one more keeps the
/// last `HISTORY_SIZE` of the longer sequence.
pub proof fn lemma_history_keeps_last<T>(all: Seq<T>, sample: T)
    ensures
        window(all.push(sample)) == pushed(window(all), sample),
        window(all).len() <= HISTORY_SIZE,
        window(Seq::<T>::empty()) == Seq::<T>::empty(),
{
    let w = window(all);
    if all.len() >= HISTORY_SIZE {
        assert(window(all.push(sample)) =~= w.drop_first().push(sample));
    } else {
        assert(window(all.push(sample)) =~= w.push(sample));
    }
}

} // verus!

//! A predicate together with the number of times it has been asked.

use vstd::prelude::*;

verus! {

/// A binary predicate that counts its own invocations.
///
/// The predicate is private: the only way to reach it is [`Tally::ask`],
/// which adds one to the count on every call.
pub struct Tally<F> {
    pred: F,
    calls: usize,
}

impl<F> Tally<F> {
    /// The predicate that is being counted.
    pub closed spec fn pred(&self) -> F {
        self.pred
    }

    /// How often the predicate has been asked so far.
    pub closed spec fn count(&self) -> nat {
        self.calls as nat
    }

    /// Wraps `pred` with a count of zero.
    pub fn new(pred: F) -> (t: Self)
        ensures
            t.pred() == pred,
            t.count() == 0,
    {
        Tally { pred, calls: 0 }
    }

    /// Asks the predicate about `(a, b)` and records the call.
    pub fn ask<E>(&mut self, a: &E, b: &E) -> (answer: bool) where F: Fn(&E, &E) -> bool
        requires
            call_requires(old(self).pred(), (a, b)),
            old(self).count() < usize::MAX,
        ensures
            call_ensures(old(self).pred(), (a, b), answer),
            final(self).pred() == old(self).pred(),
            final(self).count() == old(self).count() + 1,
    {
        let answer = (self.pred)(a, b);
        self.calls = self.calls + 1;
        answer
    }

    /// The number of calls recorded so far.
    pub fn calls(&self) -> (n: usize)
        ensures
            n == self.count(),
    {
        self.calls
    }
}

} // verus!

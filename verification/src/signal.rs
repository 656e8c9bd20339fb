//! Signals: discrete events with no stored value, for one-shot notifications
//! such as clicks, as opposed to the continuous state held by properties.
//!
//! A signal keeps one invocation counter per registered callback. Emitting
//! the signal runs every registered callback once, synchronously, in
//! registration order; here that is recorded by incrementing each counter in
//! index order, and the host that owns the actual callback code drives them
//! from the counters.

use vstd::prelude::*;

use crate::arith::{inc_saturating, sat_inc};

verus! {

/// A discrete event source with registered zero-argument callbacks.
pub struct Signal {
    /// One invocation count per registered callback, in registration order.
    pub callbacks: Vec<u64>,
}

impl Signal {
    /// How many callbacks are registered.
    pub open spec fn n_callbacks(self) -> int {
        self.callbacks@.len() as int
    }

    /// How many times callback `i` has been invoked.
    pub open spec fn runs_of(self, i: int) -> u64 {
        self.callbacks@[i]
    }

    /// A signal with no registered callbacks.
    pub fn new() -> (s: Signal)
        ensures
            s.n_callbacks() == 0,
    {
        Signal { callbacks: Vec::new() }
    }

    /// Register a callback; it will run on every subsequent emission. Returns
    /// the callback's registration index.
    pub fn set_binding(&mut self) -> (i: usize)
        ensures
            i as int == old(self).n_callbacks(),
            final(self).n_callbacks() == old(self).n_callbacks() + 1,
            final(self).runs_of(i as int) == 0,
            forall|j: int| 0 <= j < old(self).n_callbacks() ==> #[trigger] final(self).runs_of(j)
                == old(self).runs_of(j),
    {
        let i = self.callbacks.len();
        self.callbacks.push(0);
        i
    }

    /// Emit the signal: run every registered callback once, in registration
    /// order.
    pub fn emit(&mut self)
        ensures
            final(self).n_callbacks() == old(self).n_callbacks(),
            forall|j: int| 0 <= j < old(self).n_callbacks() ==> #[trigger] final(self).runs_of(j)
                == sat_inc(old(self).runs_of(j)),
    {
        let ghost pre = *self;
        let n = self.callbacks.len();
        let mut i: usize = 0;
        while i < n
            invariant
                n == self.callbacks.len(),
                i <= n,
                self.callbacks@.len() == pre.callbacks@.len(),
                forall|j: int| i <= j < n ==> #[trigger] self.callbacks@[j] == pre.callbacks@[j],
                forall|j: int| 0 <= j < i ==> #[trigger] self.callbacks@[j] == sat_inc(
                    pre.callbacks@[j],
                ),
            decreases n - i,
        {
            let bumped = inc_saturating(self.callbacks[i]);
            self.callbacks.set(i, bumped);
            i += 1;
        }
    }

    /// How many times callback `i` has run.
    pub fn count(&self, i: usize) -> (r: u64)
        requires
            (i as int) < self.n_callbacks(),
        ensures
            r == self.runs_of(i as int),
    {
        self.callbacks[i]
    }
}

impl Default for Signal {
    /// A signal with no registered callbacks.
    fn default() -> (s: Signal)
        ensures
            s.n_callbacks() == 0,
    {
        Signal::new()
    }
}

} // verus!

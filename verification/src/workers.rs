//! The dispatch rule of the worker pool.
//!
//! Senders spread messages over a fixed set of worker queues in round-robin
//! order, starting from a cursor seeded at random so that independent
//! senders do not convoy on the same queue. The cursor arithmetic lives
//! here; the queues and threads live outside the library.

use vstd::prelude::*;

verus! {

/// A round-robin cursor over a fixed number of queues.
#[derive(Debug, Copy, Clone)]
pub struct RoundRobin {
    cursor: usize,
}

impl RoundRobin {
    /// The current cursor.
    pub closed spec fn cursor_spec(&self) -> usize {
        self.cursor
    }

    /// A cursor starting at `seed`.
    pub fn new(seed: usize) -> (r: Self)
        ensures
            r.cursor_spec() == seed,
    {
        RoundRobin { cursor: seed }
    }

    /// Advances the cursor and picks the next of `n` queues.
    pub fn next_queue(&mut self, n: usize) -> (r: usize)
        requires
            n >= 1,
        ensures
            final(self).cursor_spec() == vstd::wrapping::usize_specs::wrapping_add(
                old(self).cursor_spec(),
                1,
            ),
            r == final(self).cursor_spec() % n,
            r < n,
    {
        self.cursor = self.cursor.wrapping_add(1);
        self.cursor % n
    }
}

} // verus!

//! The data and decisions of the asynchronous reading helpers.
//!
//! The store's transport wraps a byte stream in two small adapters: a
//! one-shot read positioned inside a buffer, and a channel that signals
//! when it has drained so the consumer can flush. Their state and their
//! transition rules live here; the event loop around them performs the
//! actual input and output.

use vstd::prelude::*;

verus! {

/// The state of a pending positioned read: the reader, the buffer, and the
/// offset to read at. Once resolved the state empties.
pub struct ReadAt<R, T> {
    reader: Option<(R, T, usize)>,
}

impl<R, T> ReadAt<R, T> {
    /// Whether the read has not resolved yet.
    pub closed spec fn pending(&self) -> bool {
        self.reader is Some
    }

    /// The held reader, buffer and offset.
    pub closed spec fn parts(&self) -> (R, T, usize) {
        self.reader->Some_0
    }

    /// Whether the read has not resolved yet.
    pub fn is_pending(&self) -> (r: bool)
        ensures
            r == self.pending(),
    {
        self.reader.is_some()
    }

    /// Resolves the read, handing its parts back and emptying the state.
    pub fn resolve(&mut self) -> (r: (R, T, usize))
        requires
            old(self).pending(),
        ensures
            !final(self).pending(),
            r == old(self).parts(),
    {
        let mut taken: Option<(R, T, usize)> = None;
        core::mem::swap(&mut taken, &mut self.reader);
        match taken {
            Some(parts) => parts,
            None => {
                proof {
                    assert(false);
                }
                unreached()
            },
        }
    }
}

/// Starts reading into `buf` at offset `at` from `rd`. The returned state
/// holds all three until the read resolves.
pub fn read_at<R, T>(rd: R, buf: T, at: usize) -> (r: ReadAt<R, T>)
    ensures
        r.pending(),
        r.parts() == (rd, buf, at),
{
    ReadAt { reader: Some((rd, buf, at)) }
}

/// What the wrapped stream reported on one poll.
pub enum StreamEvent<I> {
    Item(I),
    NotReady,
    Finished,
}

/// What the signalling channel emits for one poll.
#[derive(Debug, PartialEq, Eq)]
pub enum StreamOutput<I> {
    Deliver(I),
    Signal,
    Pending,
    Finished,
}

/// The transition of the signalling channel: items pass through and set the
/// delivered flag; when the stream runs dry right after deliveries, one
/// drain signal fires and the flag clears.
pub open spec fn signaled_step_spec<I>(delivered: bool, ev: StreamEvent<I>) -> (
    bool,
    StreamOutput<I>,
) {
    match ev {
        StreamEvent::Item(i) => (true, StreamOutput::Deliver(i)),
        StreamEvent::NotReady => if delivered {
            (false, StreamOutput::Signal)
        } else {
            (false, StreamOutput::Pending)
        },
        StreamEvent::Finished => (delivered, StreamOutput::Finished),
    }
}

/// Applies one poll of the wrapped stream to the delivered flag.
pub fn signaled_step<I>(delivered: bool, ev: StreamEvent<I>) -> (r: (bool, StreamOutput<I>))
    ensures
        r == signaled_step_spec(delivered, ev),
{
    match ev {
        StreamEvent::Item(i) => (true, StreamOutput::Deliver(i)),
        StreamEvent::NotReady => {
            if delivered {
                (false, StreamOutput::Signal)
            } else {
                (false, StreamOutput::Pending)
            }
        },
        StreamEvent::Finished => (delivered, StreamOutput::Finished),
    }
}

} // verus!

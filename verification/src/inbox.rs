//! The UI inbox: a queue that outside producers fill and the UI loop drains
//! once per frame. This is the queue itself and its ordering rules; the
//! mutex, the sharing between threads, and the repaint request around it are
//! host-toolkit plumbing and live with the application shell.

use vstd::prelude::*;

verus! {

/// Error returned when sending to an inbox whose receiver is gone; the
/// unsent value is carried back to the caller.
pub struct SendError<T>(pub T);

/// A UI inbox: values sent by producers wait here, in send order, until the
/// UI loop drains them.
pub struct UiInbox<T> {
    /// Values sent and not yet drained, oldest first.
    pub queue: Vec<T>,
    /// Whether the receiving side is gone; sends then fail.
    pub dropped: bool,
}

impl<T> UiInbox<T> {
    /// A fresh inbox: nothing queued, receiver alive.
    pub fn new() -> (r: UiInbox<T>)
        ensures
            r.queue@.len() == 0,
            !r.dropped,
    {
        UiInbox { queue: Vec::new(), dropped: false }
    }

    /// Queue one value. Fails, returning the value, exactly when the
    /// receiver is gone; otherwise the value joins the end of the queue.
    pub fn send(&mut self, item: T) -> (r: Result<(), SendError<T>>)
        ensures
            old(self).dropped ==> r == Result::<(), SendError<T>>::Err(SendError(item))
                && final(self).queue@ == old(self).queue@,
            !old(self).dropped ==> r == Result::<(), SendError<T>>::Ok(()) && final(self).queue@
                == old(self).queue@.push(item),
            final(self).dropped == old(self).dropped,
    {
        if self.dropped {
            Err(SendError(item))
        } else {
            self.queue.push(item);
            Ok(())
        }
    }

    /// Drain the queue: every queued value, in the order it was sent.
    pub fn read(&mut self) -> (out: Vec<T>)
        ensures
            out@ == old(self).queue@,
            final(self).queue@.len() == 0,
            final(self).dropped == old(self).dropped,
    {
        let mut out: Vec<T> = Vec::new();
        core::mem::swap(&mut out, &mut self.queue);
        out
    }

    /// Drain the queue and keep only the last value, writing it over
    /// `target`; earlier values are discarded. Returns whether `target` was
    /// written.
    pub fn replace(&mut self, target: &mut T) -> (updated: bool)
        ensures
            final(self).queue@.len() == 0,
            final(self).dropped == old(self).dropped,
            old(self).queue@.len() > 0 ==> updated && *final(target) == old(self).queue@.last(),
            old(self).queue@.len() == 0 ==> !updated && *final(target) == *old(target),
    {
        let last = self.queue.pop();
        self.queue.clear();
        match last {
            Some(v) => {
                *target = v;
                true
            },
            None => false,
        }
    }

    /// Mark the receiving side gone: later sends fail and hand their value
    /// back. Values already queued stay readable.
    pub fn close(&mut self)
        ensures
            final(self).dropped,
            final(self).queue@ == old(self).queue@,
    {
        self.dropped = true;
    }
}

/// Sends append and reads drain in one step, so two values sent one after
/// the other come back in exactly that order behind what was already queued:
/// the queue after `send(a)` then `send(b)` is the old queue followed by `a`
/// then `b`, and `read` returns it as is.
pub proof fn lemma_send_order<T>(q: Seq<T>, a: T, b: T)
    ensures
        q.push(a).push(b) == q + seq![a, b],
{
    assert(q.push(a).push(b) =~= q + seq![a, b]);
}

} // verus!

use super::{Inner, Poll};
use vstd::prelude::*;

verus! {

const IS_TX_HALF: bool = true;

/// The sending half of a one-shot channel, for as long as it has the slot
/// on loan.
pub struct Sender<'a, T, E> {
    /// The slot of the channel.
    pub inner: &'a mut Inner<T, E>,
}

impl<'a, T, E> Sender<'a, T, E> {
    /// The slot as the half finds it.
    pub open spec fn slot(&self) -> Inner<T, E> {
        *self.inner
    }

    /// The sending half of the channel with the slot `inner`.
    #[inline]
    pub fn new(inner: &'a mut Inner<T, E>) -> (sender: Self)
        ensures
            sender.slot() == *old(inner),
            *final(inner) == *final(sender.inner),
    {
        Self { inner }
    }

    /// Completes this oneshot with a result.
    ///
    /// If the value is successfully enqueued, then `Ok(())` is returned. If
    /// the receiving end was dropped before this function was called, then
    /// `Err` is returned with the value provided.
    ///
    /// Either way the sending half is used up, so the slot is left closed.
    /// The receiving half is due a wake-up where it waits at that point.
    #[inline]
    pub fn send(self, data: Result<T, E>) -> (res: Result<(), Result<T, E>>)
        ensures
            res == self.slot()@.send_result(data),
            final(self.inner)@ == self.slot()@.after_send(data).after_close(),
    {
        let res = self.inner.send(data);
        self.inner.close_half(IS_TX_HALF);
        res
    }

    /// Polls this [`Sender`] half to detect whether the receiving half this
    /// has paired with has gone away.
    ///
    /// Returns `Ready` if it has. Otherwise the slot records that the sending
    /// half waits to be woken, and the call returns `Pending`.
    ///
    /// If the caller has no use for a wake-up, [`Sender::is_canceled`] tests
    /// the same condition and leaves no trace.
    #[inline]
    pub fn poll_cancel(&mut self) -> (res: Poll<()>)
        ensures
            res == old(self).slot()@.poll_result(),
            final(self).slot()@ == old(self).slot()@.after_poll(true),
            *final(final(self).inner) == *final(old(self).inner),
    {
        self.inner.poll_half(IS_TX_HALF)
    }

    /// Tests to see whether this [`Sender`]'s corresponding receiving half
    /// has gone away.
    #[inline]
    pub fn is_canceled(&self) -> (canceled: bool)
        ensures
            canceled == self.slot()@.complete,
    {
        self.inner.is_canceled()
    }

    /// Gives the sending half up without sending, which ends the exchange.
    ///
    /// Returns whether the receiving half has to be woken.
    #[inline]
    pub fn close(self) -> (wake: bool)
        ensures
            wake == self.slot()@.wakes_other(true),
            final(self.inner)@ == self.slot()@.after_close(),
    {
        self.inner.close_half(IS_TX_HALF)
    }
}

impl<T, E> Inner<T, E> {
    /// Stores `data` in the slot, unless the exchange is over: the message
    /// then comes back as the error.
    pub fn send(&mut self, data: Result<T, E>) -> (res: Result<(), Result<T, E>>)
        ensures
            res == old(self)@.send_result(data),
            final(self)@ == old(self)@.after_send(data),
    {
        if self.is_canceled() {
            Err(data)
        } else {
            self.data = Some(data);
            Ok(())
        }
    }
}

} // verus!

//! A channel for sending a single message between two halves.
//!
//! The two halves share one slot, [`Inner`]: a state word and room for the
//! message. The slot is a plain value. Its owner lends it to one half at a
//! time, so a half acts on the state that the other half left behind.

mod sender;

pub use self::sender::Sender;
use vstd::prelude::*;

verus! {

/// State bit: the sending half left a waker to be woken by.
pub const TX_WAKER_STORED: u8 = 1;

/// State bit: the receiving half left a waker to be woken by.
pub const RX_WAKER_STORED: u8 = 2;

/// State bit: one of the halves is gone, so the exchange is over.
pub const COMPLETE: u8 = 4;

/// The outcome of polling a half.
#[derive(Debug, PartialEq, Eq)]
pub enum Poll<T> {
    /// What was waited for has happened.
    Ready(T),
    /// Nothing yet; the half will be woken.
    Pending,
}

/// What an [`Inner`] is, mathematically: its three state bits and the
/// message it holds.
pub struct InnerView<T, E> {
    /// One of the halves is gone.
    pub complete: bool,
    /// The sending half waits to be woken.
    pub tx_waker_stored: bool,
    /// The receiving half waits to be woken.
    pub rx_waker_stored: bool,
    /// The message, once sent and until taken.
    pub data: Option<Result<T, E>>,
}

impl<T, E> InnerView<T, E> {
    /// The half named by `is_tx_half` waits to be woken.
    pub open spec fn waker_stored(self, is_tx_half: bool) -> bool {
        if is_tx_half {
            self.tx_waker_stored
        } else {
            self.rx_waker_stored
        }
    }

    /// What sending `data` returns: the message itself where the exchange is
    /// already over.
    pub open spec fn send_result(self, data: Result<T, E>) -> Result<(), Result<T, E>> {
        if self.complete {
            Err(data)
        } else {
            Ok(())
        }
    }

    /// The slot after `data` was sent: it holds the message, unless the
    /// exchange was already over.
    pub open spec fn after_send(self, data: Result<T, E>) -> Self {
        if self.complete {
            self
        } else {
            InnerView { data: Some(data), ..self }
        }
    }

    /// The slot after a half was polled: unless the exchange is over, the
    /// half now waits to be woken.
    pub open spec fn after_poll(self, is_tx_half: bool) -> Self {
        if self.complete {
            self
        } else if is_tx_half {
            InnerView { tx_waker_stored: true, ..self }
        } else {
            InnerView { rx_waker_stored: true, ..self }
        }
    }

    /// What polling a half returns.
    pub open spec fn poll_result(self) -> Poll<()> {
        if self.complete {
            Poll::Ready(())
        } else {
            Poll::Pending
        }
    }

    /// The slot after a half was closed: the exchange is over.
    pub open spec fn after_close(self) -> Self {
        InnerView { complete: true, ..self }
    }

    /// Closing the half named by `is_tx_half` has to wake the other half:
    /// this call ends the exchange, and the other half waits.
    pub open spec fn wakes_other(self, is_tx_half: bool) -> bool {
        !self.complete && self.waker_stored(!is_tx_half)
    }
}

/// The slot shared by the two halves of a channel.
pub struct Inner<T, E> {
    state: u8,
    data: Option<Result<T, E>>,
}

impl<T, E> View for Inner<T, E> {
    type V = InnerView<T, E>;

    closed spec fn view(&self) -> InnerView<T, E> {
        InnerView {
            complete: self.state & COMPLETE != 0,
            tx_waker_stored: self.state & TX_WAKER_STORED != 0,
            rx_waker_stored: self.state & RX_WAKER_STORED != 0,
            data: self.data,
        }
    }
}

impl<T, E> Inner<T, E> {
    /// A fresh slot: no message, no waker, both halves alive.
    pub fn new() -> (inner: Self)
        ensures
            inner@ == (InnerView::<T, E> {
                complete: false,
                tx_waker_stored: false,
                rx_waker_stored: false,
                data: None,
            }),
    {
        assert(0u8 & 4 == 0 && 0u8 & 2 == 0 && 0u8 & 1 == 0) by (bit_vector);
        Inner { state: 0, data: None }
    }

    /// Whether the exchange is over because a half is gone.
    pub fn is_canceled(&self) -> (canceled: bool)
        ensures
            canceled == self@.complete,
    {
        self.state & COMPLETE != 0
    }

    /// Whether the half named by `is_tx_half` waits to be woken.
    pub fn is_waker_stored(&self, is_tx_half: bool) -> (stored: bool)
        ensures
            stored == self@.waker_stored(is_tx_half),
    {
        if is_tx_half {
            self.state & TX_WAKER_STORED != 0
        } else {
            self.state & RX_WAKER_STORED != 0
        }
    }

    /// Polls for the end of the exchange on behalf of the half named by
    /// `is_tx_half`.
    ///
    /// Returns `Ready` where the exchange is over. Otherwise the slot records
    /// that the half waits to be woken, and the call returns `Pending`.
    pub fn poll_half(&mut self, is_tx_half: bool) -> (res: Poll<()>)
        ensures
            res == old(self)@.poll_result(),
            final(self)@ == old(self)@.after_poll(is_tx_half),
    {
        if self.is_canceled() {
            return Poll::Ready(());
        }
        let state: u8 = self.state;
        if is_tx_half {
            assert((state | 1) & 4 == state & 4 && (state | 1) & 2 == state & 2 && (state | 1) & 1
                != 0) by (bit_vector);
            self.state = state | TX_WAKER_STORED;
        } else {
            assert((state | 2) & 4 == state & 4 && (state | 2) & 1 == state & 1 && (state | 2) & 2
                != 0) by (bit_vector);
            self.state = state | RX_WAKER_STORED;
        }
        Poll::Pending
    }

    /// Closes the half named by `is_tx_half`, which ends the exchange.
    ///
    /// Returns whether the other half has to be woken: it has where this
    /// call ended the exchange and the other half waits.
    pub fn close_half(&mut self, is_tx_half: bool) -> (wake: bool)
        ensures
            wake == old(self)@.wakes_other(is_tx_half),
            final(self)@ == old(self)@.after_close(),
    {
        let state: u8 = self.state;
        assert((state | 4) & 4 != 0 && (state | 4) & 2 == state & 2 && (state | 4) & 1 == state & 1)
            by (bit_vector);
        if state & COMPLETE != 0 {
            assert(state & 4 != 0 ==> state | 4 == state) by (bit_vector);
            return false;
        }
        self.state = state | COMPLETE;
        if is_tx_half {
            state & RX_WAKER_STORED != 0
        } else {
            state & TX_WAKER_STORED != 0
        }
    }

    /// Takes the message out of the slot, if it holds one.
    pub fn take(&mut self) -> (data: Option<Result<T, E>>)
        ensures
            data == old(self)@.data,
            final(self)@ == (InnerView { data: None, ..old(self)@ }),
    {
        self.data.take()
    }
}

} // verus!

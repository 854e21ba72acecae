//! The one shared word of a pool: the head of its free list.

use vstd::prelude::*;

verus! {

/// Address at which a block starts.
pub type BlockAddress = usize;

/// The value of a [`Head`] whose list is empty. No block starts at this
/// address.
pub const EMPTY: usize = 0;

/// A machine word that is only ever read, or replaced as a whole on condition
/// that it still holds the value last read.
///
/// A pool touches the head of its free list through these two operations
/// alone, so an update never has an intermediate state that another user of
/// the pool could observe. Exclusive access (`&mut`) to the word stands for
/// the indivisibility of the exchange.
pub struct Head {
    value: usize,
}

impl View for Head {
    type V = usize;

    closed spec fn view(&self) -> usize {
        self.value
    }
}

impl Head {
    /// A word that holds `value`.
    pub fn new(value: usize) -> (head: Self)
        ensures
            head@ == value,
    {
        Head { value }
    }

    /// Reads the word.
    pub fn load(&self) -> (value: usize)
        ensures
            value == self@,
    {
        self.value
    }

    /// Replaces the word by `new` if it holds `current`.
    ///
    /// Returns `Ok` with the value replaced, or `Err` with the value found
    /// instead of `current`; the word is then left as it was.
    pub fn compare_exchange(&mut self, current: usize, new: usize) -> (res: Result<usize, usize>)
        ensures
            old(self)@ == current ==> res == Ok::<usize, usize>(current) && final(self)@ == new,
            old(self)@ != current ==> res == Err::<usize, usize>(old(self)@) && final(self)@ == old(
                self,
            )@,
    {
        if self.value == current {
            self.value = new;
            Ok(current)
        } else {
            Err(self.value)
        }
    }
}

} // verus!

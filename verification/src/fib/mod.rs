//! Fibers.

use vstd::prelude::*;

verus! {

/// Lightweight thread of execution.
pub trait Fiber {
    /// The type of [`resume`](Fiber::resume) input argument.
    type Input;

    /// The type of value this fiber yields.
    type Yield;

    /// The type of value this fiber returns.
    type Return;

    /// Resumes the execution of this fiber.
    fn resume(&mut self, input: Self::Input) -> FiberState<Self::Yield, Self::Return>;
}

/// A fiber that can be driven without input until it completes.
pub trait FiberRoot: Send + 'static {
    /// Resumes the execution of this fiber. Returns `true` if it's still
    /// alive.
    fn advance(&mut self) -> bool;
}

/// The result of a fiber resumption.
pub enum FiberState<Y, R> {
    /// The fiber suspended with a value.
    Yielded(Y),
    /// The fiber completed with a return value.
    Complete(R),
}

/// The yield type of a fiber that yields nothing: `()`.
pub trait YieldNone: Send + 'static {

}

impl YieldNone for () {

}

} // verus!

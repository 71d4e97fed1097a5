use vstd::prelude::*;

verus! {

/// An algorithm that advances in bounded units of work.
///
/// A caller either drives the algorithm with `step` until it reports that it
/// has finished, or hands it to `run`, which does so and derives the result.
pub trait SteppedAlgorithm: Sized {
    type ReturnType;

    /// The working state is consistent.
    spec fn inv(&self) -> bool;

    /// An upper bound on the number of steps that can still report "not finished".
    spec fn remaining(&self) -> nat;

    /// Performs one unit of work and reports whether the algorithm has finished.
    fn step(&mut self) -> (finished: bool)
        requires
            old(self).inv(),
        ensures
            final(self).inv(),
            !finished ==> final(self).remaining() < old(self).remaining(),
    ;

    /// Steps until finished and returns the result.
    fn run(self) -> Self::ReturnType
        requires
            self.inv(),
    ;
}

} // verus!

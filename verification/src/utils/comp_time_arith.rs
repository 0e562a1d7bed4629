use vstd::prelude::*;

mod sealed;

verus! {

/// An implementation exists iff `A + B == C`.
pub trait IsSum<const A: usize, const B: usize, const C: usize>: sealed::Sealed {
    /// What an implementation witnesses.
    proof fn sum_holds()
        ensures
            A + B == C,
    ;
}

#[derive(Debug)]
pub struct SixEqualsFourPlusTwo;

impl sealed::Sealed for SixEqualsFourPlusTwo {

}

impl IsSum<4, 2, 6> for SixEqualsFourPlusTwo {
    proof fn sum_holds() {
    }
}

} // verus!

use vstd::prelude::*;

verus! {

/// Seals `IsSum` so that no crate but this one can implement it.
pub trait Sealed {

}

} // verus!

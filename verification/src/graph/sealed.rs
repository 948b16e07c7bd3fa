use vstd::prelude::*;

verus! {

/// Closes the set of node id types: only `u16` and `u32` have it.
pub trait Sealed: Copy + Send + Sync + core::fmt::Debug {

}

impl Sealed for u16 {

}

impl Sealed for u32 {

}

} // verus!

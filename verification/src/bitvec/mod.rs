//! Bit vectors: the growable one, the atomic one of fixed length, and their iterators.

pub mod atomic_bitvec;
pub mod bitvec;
pub mod iter;

pub use atomic_bitvec::AtomicBitVec;
pub use bitvec::BitVec;
pub use iter::{IterOnes, IterZeros};

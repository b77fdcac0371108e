//! A kinetic priority container.
//!
//! Elements carry priorities that are affine functions of a discrete,
//! monotonically advancing clock.  [`AffFunction`] provides exact wide-integer
//! evaluation and crossing queries between two such functions; a
//! [`KineticHanger`] is an array-backed binary heap over those priorities that
//! keeps its order invariant valid as the clock advances, repairing itself
//! only at the times where a pairwise order relation actually flips.

pub mod aff;
pub mod heap;

pub use aff::AffFunction;
pub use heap::KineticError;
pub use heap::KineticHeap;
pub use heap::KineticHanger;
pub use heap::Slot;

//! A split vector: a dynamic-capacity vector built from fragments whose
//! capacities never change, so that elements stay where they were placed.
use vstd::prelude::*;

pub mod fragment;
pub mod layout;
pub mod bits;
pub mod growth;
pub mod split_vec;
pub mod resize_unit;
pub mod access;
pub mod shift;
pub mod resize_multiple;
pub mod new_split_vec;
pub mod into_fragments;
pub mod concurrency;
pub mod slice;
pub mod idx;
pub mod iter;
pub mod pointers;
pub mod laws;

pub use fragment::Fragment;
pub use growth::doubling::Doubling;
pub use growth::fixed::FixedCapacity;
pub use growth::linear::Linear;
pub use growth::recursive::Recursive;
pub use growth::{Growth, GrowthCapacities, GrowthWithConstantTimeAccess, ParGrowth};
pub use idx::SplitIndex;
pub use into_fragments::IntoFragments;
pub use iter::SplitVecIterator;
pub use pointers::{Ptr, PtrBackward, Ptrs};
pub use slice::SplitVecSlice;
pub use split_vec::SplitVec;

verus! {

} // verus!

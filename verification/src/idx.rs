//! The index of an element in a jagged array: the array holding it and its
//! index within that array.
use core::cmp::Ordering;
use vstd::prelude::*;
use vstd::std_specs::cmp::PartialOrdSpecImpl;

verus! {

/// Index of an element in a jagged array.
#[derive(Debug, Clone, Copy, PartialEq, Eq, Structural)]
pub struct SplitIndex {
    /// Index of the array containing the element.
    pub f: usize,
    /// Index of the element within the array containing it.
    pub i: usize,
}

impl SplitIndex {
    /// Creates a new jagged index:
    ///
    /// * `f`: index of the array containing the element.
    /// * `i`: index of the element within the array containing it.
    pub fn new(f: usize, i: usize) -> (r: Self)
        ensures
            r.f == f,
            r.i == i,
    {
        SplitIndex { f, i }
    }

    /// The order of jagged indices: by array, then by index within the array.
    pub open spec fn index_cmp(&self, other: &Self) -> Option<Ordering> {
        if self.f < other.f {
            Some(Ordering::Less)
        } else if self.f > other.f {
            Some(Ordering::Greater)
        } else if self.i < other.i {
            Some(Ordering::Less)
        } else if self.i > other.i {
            Some(Ordering::Greater)
        } else {
            Some(Ordering::Equal)
        }
    }
}

impl Default for SplitIndex {
    /// The index of the first element of the first array.
    fn default() -> (r: Self)
        ensures
            r.f == 0,
            r.i == 0,
    {
        SplitIndex { f: 0, i: 0 }
    }
}

impl From<(usize, usize)> for SplitIndex {
    /// The jagged index of array `f` and index `i` within it.
    fn from(value: (usize, usize)) -> (r: Self)
        ensures
            r.f == value.0,
            r.i == value.1,
    {
        let (f, i) = value;
        Self::new(f, i)
    }
}

impl vstd::std_specs::convert::FromSpecImpl<(usize, usize)> for SplitIndex {
    open spec fn obeys_from_spec() -> bool {
        true
    }

    open spec fn from_spec(v: (usize, usize)) -> Self {
        SplitIndex { f: v.0, i: v.1 }
    }
}

impl PartialOrd for SplitIndex {
    /// Compares the arrays first, then the indices within them.
    fn partial_cmp(&self, other: &Self) -> (r: Option<Ordering>) {
        if self.f < other.f {
            Some(Ordering::Less)
        } else if self.f > other.f {
            Some(Ordering::Greater)
        } else if self.i < other.i {
            Some(Ordering::Less)
        } else if self.i > other.i {
            Some(Ordering::Greater)
        } else {
            Some(Ordering::Equal)
        }
    }
}

impl PartialOrdSpecImpl for SplitIndex {
    open spec fn obeys_partial_cmp_spec() -> bool {
        true
    }

    open spec fn partial_cmp_spec(&self, other: &Self) -> Option<Ordering> {
        self.index_cmp(other)
    }
}

} // verus!

//! What a split vector can reach when it is shared among threads: the
//! capacity it reaches without its fragments collection moving.
use crate::fragment::caps_of;
use crate::growth::Growth;
use crate::split_vec::{lemma_split_vec_fields, SplitVec};
use vstd::prelude::*;

verus! {

broadcast use lemma_split_vec_fields;

impl<T, G: Growth> SplitVec<T, G> {
    /// The maximum capacity after reserving for `maximum_capacity` is defined:
    /// the fragments collection then holds the larger of its current room and
    /// the number of fragments the growth strategy needs.
    pub open spec fn reserve_defined(&self, maximum_capacity: nat) -> bool {
        match self.spec_growth().spec_required_fragments_len(self.caps(), maximum_capacity) {
            Some(n) => self.spec_growth().maximum_concurrent_capacity_defined(
                self.caps(),
                if n > self.spec_fragments_capacity() {
                    n
                } else {
                    self.spec_fragments_capacity()
                },
            ) && n <= usize::MAX,
            None => true,
        }
    }

    /// Maximum capacity that can safely be reached by the vector in a
    /// concurrent program: the capacity reached without moving the fragments
    /// collection. The vector can grow beyond it; the bound only matters when
    /// the vector is shared among threads.
    pub fn maximum_concurrent_capacity(&self) -> (c: usize)
        requires
            self.wf(),
            self.spec_growth().maximum_concurrent_capacity_defined(
                self.caps(),
                self.spec_fragments_capacity(),
            ),
        ensures
            c == self.spec_growth().spec_maximum_concurrent_capacity(
                self.caps(),
                self.spec_fragments_capacity(),
            ),
    {
        proof {
            lemma_split_vec_fields(self);
        }
        self.growth.maximum_concurrent_capacity(self.fragments.as_slice(), self.fragments_capacity)
    }

    /// Makes sure that the split vector can safely reach the given
    /// `maximum_capacity` in a concurrent program, by letting its fragments
    /// collection hold the number of fragments this needs; returns the new
    /// maximum concurrent capacity, or the growth strategy's error when it
    /// cannot reach `maximum_capacity`. No element moves.
    pub fn concurrent_reserve(&mut self, maximum_capacity: usize) -> (r: Result<usize, String>)
        requires
            old(self).wf(),
            old(self).reserve_defined(maximum_capacity as nat),
        ensures
            final(self).wf(),
            final(self)@ == old(self)@,
            final(self).frags() == old(self).frags(),
            final(self).spec_growth() == old(self).spec_growth(),
            match old(self).spec_growth().spec_required_fragments_len(old(self).caps(), maximum_capacity as nat) {
                Some(n) => {
                    &&& final(self).spec_fragments_capacity() == if n > old(self).spec_fragments_capacity() {
                        n
                    } else {
                        old(self).spec_fragments_capacity()
                    }
                    &&& r == Ok::<usize, String>(
                        old(self).spec_growth().spec_maximum_concurrent_capacity(
                            old(self).caps(),
                            final(self).spec_fragments_capacity(),
                        ) as usize,
                    )
                },
                None => {
                    &&& *final(self) == *old(self)
                    &&& r matches Err(e) && e@ == old(self).spec_growth().spec_required_fragments_error(
                        old(self).caps(),
                    )
                },
            },
    {
        proof {
            lemma_split_vec_fields(&*self);
        }
        let required = self.growth.required_fragments_len(self.fragments.as_slice(), maximum_capacity);
        match required {
            Err(e) => Err(e),
            Ok(required_num_fragments) => {
                if required_num_fragments > self.fragments_capacity {
                    let n = self.fragments.len();
                    self.fragments.reserve(required_num_fragments - n);
                    self.fragments_capacity = required_num_fragments;
                }
                proof {
                    lemma_split_vec_fields(&*self);
                }
                Ok(self.maximum_concurrent_capacity())
            },
        }
    }

    /// Returns `true` only if a fragment can be added without moving the
    /// fragments collection, which is what makes it safe concurrently.
    pub fn can_concurrently_add_fragment(&self) -> (b: bool)
        ensures
            b == (self.spec_fragments_capacity() > self.frags().len()),
    {
        proof {
            lemma_split_vec_fields(self);
        }
        self.fragments_capacity > self.fragments.len()
    }
}

} // verus!

//! Finding and reading elements by their index.
use crate::growth::Growth;
use crate::layout::{is_location, lemma_flatten_index, lens_of, sum_lens};
use crate::split_vec::{lemma_split_vec_fields, SplitVec};
use vstd::prelude::*;

verus! {

broadcast use lemma_split_vec_fields;

impl<T, G: Growth> SplitVec<T, G> {
    /// Returns the fragment index and the index within fragment of the item
    /// with the given `index`; `None` if the index is out of bounds.
    ///
    /// The location is the one the growth strategy computes; it is where the
    /// element is stored.
    pub fn get_fragment_and_inner_indices(&self, index: usize) -> (r: Option<(usize, usize)>)
        requires
            self.wf(),
        ensures
            r == self.spec_growth().spec_locate(self@.len(), self.lens(), index as nat),
            index < self@.len() ==> (r matches Some((f, i)) && is_location(
                self.lens(),
                f as int,
                i as int,
                index as int,
            )),
            index >= self@.len() ==> r is None,
    {
        proof {
            self.lemma_wf();
            self.spec_growth().lemma_locate(self.caps(), self.lens(), index as nat);
        }
        self.growth.get_fragment_and_inner_indices(self.len, self.fragments.as_slice(), index)
    }

    /// ***O(fragments)*** Returns the fragment index and the index within
    /// fragment of the item with the given `index`, found by walking the
    /// fragments; `None` if the index is out of bounds.
    pub fn fragment_and_inner_index(&self, index: usize) -> (r: Option<(usize, usize)>)
        requires
            self.wf(),
        ensures
            index < self@.len() ==> (r matches Some((f, i)) && is_location(
                self.lens(),
                f as int,
                i as int,
                index as int,
            )),
            index >= self@.len() ==> r is None,
    {
        proof {
            self.lemma_wf();
            if index < sum_lens(self.lens()) {
                crate::layout::lemma_location_exists(self.lens(), index as int);
            }
        }
        crate::growth::get_fragment_and_inner_indices(self.fragments.as_slice(), index)
    }

    /// Returns a reference to the element with the given `index`; `None` if
    /// the index is out of bounds.
    pub fn get(&self, index: usize) -> (r: Option<&T>)
        requires
            self.wf(),
        ensures
            index < self@.len() ==> r == Some(&self@[index as int]),
            index >= self@.len() ==> r is None,
    {
        proof {
            self.lemma_wf();
        }
        match self.get_fragment_and_inner_indices(index) {
            Some((f, i)) => {
                proof {
                    lemma_flatten_index(self.fragment_views(), f as int, i as int);
                }
                self.fragments[f].get(i)
            },
            None => None,
        }
    }

    /// Returns a reference to the first element of the vector; `None` if the
    /// vector is empty.
    pub fn first(&self) -> (r: Option<&T>)
        requires
            self.wf(),
        ensures
            r == (if self@.len() > 0 {
                Some(&self@[0])
            } else {
                None::<&T>
            }),
    {
        let n = self.len();
        if n == 0 {
            None
        } else {
            self.get(0)
        }
    }

    /// Returns a reference to the last element of the vector; `None` if the
    /// vector is empty.
    pub fn last(&self) -> (r: Option<&T>)
        requires
            self.wf(),
        ensures
            r == (if self@.len() > 0 {
                Some(&self@.last())
            } else {
                None::<&T>
            }),
    {
        let n = self.len();
        if n == 0 {
            None
        } else {
            self.get(n - 1)
        }
    }
}

} // verus!

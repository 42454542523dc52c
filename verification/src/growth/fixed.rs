//! The fixed-capacity strategy: the vector never grows beyond the single
//! fragment it is created with.
use crate::fragment::{caps_of, lens_of_fragments, Fragment};
use crate::growth::{grown_caps, Growth, GrowthCapacities};
use crate::layout::{fits, full_prefix, is_location, sum_caps, sum_lens};
use vstd::prelude::*;

verus! {

/// A 'no-growth' strategy which does not allow the vector to grow at all.
///
/// The vector must be created with sufficient capacity; it has a single
/// fragment, and an element's location within it is its index. The pinned
/// location of pushed elements is kept as with every strategy.
#[derive(Debug, Default, Clone, Copy, PartialEq, Eq)]
pub struct FixedCapacity;

impl Growth for FixedCapacity {
    open spec fn wf_growth(&self) -> bool {
        true
    }

    /// The strategy never adds a fragment: no capacity fits in `usize`.
    open spec fn spec_new_capacity(&self, caps: Seq<usize>) -> nat {
        usize::MAX as nat + 1
    }

    open spec fn valid_caps(&self, caps: Seq<usize>) -> bool {
        caps.len() <= 1
    }

    open spec fn can_grow(&self, caps: Seq<usize>) -> bool {
        false
    }

    open spec fn keeps_full_prefix(&self) -> bool {
        true
    }

    open spec fn max_fragments(&self) -> nat {
        1
    }

    open spec fn spec_locate(&self, vec_len: nat, lens: Seq<nat>, index: nat) -> Option<(usize, usize)> {
        if index < vec_len {
            Some((0usize, index as usize))
        } else {
            None
        }
    }

    open spec fn can_locate(&self, vec_len: nat, index: nat) -> bool {
        true
    }

    open spec fn spec_maximum_concurrent_capacity(&self, caps: Seq<usize>, fragments_capacity: nat) -> nat {
        sum_caps(caps)
    }

    open spec fn maximum_concurrent_capacity_defined(&self, caps: Seq<usize>, fragments_capacity: nat) -> bool {
        sum_caps(caps) <= usize::MAX
    }

    open spec fn spec_required_fragments_len(&self, caps: Seq<usize>, maximum_capacity: nat) -> Option<nat> {
        if maximum_capacity <= sum_caps(caps) {
            Some(caps.len())
        } else {
            None
        }
    }

    open spec fn spec_required_fragments_error(&self, caps: Seq<usize>) -> Seq<char> {
        crate::growth::capacity_limit_message(" by the FixedCapacity strategy"@, sum_caps(caps) as usize)
    }

    open spec fn spec_maximum_concurrent_capacity_bound(&self) -> nat {
        usize::MAX as nat
    }

    proof fn lemma_valid_empty(&self) {
    }

    proof fn lemma_valid_prefix(&self, caps: Seq<usize>, k: int) {
    }

    proof fn lemma_grow(&self, caps: Seq<usize>) {
    }

    proof fn lemma_valid_bounds(&self, caps: Seq<usize>) {
        if caps.len() == 1 {
            assert(caps.drop_last() =~= Seq::<usize>::empty());
            assert(sum_caps(Seq::<usize>::empty()) == 0);
        }
    }

    proof fn lemma_caps_positive(&self, caps: Seq<usize>, k: int) {
    }

    proof fn lemma_valid_remove(&self, caps: Seq<usize>, k: int) {
    }

    proof fn lemma_locate(&self, caps: Seq<usize>, lens: Seq<nat>, index: nat) {
        if lens.len() == 1 && index < sum_lens(lens) {
            assert(lens.drop_last() =~= Seq::<nat>::empty());
            assert(lens.take(0) =~= Seq::<nat>::empty());
            assert(sum_lens(Seq::<nat>::empty()) == 0);
            assert(is_location(lens, 0, index as int, index as int));
        }
        if lens.len() == 0 {
            assert(sum_lens(lens) == 0);
        }
    }

    /// Never called: the strategy does not grow.
    /// The strategy never grows.
    fn can_grow_from(&self, fragment_capacities: &[usize]) -> (b: bool) {
        false
    }

    fn new_fragment_capacity_from(&self, fragment_capacities: &[usize]) -> (c: usize) {
        0
    }

    /// ***O(1)*** The single fragment holds the element at its index.
    fn get_fragment_and_inner_indices<T>(
        &self,
        vec_len: usize,
        fragments: &[Fragment<T>],
        element_index: usize,
    ) -> (r: Option<(usize, usize)>) {
        if element_index < vec_len {
            Some((0, element_index))
        } else {
            None
        }
    }

    /// The capacity of the fragments: the vector never grows.
    fn maximum_concurrent_capacity<T>(&self, fragments: &[Fragment<T>], fragments_capacity: usize) -> (c: usize) {
        let mut total: usize = 0;
        let mut k: usize = 0;
        let ghost caps = caps_of(fragments@);
        while k < fragments.len()
            invariant
                caps == caps_of(fragments@),
                k <= caps.len(),
                total == sum_caps(caps.take(k as int)),
                sum_caps(caps) <= usize::MAX,
            decreases caps.len() - k,
        {
            proof {
                crate::layout::lemma_sum_caps_take(caps, k as int);
                crate::layout::lemma_sum_caps_take_mono(caps, k as int + 1, caps.len() as int);
                crate::layout::lemma_sum_caps_take_all(caps);
            }
            total = total + fragments[k].capacity();
            k += 1;
        }
        proof {
            crate::layout::lemma_sum_caps_take_all(caps);
        }
        total
    }

    /// The current number of fragments when their capacity suffices; an error otherwise.
    fn required_fragments_len<T>(&self, fragments: &[Fragment<T>], maximum_capacity: usize) -> (r: Result<usize, String>) {
        let ghost caps = caps_of(fragments@);
        proof {
            self.lemma_valid_bounds(caps);
        }
        let capacity = if fragments.len() == 0 {
            0
        } else {
            proof {
                assert(caps.drop_last() =~= Seq::<usize>::empty());
                assert(sum_caps(Seq::<usize>::empty()) == 0);
                assert(sum_caps(caps) == caps[0]);
            }
            fragments[0].capacity()
        };
        if maximum_capacity <= capacity {
            Ok(fragments.len())
        } else {
            Err(crate::growth::format_capacity_limit(" by the FixedCapacity strategy", capacity))
        }
    }

    /// The vector never grows: the bound is `usize::MAX`.
    fn maximum_concurrent_capacity_bound<T>(&self, fragments: &[Fragment<T>], fragments_capacity: usize) -> (c: usize) {
        usize::MAX
    }
}

impl GrowthCapacities for FixedCapacity {
    proof fn lemma_concurrent_capacity_grown(&self, caps: Seq<usize>, fragments_capacity: nat) {
        assert(grown_caps(*self, caps, 0) == caps);
    }

    proof fn lemma_concurrent_covers_capacity(&self, caps: Seq<usize>, fragments_capacity: nat) {
    }

    proof fn lemma_required_fragments_len_fewest(&self, caps: Seq<usize>, maximum_capacity: nat) {
        assert(caps.take(caps.len() as int) =~= caps);
    }
}

} // verus!

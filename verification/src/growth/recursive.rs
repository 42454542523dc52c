//! The recursive strategy: new fragments double the capacity of the last one,
//! and whole vectors can be appended as fragments, so that an element's
//! location is found by walking the fragments.
use crate::fragment::{caps_of, lens_of_fragments, Fragment};
use crate::growth::doubling::{doubling_cumulative, doubling_cumulative_capacity, doubling_max_fragments, doubling_max_fragments_count};
use crate::growth::{
    capacity_limit_message, format_capacity_limit, jagged_index_by_walking, jagged_walk, GrowthCapacities,
    grown_caps, layout_total, lemma_jagged_walk_location, scan_location, Growth, ParGrowth,
};
use crate::idx::SplitIndex;
use crate::layout::{
    fits, full_prefix, is_location, lemma_location_exists, lemma_location_unique,
    lemma_sum_caps_take, lemma_sum_caps_take_all, sum_caps, sum_lens,
};
use vstd::prelude::*;

verus! {

/// The capacity reached after `m` more fragments, each doubling the one
/// before it, are added to fragments of total capacity `total` whose last one
/// holds `last` elements.
pub open spec fn recursive_grown_total(total: nat, last: nat, m: nat) -> nat
    decreases m,
{
    if m == 0 {
        total
    } else {
        recursive_grown_total(total + 2 * last, 2 * last, (m - 1) as nat)
    }
}

/// Every capacity met while adding those `m` fragments fits in `usize`.
pub open spec fn recursive_grown_fits(total: nat, last: nat, m: nat) -> bool
    decreases m,
{
    if m == 0 {
        total <= usize::MAX
    } else {
        &&& 2 * last <= usize::MAX
        &&& total + 2 * last <= usize::MAX
        &&& recursive_grown_fits(total + 2 * last, 2 * last, (m - 1) as nat)
    }
}

/// The number of fragments, starting from `f` fragments of total capacity
/// `total` whose last one holds `last` elements, after which the capacity
/// reaches `maximum_capacity`, each new fragment doubling the last one; `None`
/// when a capacity on the way does not fit in `usize`.
pub open spec fn recursive_required(total: nat, last: nat, f: nat, maximum_capacity: nat) -> Option<nat>
    decreases usize::MAX + 1 - total,
{
    if total >= maximum_capacity {
        Some(f)
    } else if last == 0 || 2 * last > usize::MAX || total + 2 * last > usize::MAX {
        None
    } else {
        recursive_required(total + 2 * last, 2 * last, f + 1, maximum_capacity)
    }
}

/// The capacity of the last of the given fragments, or 2 when there are none:
/// the capacity doubled by the next fragment.
pub open spec fn recursive_last(caps: Seq<usize>) -> nat {
    if caps.len() > 0 {
        caps.last() as nat
    } else {
        2
    }
}

/// The capacities the recursive strategy adds total what
/// `recursive_grown_total` counts, as long as they fit in `usize`.
proof fn lemma_recursive_grown_total(caps: Seq<usize>, m: nat)
    requires
        recursive_grown_fits(sum_caps(caps), recursive_last(caps), m),
    ensures
        sum_caps(grown_caps(Recursive, caps, m)) == recursive_grown_total(sum_caps(caps), recursive_last(caps), m),
    decreases m,
{
    if m > 0 {
        let last = recursive_last(caps);
        let c1 = caps.push((2 * last) as usize);
        assert(Recursive.spec_new_capacity(caps) == 2 * last);
        assert(c1.drop_last() =~= caps);
        lemma_recursive_grown_total(c1, (m - 1) as nat);
        crate::growth::lemma_grown_caps_step(Recursive, caps, (m - 1) as nat);
    }
}

/// The number of fragments the recursive strategy requires for
/// `maximum_capacity` is at least the number there is, its fragments hold
/// `maximum_capacity`, and one fewer beyond those there are would not.
proof fn lemma_recursive_required_fewest(caps: Seq<usize>, maximum_capacity: nat)
    requires
        sum_caps(caps) <= usize::MAX,
    ensures
        recursive_required(sum_caps(caps), recursive_last(caps), caps.len(), maximum_capacity) matches Some(n)
            ==> {
            &&& n >= caps.len()
            &&& layout_total(Recursive, caps, n) >= maximum_capacity
            &&& n > caps.len() ==> layout_total(Recursive, caps, (n - 1) as nat) < maximum_capacity
        },
    decreases usize::MAX + 1 - sum_caps(caps),
{
    let total = sum_caps(caps);
    let last = recursive_last(caps);
    assert(caps.take(caps.len() as int) =~= caps);
    if total < maximum_capacity && !(last == 0 || 2 * last > usize::MAX || total + 2 * last > usize::MAX) {
        let c1 = caps.push((2 * last) as usize);
        assert(Recursive.spec_new_capacity(caps) == 2 * last);
        assert(c1.drop_last() =~= caps);
        assert(c1.take(c1.len() as int) =~= c1);
        lemma_recursive_required_fewest(c1, maximum_capacity);
        assert(grown_caps(Recursive, caps, 0) == caps);
        assert(grown_caps(Recursive, caps, 1) =~= c1);
        if let Some(n) = recursive_required(sum_caps(c1), recursive_last(c1), c1.len(), maximum_capacity) {
            assert forall|j: nat| j >= c1.len() implies layout_total(Recursive, c1, j) == layout_total(
                Recursive,
                caps,
                j,
            ) by {
                if j > c1.len() {
                    crate::growth::lemma_grown_caps_step(Recursive, caps, (j - c1.len()) as nat);
                }
            }
        }
    }
}

/// Strategy which creates a fragment with double the capacity of the prior
/// fragment every time the split vector needs to expand, and which accepts
/// whole vectors as fragments (see `append`).
///
/// Random access walks the fragments, so it takes time linear in the number
/// of fragments.
#[derive(Debug, Default, Clone, Copy, PartialEq, Eq)]
pub struct Recursive;

/// The total capacity of the given fragments.
fn total_capacity<T>(fragments: &[Fragment<T>]) -> (c: usize)
    requires
        sum_caps(caps_of(fragments@)) <= usize::MAX,
    ensures
        c == sum_caps(caps_of(fragments@)),
{
    let ghost caps = caps_of(fragments@);
    let mut total: usize = 0;
    let mut k: usize = 0;
    while k < fragments.len()
        invariant
            caps == caps_of(fragments@),
            k <= caps.len(),
            total == sum_caps(caps.take(k as int)),
            sum_caps(caps) <= usize::MAX,
        decreases caps.len() - k,
    {
        proof {
            lemma_sum_caps_take(caps, k as int);
            crate::layout::lemma_sum_caps_take_mono(caps, k as int + 1, caps.len() as int);
            lemma_sum_caps_take_all(caps);
        }
        total = total + fragments[k].capacity();
        k += 1;
    }
    proof {
        lemma_sum_caps_take_all(caps);
    }
    total
}

/// The capacity of the last of the given fragments, or 2 when there are none.
fn last_capacity<T>(fragments: &[Fragment<T>]) -> (c: usize)
    ensures
        c == recursive_last(caps_of(fragments@)),
{
    let n = fragments.len();
    if n == 0 {
        2
    } else {
        fragments[n - 1].capacity()
    }
}

impl Growth for Recursive {
    open spec fn wf_growth(&self) -> bool {
        true
    }

    open spec fn spec_new_capacity(&self, caps: Seq<usize>) -> nat {
        if caps.len() == 0 {
            4
        } else {
            2 * (caps.last() as nat)
        }
    }

    open spec fn valid_caps(&self, caps: Seq<usize>) -> bool {
        &&& sum_caps(caps) <= usize::MAX
        &&& caps.len() <= usize::MAX
        &&& forall|k: int| 0 <= k < caps.len() ==> #[trigger] caps[k] > 0
    }

    open spec fn can_grow(&self, caps: Seq<usize>) -> bool {
        &&& caps.len() + 1 < usize::MAX
        &&& sum_caps(caps) + self.spec_new_capacity(caps) <= usize::MAX
    }

    open spec fn keeps_full_prefix(&self) -> bool {
        false
    }

    open spec fn max_fragments(&self) -> nat {
        usize::MAX as nat
    }

    open spec fn spec_locate(&self, vec_len: nat, lens: Seq<nat>, index: nat) -> Option<(usize, usize)> {
        scan_location(lens, index)
    }

    open spec fn can_locate(&self, vec_len: nat, index: nat) -> bool {
        true
    }

    open spec fn spec_maximum_concurrent_capacity(&self, caps: Seq<usize>, fragments_capacity: nat) -> nat {
        recursive_grown_total(sum_caps(caps), recursive_last(caps), (fragments_capacity - caps.len()) as nat)
    }

    open spec fn maximum_concurrent_capacity_defined(&self, caps: Seq<usize>, fragments_capacity: nat) -> bool {
        recursive_grown_fits(sum_caps(caps), recursive_last(caps), (fragments_capacity - caps.len()) as nat)
    }

    open spec fn spec_required_fragments_len(&self, caps: Seq<usize>, maximum_capacity: nat) -> Option<nat> {
        recursive_required(sum_caps(caps), recursive_last(caps), caps.len(), maximum_capacity)
    }

    open spec fn spec_required_fragments_error(&self, caps: Seq<usize>) -> Seq<char> {
        capacity_limit_message(" by the Recursive strategy"@, usize::MAX)
    }

    open spec fn spec_maximum_concurrent_capacity_bound(&self) -> nat {
        doubling_cumulative(doubling_max_fragments())
    }

    proof fn lemma_valid_empty(&self) {
    }

    proof fn lemma_valid_prefix(&self, caps: Seq<usize>, k: int) {
        crate::layout::lemma_sum_caps_take_mono(caps, k, caps.len() as int);
        lemma_sum_caps_take_all(caps);
        assert forall|j: int| 0 <= j < caps.take(k).len() implies #[trigger] caps.take(k)[j] > 0 by {
            assert(caps.take(k)[j] == caps[j]);
        }
    }

    proof fn lemma_grow(&self, caps: Seq<usize>) {
        let c = self.spec_new_capacity(caps);
        let new_caps = caps.push(c as usize);
        if caps.len() > 0 {
            assert(caps[caps.len() - 1] > 0);
        }
        assert(new_caps.drop_last() =~= caps);
        assert forall|k: int| 0 <= k < new_caps.len() implies #[trigger] new_caps[k] > 0 by {
            if k < caps.len() {
                assert(new_caps[k] == caps[k]);
            }
        }
    }

    proof fn lemma_valid_bounds(&self, caps: Seq<usize>) {
    }

    proof fn lemma_caps_positive(&self, caps: Seq<usize>, k: int) {
    }

    proof fn lemma_valid_remove(&self, caps: Seq<usize>, k: int) {
        let r = caps.remove(k);
        assert forall|j: int| 0 <= j < r.len() implies #[trigger] r[j] > 0 by {
            if j < k {
                assert(r[j] == caps[j]);
            } else {
                assert(r[j] == caps[j + 1]);
            }
        }
        lemma_sum_caps_remove(caps, k);
    }

    proof fn lemma_locate(&self, caps: Seq<usize>, lens: Seq<nat>, index: nat) {
        if index < sum_lens(lens) {
            lemma_location_exists(lens, index as int);
            let (f, i) = choose|f: int, i: int| is_location(lens, f, i, index as int);
            crate::layout::lemma_location_bound(lens, f, i, index as int);
            assert(f < lens.len() && i < lens[f]);
            assert(lens[f] <= caps[f]);
        }
    }

    /// Doubles the capacity of the last fragment; the first fragment holds 4 elements.
    /// The strategy grows as long as the number of fragments and the total
    /// capacity fit in `usize`.
    fn can_grow_from(&self, fragment_capacities: &[usize]) -> (b: bool) {
        let caps = fragment_capacities;
        let n = caps.len();
        if n >= usize::MAX - 1 {
            return false;
        }
        proof {
            self.lemma_valid_bounds(caps@);
        }
        let mut total: usize = 0;
        let mut k: usize = 0;
        while k < n
            invariant
                n == caps@.len(),
                k <= n,
                total == sum_caps(caps@.take(k as int)),
                sum_caps(caps@) <= usize::MAX,
            decreases n - k,
        {
            proof {
                lemma_sum_caps_take(caps@, k as int);
                crate::layout::lemma_sum_caps_take_mono(caps@, k as int + 1, n as int);
                lemma_sum_caps_take_all(caps@);
            }
            total = total + caps[k];
            k += 1;
        }
        proof {
            lemma_sum_caps_take_all(caps@);
        }
        let last: usize = if n == 0 {
            2
        } else {
            caps[n - 1]
        };
        if last > usize::MAX / 2 {
            false
        } else {
            total <= usize::MAX - 2 * last
        }
    }

    fn new_fragment_capacity_from(&self, fragment_capacities: &[usize]) -> (c: usize) {
        let n = fragment_capacities.len();
        if n == 0 {
            4
        } else {
            fragment_capacities[n - 1] * 2
        }
    }

    /// ***O(fragments.len())*** Walks the fragments.
    fn get_fragment_and_inner_indices<T>(
        &self,
        vec_len: usize,
        fragments: &[Fragment<T>],
        element_index: usize,
    ) -> (r: Option<(usize, usize)>) {
        crate::growth::get_fragment_and_inner_indices(fragments, element_index)
    }

    /// The current capacity, plus that of the fragments that fill the
    /// fragments collection, each doubling the one before it (the first of
    /// them doubling 2 when there is no fragment).
    fn maximum_concurrent_capacity<T>(&self, fragments: &[Fragment<T>], fragments_capacity: usize) -> (c: usize) {
        let ghost caps = caps_of(fragments@);
        proof {
            lemma_grown_fits_start(sum_caps(caps), recursive_last(caps), (fragments_capacity - caps.len()) as nat);
        }
        let current_capacity = total_capacity(fragments);
        let mut last_capacity = last_capacity(fragments);
        let mut total = current_capacity;
        let mut f = fragments.len();
        while f < fragments_capacity
            invariant
                caps == caps_of(fragments@),
                fragments_capacity >= f >= fragments@.len(),
                recursive_grown_fits(total as nat, last_capacity as nat, (fragments_capacity - f) as nat),
                recursive_grown_total(total as nat, last_capacity as nat, (fragments_capacity - f) as nat)
                    == self.spec_maximum_concurrent_capacity(caps, fragments_capacity as nat),
            decreases fragments_capacity - f,
        {
            last_capacity = last_capacity * 2;
            total = total + last_capacity;
            f += 1;
        }
        total
    }

    /// Adds fragments, each doubling the last one (the first doubling 2 when
    /// there is no fragment), until the capacity reaches `maximum_capacity`;
    /// fails when a capacity on the way does not fit in `usize`.
    fn required_fragments_len<T>(&self, fragments: &[Fragment<T>], maximum_capacity: usize) -> (r: Result<usize, String>) {
        let ghost caps = caps_of(fragments@);
        let mut total = total_capacity(fragments);
        let mut last_capacity = last_capacity(fragments);
        let mut f = fragments.len();
        proof {
            assert(last_capacity > 0) by {
                if caps.len() > 0 {
                    assert(caps[caps.len() - 1] > 0);
                }
            }
            lemma_sum_caps_ge_len(caps);
        }
        while total < maximum_capacity
            invariant
                caps == caps_of(fragments@),
                last_capacity > 0,
                f <= total,
                recursive_required(total as nat, last_capacity as nat, f as nat, maximum_capacity as nat)
                    == self.spec_required_fragments_len(caps, maximum_capacity as nat),
            decreases usize::MAX - total,
        {
            let doubled = last_capacity.checked_mul(2);
            match doubled {
                None => {
                    return Err(format_capacity_limit(" by the Recursive strategy", usize::MAX));
                },
                Some(new_last) => {
                    last_capacity = new_last;
                },
            }
            let added = total.checked_add(last_capacity);
            match added {
                None => {
                    return Err(format_capacity_limit(" by the Recursive strategy", usize::MAX));
                },
                Some(new_total) => {
                    total = new_total;
                },
            }
            f += 1;
        }
        Ok(f)
    }

    /// The bound of the doubling strategy.
    fn maximum_concurrent_capacity_bound<T>(&self, fragments: &[Fragment<T>], fragments_capacity: usize) -> (c: usize) {
        doubling_cumulative_capacity(doubling_max_fragments_count())
    }
}

/// The capacities met while growing fit in `usize` from the start.
proof fn lemma_grown_fits_start(total: nat, last: nat, m: nat)
    requires
        recursive_grown_fits(total, last, m),
    ensures
        total <= usize::MAX,
        recursive_grown_total(total, last, m) <= usize::MAX,
    decreases m,
{
    if m > 0 {
        lemma_grown_fits_start(total + 2 * last, 2 * last, (m - 1) as nat);
    }
}

/// Positive capacities sum to at least their number.
proof fn lemma_sum_caps_ge_len(caps: Seq<usize>)
    requires
        forall|k: int| 0 <= k < caps.len() ==> #[trigger] caps[k] > 0,
    ensures
        sum_caps(caps) >= caps.len(),
    decreases caps.len(),
{
    if caps.len() > 0 {
        assert(caps[caps.len() - 1] > 0);
        assert forall|k: int| 0 <= k < caps.drop_last().len() implies #[trigger] caps.drop_last()[k] > 0 by {
            assert(caps.drop_last()[k] == caps[k]);
        }
        lemma_sum_caps_ge_len(caps.drop_last());
    }
}

/// Removing one capacity removes it from the sum.
proof fn lemma_sum_caps_remove(caps: Seq<usize>, k: int)
    requires
        0 <= k < caps.len(),
    ensures
        sum_caps(caps.remove(k)) + caps[k] == sum_caps(caps),
    decreases caps.len(),
{
    if k == caps.len() - 1 {
        assert(caps.remove(k) =~= caps.drop_last());
    } else {
        assert(caps.remove(k).drop_last() =~= caps.drop_last().remove(k));
        lemma_sum_caps_remove(caps.drop_last(), k);
    }
}

impl ParGrowth for Recursive {
    open spec fn spec_jagged_index(&self, lens: Seq<nat>, flat_index: nat) -> (nat, nat) {
        jagged_walk(lens, flat_index, 0)
    }

    open spec fn can_jagged_index(&self, lens: Seq<nat>, flat_index: nat) -> bool {
        flat_index <= sum_lens(lens)
    }

    proof fn lemma_jagged_index(&self, caps: Seq<usize>, lens: Seq<nat>, flat_index: nat) {
        assert(lens.take(0) =~= Seq::<nat>::empty());
        lemma_jagged_walk_location(lens, flat_index, 0);
    }

    /// ***O(fragments)*** Walks the fragments, skipping their lengths.
    fn jagged_index_unchecked<T>(&self, fragments: &[Fragment<T>], flat_index: usize) -> (r: SplitIndex) {
        jagged_index_by_walking(fragments, flat_index)
    }
}

impl GrowthCapacities for Recursive {
    proof fn lemma_concurrent_capacity_grown(&self, caps: Seq<usize>, fragments_capacity: nat) {
        lemma_recursive_grown_total(caps, (fragments_capacity - caps.len()) as nat);
    }

    proof fn lemma_concurrent_covers_capacity(&self, caps: Seq<usize>, fragments_capacity: nat) {
        crate::laws::law_recursive_concurrent_covers_capacity(caps, fragments_capacity);
    }

    proof fn lemma_required_fragments_len_fewest(&self, caps: Seq<usize>, maximum_capacity: nat) {
        lemma_recursive_required_fewest(caps, maximum_capacity);
    }
}

} // verus!

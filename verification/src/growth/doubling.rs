//! The doubling strategy: the first fragment holds 4 elements and every new
//! fragment holds twice as many as the one before it.
use crate::bits::{lemma_leading_zeros_log2, lemma_log2_bounds, lemma_pow2_le, lemma_pow2_succ, log2};
use crate::fragment::{caps_of, lens_of_fragments, Fragment};
use crate::idx::SplitIndex;
use crate::growth::{
    capacity_limit_message, format_capacity_limit, grown_caps, Growth, GrowthCapacities, GrowthWithConstantTimeAccess,
    ParGrowth,
};
use crate::layout::{
    fits, full_prefix, is_location, lemma_sum_caps_take, lemma_sum_lens_take, offset, sum_caps,
    sum_lens,
};
use vstd::arithmetic::power2::{lemma2_to64, lemma_pow2_pos, pow2};
use vstd::bits::{lemma_u64_pow2_no_overflow, lemma_usize_pow2_no_overflow, lemma_usize_shl_is_mul};
use vstd::prelude::*;

verus! {

/// Capacity of the first fragment of a doubling vector.
pub const FIRST_FRAGMENT_CAPACITY: usize = 4;

/// The largest number of fragments of a doubling vector.
pub open spec fn doubling_max_fragments() -> nat {
    if usize::BITS == 64 {
        32
    } else {
        29
    }
}

/// Number of elements the first `f` fragments of a doubling vector hold:
/// `4 + 8 + ... + 2^(f+1)`.
pub open spec fn doubling_cumulative(f: nat) -> nat {
    (pow2(f + 2) - 4) as nat
}

/// Index of the fragment of a doubling vector that holds the element with
/// flat index `index`.
pub open spec fn doubling_fragment_of(index: nat) -> nat {
    (log2(index + 4) - 2) as nat
}

/// Location of the element with flat index `index` in a doubling vector whose
/// fragments before it are full.
pub open spec fn doubling_location(index: nat) -> (usize, usize) {
    let f = doubling_fragment_of(index);
    (f as usize, (index - doubling_cumulative(f)) as usize)
}

/// Flat indices below this bound have a location that the doubling strategy
/// can compute.
pub open spec fn doubling_locate_limit() -> nat {
    doubling_cumulative(doubling_max_fragments() + 1)
}

/// The number of fragments, starting from `f`, after which a doubling vector
/// reaches `maximum_capacity`; `None` when no number of fragments within the
/// strategy's limit does.
pub open spec fn doubling_required(maximum_capacity: nat, f: nat) -> Option<nat>
    decreases doubling_max_fragments() + 1 - f,
{
    if f > doubling_max_fragments() {
        None
    } else if doubling_cumulative(f) >= maximum_capacity {
        Some(f)
    } else {
        doubling_required(maximum_capacity, f + 1)
    }
}

/// The powers of two that doubling vectors use fit in `usize`.
pub proof fn lemma_doubling_pow2_fits(k: nat)
    requires
        k <= doubling_max_fragments() + 3,
    ensures
        pow2(k) <= usize::MAX + 1,
        k <= doubling_max_fragments() + 2 ==> pow2(k) <= usize::MAX,
{
    lemma2_to64();
    if usize::BITS == 64 {
        lemma_usize_pow2_no_overflow(k);
    } else {
        if k < 32 {
            lemma_usize_pow2_no_overflow(k);
        } else {
            lemma_pow2_le(k, 32);
        }
    }
}

/// The first `f` fragments of a doubling vector hold four less than `2^(f+2)` elements.
pub proof fn lemma_doubling_cumulative_value(f: nat)
    ensures
        doubling_cumulative(f) + 4 == pow2(f + 2),
{
    lemma2_to64();
    lemma_pow2_le(2, f + 2);
}

/// The element with flat index `index` lies in fragment `doubling_fragment_of(index)`.
pub proof fn lemma_doubling_fragment_of(index: nat)
    ensures
        doubling_cumulative(doubling_fragment_of(index)) <= index,
        index < doubling_cumulative(doubling_fragment_of(index) + 1),
        log2(index + 4) == doubling_fragment_of(index) + 2,
{
    let x: nat = index + 4;
    lemma2_to64();
    lemma_log2_bounds(x);
    if log2(x) < 2 {
        lemma_pow2_le(log2(x) + 1, 2);
        assert(false);
    }
    let f = doubling_fragment_of(index);
    assert(log2(x) == f + 2);
    assert(pow2(f + 2) <= x);
    lemma_pow2_succ(f + 2);
    assert(x < pow2(f + 3));
    lemma_doubling_cumulative_value(f);
    lemma_doubling_cumulative_value(f + 1);
}

/// An element below the capacity of the first `m` fragments lies in one of them.
pub proof fn lemma_doubling_fragment_below(index: nat, m: nat)
    requires
        index < doubling_cumulative(m),
    ensures
        doubling_fragment_of(index) < m,
{
    lemma_doubling_fragment_of(index);
    let f = doubling_fragment_of(index);
    if f >= m {
        lemma_pow2_le(m + 2, f + 2);
        lemma_doubling_cumulative_value(f);
        lemma_doubling_cumulative_value(m);
        assert(doubling_cumulative(m) <= doubling_cumulative(f));
        assert(false);
    }
}

/// The first fragments of a doubling vector hold 4, 8, 16, ... elements.
pub proof fn lemma_doubling_cumulative_step(f: nat)
    ensures
        doubling_cumulative(f + 1) == doubling_cumulative(f) + pow2(f + 2),
        pow2(f + 2) >= 4,
{
    lemma2_to64();
    lemma_pow2_succ(f + 2);
    lemma_pow2_le(2, f + 2);
    lemma_doubling_cumulative_value(f);
    lemma_doubling_cumulative_value(f + 1);
}

/// The total capacity of doubling fragments is the cumulative capacity of their number.
pub proof fn lemma_doubling_sum_caps(caps: Seq<usize>)
    requires
        forall|k: int| 0 <= k < caps.len() ==> #[trigger] caps[k] == pow2((k + 2) as nat),
    ensures
        sum_caps(caps) == doubling_cumulative(caps.len()),
    decreases caps.len(),
{
    lemma2_to64();
    if caps.len() > 0 {
        let n = caps.len() - 1;
        assert(forall|k: int|
            0 <= k < caps.drop_last().len() ==> #[trigger] caps.drop_last()[k] == pow2(
                (k + 2) as nat,
            )) by {
            assert forall|k: int| 0 <= k < caps.drop_last().len() implies #[trigger] caps.drop_last()[k]
                == pow2((k + 2) as nat) by {
                assert(caps.drop_last()[k] == caps[k]);
            }
        }
        lemma_doubling_sum_caps(caps.drop_last());
        lemma_doubling_cumulative_step(n as nat);
        assert(caps.last() == pow2((n + 2) as nat));
    }
}

/// In a doubling vector whose fragments before `k` are full, the fragments
/// before `k` hold `doubling_cumulative(k)` elements.
pub proof fn lemma_doubling_offset(caps: Seq<usize>, lens: Seq<nat>, k: int)
    requires
        forall|j: int| 0 <= j < caps.len() ==> #[trigger] caps[j] == pow2((j + 2) as nat),
        fits(caps, lens),
        full_prefix(caps, lens),
        0 <= k < lens.len(),
    ensures
        offset(lens, k) == doubling_cumulative(k as nat),
    decreases k,
{
    lemma2_to64();
    if k == 0 {
        assert(lens.take(0) =~= Seq::<nat>::empty());
    } else {
        lemma_doubling_offset(caps, lens, k - 1);
        lemma_sum_lens_take(lens, k - 1);
        lemma_doubling_cumulative_step((k - 1) as nat);
        assert(lens[k - 1] == caps[k - 1]);
    }
}

/// Fragments laid out by the doubling strategy stay so when the strategy
/// adds fragments, up to its largest number of fragments.
proof fn lemma_doubling_grown(caps: Seq<usize>, m: nat)
    requires
        forall|k: int| 0 <= k < caps.len() ==> #[trigger] caps[k] == pow2((k + 2) as nat),
        caps.len() + m <= doubling_max_fragments(),
    ensures
        grown_caps(Doubling, caps, m).len() == caps.len() + m,
        forall|k: int|
            0 <= k < caps.len() + m ==> #[trigger] grown_caps(Doubling, caps, m)[k] == pow2((k + 2) as nat),
    decreases m,
{
    if m > 0 {
        lemma_doubling_grown(caps, (m - 1) as nat);
        let g = grown_caps(Doubling, caps, (m - 1) as nat);
        let n = g.len();
        lemma2_to64();
        lemma_doubling_pow2_fits(n + 2);
        if n > 0 {
            assert(g.last() == pow2((n - 1 + 2) as nat));
            lemma_pow2_succ(n + 1);
        }
        assert(Doubling.spec_new_capacity(g) == pow2(n + 2));
    }
}

/// The total capacity of the first `n` doubling fragments, when the
/// fragments there are follow the doubling layout.
proof fn lemma_doubling_layout_total(caps: Seq<usize>, n: nat)
    requires
        Doubling.valid_caps(caps),
        n <= doubling_max_fragments(),
    ensures
        crate::growth::layout_total(Doubling, caps, n) == doubling_cumulative(n),
{
    if n <= caps.len() {
        let t = caps.take(n as int);
        assert forall|k: int| 0 <= k < t.len() implies #[trigger] t[k] == pow2((k + 2) as nat) by {
            assert(t[k] == caps[k]);
        }
        lemma_doubling_sum_caps(t);
    } else {
        let m = (n - caps.len()) as nat;
        lemma_doubling_grown(caps, m);
        lemma_doubling_sum_caps(grown_caps(Doubling, caps, m));
    }
}

/// Strategy which creates a fragment with double the capacity of the prior
/// fragment every time the split vector needs to expand.
///
/// The first fragment holds 4 elements, the second 8, the third 16, and so
/// on; an element's location follows from its index in constant time.
#[derive(Debug, Default, Clone, Copy, PartialEq, Eq)]
pub struct Doubling;

/// The largest number of fragments of a doubling vector.
pub fn doubling_max_fragments_count() -> (n: usize)
    ensures
        n == doubling_max_fragments(),
{
    if usize::BITS == 64 {
        32
    } else {
        29
    }
}

/// Number of elements the first `f` fragments of a doubling vector hold.
pub fn doubling_cumulative_capacity(f: usize) -> (c: usize)
    requires
        f <= doubling_max_fragments(),
    ensures
        c == doubling_cumulative(f as nat),
{
    proof {
        lemma_doubling_pow2_fits((f + 2) as nat);
        lemma2_to64();
        lemma_pow2_le(2, (f + 2) as nat);
        lemma_usize_shl_is_mul(1, (f + 2) as usize);
    }
    (1usize << (f + 2)) - 4
}

impl Growth for Doubling {
    open spec fn wf_growth(&self) -> bool {
        true
    }

    open spec fn spec_new_capacity(&self, caps: Seq<usize>) -> nat {
        if caps.len() == 0 {
            4
        } else {
            2 * (caps.last() as nat)
        }
    }

    open spec fn valid_caps(&self, caps: Seq<usize>) -> bool {
        &&& caps.len() <= doubling_max_fragments()
        &&& forall|k: int| 0 <= k < caps.len() ==> #[trigger] caps[k] == pow2((k + 2) as nat)
    }

    open spec fn can_grow(&self, caps: Seq<usize>) -> bool {
        caps.len() < doubling_max_fragments()
    }

    open spec fn keeps_full_prefix(&self) -> bool {
        true
    }

    open spec fn max_fragments(&self) -> nat {
        doubling_max_fragments()
    }

    open spec fn spec_locate(&self, vec_len: nat, lens: Seq<nat>, index: nat) -> Option<(usize, usize)> {
        if index < vec_len {
            Some(doubling_location(index))
        } else {
            None
        }
    }

    open spec fn can_locate(&self, vec_len: nat, index: nat) -> bool {
        index < vec_len ==> index < doubling_locate_limit()
    }

    open spec fn spec_maximum_concurrent_capacity(&self, caps: Seq<usize>, fragments_capacity: nat) -> nat {
        doubling_cumulative(fragments_capacity)
    }

    open spec fn maximum_concurrent_capacity_defined(&self, caps: Seq<usize>, fragments_capacity: nat) -> bool {
        fragments_capacity <= doubling_max_fragments()
    }

    open spec fn spec_required_fragments_len(&self, caps: Seq<usize>, maximum_capacity: nat) -> Option<nat> {
        doubling_required(maximum_capacity, 0)
    }

    open spec fn spec_required_fragments_error(&self, caps: Seq<usize>) -> Seq<char> {
        capacity_limit_message(" by the Doubling strategy"@, doubling_cumulative(doubling_max_fragments()) as usize)
    }

    open spec fn spec_maximum_concurrent_capacity_bound(&self) -> nat {
        doubling_cumulative(doubling_max_fragments())
    }

    proof fn lemma_valid_empty(&self) {
    }

    proof fn lemma_valid_prefix(&self, caps: Seq<usize>, k: int) {
        assert forall|j: int| 0 <= j < caps.take(k).len() implies #[trigger] caps.take(k)[j] == pow2(
            (j + 2) as nat,
        ) by {
            assert(caps.take(k)[j] == caps[j]);
        }
    }

    proof fn lemma_grow(&self, caps: Seq<usize>) {
        lemma2_to64();
        let n = caps.len();
        lemma_doubling_sum_caps(caps);
        lemma_doubling_cumulative_step(n);
        lemma_doubling_pow2_fits(n + 3);
        if n > 0 {
            assert(caps.last() == pow2((n - 1 + 2) as nat));
            lemma_pow2_succ((n + 1) as nat);
        }
        assert(self.spec_new_capacity(caps) == pow2(n + 2));
        lemma_doubling_cumulative_step(n + 1);
        let new_caps = caps.push(self.spec_new_capacity(caps) as usize);
        assert forall|k: int| 0 <= k < new_caps.len() implies #[trigger] new_caps[k] == pow2(
            (k + 2) as nat,
        ) by {
            if k < n {
                assert(new_caps[k] == caps[k]);
            }
        }
    }

    proof fn lemma_valid_bounds(&self, caps: Seq<usize>) {
        lemma2_to64();
        lemma_doubling_sum_caps(caps);
        lemma_pow2_le(caps.len() + 2, doubling_max_fragments() + 2);
        lemma_doubling_pow2_fits(doubling_max_fragments() + 2);
        lemma_doubling_cumulative_value(caps.len());
        assert(sum_caps(caps) == doubling_cumulative(caps.len()));
        assert(pow2(caps.len() + 2) <= usize::MAX);
    }

    proof fn lemma_caps_positive(&self, caps: Seq<usize>, k: int) {
        lemma_pow2_pos((k + 2) as nat);
        assert(caps[k] == pow2((k + 2) as nat));
    }

    proof fn lemma_valid_remove(&self, caps: Seq<usize>, k: int) {
        lemma2_to64();
        lemma_pow2_le(2, (k + 2) as nat);
        assert(caps[k] == pow2((k + 2) as nat));
    }

    proof fn lemma_locate(&self, caps: Seq<usize>, lens: Seq<nat>, index: nat) {
        lemma2_to64();
        let n = lens.len();
        let total = sum_lens(lens);
        if n == 0 {
            assert(total == 0);
        } else {
            // the elements of all fragments: full ones and the last one
            lemma_doubling_offset(caps, lens, n - 1);
            lemma_sum_lens_take(lens, n - 1);
            assert(lens.take(n as int) =~= lens);
            assert(total == doubling_cumulative((n - 1) as nat) + lens[n - 1]);
            lemma_doubling_cumulative_step((n - 1) as nat);
            assert(caps[n - 1] == pow2((n - 1 + 2) as nat));
            assert(total <= doubling_cumulative(n));
            // the limit of the strategy
            lemma_pow2_le(n + 2, doubling_max_fragments() + 3);
            lemma_doubling_cumulative_value(n);
            lemma_doubling_cumulative_value(doubling_max_fragments() + 1);
            assert(doubling_cumulative(n) <= doubling_locate_limit());
            assert(total <= doubling_locate_limit());
            if index < total {
                lemma_doubling_fragment_below(index, n);
                lemma_doubling_fragment_of(index);
                let f = doubling_fragment_of(index);
                lemma_doubling_offset(caps, lens, f as int);
                lemma_doubling_cumulative_step(f);
                assert(caps[f as int] == pow2((f + 2) as nat));
                if f < n - 1 {
                    assert(lens[f as int] == caps[f as int]);
                }
                lemma_doubling_pow2_fits(f + 2);
                assert(is_location(lens, f as int, index - doubling_cumulative(f), index as int));
            }
        }
    }

    /// Doubles the capacity of the last fragment; the first fragment holds 4 elements.
    /// The strategy grows up to its largest number of fragments.
    fn can_grow_from(&self, fragment_capacities: &[usize]) -> (b: bool) {
        fragment_capacities.len() < doubling_max_fragments_count()
    }

    fn new_fragment_capacity_from(&self, fragment_capacities: &[usize]) -> (c: usize) {
        let n = fragment_capacities.len();
        if n == 0 {
            FIRST_FRAGMENT_CAPACITY
        } else {
            fragment_capacities[n - 1] * 2
        }
    }

    /// ***O(1)*** The location follows from the index; it is `None` for
    /// indices at or beyond `vec_len`.
    fn get_fragment_and_inner_indices<T>(
        &self,
        vec_len: usize,
        fragments: &[Fragment<T>],
        element_index: usize,
    ) -> (r: Option<(usize, usize)>) {
        if element_index < vec_len {
            Some(self.get_fragment_and_inner_indices_unchecked(element_index))
        } else {
            None
        }
    }

    /// The capacity of the first `fragments_capacity` fragments.
    fn maximum_concurrent_capacity<T>(&self, fragments: &[Fragment<T>], fragments_capacity: usize) -> (c: usize) {
        doubling_cumulative_capacity(fragments_capacity)
    }

    /// Returns the number of fragments with this growth strategy in order to be
    /// able to reach a capacity of `maximum_capacity` of elements.
    fn required_fragments_len<T>(&self, fragments: &[Fragment<T>], maximum_capacity: usize) -> (r: Result<usize, String>) {
        let max_f = doubling_max_fragments_count();
        let mut f: usize = 0;
        while f <= max_f
            invariant
                max_f == doubling_max_fragments(),
                f <= max_f + 1,
                doubling_required(maximum_capacity as nat, 0) == doubling_required(
                    maximum_capacity as nat,
                    f as nat,
                ),
            decreases max_f + 1 - f,
        {
            if doubling_cumulative_capacity(f) >= maximum_capacity {
                return Ok(f);
            }
            f += 1;
        }
        let limit = doubling_cumulative_capacity(max_f);
        Err(format_capacity_limit(" by the Doubling strategy", limit))
    }

    /// The capacity of all the fragments a doubling vector can have.
    fn maximum_concurrent_capacity_bound<T>(&self, fragments: &[Fragment<T>], fragments_capacity: usize) -> (c: usize) {
        doubling_cumulative_capacity(doubling_max_fragments_count())
    }
}

impl GrowthWithConstantTimeAccess for Doubling {
    open spec fn spec_location_unchecked(&self, index: nat) -> (usize, usize) {
        doubling_location(index)
    }

    open spec fn can_locate_unchecked(&self, index: nat) -> bool {
        index < doubling_locate_limit()
    }

    open spec fn spec_fragment_capacity_of(&self, fragment_index: nat) -> nat {
        pow2(fragment_index + 2)
    }

    proof fn lemma_valid_caps_are_fragment_capacities(&self, caps: Seq<usize>, k: int) {
    }

    /// ***O(1)*** The fragment index is the position of the highest set bit of
    /// `element_index + 4`, less two.
    fn get_fragment_and_inner_indices_unchecked(&self, element_index: usize) -> (r: (usize, usize)) {
        proof {
            lemma2_to64();
            lemma_doubling_pow2_fits(doubling_max_fragments() + 3);
            lemma_u64_pow2_no_overflow(35);
            lemma_doubling_fragment_of(element_index as nat);
            lemma_doubling_fragment_below(element_index as nat, doubling_max_fragments() + 1);
        }
        assert(element_index < pow2(35)) by {
            lemma_pow2_le(doubling_max_fragments() + 3, 35);
            lemma_doubling_cumulative_value(doubling_max_fragments() + 1);
        }
        assert(element_index as u64 == element_index);
        let x: u64 = element_index as u64 + 4;
        let leading_zeros = x.leading_zeros();
        proof {
            lemma_leading_zeros_log2(x);
        }
        let f = (61 - leading_zeros) as usize;
        let cumulative = doubling_cumulative_capacity(f);
        (f, element_index - cumulative)
    }

    /// ***O(1)*** Fragment `f` holds `2^(f+2)` elements.
    fn fragment_capacity_of(&self, fragment_index: usize) -> (c: usize) {
        proof {
            lemma_doubling_pow2_fits((fragment_index + 2) as nat);
            lemma_usize_shl_is_mul(1, (fragment_index + 2) as usize);
        }
        1usize << (fragment_index + 2)
    }
}

impl ParGrowth for Doubling {
    open spec fn spec_jagged_index(&self, lens: Seq<nat>, flat_index: nat) -> (nat, nat) {
        (doubling_location(flat_index).0 as nat, doubling_location(flat_index).1 as nat)
    }

    open spec fn can_jagged_index(&self, lens: Seq<nat>, flat_index: nat) -> bool {
        flat_index < doubling_locate_limit()
    }

    proof fn lemma_jagged_index(&self, caps: Seq<usize>, lens: Seq<nat>, flat_index: nat) {
        self.lemma_locate(caps, lens, flat_index);
    }

    /// ***O(1)*** The location computed from the index alone.
    fn jagged_index_unchecked<T>(&self, fragments: &[Fragment<T>], flat_index: usize) -> (r: SplitIndex) {
        let (f, i) = self.get_fragment_and_inner_indices_unchecked(flat_index);
        SplitIndex::new(f, i)
    }
}

impl GrowthCapacities for Doubling {
    proof fn lemma_concurrent_capacity_grown(&self, caps: Seq<usize>, fragments_capacity: nat) {
        let m = (fragments_capacity - caps.len()) as nat;
        lemma_doubling_grown(caps, m);
        lemma_doubling_sum_caps(grown_caps(Doubling, caps, m));
    }

    proof fn lemma_concurrent_covers_capacity(&self, caps: Seq<usize>, fragments_capacity: nat) {
        crate::laws::law_doubling_concurrent_covers_capacity(caps, fragments_capacity);
    }

    proof fn lemma_required_fragments_len_fewest(&self, caps: Seq<usize>, maximum_capacity: nat) {
        crate::laws::law_doubling_required_is_smallest(maximum_capacity);
        if let Some(n) = doubling_required(maximum_capacity, 0) {
            let max = doubling_max_fragments();
            lemma_doubling_cumulative_value(max);
            if n > max {
                lemma_doubling_cumulative_value((n - 1) as nat);
                lemma_pow2_le(max + 2, n + 1);
                assert(false);
            }
            lemma_doubling_layout_total(caps, n);
            if n > caps.len() {
                lemma_doubling_layout_total(caps, (n - 1) as nat);
            }
        }
    }
}

} // verus!

//! The linear strategy: every fragment holds the same power of two of elements.
use crate::fragment::{caps_of, lens_of_fragments, Fragment};
use crate::idx::SplitIndex;
use crate::growth::{grown_caps, Growth, GrowthCapacities, GrowthWithConstantTimeAccess, ParGrowth};
use crate::layout::{
    fits, full_prefix, is_location, lemma_sum_caps_take, lemma_sum_lens_take, offset, sum_caps,
    sum_lens,
};
use vstd::arithmetic::div_mod::{lemma_fundamental_div_mod, lemma_fundamental_div_mod_converse};
use vstd::arithmetic::power2::{lemma2_to64, lemma_pow2_pos, pow2};
use vstd::bits::{lemma_usize_pow2_no_overflow, lemma_usize_shl_is_mul, lemma_usize_shr_is_div};
use vstd::prelude::*;

verus! {

/// Fragment capacities of a linear vector are `2^e` for an exponent `e`
/// below this limit.
pub open spec fn linear_exponent_limit() -> nat {
    if usize::BITS == 64 {
        32
    } else {
        29
    }
}

/// The factor by which the fragment capacity is multiplied to bound the
/// capacity a linear vector reaches concurrently.
pub open spec fn linear_concurrent_fragments() -> nat {
    if usize::BITS == 64 {
        pow2(21)
    } else {
        pow2(18)
    }
}

/// The number of elements held by `k` full fragments of capacity `c`.
pub proof fn lemma_linear_sum_caps(caps: Seq<usize>, c: nat)
    requires
        forall|k: int| 0 <= k < caps.len() ==> #[trigger] caps[k] == c,
    ensures
        sum_caps(caps) == caps.len() * c,
    decreases caps.len(),
{
    if caps.len() > 0 {
        lemma_linear_sum_caps(caps.drop_last(), c);
        assert(caps.len() * c == (caps.len() - 1) * c + c) by (nonlinear_arith);
    }
}

/// In a linear vector whose fragments before `k` are full, they hold `k * c` elements.
pub proof fn lemma_linear_offset(caps: Seq<usize>, lens: Seq<nat>, c: nat, k: int)
    requires
        forall|j: int| 0 <= j < caps.len() ==> #[trigger] caps[j] == c,
        fits(caps, lens),
        full_prefix(caps, lens),
        0 <= k < lens.len(),
    ensures
        offset(lens, k) == k * c,
    decreases k,
{
    if k == 0 {
        assert(lens.take(0) =~= Seq::<nat>::empty());
    } else {
        lemma_linear_offset(caps, lens, c, k - 1);
        lemma_sum_lens_take(lens, k - 1);
        assert(lens[k - 1] == caps[k - 1]);
        assert(k * c == (k - 1) * c + c) by (nonlinear_arith);
    }
}

/// Strategy which allows the split vector to grow linearly.
///
/// In other words, each new fragment will have equal capacity, which is equal
/// to the capacity of the first fragment: `2^e` for the exponent `e` the
/// strategy is created with. An element's location follows from its index in
/// constant time.
#[derive(Debug, Clone, Copy, PartialEq, Eq)]
pub struct Linear {
    constant_fragment_capacity_exponent: usize,
    constant_fragment_capacity: usize,
}

impl Linear {
    /// The exponent of the fragment capacity.
    pub closed spec fn exponent(&self) -> nat {
        self.constant_fragment_capacity_exponent as nat
    }

    /// The capacity of every fragment.
    pub closed spec fn spec_fragment_capacity(&self) -> nat {
        self.constant_fragment_capacity as nat
    }

    /// Creates a linear strategy whose fragments hold `2^constant_fragment_capacity_exponent`
    /// elements each.
    pub fn new(constant_fragment_capacity_exponent: usize) -> (g: Self)
        requires
            constant_fragment_capacity_exponent < linear_exponent_limit(),
        ensures
            g.wf_growth(),
            g.exponent() == constant_fragment_capacity_exponent,
            g.spec_fragment_capacity() == pow2(constant_fragment_capacity_exponent as nat),
    {
        let e = constant_fragment_capacity_exponent;
        proof {
            lemma_usize_pow2_no_overflow(e as nat);
            lemma_usize_shl_is_mul(1, e);
        }
        Linear { constant_fragment_capacity_exponent: e, constant_fragment_capacity: 1usize << e }
    }

    /// The capacity of every fragment.
    pub fn constant_fragment_capacity(&self) -> (c: usize)
        ensures
            c == self.spec_fragment_capacity(),
    {
        self.constant_fragment_capacity
    }
}

/// The capacities stay those of the linear layout when the strategy adds
/// fragments.
proof fn lemma_linear_grown(g: Linear, caps: Seq<usize>, m: nat)
    requires
        forall|k: int| 0 <= k < caps.len() ==> #[trigger] caps[k] == g.spec_fragment_capacity(),
    ensures
        grown_caps(g, caps, m).len() == caps.len() + m,
        forall|k: int| 0 <= k < caps.len() + m ==> #[trigger] grown_caps(g, caps, m)[k] == g.spec_fragment_capacity(),
    decreases m,
{
    if m > 0 {
        lemma_linear_grown(g, caps, (m - 1) as nat);
    }
}

/// Fragments all of capacity `c` hold `c` times their number.
proof fn lemma_constant_sum(s: Seq<usize>, c: nat)
    requires
        forall|k: int| 0 <= k < s.len() ==> #[trigger] s[k] == c,
    ensures
        sum_caps(s) == s.len() * c,
    decreases s.len(),
{
    if s.len() > 0 {
        let t = s.drop_last();
        assert forall|k: int| 0 <= k < t.len() implies #[trigger] t[k] == c by {
            assert(t[k] == s[k]);
        }
        lemma_constant_sum(t, c);
        let n = t.len();
        assert(n * c + c == (n + 1) * c) by (nonlinear_arith);
    }
}

/// The total capacity of the first `n` linear fragments.
proof fn lemma_linear_layout_total(g: Linear, caps: Seq<usize>, n: nat)
    requires
        forall|k: int| 0 <= k < caps.len() ==> #[trigger] caps[k] == g.spec_fragment_capacity(),
    ensures
        crate::growth::layout_total(g, caps, n) == n * g.spec_fragment_capacity(),
{
    if n <= caps.len() {
        let t = caps.take(n as int);
        assert forall|k: int| 0 <= k < t.len() implies #[trigger] t[k] == g.spec_fragment_capacity() by {
            assert(t[k] == caps[k]);
        }
        lemma_constant_sum(t, g.spec_fragment_capacity());
    } else {
        let m = (n - caps.len()) as nat;
        lemma_linear_grown(g, caps, m);
        lemma_constant_sum(grown_caps(g, caps, m), g.spec_fragment_capacity());
    }
}

impl Growth for Linear {
    open spec fn wf_growth(&self) -> bool {
        &&& self.exponent() < linear_exponent_limit()
        &&& self.spec_fragment_capacity() == pow2(self.exponent())
    }

    open spec fn spec_new_capacity(&self, caps: Seq<usize>) -> nat {
        self.spec_fragment_capacity()
    }

    open spec fn valid_caps(&self, caps: Seq<usize>) -> bool {
        &&& caps.len() <= (usize::MAX as nat) / self.spec_fragment_capacity()
        &&& forall|k: int| 0 <= k < caps.len() ==> #[trigger] caps[k] == self.spec_fragment_capacity()
    }

    open spec fn can_grow(&self, caps: Seq<usize>) -> bool {
        caps.len() < (usize::MAX as nat) / self.spec_fragment_capacity()
    }

    open spec fn keeps_full_prefix(&self) -> bool {
        true
    }

    open spec fn max_fragments(&self) -> nat {
        (usize::MAX as nat) / self.spec_fragment_capacity()
    }

    open spec fn spec_locate(&self, vec_len: nat, lens: Seq<nat>, index: nat) -> Option<(usize, usize)> {
        if index < vec_len {
            Some(
                (
                    (index / self.spec_fragment_capacity()) as usize,
                    (index % self.spec_fragment_capacity()) as usize,
                ),
            )
        } else {
            None
        }
    }

    open spec fn can_locate(&self, vec_len: nat, index: nat) -> bool {
        true
    }

    open spec fn spec_maximum_concurrent_capacity(&self, caps: Seq<usize>, fragments_capacity: nat) -> nat {
        fragments_capacity * self.spec_fragment_capacity()
    }

    open spec fn maximum_concurrent_capacity_defined(&self, caps: Seq<usize>, fragments_capacity: nat) -> bool {
        fragments_capacity * self.spec_fragment_capacity() <= usize::MAX
    }

    open spec fn spec_required_fragments_len(&self, caps: Seq<usize>, maximum_capacity: nat) -> Option<nat> {
        let c = self.spec_fragment_capacity();
        Some(
            maximum_capacity / c + if maximum_capacity % c > 0 {
                1nat
            } else {
                0nat
            },
        )
    }

    open spec fn spec_required_fragments_error(&self, caps: Seq<usize>) -> Seq<char> {
        Seq::empty()
    }

    open spec fn spec_maximum_concurrent_capacity_bound(&self) -> nat {
        let bound = self.spec_fragment_capacity() * linear_concurrent_fragments();
        if bound <= usize::MAX {
            bound
        } else {
            usize::MAX as nat
        }
    }

    proof fn lemma_valid_empty(&self) {
        lemma_pow2_pos(self.exponent());
    }

    proof fn lemma_valid_prefix(&self, caps: Seq<usize>, k: int) {
        assert forall|j: int| 0 <= j < caps.take(k).len() implies #[trigger] caps.take(k)[j]
            == self.spec_fragment_capacity() by {
            assert(caps.take(k)[j] == caps[j]);
        }
    }

    proof fn lemma_grow(&self, caps: Seq<usize>) {
        let c = self.spec_fragment_capacity();
        let n = caps.len();
        lemma_pow2_pos(self.exponent());
        lemma_linear_sum_caps(caps, c);
        let m = (usize::MAX as nat) / c;
        lemma_fundamental_div_mod(usize::MAX as int, c as int);
        assert((n + 1) * c <= m * c) by (nonlinear_arith)
            requires
                n + 1 <= m,
        ;
        assert(n * c + c == (n + 1) * c) by (nonlinear_arith);
        let new_caps = caps.push(c as usize);
        assert forall|k: int| 0 <= k < new_caps.len() implies #[trigger] new_caps[k] == c by {
            if k < n {
                assert(new_caps[k] == caps[k]);
            }
        }
    }

    proof fn lemma_valid_bounds(&self, caps: Seq<usize>) {
        let c = self.spec_fragment_capacity();
        let n = caps.len();
        lemma_pow2_pos(self.exponent());
        lemma_linear_sum_caps(caps, c);
        let m = (usize::MAX as nat) / c;
        lemma_fundamental_div_mod(usize::MAX as int, c as int);
        assert(n * c <= m * c) by (nonlinear_arith)
            requires
                n <= m,
        ;
        assert(m <= usize::MAX) by (nonlinear_arith)
            requires
                c >= 1,
                m == (usize::MAX as nat) / c,
        ;
    }

    proof fn lemma_caps_positive(&self, caps: Seq<usize>, k: int) {
        lemma_pow2_pos(self.exponent());
    }

    proof fn lemma_valid_remove(&self, caps: Seq<usize>, k: int) {
        let r = caps.remove(k);
        assert forall|j: int| 0 <= j < r.len() implies #[trigger] r[j] == self.spec_fragment_capacity() by {
            if j < k {
                assert(r[j] == caps[j]);
            } else {
                assert(r[j] == caps[j + 1]);
            }
        }
    }

    proof fn lemma_locate(&self, caps: Seq<usize>, lens: Seq<nat>, index: nat) {
        let c = self.spec_fragment_capacity();
        let n = lens.len() as int;
        let total = sum_lens(lens);
        lemma_pow2_pos(self.exponent());
        if n > 0 && index < total {
            lemma_linear_offset(caps, lens, c, n - 1);
            lemma_sum_lens_take(lens, n - 1);
            assert(lens.take(n) =~= lens);
            assert(total == (n - 1) * c + lens[n - 1]);
            assert(lens[n - 1] <= caps[n - 1]);
            let f = index / c;
            let i = index % c;
            lemma_fundamental_div_mod(index as int, c as int);
            assert(index == c * f + i);
            if f > n - 1 {
                assert(c * f >= c * n) by (nonlinear_arith)
                    requires
                        f >= n,
                        c >= 1,
                ;
                assert(c * n == (n - 1) * c + c) by (nonlinear_arith);
                assert(false);
            }
            lemma_linear_offset(caps, lens, c, f as int);
            assert(offset(lens, f as int) == f * c);
            assert(c * f == f * c) by (nonlinear_arith);
            if f < n - 1 {
                assert(lens[f as int] == caps[f as int]);
            }
            assert(is_location(lens, f as int, i as int, index as int));
        }
        if n == 0 {
            assert(total == 0);
        }
    }

    /// Every fragment holds `2^e` elements.
    /// The strategy grows as long as the total capacity fits in `usize`.
    fn can_grow_from(&self, fragment_capacities: &[usize]) -> (b: bool) {
        proof {
            lemma_pow2_pos(self.exponent());
        }
        fragment_capacities.len() < usize::MAX / self.constant_fragment_capacity
    }

    fn new_fragment_capacity_from(&self, fragment_capacities: &[usize]) -> (c: usize) {
        self.constant_fragment_capacity
    }

    /// ***O(1)*** The fragment index is the element index shifted right by the
    /// exponent, and the index within the fragment its remainder.
    fn get_fragment_and_inner_indices<T>(
        &self,
        vec_len: usize,
        fragments: &[Fragment<T>],
        element_index: usize,
    ) -> (r: Option<(usize, usize)>) {
        if element_index < vec_len {
            Some(self.get_fragment_and_inner_indices_unchecked(element_index))
        } else {
            None
        }
    }

    /// The fragments collection holds `fragments_capacity` fragments of `2^e` elements.
    fn maximum_concurrent_capacity<T>(&self, fragments: &[Fragment<T>], fragments_capacity: usize) -> (c: usize) {
        fragments_capacity * self.constant_fragment_capacity
    }

    /// The number of fragments of `2^e` elements that hold `maximum_capacity`
    /// elements, rounding up.
    fn required_fragments_len<T>(&self, fragments: &[Fragment<T>], maximum_capacity: usize) -> (r: Result<usize, String>) {
        proof {
            lemma_pow2_pos(self.exponent());
        }
        let c = self.constant_fragment_capacity;
        let num_full_fragments = maximum_capacity / c;
        let remainder = maximum_capacity % c;
        let additional_fragment: usize = if remainder > 0 {
            1
        } else {
            0
        };
        proof {
            lemma_fundamental_div_mod(maximum_capacity as int, c as int);
            if c == 1 {
                assert(remainder == 0);
            } else {
                assert(num_full_fragments * c <= maximum_capacity) by (nonlinear_arith)
                    requires
                        num_full_fragments == maximum_capacity / c,
                        c >= 2,
                ;
                assert(num_full_fragments < usize::MAX) by (nonlinear_arith)
                    requires
                        num_full_fragments * c <= usize::MAX,
                        c >= 2,
                ;
            }
        }
        Ok(num_full_fragments + additional_fragment)
    }

    /// The capacity of `2^21` fragments on 64-bit targets, `2^18` on 32-bit
    /// ones, saturating at `usize::MAX`.
    fn maximum_concurrent_capacity_bound<T>(&self, fragments: &[Fragment<T>], fragments_capacity: usize) -> (c: usize) {
        proof {
            lemma2_to64();
        }
        let factor: usize = if usize::BITS == 64 {
            1 << 21
        } else {
            1 << 18
        };
        proof {
            assert(factor == linear_concurrent_fragments()) by {
                lemma2_to64();
                assert(1usize << 21 == 2097152usize) by (bit_vector);
                assert(1usize << 18 == 262144usize) by (bit_vector);
            }
        }
        match self.constant_fragment_capacity.checked_mul(factor) {
            Some(bound) => bound,
            None => usize::MAX,
        }
    }
}

impl GrowthWithConstantTimeAccess for Linear {
    open spec fn spec_location_unchecked(&self, index: nat) -> (usize, usize) {
        (
            (index / self.spec_fragment_capacity()) as usize,
            (index % self.spec_fragment_capacity()) as usize,
        )
    }

    open spec fn can_locate_unchecked(&self, index: nat) -> bool {
        true
    }

    open spec fn spec_fragment_capacity_of(&self, fragment_index: nat) -> nat {
        self.spec_fragment_capacity()
    }

    proof fn lemma_valid_caps_are_fragment_capacities(&self, caps: Seq<usize>, k: int) {
    }

    /// ***O(1)*** The fragment index is the element index shifted right by the
    /// exponent, and the index within the fragment its remainder.
    fn get_fragment_and_inner_indices_unchecked(&self, element_index: usize) -> (r: (usize, usize)) {
        proof {
            lemma_pow2_pos(self.exponent());
            lemma_usize_shr_is_div(element_index, self.constant_fragment_capacity_exponent);
        }
        let f = element_index >> self.constant_fragment_capacity_exponent;
        let i = element_index % self.constant_fragment_capacity;
        (f, i)
    }

    /// ***O(1)*** Every fragment holds `2^e` elements.
    fn fragment_capacity_of(&self, fragment_index: usize) -> (c: usize) {
        self.constant_fragment_capacity
    }
}

impl ParGrowth for Linear {
    open spec fn spec_jagged_index(&self, lens: Seq<nat>, flat_index: nat) -> (nat, nat) {
        (
            ((flat_index / self.spec_fragment_capacity()) as usize) as nat,
            ((flat_index % self.spec_fragment_capacity()) as usize) as nat,
        )
    }

    open spec fn can_jagged_index(&self, lens: Seq<nat>, flat_index: nat) -> bool {
        true
    }

    proof fn lemma_jagged_index(&self, caps: Seq<usize>, lens: Seq<nat>, flat_index: nat) {
        self.lemma_locate(caps, lens, flat_index);
    }

    /// ***O(1)*** The location computed from the index alone.
    fn jagged_index_unchecked<T>(&self, fragments: &[Fragment<T>], flat_index: usize) -> (r: SplitIndex) {
        let (f, i) = self.get_fragment_and_inner_indices_unchecked(flat_index);
        SplitIndex::new(f, i)
    }
}

impl GrowthCapacities for Linear {
    proof fn lemma_concurrent_capacity_grown(&self, caps: Seq<usize>, fragments_capacity: nat) {
        let m = (fragments_capacity - caps.len()) as nat;
        lemma_linear_grown(*self, caps, m);
        lemma_constant_sum(grown_caps(*self, caps, m), self.spec_fragment_capacity());
    }

    proof fn lemma_concurrent_covers_capacity(&self, caps: Seq<usize>, fragments_capacity: nat) {
        crate::laws::law_linear_concurrent_covers_capacity(*self, caps, fragments_capacity);
    }

    proof fn lemma_required_fragments_len_fewest(&self, caps: Seq<usize>, maximum_capacity: nat) {
        let c = self.spec_fragment_capacity();
        lemma_pow2_pos(self.exponent());
        let q = maximum_capacity / c;
        let r = maximum_capacity % c;
        lemma_fundamental_div_mod(maximum_capacity as int, c as int);
        let n: nat = q + if r > 0 {
            1nat
        } else {
            0nat
        };
        lemma_linear_layout_total(*self, caps, n);
        assert(n * c >= maximum_capacity) by (nonlinear_arith)
            requires
                maximum_capacity == c * q + r,
                r < c,
                n == q + if r > 0 {
                    1nat
                } else {
                    0nat
                },
        ;
        if n > caps.len() {
            lemma_linear_layout_total(*self, caps, (n - 1) as nat);
            assert((n - 1) * c < maximum_capacity) by (nonlinear_arith)
                requires
                    maximum_capacity == c * q + r,
                    r < c,
                    n >= 1,
                    c > 0,
                    n == q + if r > 0 {
                        1nat
                    } else {
                        0nat
                    },
            ;
        }
    }
}

} // verus!

//! Properties that relate several operations of a split vector, stated over
//! the sequences and specifications the operations' contracts use.
use crate::growth::doubling::{doubling_cumulative, doubling_max_fragments, doubling_required, Doubling};
use crate::growth::linear::Linear;
use crate::growth::recursive::{recursive_grown_total, recursive_last, recursive_required, Recursive};
use crate::growth::{caps_as_lens, grown_caps, scan_location, Growth, GrowthCapacities};
use crate::resize_multiple::truncated_fragments;
use crate::split_vec::{grown_fragments_capacity, SplitVec};
use crate::layout::{
    fits, fragments_after_pop, full_prefix, is_location, lemma_sum_lens_take, lemma_location_bound, lemma_location_exists, lemma_location_of,
    lemma_location_unique, sum_caps, sum_lens,
};
use vstd::arithmetic::power2::{lemma2_to64, lemma_pow2_unfold, pow2};
use vstd::prelude::*;

verus! {

/// Popping right after pushing `x` gives `x` back and the elements that were
/// there before: `push` appends `x` to the view of `v`, and `pop` on a
/// nonempty vector returns the last element and drops it from the view.
pub proof fn law_push_then_pop<T, G: Growth>(v: SplitVec<T, G>, x: T)
    requires
        v.wf(),
    ensures
        v@.push(x).len() > 0,
        v@.push(x).last() == x,
        v@.push(x).drop_last() == v@,
{
    assert(v@.push(x).drop_last() =~= v@);
}

/// Removing at the position just inserted at gives the inserted element back
/// and the elements that were there before (`insert` inserts into the view of
/// `v`, `remove` returns the element at the index and removes it).
pub proof fn law_insert_then_remove<T, G: Growth>(v: SplitVec<T, G>, i: int, x: T)
    requires
        v.wf(),
        0 <= i <= v@.len(),
    ensures
        v@.insert(i, x)[i] == x,
        v@.insert(i, x).remove(i) == v@,
{
    assert(v@.insert(i, x).remove(i) =~= v@);
}

/// Inserting the removed element back at its position restores the elements.
pub proof fn law_remove_then_insert<T, G: Growth>(v: SplitVec<T, G>, i: int)
    requires
        v.wf(),
        0 <= i < v@.len(),
    ensures
        v@.remove(i).insert(i, v@[i]) == v@,
{
    assert(v@.remove(i).insert(i, v@[i]) =~= v@);
}

/// Swapping the same two positions twice restores the elements.
pub proof fn law_swap_twice<T, G: Growth>(v: SplitVec<T, G>, a: int, b: int)
    requires
        v.wf(),
        0 <= a < v@.len(),
        0 <= b < v@.len(),
    ensures
        ({
            let t = v@.update(a, v@[b]).update(b, v@[a]);
            t.update(a, t[b]).update(b, t[a]) == v@
        }),
{
    let s = v@;
    let t = s.update(a, s[b]).update(b, s[a]);
    assert(t.update(a, t[b]).update(b, t[a]) =~= s);
}

/// Truncating to a length at or beyond the current one keeps every element;
/// truncating twice keeps the shorter prefix.
pub proof fn law_truncate_twice<T, G: Growth>(v: SplitVec<T, G>, m: int, n: int)
    requires
        v.wf(),
        0 <= n <= m <= v@.len(),
    ensures
        v@.take(m).take(n) == v@.take(n),
{
    assert(v@.take(m).take(n) =~= v@.take(n));
}

/// When every fragment but the last is full, the position of an element found
/// by walking the fragments' capacities is the element's location: the
/// position the capacity walk reports for an index of the vector is where that
/// element is stored.
pub proof fn law_capacity_location_is_element_location(caps: Seq<usize>, lens: Seq<nat>, index: nat)
    requires
        fits(caps, lens),
        full_prefix(caps, lens),
        index < sum_lens(lens),
    ensures
        scan_location(caps_as_lens(caps), index) == scan_location(lens, index),
{
    let cl = caps_as_lens(caps);
    lemma_location_exists(lens, index as int);
    let (f, i) = choose|f: int, i: int| is_location(lens, f, i, index as int);
    assert(cl.take(f) =~= lens.take(f));
    assert(is_location(cl, f, i, index as int));
    lemma_location_bound(cl, f, i, index as int);
    let (f2, i2) = choose|f2: int, i2: int| is_location(cl, f2, i2, index as int);
    lemma_location_unique(cl, f, i, f2, i2, index as int);
}

/// The recursive strategy grows exactly as the doubling one: from any
/// fragment capacities, the fragments the two strategies add have the same
/// capacities. They differ only in that a recursive vector also takes whole
/// fragments by `append`.
pub proof fn law_recursive_grows_like_doubling(caps: Seq<usize>, k: nat)
    ensures
        grown_caps(Recursive, caps, k) == grown_caps(Doubling, caps, k),
    decreases k,
{
    if k > 0 {
        law_recursive_grows_like_doubling(caps, (k - 1) as nat);
    }
}

/// Adding fragments never lowers the total capacity.
proof fn lemma_grown_sum_mono<G: Growth>(growth: G, caps: Seq<usize>, a: nat, b: nat)
    requires
        a <= b,
    ensures
        sum_caps(grown_caps(growth, caps, a)) <= sum_caps(grown_caps(growth, caps, b)),
    decreases b,
{
    if a < b {
        lemma_grown_sum_mono(growth, caps, a, (b - 1) as nat);
        let g = grown_caps(growth, caps, (b - 1) as nat);
        assert(grown_caps(growth, caps, b).drop_last() =~= g);
    }
}

/// With any strategy, the capacity a vector reaches concurrently covers its
/// current capacity.
pub proof fn law_concurrent_covers_capacity<G: GrowthCapacities>(
    growth: G,
    caps: Seq<usize>,
    fragments_capacity: nat,
)
    requires
        growth.wf_growth(),
        growth.valid_caps(caps),
        caps.len() <= fragments_capacity,
        growth.maximum_concurrent_capacity_defined(caps, fragments_capacity),
    ensures
        growth.spec_maximum_concurrent_capacity(caps, fragments_capacity) >= sum_caps(caps),
{
    growth.lemma_concurrent_covers_capacity(caps, fragments_capacity);
}

/// The maximum concurrent capacity of a vector, what
/// `SplitVec::maximum_concurrent_capacity` returns, is at least its capacity.
pub proof fn law_vector_concurrent_covers_capacity<T, G: GrowthCapacities>(v: SplitVec<T, G>)
    requires
        v.wf(),
        v.spec_growth().maximum_concurrent_capacity_defined(v.caps(), v.spec_fragments_capacity()),
    ensures
        v.spec_growth().spec_maximum_concurrent_capacity(v.caps(), v.spec_fragments_capacity())
            >= v.spec_capacity(),
{
    v.spec_growth().lemma_concurrent_covers_capacity(v.caps(), v.spec_fragments_capacity());
}

/// After `concurrent_reserve(maximum_capacity)` succeeds, the fragments
/// collection holds the larger of the required number of fragments and its
/// former room; the maximum concurrent capacity then reaches
/// `maximum_capacity`, and it is at least what it was before.
pub proof fn law_concurrent_reserve_reaches<G: GrowthCapacities>(
    growth: G,
    caps: Seq<usize>,
    fragments_capacity: nat,
    maximum_capacity: nat,
)
    requires
        growth.wf_growth(),
        growth.valid_caps(caps),
        caps.len() <= fragments_capacity,
        growth.maximum_concurrent_capacity_defined(caps, fragments_capacity),
        fragments_capacity == caps.len() || growth.can_grow(caps),
        growth.spec_required_fragments_len(caps, maximum_capacity) matches Some(n) && {
            let reserved = if n > fragments_capacity {
                n
            } else {
                fragments_capacity
            };
            &&& growth.maximum_concurrent_capacity_defined(caps, reserved)
            &&& reserved == caps.len() || growth.can_grow(caps)
        },
    ensures
        ({
            let n = growth.spec_required_fragments_len(caps, maximum_capacity)->0;
            let reserved = if n > fragments_capacity {
                n
            } else {
                fragments_capacity
            };
            &&& growth.spec_maximum_concurrent_capacity(caps, reserved) >= maximum_capacity
            &&& growth.spec_maximum_concurrent_capacity(caps, reserved) >= growth.spec_maximum_concurrent_capacity(
                caps,
                fragments_capacity,
            )
        }),
{
    let n = growth.spec_required_fragments_len(caps, maximum_capacity)->0;
    let reserved = if n > fragments_capacity {
        n
    } else {
        fragments_capacity
    };
    growth.lemma_concurrent_capacity_grown(caps, fragments_capacity);
    growth.lemma_concurrent_capacity_grown(caps, reserved);
    growth.lemma_required_fragments_len_fewest(caps, maximum_capacity);
    let len = caps.len();
    lemma_grown_sum_mono(growth, caps, (fragments_capacity - len) as nat, (reserved - len) as nat);
    if n <= len {
        crate::layout::lemma_sum_caps_take_mono(caps, n as int, len as int);
        crate::layout::lemma_sum_caps_take_all(caps);
        assert(grown_caps(growth, caps, 0) == caps);
        lemma_grown_sum_mono(growth, caps, 0, (reserved - len) as nat);
    } else {
        lemma_grown_sum_mono(growth, caps, (n - len) as nat, (reserved - len) as nat);
    }
}

/// On the layout a strategy maintains, the location it computes for an index
/// is the one found by walking the fragments.
pub proof fn law_locate_is_scan<G: Growth>(growth: G, caps: Seq<usize>, lens: Seq<nat>, index: nat)
    requires
        growth.wf_growth(),
        growth.valid_caps(caps),
        fits(caps, lens),
        growth.keeps_full_prefix() ==> full_prefix(caps, lens),
    ensures
        growth.spec_locate(sum_lens(lens), lens, index) == scan_location(lens, index),
{
    growth.lemma_locate(caps, lens, index);
    if index < sum_lens(lens) {
        let (f, i) = growth.spec_locate(sum_lens(lens), lens, index)->0;
        lemma_location_of(lens, f as int, i as int, index as int);
    }
}

/// The number of doubling fragments required for a capacity is the smallest
/// number whose fragments hold it, and there is none beyond the strategy's
/// largest capacity.
pub proof fn law_doubling_required_is_smallest(maximum_capacity: nat)
    ensures
        doubling_required(maximum_capacity, 0) is None <==> maximum_capacity > doubling_cumulative(
            doubling_max_fragments(),
        ),
        doubling_required(maximum_capacity, 0) matches Some(f) ==> doubling_cumulative(f) >= maximum_capacity
            && (f == 0 || doubling_cumulative((f - 1) as nat) < maximum_capacity),
{
    lemma_doubling_required_from(maximum_capacity, 0);
}

/// From fragment `f` on, the search finds the first sufficient number of
/// fragments, if any below the limit.
proof fn lemma_doubling_required_from(m: nat, f: nat)
    requires
        f <= doubling_max_fragments() + 1,
        f > 0 ==> doubling_cumulative((f - 1) as nat) < m,
    ensures
        doubling_required(m, f) is None <==> (f > doubling_max_fragments() || m > doubling_cumulative(
            doubling_max_fragments(),
        )),
        doubling_required(m, f) matches Some(g) ==> doubling_cumulative(g) >= m && (g == 0
            || doubling_cumulative((g - 1) as nat) < m),
    decreases doubling_max_fragments() + 1 - f,
{
    if f <= doubling_max_fragments() && doubling_cumulative(f) < m {
        lemma_doubling_required_from(m, f + 1);
    }
    if f <= doubling_max_fragments() && doubling_cumulative(f) >= m {
        crate::growth::doubling::lemma_doubling_cumulative_value(f);
        crate::growth::doubling::lemma_doubling_cumulative_value(doubling_max_fragments());
        crate::bits::lemma_pow2_le(f + 2, doubling_max_fragments() + 2);
    }
    if f == doubling_max_fragments() + 1 {
        assert(doubling_cumulative(doubling_max_fragments()) < m);
    }
}

/// The capacity a doubling vector reaches concurrently covers its current
/// capacity.
pub proof fn law_doubling_concurrent_covers_capacity(caps: Seq<usize>, fragments_capacity: nat)
    requires
        Doubling.valid_caps(caps),
        caps.len() <= fragments_capacity,
    ensures
        Doubling.spec_maximum_concurrent_capacity(caps, fragments_capacity) >= sum_caps(caps),
{
    crate::growth::doubling::lemma_doubling_sum_caps(caps);
    crate::growth::doubling::lemma_doubling_cumulative_value(caps.len());
    crate::growth::doubling::lemma_doubling_cumulative_value(fragments_capacity);
    crate::bits::lemma_pow2_le(caps.len() + 2, fragments_capacity + 2);
}

/// The capacity a linear vector reaches concurrently covers its current
/// capacity.
pub proof fn law_linear_concurrent_covers_capacity(growth: Linear, caps: Seq<usize>, fragments_capacity: nat)
    requires
        growth.wf_growth(),
        growth.valid_caps(caps),
        caps.len() <= fragments_capacity,
    ensures
        growth.spec_maximum_concurrent_capacity(caps, fragments_capacity) >= sum_caps(caps),
{
    let c = growth.spec_fragment_capacity();
    crate::growth::linear::lemma_linear_sum_caps(caps, c);
    assert(caps.len() * c <= fragments_capacity * c) by (nonlinear_arith)
        requires
            caps.len() <= fragments_capacity,
    ;
}

/// The capacity a recursive vector reaches concurrently covers its current
/// capacity.
pub proof fn law_recursive_concurrent_covers_capacity(caps: Seq<usize>, fragments_capacity: nat)
    requires
        caps.len() <= fragments_capacity,
    ensures
        Recursive.spec_maximum_concurrent_capacity(caps, fragments_capacity) >= sum_caps(caps),
{
    lemma_grown_total_covers(sum_caps(caps), recursive_last(caps), (fragments_capacity - caps.len()) as nat);
}

/// Adding fragments never lowers the capacity.
proof fn lemma_grown_total_covers(total: nat, last: nat, m: nat)
    ensures
        recursive_grown_total(total, last, m) >= total,
    decreases m,
{
    if m > 0 {
        lemma_grown_total_covers(total + 2 * last, 2 * last, (m - 1) as nat);
    }
}


/// The recursive strategy finds a number of fragments for `maximum_capacity`
/// whenever the fragments it would add reach `maximum_capacity` with every
/// total on the way within `usize`, however many fragments there already are.
/// From fragments of total capacity `t` whose last one holds `c` elements, `k`
/// more fragments, each doubling the one before it, bring the total to
/// `t + c * (2^(k+1) - 2)`; the number found is at most `k` beyond the
/// fragments there are.
pub proof fn law_recursive_required_succeeds(caps: Seq<usize>, maximum_capacity: nat, k: nat)
    requires
        Recursive.valid_caps(caps),
        caps.len() > 0,
        sum_caps(caps) + caps.last() * (pow2(k + 1) - 2) <= usize::MAX,
        sum_caps(caps) + caps.last() * (pow2(k + 1) - 2) >= maximum_capacity,
    ensures
        Recursive.spec_required_fragments_len(caps, maximum_capacity) matches Some(n) && caps.len() <= n
            <= caps.len() + k,
{
    assert(caps[caps.len() - 1] > 0);
    lemma_recursive_required_within(sum_caps(caps), caps.last() as nat, caps.len(), maximum_capacity, k);
}

/// Doubling from `last` while the totals stay within `usize` reaches
/// `maximum_capacity` within `k` steps when `k` doublings would.
proof fn lemma_recursive_required_within(total: nat, last: nat, f: nat, maximum_capacity: nat, k: nat)
    requires
        last > 0,
        total + last * (pow2(k + 1) - 2) <= usize::MAX,
        total + last * (pow2(k + 1) - 2) >= maximum_capacity,
    ensures
        recursive_required(total, last, f, maximum_capacity) matches Some(n) && f <= n <= f + k,
    decreases k,
{
    lemma2_to64();
    if total < maximum_capacity {
        lemma_pow2_unfold(k + 1);
        if k == 0 {
            assert(pow2(1) == 2);
            assert(last * (pow2(k + 1) - 2) == 0) by (nonlinear_arith)
                requires
                    pow2(k + 1) == 2,
            ;
        } else {
            lemma_pow2_unfold(k);
            let p = pow2(k) as int;
            assert(p >= 2) by {
                vstd::arithmetic::power2::lemma_pow2_pos((k - 1) as nat);
            }
            assert(last * (pow2(k + 1) - 2) == 2 * last + (2 * last) * (p - 2)) by (nonlinear_arith)
                requires
                    pow2(k + 1) == 2 * p,
            ;
            assert((2 * last) * (p - 2) >= 0) by (nonlinear_arith)
                requires
                    p >= 2,
            ;
            assert(pow2(((k - 1) + 1) as nat) == p);
            lemma_recursive_required_within(total + 2 * last, 2 * last, f + 1, maximum_capacity, (k - 1) as nat);
        }
    }
}

/// Room in the fragments collection: while it has room for another fragment
/// it stays as it is; when a fragment is added to a full collection, its room
/// doubles, and is at least four.
pub proof fn law_fragments_collection_doubles(fragments_capacity: nat, num_fragments: nat)
    requires
        num_fragments <= fragments_capacity,
        2 * fragments_capacity <= usize::MAX,
    ensures
        num_fragments < fragments_capacity ==> grown_fragments_capacity(fragments_capacity, num_fragments)
            == fragments_capacity,
        num_fragments == fragments_capacity ==> {
            let grown = grown_fragments_capacity(fragments_capacity, num_fragments);
            &&& grown >= 4
            &&& grown >= 2 * fragments_capacity
            &&& (grown == 4 || grown == 2 * fragments_capacity)
        },
{
}


/// Popping the only element of the last fragment drops that fragment, unless
/// it is the only one; popping from a last fragment that holds more keeps
/// every fragment. (`pop` keeps the first `fragments_after_pop` fragments.)
pub proof fn law_pop_drops_emptied_fragment(lens: Seq<nat>)
    requires
        lens.len() > 0,
        lens.last() > 0,
    ensures
        lens.last() == 1 && lens.len() > 1 ==> fragments_after_pop(lens) == lens.len() - 1,
        lens.last() > 1 || lens.len() == 1 ==> fragments_after_pop(lens) == lens.len(),
{
    crate::layout::lemma_last_nonempty(lens);
}

/// Truncating below the length keeps exactly the fragments before the one
/// holding the first dropped element, and that one too when it keeps some of
/// its elements: either the kept fragments hold exactly `len` elements and the
/// next fragment holds the first dropped element, or the last kept fragment
/// holds both the last kept and the first dropped element. (`truncate` keeps
/// the first `truncated_fragments` fragments.)
pub proof fn law_truncate_keeps_fragments_up_to_len(lens: Seq<nat>, len: nat)
    requires
        len < sum_lens(lens),
    ensures
        ({
            let t = truncated_fragments(lens, len);
            ||| (0 <= t < lens.len() && sum_lens(lens.take(t)) == len && lens[t] > 0)
            ||| (0 < t <= lens.len() && sum_lens(lens.take(t - 1)) < len < sum_lens(lens.take(t)))
        }),
{
    lemma_location_exists(lens, len as int);
    let (f, i) = choose|f: int, i: int| is_location(lens, f, i, len as int);
    lemma_sum_lens_take(lens, f);
}

} // verus!

//! The mathematical model of a split vector's storage: a sequence of
//! fragments, each a sequence of elements, whose concatenation is the vector.
use vstd::prelude::*;
use vstd::seq_lib::lemma_flatten_concat;

verus! {

/// Sum of a sequence of lengths.
pub open spec fn sum_lens(s: Seq<nat>) -> nat
    decreases s.len(),
{
    if s.len() == 0 {
        0
    } else {
        sum_lens(s.drop_last()) + s.last()
    }
}

/// Sum of a sequence of capacities.
pub open spec fn sum_caps(s: Seq<usize>) -> nat
    decreases s.len(),
{
    if s.len() == 0 {
        0
    } else {
        sum_caps(s.drop_last()) + s.last() as nat
    }
}

/// Lengths of the given sequences.
pub open spec fn lens_of<T>(views: Seq<Seq<T>>) -> Seq<nat> {
    Seq::new(views.len(), |k: int| views[k].len())
}

/// Number of elements held by the fragments before fragment `f`.
pub open spec fn offset(lens: Seq<nat>, f: int) -> nat {
    sum_lens(lens.take(f))
}

/// The element with flat index `g` is the `i`-th element of fragment `f`.
pub open spec fn is_location(lens: Seq<nat>, f: int, i: int, g: int) -> bool {
    &&& 0 <= f < lens.len()
    &&& 0 <= i < lens[f]
    &&& offset(lens, f) + i == g
}

/// Each fragment holds at most its capacity.
pub open spec fn fits(caps: Seq<usize>, lens: Seq<nat>) -> bool {
    &&& caps.len() == lens.len()
    &&& forall|k: int| 0 <= k < lens.len() ==> #[trigger] lens[k] <= caps[k]
}

/// Every fragment but the last is full.
pub open spec fn full_prefix(caps: Seq<usize>, lens: Seq<nat>) -> bool {
    forall|k: int| 0 <= k < lens.len() - 1 ==> #[trigger] lens[k] == caps[k]
}

/// Index of the last positive length, or -1 when every length is zero.
pub open spec fn last_nonempty(lens: Seq<nat>) -> int
    decreases lens.len(),
{
    if lens.len() == 0 {
        -1
    } else if lens.last() > 0 {
        lens.len() - 1
    } else {
        last_nonempty(lens.drop_last())
    }
}

/// The last positive length: every length after it is zero, and there is
/// one as soon as the sum is positive.
pub proof fn lemma_last_nonempty(lens: Seq<nat>)
    ensures
        -1 <= last_nonempty(lens) < lens.len(),
        last_nonempty(lens) >= 0 ==> lens[last_nonempty(lens)] > 0,
        forall|k: int| last_nonempty(lens) < k < lens.len() ==> #[trigger] lens[k] == 0,
        sum_lens(lens) > 0 ==> last_nonempty(lens) >= 0,
    decreases lens.len(),
{
    if lens.len() > 0 && lens.last() == 0 {
        let init = lens.drop_last();
        lemma_last_nonempty(init);
        assert forall|k: int| last_nonempty(lens) < k < lens.len() implies #[trigger] lens[k] == 0 by {
            if k < lens.len() - 1 {
                assert(lens[k] == init[k]);
            }
        }
    }
}

/// Dropping trailing zero lengths keeps the last positive one.
pub proof fn lemma_last_nonempty_take(lens: Seq<nat>, k: int)
    requires
        last_nonempty(lens) < k <= lens.len(),
    ensures
        last_nonempty(lens.take(k)) == last_nonempty(lens),
    decreases lens.len(),
{
    if k < lens.len() {
        lemma_last_nonempty(lens);
        assert(lens.last() == 0);
        assert(lens.drop_last().take(k) =~= lens.take(k));
        lemma_last_nonempty_take(lens.drop_last(), k);
    } else {
        assert(lens.take(k) =~= lens);
    }
}

/// The number of fragments left after the last element is popped: the
/// fragments up to the last nonempty one, less that one when it was the last
/// fragment, held only the popped element and is not the first fragment.
pub open spec fn fragments_after_pop(lens: Seq<nat>) -> int {
    let m = last_nonempty(lens) + 1;
    if m == lens.len() && lens[m - 1] == 1 && m > 1 {
        m - 1
    } else {
        m
    }
}

/// The elements of the fragments with `p` carried between the first `k`
/// fragments and the rest: the state of a shift in the middle of a cascade.
pub open spec fn with_carry<T>(views: Seq<Seq<T>>, k: int, p: T) -> Seq<T> {
    views.take(k).flatten() + seq![p] + views.skip(k).flatten()
}

/// Inserting into one fragment inserts into the flattened sequence at the
/// element's flat index.
pub proof fn lemma_insert_in_fragment<T>(views: Seq<Seq<T>>, f: int, i: int, v: T)
    requires
        0 <= f < views.len(),
        0 <= i <= views[f].len(),
    ensures
        views.update(f, views[f].insert(i, v)).flatten() == views.flatten().insert(
            offset(lens_of(views), f) + i,
            v,
        ),
{
    let c = views[f];
    lemma_flatten_update(views, f, c.insert(i, v));
    lemma_offset_is_prefix_len(views, f);
    let a = views.take(f).flatten();
    let b = views.skip(f + 1).flatten();
    assert(a + c.insert(i, v) + b =~= (a + c + b).insert(a.len() + i, v));
}

/// Taking the last element of a full fragment after inserting into it starts
/// a cascade that carries that element to the following fragments.
pub proof fn lemma_carry_start<T>(views: Seq<Seq<T>>, f: int, i: int, v: T)
    requires
        0 <= f < views.len(),
        0 <= i < views[f].len(),
    ensures
        with_carry(views.update(f, views[f].drop_last().insert(i, v)), f + 1, views[f].last())
            == views.flatten().insert(offset(lens_of(views), f) + i, v),
{
    let c = views[f];
    let c2 = c.drop_last().insert(i, v);
    let u = views.update(f, c2);
    lemma_insert_in_fragment(views, f, i, v);
    lemma_flatten_update(views, f, c.insert(i, v));
    lemma_flatten_take_step(u, f);
    assert(u.take(f) =~= views.take(f));
    assert(u.skip(f + 1) =~= views.skip(f + 1));
    assert(c2.push(c.last()) =~= c.insert(i, v));
    let a = views.take(f).flatten();
    let b = views.skip(f + 1).flatten();
    assert((a + c2) + seq![c.last()] + b =~= a + c.insert(i, v) + b);
}

/// One step of the cascade: the carried element enters the front of
/// fragment `g`, whose last element is carried on.
pub proof fn lemma_carry_step<T>(views: Seq<Seq<T>>, g: int, p: T)
    requires
        0 <= g < views.len(),
        views[g].len() > 0,
    ensures
        with_carry(views.update(g, views[g].drop_last().insert(0, p)), g + 1, views[g].last())
            == with_carry(views, g, p),
{
    let c = views[g];
    let c2 = c.drop_last().insert(0, p);
    let u = views.update(g, c2);
    lemma_flatten_take_step(u, g);
    lemma_flatten_skip_step(views, g);
    assert(u.take(g) =~= views.take(g));
    assert(u.skip(g + 1) =~= views.skip(g + 1));
    let a = views.take(g).flatten();
    let b = views.skip(g + 1).flatten();
    assert((a + c2) + seq![c.last()] + b =~= a + seq![p] + (c + b));
}

/// The end of the cascade: the carried element enters the front of a
/// fragment with room.
pub proof fn lemma_carry_end<T>(views: Seq<Seq<T>>, g: int, p: T)
    requires
        0 <= g < views.len(),
    ensures
        views.update(g, views[g].insert(0, p)).flatten() == with_carry(views, g, p),
{
    let c = views[g];
    lemma_flatten_update(views, g, c.insert(0, p));
    lemma_flatten_skip_step(views, g);
    let a = views.take(g).flatten();
    let b = views.skip(g + 1).flatten();
    assert(a + c.insert(0, p) + b =~= a + seq![p] + (c + b));
}

/// Removing from one fragment removes from the flattened sequence at the
/// element's flat index.
pub proof fn lemma_remove_in_fragment<T>(views: Seq<Seq<T>>, f: int, i: int)
    requires
        0 <= f < views.len(),
        0 <= i < views[f].len(),
    ensures
        views.update(f, views[f].remove(i)).flatten() == views.flatten().remove(
            offset(lens_of(views), f) + i,
        ),
{
    let c = views[f];
    lemma_flatten_update(views, f, c.remove(i));
    lemma_offset_is_prefix_len(views, f);
    let a = views.take(f).flatten();
    let b = views.skip(f + 1).flatten();
    assert(a + c.remove(i) + b =~= (a + c + b).remove(a.len() + i));
}

/// Moving the first element of fragment `k + 1` to the end of fragment `k`
/// keeps the flattened sequence.
pub proof fn lemma_move_front<T>(views: Seq<Seq<T>>, k: int)
    requires
        0 <= k,
        k + 1 < views.len(),
        views[k + 1].len() > 0,
    ensures
        views.update(k, views[k].push(views[k + 1][0])).update(k + 1, views[k + 1].remove(0)).flatten()
            == views.flatten(),
{
    let a = views[k];
    let c = views[k + 1];
    let x = c[0];
    let u1 = views.update(k, a.push(x));
    let u = u1.update(k + 1, c.remove(0));
    lemma_flatten_update(u1, k + 1, c.remove(0));
    lemma_flatten_take_step(u1, k);
    assert(u1.take(k) =~= views.take(k));
    assert(u1.skip(k + 2) =~= views.skip(k + 2));
    lemma_flatten_update(views, k + 1, c);
    lemma_flatten_take_step(views, k);
    assert(views.update(k + 1, c) =~= views);
    let p = views.take(k).flatten();
    let b = views.skip(k + 2).flatten();
    assert(p + a.push(x) + c.remove(0) + b =~= p + a + c + b);
}

/// Dropping an empty fragment keeps the flattened sequence.
pub proof fn lemma_flatten_remove_empty<T>(views: Seq<Seq<T>>, k: int)
    requires
        0 <= k < views.len(),
        views[k].len() == 0,
    ensures
        views.remove(k).flatten() == views.flatten(),
{
    lemma_flatten_update(views, k, views[k]);
    assert(views.update(k, views[k]) =~= views);
    assert(views.remove(k) =~= views.take(k) + views.skip(k + 1));
    lemma_flatten_concat(views.take(k), views.skip(k + 1));
    assert(views.take(k).flatten() + views[k] + views.skip(k + 1).flatten() =~= views.take(k).flatten()
        + views.skip(k + 1).flatten());
}

/// Replacing an element of one fragment replaces the element at its flat index.
pub proof fn lemma_update_in_fragment<T>(views: Seq<Seq<T>>, f: int, i: int, v: T)
    requires
        0 <= f < views.len(),
        0 <= i < views[f].len(),
    ensures
        views.update(f, views[f].update(i, v)).flatten() == views.flatten().update(
            offset(lens_of(views), f) + i,
            v,
        ),
        lens_of(views.update(f, views[f].update(i, v))) == lens_of(views),
{
    let c = views[f];
    lemma_flatten_update(views, f, c.update(i, v));
    lemma_offset_is_prefix_len(views, f);
    let a = views.take(f).flatten();
    let b = views.skip(f + 1).flatten();
    assert(a + c.update(i, v) + b =~= (a + c + b).update(a.len() + i, v));
    assert(lens_of(views.update(f, views[f].update(i, v))) =~= lens_of(views));
}

/// The location (fragment, index within it) of the element with flat index `g`.
pub open spec fn location_of(lens: Seq<nat>, g: int) -> (int, int) {
    choose|f: int, i: int| is_location(lens, f, i, g)
}

/// A location found for `g` is the location of `g`.
pub proof fn lemma_location_of(lens: Seq<nat>, f: int, i: int, g: int)
    requires
        is_location(lens, f, i, g),
    ensures
        location_of(lens, g) == (f, i),
{
    let (f2, i2) = location_of(lens, g);
    lemma_location_unique(lens, f, i, f2, i2, g);
}

/// Summing a prefix one element longer adds that element.
pub proof fn lemma_sum_lens_take(s: Seq<nat>, k: int)
    requires
        0 <= k < s.len(),
    ensures
        sum_lens(s.take(k + 1)) == sum_lens(s.take(k)) + s[k],
{
    assert(s.take(k + 1).drop_last() =~= s.take(k));
}

/// The sum of a whole sequence is the sum of its full prefix.
pub proof fn lemma_sum_lens_take_all(s: Seq<nat>)
    ensures
        sum_lens(s.take(s.len() as int)) == sum_lens(s),
{
    assert(s.take(s.len() as int) =~= s);
}

/// Sums of prefixes grow with the prefix.
pub proof fn lemma_sum_lens_take_mono(s: Seq<nat>, a: int, b: int)
    requires
        0 <= a <= b <= s.len(),
    ensures
        sum_lens(s.take(a)) <= sum_lens(s.take(b)),
    decreases b - a,
{
    if a < b {
        lemma_sum_lens_take(s, b - 1);
        lemma_sum_lens_take_mono(s, a, b - 1);
    }
}

/// Changing one element of a sequence changes its sum by the difference.
pub proof fn lemma_sum_lens_update(s: Seq<nat>, k: int, v: nat)
    requires
        0 <= k < s.len(),
    ensures
        sum_lens(s.update(k, v)) + s[k] == sum_lens(s) + v,
    decreases s.len(),
{
    if k == s.len() - 1 {
        assert(s.update(k, v).drop_last() =~= s.drop_last());
    } else {
        assert(s.update(k, v).drop_last() =~= s.drop_last().update(k, v));
        lemma_sum_lens_update(s.drop_last(), k, v);
    }
}

/// The sum of a concatenation is the sum of its parts.
pub proof fn lemma_sum_lens_concat(a: Seq<nat>, b: Seq<nat>)
    ensures
        sum_lens(a + b) == sum_lens(a) + sum_lens(b),
    decreases b.len(),
{
    if b.len() == 0 {
        assert(a + b =~= a);
    } else {
        assert((a + b).drop_last() =~= a + b.drop_last());
        lemma_sum_lens_concat(a, b.drop_last());
    }
}

/// The total of concatenated capacities is the sum of their totals.
pub proof fn lemma_sum_caps_concat(a: Seq<usize>, b: Seq<usize>)
    ensures
        sum_caps(a + b) == sum_caps(a) + sum_caps(b),
    decreases b.len(),
{
    if b.len() == 0 {
        assert(a + b =~= a);
    } else {
        assert((a + b).drop_last() =~= a + b.drop_last());
        lemma_sum_caps_concat(a, b.drop_last());
    }
}

/// Removing one element of a sequence removes it from the sum.
pub proof fn lemma_sum_lens_remove(s: Seq<nat>, k: int)
    requires
        0 <= k < s.len(),
    ensures
        sum_lens(s.remove(k)) + s[k] == sum_lens(s),
{
    let a = s.take(k);
    let b = seq![s[k]];
    let c = s.skip(k + 1);
    assert(s =~= a + (b + c));
    assert(s.remove(k) =~= a + c);
    lemma_sum_lens_concat(a, b + c);
    lemma_sum_lens_concat(b, c);
    lemma_sum_lens_concat(a, c);
    assert(b.drop_last() =~= Seq::<nat>::empty());
    assert(sum_lens(Seq::<nat>::empty()) == 0);
    assert(b.last() == s[k]);
    assert(sum_lens(b) == s[k]);
}

/// Changing one capacity of a sequence changes its sum by the difference.
pub proof fn lemma_sum_caps_take(s: Seq<usize>, k: int)
    requires
        0 <= k < s.len(),
    ensures
        sum_caps(s.take(k + 1)) == sum_caps(s.take(k)) + s[k],
{
    assert(s.take(k + 1).drop_last() =~= s.take(k));
}

/// Sums of capacity prefixes grow with the prefix.
pub proof fn lemma_sum_caps_take_mono(s: Seq<usize>, a: int, b: int)
    requires
        0 <= a <= b <= s.len(),
    ensures
        sum_caps(s.take(a)) <= sum_caps(s.take(b)),
    decreases b - a,
{
    if a < b {
        lemma_sum_caps_take(s, b - 1);
        lemma_sum_caps_take_mono(s, a, b - 1);
    }
}

/// The sum of the whole capacity sequence is the sum of its full prefix.
pub proof fn lemma_sum_caps_take_all(s: Seq<usize>)
    ensures
        sum_caps(s.take(s.len() as int)) == sum_caps(s),
{
    assert(s.take(s.len() as int) =~= s);
}

/// When every fragment fits, the elements never exceed the capacities.
pub proof fn lemma_fits_sum(caps: Seq<usize>, lens: Seq<nat>)
    requires
        fits(caps, lens),
    ensures
        sum_lens(lens) <= sum_caps(caps),
    decreases lens.len(),
{
    if lens.len() > 0 {
        lemma_fits_sum(caps.drop_last(), lens.drop_last());
    }
}

/// Lengths of a prefix are the prefix of the lengths.
pub proof fn lemma_lens_of_take<T>(views: Seq<Seq<T>>, k: int)
    requires
        0 <= k <= views.len(),
    ensures
        lens_of(views.take(k)) =~= lens_of(views).take(k),
{
}

/// The length of a flattened sequence of sequences is the sum of their lengths.
pub proof fn lemma_flatten_len<T>(views: Seq<Seq<T>>)
    ensures
        views.flatten().len() == sum_lens(lens_of(views)),
    decreases views.len(),
{
    if views.len() > 0 {
        let init = views.drop_last();
        lemma_flatten_len(init);
        assert(views =~= init.push(views.last()));
        init.lemma_flatten_push(views.last());
        assert(lens_of(views).drop_last() =~= lens_of(init));
    }
}

/// A flattened sequence splits at any fragment boundary.
pub proof fn lemma_flatten_split<T>(views: Seq<Seq<T>>, k: int)
    requires
        0 <= k <= views.len(),
    ensures
        views.flatten() =~= views.take(k).flatten() + views.skip(k).flatten(),
{
    assert(views =~= views.take(k) + views.skip(k));
    lemma_flatten_concat(views.take(k), views.skip(k));
}

/// Flattening a prefix one fragment longer appends that fragment.
pub proof fn lemma_flatten_take_step<T>(views: Seq<Seq<T>>, k: int)
    requires
        0 <= k < views.len(),
    ensures
        views.take(k + 1).flatten() =~= views.take(k).flatten() + views[k],
{
    assert(views.take(k + 1) =~= views.take(k).push(views[k]));
    views.take(k).lemma_flatten_push(views[k]);
}

/// Flattening a suffix one fragment longer prepends that fragment.
pub proof fn lemma_flatten_skip_step<T>(views: Seq<Seq<T>>, k: int)
    requires
        0 <= k < views.len(),
    ensures
        views.skip(k).flatten() =~= views[k] + views.skip(k + 1).flatten(),
{
    assert(views.skip(k).drop_first() =~= views.skip(k + 1));
}

/// The flattened sequence with one fragment replaced.
pub proof fn lemma_flatten_update<T>(views: Seq<Seq<T>>, k: int, s: Seq<T>)
    requires
        0 <= k < views.len(),
    ensures
        views.update(k, s).flatten() =~= views.take(k).flatten() + s + views.skip(k + 1).flatten(),
        views.flatten() =~= views.take(k).flatten() + views[k] + views.skip(k + 1).flatten(),
{
    let u = views.update(k, s);
    lemma_flatten_split(u, k);
    lemma_flatten_skip_step(u, k);
    assert(u.take(k) =~= views.take(k));
    assert(u.skip(k + 1) =~= views.skip(k + 1));
    lemma_flatten_split(views, k);
    lemma_flatten_skip_step(views, k);
}

/// The number of elements before fragment `f` is the length of the
/// flattened prefix.
pub proof fn lemma_offset_is_prefix_len<T>(views: Seq<Seq<T>>, f: int)
    requires
        0 <= f <= views.len(),
    ensures
        views.take(f).flatten().len() == offset(lens_of(views), f),
{
    lemma_flatten_len(views.take(f));
    lemma_lens_of_take(views, f);
}

/// The `i`-th element of fragment `f` is found at its flat index.
pub proof fn lemma_flatten_index<T>(views: Seq<Seq<T>>, f: int, i: int)
    requires
        0 <= f < views.len(),
        0 <= i < views[f].len(),
    ensures
        offset(lens_of(views), f) + i < views.flatten().len(),
        views.flatten()[offset(lens_of(views), f) + i] == views[f][i],
{
    lemma_flatten_update(views, f, views[f]);
    lemma_offset_is_prefix_len(views, f);
}

/// Every flat index below the total length has a location.
pub proof fn lemma_location_exists(lens: Seq<nat>, g: int)
    requires
        0 <= g < sum_lens(lens),
    ensures
        exists|f: int, i: int| is_location(lens, f, i, g),
    decreases lens.len(),
{
    let n = lens.len() as int;
    let init = lens.drop_last();
    if g < sum_lens(init) {
        lemma_location_exists(init, g);
        let (f, i) = choose|f: int, i: int| is_location(init, f, i, g);
        assert(init.take(f) =~= lens.take(f));
        assert(is_location(lens, f, i, g));
    } else {
        assert(lens.take(n - 1) =~= init);
        assert(is_location(lens, n - 1, g - sum_lens(init), g));
    }
}

/// A flat index has at most one location.
pub proof fn lemma_location_unique(lens: Seq<nat>, f1: int, i1: int, f2: int, i2: int, g: int)
    requires
        is_location(lens, f1, i1, g),
        is_location(lens, f2, i2, g),
    ensures
        f1 == f2,
        i1 == i2,
{
    if f1 < f2 {
        lemma_sum_lens_take(lens, f1);
        lemma_sum_lens_take_mono(lens, f1 + 1, f2);
    } else if f2 < f1 {
        lemma_sum_lens_take(lens, f2);
        lemma_sum_lens_take_mono(lens, f2 + 1, f1);
    }
}

/// Flat indices of located elements are below the total.
pub proof fn lemma_location_bound(lens: Seq<nat>, f: int, i: int, g: int)
    requires
        is_location(lens, f, i, g),
    ensures
        g < sum_lens(lens),
{
    lemma_sum_lens_take(lens, f);
    lemma_sum_lens_take_mono(lens, f + 1, lens.len() as int);
    lemma_sum_lens_take_all(lens);
}

} // verus!

//! The split vector: a vector of fragments.
use crate::fragment::{
    all_wf, caps_of, lemma_frags_take, lemma_frags_update, lens_of_fragments, views_of, Fragment,
};
use crate::growth::{can_grow_times, grown_caps, Growth};
use crate::growth::doubling::Doubling;
use crate::slice::{fragments_slices_mut, lemma_flatten_subrange, mut_slice_views, piece_end, piece_start};
use core::ops::Range;
use crate::layout::{
    fits, full_prefix, lemma_fits_sum, lemma_flatten_index, lemma_flatten_len, lemma_update_in_fragment, lemma_sum_caps_take, lemma_sum_caps_take_all,
    lemma_sum_caps_take_mono, lens_of, sum_caps, sum_lens, location_of, lemma_location_of, offset,
    lemma_offset_is_prefix_len,
};
use vstd::prelude::*;

verus! {

/// The number of fragments the fragments collection can hold after it makes
/// room for one more fragment: it doubles, holding at least four.
pub open spec fn grown_fragments_capacity(fragments_capacity: nat, num_fragments: nat) -> nat {
    if num_fragments < fragments_capacity {
        fragments_capacity
    } else if fragments_capacity > usize::MAX / 2 {
        usize::MAX as nat
    } else if 2 * fragments_capacity < 4 {
        4
    } else {
        2 * fragments_capacity
    }
}

/// A split vector; i.e., a vector of fragments, with the following features:
///
/// * Flexible in growth strategies; custom strategies can be defined.
/// * Growth does not cause any memory copies.
/// * Capacity of an already created fragment is never changed.
/// * The above feature allows the data to stay pinned in place. Memory location
///   of an item added to the split vector will never change unless it is removed
///   from the vector or the vector is dropped.
pub struct SplitVec<T, G: Growth = Doubling> {
    pub(crate) len: usize,
    pub(crate) fragments: Vec<Fragment<T>>,
    pub(crate) growth: G,
    pub(crate) fragments_capacity: usize,
}

impl<T, G: Growth> View for SplitVec<T, G> {
    type V = Seq<T>;

    /// The elements of the vector: the elements of its fragments, in order.
    closed spec fn view(&self) -> Seq<T> {
        views_of(self.fragments@).flatten()
    }
}

/// Within the crate, the model of a split vector is its fields.
pub(crate) broadcast proof fn lemma_split_vec_fields<T, G: Growth>(v: &SplitVec<T, G>)
    ensures
        #[trigger] v.frags() == v.fragments@,
        #[trigger] v.spec_growth() == v.growth,
        #[trigger] v.spec_len() == v.len,
        #[trigger] v.spec_fragments_capacity() == v.fragments_capacity,
        #[trigger] v.view() == views_of(v.fragments@).flatten(),
{
}

/// Replacing one fragment changes only that fragment's view, capacity and length.
broadcast proof fn lemma_frags_update_auto<T>(fs: Seq<Fragment<T>>, k: int, fr: Fragment<T>)
    requires
        0 <= k < fs.len(),
    ensures
        #![trigger fs.update(k, fr)]
        views_of(fs.update(k, fr)) == views_of(fs).update(k, fr@),
        caps_of(fs.update(k, fr)) == caps_of(fs).update(k, fr.cap()),
        lens_of_fragments(fs.update(k, fr)) == lens_of_fragments(fs).update(k, fr@.len()),
{
    lemma_frags_update(fs, k, fr);
}

/// Replacing a fragment by one of the same capacity and length keeps the
/// capacities and lengths of the fragments.
broadcast proof fn lemma_frags_update_same_shape<T>(fs: Seq<Fragment<T>>, k: int, fr: Fragment<T>)
    requires
        0 <= k < fs.len(),
        fr.cap() == fs[k].cap(),
        fr@.len() == fs[k]@.len(),
    ensures
        #![trigger fs.update(k, fr)]
        caps_of(fs.update(k, fr)) == caps_of(fs),
        lens_of_fragments(fs.update(k, fr)) == lens_of_fragments(fs),
{
    lemma_frags_update(fs, k, fr);
    assert(caps_of(fs).update(k, fr.cap()) =~= caps_of(fs));
    assert(lens_of_fragments(fs).update(k, fr@.len()) =~= lens_of_fragments(fs));
}

/// Replacing a fragment by a well-formed one keeps all fragments well-formed.
broadcast proof fn lemma_all_wf_update<T>(fs: Seq<Fragment<T>>, k: int, fr: Fragment<T>)
    requires
        all_wf(fs),
        0 <= k < fs.len(),
        fr.wf(),
    ensures
        #[trigger] all_wf(fs.update(k, fr)),
{
}

impl<T, G: Growth> SplitVec<T, G> {
    /// The fragments of the vector.
    pub closed spec fn frags(&self) -> Seq<Fragment<T>> {
        self.fragments@
    }

    /// The growth strategy of the vector.
    pub closed spec fn spec_growth(&self) -> G {
        self.growth
    }

    /// The number of fragments the fragments collection holds without moving.
    pub closed spec fn spec_fragments_capacity(&self) -> nat {
        self.fragments_capacity as nat
    }

    /// The stored length of the vector.
    pub closed spec fn spec_len(&self) -> nat {
        self.len as nat
    }

    /// The elements of each fragment.
    pub open spec fn fragment_views(&self) -> Seq<Seq<T>> {
        views_of(self.frags())
    }

    /// The capacity of each fragment.
    pub open spec fn caps(&self) -> Seq<usize> {
        caps_of(self.frags())
    }

    /// The number of elements of each fragment.
    pub open spec fn lens(&self) -> Seq<nat> {
        lens_of_fragments(self.frags())
    }

    /// The total capacity: the sum of the fragments' capacities.
    pub open spec fn spec_capacity(&self) -> nat {
        sum_caps(self.caps())
    }

    /// The fragments follow the layout of the growth strategy:
    /// * every fragment holds at most its capacity, and the capacities are
    ///   those the strategy lays out;
    /// * with a strategy that finds elements by index, every fragment but the
    ///   last is full;
    /// * the stored length is the number of elements;
    /// * the fragments collection holds all fragments.
    pub open spec fn wf(&self) -> bool {
        &&& self.wf_layout()
        &&& self.spec_len() == sum_lens(self.lens())
    }

    /// The fragments follow the layout of the growth strategy (all of `wf`
    /// but the stored length).
    pub open spec fn wf_layout(&self) -> bool {
        &&& self.spec_growth().wf_growth()
        &&& all_wf(self.frags())
        &&& self.spec_growth().valid_caps(self.caps())
        &&& (self.spec_growth().keeps_full_prefix() ==> full_prefix(self.caps(), self.lens()))
        &&& self.frags().len() <= self.spec_fragments_capacity()
    }

    /// The last fragment has room for one more element.
    pub open spec fn has_room(&self) -> bool {
        self.frags().len() > 0 && self.frags().last()@.len() < self.frags().last().cap()
    }

    /// One more element can be pushed: the last fragment has room, or the
    /// growth strategy can add a fragment within its limits and those of `usize`.
    pub open spec fn can_push(&self) -> bool {
        self.has_room() || self.spec_growth().can_grow(self.caps())
    }

    /// The elements of `before` stay where they were in `after`: every fragment of
    /// `before` is still there with the same capacity, holding the same elements
    /// at the same positions (the pinned-element guarantee).
    pub open spec fn keeps_pinned(before: Self, after: Self) -> bool {
        &&& before.frags().len() <= after.frags().len()
        &&& forall|k: int|
            0 <= k < before.frags().len() ==> #[trigger] after.frags()[k].cap() == before.frags()[k].cap()
        &&& forall|k: int|
            0 <= k < before.frags().len() ==> before.frags()[k]@.len() <= #[trigger] after.frags()[k]@.len()
        &&& forall|k: int, j: int|
            0 <= k < before.frags().len() && 0 <= j < before.frags()[k]@.len() ==> #[trigger] after.frags()[k]@[j]
                == before.frags()[k]@[j]
    }

    /// The number of elements the last fragment can still take.
    pub open spec fn last_room(&self) -> nat {
        if self.frags().len() > 0 {
            (self.caps().last() - self.lens().last()) as nat
        } else {
            0
        }
    }

    /// `n` more elements can be pushed: the last fragment and the fragments
    /// the growth strategy can add have room for them.
    pub open spec fn can_extend(&self, n: nat) -> bool {
        exists|k: nat|
            #![trigger grown_caps(self.spec_growth(), self.caps(), k)]
            can_grow_times(self.spec_growth(), self.caps(), k) && n <= self.last_room() + sum_caps(
                grown_caps(self.spec_growth(), self.caps(), k),
            ) - sum_caps(self.caps())
    }

    /// Keeping elements pinned is transitive.
    pub proof fn lemma_keeps_pinned_trans(a: Self, b: Self, c: Self)
        requires
            Self::keeps_pinned(a, b),
            Self::keeps_pinned(b, c),
        ensures
            Self::keeps_pinned(a, c),
    {
        assert forall|k: int| 0 <= k < a.frags().len() implies #[trigger] c.frags()[k].cap() == a.frags()[k].cap() by {
            assert(b.frags()[k].cap() == a.frags()[k].cap());
        }
        assert forall|k: int| 0 <= k < a.frags().len() implies a.frags()[k]@.len() <= #[trigger] c.frags()[k]@.len() by {
            assert(a.frags()[k]@.len() <= b.frags()[k]@.len());
        }
        assert forall|k: int, j: int|
            0 <= k < a.frags().len() && 0 <= j < a.frags()[k]@.len() implies #[trigger] c.frags()[k]@[j]
                == a.frags()[k]@[j] by {
            assert(a.frags()[k]@.len() <= b.frags()[k]@.len());
            assert(b.frags()[k]@[j] == a.frags()[k]@[j]);
            assert(c.frags()[k]@[j] == b.frags()[k]@[j]);
        }
    }

    /// The facts that follow from well-formedness: the length of the view is
    /// the stored length, the fragments fit their capacities, and the total
    /// capacity fits in `usize`.
    pub proof fn lemma_wf(&self)
        requires
            self.wf(),
        ensures
            self@.len() == self.spec_len(),
            self.fragment_views().flatten() == self@,
            lens_of(self.fragment_views()) == self.lens(),
            fits(self.caps(), self.lens()),
            self.spec_len() <= self.spec_capacity(),
            self.spec_capacity() <= usize::MAX,
            self.frags().len() <= self.spec_growth().max_fragments(),
    {
        assert(lens_of(self.fragment_views()) =~= self.lens());
        lemma_flatten_len(self.fragment_views());
        assert(fits(self.caps(), self.lens())) by {
            assert forall|k: int| 0 <= k < self.lens().len() implies #[trigger] self.lens()[k]
                <= self.caps()[k] by {
                assert(self.frags()[k].wf());
            }
        }
        lemma_fits_sum(self.caps(), self.lens());
        self.spec_growth().lemma_valid_bounds(self.caps());
    }

    /// Dropping the last fragments keeps the layout of the first ones.
    pub(crate) proof fn lemma_take_fragments(&self, k: int)
        requires
            self.wf(),
            0 <= k <= self.frags().len(),
        ensures
            self.spec_growth().valid_caps(self.caps().take(k)),
            self.spec_growth().keeps_full_prefix() ==> full_prefix(
                self.caps().take(k),
                self.lens().take(k),
            ),
            all_wf(self.frags().take(k)),
            views_of(self.frags().take(k)) == self.fragment_views().take(k),
            caps_of(self.frags().take(k)) == self.caps().take(k),
            lens_of_fragments(self.frags().take(k)) == self.lens().take(k),
    {
        self.spec_growth().lemma_valid_prefix(self.caps(), k);
        lemma_frags_take(self.frags(), k);
        assert forall|j: int| 0 <= j < self.frags().take(k).len() implies #[trigger] self.frags().take(
            k,
        )[j].wf() by {
            assert(self.frags().take(k)[j] == self.frags()[j]);
        }
    }

    /// Creates a split vector from its parts.
    pub(crate) fn from_raw_parts(len: usize, fragments: Vec<Fragment<T>>, growth: G, fragments_capacity: usize) -> (v: Self)
        ensures
            v.frags() == fragments@,
            v.spec_growth() == growth,
            v.spec_len() == len,
            v.spec_fragments_capacity() == fragments_capacity,
    {
        SplitVec { len, fragments, growth, fragments_capacity }
    }

    /// Creates a fragments collection holding `fragment` that can hold
    /// `fragments_capacity` fragments without moving.
    pub(crate) fn single_fragment(fragment: Fragment<T>, fragments_capacity: usize) -> (v: Vec<Fragment<T>>)
        ensures
            v@ == seq![fragment],
    {
        let mut fragments = Vec::with_capacity(fragments_capacity);
        fragments.push(fragment);
        proof {
            assert(fragments@ =~= seq![fragment]);
        }
        fragments
    }

    /// Creates an empty split vector with the given `growth` strategy, holding
    /// one empty fragment with the strategy's first capacity.
    pub fn with_growth(growth: G) -> (v: Self)
        requires
            growth.wf_growth(),
            growth.can_grow(Seq::<usize>::empty()),
        ensures
            v.wf(),
            v@ == Seq::<T>::empty(),
            v.spec_growth() == growth,
            v.caps() == seq![growth.spec_new_capacity(Seq::<usize>::empty()) as usize],
            v.spec_fragments_capacity() == 1,
    {
        proof {
            growth.lemma_valid_empty();
            growth.lemma_grow(Seq::<usize>::empty());
            assert(Seq::<usize>::empty().push(growth.spec_new_capacity(Seq::<usize>::empty()) as usize)
                =~= seq![growth.spec_new_capacity(Seq::<usize>::empty()) as usize]);
        }
        let capacity = growth.first_fragment_capacity();
        Self::with_first_fragment(growth, capacity, 1)
    }

    /// Creates an empty split vector with the given `growth` strategy, holding
    /// one empty fragment of `capacity` elements, whose fragments collection
    /// holds `fragments_capacity` fragments without moving.
    pub(crate) fn with_first_fragment(growth: G, capacity: usize, fragments_capacity: usize) -> (v: Self)
        requires
            growth.wf_growth(),
            growth.valid_caps(seq![capacity]),
            fragments_capacity >= 1,
        ensures
            v.wf(),
            v@ == Seq::<T>::empty(),
            v.spec_growth() == growth,
            v.caps() == seq![capacity],
            v.lens() == seq![0nat],
            v.spec_fragments_capacity() == fragments_capacity,
    {
        let fragment = Fragment::new_empty(capacity);
        let fragments = Self::single_fragment(fragment, fragments_capacity);
        let v = SplitVec { len: 0, fragments, growth, fragments_capacity };
        proof {
            assert(v.caps() =~= seq![capacity]);
            assert(v.lens() =~= seq![0nat]);
            v.lemma_single_empty_fragment();
            assert(all_wf(v.frags())) by {
                assert(v.frags()[0].wf());
            }
        }
        v
    }

    /// A vector whose only fragment is empty holds no elements.
    proof fn lemma_single_empty_fragment(&self)
        requires
            self.frags().len() == 1,
            self.frags()[0]@.len() == 0,
        ensures
            self@ == Seq::<T>::empty(),
            sum_lens(self.lens()) == 0,
    {
        let views = self.fragment_views();
        assert(views[0] =~= Seq::<T>::empty());
        assert(views =~= seq![Seq::<T>::empty()]);
        views.lemma_flatten_singleton();
        assert(self.lens().drop_last() =~= Seq::<nat>::empty());
        assert(sum_lens(Seq::<nat>::empty()) == 0);
    }

    /// Growth strategy of the split vector.
    ///
    /// Note that allocated data of split vector is pinned and allocated in
    /// fragments. Therefore, growth does not require copying data.
    pub fn growth(&self) -> (g: &G)
        ensures
            *g == self.spec_growth(),
    {
        &self.growth
    }

    /// Returns the fragments of the split vector.
    ///
    /// Every fragment holds at most its capacity; with a strategy that finds
    /// elements by index, every fragment but the last is full.
    pub fn fragments(&self) -> (f: &[Fragment<T>])
        ensures
            f@ == self.frags(),
    {
        self.fragments.as_slice()
    }

    /// Number of fragments the fragments collection can hold without moving.
    pub fn fragments_capacity(&self) -> (c: usize)
        ensures
            c == self.spec_fragments_capacity(),
    {
        self.fragments_capacity
    }

    /// Returns a reference to the last fragment of the split vector.
    pub fn last_fragment(&self) -> (f: &Fragment<T>)
        requires
            self.frags().len() > 0,
        ensures
            *f == self.frags().last(),
    {
        &self.fragments[self.fragments.len() - 1]
    }

    /// Returns the number of elements in the vector.
    pub fn len(&self) -> (n: usize)
        requires
            self.wf(),
        ensures
            n == self@.len(),
    {
        proof {
            self.lemma_wf();
        }
        self.len
    }

    /// Returns `true` if the vector contains no elements.
    pub fn is_empty(&self) -> (b: bool)
        requires
            self.wf(),
        ensures
            b == (self@.len() == 0),
    {
        proof {
            self.lemma_wf();
        }
        self.len == 0
    }

    /// Returns the total number of elements the split vector can hold without
    /// adding a fragment: the sum of the fragments' capacities.
    pub fn capacity(&self) -> (c: usize)
        requires
            self.wf(),
        ensures
            c == self.spec_capacity(),
    {
        proof {
            self.lemma_wf();
        }
        let ghost caps = self.caps();
        let mut total: usize = 0;
        let mut k: usize = 0;
        while k < self.fragments.len()
            invariant
                caps == self.caps(),
                k <= caps.len(),
                total == sum_caps(caps.take(k as int)),
                sum_caps(caps) <= usize::MAX,
            decreases caps.len() - k,
        {
            proof {
                lemma_sum_caps_take(caps, k as int);
                lemma_sum_caps_take_mono(caps, k as int + 1, caps.len() as int);
                lemma_sum_caps_take_all(caps);
            }
            total = total + self.fragments[k].capacity();
            k += 1;
        }
        proof {
            lemma_sum_caps_take_all(caps);
        }
        total
    }

    /// Returns a mutable reference to the element with the given `index`;
    /// `None` if the index is out of bounds.
    ///
    /// Writing through the reference changes that element only: the fragments
    /// keep their lengths and capacities.
    pub fn get_mut(&mut self, index: usize) -> (r: Option<&mut T>)
        requires
            old(self).wf(),
        ensures
            index >= old(self)@.len() ==> r is None && *final(self) == *old(self),
            index < old(self)@.len() ==> r is Some,
            r matches Some(x) ==> {
                &&& *x == old(self)@[index as int]
                &&& final(self)@ == old(self)@.update(index as int, *final(x))
                &&& final(self).wf()
                &&& final(self).caps() == old(self).caps()
                &&& final(self).lens() == old(self).lens()
                &&& final(self).spec_growth() == old(self).spec_growth()
                &&& final(self).spec_fragments_capacity() == old(self).spec_fragments_capacity()
            },
    {
        proof {
            self.lemma_wf();
        }
        let located = self.get_fragment_and_inner_indices(index);
        if located.is_none() {
            return None;
        }
        let (f, i) = located.unwrap();
        proof {
            lemma_flatten_index(old(self).fragment_views(), f as int, i as int);
        }
        let fr = &mut self.fragments[f];
        let r = fr.get_mut(i);
        proof {
            broadcast use {lemma_frags_update_auto, lemma_all_wf_update, lemma_frags_update_same_shape};
            lemma_update_in_fragment(old(self).fragment_views(), f as int, i as int, *final(r));
        }
        Some(r)
    }

    /// Returns `true` if the last fragment has room for one more element.
    pub(crate) fn has_capacity_for_one(&self) -> (b: bool)
        ensures
            b == self.has_room(),
    {
        let n = self.fragments.len();
        if n == 0 {
            false
        } else {
            self.fragments[n - 1].has_capacity_for_one()
        }
    }

    /// Makes sure the fragments collection can hold one more fragment without
    /// moving, doubling its room when it is full.
    fn reserve_fragment_slot(&mut self)
        requires
            old(self).frags().len() <= old(self).spec_fragments_capacity(),
        ensures
            final(self).frags() == old(self).frags(),
            final(self).spec_growth() == old(self).spec_growth(),
            final(self).spec_len() == old(self).spec_len(),
            final(self).spec_fragments_capacity() == grown_fragments_capacity(
                old(self).spec_fragments_capacity(),
                old(self).frags().len(),
            ),
            final(self).frags().len() < final(self).spec_fragments_capacity() || final(self).frags().len()
                == usize::MAX,
            old(self).frags().len() < old(self).spec_fragments_capacity() ==> final(self).spec_fragments_capacity()
                == old(self).spec_fragments_capacity(),
            old(self).frags().len() == old(self).spec_fragments_capacity() && 2 * old(
                self,
            ).spec_fragments_capacity() <= usize::MAX ==> final(self).spec_fragments_capacity() == if old(
                self,
            ).spec_fragments_capacity() < 2 {
                4
            } else {
                2 * old(self).spec_fragments_capacity()
            },
    {
        let n = self.fragments.len();
        if n == self.fragments_capacity {
            let fc = self.fragments_capacity;
            let new_capacity = if fc > usize::MAX / 2 {
                usize::MAX
            } else if 2 * fc < 4 {
                4
            } else {
                2 * fc
            };
            self.fragments.reserve(new_capacity - n);
            self.fragments_capacity = new_capacity;
        }
    }

    /// Adds `fragment` as the new last fragment.
    pub(crate) fn push_fragment(&mut self, fragment: Fragment<T>)
        requires
            old(self).frags().len() <= old(self).spec_fragments_capacity(),
        ensures
            final(self).frags() == old(self).frags().push(fragment),
            final(self).spec_growth() == old(self).spec_growth(),
            final(self).spec_len() == old(self).spec_len(),
            final(self).spec_fragments_capacity() == grown_fragments_capacity(
                old(self).spec_fragments_capacity(),
                old(self).frags().len(),
            ),
            final(self).frags().len() <= final(self).spec_fragments_capacity(),
    {
        self.reserve_fragment_slot();
        self.fragments.push(fragment);
        let n = self.fragments.len();
        assert(n == self.fragments@.len());
    }

    /// Returns the required `range` as mutable slices, one per fragment that
    /// holds an element of the range, in order; an empty vector if the range
    /// is empty or out of bounds.
    ///
    /// Writing through the slices changes those elements of the fragments
    /// only; the fragments keep their capacities and the vector its strategy.
    pub fn slices_mut(&mut self, range: Range<usize>) -> (r: Vec<&mut [T]>)
        requires
            old(self).wf(),
        ensures
            range.end <= range.start || range.end > old(self)@.len() ==> r@.len() == 0 && *final(self)
                == *old(self),
            range.start < range.end <= old(self)@.len() ==> {
                let sf = location_of(old(self).lens(), range.start as int).0;
                let si = location_of(old(self).lens(), range.start as int).1;
                let ef = location_of(old(self).lens(), range.end - 1).0;
                let ee = location_of(old(self).lens(), range.end - 1).1 + 1;
                &&& r@.len() == ef - sf + 1
                &&& mut_slice_views(r@).flatten() == old(self)@.subrange(range.start as int, range.end as int)
                &&& final(self).spec_growth() == old(self).spec_growth()
                &&& final(self).spec_fragments_capacity() == old(self).spec_fragments_capacity()
                &&& final(self).spec_len() == old(self).spec_len()
                &&& final(self).frags().len() == old(self).frags().len()
                &&& final(self).caps() == old(self).caps()
                &&& forall|k: int|
                    0 <= k < old(self).frags().len() && !(sf <= k <= ef) ==> #[trigger] final(self).frags()[k]
                        == old(self).frags()[k]
                &&& forall|j: int|
                    0 <= j < r@.len() ==> #[trigger] final(self).fragment_views()[sf + j]
                        == old(self).fragment_views()[sf + j].subrange(0, piece_start(j, si)) + final(r@[j])@
                        + old(self).fragment_views()[sf + j].subrange(
                        piece_end(j, r@.len() as int, ee, old(self).lens()[sf + j] as int),
                        old(self).lens()[sf + j] as int,
                    )
            },
    {
        proof {
            lemma_split_vec_fields(&*self);
            self.lemma_wf();
        }
        let a = range.start;
        let b = range.end;
        if b <= a {
            return Vec::new();
        }
        let first = self.get_fragment_and_inner_indices(a);
        let last = self.get_fragment_and_inner_indices(b - 1);
        if first.is_none() || last.is_none() {
            return Vec::new();
        }
        let (sf, si) = first.unwrap();
        let (ef, ei) = last.unwrap();
        let ghost s0 = *self;
        let ghost views = s0.fragment_views();
        let ghost lens = s0.lens();
        proof {
            lemma_location_of(lens, sf as int, si as int, a as int);
            lemma_location_of(lens, ef as int, ei as int, b - 1);
            assert(views[sf as int].len() == lens[sf as int]);
            assert(views[ef as int].len() == lens[ef as int]);
            if sf > ef {
                crate::layout::lemma_sum_lens_take(lens, ef as int);
                crate::layout::lemma_sum_lens_take_mono(lens, ef + 1, sf as int);
                assert(false);
            }
            assert(lens_of(views) =~= lens);
            lemma_flatten_subrange(views, sf as int, ef + 1);
            crate::layout::lemma_sum_lens_take(lens, ef as int);
            assert(views_of(s0.fragments@.subrange(sf as int, ef + 1)) =~= views.subrange(sf as int, ef + 1));
        }
        let all = self.fragments.as_mut_slice();
        let (_left, tail) = all.split_at_mut(sf);
        let (mid, _right) = tail.split_at_mut(ef - sf + 1);
        let ghost midv = mid@;
        proof {
            assert(midv =~= s0.fragments@.subrange(sf as int, ef + 1));
            let mv = views.subrange(sf as int, ef + 1);
            assert(views_of(midv) =~= mv);
            crate::layout::lemma_flatten_len(mv);
            assert(lens_of(mv) =~= lens.subrange(sf as int, ef + 1));
            assert(mv.flatten() == s0@.subrange(offset(lens, sf as int) as int, offset(lens, ef + 1) as int));
            assert(offset(lens, ef + 1) == offset(lens, ef as int) + lens[ef as int]);
            assert(a == offset(lens, sf as int) + si);
            assert(b - 1 == offset(lens, ef as int) + ei);
            assert(midv[midv.len() - 1] == s0.fragments@[ef as int]);
            crate::layout::lemma_flatten_len(views);
            crate::layout::lemma_sum_lens_take_mono(lens, ef + 1, lens.len() as int);
            crate::layout::lemma_sum_lens_take_all(lens);
            assert(lens_of(views) =~= lens);
            assert(mv.flatten().len() == offset(lens, ef + 1) - offset(lens, sf as int));
            assert(mv.flatten().subrange(si as int, mv.flatten().len() - midv[midv.len() - 1]@.len() + ei + 1)
                =~= s0@.subrange(a as int, b as int));
        }
        let r = fragments_slices_mut(mid, si, ei + 1);
        r
    }
}

} // verus!

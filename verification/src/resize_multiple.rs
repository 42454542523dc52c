//! Changing the length of a split vector by many elements at once:
//! truncate, clear and extend.
use crate::fragment::{all_wf, lemma_frags_take, lemma_frags_update, Fragment};
use crate::growth::{can_grow_times, grown_caps, Growth};
use crate::layout::{
    is_location, lemma_flatten_update, lemma_offset_is_prefix_len, lemma_sum_lens_take, lens_of, offset,
    sum_caps, sum_lens,
};
use crate::split_vec::{lemma_split_vec_fields, SplitVec};
use vstd::prelude::*;

verus! {

broadcast use lemma_split_vec_fields;

/// The number of fragments kept when a vector with fragment lengths `lens`
/// is truncated to `len` elements: those holding an element before `len`.
pub open spec fn truncated_fragments(lens: Seq<nat>, len: nat) -> int {
    let (f, i) = choose|f: int, i: int| is_location(lens, f, i, len as int);
    if i > 0 {
        f + 1
    } else {
        f
    }
}

/// The elements before the `i`-th of fragment `f` are the flattened first `f`
/// fragments and the first `i` elements of fragment `f`.
pub proof fn lemma_flatten_take_at<T>(views: Seq<Seq<T>>, f: int, i: int)
    requires
        0 <= f < views.len(),
        0 <= i <= views[f].len(),
    ensures
        views.flatten().take(offset(lens_of(views), f) + i) == views.take(f).flatten() + views[f].take(i),
{
    lemma_flatten_update(views, f, views[f]);
    lemma_offset_is_prefix_len(views, f);
    let a = views.take(f).flatten();
    let b = views.skip(f + 1).flatten();
    assert((a + views[f] + b).take(a.len() + i) =~= a + views[f].take(i));
}

impl<T, G: Growth> SplitVec<T, G> {
    /// Shortens the vector, keeping the first `len` elements and dropping the
    /// rest; nothing changes when `len` is not below the length.
    ///
    /// The fragments after the one holding position `len` are dropped, and so
    /// is that one when it is left empty.
    pub fn truncate(&mut self, len: usize)
        requires
            old(self).wf(),
        ensures
            final(self).wf(),
            final(self).spec_growth() == old(self).spec_growth(),
            final(self).spec_fragments_capacity() == old(self).spec_fragments_capacity(),
            len >= old(self)@.len() ==> *final(self) == *old(self),
            len < old(self)@.len() ==> final(self)@ == old(self)@.take(len as int),
            len < old(self)@.len() ==> final(self).caps() == old(self).caps().take(
                truncated_fragments(old(self).lens(), len as nat),
            ),
            len < old(self)@.len() ==> ({
                let t = final(self).frags().len() as int;
                let lens = old(self).lens();
                ||| (t < lens.len() && sum_lens(lens.take(t)) == len && lens[t] > 0)
                ||| (0 < t <= lens.len() && sum_lens(lens.take(t - 1)) < len < sum_lens(lens.take(t)))
            }),
    {
        let ghost s0 = *self;
        proof {
            lemma_split_vec_fields(&*self);
            s0.lemma_wf();
            if len < s0@.len() {
                crate::laws::law_truncate_keeps_fragments_up_to_len(s0.lens(), len as nat);
            }
        }
        if let Some((f, i)) = self.get_fragment_and_inner_indices(len) {
            proof {
                let (f2, i2) = choose|f2: int, i2: int| is_location(s0.lens(), f2, i2, len as int);
                crate::layout::lemma_location_unique(s0.lens(), f as int, i as int, f2, i2, len as int);
                s0.lemma_take_fragments(f as int + 1);
            }
            self.fragments.truncate(f + 1);
            let ghost mid = *self;
            proof {
                lemma_split_vec_fields(&*self);
                assert(self.frags() =~= s0.frags().take(f + 1));
            }
            self.fragments[f].truncate(i);
            self.len = len;
            proof {
                lemma_split_vec_fields(&*self);
                let fr = self.frags()[f as int];
                assert(self.frags() == mid.frags().update(f as int, fr));
                lemma_frags_update(mid.frags(), f as int, fr);
                let views = s0.fragment_views();
                assert(views[f as int].len() == s0.lens()[f as int]);
                lemma_flatten_take_at(views, f as int, i as int);
                let kept = views.take(f as int).push(views[f as int].take(i as int));
                assert(self.fragment_views() =~= kept);
                views.take(f as int).lemma_flatten_push(views[f as int].take(i as int));
                assert(self@ == s0@.take(len as int));
                assert(self.lens() =~= s0.lens().take(f as int).push(i as nat));
                assert(self.lens().drop_last() =~= s0.lens().take(f as int));
                assert(sum_lens(self.lens()) == len);
                assert(self.caps() =~= s0.caps().take(f + 1));
                assert(all_wf(self.frags())) by {
                    assert forall|k: int| 0 <= k < self.frags().len() implies #[trigger] self.frags()[k].wf() by {
                        if k != f {
                            assert(self.frags()[k] == s0.frags()[k]);
                        }
                    }
                }
            }
            let ghost before_drop = *self;
            self.drop_last_empty_fragment();
            proof {
                if i == 0 {
                    assert(self.caps() =~= s0.caps().take(f as int));
                } else {
                    assert(self.caps() =~= s0.caps().take(f + 1));
                }
            }
        }
    }

    /// Clears the vector, removing all values.
    ///
    /// All fragments but the first are dropped, and the first one is emptied.
    pub fn clear(&mut self)
        requires
            old(self).wf(),
        ensures
            final(self).wf(),
            final(self)@ == Seq::<T>::empty(),
            final(self).spec_growth() == old(self).spec_growth(),
            final(self).spec_fragments_capacity() == old(self).spec_fragments_capacity(),
            final(self).caps() == old(self).caps().take(
                if old(self).frags().len() > 0 {
                    1int
                } else {
                    0int
                },
            ),
    {
        let ghost s0 = *self;
        proof {
            lemma_split_vec_fields(&*self);
        }
        if self.fragments.len() > 0 {
            proof {
                s0.lemma_take_fragments(1);
            }
            self.fragments.truncate(1);
            let ghost mid = *self;
            proof {
                lemma_split_vec_fields(&*self);
                assert(self.frags() =~= s0.frags().take(1));
            }
            self.fragments[0].clear();
            proof {
                lemma_split_vec_fields(&*self);
                let fr = self.frags()[0];
                assert(self.frags() == mid.frags().update(0, fr));
                lemma_frags_update(mid.frags(), 0, fr);
                assert(self.caps() =~= s0.caps().take(1));
                assert(all_wf(self.frags())) by {
                    assert(self.frags()[0].wf());
                }
            }
        }
        self.len = 0;
        proof {
            lemma_split_vec_fields(&*self);
            let views = self.fragment_views();
            if views.len() == 1 {
                assert(views =~= seq![Seq::<T>::empty()]);
                views.lemma_flatten_singleton();
                assert(self.lens().drop_last() =~= Seq::<nat>::empty());
                assert(sum_lens(Seq::<nat>::empty()) == 0);
                assert(self.lens()[0] == 0);
            } else {
                assert(views =~= Seq::<Seq<T>>::empty());
                assert(self.lens() =~= Seq::<nat>::empty());
            }
            assert(sum_lens(self.lens()) == 0);
            assert(self@ =~= Seq::<T>::empty());
        }
    }
}

/// The fragment capacities and lengths after one element is pushed onto
/// fragments with capacities `caps` and lengths `lens`: the last fragment takes
/// it when it has room; otherwise a fragment of the strategy's next capacity
/// is added holding it.
pub open spec fn push_layout<G: Growth>(growth: G, caps: Seq<usize>, lens: Seq<nat>) -> (Seq<usize>, Seq<nat>) {
    if lens.len() > 0 && lens.last() < caps.last() {
        (caps, lens.update(lens.len() - 1, lens.last() + 1))
    } else {
        (caps.push(growth.spec_new_capacity(caps) as usize), lens.push(1))
    }
}

/// The fragment capacities and lengths after `n` elements are pushed one by one.
pub open spec fn pushes_layout<G: Growth>(growth: G, caps: Seq<usize>, lens: Seq<nat>, n: nat) -> (
    Seq<usize>,
    Seq<nat>,
)
    decreases n,
{
    if n == 0 {
        (caps, lens)
    } else {
        let (c, l) = pushes_layout(growth, caps, lens, (n - 1) as nat);
        push_layout(growth, c, l)
    }
}

impl<T, G: Growth> SplitVec<T, G> {
    /// A vector with room for `n >= 1` more elements can take one more.
    proof fn lemma_can_extend_push(s0: Self, n: nat)
        requires
            s0.wf(),
            s0.can_extend(n),
            n >= 1,
        ensures
            s0.can_push(),
    {
        s0.lemma_wf();
        let g = s0.spec_growth();
        let caps = s0.caps();
        let k = choose|k: nat|
            #![trigger grown_caps(g, caps, k)]
            can_grow_times(g, caps, k) && n <= s0.last_room() + sum_caps(grown_caps(g, caps, k)) - sum_caps(
                caps,
            );
        if !s0.has_room() {
            if s0.frags().len() > 0 {
                assert(s0.frags().last().wf());
                assert(s0.last_room() == 0);
            }
            assert(grown_caps(g, caps, 0) == caps);
            assert(k > 0);
            assert(g.can_grow(grown_caps(g, caps, 0)));
        }
    }

    /// After one push onto a vector with room for `n >= 1` more elements,
    /// there is room for `n - 1` more.
    proof fn lemma_can_extend_after_push(s0: Self, s1: Self, n: nat)
        requires
            s0.wf(),
            s0.can_extend(n),
            n >= 1,
            s1.spec_growth() == s0.spec_growth(),
            s0.has_room() ==> s1.caps() == s0.caps() && s1.lens() == s0.lens().update(
                s0.lens().len() - 1,
                s0.lens().last() + 1,
            ),
            !s0.has_room() ==> s1.caps() == s0.caps().push(
                s0.spec_growth().spec_new_capacity(s0.caps()) as usize,
            ) && s1.lens() == s0.lens().push(1),
        ensures
            s1.can_extend((n - 1) as nat),
    {
        s0.lemma_wf();
        let g = s0.spec_growth();
        let caps = s0.caps();
        let k = choose|k: nat|
            #![trigger grown_caps(g, caps, k)]
            can_grow_times(g, caps, k) && n <= s0.last_room() + sum_caps(grown_caps(g, caps, k)) - sum_caps(
                caps,
            );
        if s0.has_room() {
            assert(s1.last_room() + 1 == s0.last_room());
            assert(can_grow_times(g, s1.caps(), k) && (n - 1) as nat <= s1.last_room() + sum_caps(
                grown_caps(g, s1.caps(), k),
            ) - sum_caps(s1.caps()));
        } else {
            if s0.frags().len() > 0 {
                assert(s0.frags().last().wf());
                assert(s0.last_room() == 0);
            }
            assert(grown_caps(g, caps, 0) == caps);
            assert(k > 0);
            assert(g.can_grow(grown_caps(g, caps, 0)));
            g.lemma_grow(caps);
            let c = g.spec_new_capacity(caps);
            let k1 = (k - 1) as nat;
            crate::growth::lemma_grown_caps_step(g, caps, k1);
            assert forall|j: nat| j < k1 implies g.can_grow(#[trigger] grown_caps(g, s1.caps(), j)) by {
                crate::growth::lemma_grown_caps_step(g, caps, j);
                assert(g.can_grow(grown_caps(g, caps, j + 1)));
            }
            assert(s1.caps().drop_last() =~= caps);
            assert(sum_caps(s1.caps()) == sum_caps(caps) + c);
            assert(s1.last_room() == c - 1);
            assert(can_grow_times(g, s1.caps(), k1) && (n - 1) as nat <= s1.last_room() + sum_caps(
                grown_caps(g, s1.caps(), k1),
            ) - sum_caps(s1.caps()));
        }
    }

    /// Clones and appends all elements in a slice to the vector, in order.
    ///
    /// The last fragment is filled first; then the growth strategy adds
    /// fragments as they are needed, exactly as pushing the clones one by one
    /// would. No element already in the vector moves.
    pub fn extend_from_slice(&mut self, other: &[T])
        where
            T: Clone,
        requires
            old(self).wf(),
            old(self).can_extend(other@.len()),
        ensures
            final(self).wf(),
            final(self).spec_growth() == old(self).spec_growth(),
            final(self)@.len() == old(self)@.len() + other@.len(),
            final(self)@.take(old(self)@.len() as int) == old(self)@,
            forall|i: int|
                0 <= i < other@.len() ==> cloned::<T>(other@[i], #[trigger] final(self)@[old(self)@.len() + i]),
            Self::keeps_pinned(*old(self), *final(self)),
            final(self).spec_fragments_capacity() >= old(self).spec_fragments_capacity(),
            (final(self).caps(), final(self).lens()) == pushes_layout(
                old(self).spec_growth(),
                old(self).caps(),
                old(self).lens(),
                other@.len(),
            ),
    {
        let ghost s0 = *self;
        let mut k: usize = 0;
        proof {
            assert(s0@.take(s0@.len() as int) =~= s0@);
        }
        while k < other.len()
            invariant
                self.wf(),
                self.spec_growth() == s0.spec_growth(),
                k <= other@.len(),
                self.can_extend((other@.len() - k) as nat),
                self@.len() == s0@.len() + k,
                self@.take(s0@.len() as int) == s0@,
                forall|i: int| 0 <= i < k ==> cloned::<T>(other@[i], #[trigger] self@[s0@.len() + i]),
                Self::keeps_pinned(s0, *self),
                self.spec_fragments_capacity() >= s0.spec_fragments_capacity(),
                (self.caps(), self.lens()) == pushes_layout(s0.spec_growth(), s0.caps(), s0.lens(), k as nat),
            decreases other@.len() - k,
        {
            let x = other[k].clone();
            let ghost before = *self;
            proof {
                Self::lemma_can_extend_push(before, (other@.len() - k) as nat);
            }
            self.push(x);
            proof {
                Self::lemma_can_extend_after_push(before, *self, (other@.len() - k) as nat);
                Self::lemma_keeps_pinned_trans(s0, before, *self);
                before.lemma_wf();
                if before.frags().len() > 0 {
                    assert(before.lens().last() == before.frags().last()@.len());
                    assert(before.caps().last() == before.frags().last().cap());
                }
                assert((self.caps(), self.lens()) == push_layout(s0.spec_growth(), before.caps(), before.lens()));
                assert(self@.take(s0@.len() as int) =~= before@.take(s0@.len() as int));
                assert(self@[s0@.len() + k] == x);
                assert(cloned::<T>(other@[k as int], x));
                assert forall|i: int| 0 <= i < k + 1 implies cloned::<T>(
                    other@[i],
                    #[trigger] self@[s0@.len() + i],
                ) by {
                    if i < k {
                        assert(self@[s0@.len() + i] == before@[s0@.len() + i]);
                    }
                }
            }
            k += 1;
        }
    }
}

} // verus!

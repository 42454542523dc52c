//! Adding and removing single elements: push, pop, insert and remove.
use crate::fragment::{
    caps_of, lemma_frags_push, lemma_frags_remove, lemma_frags_take, lemma_frags_update,
    lens_of_fragments, views_of, Fragment,
};
use crate::growth::Growth;
use crate::layout::{
    fits, fragments_after_pop, full_prefix, last_nonempty, lemma_last_nonempty, lemma_fits_sum, lemma_flatten_update, lemma_sum_lens_update, lens_of,
    sum_caps, sum_lens,
};
use crate::split_vec::{grown_fragments_capacity, lemma_split_vec_fields, SplitVec};
use vstd::prelude::*;

verus! {

broadcast use lemma_split_vec_fields;

impl<T, G: Growth> SplitVec<T, G> {
    /// Adds a new fragment, with the capacity the growth strategy decides, that
    /// holds `first_value`.
    pub(crate) fn add_fragment_with_first_value(&mut self, first_value: T)
        requires
            old(self).wf(),
            !old(self).has_room(),
            old(self).spec_growth().can_grow(old(self).caps()),
        ensures
            final(self).wf(),
            final(self)@ == old(self)@.push(first_value),
            final(self).spec_growth() == old(self).spec_growth(),
            Self::keeps_pinned(*old(self), *final(self)),
            final(self).caps() == old(self).caps().push(
                old(self).spec_growth().spec_new_capacity(old(self).caps()) as usize,
            ),
            final(self).spec_fragments_capacity() == grown_fragments_capacity(
                old(self).spec_fragments_capacity(),
                old(self).frags().len(),
            ),
            final(self).lens() == old(self).lens().push(1),
    {
        proof {
            self.lemma_wf();
            self.spec_growth().lemma_grow(self.caps());
        }
        let capacity = self.growth.new_fragment_capacity(self.fragments.as_slice());
        let fragment = Fragment::new_with_first_value(capacity, first_value);
        let ghost old_self = *self;
        self.push_fragment(fragment);
        proof {
            lemma_split_vec_fields(&*self);
            let fs = old_self.frags();
            assert(self.frags() == fs.push(fragment));
            lemma_frags_push(fs, fragment);
            assert(self.lens() == old_self.lens().push(1));
            old_self.fragment_views().lemma_flatten_push(fragment@);
            let n = fs.len();
            if n > 0 {
                assert(old_self.lens()[n - 1] == old_self.caps()[n - 1]) by {
                    assert(fs[n - 1].wf());
                }
            }
            assert(self.lens().drop_last() =~= old_self.lens());
            assert(full_prefix(self.caps(), self.lens()) || !self.spec_growth().keeps_full_prefix());
            assert(crate::fragment::all_wf(self.frags())) by {
                assert forall|k: int| 0 <= k < self.frags().len() implies #[trigger] self.frags()[k].wf() by {
                    if k < n {
                        assert(self.frags()[k] == fs[k]);
                    }
                }
            }
            self.lemma_lens_fit_caps();
            lemma_fits_sum(self.caps(), self.lens());
            assert(self.caps().drop_last() =~= old_self.caps());
            assert(sum_caps(self.caps()) <= usize::MAX);
            assert(sum_lens(self.lens()) == old_self.spec_len() + 1);
            lemma_split_vec_fields(&old_self);
            assert(self.len == old_self.spec_len());
        }
        self.len = self.len + 1;
        proof {
            lemma_split_vec_fields(&*self);
        }
    }

    /// Adds a new empty fragment, with the capacity the growth strategy
    /// decides; returns the capacity of the new fragment.
    pub(crate) fn add_fragment(&mut self) -> (c: usize)
        requires
            old(self).wf(),
            !old(self).has_room(),
            old(self).spec_growth().can_grow(old(self).caps()),
        ensures
            final(self).wf(),
            final(self)@ == old(self)@,
            final(self).spec_growth() == old(self).spec_growth(),
            Self::keeps_pinned(*old(self), *final(self)),
            c == old(self).spec_growth().spec_new_capacity(old(self).caps()),
            final(self).caps() == old(self).caps().push(c),
            final(self).lens() == old(self).lens().push(0),
            final(self).has_room(),
            final(self).spec_fragments_capacity() == grown_fragments_capacity(
                old(self).spec_fragments_capacity(),
                old(self).frags().len(),
            ),
    {
        proof {
            self.lemma_wf();
            self.spec_growth().lemma_grow(self.caps());
        }
        let capacity = self.growth.new_fragment_capacity(self.fragments.as_slice());
        let fragment = Fragment::new_empty(capacity);
        let ghost old_self = *self;
        self.push_fragment(fragment);
        proof {
            lemma_split_vec_fields(&*self);
            let fs = old_self.frags();
            lemma_frags_push(fs, fragment);
            old_self.fragment_views().lemma_flatten_push(fragment@);
            assert(old_self@ + Seq::<T>::empty() =~= old_self@);
            let n = fs.len();
            if n > 0 {
                assert(old_self.lens()[n - 1] == old_self.caps()[n - 1]) by {
                    assert(fs[n - 1].wf());
                }
            }
            assert(self.lens().drop_last() =~= old_self.lens());
            assert(crate::fragment::all_wf(self.frags())) by {
                assert forall|k: int| 0 <= k < self.frags().len() implies #[trigger] self.frags()[k].wf() by {
                    if k < n {
                        assert(self.frags()[k] == fs[k]);
                    }
                }
            }
        }
        capacity
    }

    /// Appends an element to the back of the vector.
    ///
    /// If the last fragment has room, the element is placed there; otherwise a
    /// new fragment is added with the capacity the growth strategy decides.
    /// No element already in the vector moves.
    pub fn push(&mut self, value: T)
        requires
            old(self).wf(),
            old(self).can_push(),
        ensures
            final(self).wf(),
            final(self)@ == old(self)@.push(value),
            final(self).spec_growth() == old(self).spec_growth(),
            Self::keeps_pinned(*old(self), *final(self)),
            final(self).spec_fragments_capacity() >= old(self).spec_fragments_capacity(),
            old(self).has_room() ==> final(self).caps() == old(self).caps(),
            !old(self).has_room() ==> final(self).caps() == old(self).caps().push(
                old(self).spec_growth().spec_new_capacity(old(self).caps()) as usize,
            ),
            old(self).has_room() ==> final(self).lens() == old(self).lens().update(
                old(self).lens().len() - 1,
                old(self).lens().last() + 1,
            ),
            !old(self).has_room() ==> final(self).lens() == old(self).lens().push(1),
            old(self).has_room() ==> final(self).spec_fragments_capacity() == old(self).spec_fragments_capacity(),
            !old(self).has_room() ==> final(self).spec_fragments_capacity() == grown_fragments_capacity(
                old(self).spec_fragments_capacity(),
                old(self).frags().len(),
            ),
            !old(self).has_room() && old(self).frags().len() < old(self).spec_fragments_capacity()
                ==> final(self).spec_fragments_capacity() == old(self).spec_fragments_capacity(),
            !old(self).has_room() && old(self).frags().len() == old(self).spec_fragments_capacity() && 2
                * old(self).spec_fragments_capacity() <= usize::MAX ==> final(self).spec_fragments_capacity()
                == if old(self).spec_fragments_capacity() < 2 {
                4
            } else {
                2 * old(self).spec_fragments_capacity()
            },
    {
        proof {
            self.lemma_wf();
        }
        if self.has_capacity_for_one() {
            let ghost old_self = *self;
            let f = self.fragments.len() - 1;
            self.fragments[f].push(value);
            proof {
                lemma_split_vec_fields(&*self);
                let fs = old_self.frags();
                let fr = self.frags()[f as int];
                assert(self.frags() == fs.update(f as int, fr));
                assert(fr@ == fs[f as int]@.push(value));
                lemma_frags_update(fs, f as int, fr);
                let views = old_self.fragment_views();
                lemma_flatten_update(views, f as int, fr@);
                assert(views.skip(f + 1) =~= Seq::<Seq<T>>::empty());
                assert(views.skip(f + 1).flatten() =~= Seq::<T>::empty());
                assert(self@ =~= old_self@.push(value));
                lemma_sum_lens_update(old_self.lens(), f as int, fr@.len());
                assert(self.lens() == old_self.lens().update(f as int, fr@.len()));
                assert(sum_lens(self.lens()) == sum_lens(old_self.lens()) + 1);
                assert(self.caps() =~= old_self.caps());
                assert(crate::fragment::all_wf(self.frags())) by {
                    assert forall|k: int| 0 <= k < self.frags().len() implies #[trigger] self.frags()[k].wf() by {
                        if k != f {
                            assert(self.frags()[k] == fs[k]);
                        }
                    }
                }
                self.lemma_lens_fit_caps();
                lemma_fits_sum(self.caps(), self.lens());
                old_self.lemma_wf();
            }
            self.len = self.len + 1;
            proof {
                lemma_split_vec_fields(&*self);
            }
        } else {
            self.add_fragment_with_first_value(value);
        }
    }

    /// The lengths of well-formed fragments fit their capacities.
    pub(crate) proof fn lemma_lens_fit_caps(&self)
        requires
            crate::fragment::all_wf(self.frags()),
        ensures
            fits(self.caps(), self.lens()),
    {
        assert forall|k: int| 0 <= k < self.lens().len() implies #[trigger] self.lens()[k]
            <= self.caps()[k] by {
            assert(self.frags()[k].wf());
        }
    }
}

impl<T, G: Growth> SplitVec<T, G> {
    /// Drops the empty fragments at the end of the vector, as long as some
    /// element remains before them.
    fn drop_trailing_empty_fragments(&mut self)
        requires
            old(self).wf(),
            old(self)@.len() > 0,
        ensures
            final(self).wf(),
            final(self)@ == old(self)@,
            final(self).spec_growth() == old(self).spec_growth(),
            final(self).spec_fragments_capacity() == old(self).spec_fragments_capacity(),
            final(self).frags() == old(self).frags().take(last_nonempty(old(self).lens()) + 1),
            final(self).frags().len() == last_nonempty(old(self).lens()) + 1,
            final(self).frags().len() > 0,
            final(self).frags().last()@.len() > 0,
    {
        let ghost old_self = *self;
        let ghost m = last_nonempty(old_self.lens());
        proof {
            lemma_split_vec_fields(&*self);
            self.lemma_wf();
            lemma_last_nonempty(old_self.lens());
            assert(old_self.frags().take(old_self.frags().len() as int) =~= old_self.frags());
        }
        while self.fragments[self.fragments.len() - 1].is_empty()
            invariant
                self.wf(),
                self@ == old_self@,
                m == last_nonempty(old_self.lens()),
                0 <= m < self.frags().len() <= old_self.frags().len(),
                forall|k: int| m < k < old_self.lens().len() ==> #[trigger] old_self.lens()[k] == 0,
                old_self.lens()[m] > 0,
                self.spec_growth() == old_self.spec_growth(),
                self.spec_fragments_capacity() == old_self.spec_fragments_capacity(),
                self.frags() == old_self.frags().take(self.frags().len() as int),
                self.frags() == self.fragments@,
                self.spec_len() == self.len,
            decreases self.frags().len(),
        {
            let ghost before = *self;
            let ghost n = before.frags().len();
            proof {
                assert(before.frags()[n - 1] == old_self.frags()[n - 1]);
                if n - 1 == m {
                    assert(before.frags()[m]@.len() == old_self.lens()[m]);
                }
            }
            let _ = self.fragments.pop();
            proof {
                lemma_split_vec_fields(&*self);
                before.lemma_take_fragments(n - 1);
                assert(self.frags() =~= before.frags().take(n - 1));
                assert(before.fragment_views() =~= self.fragment_views().push(Seq::<T>::empty())) by {
                    assert(before.fragment_views()[n - 1] =~= Seq::<T>::empty());
                }
                self.fragment_views().lemma_flatten_push(Seq::<T>::empty());
                assert(self@ =~= before@);
                assert(before.lens() =~= self.lens().push(0));
                assert(sum_lens(self.lens()) == sum_lens(before.lens()));
                assert(self.frags() =~= old_self.frags().take(self.frags().len() as int));
            }
        }
        proof {
            let n = self.frags().len();
            assert(self.frags()[n - 1] == old_self.frags()[n - 1]);
            if n - 1 > m {
                assert(old_self.lens()[n - 1] == 0);
            }
        }
    }

    /// Removes the last element from the vector and returns it, or `None` if
    /// the vector is empty.
    ///
    /// An empty last fragment is dropped before the element is taken from the
    /// fragment before it; a last fragment that the pop leaves empty is dropped
    /// unless it is the first one, so that the vector keeps a fragment.
    pub fn pop(&mut self) -> (r: Option<T>)
        requires
            old(self).wf(),
        ensures
            final(self).wf(),
            final(self).spec_growth() == old(self).spec_growth(),
            final(self).spec_fragments_capacity() == old(self).spec_fragments_capacity(),
            old(self)@.len() == 0 ==> r is None && *final(self) == *old(self),
            old(self)@.len() > 0 ==> r == Some(old(self)@.last()) && final(self)@ == old(self)@.drop_last(),
            old(self)@.len() > 0 ==> final(self).caps() == old(self).caps().take(
                fragments_after_pop(old(self).lens()),
            ),
            old(self).frags().len() > 0 ==> final(self).frags().len() > 0,
            old(self).frags().len() > 1 && old(self).lens().last() == 1 ==> final(self).caps()
                == old(self).caps().drop_last(),
            old(self).frags().len() > 0 && old(self).lens().last() > 1 ==> final(self).caps() == old(
                self,
            ).caps(),
    {
        proof {
            lemma_split_vec_fields(&*self);
            self.lemma_wf();
            if self.frags().len() > 0 && self.lens().last() > 0 {
                crate::laws::law_pop_drops_emptied_fragment(self.lens());
                assert(self.caps().take(self.frags().len() - 1) =~= self.caps().drop_last());
                assert(self.caps().take(self.frags().len() as int) =~= self.caps());
            }
        }
        if self.len == 0 {
            return None;
        }
        let ghost old_self = *self;
        proof {
            lemma_last_nonempty(old_self.lens());
        }
        let last_was_empty = self.fragments[self.fragments.len() - 1].is_empty();
        self.drop_trailing_empty_fragments();
        let ghost mid = *self;
        proof {
            lemma_split_vec_fields(&*self);
            lemma_frags_take(old_self.frags(), self.frags().len() as int);
            if !last_was_empty {
                assert(mid.frags().len() == old_self.frags().len());
            }
        }
        let mut last = self.fragments.pop().unwrap();
        let popped = last.pop();
        let ghost n = mid.frags().len();
        let ghost init = mid.frags().drop_last();
        if !last_was_empty && last.is_empty() && self.fragments.len() > 0 {
            proof {
                lemma_split_vec_fields(&*self);
                mid.lemma_take_fragments(n - 1);
                assert(self.frags() =~= mid.frags().take(n - 1));
                assert(mid.fragment_views() =~= views_of(init).push(mid.frags().last()@));
                views_of(init).lemma_flatten_push(mid.frags().last()@);
                assert(mid.frags().last()@ =~= seq![popped->0]);
                assert(mid.lens() =~= lens_of_fragments(init).push(1));
                assert(self@ =~= mid@.drop_last());
                assert(self.caps() =~= old_self.caps().take(n - 1));
            }
        } else {
            self.fragments.push(last);
            proof {
                lemma_split_vec_fields(&*self);
                assert(self.frags() =~= mid.frags().update(n - 1, last));
                lemma_frags_update(mid.frags(), n - 1, last);
                let views = mid.fragment_views();
                lemma_flatten_update(views, n - 1, last@);
                assert(views.skip(n as int) =~= Seq::<Seq<T>>::empty());
                assert(views.skip(n as int).flatten() =~= Seq::<T>::empty());
                assert(self@ =~= mid@.drop_last());
                lemma_sum_lens_update(mid.lens(), n - 1, last@.len());
                assert(crate::fragment::all_wf(self.frags())) by {
                    assert forall|k: int| 0 <= k < self.frags().len() implies #[trigger] self.frags()[k].wf() by {
                        if k != n - 1 {
                            assert(self.frags()[k] == mid.frags()[k]);
                        }
                    }
                }
                assert(self.caps() =~= mid.caps());
                if !last_was_empty && n > 1 {
                    assert(old_self.lens()[n - 1] != 1);
                }
            }
        }
        self.len = self.len - 1;
        proof {
            lemma_split_vec_fields(&*self);
        }
        popped
    }
}

} // verus!

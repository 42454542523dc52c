//! Inserting and removing elements in the middle of a split vector, which
//! shifts the later elements across fragment boundaries.
use crate::fragment::{all_wf, lemma_frags_remove, lemma_frags_update, Fragment};
use crate::growth::Growth;
use crate::layout::{
    full_prefix, lemma_carry_end, lemma_carry_start, lemma_carry_step, lemma_flatten_index,
    lemma_flatten_remove_empty, lemma_insert_in_fragment, lemma_move_front, lemma_remove_in_fragment,
    lemma_sum_lens_remove, lemma_sum_lens_update, lemma_update_in_fragment, lens_of, offset, sum_lens,
    with_carry,
};
use crate::split_vec::{lemma_split_vec_fields, SplitVec};
use vstd::prelude::*;

verus! {

broadcast use lemma_split_vec_fields;

impl<T, G: Growth> SplitVec<T, G> {
    /// A vector that differs from a well-formed one only by one more element
    /// in a fragment that had room is well-formed.
    proof fn lemma_one_more_in(s0: Self, mid: Self, fin: Self, g: int)
        requires
            s0.wf(),
            mid.caps() == s0.caps(),
            mid.lens() == s0.lens(),
            all_wf(mid.frags()),
            0 <= g < mid.frags().len(),
            mid.lens()[g] < mid.caps()[g],
            fin.frags() == mid.frags().update(g, fin.frags()[g]),
            fin.frags()[g].cap() == mid.frags()[g].cap(),
            fin.frags()[g]@.len() == mid.frags()[g]@.len() + 1,
            fin.spec_growth() == s0.spec_growth(),
            fin.spec_fragments_capacity() == s0.spec_fragments_capacity(),
        ensures
            fin.spec_len() == s0.spec_len() + 1 ==> fin.wf(),
            s0.spec_len() + 1 <= usize::MAX,
            fin.lens() == s0.lens().update(g, s0.lens()[g] + 1),
            fin.caps() == s0.caps(),
    {
        let fr = fin.frags()[g];
        lemma_frags_update(mid.frags(), g, fr);
        assert(fin.caps() =~= s0.caps());
        lemma_sum_lens_update(s0.lens(), g, s0.lens()[g] + 1);
        assert(all_wf(fin.frags())) by {
            assert forall|k: int| 0 <= k < fin.frags().len() implies #[trigger] fin.frags()[k].wf() by {
                if k != g {
                    assert(fin.frags()[k] == mid.frags()[k]);
                }
            }
        }
        if s0.spec_growth().keeps_full_prefix() {
            let n = s0.frags().len() as int;
            if g < n - 1 {
                assert(s0.lens()[g] == s0.caps()[g]);
            }
            assert(full_prefix(fin.caps(), fin.lens()));
        }
        s0.lemma_wf();
        fin.lemma_lens_fit_caps();
        crate::layout::lemma_fits_sum(fin.caps(), fin.lens());
    }

    /// When every fragment but the last is full, the element an insertion
    /// shifts lands in the last fragment: its length grows by one, or a new
    /// last fragment holds it.
    proof fn lemma_insert_lens(old_v: Self, s0: Self, fin: Self, g: int)
        requires
            old_v.wf(),
            full_prefix(old_v.caps(), old_v.lens()),
            old_v.has_room() ==> s0.caps() == old_v.caps() && s0.lens() == old_v.lens(),
            !old_v.has_room() ==> s0.caps().drop_last() == old_v.caps() && s0.lens() == old_v.lens().push(0)
                && s0.caps().len() == old_v.caps().len() + 1,
            0 <= g < s0.lens().len(),
            s0.lens()[g] < s0.caps()[g],
            fin.lens() == s0.lens().update(g, s0.lens()[g] + 1),
        ensures
            old_v.has_room() ==> fin.lens() == old_v.lens().update(
                old_v.lens().len() - 1,
                old_v.lens().last() + 1,
            ),
            !old_v.has_room() ==> fin.lens() == old_v.lens().push(1),
    {
        old_v.lemma_wf();
        let n = old_v.lens().len();
        if old_v.has_room() {
            if g < n - 1 {
                assert(old_v.lens()[g] == old_v.caps()[g]);
            }
        } else {
            if g < n {
                if g < n - 1 {
                    assert(old_v.lens()[g] == old_v.caps()[g]);
                } else {
                    assert(old_v.frags()[g].wf());
                    assert(old_v.lens()[g] == old_v.caps()[g]);
                }
                assert(s0.caps()[g] == old_v.caps()[g]);
            }
            assert(fin.lens() =~= old_v.lens().push(1));
        }
    }

    /// Inserts an element at position `index` within the vector, shifting all
    /// elements after it to the right.
    ///
    /// When the fragment holding position `index` is full, its last element
    /// moves to the front of the next fragment, and so on until a fragment
    /// with room is reached; a new last fragment is added first when the last
    /// fragment is full.
    pub fn insert(&mut self, index: usize, value: T)
        requires
            old(self).wf(),
            index <= old(self)@.len(),
            old(self).can_push(),
        ensures
            final(self).wf(),
            final(self)@ == old(self)@.insert(index as int, value),
            final(self).spec_growth() == old(self).spec_growth(),
            final(self).spec_fragments_capacity() >= old(self).spec_fragments_capacity(),
            old(self).has_room() ==> final(self).caps() == old(self).caps(),
            !old(self).has_room() ==> final(self).caps() == old(self).caps().push(
                old(self).spec_growth().spec_new_capacity(old(self).caps()) as usize,
            ),
            full_prefix(old(self).caps(), old(self).lens()) && old(self).has_room() ==> final(self).lens()
                == old(self).lens().update(old(self).lens().len() - 1, old(self).lens().last() + 1),
            full_prefix(old(self).caps(), old(self).lens()) && !old(self).has_room() ==> final(self).lens()
                == old(self).lens().push(1),
    {
        proof {
            self.lemma_wf();
        }
        if index == self.len {
            proof {
                assert(old(self)@.insert(index as int, value) =~= old(self)@.push(value));
            }
            self.push(value);
            return;
        }
        if !self.has_capacity_for_one() {
            self.add_fragment();
        }
        let ghost s0 = *self;
        let ghost ov = *old(self);
        let ghost target = s0@.insert(index as int, value);
        let ghost n = s0.frags().len() as int;
        proof {
            lemma_split_vec_fields(&*self);
            s0.lemma_wf();
            if !ov.has_room() {
                assert(s0.caps().drop_last() =~= ov.caps());
            }
        }
        let loc = self.get_fragment_and_inner_indices(index);
        let (f, i) = loc.unwrap();
        proof {
            lemma_split_vec_fields(&*self);
            assert(offset(s0.lens(), f as int) + i == index);
            assert(s0.fragment_views()[f as int].len() == s0.lens()[f as int]);
        }
        if self.fragments[f].has_capacity_for_one() {
            let ghost before = *self;
            self.fragments[f].insert(i, value);
            proof {
                lemma_split_vec_fields(&*self);
                let fr = self.frags()[f as int];
                assert(self.frags() == before.frags().update(f as int, fr));
                lemma_frags_update(before.frags(), f as int, fr);
                lemma_insert_in_fragment(before.fragment_views(), f as int, i as int, value);
                assert(self@ == target);
                Self::lemma_one_more_in(s0, before, *self, f as int);
            }
            self.len = self.len + 1;
            proof {
                lemma_split_vec_fields(&*self);
                Self::lemma_one_more_in(s0, before, *self, f as int);
                if full_prefix(old(self).caps(), old(self).lens()) {
                    Self::lemma_insert_lens(*old(self), s0, *self, f as int);
                }
            }
        } else {
            let ghost before = *self;
            let popped0 = self.fragments[f].pop();
            let mut popped = popped0.unwrap();
            self.fragments[f].insert(i, value);
            proof {
                lemma_split_vec_fields(&*self);
                let fr = self.frags()[f as int];
                assert(self.frags() == before.frags().update(f as int, fr));
                lemma_frags_update(before.frags(), f as int, fr);
                lemma_carry_start(before.fragment_views(), f as int, i as int, value);
                assert(self.lens() =~= s0.lens());
                assert(self.caps() =~= s0.caps());
                assert(all_wf(self.frags())) by {
                    assert forall|k: int| 0 <= k < self.frags().len() implies #[trigger] self.frags()[k].wf() by {
                        if k != f {
                            assert(self.frags()[k] == before.frags()[k]);
                        }
                    }
                }
                assert(s0.frags()[n - 1]@.len() < s0.frags()[n - 1].cap());
                assert(f < n - 1);
            }
            let mut g = f + 1;
            while !self.fragments[g].has_capacity_for_one()
                invariant
                    s0.wf(),
                    n == s0.frags().len(),
                    self.frags().len() == n,
                    self.frags() == self.fragments@,
                    f < g < n,
                    self.caps() == s0.caps(),
                    self.lens() == s0.lens(),
                    all_wf(self.frags()),
                    forall|k: int| g <= k < n ==> #[trigger] self.frags()[k] == s0.frags()[k],
                    s0.frags()[n - 1]@.len() < s0.frags()[n - 1].cap(),
                    with_carry(self.fragment_views(), g as int, popped) == target,
                    self.spec_growth() == s0.spec_growth(),
                    self.spec_len() == s0.spec_len(),
                    self.spec_fragments_capacity() == s0.spec_fragments_capacity(),
                    ov == *old(self),
                    ov.has_room() ==> s0.caps() == ov.caps() && s0.lens() == ov.lens(),
                    !ov.has_room() ==> s0.caps().drop_last() == ov.caps() && s0.lens() == ov.lens().push(0)
                        && s0.caps().len() == ov.caps().len() + 1,
                decreases n - g,
            {
                let ghost before_g = *self;
                proof {
                    lemma_split_vec_fields(&*self);
                    s0.spec_growth().lemma_caps_positive(s0.caps(), g as int);
                    assert(self.frags()[g as int].wf());
                    assert(g < n - 1);
                }
                let new_popped = self.fragments[g].pop().unwrap();
                self.fragments[g].insert(0, popped);
                proof {
                    lemma_split_vec_fields(&*self);
                    let fr = self.frags()[g as int];
                    assert(self.frags() == before_g.frags().update(g as int, fr));
                    lemma_frags_update(before_g.frags(), g as int, fr);
                    lemma_carry_step(before_g.fragment_views(), g as int, popped);
                    assert(self.lens() =~= s0.lens());
                    assert(self.caps() =~= s0.caps());
                    assert(all_wf(self.frags())) by {
                        assert forall|k: int| 0 <= k < self.frags().len() implies #[trigger] self.frags()[k].wf() by {
                            if k != g {
                                assert(self.frags()[k] == before_g.frags()[k]);
                            }
                        }
                    }
                    assert forall|k: int| g + 1 <= k < n implies #[trigger] self.frags()[k] == s0.frags()[k] by {
                        assert(self.frags()[k] == before_g.frags()[k]);
                    }
                }
                popped = new_popped;
                g = g + 1;
            }
            let ghost before_end = *self;
            proof {
                lemma_split_vec_fields(&*self);
            }
            self.fragments[g].insert(0, popped);
            proof {
                lemma_split_vec_fields(&*self);
                let fr = self.frags()[g as int];
                assert(self.frags() == before_end.frags().update(g as int, fr));
                lemma_frags_update(before_end.frags(), g as int, fr);
                lemma_carry_end(before_end.fragment_views(), g as int, popped);
                assert(self@ == target);
                Self::lemma_one_more_in(s0, before_end, *self, g as int);
            }
            self.len = self.len + 1;
            proof {
                lemma_split_vec_fields(&*self);
                Self::lemma_one_more_in(s0, before_end, *self, g as int);
                if full_prefix(old(self).caps(), old(self).lens()) {
                    Self::lemma_insert_lens(*old(self), s0, *self, g as int);
                }
            }
        }
    }
}

impl<T, G: Growth> SplitVec<T, G> {
    /// The layout of a split vector with one place missing in fragment `h`:
    /// the state while the elements after a removed one move left.
    spec fn hole_at(&self, h: int) -> bool {
        &&& self.spec_growth().wf_growth()
        &&& all_wf(self.frags())
        &&& self.spec_growth().valid_caps(self.caps())
        &&& self.frags().len() <= self.spec_fragments_capacity()
        &&& 0 <= h < self.frags().len()
        &&& self.lens()[h] < self.caps()[h]
        &&& (self.spec_growth().keeps_full_prefix() ==> {
            &&& forall|k: int|
                0 <= k < self.frags().len() - 1 && k != h ==> #[trigger] self.lens()[k] == self.caps()[k]
            &&& h < self.frags().len() - 1 ==> self.lens()[h] + 1 == self.caps()[h]
        })
    }

    /// Dropping an empty fragment `g` after the first keeps the elements and
    /// the layout, when the missing place `h` is in that fragment or the
    /// fragment is the last one.
    proof fn lemma_drop_empty(before: Self, after: Self, g: int, h: int)
        requires
            before.spec_growth().wf_growth(),
            all_wf(before.frags()),
            before.spec_growth().valid_caps(before.caps()),
            before.frags().len() <= before.spec_fragments_capacity(),
            0 < g < before.frags().len(),
            before.lens()[g] == 0,
            before.spec_growth().keeps_full_prefix() ==> {
                &&& h == g || (g == before.frags().len() - 1 && h == g - 1)
                &&& g == before.frags().len() - 1 || before.caps()[g] < 2
                &&& forall|k: int|
                    0 <= k < before.frags().len() - 1 && k != h ==> #[trigger] before.lens()[k]
                        == before.caps()[k]
            },
            after.frags() == before.frags().remove(g),
            after.spec_growth() == before.spec_growth(),
            after.spec_fragments_capacity() == before.spec_fragments_capacity(),
        ensures
            after.wf_layout(),
            after@ == before@,
            sum_lens(after.lens()) == sum_lens(before.lens()),
    {
        lemma_split_vec_fields(&before);
        lemma_split_vec_fields(&after);
        let fs = before.frags();
        let n = fs.len() as int;
        lemma_frags_remove(fs, g);
        assert(before.fragment_views()[g].len() == 0);
        lemma_flatten_remove_empty(before.fragment_views(), g);
        lemma_sum_lens_remove(before.lens(), g);
        if before.spec_growth().keeps_full_prefix() && g == n - 1 {
            assert(before.caps().remove(g) =~= before.caps().take(g));
            before.spec_growth().lemma_valid_prefix(before.caps(), g);
        } else {
            before.spec_growth().lemma_valid_remove(before.caps(), g);
        }
        assert(all_wf(after.frags())) by {
            assert forall|k: int| 0 <= k < after.frags().len() implies #[trigger] after.frags()[k].wf() by {
                if k < g {
                    assert(after.frags()[k] == fs[k]);
                } else {
                    assert(after.frags()[k] == fs[k + 1]);
                }
            }
        }
        if before.spec_growth().keeps_full_prefix() {
            assert(after.lens().len() == n - 1);
            assert forall|k: int| 0 <= k < after.lens().len() - 1 implies #[trigger] after.lens()[k]
                == after.caps()[k] by {
                if k < g {
                    assert(k != h);
                    assert(before.lens()[k] == before.caps()[k]);
                } else {
                    assert(before.lens()[k + 1] == before.caps()[k + 1]);
                }
            }
        }
    }

    /// Moves the elements after the missing place in fragment `h` one place to
    /// the left, across fragment boundaries, until a fragment is left empty
    /// (it is dropped) or the last fragment is reached.
    fn shift_left(&mut self, h: usize)
        requires
            old(self).hole_at(h as int),
        ensures
            final(self).wf_layout(),
            final(self)@ == old(self)@,
            final(self).spec_len() == old(self).spec_len(),
            sum_lens(final(self).lens()) == sum_lens(old(self).lens()),
            final(self).spec_growth() == old(self).spec_growth(),
            final(self).spec_fragments_capacity() == old(self).spec_fragments_capacity(),
    {
        let ghost s = *self;
        proof {
            lemma_split_vec_fields(&*self);
        }
        let n = self.fragments.len();
        let mut g = h + 1;
        while g < n
            invariant
                s == *old(self),
                self.frags() == self.fragments@,
                n == self.frags().len(),
                h < g <= n,
                self.hole_at(g - 1),
                self@ == s@,
                self.spec_len() == s.spec_len(),
                sum_lens(self.lens()) == sum_lens(s.lens()),
                self.spec_growth() == s.spec_growth(),
                self.spec_fragments_capacity() == s.spec_fragments_capacity(),
            decreases n - g,
        {
            proof {
                lemma_split_vec_fields(&*self);
                assert(self.frags()[g as int].wf());
            }
            if self.fragments[g].is_empty() {
                let ghost before = *self;
                proof {
                    if g < n - 1 {
                        self.spec_growth().lemma_caps_positive(self.caps(), g as int);
                        if self.spec_growth().keeps_full_prefix() {
                            assert(self.lens()[g as int] == self.caps()[g as int]);
                        }
                    }
                }
                let _ = self.fragments.remove(g);
                proof {
                    lemma_split_vec_fields(&*self);
                    lemma_split_vec_fields(&before);
                    Self::lemma_drop_empty(before, *self, g as int, g - 1);
                }
                return;
            }
            let ghost before = *self;
            let x = self.fragments[g].remove(0);
            self.fragments[g - 1].push(x);
            proof {
                lemma_split_vec_fields(&*self);
                lemma_split_vec_fields(&before);
                let fs = before.frags();
                let a = self.frags()[g - 1];
                let c = self.frags()[g as int];
                assert(self.frags() =~= fs.update(g - 1, a).update(g as int, c));
                lemma_frags_update(fs, g - 1, a);
                lemma_frags_update(fs.update(g - 1, a), g as int, c);
                let views = before.fragment_views();
                lemma_move_front(views, g - 1);
                assert(self.fragment_views() =~= views.update(g - 1, views[g - 1].push(views[g as int][0])).update(
                    g as int,
                    views[g as int].remove(0),
                ));
                lemma_sum_lens_update(before.lens(), g - 1, before.lens()[g - 1] + 1);
                lemma_sum_lens_update(
                    before.lens().update(g - 1, before.lens()[g - 1] + 1),
                    g as int,
                    (before.lens()[g as int] - 1) as nat,
                );
                assert(self.lens() =~= before.lens().update(g - 1, before.lens()[g - 1] + 1).update(
                    g as int,
                    (before.lens()[g as int] - 1) as nat,
                ));
                assert(self.caps() =~= before.caps());
                assert(all_wf(self.frags())) by {
                    assert forall|k: int| 0 <= k < self.frags().len() implies #[trigger] self.frags()[k].wf() by {
                        if k != g && k != g - 1 {
                            assert(self.frags()[k] == fs[k]);
                        }
                    }
                }
            }
            if self.fragments[g].is_empty() {
                let ghost before2 = *self;
                let _ = self.fragments.remove(g);
                proof {
                    lemma_split_vec_fields(&*self);
                    lemma_split_vec_fields(&before2);
                    Self::lemma_drop_empty(before2, *self, g as int, g as int);
                }
                return;
            }
            g = g + 1;
        }
        proof {
            lemma_split_vec_fields(&*self);
        }
    }

    /// Drops the last fragment when it is empty.
    pub(crate) fn drop_last_empty_fragment(&mut self)
        requires
            old(self).wf(),
        ensures
            final(self).wf(),
            final(self)@ == old(self)@,
            final(self).spec_growth() == old(self).spec_growth(),
            final(self).spec_fragments_capacity() == old(self).spec_fragments_capacity(),
            old(self).frags().len() > 0 && old(self).lens().last() == 0 ==> final(self).frags()
                == old(self).frags().drop_last(),
            !(old(self).frags().len() > 0 && old(self).lens().last() == 0) ==> *final(self) == *old(
                self,
            ),
    {
        proof {
            lemma_split_vec_fields(&*self);
        }
        let n = self.fragments.len();
        if n > 0 && self.fragments[n - 1].is_empty() {
            let ghost before = *self;
            let _ = self.fragments.pop();
            proof {
                lemma_split_vec_fields(&*self);
                lemma_split_vec_fields(&before);
                before.lemma_take_fragments(n - 1);
                assert(self.frags() =~= before.frags().take(n - 1));
                assert(before.fragment_views() =~= self.fragment_views().push(Seq::<T>::empty())) by {
                    assert(before.fragment_views()[n - 1] =~= Seq::<T>::empty());
                }
                self.fragment_views().lemma_flatten_push(Seq::<T>::empty());
                assert(self@ =~= before@);
                assert(before.lens() =~= self.lens().push(0));
                assert(sum_lens(self.lens()) == sum_lens(before.lens()));
                assert(self.frags() =~= before.frags().drop_last());
            }
        }
    }

    /// Removes and returns the element at position `index` within the vector,
    /// shifting all elements after it to the left.
    ///
    /// The first element of each following fragment moves to the end of the
    /// fragment before it; a fragment left empty by the move is dropped and
    /// the shift stops there. An empty last fragment is dropped before and
    /// after the shift.
    pub fn remove(&mut self, index: usize) -> (r: T)
        requires
            old(self).wf(),
            index < old(self)@.len(),
        ensures
            final(self).wf(),
            r == old(self)@[index as int],
            final(self)@ == old(self)@.remove(index as int),
            final(self).spec_growth() == old(self).spec_growth(),
            final(self).spec_fragments_capacity() == old(self).spec_fragments_capacity(),
    {
        self.drop_last_empty_fragment();
        let ghost s0 = *self;
        proof {
            lemma_split_vec_fields(&*self);
            s0.lemma_wf();
        }
        let loc = self.get_fragment_and_inner_indices(index);
        let (f, i) = loc.unwrap();
        let ghost before = *self;
        proof {
            lemma_split_vec_fields(&*self);
            assert(s0.fragment_views()[f as int].len() == s0.lens()[f as int]);
            lemma_flatten_index(s0.fragment_views(), f as int, i as int);
        }
        let value = self.fragments[f].remove(i);
        proof {
            lemma_split_vec_fields(&*self);
            lemma_split_vec_fields(&before);
            let fr = self.frags()[f as int];
            assert(self.frags() == before.frags().update(f as int, fr));
            lemma_frags_update(before.frags(), f as int, fr);
            lemma_remove_in_fragment(before.fragment_views(), f as int, i as int);
            lemma_sum_lens_update(before.lens(), f as int, (before.lens()[f as int] - 1) as nat);
            assert(self.caps() =~= s0.caps());
            assert(all_wf(self.frags())) by {
                assert forall|k: int| 0 <= k < self.frags().len() implies #[trigger] self.frags()[k].wf() by {
                    if k != f {
                        assert(self.frags()[k] == before.frags()[k]);
                    }
                }
            }
            assert(self.hole_at(f as int));
            assert(self@ == s0@.remove(index as int));
        }
        self.shift_left(f);
        let ghost shifted = *self;
        self.len = self.len - 1;
        proof {
            lemma_split_vec_fields(&*self);
            lemma_split_vec_fields(&shifted);
            assert(self@ == shifted@);
        }
        self.drop_last_empty_fragment();
        value
    }
}

impl<T, G: Growth> SplitVec<T, G> {
    /// Swaps two elements in the vector.
    ///
    /// The fragments keep their lengths and capacities.
    pub fn swap(&mut self, a: usize, b: usize)
        requires
            old(self).wf(),
            a < old(self)@.len(),
            b < old(self)@.len(),
        ensures
            final(self).wf(),
            final(self)@ == old(self)@.update(a as int, old(self)@[b as int]).update(
                b as int,
                old(self)@[a as int],
            ),
            final(self).caps() == old(self).caps(),
            final(self).lens() == old(self).lens(),
            final(self).spec_growth() == old(self).spec_growth(),
            final(self).spec_fragments_capacity() == old(self).spec_fragments_capacity(),
    {
        let ghost s0 = *self;
        proof {
            lemma_split_vec_fields(&*self);
            s0.lemma_wf();
        }
        let (af, ai) = self.get_fragment_and_inner_indices(a).unwrap();
        let (bf, bi) = self.get_fragment_and_inner_indices(b).unwrap();
        proof {
            let views = s0.fragment_views();
            assert(views[af as int].len() == s0.lens()[af as int]);
            assert(views[bf as int].len() == s0.lens()[bf as int]);
            lemma_flatten_index(views, af as int, ai as int);
            lemma_flatten_index(views, bf as int, bi as int);
        }
        if af == bf {
            self.fragments[af].swap(ai, bi);
        } else if af < bf {
            let (fa, fb) = crate::fragment::two_mut(self.fragments.as_mut_slice(), af, bf);
            fa.swap_with(ai, fb, bi);
        } else {
            let (fb, fa) = crate::fragment::two_mut(self.fragments.as_mut_slice(), bf, af);
            fa.swap_with(ai, fb, bi);
        }
        proof {
            lemma_split_vec_fields(&*self);
            let views = s0.fragment_views();
            let va = s0@[a as int];
            let vb = s0@[b as int];
            let u1 = views.update(af as int, views[af as int].update(ai as int, vb));
            lemma_update_in_fragment(views, af as int, ai as int, vb);
            assert(u1[bf as int].len() == views[bf as int].len());
            lemma_update_in_fragment(u1, bf as int, bi as int, va);
            let u2 = u1.update(bf as int, u1[bf as int].update(bi as int, va));
            assert(self.fragment_views() =~= u2);
            assert(lens_of(views) =~= s0.lens());
            assert(self.lens() =~= lens_of(u2));
            assert(self.caps() =~= s0.caps());
            assert(all_wf(self.frags())) by {
                assert forall|k: int| 0 <= k < self.frags().len() implies #[trigger] self.frags()[k].wf() by {
                    assert(s0.frags()[k].wf());
                    assert(self.frags()[k]@.len() == s0.frags()[k]@.len());
                }
            }
        }
    }
}

} // verus!

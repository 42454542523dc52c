//! Iterating over the elements of a split vector, fragment by fragment.
use crate::fragment::{views_of, Fragment};
use crate::growth::doubling::Doubling;
use crate::growth::Growth;
use crate::split_vec::{lemma_split_vec_fields, SplitVec};
use vstd::prelude::*;

verus! {

broadcast use lemma_split_vec_fields;

/// The elements still to come from position `i` of fragment `f` on: the rest
/// of that fragment followed by the following fragments.
pub open spec fn remaining_from<T>(views: Seq<Seq<T>>, f: nat, i: nat) -> Seq<T> {
    if f < views.len() {
        views[f as int].skip(
            if i <= views[f as int].len() {
                i as int
            } else {
                views[f as int].len() as int
            },
        ) + views.skip((f + 1) as int).flatten()
    } else {
        Seq::empty()
    }
}

/// Every fragment strictly between fragment `f` and the last one holds an
/// element.
pub open spec fn no_gaps_after<T>(views: Seq<Seq<T>>, f: nat) -> bool {
    forall|k: int| f < k < views.len() - 1 ==> #[trigger] views[k].len() > 0
}

/// Iterator over the elements of a split vector.
pub struct SplitVecIterator<'a, T> {
    fragments: &'a [Fragment<T>],
    f: usize,
    i: usize,
}

impl<'a, T> SplitVecIterator<'a, T> {
    /// The elements of each fragment.
    pub closed spec fn views(&self) -> Seq<Seq<T>> {
        views_of(self.fragments@)
    }

    /// The current fragment.
    pub closed spec fn spec_f(&self) -> nat {
        self.f as nat
    }

    /// The position within the current fragment.
    pub closed spec fn spec_i(&self) -> nat {
        self.i as nat
    }

    /// The elements still to come, in order, as long as no empty fragment
    /// stands before the last one.
    pub open spec fn remaining(&self) -> Seq<T> {
        remaining_from(self.views(), self.spec_f(), self.spec_i())
    }

    /// The position is within the current fragment and no empty fragment
    /// stands between it and the last one.
    pub open spec fn in_order(&self) -> bool {
        &&& self.spec_f() < self.views().len() ==> self.spec_i() <= self.views()[self.spec_f() as int].len()
            || (self.views()[self.spec_f() as int].len() == 0 && self.spec_f() == self.views().len() - 1)
        &&& no_gaps_after(self.views(), self.spec_f())
    }

    /// Creates an iterator over the elements of `vec`, from the first one.
    pub fn new<G: Growth>(vec: &'a SplitVec<T, G>) -> (it: Self)
        ensures
            it.views() == vec.fragment_views(),
            it.spec_f() == 0,
            it.spec_i() == 0,
            it.remaining() == vec@,
            no_gaps_after(vec.fragment_views(), 0) ==> it.in_order(),
    {
        proof {
            lemma_split_vec_fields(vec);
            let views = vec.fragment_views();
            if views.len() > 0 {
                crate::layout::lemma_flatten_skip_step(views, 0);
                assert(views.skip(0) =~= views);
                assert(views[0].skip(0) =~= views[0]);
            } else {
                assert(views =~= Seq::<Seq<T>>::empty());
            }
        }
        SplitVecIterator { fragments: vec.fragments(), f: 0, i: 0 }
    }

    /// Returns the next element: the next one of the current fragment, or the
    /// first one of the next fragment once the current one is done; `None`
    /// when the next fragment is empty or there is none.
    pub fn next(&mut self) -> (r: Option<&'a T>)
        ensures
            final(self).views() == old(self).views(),
            ({
                let views = old(self).views();
                let f = old(self).spec_f();
                let i = old(self).spec_i();
                if f >= views.len() {
                    r is None && final(self).spec_f() == f && final(self).spec_i() == i
                } else if i == views[f as int].len() {
                    &&& final(self).spec_f() == f + 1
                    &&& final(self).spec_i() == 1
                    &&& f + 1 < views.len() && views[(f + 1) as int].len() > 0 ==> r == Some(&views[(f + 1) as int][0])
                    &&& !(f + 1 < views.len() && views[(f + 1) as int].len() > 0) ==> r is None
                } else if i < views[f as int].len() {
                    &&& final(self).spec_f() == f
                    &&& final(self).spec_i() == i + 1
                    &&& r == Some(&views[f as int][i as int])
                } else {
                    &&& final(self).spec_f() == f
                    &&& r is None
                }
            }),
            old(self).in_order() ==> final(self).in_order(),
            old(self).in_order() && old(self).remaining().len() > 0 ==> r == Some(&old(self).remaining()[0])
                && final(self).remaining() == old(self).remaining().drop_first(),
            old(self).in_order() && old(self).remaining().len() == 0 ==> r is None
                && final(self).remaining().len() == 0,
    {
        let ghost views = self.views();
        let n = self.fragments.len();
        if self.f >= n {
            return None;
        }
        let len = self.fragments[self.f].len();
        if self.i == len {
            let ghost before = *self;
            self.f = self.f + 1;
            self.i = 1;
            proof {
                let f = (self.f - 1) as nat;
                if before.in_order() {
                    lemma_remaining_next_fragment(views, f);
                }
            }
            if self.f < n {
                self.fragments[self.f].get(0)
            } else {
                None
            }
        } else if self.i > len {
            None
        } else {
            self.i = self.i + 1;
            proof {
                let f = self.f as nat;
                let i = (self.i - 1) as nat;
                if i < views[f as int].len() {
                    assert(remaining_from(views, f, i + 1) =~= remaining_from(views, f, i).drop_first());
                }
            }
            self.fragments[self.f].get(self.i - 1)
        }
    }
}

/// Leaving a finished fragment for the next one: the elements still to come
/// start with the first element of the next fragment when it has one, and
/// none are left when it is empty and the last one.
proof fn lemma_remaining_next_fragment<T>(views: Seq<Seq<T>>, f: nat)
    requires
        f < views.len(),
        no_gaps_after(views, f),
    ensures
        remaining_from(views, f, views[f as int].len()) == remaining_from(views, f + 1, 0),
        f + 1 < views.len() && views[(f + 1) as int].len() > 0 ==> remaining_from(views, f + 1, 1)
            == remaining_from(views, f + 1, 0).drop_first() && remaining_from(views, f + 1, 0)[0]
            == views[(f + 1) as int][0],
        !(f + 1 < views.len() && views[(f + 1) as int].len() > 0) ==> remaining_from(views, f + 1, 0).len() == 0
            && remaining_from(views, f + 1, 1).len() == 0,
        no_gaps_after(views, f + 1),
{
    assert(views[f as int].skip(views[f as int].len() as int) =~= Seq::<T>::empty());
    if f + 1 < views.len() {
        crate::layout::lemma_flatten_skip_step(views, (f + 1) as int);
        assert(views[(f + 1) as int].skip(0) =~= views[(f + 1) as int]);
        if views[(f + 1) as int].len() > 0 {
            assert(views[(f + 1) as int].skip(1) + views.skip((f + 2) as int).flatten() =~= (views[(f + 1) as int] + views.skip((f + 2) as int).flatten()).drop_first());
        } else {
            assert(f + 1 == views.len() - 1);
            assert(views.skip((f + 2) as int) =~= Seq::<Seq<T>>::empty());
            assert(views[(f + 1) as int].skip(0) =~= Seq::<T>::empty());
        }
    } else {
        assert(views.skip((f + 1) as int) =~= Seq::<Seq<T>>::empty());
    }
}

/// In a vector whose strategy keeps every fragment but the last full, no
/// empty fragment stands before the last one, so that iterating from the
/// start yields every element in order.
pub proof fn lemma_full_prefix_no_gaps<T, G: Growth>(vec: SplitVec<T, G>)
    requires
        vec.wf(),
        vec.spec_growth().keeps_full_prefix(),
    ensures
        no_gaps_after(vec.fragment_views(), 0),
{
    let views = vec.fragment_views();
    assert forall|k: int| 0 < k < views.len() - 1 implies #[trigger] views[k].len() > 0 by {
        vec.spec_growth().lemma_caps_positive(vec.caps(), k);
        assert(vec.lens()[k] == vec.caps()[k]);
    }
}


impl<'a, T> From<&'a SplitVec<T, Doubling>> for SplitVecIterator<'a, T> {
    /// Creates an iterator over the elements of `value`, from the first one.
    fn from(value: &'a SplitVec<T, Doubling>) -> (it: Self)
        ensures
            it.views() == value.fragment_views(),
            it.spec_f() == 0,
            it.spec_i() == 0,
            it.remaining() == value@,
    {
        Self::new(value)
    }
}

impl<'a, T> vstd::std_specs::convert::FromSpecImpl<&'a SplitVec<T, Doubling>> for SplitVecIterator<'a, T> {
    open spec fn obeys_from_spec() -> bool {
        false
    }

    open spec fn from_spec(v: &'a SplitVec<T, Doubling>) -> Self {
        choose|it: Self| it.views() == v.fragment_views() && it.spec_f() == 0 && it.spec_i() == 0
    }
}

} // verus!

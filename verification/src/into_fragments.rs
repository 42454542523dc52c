//! Values that can be taken apart into fragments, and appending them to a
//! recursive split vector without moving their elements.
use crate::fragment::{all_wf, caps_of, lens_of_fragments, views_of, Fragment};
use crate::growth::recursive::Recursive;
use crate::growth::Growth;
use crate::layout::{lemma_flatten_len, lemma_sum_caps_concat, lens_of, sum_caps, sum_lens};
use crate::split_vec::{lemma_split_vec_fields, SplitVec};
use vstd::prelude::*;

verus! {

broadcast use lemma_split_vec_fields;

/// A value that can be turned into a sequence of fragments holding its
/// elements in order, without moving them.
pub trait IntoFragments<T>: Sized {
    /// The elements the fragments hold, in order.
    spec fn fragment_elements(&self) -> Seq<T>;

    /// The value can be turned into fragments.
    spec fn can_split(&self) -> bool;

    /// `fragments` are fragments this value can be turned into.
    spec fn splits_into(&self, fragments: Seq<Fragment<T>>) -> bool;

    /// Converts the value into fragments that hold its elements in order.
    fn into_fragments(self) -> (r: Vec<Fragment<T>>)
        requires
            self.can_split(),
        ensures
            views_of(r@).flatten() == self.fragment_elements(),
            all_wf(r@),
            self.splits_into(r@),
    ;
}

/// The fragments among `fragments` that have a positive capacity, in order.
pub open spec fn positive_caps<T>(fragments: Seq<Fragment<T>>) -> Seq<Fragment<T>>
    decreases fragments.len(),
{
    if fragments.len() == 0 {
        Seq::empty()
    } else {
        let rest = positive_caps(fragments.drop_first());
        if fragments[0].cap() > 0 {
            seq![fragments[0]] + rest
        } else {
            rest
        }
    }
}

impl<T> IntoFragments<T> for Vec<T> {
    open spec fn fragment_elements(&self) -> Seq<T> {
        self@
    }

    open spec fn can_split(&self) -> bool {
        true
    }

    /// A single fragment holding the vector's elements, with the vector's
    /// capacity (the allocator's choice, at least the length).
    open spec fn splits_into(&self, fragments: Seq<Fragment<T>>) -> bool {
        &&& fragments.len() == 1
        &&& fragments[0]@ == self@
        &&& fragments[0].cap() >= self@.len()
    }

    /// The vector becomes a single fragment with the capacity it has.
    fn into_fragments(self) -> (r: Vec<Fragment<T>>) {
        let ghost elements = self@;
        let fragment = Fragment::from_vec(self);
        let mut fragments: Vec<Fragment<T>> = Vec::new();
        fragments.push(fragment);
        proof {
            assert(views_of(fragments@) =~= seq![elements]);
            seq![elements].lemma_flatten_singleton();
            assert(fragments@[0].wf());
        }
        fragments
    }
}

impl<T, G: Growth> IntoFragments<T> for SplitVec<T, G> {
    open spec fn fragment_elements(&self) -> Seq<T> {
        self@
    }

    open spec fn can_split(&self) -> bool {
        all_wf(self.frags())
    }

    /// The fragments of the split vector, as they are.
    open spec fn splits_into(&self, fragments: Seq<Fragment<T>>) -> bool {
        fragments == self.frags()
    }

    /// The fragments of the split vector, as they are.
    fn into_fragments(self) -> (r: Vec<Fragment<T>>) {
        proof {
            lemma_split_vec_fields(&self);
        }
        let SplitVec { len, fragments, growth, fragments_capacity } = self;
        fragments
    }
}

impl<T> SplitVec<T, Recursive> {
    /// Consumes and appends `other` to this vector in constant time per
    /// fragment, without moving its elements: each of its fragments becomes a
    /// fragment of this vector, after the last one.
    ///
    /// A fragment without capacity adds nothing. A fragment whose capacity
    /// would take the total capacity beyond `usize::MAX` is given the capacity
    /// that is left; when the total stays within `usize::MAX`, the fragments of
    /// `other` with a positive capacity are added as they are.
    pub fn append<I: IntoFragments<T>>(&mut self, other: I)
        requires
            old(self).wf(),
            other.can_split(),
            old(self).spec_capacity() + other.fragment_elements().len() <= usize::MAX,
        ensures
            final(self).wf(),
            final(self)@ == old(self)@ + other.fragment_elements(),
            Self::keeps_pinned(*old(self), *final(self)),
            final(self).spec_fragments_capacity() >= old(self).spec_fragments_capacity(),
            exists|incoming: Seq<Fragment<T>>|
                #[trigger] other.splits_into(incoming) && (old(self).spec_capacity() + sum_caps(
                    caps_of(incoming),
                ) <= usize::MAX ==> final(self).frags() == old(self).frags() + positive_caps(incoming)),
    {
        let ghost s0 = *self;
        let ghost elements = other.fragment_elements();
        let mut incoming = other.into_fragments();
        proof {
            lemma_split_vec_fields(&*self);
            self.lemma_wf();
            assert(self@ + views_of(incoming@).flatten() == s0@ + elements);
            lemma_flatten_len(views_of(incoming@));
            assert(lens_of(views_of(incoming@)) =~= lens_of_fragments(incoming@));
        }
        let ghost init = incoming@;
        let ghost fits_all = s0.spec_capacity() + sum_caps(caps_of(init)) <= usize::MAX;
        let mut total = self.capacity();
        let mut remaining = total_len(&incoming);
        while incoming.len() > 0
            invariant
                self.wf(),
                self.spec_growth() == s0.spec_growth(),
                all_wf(incoming@),
                self@ + views_of(incoming@).flatten() == s0@ + elements,
                total == self.spec_capacity(),
                remaining == sum_lens(lens_of_fragments(incoming@)),
                total + remaining <= usize::MAX,
                Self::keeps_pinned(s0, *self),
                self.spec_fragments_capacity() >= s0.spec_fragments_capacity(),
                fits_all == (s0.spec_capacity() + sum_caps(caps_of(init)) <= usize::MAX),
                fits_all ==> total + sum_caps(caps_of(incoming@)) <= usize::MAX,
                fits_all ==> self.frags() + positive_caps(incoming@) == s0.frags() + positive_caps(init),
            decreases incoming@.len(),
        {
            let ghost before_in = incoming@;
            let ghost before = *self;
            let fragment = incoming.remove(0);
            proof {
                assert(before_in =~= seq![fragment] + incoming@);
                assert(views_of(before_in) =~= seq![fragment@] + views_of(incoming@));
                crate::new_split_vec::lemma_flatten_prepend(fragment@, views_of(incoming@));
                assert(lens_of_fragments(before_in) =~= seq![fragment@.len()] + lens_of_fragments(incoming@));
                crate::layout::lemma_sum_lens_concat(seq![fragment@.len()], lens_of_fragments(incoming@));
                assert(seq![fragment@.len()].drop_last() =~= Seq::<nat>::empty());
                assert(sum_lens(Seq::<nat>::empty()) == 0);
                assert(before_in[0].wf());
                assert forall|k: int| 0 <= k < incoming@.len() implies #[trigger] incoming@[k].wf() by {
                    assert(incoming@[k] == before_in[k + 1]);
                }
                self.lemma_wf();
            }
            let ghost orig = fragment;
            proof {
                let rest = incoming@;
                assert(before_in.drop_first() =~= rest);
                assert(caps_of(before_in) =~= seq![fragment.cap()] + caps_of(rest));
                lemma_sum_caps_concat(seq![fragment.cap()], caps_of(rest));
                assert(seq![fragment.cap()].drop_last() =~= Seq::<usize>::empty());
                assert(sum_caps(Seq::<usize>::empty()) == 0);
                assert forall|k: int| 0 <= k < lens_of_fragments(rest).len() implies #[trigger] lens_of_fragments(
                    rest,
                )[k] <= caps_of(rest)[k] by {
                    assert(rest[k] == before_in[k + 1]);
                    assert(before_in[k + 1].wf());
                }
                crate::layout::lemma_fits_sum(caps_of(rest), lens_of_fragments(rest));
            }
            let flen = fragment.len();
            remaining = remaining - flen;
            let room = usize::MAX - total - remaining;
            let fragment = fragment.with_capacity_at_most(room);
            let c = fragment.capacity();
            if c > 0 {
                let n = self.fragments.len();
                proof {
                    self.spec_growth().lemma_valid_bounds(self.caps());
                    assert(self.spec_len() + flen <= usize::MAX);
                }
                self.push_fragment(fragment);
                proof {
                    lemma_split_vec_fields(&*self);
                }
                self.len = self.len + flen;
                total = total + c;
                proof {
                    lemma_split_vec_fields(&*self);
                    let fs = before.frags();
                    crate::fragment::lemma_frags_push(fs, fragment);
                    before.fragment_views().lemma_flatten_push(fragment@);
                    assert(self.caps().drop_last() =~= before.caps());
                    assert(self.lens().drop_last() =~= before.lens());
                    assert(all_wf(self.frags())) by {
                        assert forall|k: int| 0 <= k < self.frags().len() implies #[trigger] self.frags()[k].wf() by {
                            if k < n {
                                assert(self.frags()[k] == fs[k]);
                            }
                        }
                    }
                    assert forall|k: int| 0 <= k < self.caps().len() implies #[trigger] self.caps()[k] > 0 by {
                        if k < n {
                            assert(self.caps()[k] == before.caps()[k]);
                        }
                    }
                    assert forall|k: int| 0 <= k < s0.frags().len() implies #[trigger] self.frags()[k].cap()
                        == s0.frags()[k].cap() by {
                        assert(self.frags()[k] == fs[k]);
                    }
                    assert forall|k: int| 0 <= k < s0.frags().len() implies s0.frags()[k]@.len()
                        <= #[trigger] self.frags()[k]@.len() by {
                        assert(self.frags()[k] == fs[k]);
                    }
                    assert forall|k: int, j: int|
                        0 <= k < s0.frags().len() && 0 <= j < s0.frags()[k]@.len() implies #[trigger] self.frags()[k]@[j]
                            == s0.frags()[k]@[j] by {
                        assert(self.frags()[k] == fs[k]);
                    }
                    if fits_all {
                        assert(fragment == orig);
                        assert(self.frags() == fs.push(fragment));
                        assert(positive_caps(before_in) == seq![orig] + positive_caps(incoming@));
                        assert(self.frags() + positive_caps(incoming@) =~= fs + positive_caps(before_in));
                    }
                }
            } else {
                proof {
                    assert(fragment@.len() == 0);
                    assert(fragment@ =~= Seq::<T>::empty());
                    if fits_all {
                        assert(fragment == orig);
                        assert(positive_caps(before_in) == positive_caps(incoming@));
                    }
                }
            }
        }
        proof {
            assert(views_of(incoming@) =~= Seq::<Seq<T>>::empty());
            assert(self@ =~= s0@ + elements);
        }
    }
}

/// The number of elements of the given fragments.
fn total_len<T>(fragments: &Vec<Fragment<T>>) -> (n: usize)
    requires
        sum_lens(lens_of_fragments(fragments@)) <= usize::MAX,
    ensures
        n == sum_lens(lens_of_fragments(fragments@)),
{
    let ghost lens = lens_of_fragments(fragments@);
    let mut total: usize = 0;
    let mut k: usize = 0;
    while k < fragments.len()
        invariant
            lens == lens_of_fragments(fragments@),
            k <= lens.len(),
            total == sum_lens(lens.take(k as int)),
            sum_lens(lens) <= usize::MAX,
        decreases lens.len() - k,
    {
        proof {
            crate::layout::lemma_sum_lens_take(lens, k as int);
            crate::layout::lemma_sum_lens_take_mono(lens, k as int + 1, lens.len() as int);
            crate::layout::lemma_sum_lens_take_all(lens);
        }
        total = total + fragments[k].len();
        k += 1;
    }
    proof {
        crate::layout::lemma_sum_lens_take_all(lens);
    }
    total
}

} // verus!

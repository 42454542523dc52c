//! Contiguous views on ranges of a split vector.
use crate::growth::Growth;
use crate::layout::{
    is_location, lemma_flatten_update, lemma_location_of, lemma_offset_is_prefix_len, lens_of,
    location_of, offset,
};
use crate::fragment::{views_of, Fragment};
use crate::split_vec::{lemma_split_vec_fields, SplitVec};
use core::ops::Range;
use vstd::prelude::*;

verus! {

broadcast use lemma_split_vec_fields;

/// The result of trying to get a slice as a contiguous memory from the split
/// vector.
#[derive(PartialEq, Eq, Debug, Clone)]
pub enum SplitVecSlice<'a, T> {
    /// The desired range completely belongs to one fragment and the slice can
    /// be provided.
    Slice(&'a [T]),
    /// The desired range is split to at least two fragments; the tuple holds
    /// the indices of the fragments containing the first and last element of
    /// the range.
    Fragmented(usize, usize),
    /// The desired range is out of bounds of the vector.
    OutOfBounds,
}

/// The elements at positions `i..j` of fragment `f` are those at flat indices
/// `offset + i .. offset + j`.
proof fn lemma_subrange_in_fragment<T>(views: Seq<Seq<T>>, f: int, i: int, j: int)
    requires
        0 <= f < views.len(),
        0 <= i <= j <= views[f].len(),
    ensures
        views[f].subrange(i, j) == views.flatten().subrange(
            offset(lens_of(views), f) + i,
            offset(lens_of(views), f) + j,
        ),
{
    lemma_flatten_update(views, f, views[f]);
    lemma_offset_is_prefix_len(views, f);
    let a = views.take(f).flatten();
    let b = views.skip(f + 1).flatten();
    assert(views[f].subrange(i, j) =~= (a + views[f] + b).subrange(a.len() + i, a.len() + j));
}

impl<T, G: Growth> SplitVec<T, G> {
    /// Returns the result of trying to return the required `range` as a
    /// contiguous slice of data: the slice when the range belongs to one
    /// fragment (an empty slice for an empty range), `Fragmented` with the
    /// fragments of its first and last elements when it spans several, and
    /// `OutOfBounds` when it does not lie within the vector.
    pub fn try_get_slice(&self, range: Range<usize>) -> (r: SplitVecSlice<'_, T>)
        requires
            self.wf(),
        ensures
            range.end <= range.start ==> (r matches SplitVecSlice::Slice(s) && s@.len() == 0),
            range.start < range.end && range.end > self@.len() ==> r is OutOfBounds,
            range.start < range.end <= self@.len() ==> match r {
                SplitVecSlice::Slice(s) => {
                    &&& s@ == self@.subrange(range.start as int, range.end as int)
                    &&& location_of(self.lens(), range.start as int).0 == location_of(
                        self.lens(),
                        range.end - 1,
                    ).0
                },
                SplitVecSlice::Fragmented(sf, ef) => {
                    &&& sf != ef
                    &&& sf == location_of(self.lens(), range.start as int).0
                    &&& ef == location_of(self.lens(), range.end - 1).0
                },
                SplitVecSlice::OutOfBounds => false,
            },
    {
        proof {
            lemma_split_vec_fields(self);
            self.lemma_wf();
        }
        let a = range.start;
        let b = range.end;
        if b <= a {
            let empty: &[T] = &[];
            return SplitVecSlice::Slice(empty);
        }
        match self.get_fragment_and_inner_indices(a) {
            None => SplitVecSlice::OutOfBounds,
            Some((sf, si)) => match self.get_fragment_and_inner_indices(b - 1) {
                None => SplitVecSlice::OutOfBounds,
                Some((ef, ei)) => {
                    proof {
                        lemma_location_of(self.lens(), sf as int, si as int, a as int);
                        lemma_location_of(self.lens(), ef as int, ei as int, b - 1);
                    }
                    if sf == ef {
                        proof {
                            let views = self.fragment_views();
                            assert(views[sf as int].len() == self.lens()[sf as int]);
                            lemma_subrange_in_fragment(views, sf as int, si as int, ei + 1);
                        }
                        SplitVecSlice::Slice(self.fragments[sf].slice(si, ei + 1))
                    } else {
                        SplitVecSlice::Fragmented(sf, ef)
                    }
                },
            },
        }
    }
}

/// The elements of each of the given slices.
pub open spec fn slice_views<T>(slices: Seq<&[T]>) -> Seq<Seq<T>> {
    Seq::new(slices.len(), |k: int| slices[k]@)
}

/// The elements currently behind each of the given mutable slices.
pub open spec fn mut_slice_views<T>(slices: Seq<&mut [T]>) -> Seq<Seq<T>> {
    Seq::new(slices.len(), |k: int| slices[k]@)
}

/// The first position of fragment `k` of `n` that a range starting at `si`
/// in the first one covers.
pub open spec fn piece_start(k: int, si: int) -> int {
    if k == 0 {
        si
    } else {
        0
    }
}

/// One past the last position of fragment `k` of `n`, of length `len`, that a
/// range ending before `ee` in the last one covers.
pub open spec fn piece_end(k: int, n: int, ee: int, len: int) -> int {
    if k == n - 1 {
        ee
    } else {
        len
    }
}

/// The elements of fragments `i..j` are those at flat indices from the
/// offset of `i` to the offset of `j`.
pub(crate) proof fn lemma_flatten_subrange<T>(views: Seq<Seq<T>>, i: int, j: int)
    requires
        0 <= i <= j <= views.len(),
    ensures
        views.subrange(i, j).flatten() == views.flatten().subrange(
            offset(lens_of(views), i) as int,
            offset(lens_of(views), j) as int,
        ),
{
    crate::layout::lemma_flatten_split(views, i);
    let rest = views.skip(i);
    crate::layout::lemma_flatten_split(rest, j - i);
    assert(rest.take(j - i) =~= views.subrange(i, j));
    crate::layout::lemma_flatten_split(views, j);
    assert(views.take(j) =~= views.take(i) + views.subrange(i, j));
    vstd::seq_lib::lemma_flatten_concat(views.take(i), views.subrange(i, j));
    lemma_offset_is_prefix_len(views, i);
    lemma_offset_is_prefix_len(views, j);
    assert(views.subrange(i, j).flatten() =~= views.flatten().subrange(
        offset(lens_of(views), i) as int,
        offset(lens_of(views), j) as int,
    ));
}

/// Mutable slices over the fragments `frags`, one per fragment, from
/// position `si` of the first to position `ee` (excluded) of the last.
pub(crate) fn fragments_slices_mut<'a, T>(frags: &'a mut [Fragment<T>], si: usize, ee: usize) -> (r: Vec<&'a mut [T]>)
    requires
        old(frags)@.len() >= 1,
        old(frags)@.len() == 1 ==> si <= ee,
        si <= old(frags)@[0]@.len(),
        ee <= old(frags)@[old(frags)@.len() - 1]@.len(),
    ensures
        r@.len() == old(frags)@.len(),
        forall|k: int|
            0 <= k < r@.len() ==> #[trigger] r@[k]@ == old(frags)@[k]@.subrange(
                piece_start(k, si as int),
                piece_end(k, r@.len() as int, ee as int, old(frags)@[k]@.len() as int),
            ),
        mut_slice_views(r@).flatten() == views_of(old(frags)@).flatten().subrange(
            si as int,
            views_of(old(frags)@).flatten().len() - old(frags)@[old(frags)@.len() - 1]@.len() + ee,
        ),
        final(frags)@.len() == old(frags)@.len(),
        forall|k: int| 0 <= k < r@.len() ==> #[trigger] final(frags)@[k].cap() == old(frags)@[k].cap(),
        forall|k: int|
            0 <= k < r@.len() ==> #[trigger] final(frags)@[k]@ == old(frags)@[k]@.subrange(
                0,
                piece_start(k, si as int),
            ) + final(r@[k])@ + old(frags)@[k]@.subrange(
                piece_end(k, r@.len() as int, ee as int, old(frags)@[k]@.len() as int),
                old(frags)@[k]@.len() as int,
            ),
    decreases old(frags)@.len(),
{
    let n = frags.len();
    let ghost vs = views_of(old(frags)@);
    let (head, rest) = frags.split_at_mut(1);
    let f0 = head.first_mut().unwrap();
    if n == 1 {
        let s = f0.slice_mut(si, ee);
        let ghost sv = s@;
        let mut out: Vec<&'a mut [T]> = Vec::new();
        out.push(s);
        proof {
            assert(vs =~= seq![vs[0]]);
            seq![vs[0]].lemma_flatten_singleton();
            assert(mut_slice_views(out@) =~= seq![sv]);
            seq![sv].lemma_flatten_singleton();
        }
        out
    } else {
        let len0 = f0.len();
        let s = f0.slice_mut(si, len0);
        let ghost sv = s@;
        let mut out = fragments_slices_mut(rest, 0, ee);
        let ghost tail = out@;
        out.insert(0, s);
        proof {
            let vr = views_of(old(frags)@.subrange(1, n as int));
            assert(vs =~= seq![vs[0]] + vr);
            crate::new_split_vec::lemma_flatten_prepend(vs[0], vr);
            assert(mut_slice_views(out@) =~= seq![sv] + mut_slice_views(tail));
            crate::new_split_vec::lemma_flatten_prepend(sv, mut_slice_views(tail));
            assert forall|k: int| 0 <= k < out@.len() implies #[trigger] out@[k]@ == old(frags)@[k]@.subrange(
                piece_start(k, si as int),
                piece_end(k, out@.len() as int, ee as int, old(frags)@[k]@.len() as int),
            ) by {
                if k > 0 {
                    assert(out@[k] == tail[k - 1]);
                }
            }
            crate::layout::lemma_flatten_len(vr);
            assert(mut_slice_views(out@).flatten() =~= vs.flatten().subrange(
                si as int,
                vs.flatten().len() - old(frags)@[n - 1]@.len() + ee,
            ));
        }
        out
    }
}

impl<T, G: Growth> SplitVec<T, G> {
    /// Returns the view on the required `range` as a vector of slices, one per
    /// fragment that holds an element of the range, in order:
    ///
    /// * an empty vector if the range is empty or out of bounds;
    /// * one slice if the range belongs to one fragment;
    /// * otherwise the slices that, chained, form the range.
    pub fn slices(&self, range: Range<usize>) -> (r: Vec<&[T]>)
        requires
            self.wf(),
        ensures
            range.end <= range.start || range.end > self@.len() ==> r@.len() == 0,
            range.start < range.end <= self@.len() ==> {
                &&& slice_views(r@).flatten() == self@.subrange(range.start as int, range.end as int)
                &&& r@.len() == location_of(self.lens(), range.end - 1).0 - location_of(
                    self.lens(),
                    range.start as int,
                ).0 + 1
            },
    {
        proof {
            lemma_split_vec_fields(self);
            self.lemma_wf();
        }
        let a = range.start;
        let b = range.end;
        let mut slices: Vec<&[T]> = Vec::new();
        if b <= a {
            return slices;
        }
        let first = self.get_fragment_and_inner_indices(a);
        let last = self.get_fragment_and_inner_indices(b - 1);
        match (first, last) {
            (Some((sf, si)), Some((ef, ei))) => {
                let ghost views = self.fragment_views();
                let ghost lens = self.lens();
                proof {
                    lemma_location_of(lens, sf as int, si as int, a as int);
                    lemma_location_of(lens, ef as int, ei as int, b - 1);
                    assert(views[sf as int].len() == lens[sf as int]);
                    assert(views[ef as int].len() == lens[ef as int]);
                    if sf > ef {
                        crate::layout::lemma_sum_lens_take(lens, ef as int);
                        crate::layout::lemma_sum_lens_take_mono(lens, ef + 1, sf as int);
                        assert(false);
                    }
                }
                if sf == ef {
                    proof {
                        lemma_subrange_in_fragment(views, sf as int, si as int, ei + 1);
                    }
                    slices.push(self.fragments[sf].slice(si, ei + 1));
                    proof {
                        assert(slice_views(slices@) =~= seq![self@.subrange(a as int, b as int)]);
                        seq![self@.subrange(a as int, b as int)].lemma_flatten_singleton();
                    }
                    return slices;
                }
                let first_len = self.fragments[sf].len();
                proof {
                    lemma_subrange_in_fragment(views, sf as int, si as int, first_len as int);
                    crate::layout::lemma_sum_lens_take(lens, sf as int);
                }
                slices.push(self.fragments[sf].slice(si, first_len));
                proof {
                    assert(slice_views(slices@) =~= seq![self@.subrange(a as int, (offset(lens, sf + 1) as int))]);
                    seq![self@.subrange(a as int, (offset(lens, sf + 1) as int))].lemma_flatten_singleton();
                }
                let mut f = sf + 1;
                while f < ef
                    invariant
                        views == self.fragment_views(),
                        lens == self.lens(),
                        lens_of(views) == lens,
                        views.flatten() == self@,
                        sf < f <= ef < views.len(),
                        a <= offset(lens, f as int),
                        slice_views(slices@).flatten() == self@.subrange(a as int, (offset(lens, f as int) as int)),
                        slices@.len() == f - sf,
                        self.frags() == self.fragments@,
                    decreases ef - f,
                {
                    let ghost before = slices@;
                    let len_f = self.fragments[f].len();
                    proof {
                        assert(views[f as int].len() == lens[f as int]);
                        lemma_subrange_in_fragment(views, f as int, 0, len_f as int);
                        crate::layout::lemma_sum_lens_take(lens, f as int);
                        crate::layout::lemma_sum_lens_take_mono(lens, f + 1, lens.len() as int);
                        crate::layout::lemma_sum_lens_take_all(lens);
                        crate::layout::lemma_flatten_len(views);
                    }
                    slices.push(self.fragments[f].as_slice());
                    proof {
                        assert(slice_views(slices@) =~= slice_views(before).push(views[f as int]));
                        slice_views(before).lemma_flatten_push(views[f as int]);
                        assert(self@.subrange(a as int, (offset(lens, f + 1) as int)) =~= self@.subrange(
                            a as int,
                            (offset(lens, f as int) as int),
                        ) + self@.subrange((offset(lens, f as int) as int), (offset(lens, f + 1) as int)));
                        assert(views[f as int].subrange(0, len_f as int) =~= views[f as int]);
                    }
                    f = f + 1;
                }
                let ghost before = slices@;
                proof {
                    lemma_subrange_in_fragment(views, ef as int, 0, ei + 1);
                }
                slices.push(self.fragments[ef].slice(0, ei + 1));
                proof {
                    let tail = self@.subrange((offset(lens, ef as int) as int), b as int);
                    assert(slice_views(slices@) =~= slice_views(before).push(tail));
                    slice_views(before).lemma_flatten_push(tail);
                    assert(self@.subrange(a as int, b as int) =~= self@.subrange(
                        a as int,
                        (offset(lens, ef as int) as int),
                    ) + tail);
                }
                slices
            },
            _ => slices,
        }
    }
}

} // verus!

//! Cursors over the elements of fragments, forwards and backwards.
use crate::fragment::Fragment;
use vstd::prelude::*;

verus! {

/// A cursor over the elements of a fragment, from the first to the last.
#[derive(Clone, Copy)]
pub struct Ptr<'a, T> {
    slice: &'a [T],
    current: usize,
}

impl<'a, T> Ptr<'a, T> {
    /// The elements still to come, in order.
    pub closed spec fn remaining(&self) -> Seq<T> {
        if self.current <= self.slice@.len() {
            self.slice@.subrange(self.current as int, self.slice@.len() as int)
        } else {
            Seq::empty()
        }
    }

    /// A cursor over the elements of `fragment`.
    pub fn new(fragment: &'a Fragment<T>) -> (p: Self)
        ensures
            p.remaining() == fragment@,
    {
        let slice = fragment.as_slice();
        let p = Ptr { slice, current: 0 };
        proof {
            assert(p.remaining() =~= fragment@);
        }
        p
    }

    /// Returns the next element, or `None` when all have been returned.
    pub fn next(&mut self) -> (r: Option<&'a T>)
        ensures
            old(self).remaining().len() == 0 ==> r is None && final(self).remaining() == old(self).remaining(),
            old(self).remaining().len() > 0 ==> r == Some(&old(self).remaining()[0]) && final(self).remaining()
                == old(self).remaining().drop_first(),
    {
        let ghost before = self.remaining();
        if self.current < self.slice.len() {
            let r = &self.slice[self.current];
            self.current = self.current + 1;
            proof {
                assert(self.remaining() =~= before.drop_first());
            }
            Some(r)
        } else {
            None
        }
    }
}

impl<'a, T> Default for Ptr<'a, T> {
    /// A cursor over no element.
    fn default() -> (p: Self)
        ensures
            p.remaining().len() == 0,
    {
        let empty: &[T] = &[];
        Ptr { slice: empty, current: 0 }
    }
}

impl<'a, T> From<&'a Fragment<T>> for Ptr<'a, T> {
    /// A cursor over the elements of `value`.
    fn from(value: &'a Fragment<T>) -> (p: Self)
        ensures
            p.remaining() == value@,
    {
        Self::new(value)
    }
}

impl<'a, T> vstd::std_specs::convert::FromSpecImpl<&'a Fragment<T>> for Ptr<'a, T> {
    open spec fn obeys_from_spec() -> bool {
        false
    }

    open spec fn from_spec(v: &'a Fragment<T>) -> Self {
        choose|p: Self| p.remaining() == v@
    }
}

/// A cursor over the elements of a fragment, from the last to the first.
#[derive(Clone, Copy)]
pub struct PtrBackward<'a, T> {
    slice: &'a [T],
    end: usize,
}

impl<'a, T> PtrBackward<'a, T> {
    /// The elements still to come, in the order they come: from the last
    /// remaining one backwards.
    pub closed spec fn remaining(&self) -> Seq<T> {
        if self.end <= self.slice@.len() {
            self.slice@.subrange(0, self.end as int).reverse()
        } else {
            Seq::empty()
        }
    }

    /// A cursor over the elements of `fragment`, last first.
    pub fn new(fragment: &'a Fragment<T>) -> (p: Self)
        ensures
            p.remaining() == fragment@.reverse(),
    {
        let slice = fragment.as_slice();
        let p = PtrBackward { slice, end: slice.len() };
        proof {
            assert(slice@.subrange(0, slice@.len() as int) =~= slice@);
        }
        p
    }

    /// Returns the next element backwards, or `None` when all have been returned.
    pub fn next(&mut self) -> (r: Option<&'a T>)
        ensures
            old(self).remaining().len() == 0 ==> r is None && final(self).remaining() == old(self).remaining(),
            old(self).remaining().len() > 0 ==> r == Some(&old(self).remaining()[0]) && final(self).remaining()
                == old(self).remaining().drop_first(),
    {
        if self.end > 0 && self.end <= self.slice.len() {
            self.end = self.end - 1;
            let r = &self.slice[self.end];
            proof {
                let s = self.slice@;
                let e = self.end as int;
                assert(s.subrange(0, e).reverse() =~= s.subrange(0, e + 1).reverse().drop_first());
            }
            Some(r)
        } else {
            None
        }
    }
}

impl<'a, T> Default for PtrBackward<'a, T> {
    /// A cursor over no element.
    fn default() -> (p: Self)
        ensures
            p.remaining().len() == 0,
    {
        let empty: &[T] = &[];
        PtrBackward { slice: empty, end: 0 }
    }
}

impl<'a, T> From<&'a Fragment<T>> for PtrBackward<'a, T> {
    /// A cursor over the elements of `value`, last first.
    fn from(value: &'a Fragment<T>) -> (p: Self)
        ensures
            p.remaining() == value@.reverse(),
    {
        Self::new(value)
    }
}

impl<'a, T> vstd::std_specs::convert::FromSpecImpl<&'a Fragment<T>> for PtrBackward<'a, T> {
    open spec fn obeys_from_spec() -> bool {
        false
    }

    open spec fn from_spec(v: &'a Fragment<T>) -> Self {
        choose|p: Self| p.remaining() == v@.reverse()
    }
}

/// Cursors over the fragments of a split vector, one fragment at a time.
#[derive(Clone, Copy)]
pub struct Ptrs<'a, T> {
    fragments: &'a [Fragment<T>],
}

impl<'a, T> Ptrs<'a, T> {
    /// The fragments.
    pub closed spec fn frags(&self) -> Seq<Fragment<T>> {
        self.fragments@
    }

    /// Cursors over the given fragments.
    pub fn new(fragments: &'a [Fragment<T>]) -> (p: Self)
        ensures
            p.frags() == fragments@,
    {
        Ptrs { fragments }
    }

    /// A forward cursor over the fragment `f`; `None` if there is no such fragment.
    pub fn get(&self, f: usize) -> (r: Option<Ptr<'a, T>>)
        ensures
            f < self.frags().len() ==> (r matches Some(p) && p.remaining() == self.frags()[f as int]@),
            f >= self.frags().len() ==> r is None,
    {
        if f < self.fragments.len() {
            Some(Ptr::new(&self.fragments[f]))
        } else {
            None
        }
    }

    /// A backward cursor over the fragment `f`; `None` if there is no such fragment.
    pub fn get_bwd(&self, f: usize) -> (r: Option<PtrBackward<'a, T>>)
        ensures
            f < self.frags().len() ==> (r matches Some(p) && p.remaining() == self.frags()[f as int]@.reverse()),
            f >= self.frags().len() ==> r is None,
    {
        if f < self.fragments.len() {
            Some(PtrBackward::new(&self.fragments[f]))
        } else {
            None
        }
    }
}

impl<'a, T> From<&'a [Fragment<T>]> for Ptrs<'a, T> {
    /// Cursors over the given fragments.
    fn from(value: &'a [Fragment<T>]) -> (p: Self)
        ensures
            p.frags() == value@,
    {
        Self::new(value)
    }
}

impl<'a, T> vstd::std_specs::convert::FromSpecImpl<&'a [Fragment<T>]> for Ptrs<'a, T> {
    open spec fn obeys_from_spec() -> bool {
        false
    }

    open spec fn from_spec(v: &'a [Fragment<T>]) -> Self {
        choose|p: Self| p.frags() == v@
    }
}

} // verus!

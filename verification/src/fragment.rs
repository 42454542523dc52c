//! A fragment: a contiguous chunk of elements whose capacity is fixed when
//! the fragment is created.
use vstd::prelude::*;

verus! {

/// Capacity of a standard vector, as its allocation reports it.
///
/// Calls `Vec::capacity`. Its documentation promises only that the capacity
/// is at least the length; the exact value is the allocator's choice and is
/// left unsaid here.
#[verifier::external_body]
pub(crate) fn vec_capacity<X>(v: &Vec<X>) -> (c: usize)
    ensures
        c >= v@.len(),
{
    v.capacity()
}

/// Mutable references to two distinct elements `i < j` of a slice.
pub(crate) fn two_mut<X>(s: &mut [X], i: usize, j: usize) -> (r: (&mut X, &mut X))
    requires
        i < j < old(s)@.len(),
    ensures
        *r.0 == old(s)@[i as int],
        *r.1 == old(s)@[j as int],
        final(s)@ == old(s)@.update(i as int, *final(r.0)).update(j as int, *final(r.1)),
{
    let (left, right) = s.split_at_mut(j);
    let (_, middle) = left.split_at_mut(i);
    let a = middle.first_mut().unwrap();
    let b = right.first_mut().unwrap();
    (a, b)
}

/// The elements of each of the given fragments.
pub open spec fn views_of<T>(fragments: Seq<Fragment<T>>) -> Seq<Seq<T>> {
    Seq::new(fragments.len(), |k: int| fragments[k]@)
}

/// The capacities of the given fragments.
pub open spec fn caps_of<T>(fragments: Seq<Fragment<T>>) -> Seq<usize> {
    Seq::new(fragments.len(), |k: int| fragments[k].cap())
}

/// The number of elements of each of the given fragments.
pub open spec fn lens_of_fragments<T>(fragments: Seq<Fragment<T>>) -> Seq<nat> {
    Seq::new(fragments.len(), |k: int| fragments[k]@.len())
}

/// Every one of the given fragments holds at most its capacity.
pub open spec fn all_wf<T>(fragments: Seq<Fragment<T>>) -> bool {
    forall|k: int| 0 <= k < fragments.len() ==> #[trigger] fragments[k].wf()
}

/// The elements of the fragments after one of them is replaced.
pub proof fn lemma_frags_update<T>(fs: Seq<Fragment<T>>, k: int, fr: Fragment<T>)
    requires
        0 <= k < fs.len(),
    ensures
        views_of(fs.update(k, fr)) == views_of(fs).update(k, fr@),
        caps_of(fs.update(k, fr)) == caps_of(fs).update(k, fr.cap()),
        lens_of_fragments(fs.update(k, fr)) == lens_of_fragments(fs).update(k, fr@.len()),
{
    assert(views_of(fs.update(k, fr)) =~= views_of(fs).update(k, fr@));
    assert(caps_of(fs.update(k, fr)) =~= caps_of(fs).update(k, fr.cap()));
    assert(lens_of_fragments(fs.update(k, fr)) =~= lens_of_fragments(fs).update(k, fr@.len()));
}

/// The elements of the fragments after one more is added.
pub proof fn lemma_frags_push<T>(fs: Seq<Fragment<T>>, fr: Fragment<T>)
    ensures
        views_of(fs.push(fr)) == views_of(fs).push(fr@),
        caps_of(fs.push(fr)) == caps_of(fs).push(fr.cap()),
        lens_of_fragments(fs.push(fr)) == lens_of_fragments(fs).push(fr@.len()),
{
    assert(views_of(fs.push(fr)) =~= views_of(fs).push(fr@));
    assert(caps_of(fs.push(fr)) =~= caps_of(fs).push(fr.cap()));
    assert(lens_of_fragments(fs.push(fr)) =~= lens_of_fragments(fs).push(fr@.len()));
}

/// The elements of the first `k` fragments.
pub proof fn lemma_frags_take<T>(fs: Seq<Fragment<T>>, k: int)
    requires
        0 <= k <= fs.len(),
    ensures
        views_of(fs.take(k)) == views_of(fs).take(k),
        caps_of(fs.take(k)) == caps_of(fs).take(k),
        lens_of_fragments(fs.take(k)) == lens_of_fragments(fs).take(k),
{
    assert(views_of(fs.take(k)) =~= views_of(fs).take(k));
    assert(caps_of(fs.take(k)) =~= caps_of(fs).take(k));
    assert(lens_of_fragments(fs.take(k)) =~= lens_of_fragments(fs).take(k));
}

/// The elements of the fragments after one of them is removed.
pub proof fn lemma_frags_remove<T>(fs: Seq<Fragment<T>>, k: int)
    requires
        0 <= k < fs.len(),
    ensures
        views_of(fs.remove(k)) == views_of(fs).remove(k),
        caps_of(fs.remove(k)) == caps_of(fs).remove(k),
        lens_of_fragments(fs.remove(k)) == lens_of_fragments(fs).remove(k),
{
    assert(views_of(fs.remove(k)) =~= views_of(fs).remove(k));
    assert(caps_of(fs.remove(k)) =~= caps_of(fs).remove(k));
    assert(lens_of_fragments(fs.remove(k)) =~= lens_of_fragments(fs).remove(k));
}

/// A contiguous chunk of a split vector with a fixed capacity.
///
/// A fragment never holds more elements than its capacity; the storage for
/// the whole capacity is reserved when the fragment is created, so that
/// adding elements never moves the ones already there.
pub struct Fragment<T> {
    data: Vec<T>,
    capacity: usize,
}

impl<T> View for Fragment<T> {
    type V = Seq<T>;

    closed spec fn view(&self) -> Seq<T> {
        self.data@
    }
}

impl<T> Fragment<T> {
    /// The fixed capacity of the fragment.
    pub closed spec fn cap(&self) -> usize {
        self.capacity
    }

    /// The standard vector that stores the fragment's elements.
    pub closed spec fn storage(&self) -> Vec<T> {
        self.data
    }

    /// A fragment never holds more elements than its capacity.
    pub open spec fn wf(&self) -> bool {
        self@.len() <= self.cap()
    }

    /// Creates an empty fragment with the given `capacity`.
    pub fn new_empty(capacity: usize) -> (f: Self)
        ensures
            f.wf(),
            f@ == Seq::<T>::empty(),
            f.cap() == capacity,
    {
        Fragment { data: Vec::with_capacity(capacity), capacity }
    }

    /// Creates a fragment with the given `capacity` holding the elements of `data`.
    pub fn new(capacity: usize, data: Vec<T>) -> (f: Self)
        requires
            data@.len() <= capacity,
        ensures
            f.wf(),
            f@ == data@,
            f.cap() == capacity,
    {
        let mut data = data;
        let additional = capacity - data.len();
        data.reserve(additional);
        Fragment { data, capacity }
    }

    /// Creates a fragment from a standard vector, without copying, keeping the
    /// vector's allocation as the fragment's capacity.
    pub fn from_vec(data: Vec<T>) -> (f: Self)
        ensures
            f.wf(),
            f@ == data@,
            f.cap() >= data@.len(),
            f.storage() == data,
    {
        let capacity = vec_capacity(&data);
        Fragment { data, capacity }
    }

    /// Creates a fragment with the given `capacity` holding the single element `value`.
    pub fn new_with_first_value(capacity: usize, value: T) -> (f: Self)
        requires
            capacity > 0,
        ensures
            f.wf(),
            f@ == seq![value],
            f.cap() == capacity,
    {
        let mut data = Vec::with_capacity(capacity);
        data.push(value);
        Fragment { data, capacity }
    }

    /// Number of elements in the fragment.
    pub fn len(&self) -> (n: usize)
        ensures
            n == self@.len(),
    {
        self.data.len()
    }

    /// Capacity of the fragment.
    pub fn capacity(&self) -> (c: usize)
        ensures
            c == self.cap(),
    {
        self.capacity
    }

    /// Returns `true` if the fragment holds no elements.
    pub fn is_empty(&self) -> (b: bool)
        ensures
            b == (self@.len() == 0),
    {
        self.data.len() == 0
    }

    /// Number of elements that can still be added to the fragment.
    pub fn room(&self) -> (r: usize)
        requires
            self.wf(),
        ensures
            r == self.cap() - self@.len(),
    {
        self.capacity - self.data.len()
    }

    /// Returns `true` if at least one more element fits in the fragment.
    pub fn has_capacity_for_one(&self) -> (b: bool)
        ensures
            b == (self@.len() < self.cap()),
    {
        self.data.len() < self.capacity
    }

    /// Appends `value` to the end of the fragment.
    pub fn push(&mut self, value: T)
        requires
            old(self)@.len() < old(self).cap(),
        ensures
            final(self)@ == old(self)@.push(value),
            final(self).cap() == old(self).cap(),
    {
        self.data.push(value);
    }

    /// Removes and returns the last element, or `None` if the fragment is empty.
    pub fn pop(&mut self) -> (r: Option<T>)
        ensures
            final(self).cap() == old(self).cap(),
            old(self)@.len() == 0 ==> r is None && final(self)@ == old(self)@,
            old(self)@.len() > 0 ==> r == Some(old(self)@.last()) && final(self)@
                == old(self)@.drop_last(),
    {
        self.data.pop()
    }

    /// Inserts `value` at position `index`, shifting later elements to the right.
    pub fn insert(&mut self, index: usize, value: T)
        requires
            index <= old(self)@.len(),
            old(self)@.len() < old(self).cap(),
        ensures
            final(self)@ == old(self)@.insert(index as int, value),
            final(self).cap() == old(self).cap(),
    {
        self.data.insert(index, value);
    }

    /// Removes and returns the element at `index`, shifting later elements to the left.
    pub fn remove(&mut self, index: usize) -> (r: T)
        requires
            index < old(self)@.len(),
        ensures
            r == old(self)@[index as int],
            final(self)@ == old(self)@.remove(index as int),
            final(self).cap() == old(self).cap(),
    {
        self.data.remove(index)
    }

    /// Returns a mutable reference to the element at `index`.
    pub fn get_mut(&mut self, index: usize) -> (r: &mut T)
        requires
            index < old(self)@.len(),
        ensures
            *r == old(self)@[index as int],
            final(self)@ == old(self)@.update(index as int, *final(r)),
            final(self).cap() == old(self).cap(),
    {
        &mut self.data[index]
    }

    /// Returns the elements at positions `start..end` as a mutable slice.
    pub fn slice_mut(&mut self, start: usize, end: usize) -> (r: &mut [T])
        requires
            start <= end <= old(self)@.len(),
        ensures
            r@ == old(self)@.subrange(start as int, end as int),
            final(self)@ == old(self)@.subrange(0, start as int) + final(r)@ + old(self)@.subrange(
                end as int,
                old(self)@.len() as int,
            ),
            final(self).cap() == old(self).cap(),
    {
        let all = self.data.as_mut_slice();
        let (head, _tail) = all.split_at_mut(end);
        let (_front, middle) = head.split_at_mut(start);
        middle
    }

    /// Replaces the element at `index` by `value` and returns the previous one.
    pub fn replace(&mut self, index: usize, value: T) -> (r: T)
        requires
            index < old(self)@.len(),
        ensures
            r == old(self)@[index as int],
            final(self)@ == old(self)@.update(index as int, value),
            final(self).cap() == old(self).cap(),
    {
        let r = self.data.remove(index);
        self.data.insert(index, value);
        r
    }

    /// Shortens the fragment to its first `len` elements.
    pub fn truncate(&mut self, len: usize)
        ensures
            final(self).cap() == old(self).cap(),
            len <= old(self)@.len() ==> final(self)@ == old(self)@.take(len as int),
            len > old(self)@.len() ==> final(self)@ == old(self)@,
    {
        self.data.truncate(len);
    }

    /// Removes all elements, keeping the capacity.
    pub fn clear(&mut self)
        ensures
            final(self)@ == Seq::<T>::empty(),
            final(self).cap() == old(self).cap(),
    {
        self.data.clear();
    }

    /// The elements of the fragment as a slice.
    pub fn as_slice(&self) -> (s: &[T])
        ensures
            s@ == self@,
    {
        self.data.as_slice()
    }

    /// The elements at positions `start..end` as a slice.
    pub fn slice(&self, start: usize, end: usize) -> (s: &[T])
        requires
            start <= end <= self@.len(),
        ensures
            s@ == self@.subrange(start as int, end as int),
    {
        &self.data.as_slice()[start..end]
    }

    /// Reference to the element at `index`, or `None` if out of bounds.
    pub fn get(&self, index: usize) -> (r: Option<&T>)
        ensures
            index < self@.len() ==> r == Some(&self@[index as int]),
            index >= self@.len() ==> r is None,
    {
        if index < self.data.len() {
            Some(&self.data[index])
        } else {
            None
        }
    }

    /// Clones and appends the elements of `other`.
    pub fn extend_from_slice(&mut self, other: &[T])
        where
            T: Clone,
        requires
            old(self)@.len() + other@.len() <= old(self).cap(),
        ensures
            final(self).cap() == old(self).cap(),
            final(self)@.len() == old(self)@.len() + other@.len(),
            forall|i: int|
                #![trigger final(self)@[i]]
                0 <= i < final(self)@.len() ==> if i < old(self)@.len() {
                    final(self)@[i] == old(self)@[i]
                } else {
                    cloned::<T>(other@[i - old(self)@.len()], final(self)@[i])
                },
    {
        self.data.extend_from_slice(other);
    }

    /// Swaps the elements at positions `i` and `j`.
    pub fn swap(&mut self, i: usize, j: usize)
        requires
            i < old(self)@.len(),
            j < old(self)@.len(),
        ensures
            final(self)@ == old(self)@.update(i as int, old(self)@[j as int]).update(
                j as int,
                old(self)@[i as int],
            ),
            final(self).cap() == old(self).cap(),
    {
        if i < j {
            let (a, b) = two_mut(self.data.as_mut_slice(), i, j);
            core::mem::swap(a, b);
        } else if j < i {
            let (a, b) = two_mut(self.data.as_mut_slice(), j, i);
            core::mem::swap(a, b);
        }
    }

    /// Swaps the element at position `i` of this fragment with the element at
    /// position `j` of `other`.
    pub fn swap_with(&mut self, i: usize, other: &mut Self, j: usize)
        requires
            i < old(self)@.len(),
            j < old(other)@.len(),
        ensures
            final(self)@ == old(self)@.update(i as int, old(other)@[j as int]),
            final(other)@ == old(other)@.update(j as int, old(self)@[i as int]),
            final(self).cap() == old(self).cap(),
            final(other).cap() == old(other).cap(),
    {
        core::mem::swap(&mut self.data[i], &mut other.data[j]);
    }

    /// The fragment with its capacity lowered to `capacity` when that is
    /// smaller; its elements are unchanged.
    pub fn with_capacity_at_most(self, capacity: usize) -> (f: Self)
        requires
            self@.len() <= capacity,
            self.wf(),
        ensures
            f.wf(),
            f@ == self@,
            f.cap() == if self.cap() <= capacity {
                self.cap()
            } else {
                capacity
            },
            self.cap() <= capacity ==> f == self,
    {
        if self.capacity <= capacity {
            self
        } else {
            Fragment { data: self.data, capacity }
        }
    }

    /// Consumes the fragment and returns its elements as a standard vector.
    pub fn into_vec(self) -> (v: Vec<T>)
        ensures
            v@ == self@,
    {
        self.data
    }
}

impl<T> From<Vec<T>> for Fragment<T> {
    /// A fragment holding the elements of the vector, with the vector's
    /// allocation as its capacity.
    fn from(value: Vec<T>) -> (f: Self)
        ensures
            f.wf(),
            f@ == value@,
            f.cap() >= value@.len(),
    {
        Self::from_vec(value)
    }
}

impl<T> vstd::std_specs::convert::FromSpecImpl<Vec<T>> for Fragment<T> {
    open spec fn obeys_from_spec() -> bool {
        false
    }

    open spec fn from_spec(v: Vec<T>) -> Self {
        choose|f: Self| f@ == v@
    }
}

} // verus!

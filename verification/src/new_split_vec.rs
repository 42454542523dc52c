//! Creating split vectors with each growth strategy, and converting between
//! growth strategies.
use crate::fragment::{all_wf, caps_of, lens_of_fragments, views_of, Fragment};
use crate::growth::doubling::{
    doubling_cumulative, doubling_cumulative_capacity, doubling_max_fragments,
    doubling_max_fragments_count, lemma_doubling_cumulative_step, lemma_doubling_cumulative_value, Doubling,
};
use crate::growth::fixed::FixedCapacity;
use crate::growth::linear::{linear_exponent_limit, Linear};
use crate::growth::recursive::Recursive;
use crate::growth::{Growth, GrowthWithConstantTimeAccess};
use crate::layout::{sum_caps, sum_lens};
use crate::split_vec::{lemma_split_vec_fields, SplitVec};
use vstd::arithmetic::power2::{lemma2_to64, lemma_pow2_pos, pow2};
use vstd::prelude::*;

verus! {

broadcast use lemma_split_vec_fields;

/// Number of fragments a new vector's fragments collection holds without moving.
pub const DEFAULT_FRAGMENTS_CAPACITY: usize = 4;

impl<T> SplitVec<T, Doubling> {
    /// Creates an empty split vector with the doubling growth strategy.
    pub fn new() -> (v: Self)
        ensures
            v.wf(),
            v@ == Seq::<T>::empty(),
            v.caps() == seq![4usize],
            v.spec_fragments_capacity() == DEFAULT_FRAGMENTS_CAPACITY,
    {
        Self::with_doubling_growth()
    }

    /// Creates an empty split vector with the doubling growth strategy: the
    /// first fragment holds 4 elements, and every new fragment twice as many
    /// as the one before it.
    pub fn with_doubling_growth() -> (v: Self)
        ensures
            v.wf(),
            v@ == Seq::<T>::empty(),
            v.caps() == seq![4usize],
            v.spec_fragments_capacity() == DEFAULT_FRAGMENTS_CAPACITY,
    {
        Self::with_doubling_growth_and_fragments_capacity(DEFAULT_FRAGMENTS_CAPACITY)
    }

    /// Creates an empty split vector with the doubling growth strategy whose
    /// fragments collection holds `fragments_capacity` fragments without moving.
    ///
    /// This only matters to concurrent programs, which need the fragments
    /// collection to stay in place as well.
    pub fn with_doubling_growth_and_fragments_capacity(fragments_capacity: usize) -> (v: Self)
        requires
            0 < fragments_capacity <= doubling_max_fragments(),
        ensures
            v.wf(),
            v@ == Seq::<T>::empty(),
            v.caps() == seq![4usize],
            v.spec_fragments_capacity() == fragments_capacity,
    {
        proof {
            lemma2_to64();
            assert(seq![4usize][0] == pow2(2));
        }
        Self::with_first_fragment(Doubling, 4, fragments_capacity)
    }

    /// Creates an empty split vector with the doubling growth strategy whose
    /// fragments collection holds as many fragments as the strategy allows.
    pub fn with_doubling_growth_and_max_concurrent_capacity() -> (v: Self)
        ensures
            v.wf(),
            v@ == Seq::<T>::empty(),
            v.caps() == seq![4usize],
            v.spec_fragments_capacity() == doubling_max_fragments(),
    {
        Self::with_doubling_growth_and_fragments_capacity(doubling_max_fragments_count())
    }
}

impl<T> SplitVec<T, Linear> {
    /// Creates an empty split vector with linear growth where each fragment
    /// holds `2 ^ constant_fragment_capacity_exponent` elements.
    pub fn with_linear_growth(constant_fragment_capacity_exponent: usize) -> (v: Self)
        requires
            0 < constant_fragment_capacity_exponent < linear_exponent_limit(),
        ensures
            v.wf(),
            v@ == Seq::<T>::empty(),
            v.caps() == seq![pow2(constant_fragment_capacity_exponent as nat) as usize],
            v.spec_growth().exponent() == constant_fragment_capacity_exponent,
            v.spec_fragments_capacity() == DEFAULT_FRAGMENTS_CAPACITY,
    {
        Self::with_linear_growth_and_fragments_capacity(
            constant_fragment_capacity_exponent,
            DEFAULT_FRAGMENTS_CAPACITY,
        )
    }

    /// Creates an empty split vector with linear growth whose fragments
    /// collection holds `fragments_capacity` fragments without moving.
    pub fn with_linear_growth_and_fragments_capacity(
        constant_fragment_capacity_exponent: usize,
        fragments_capacity: usize,
    ) -> (v: Self)
        requires
            0 < constant_fragment_capacity_exponent < linear_exponent_limit(),
            fragments_capacity > 0,
        ensures
            v.wf(),
            v@ == Seq::<T>::empty(),
            v.caps() == seq![pow2(constant_fragment_capacity_exponent as nat) as usize],
            v.spec_growth().exponent() == constant_fragment_capacity_exponent,
            v.spec_fragments_capacity() == fragments_capacity,
    {
        let growth = Linear::new(constant_fragment_capacity_exponent);
        let capacity = growth.constant_fragment_capacity();
        proof {
            vstd::bits::lemma_usize_pow2_no_overflow(constant_fragment_capacity_exponent as nat);
            lemma_pow2_pos(constant_fragment_capacity_exponent as nat);
            assert(1 <= (usize::MAX as nat) / growth.spec_fragment_capacity()) by (nonlinear_arith)
                requires
                    1 <= growth.spec_fragment_capacity() <= usize::MAX,
            ;
        }
        Self::with_first_fragment(growth, capacity, fragments_capacity)
    }
}

impl<T> SplitVec<T, FixedCapacity> {
    /// Creates a split vector that holds at most `fixed_capacity` elements, in
    /// a single fragment; it never grows beyond it.
    pub fn with_fixed_capacity(fixed_capacity: usize) -> (v: Self)
        ensures
            v.wf(),
            v@ == Seq::<T>::empty(),
            v.caps() == seq![fixed_capacity],
            v.spec_fragments_capacity() == 1,
    {
        Self::with_first_fragment(FixedCapacity, fixed_capacity, 1)
    }
}

impl<T> SplitVec<T, Recursive> {
    /// Takes the fragments of a vector with another growth strategy, without
    /// moving any element.
    fn from_fragments_of<G: Growth>(value: SplitVec<T, G>) -> (v: Self)
        ensures
            v@ == value@,
            v.frags() == value.frags(),
            v.spec_len() == value.spec_len(),
            v.spec_fragments_capacity() == value.spec_fragments_capacity(),
            value.wf() && (forall|k: int| 0 <= k < value.caps().len() ==> #[trigger] value.caps()[k] > 0)
                ==> v.wf(),
    {
        proof {
            lemma_split_vec_fields(&value);
            if value.wf() {
                value.lemma_wf();
            }
        }
        let SplitVec { len, fragments, growth, fragments_capacity } = value;
        let v = Self::from_raw_parts(len, fragments, Recursive, fragments_capacity);
        proof {
            lemma_split_vec_fields(&v);
        }
        v
    }

    /// Creates an empty split vector with the recursive growth strategy: new
    /// fragments double the capacity of the last one, starting with 4.
    pub fn with_recursive_growth() -> (v: Self)
        ensures
            v.wf(),
            v@ == Seq::<T>::empty(),
            v.caps() == seq![4usize],
            v.spec_fragments_capacity() == DEFAULT_FRAGMENTS_CAPACITY,
    {
        Self::from_fragments_of(SplitVec::<T, Doubling>::with_doubling_growth())
    }

    /// Creates an empty split vector with the recursive growth strategy whose
    /// fragments collection holds `fragments_capacity` fragments without moving.
    pub fn with_recursive_growth_and_fragments_capacity(fragments_capacity: usize) -> (v: Self)
        requires
            0 < fragments_capacity <= doubling_max_fragments(),
        ensures
            v.wf(),
            v@ == Seq::<T>::empty(),
            v.caps() == seq![4usize],
            v.spec_fragments_capacity() == fragments_capacity,
    {
        Self::from_fragments_of(
            SplitVec::<T, Doubling>::with_doubling_growth_and_fragments_capacity(fragments_capacity),
        )
    }

    /// Creates an empty split vector with the recursive growth strategy whose
    /// fragments collection holds as many fragments as the doubling strategy allows.
    pub fn with_recursive_growth_and_max_concurrent_capacity() -> (v: Self)
        ensures
            v.wf(),
            v@ == Seq::<T>::empty(),
            v.caps() == seq![4usize],
            v.spec_fragments_capacity() == doubling_max_fragments(),
    {
        Self::from_fragments_of(SplitVec::<T, Doubling>::with_doubling_growth_and_max_concurrent_capacity())
    }
}

impl<T> From<SplitVec<T, Doubling>> for SplitVec<T, Recursive> {
    /// Converts a doubling vector into a recursive one without moving any
    /// element: the fragments are kept as they are.
    fn from(value: SplitVec<T, Doubling>) -> (v: Self)
        ensures
            v@ == value@,
            v.frags() == value.frags(),
            v.spec_fragments_capacity() == value.spec_fragments_capacity(),
            value.wf() ==> v.wf(),
    {
        proof {
            lemma_doubling_caps_positive(value.caps());
        }
        Self::from_fragments_of(value)
    }
}

impl<T> vstd::std_specs::convert::FromSpecImpl<SplitVec<T, Doubling>> for SplitVec<T, Recursive> {
    open spec fn obeys_from_spec() -> bool {
        false
    }

    open spec fn from_spec(v: SplitVec<T, Doubling>) -> Self {
        choose|s: Self| s@ == v@
    }
}

impl<T> From<SplitVec<T, Linear>> for SplitVec<T, Recursive> {
    /// Converts a linear vector into a recursive one without moving any
    /// element: the fragments are kept as they are.
    fn from(value: SplitVec<T, Linear>) -> (v: Self)
        ensures
            v@ == value@,
            v.frags() == value.frags(),
            v.spec_fragments_capacity() == value.spec_fragments_capacity(),
            value.wf() ==> v.wf(),
    {
        proof {
            if value.wf() {
                lemma_pow2_pos(value.spec_growth().exponent());
            }
        }
        Self::from_fragments_of(value)
    }
}

impl<T> vstd::std_specs::convert::FromSpecImpl<SplitVec<T, Linear>> for SplitVec<T, Recursive> {
    open spec fn obeys_from_spec() -> bool {
        false
    }

    open spec fn from_spec(v: SplitVec<T, Linear>) -> Self {
        choose|s: Self| s@ == v@
    }
}

/// Fragments of a doubling layout have positive capacities.
proof fn lemma_doubling_caps_positive(caps: Seq<usize>)
    ensures
        Doubling.valid_caps(caps) ==> forall|k: int| 0 <= k < caps.len() ==> #[trigger] caps[k] > 0,
{
    if Doubling.valid_caps(caps) {
        assert forall|k: int| 0 <= k < caps.len() implies #[trigger] caps[k] > 0 by {
            lemma_pow2_pos((k + 2) as nat);
        }
    }
}

/// Cumulative capacities of a doubling vector grow with the number of fragments.
proof fn lemma_doubling_cumulative_mono(a: nat, b: nat)
    requires
        a <= b,
    ensures
        doubling_cumulative(a) <= doubling_cumulative(b),
{
    crate::bits::lemma_pow2_le(a + 2, b + 2);
    lemma_doubling_cumulative_value(a);
    lemma_doubling_cumulative_value(b);
}

/// The number of doubling fragments that hold `len` elements: the smallest
/// `f` whose first `f` fragments hold at least `len` elements.
fn doubling_fragments_for(len: usize) -> (f: usize)
    requires
        len <= doubling_cumulative(doubling_max_fragments()),
    ensures
        f <= doubling_max_fragments(),
        len <= doubling_cumulative(f as nat),
        f > 0 ==> doubling_cumulative((f - 1) as nat) < len,
{
    let max_f = doubling_max_fragments_count();
    let mut f: usize = 0;
    while doubling_cumulative_capacity(f) < len
        invariant
            max_f == doubling_max_fragments(),
            f <= max_f,
            len <= doubling_cumulative(max_f as nat),
            f > 0 ==> doubling_cumulative((f - 1) as nat) < len,
        decreases max_f - f,
    {
        f += 1;
    }
    f
}

/// Putting one more sequence in front of sequences puts it in front of their
/// concatenation.
pub(crate) proof fn lemma_flatten_prepend<X>(a: Seq<X>, rest: Seq<Seq<X>>)
    ensures
        (seq![a] + rest).flatten() == a + rest.flatten(),
{
    vstd::seq_lib::lemma_flatten_concat(seq![a], rest);
    seq![a].lemma_flatten_singleton();
}

impl<T> From<Vec<T>> for SplitVec<T, Doubling> {
    /// Converts a `Vec` into a doubling split vector: the elements are moved
    /// into as many doubling fragments (4, 8, 16, ...) as they need, all full
    /// but the last one, and at least the first one; the fragments collection
    /// holds one more fragment.
    ///
    /// A vector with more elements than the strategy can ever hold is kept
    /// as a single fragment, which is not a valid doubling layout.
    fn from(value: Vec<T>) -> (v: Self)
        ensures
            v@ == value@,
            value@.len() <= doubling_cumulative(doubling_max_fragments()) ==> {
                &&& v.wf()
                &&& v.frags().len() > 0
                &&& doubling_cumulative(v.frags().len() as nat) >= value@.len()
                &&& v.frags().len() > 1 ==> doubling_cumulative((v.frags().len() - 1) as nat) < value@.len()
                &&& v.spec_fragments_capacity() == v.frags().len() + 1
            },
            value@.len() == 0 ==> v.caps() == seq![4usize],
    {
        let len = value.len();
        let max_f = doubling_max_fragments_count();
        if len > doubling_cumulative_capacity(max_f) {
            let fragment = Fragment::from_vec(value);
            let fragments = Self::single_fragment(fragment, 1);
            let v = Self::from_raw_parts(len, fragments, Doubling, 1);
            proof {
                lemma_split_vec_fields(&v);
                assert(v.fragment_views() =~= seq![value@]);
                seq![value@].lemma_flatten_singleton();
            }
            return v;
        }
        if len == 0 {
            let v = Self::with_doubling_growth_and_fragments_capacity(2);
            proof {
                lemma_doubling_cumulative_value(1);
                lemma2_to64();
            }
            return v;
        }
        let f = doubling_fragments_for(len);
        let mut fragments: Vec<Fragment<T>> = Vec::with_capacity(f + 1);
        let mut rest = value;
        let mut k = f;
        proof {
            assert(rest@ == value@.take(rest@.len() as int));
            assert(views_of(fragments@) =~= Seq::<Seq<T>>::empty());
            assert(value@.skip(len as int) =~= Seq::<T>::empty());
        }
        while k > 0
            invariant
                k <= f <= doubling_max_fragments(),
                len == value@.len(),
                len <= doubling_cumulative(f as nat),
                f > 0 ==> doubling_cumulative((f - 1) as nat) < len,
                rest@ == value@.take(rest@.len() as int),
                rest@.len() == if k == f {
                    len as nat
                } else {
                    doubling_cumulative(k as nat)
                },
                views_of(fragments@).flatten() == value@.skip(rest@.len() as int),
                fragments@.len() == f - k,
                forall|j: int|
                    0 <= j < f - k ==> {
                        &&& (#[trigger] fragments@[j]).cap() == pow2((k + j + 2) as nat)
                        &&& fragments@[j].wf()
                        &&& k + j < f - 1 ==> fragments@[j]@.len() == fragments@[j].cap()
                    },
            decreases k,
        {
            k = k - 1;
            let ghost before = fragments@;
            let ghost rest_before = rest@;
            proof {
                lemma_doubling_cumulative_step(k as nat);
                lemma_doubling_cumulative_mono(k as nat, (f - 1) as nat);
                if k + 1 < f {
                    lemma_doubling_cumulative_mono((k + 1) as nat, (f - 1) as nat);
                }
            }
            let cumulative = doubling_cumulative_capacity(k);
            let capacity = Doubling.fragment_capacity_of(k);
            let tail = rest.split_off(cumulative);
            let fragment = Fragment::new(capacity, tail);
            fragments.insert(0, fragment);
            proof {
                assert(fragments@ =~= seq![fragment] + before);
                assert(views_of(fragments@) =~= seq![fragment@] + views_of(before));
                lemma_flatten_prepend(fragment@, views_of(before));
                assert(value@.skip(cumulative as int) =~= fragment@ + value@.skip(rest_before.len() as int));
                assert(rest@ =~= value@.take(rest@.len() as int));
                assert forall|j: int| 0 <= j < f - k implies {
                    &&& (#[trigger] fragments@[j]).cap() == pow2((k + j + 2) as nat)
                    &&& fragments@[j].wf()
                    &&& k + j < f - 1 ==> fragments@[j]@.len() == fragments@[j].cap()
                } by {
                    if j > 0 {
                        assert(fragments@[j] == before[j - 1]);
                    }
                }
            }
        }
        proof {
            lemma2_to64();
            lemma_doubling_cumulative_value(0);
            assert(rest@.len() == 0);
            assert(value@.skip(0) =~= value@);
            assert(views_of(fragments@).flatten() == value@);
        }
        let v = Self::from_raw_parts(len, fragments, Doubling, f + 1);
        proof {
            lemma_split_vec_fields(&v);
            assert(v.caps().len() == f);
            assert forall|j: int| 0 <= j < v.caps().len() implies #[trigger] v.caps()[j] == pow2((j + 2) as nat) by {
                assert(v.frags()[j].cap() == pow2((j + 2) as nat));
            }
            assert(all_wf(v.frags())) by {
                assert forall|j: int| 0 <= j < v.frags().len() implies #[trigger] v.frags()[j].wf() by {
                    assert(v.frags()[j].wf());
                }
            }
            assert(crate::layout::full_prefix(v.caps(), v.lens())) by {
                assert forall|j: int| 0 <= j < v.lens().len() - 1 implies #[trigger] v.lens()[j] == v.caps()[j] by {
                    assert(v.frags()[j]@.len() == v.frags()[j].cap());
                }
            }
            crate::layout::lemma_flatten_len(v.fragment_views());
            assert(crate::layout::lens_of(v.fragment_views()) =~= v.lens());
        }
        v
    }
}

impl<T> vstd::std_specs::convert::FromSpecImpl<Vec<T>> for SplitVec<T, Doubling> {
    open spec fn obeys_from_spec() -> bool {
        false
    }

    open spec fn from_spec(v: Vec<T>) -> Self {
        choose|s: Self| s@ == v@
    }
}

/// The smallest exponent `e` with `2^e > len`, when it is below the linear
/// strategy's limit.
fn linear_exponent_for(len: usize) -> (e: usize)
    requires
        len < pow2((linear_exponent_limit() - 1) as nat),
    ensures
        e < linear_exponent_limit(),
        len < pow2(e as nat),
        e > 0 ==> pow2((e - 1) as nat) <= len,
{
    let limit: usize = if usize::BITS == 64 {
        32
    } else {
        29
    };
    let mut e: usize = 0;
    proof {
        lemma2_to64();
    }
    while !(len < Linear::new(e).constant_fragment_capacity())
        invariant
            limit == linear_exponent_limit(),
            e < limit,
            len < pow2((limit - 1) as nat),
            e > 0 ==> pow2((e - 1) as nat) <= len,
        decreases limit - e,
    {
        proof {
            if e + 1 >= limit {
                assert(e == limit - 1);
            }
        }
        e += 1;
    }
    e
}

impl<T> From<Vec<T>> for SplitVec<T, Linear> {
    /// Converts a `Vec` into a linear split vector: the vector becomes the
    /// only fragment, and every fragment holds the smallest power of two of
    /// elements above its length.
    ///
    /// A vector whose length reaches the largest fragment capacity is kept as
    /// a single fragment, which is not a valid linear layout.
    fn from(value: Vec<T>) -> (v: Self)
        ensures
            v@ == value@,
            value@.len() < pow2((linear_exponent_limit() - 1) as nat) ==> {
                &&& v.wf()
                &&& v.frags().len() == 1
                &&& value@.len() < v.spec_growth().spec_fragment_capacity()
                &&& v.spec_growth().exponent() > 0 ==> pow2((v.spec_growth().exponent() - 1) as nat)
                    <= value@.len()
                &&& v.spec_fragments_capacity() == 1
            },
    {
        let len = value.len();
        let limit: usize = if usize::BITS == 64 {
            32
        } else {
            29
        };
        let largest = Linear::new(limit - 1).constant_fragment_capacity();
        if len >= largest {
            let fragment = Fragment::from_vec(value);
            let fragments = Self::single_fragment(fragment, 1);
            let v = Self::from_raw_parts(len, fragments, Linear::new(limit - 1), 1);
            proof {
                lemma_split_vec_fields(&v);
                assert(v.fragment_views() =~= seq![value@]);
                seq![value@].lemma_flatten_singleton();
            }
            return v;
        }
        let e = linear_exponent_for(len);
        let growth = Linear::new(e);
        let capacity = growth.constant_fragment_capacity();
        let fragment = Fragment::new(capacity, value);
        let fragments = Self::single_fragment(fragment, 1);
        let v = Self::from_raw_parts(len, fragments, growth, 1);
        proof {
            lemma_split_vec_fields(&v);
            assert(v.fragment_views() =~= seq![value@]);
            seq![value@].lemma_flatten_singleton();
            lemma_pow2_pos(e as nat);
            assert(1 <= (usize::MAX as nat) / growth.spec_fragment_capacity()) by (nonlinear_arith)
                requires
                    1 <= growth.spec_fragment_capacity() <= usize::MAX,
            ;
            assert(all_wf(v.frags())) by {
                assert(v.frags()[0].wf());
            }
            assert(v.lens() =~= seq![len as nat]);
            assert(v.lens().drop_last() =~= Seq::<nat>::empty());
            assert(sum_lens(Seq::<nat>::empty()) == 0);
        }
        v
    }
}

impl<T> vstd::std_specs::convert::FromSpecImpl<Vec<T>> for SplitVec<T, Linear> {
    open spec fn obeys_from_spec() -> bool {
        false
    }

    open spec fn from_spec(v: Vec<T>) -> Self {
        choose|s: Self| s@ == v@
    }
}

impl<T> From<Vec<T>> for SplitVec<T, Recursive> {
    /// Converts a `Vec` into a recursive split vector without moving its
    /// elements: the vector becomes the only fragment, with the capacity it
    /// has; a vector without any capacity gives the empty first fragment of
    /// capacity 4 instead.
    fn from(value: Vec<T>) -> (v: Self)
        ensures
            v.wf(),
            v@ == value@,
            v.frags().len() == 1,
            v.caps()[0] >= value@.len(),
            v.spec_fragments_capacity() == 1,
            value@.len() > 0 ==> v.frags()[0].storage() == value,
            v.frags()[0].storage() == value || v.caps()[0] == 4,
    {
        let len = value.len();
        let fragment = Fragment::from_vec(value);
        if fragment.capacity() == 0 {
            Self::from_fragments_of(SplitVec::<T, Doubling>::with_doubling_growth_and_fragments_capacity(1))
        } else {
            let fragments = Self::single_fragment(fragment, 1);
            let v = Self::from_raw_parts(len, fragments, Recursive, 1);
            proof {
                lemma_split_vec_fields(&v);
                assert(v.fragment_views() =~= seq![value@]);
                seq![value@].lemma_flatten_singleton();
                assert(all_wf(v.frags())) by {
                    assert(v.frags()[0].wf());
                }
                assert(v.lens().drop_last() =~= Seq::<nat>::empty());
                assert(sum_lens(Seq::<nat>::empty()) == 0);
                assert(v.caps().drop_last() =~= Seq::<usize>::empty());
                assert(sum_caps(Seq::<usize>::empty()) == 0);
            }
            v
        }
    }
}

impl<T> vstd::std_specs::convert::FromSpecImpl<Vec<T>> for SplitVec<T, Recursive> {
    open spec fn obeys_from_spec() -> bool {
        false
    }

    open spec fn from_spec(v: Vec<T>) -> Self {
        choose|s: Self| s@ == v@
    }
}

impl<T, G: Growth> From<SplitVec<T, G>> for Vec<T> {
    /// Converts the split vector into a standard `Vec` with a contiguous
    /// memory layout, moving the elements of each fragment in order.
    fn from(value: SplitVec<T, G>) -> (v: Vec<T>)
        ensures
            v@ == value@,
    {
        proof {
            lemma_split_vec_fields(&value);
        }
        let SplitVec { len, fragments, growth, fragments_capacity } = value;
        let mut vec: Vec<T> = Vec::with_capacity(len);
        let mut fragments = fragments;
        proof {
            assert(vec@ + views_of(fragments@).flatten() =~= value@);
        }
        while fragments.len() > 0
            invariant
                vec@ + views_of(fragments@).flatten() == value@,
            decreases fragments@.len(),
        {
            let ghost before = fragments@;
            let fragment = fragments.remove(0);
            let mut data = fragment.into_vec();
            vec.append(&mut data);
            proof {
                assert(before =~= seq![fragment] + fragments@);
                assert(views_of(before) =~= seq![fragment@] + views_of(fragments@));
                lemma_flatten_prepend(fragment@, views_of(fragments@));
            }
        }
        proof {
            assert(views_of(fragments@) =~= Seq::<Seq<T>>::empty());
            assert(vec@ =~= value@);
        }
        vec
    }
}

impl<T, G: Growth> vstd::std_specs::convert::FromSpecImpl<SplitVec<T, G>> for Vec<T> {
    open spec fn obeys_from_spec() -> bool {
        false
    }

    open spec fn from_spec(v: SplitVec<T, G>) -> Self {
        choose|s: Self| s@ == v@
    }
}

impl<T, G: Growth> SplitVec<T, G> {
    /// Converts the split vector into a standard `Vec` with a contiguous
    /// memory layout.
    pub fn to_vec(self) -> (v: Vec<T>)
        ensures
            v@ == self@,
    {
        <Vec<T> as From<SplitVec<T, G>>>::from(self)
    }
}

impl<T> Default for SplitVec<T, Doubling> {
    /// Creates an empty split vector with the doubling growth strategy.
    fn default() -> (v: Self)
        ensures
            v.wf(),
            v@ == Seq::<T>::empty(),
            v.caps() == seq![4usize],
    {
        Self::with_doubling_growth()
    }
}

impl<T> Default for SplitVec<T, Recursive> {
    /// Creates an empty split vector with the recursive growth strategy.
    fn default() -> (v: Self)
        ensures
            v.wf(),
            v@ == Seq::<T>::empty(),
            v.caps() == seq![4usize],
    {
        Self::with_recursive_growth()
    }
}

} // verus!

//! Growth strategies: how large each new fragment of a split vector is, and
//! how an element's position is found among the fragments.
use crate::fragment::{caps_of, lens_of_fragments, Fragment};
use crate::idx::SplitIndex;
use crate::layout::{fits, full_prefix, is_location, sum_caps, sum_lens};
use vstd::prelude::*;
use vstd::string::StringExecFns;

pub mod doubling;
pub mod linear;
pub mod recursive;
pub mod fixed;

verus! {

/// The decimal digit of `d`, for `d < 10`.
pub open spec fn decimal_digit(d: nat) -> char {
    if d == 0 {
        '0'
    } else if d == 1 {
        '1'
    } else if d == 2 {
        '2'
    } else if d == 3 {
        '3'
    } else if d == 4 {
        '4'
    } else if d == 5 {
        '5'
    } else if d == 6 {
        '6'
    } else if d == 7 {
        '7'
    } else if d == 8 {
        '8'
    } else {
        '9'
    }
}

/// The decimal notation of `n`, without leading zeros.
pub open spec fn decimal_text(n: nat) -> Seq<char>
    decreases n,
{
    if n < 10 {
        seq![decimal_digit(n)]
    } else {
        decimal_text(n / 10).push(decimal_digit(n % 10))
    }
}

/// The text of the error reported when a growth strategy cannot reach a
/// requested capacity; `strategy` names the strategy in the text and `limit`
/// is the largest capacity it reaches.
pub open spec fn capacity_limit_message(strategy: Seq<char>, limit: usize) -> Seq<char> {
    "Maximum cumulative capacity that can be reached"@ + strategy + " is "@ + decimal_text(limit as nat)
        + "."@
}

/// The text of the decimal digit `d`, for `d < 10`.
fn digit_str(d: usize) -> (s: &'static str)
    requires
        d < 10,
    ensures
        s@ == seq![decimal_digit(d as nat)],
{
    if d == 0 {
        proof { reveal_strlit("0"); }
        "0"
    } else if d == 1 {
        proof { reveal_strlit("1"); }
        "1"
    } else if d == 2 {
        proof { reveal_strlit("2"); }
        "2"
    } else if d == 3 {
        proof { reveal_strlit("3"); }
        "3"
    } else if d == 4 {
        proof { reveal_strlit("4"); }
        "4"
    } else if d == 5 {
        proof { reveal_strlit("5"); }
        "5"
    } else if d == 6 {
        proof { reveal_strlit("6"); }
        "6"
    } else if d == 7 {
        proof { reveal_strlit("7"); }
        "7"
    } else if d == 8 {
        proof { reveal_strlit("8"); }
        "8"
    } else {
        proof { reveal_strlit("9"); }
        "9"
    }
}

/// The decimal notation of `n`, most significant digit first.
fn decimal_string(n: usize) -> (s: String)
    ensures
        s@ == decimal_text(n as nat),
    decreases n,
{
    if n < 10 {
        String::from_str(digit_str(n))
    } else {
        let head = decimal_string(n / 10);
        let s = head.concat(digit_str(n % 10));
        assert(s@ == decimal_text((n / 10) as nat).push(decimal_digit((n % 10) as nat)));
        s
    }
}

/// Formats the error reported when a growth strategy cannot reach a requested
/// capacity.
pub(crate) fn format_capacity_limit(strategy: &str, limit: usize) -> (s: String)
    ensures
        s@ == capacity_limit_message(strategy@, limit),
{
    let s = "Maximum cumulative capacity that can be reached".to_owned();
    let s = s.concat(strategy);
    let s = s.concat(" is ");
    let digits = decimal_string(limit);
    let s = s.concat(digits.as_str());
    s.concat(".")
}

/// The capacities of the given fragments, in order.
pub fn fragment_capacities<T>(fragments: &[Fragment<T>]) -> (caps: Vec<usize>)
    ensures
        caps@ == caps_of(fragments@),
{
    let mut caps: Vec<usize> = Vec::with_capacity(fragments.len());
    let mut k: usize = 0;
    while k < fragments.len()
        invariant
            k <= fragments@.len(),
            caps@ == caps_of(fragments@).take(k as int),
        decreases fragments@.len() - k,
    {
        caps.push(fragments[k].capacity());
        k += 1;
        assert(caps@ =~= caps_of(fragments@).take(k as int));
    }
    assert(caps@ =~= caps_of(fragments@));
    caps
}

/// The location of the element with flat index `index` found by walking the
/// fragments in order: the fragment holding it and its index within that
/// fragment, or `None` when `index` is not below the total number of elements.
pub open spec fn scan_location(lens: Seq<nat>, index: nat) -> Option<(usize, usize)> {
    if index < sum_lens(lens) {
        let (f, i) = choose|f: int, i: int| is_location(lens, f, i, index as int);
        Some((f as usize, i as usize))
    } else {
        None
    }
}

/// The fragment capacities after the strategy adds `k` more fragments.
pub open spec fn grown_caps<G: Growth>(growth: G, caps: Seq<usize>, k: nat) -> Seq<usize>
    decreases k,
{
    if k == 0 {
        caps
    } else {
        let c = grown_caps(growth, caps, (k - 1) as nat);
        c.push(growth.spec_new_capacity(c) as usize)
    }
}

/// How a strategy's answers on capacity follow from the fragment capacities
/// it adds: the maximum concurrent capacity and the number of fragments
/// required for a capacity are those of the fragments there are followed by
/// those the strategy adds, one after another.
pub trait GrowthCapacities: Growth {
    /// The maximum concurrent capacity is the total capacity of the fragments
    /// once the strategy has added fragments, one after another, until there
    /// are `fragments_capacity` of them.
    proof fn lemma_concurrent_capacity_grown(&self, caps: Seq<usize>, fragments_capacity: nat)
        requires
            self.wf_growth(),
            self.valid_caps(caps),
            caps.len() <= fragments_capacity,
            self.maximum_concurrent_capacity_defined(caps, fragments_capacity),
            fragments_capacity == caps.len() || self.can_grow(caps),
        ensures
            self.spec_maximum_concurrent_capacity(caps, fragments_capacity) == sum_caps(
                grown_caps(*self, caps, (fragments_capacity - caps.len()) as nat),
            ),
    ;

    /// The maximum concurrent capacity covers the capacity of the fragments
    /// there are.
    proof fn lemma_concurrent_covers_capacity(&self, caps: Seq<usize>, fragments_capacity: nat)
        requires
            self.wf_growth(),
            self.valid_caps(caps),
            caps.len() <= fragments_capacity,
            self.maximum_concurrent_capacity_defined(caps, fragments_capacity),
        ensures
            self.spec_maximum_concurrent_capacity(caps, fragments_capacity) >= sum_caps(caps),
    ;

    /// The number of fragments required for `maximum_capacity` is one whose
    /// fragments, those there are followed by those the strategy adds, hold
    /// `maximum_capacity`; beyond the fragments there are, it is the fewest
    /// such number.
    proof fn lemma_required_fragments_len_fewest(&self, caps: Seq<usize>, maximum_capacity: nat)
        requires
            self.wf_growth(),
            self.valid_caps(caps),
        ensures
            self.spec_required_fragments_len(caps, maximum_capacity) matches Some(n) ==> {
                &&& layout_total(*self, caps, n) >= maximum_capacity
                &&& n > caps.len() ==> layout_total(*self, caps, (n - 1) as nat) < maximum_capacity
            },
    ;
}

/// The total capacity of the first `n` fragments of a vector with fragment
/// capacities `caps`: those there are, followed by those the strategy adds.
pub open spec fn layout_total<G: Growth>(growth: G, caps: Seq<usize>, n: nat) -> nat {
    if n <= caps.len() {
        sum_caps(caps.take(n as int))
    } else {
        sum_caps(grown_caps(growth, caps, (n - caps.len()) as nat))
    }
}

/// The strategy can add `k` more fragments, one after another.
pub open spec fn can_grow_times<G: Growth>(growth: G, caps: Seq<usize>, k: nat) -> bool {
    forall|j: nat| j < k ==> growth.can_grow(#[trigger] grown_caps(growth, caps, j))
}

/// Adding `j` fragments after one more is adding `j + 1`.
pub proof fn lemma_grown_caps_step<G: Growth>(growth: G, caps: Seq<usize>, j: nat)
    ensures
        grown_caps(growth, caps.push(growth.spec_new_capacity(caps) as usize), j) == grown_caps(
            growth,
            caps,
            j + 1,
        ),
    decreases j,
{
    let c1 = caps.push(growth.spec_new_capacity(caps) as usize);
    if j > 0 {
        lemma_grown_caps_step(growth, caps, (j - 1) as nat);
        assert(grown_caps(growth, c1, j) == grown_caps(growth, c1, (j - 1) as nat).push(
            growth.spec_new_capacity(grown_caps(growth, c1, (j - 1) as nat)) as usize,
        ));
    } else {
        assert(grown_caps(growth, caps, 0) == caps);
        assert(grown_caps(growth, caps, 1) == grown_caps(growth, caps, 0).push(
            growth.spec_new_capacity(grown_caps(growth, caps, 0)) as usize,
        ));
    }
}

/// Growth strategy of a split vector.
///
/// A strategy decides the capacity of every new fragment from the capacities
/// of the fragments that exist, and finds where an element is stored.
/// Each strategy states the fragment capacities it lays out (`valid_caps`)
/// and proves that its laws hold of them.
pub trait Growth: Sized {
    /// The strategy's own parameters are valid.
    spec fn wf_growth(&self) -> bool;

    /// Capacity of the fragment that follows fragments with the given capacities.
    spec fn spec_new_capacity(&self, caps: Seq<usize>) -> nat;

    /// The fragment capacities that a split vector with this strategy can have.
    spec fn valid_caps(&self, caps: Seq<usize>) -> bool;

    /// A fragment can be added after fragments with the given capacities,
    /// within the limits of the strategy and of `usize`.
    spec fn can_grow(&self, caps: Seq<usize>) -> bool;

    /// The strategy finds an element from its index alone, which needs every
    /// fragment but the last to be full.
    spec fn keeps_full_prefix(&self) -> bool;

    /// The largest number of fragments the strategy lets a vector reach.
    spec fn max_fragments(&self) -> nat;

    /// The location `get_fragment_and_inner_indices` reports for `index`,
    /// given the vector's length and the lengths of its fragments.
    spec fn spec_locate(&self, vec_len: nat, lens: Seq<nat>, index: nat) -> Option<(usize, usize)>;

    /// `get_fragment_and_inner_indices` can compute a location for `index`.
    spec fn can_locate(&self, vec_len: nat, index: nat) -> bool;

    /// The capacity that can be reached without moving the fragments
    /// collection, once that collection can hold `fragments_capacity` fragments.
    spec fn spec_maximum_concurrent_capacity(&self, caps: Seq<usize>, fragments_capacity: nat) -> nat;

    /// The maximum concurrent capacity for these arguments is defined and fits in `usize`.
    spec fn maximum_concurrent_capacity_defined(&self, caps: Seq<usize>, fragments_capacity: nat) -> bool;

    /// The number of fragments needed to reach `maximum_capacity`, or `None` when
    /// the strategy cannot reach it.
    spec fn spec_required_fragments_len(&self, caps: Seq<usize>, maximum_capacity: nat) -> Option<nat>;

    /// The text of the error reported when `maximum_capacity` cannot be reached.
    spec fn spec_required_fragments_error(&self, caps: Seq<usize>) -> Seq<char>;

    /// The largest concurrent capacity the strategy can ever provide.
    spec fn spec_maximum_concurrent_capacity_bound(&self) -> nat;

    /// A vector with no fragments has valid capacities.
    proof fn lemma_valid_empty(&self)
        requires
            self.wf_growth(),
        ensures
            self.valid_caps(Seq::<usize>::empty()),
    ;

    /// Valid capacities stay valid when the last fragments are dropped.
    proof fn lemma_valid_prefix(&self, caps: Seq<usize>, k: int)
        requires
            self.wf_growth(),
            self.valid_caps(caps),
            0 <= k <= caps.len(),
        ensures
            self.valid_caps(caps.take(k)),
    ;

    /// When the strategy can grow, the new fragment has a positive capacity,
    /// the total capacity still fits in `usize`, and the capacities stay valid.
    proof fn lemma_grow(&self, caps: Seq<usize>)
        requires
            self.wf_growth(),
            self.valid_caps(caps),
            self.can_grow(caps),
        ensures
            0 < self.spec_new_capacity(caps),
            sum_caps(caps) + self.spec_new_capacity(caps) <= usize::MAX,
            self.valid_caps(caps.push(self.spec_new_capacity(caps) as usize)),
            caps.len() < self.max_fragments(),
    ;

    /// Valid capacities never exceed the number of fragments the strategy allows,
    /// and their sum fits in `usize`.
    proof fn lemma_valid_bounds(&self, caps: Seq<usize>)
        requires
            self.wf_growth(),
            self.valid_caps(caps),
        ensures
            caps.len() <= self.max_fragments(),
            sum_caps(caps) <= usize::MAX,
            self.max_fragments() <= usize::MAX,
    ;

    /// Every fragment after the first has a positive capacity.
    proof fn lemma_caps_positive(&self, caps: Seq<usize>, k: int)
        requires
            self.wf_growth(),
            self.valid_caps(caps),
            0 < k < caps.len(),
        ensures
            caps[k] > 0,
    ;

    /// Any fragment but the first can be dropped when the strategy does not
    /// keep its fragments full, or when the fragment holds a single element.
    proof fn lemma_valid_remove(&self, caps: Seq<usize>, k: int)
        requires
            self.wf_growth(),
            self.valid_caps(caps),
            !self.keeps_full_prefix() || caps[k] < 2,
            0 < k < caps.len(),
        ensures
            self.valid_caps(caps.remove(k)),
    ;

    /// On the layout it maintains, the strategy finds every element: the
    /// reported location is where the element is stored, and indices beyond
    /// the length have no location.
    proof fn lemma_locate(&self, caps: Seq<usize>, lens: Seq<nat>, index: nat)
        requires
            self.wf_growth(),
            self.valid_caps(caps),
            fits(caps, lens),
            self.keeps_full_prefix() ==> full_prefix(caps, lens),
        ensures
            self.can_locate(sum_lens(lens), index),
            index < sum_lens(lens) ==> (self.spec_locate(sum_lens(lens), lens, index) matches Some(
                (f, i),
            ) && is_location(lens, f as int, i as int, index as int)),
            index >= sum_lens(lens) ==> self.spec_locate(sum_lens(lens), lens, index) is None,
    ;

    /// Given that the split vector has no fragments yet, returns the capacity
    /// of the first fragment.
    fn first_fragment_capacity(&self) -> (c: usize)
        requires
            self.wf_growth(),
            self.spec_new_capacity(Seq::<usize>::empty()) <= usize::MAX,
        ensures
            c == self.spec_new_capacity(Seq::<usize>::empty()),
    {
        let caps: Vec<usize> = Vec::new();
        proof {
            assert(caps@ =~= Seq::<usize>::empty());
        }
        self.new_fragment_capacity_from(caps.as_slice())
    }

    /// Given that the split vector contains the given `fragments`, returns the
    /// capacity of the next fragment.
    fn new_fragment_capacity<T>(&self, fragments: &[Fragment<T>]) -> (c: usize)
        requires
            self.wf_growth(),
            self.spec_new_capacity(caps_of(fragments@)) <= usize::MAX,
        ensures
            c == self.spec_new_capacity(caps_of(fragments@)),
    {
        let caps = fragment_capacities(fragments);
        self.new_fragment_capacity_from(caps.as_slice())
    }

    /// Given that the split vector contains fragments with the given
    /// `fragment_capacities`, returns the capacity of the next fragment.
    fn new_fragment_capacity_from(&self, fragment_capacities: &[usize]) -> (c: usize)
        requires
            self.wf_growth(),
            self.spec_new_capacity(fragment_capacities@) <= usize::MAX,
        ensures
            c == self.spec_new_capacity(fragment_capacities@),
    ;

    /// Returns whether the strategy can add a fragment after fragments with the
    /// given `fragment_capacities`, within its limits and those of `usize`.
    fn can_grow_from(&self, fragment_capacities: &[usize]) -> (b: bool)
        requires
            self.wf_growth(),
            self.valid_caps(fragment_capacities@),
        ensures
            b == self.can_grow(fragment_capacities@),
    ;

    /// Returns the location of the element with the given `element_index` as a
    /// tuple of (fragment-index, index-within-fragment); `None` if it is out of bounds.
    fn get_fragment_and_inner_indices<T>(
        &self,
        vec_len: usize,
        fragments: &[Fragment<T>],
        element_index: usize,
    ) -> (r: Option<(usize, usize)>)
        requires
            self.wf_growth(),
            self.can_locate(vec_len as nat, element_index as nat),
        ensures
            r == self.spec_locate(vec_len as nat, lens_of_fragments(fragments@), element_index as nat),
    ;

    /// Returns the maximum number of elements that can safely be stored in a
    /// concurrent program, that is, without the fragments collection moving,
    /// when that collection can hold `fragments_capacity` fragments.
    fn maximum_concurrent_capacity<T>(&self, fragments: &[Fragment<T>], fragments_capacity: usize) -> (c: usize)
        requires
            self.wf_growth(),
            fragments_capacity >= fragments@.len(),
            self.maximum_concurrent_capacity_defined(caps_of(fragments@), fragments_capacity as nat),
        ensures
            c == self.spec_maximum_concurrent_capacity(caps_of(fragments@), fragments_capacity as nat),
    ;

    /// Returns the number of fragments needed to reach a capacity of
    /// `maximum_capacity`, or the error when the strategy cannot reach it.
    fn required_fragments_len<T>(&self, fragments: &[Fragment<T>], maximum_capacity: usize) -> (r: Result<usize, String>)
        requires
            self.wf_growth(),
            self.valid_caps(caps_of(fragments@)),
        ensures
            match self.spec_required_fragments_len(caps_of(fragments@), maximum_capacity as nat) {
                Some(n) => r == Ok::<usize, String>(n as usize),
                None => r matches Err(e) && e@ == self.spec_required_fragments_error(caps_of(fragments@)),
            },
    ;

    /// Returns the maximum possible bound on concurrent capacity.
    fn maximum_concurrent_capacity_bound<T>(&self, fragments: &[Fragment<T>], fragments_capacity: usize) -> (c: usize)
        requires
            self.wf_growth(),
        ensures
            c == self.spec_maximum_concurrent_capacity_bound(),
    ;
}

/// Returns the maximum concurrent capacity found by letting the strategy add
/// fragments, one after another, until there are `fragments_capacity` of
/// them, and summing all capacities: the way any strategy can answer it.
pub fn maximum_concurrent_capacity_by_growing<G: Growth, T>(
    growth: &G,
    fragments: &[Fragment<T>],
    fragments_capacity: usize,
) -> (c: usize)
    requires
        growth.wf_growth(),
        growth.valid_caps(caps_of(fragments@)),
        fragments@.len() <= fragments_capacity,
        can_grow_times(*growth, caps_of(fragments@), (fragments_capacity - fragments@.len()) as nat),
    ensures
        c == sum_caps(grown_caps(*growth, caps_of(fragments@), (fragments_capacity - fragments@.len()) as nat)),
{
    let ghost caps0 = caps_of(fragments@);
    let mut caps = fragment_capacities(fragments);
    let mut j: usize = fragments.len();
    proof {
        growth.lemma_valid_bounds(caps0);
        assert(grown_caps(*growth, caps0, 0) == caps0);
    }
    while j < fragments_capacity
        invariant
            growth.wf_growth(),
            caps0 == caps_of(fragments@),
            fragments@.len() <= j <= fragments_capacity,
            can_grow_times(*growth, caps0, (fragments_capacity - fragments@.len()) as nat),
            caps@ == grown_caps(*growth, caps0, (j - fragments@.len()) as nat),
            growth.valid_caps(caps@),
        decreases fragments_capacity - j,
    {
        let ghost k = (j - fragments@.len()) as nat;
        proof {
            assert(growth.can_grow(grown_caps(*growth, caps0, k)));
            growth.lemma_grow(caps@);
        }
        let c = growth.new_fragment_capacity_from(caps.as_slice());
        caps.push(c);
        j += 1;
    }
    let mut total: usize = 0;
    let mut i: usize = 0;
    proof {
        growth.lemma_valid_bounds(caps@);
    }
    while i < caps.len()
        invariant
            i <= caps@.len(),
            total == sum_caps(caps@.take(i as int)),
            sum_caps(caps@) <= usize::MAX,
        decreases caps@.len() - i,
    {
        proof {
            crate::layout::lemma_sum_caps_take(caps@, i as int);
            crate::layout::lemma_sum_caps_take_mono(caps@, i as int + 1, caps@.len() as int);
            crate::layout::lemma_sum_caps_take_all(caps@);
        }
        total = total + caps[i];
        i += 1;
    }
    proof {
        crate::layout::lemma_sum_caps_take_all(caps@);
    }
    total
}

/// Returns the number of fragments needed to reach a capacity of
/// `maximum_capacity`, found by letting the strategy add fragments, one after
/// another, to those there are until their capacities reach it: the way any
/// strategy can answer it. Returns the error when the strategy cannot add the
/// next fragment needed, within its limits and those of `usize`.
pub fn required_fragments_len_by_growing<G: Growth, T>(
    growth: &G,
    fragments: &[Fragment<T>],
    maximum_capacity: usize,
) -> (r: Result<usize, String>)
    requires
        growth.wf_growth(),
        growth.valid_caps(caps_of(fragments@)),
    ensures
        match r {
            Ok(n) => {
                &&& n >= fragments@.len()
                &&& can_grow_times(*growth, caps_of(fragments@), (n - fragments@.len()) as nat)
                &&& sum_caps(grown_caps(*growth, caps_of(fragments@), (n - fragments@.len()) as nat))
                    >= maximum_capacity
                &&& n > fragments@.len() ==> sum_caps(
                    grown_caps(*growth, caps_of(fragments@), (n - 1 - fragments@.len()) as nat),
                ) < maximum_capacity
            },
            Err(e) => {
                &&& e@ == capacity_limit_message(""@, usize::MAX)
                &&& exists|j: nat|
                    can_grow_times(*growth, caps_of(fragments@), j) && !growth.can_grow(
                        #[trigger] grown_caps(*growth, caps_of(fragments@), j),
                    ) && sum_caps(grown_caps(*growth, caps_of(fragments@), j)) < maximum_capacity
            },
        },
{
    let ghost caps0 = caps_of(fragments@);
    let ghost len = fragments@.len();
    let mut caps = fragment_capacities(fragments);
    proof {
        growth.lemma_valid_bounds(caps0);
        assert(grown_caps(*growth, caps0, 0) == caps0);
    }
    let mut total: usize = 0;
    let mut i: usize = 0;
    while i < caps.len()
        invariant
            caps@ == caps0,
            i <= caps@.len(),
            total == sum_caps(caps@.take(i as int)),
            sum_caps(caps@) <= usize::MAX,
        decreases caps@.len() - i,
    {
        proof {
            crate::layout::lemma_sum_caps_take(caps@, i as int);
            crate::layout::lemma_sum_caps_take_mono(caps@, i as int + 1, caps@.len() as int);
            crate::layout::lemma_sum_caps_take_all(caps@);
        }
        total = total + caps[i];
        i += 1;
    }
    proof {
        crate::layout::lemma_sum_caps_take_all(caps@);
    }
    let mut n: usize = fragments.len();
    while total < maximum_capacity
        invariant
            growth.wf_growth(),
            caps0 == caps_of(fragments@),
            len == fragments@.len(),
            len <= n,
            caps@.len() == n,
            caps@ == grown_caps(*growth, caps0, (n - len) as nat),
            can_grow_times(*growth, caps0, (n - len) as nat),
            growth.valid_caps(caps@),
            total == sum_caps(caps@),
            n > len ==> sum_caps(grown_caps(*growth, caps0, (n - 1 - len) as nat)) < maximum_capacity,
        decreases growth.max_fragments() - caps@.len(),
    {
        let ghost k = (n - len) as nat;
        if !growth.can_grow_from(caps.as_slice()) {
            proof {
                assert(can_grow_times(*growth, caps0, k) && !growth.can_grow(grown_caps(*growth, caps0, k))
                    && sum_caps(grown_caps(*growth, caps0, k)) < maximum_capacity);
            }
            return Err(format_capacity_limit("", usize::MAX));
        }
        let ghost before = caps@;
        proof {
            growth.lemma_grow(caps@);
            growth.lemma_valid_bounds(caps@.push(growth.spec_new_capacity(caps@) as usize));
        }
        let c = growth.new_fragment_capacity_from(caps.as_slice());
        caps.push(c);
        proof {
            assert(caps@.drop_last() =~= before);
            assert(grown_caps(*growth, caps0, k + 1) == before.push(c));
            assert forall|j: nat| j < k + 1 implies growth.can_grow(#[trigger] grown_caps(*growth, caps0, j)) by {
                if j < k {
                    assert(growth.can_grow(grown_caps(*growth, caps0, j)));
                }
            }
        }
        total = total + c;
        n = n + 1;
    }
    Ok(n)
}

/// ***O(fragments.len())*** Returns the location of the element with the given
/// `element_index` as a tuple of (fragment-index, index-within-fragment), found
/// by walking the fragments; `None` if the element index is out of bounds.
pub fn get_fragment_and_inner_indices<T>(fragments: &[Fragment<T>], element_index: usize) -> (r: Option<(usize, usize)>)
    ensures
        r == scan_location(lens_of_fragments(fragments@), element_index as nat),
{
    let ghost lens = lens_of_fragments(fragments@);
    let mut prev_end: usize = 0;
    let mut f: usize = 0;
    while f < fragments.len()
        invariant
            f <= fragments@.len(),
            lens == lens_of_fragments(fragments@),
            prev_end == crate::layout::offset(lens, f as int),
            prev_end <= element_index,
        decreases fragments@.len() - f,
    {
        proof {
            crate::layout::lemma_sum_lens_take(lens, f as int);
        }
        let len = fragments[f].len();
        if element_index - prev_end < len {
            let i = element_index - prev_end;
            proof {
                assert(is_location(lens, f as int, i as int, element_index as int));
                crate::layout::lemma_location_bound(lens, f as int, i as int, element_index as int);
                let (f2, i2) = choose|f2: int, i2: int| is_location(lens, f2, i2, element_index as int);
                crate::layout::lemma_location_unique(lens, f as int, i as int, f2, i2, element_index as int);
            }
            return Some((f, i));
        }
        prev_end = prev_end + len;
        f += 1;
    }
    proof {
        crate::layout::lemma_sum_lens_take_all(lens);
    }
    None
}

/// The capacities of fragments, as natural numbers.
pub open spec fn caps_as_lens(caps: Seq<usize>) -> Seq<nat> {
    Seq::new(caps.len(), |k: int| caps[k] as nat)
}

/// ***O(fragments.len())*** Returns the position with the given `index` within
/// the capacity of the fragments as a tuple of (fragment-index,
/// index-within-fragment), found by walking the fragments' capacities; `None`
/// if the index is not below their total capacity.
///
/// The position may lie beyond the vector's length: it is where the element
/// with that index is stored once the vector holds it, as long as every
/// fragment but the last is full.
pub fn get_capacity_indices<T>(fragments: &[Fragment<T>], index: usize) -> (r: Option<(usize, usize)>)
    ensures
        r == scan_location(caps_as_lens(caps_of(fragments@)), index as nat),
{
    let ghost lens = caps_as_lens(caps_of(fragments@));
    let mut prev_end: usize = 0;
    let mut f: usize = 0;
    while f < fragments.len()
        invariant
            f <= fragments@.len(),
            lens == caps_as_lens(caps_of(fragments@)),
            prev_end == crate::layout::offset(lens, f as int),
            prev_end <= index,
        decreases fragments@.len() - f,
    {
        proof {
            crate::layout::lemma_sum_lens_take(lens, f as int);
        }
        let cap = fragments[f].capacity();
        if index - prev_end < cap {
            let i = index - prev_end;
            proof {
                assert(is_location(lens, f as int, i as int, index as int));
                crate::layout::lemma_location_bound(lens, f as int, i as int, index as int);
                let (f2, i2) = choose|f2: int, i2: int| is_location(lens, f2, i2, index as int);
                crate::layout::lemma_location_unique(lens, f as int, i as int, f2, i2, index as int);
            }
            return Some((f, i));
        }
        prev_end = prev_end + cap;
        f += 1;
    }
    proof {
        crate::layout::lemma_sum_lens_take_all(lens);
    }
    None
}

/// Growth strategy of a split vector which allows for constant time access to
/// the elements: an element's location follows from its index alone.
pub trait GrowthWithConstantTimeAccess: Growth {
    /// The location of the element with flat index `index`, as long as every
    /// fragment before it is full.
    spec fn spec_location_unchecked(&self, index: nat) -> (usize, usize);

    /// The location of `index` can be computed.
    spec fn can_locate_unchecked(&self, index: nat) -> bool;

    /// Capacity of the fragment with the given index.
    spec fn spec_fragment_capacity_of(&self, fragment_index: nat) -> nat;

    /// Fragment capacities laid out by the strategy are the capacities it
    /// assigns to each fragment index.
    proof fn lemma_valid_caps_are_fragment_capacities(&self, caps: Seq<usize>, k: int)
        requires
            self.wf_growth(),
            self.valid_caps(caps),
            0 <= k < caps.len(),
        ensures
            caps[k] == self.spec_fragment_capacity_of(k as nat),
    ;

    /// ***O(1)*** Returns the location of the element with the given
    /// `element_index` as a tuple of (fragment-index, index-within-fragment),
    /// without a bounds check.
    fn get_fragment_and_inner_indices_unchecked(&self, element_index: usize) -> (r: (usize, usize))
        requires
            self.wf_growth(),
            self.can_locate_unchecked(element_index as nat),
        ensures
            r == self.spec_location_unchecked(element_index as nat),
    ;

    /// ***O(1)*** Returns the capacity of the fragment with the given `fragment_index`.
    fn fragment_capacity_of(&self, fragment_index: usize) -> (c: usize)
        requires
            self.wf_growth(),
            fragment_index < self.max_fragments(),
        ensures
            c == self.spec_fragment_capacity_of(fragment_index as nat),
    ;
}

/// The jagged index reached by walking fragments of lengths `lens` from
/// fragment `f`, with `idx` elements left to skip: the walk stops in the
/// fragment that holds the element, or at the start of the fragment reached
/// when nothing is left to skip.
pub open spec fn jagged_walk(lens: Seq<nat>, idx: nat, f: nat) -> (nat, nat)
    decreases lens.len() - f,
{
    if idx == 0 {
        (f, 0)
    } else if f >= lens.len() {
        (f, idx)
    } else if lens[f as int] > idx {
        (f, idx)
    } else {
        jagged_walk(lens, (idx - lens[f as int]) as nat, f + 1)
    }
}

/// A [`Growth`] that supports parallelization: the fragment and the index
/// within it of any flat index can be computed, so that the elements can be
/// split among threads by index.
pub trait ParGrowth: Growth {
    /// The jagged index reported for `flat_index` in fragments of lengths `lens`.
    spec fn spec_jagged_index(&self, lens: Seq<nat>, flat_index: nat) -> (nat, nat);

    /// The jagged index of `flat_index` can be computed.
    spec fn can_jagged_index(&self, lens: Seq<nat>, flat_index: nat) -> bool;

    /// On the layout the strategy maintains, the jagged index of an element
    /// of the vector is where it is stored.
    proof fn lemma_jagged_index(&self, caps: Seq<usize>, lens: Seq<nat>, flat_index: nat)
        requires
            self.wf_growth(),
            self.valid_caps(caps),
            fits(caps, lens),
            self.keeps_full_prefix() ==> full_prefix(caps, lens),
            forall|k: int| 0 <= k < lens.len() ==> #[trigger] lens[k] > 0,
            flat_index < sum_lens(lens),
        ensures
            self.can_jagged_index(lens, flat_index),
            is_location(
                lens,
                self.spec_jagged_index(lens, flat_index).0 as int,
                self.spec_jagged_index(lens, flat_index).1 as int,
                flat_index as int,
            ),
    ;

    /// Returns the fragment index and the index within the fragment of the
    /// element with the given flat index.
    fn jagged_index_unchecked<T>(&self, fragments: &[Fragment<T>], flat_index: usize) -> (r: SplitIndex)
        requires
            self.wf_growth(),
            self.can_jagged_index(lens_of_fragments(fragments@), flat_index as nat),
        ensures
            (r.f as nat, r.i as nat) == self.spec_jagged_index(lens_of_fragments(fragments@), flat_index as nat),
    ;
}

/// Walks the fragments, skipping their lengths, until the one holding the
/// element with flat index `flat_index`.
pub fn jagged_index_by_walking<T>(fragments: &[Fragment<T>], flat_index: usize) -> (r: SplitIndex)
    requires
        flat_index <= sum_lens(lens_of_fragments(fragments@)),
    ensures
        (r.f as nat, r.i as nat) == jagged_walk(lens_of_fragments(fragments@), flat_index as nat, 0),
{
    let ghost lens = lens_of_fragments(fragments@);
    let mut idx = flat_index;
    let mut f: usize = 0;
    let mut i: usize = 0;
    let mut current_f: usize = 0;
    proof {
        assert(lens.take(0) =~= Seq::<nat>::empty());
    }
    while idx > 0
        invariant
            lens == lens_of_fragments(fragments@),
            current_f <= lens.len(),
            idx > 0 ==> i == 0 && f == current_f && flat_index == crate::layout::offset(lens, current_f as int) + idx
                && jagged_walk(lens, flat_index as nat, 0) == jagged_walk(lens, idx as nat, current_f as nat),
            idx == 0 ==> jagged_walk(lens, flat_index as nat, 0) == (f as nat, i as nat),
            flat_index <= sum_lens(lens),
        decreases lens.len() - current_f,
    {
        proof {
            if current_f == lens.len() {
                crate::layout::lemma_sum_lens_take_all(lens);
                assert(false);
            }
            crate::layout::lemma_sum_lens_take(lens, current_f as int);
        }
        let current_len = fragments[current_f].len();
        if current_len > idx {
            i = idx;
            idx = 0;
        } else {
            f = f + 1;
            idx = idx - current_len;
            proof {
                assert(jagged_walk(lens, 0, (current_f + 1) as nat) == ((current_f + 1) as nat, 0nat));
            }
        }
        current_f = current_f + 1;
    }
    proof {
        if flat_index == 0 {
            assert(jagged_walk(lens, 0, 0) == (0nat, 0nat));
        }
    }
    SplitIndex::new(f, i)
}

/// On fragments that all hold an element, the walk reaches the location of
/// the element.
pub proof fn lemma_jagged_walk_location(lens: Seq<nat>, idx: nat, f: nat)
    requires
        forall|k: int| 0 <= k < lens.len() ==> #[trigger] lens[k] > 0,
        f <= lens.len(),
        crate::layout::offset(lens, f as int) + idx < sum_lens(lens),
    ensures
        is_location(
            lens,
            jagged_walk(lens, idx, f).0 as int,
            jagged_walk(lens, idx, f).1 as int,
            (crate::layout::offset(lens, f as int) + idx) as int,
        ),
    decreases lens.len() - f,
{
    if f == lens.len() {
        crate::layout::lemma_sum_lens_take_all(lens);
        assert(false);
    }
    crate::layout::lemma_sum_lens_take(lens, f as int);
    if idx == 0 {
        assert(lens[f as int] > 0);
    } else if lens[f as int] > idx {
    } else {
        lemma_jagged_walk_location(lens, (idx - lens[f as int]) as nat, f + 1);
    }
}

} // verus!

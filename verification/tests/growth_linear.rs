use orx_split_vec::{Doubling, Fragment, Growth, GrowthWithConstantTimeAccess, Linear, SplitVec};

const FIXED_CAPACITIES_LEN: usize = if usize::BITS == 64 { 32 } else { 29 };

fn max_cap<T>(vec: &SplitVec<T, Linear>) -> usize {
    vec.growth()
        .maximum_concurrent_capacity(vec.fragments(), vec.fragments_capacity())
}

#[test]
fn fragment_capacity_linear() {
    let growth = Linear::new(10);

    let capacity = u32::pow(2, 10) as usize;

    for f in 0..100 {
        assert_eq!(growth.fragment_capacity_of(f), capacity);
    }
}

#[test]
fn linear_reserve_for_maximum_concurrent_capacity() {
    let max_capacity = Linear::new(10).maximum_concurrent_capacity_bound::<char>(&[], 0);

    if usize::BITS == 32 {
        assert_eq!(max_capacity, 268_435_456);
    } else {
        assert_eq!(max_capacity, 2_147_483_648);
    }
}

#[test]
fn linear_growth_get_fragment_and_inner_indices() {
    let growth = Linear::new(2);

    let get = |index| growth.get_fragment_and_inner_indices::<char>(usize::MAX, &[], index);
    let get_none = |index| growth.get_fragment_and_inner_indices::<char>(index, &[], index);

    assert_eq!((0, 0), growth.get_fragment_and_inner_indices_unchecked(0));
    assert_eq!((0, 1), growth.get_fragment_and_inner_indices_unchecked(1));
    assert_eq!((1, 0), growth.get_fragment_and_inner_indices_unchecked(4));
    assert_eq!((2, 1), growth.get_fragment_and_inner_indices_unchecked(9));
    assert_eq!((4, 0), growth.get_fragment_and_inner_indices_unchecked(16));

    assert_eq!(Some((0, 0)), get(0));
    assert_eq!(Some((0, 1)), get(1));
    assert_eq!(Some((1, 0)), get(4));
    assert_eq!(Some((2, 1)), get(9));
    assert_eq!(Some((4, 0)), get(16));

    assert_eq!(None, get_none(0));
    assert_eq!(None, get_none(1));
    assert_eq!(None, get_none(4));
    assert_eq!(None, get_none(9));
    assert_eq!(None, get_none(16));
}

#[test]
fn linear_growth_get_fragment_and_inner_indices_exhaustive() {
    let growth = Linear::new(5);

    let get = |index| growth.get_fragment_and_inner_indices::<char>(usize::MAX, &[], index);
    let get_none = |index| growth.get_fragment_and_inner_indices::<char>(index, &[], index);

    let curr_capacity = 32;

    let mut f = 0;
    let mut prev_cumulative_capacity = 0;
    let mut cumulative_capacity = curr_capacity;

    for index in 0..51_111 {
        if index == cumulative_capacity {
            prev_cumulative_capacity = cumulative_capacity;
            cumulative_capacity += curr_capacity;
            f += 1;
        }

        let (f, i) = (f, index - prev_cumulative_capacity);
        assert_eq!(
            (f, i),
            growth.get_fragment_and_inner_indices_unchecked(index)
        );
        assert_eq!(Some((f, i)), get(index));
        assert_eq!(None, get_none(index));
    }
}

#[test]
fn linear_growth_maximum_concurrent_capacity() {
    let mut vec: SplitVec<char, Linear> = SplitVec::with_linear_growth(5);
    assert_eq!(max_cap(&vec), 4 * 2usize.pow(5));

    let until = max_cap(&vec);
    for _ in 0..until {
        vec.push('x');
        assert_eq!(max_cap(&vec), 4 * 2usize.pow(5));
    }

    // fragments allocate beyond max_cap
    vec.push('x');
    assert_eq!(max_cap(&vec), 8 * 2usize.pow(5));
}

#[test]
fn linear_growth_with_linear_growth_and_fragments_capacity_normal_growth() {
    let mut vec: SplitVec<char, _> = SplitVec::with_linear_growth_and_fragments_capacity(10, 1);

    assert_eq!(1, vec.fragments_capacity());

    for _ in 0..100_000 {
        vec.push('x');
    }

    assert!(vec.fragments_capacity() > 4);
}

#[test]
fn growth_with_linear_growth_and_fragments_capacity_normal_growth() {
    let mut vec: SplitVec<char, _> = SplitVec::with_linear_growth_and_fragments_capacity(10, 1);

    assert_eq!(1, vec.fragments_capacity());

    let n = 100_000;
    for _ in 0..n {
        vec.push('x');
    }

    assert!(vec.fragments_capacity() > 4);
}

#[test]
fn with_linear_growth_with_max_fragment_capacity() {
    let exponent = FIXED_CAPACITIES_LEN - 1;
    // zero-sized elements: the fragment of the largest capacity is reserved
    // without allocating memory
    let vec: SplitVec<(), _> = SplitVec::with_linear_growth(exponent);
    assert_eq!(vec.fragments()[0].capacity(), 1usize << exponent);
}

fn check_linear_required_fragments_len(vec: &SplitVec<char, Linear>) {
    let num_fragments = |max_cap| {
        vec.growth()
            .required_fragments_len(vec.fragments(), max_cap)
    };

    assert_eq!(num_fragments(0), Ok(0));
    assert_eq!(num_fragments(1), Ok(1));
    assert_eq!(num_fragments(2), Ok(1));
    assert_eq!(num_fragments(32), Ok(1));
    assert_eq!(num_fragments(33), Ok(2));
    assert_eq!(num_fragments(32 * 7), Ok(7));
    assert_eq!(num_fragments(32 * 7 + 1), Ok(8));
}

#[test]
fn linear_growth_required_fragments_len() {
    let vec: SplitVec<char, Linear> = SplitVec::with_linear_growth(5);
    check_linear_required_fragments_len(&vec);
}

#[test]
fn linear_growth_new_cap_is_constant() {
    let growth = Linear::new(3);
    let fragments: Vec<Fragment<usize>> = vec![Fragment::new_empty(8), Fragment::new_empty(8)];
    assert_eq!(8, growth.new_fragment_capacity(&fragments));
    assert_eq!(8, growth.first_fragment_capacity());
    let doubling = Doubling;
    assert_eq!(16, doubling.new_fragment_capacity(&fragments));
}

#[test]
fn with_linear_growth_fragments() {
    let mut vec = SplitVec::with_linear_growth(4);

    assert_eq!(1, vec.fragments().len());
    assert_eq!(Some(16), vec.fragments().first().map(|f| f.capacity()));
    assert_eq!(Some(0), vec.fragments().first().map(|f| f.len()));

    for i in 0..10 * 16 {
        vec.push(i);
    }

    assert_eq!(10, vec.fragments().len());
    for fragment in vec.fragments() {
        assert_eq!(16, fragment.len());
        assert_eq!(16, fragment.capacity());
    }

    vec.push(42);
    assert_eq!(11, vec.fragments().len());
    assert_eq!(Some(16), vec.fragments().last().map(|f| f.capacity()));
    assert_eq!(Some(1), vec.fragments().last().map(|f| f.len()));
}

#[test]
fn with_linear_growth() {
    let mut vec: SplitVec<char, _> = SplitVec::with_linear_growth(10);

    assert_eq!(4, vec.fragments_capacity());

    for _ in 0..100_000 {
        vec.push('x');
    }

    assert!(vec.fragments_capacity() > 4);
    assert!(vec.capacity() >= 100_000);
}

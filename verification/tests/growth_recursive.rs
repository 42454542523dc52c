use orx_split_vec::growth::{maximum_concurrent_capacity_by_growing, required_fragments_len_by_growing};
use orx_split_vec::{Doubling, Fragment, Growth, Linear, Recursive, SplitVec};

const CAPACITIES_LEN: usize = if usize::BITS == 64 { 32 } else { 29 };
const FIRST_FRAGMENT_CAPACITY: usize = 4;

fn max_cap<T>(vec: &SplitVec<T, Recursive>) -> usize {
    vec.growth()
        .maximum_concurrent_capacity(vec.fragments(), vec.fragments_capacity())
}

fn elements<T: Clone, G: Growth>(vec: &SplitVec<T, G>) -> Vec<T> {
    let mut out = Vec::new();
    for i in 0..vec.len() {
        out.push(vec.get(i).expect("in bounds").clone());
    }
    out
}

fn indexed_fragments() -> (Vec<Vec<usize>>, Vec<Fragment<usize>>) {
    let vecs = vec![
        vec![0, 1, 2, 3],
        vec![4, 5],
        vec![6, 7, 8],
        vec![9],
        vec![10, 11, 12, 13, 14],
    ];
    let fragments: Vec<Fragment<_>> = vecs
        .clone()
        .into_iter()
        .map(|x| Fragment::new(x.capacity(), x))
        .collect();
    (vecs, fragments)
}

fn check_indexed_fragments() {
    let growth = Recursive;
    let (vecs, fragments) = indexed_fragments();
    let len = fragments.iter().map(|x| x.len()).sum();

    let mut index = 0;
    for (f, vec) in vecs.iter().enumerate() {
        for (i, _) in vec.iter().enumerate() {
            let maybe_fi = growth.get_fragment_and_inner_indices(len, &fragments, index);
            assert_eq!(maybe_fi, Some((f, i)));
            assert_eq!(fragments[f].get(i), Some(&index));
            index += 1;
        }
    }
}

fn check_exhaustive_fragments() {
    let growth = Recursive;
    let mut fragments: Vec<Fragment<_>> = vec![];
    let lengths = [30, 1, 7, 3, 79, 147, 530];

    let mut index = 0;
    for _ in 0..10 {
        for &len in &lengths {
            let mut vec = Vec::with_capacity(len);
            for _ in 0..len {
                vec.push(index);
                index += 1;
            }
            fragments.push(Fragment::new(len, vec));
        }
    }

    let total_len = fragments.iter().map(|x| x.len()).sum();

    let mut index = 0;
    let mut f = 0;
    for _ in 0..10 {
        for &len in &lengths {
            for i in 0..len {
                let maybe_fi = growth.get_fragment_and_inner_indices(total_len, &fragments, index);
                assert_eq!(maybe_fi, Some((f, i)));
                assert_eq!(fragments[f].get(i), Some(&index));
                index += 1;
            }
            f += 1;
        }
    }
}

fn check_maximum_concurrent_capacity() {
    let mut vec: SplitVec<char, Recursive> = SplitVec::with_recursive_growth();
    assert_eq!(max_cap(&vec), 4 + 8 + 16 + 32);

    let until = max_cap(&vec);
    for _ in 0..until {
        vec.push('x');
        assert_eq!(max_cap(&vec), 4 + 8 + 16 + 32);
    }

    // fragments allocate beyond max_cap
    vec.push('x');
    assert_eq!(max_cap(&vec), 4 + 8 + 16 + 32 + 64 + 128 + 256 + 512);
}

fn check_maximum_concurrent_capacity_when_appended() {
    let mut vec: SplitVec<char, Recursive> = SplitVec::with_recursive_growth();
    assert_eq!(max_cap(&vec), 4 + 8 + 16 + 32);

    vec.append(vec!['x'; 10]);
    assert_eq!(vec.fragments().len(), 2);
    assert_eq!(vec.fragments()[1].capacity(), 10);
    assert_eq!(vec.fragments()[1].len(), 10);

    assert_eq!(max_cap(&vec), 4 + 10 + 20 + 40);
}

fn check_fragments_capacity_normal_growth() {
    let mut vec: SplitVec<char, _> = SplitVec::with_recursive_growth_and_fragments_capacity(1);

    assert_eq!(1, vec.fragments_capacity());

    let n = 100_000;
    for _ in 0..n {
        vec.push('x');
    }

    assert!(vec.fragments_capacity() > 4);
}

fn check_max_concurrent_capacity() {
    let vec: SplitVec<char, _> = SplitVec::with_recursive_growth_and_max_concurrent_capacity();
    assert_eq!(
        vec.maximum_concurrent_capacity(),
        (1 << (CAPACITIES_LEN + 2)) - FIRST_FRAGMENT_CAPACITY
    );
}

fn check_required_fragments_len() {
    let vec: SplitVec<char, Recursive> = SplitVec::with_recursive_growth();
    let num_fragments = |max_cap| vec.growth().required_fragments_len(vec.fragments(), max_cap);

    // 4 - 12 - 28 - 60 - 124
    assert_eq!(num_fragments(0), Ok(1));
    assert_eq!(num_fragments(1), Ok(1));
    assert_eq!(num_fragments(4), Ok(1));
    assert_eq!(num_fragments(5), Ok(2));
    assert_eq!(num_fragments(12), Ok(2));
    assert_eq!(num_fragments(13), Ok(3));
    assert_eq!(num_fragments(36), Ok(4));
    assert_eq!(num_fragments(67), Ok(5));
    assert_eq!(num_fragments(136), Ok(6));
}

fn check_required_fragments_len_when_appended() {
    let mut vec: SplitVec<char, Recursive> = SplitVec::with_recursive_growth();
    for _ in 0..4 {
        vec.push('x')
    }
    vec.append(vec!['x'; 10]);

    let num_fragments = |max_cap| vec.growth().required_fragments_len(vec.fragments(), max_cap);

    // 4 - 10 - 20 - 40 - 80
    // 4 - 14 - 34 - 74 - 154
    assert_eq!(num_fragments(0), Ok(2));
    assert_eq!(num_fragments(1), Ok(2));
    assert_eq!(num_fragments(14), Ok(2));
    assert_eq!(num_fragments(15), Ok(3));
    assert_eq!(num_fragments(21), Ok(3));
    assert_eq!(num_fragments(34), Ok(3));
    assert_eq!(num_fragments(35), Ok(4));
    assert_eq!(num_fragments(74), Ok(4));
    assert_eq!(num_fragments(75), Ok(5));
    assert_eq!(num_fragments(154), Ok(5));
    assert_eq!(num_fragments(155), Ok(6));
}

#[test]
fn recursive_growth_get_fragment_and_inner_indices() {
    check_indexed_fragments();
}

#[test]
fn growth_get_fragment_and_inner_indices() {
    check_indexed_fragments();
}

#[test]
fn recursive_growth_get_fragment_and_inner_indices_exhaustive() {
    check_exhaustive_fragments();
}

#[test]
fn growth_get_fragment_and_inner_indices_exhaustive() {
    check_exhaustive_fragments();
}

#[test]
fn recursive_growth_maximum_concurrent_capacity() {
    check_maximum_concurrent_capacity();
}

#[test]
fn recursive_growth_maximum_concurrent_capacity_when_appended() {
    check_maximum_concurrent_capacity_when_appended();
}

#[test]
fn growth_maximum_concurrent_capacity_when_appended() {
    check_maximum_concurrent_capacity_when_appended();
}

#[test]
fn recursive_growth_with_recursive_growth_and_fragments_capacity_normal_growth() {
    check_fragments_capacity_normal_growth();
}

#[test]
fn growth_with_recursive_growth_and_fragments_capacity_normal_growth() {
    check_fragments_capacity_normal_growth();
}

#[test]
fn recursive_growth_with_recursive_growth_and_max_concurrent_capacity() {
    check_max_concurrent_capacity();
}

#[test]
fn growth_with_recursive_growth_and_max_concurrent_capacity() {
    check_max_concurrent_capacity();
}

#[test]
fn recursive_growth_required_fragments_len() {
    check_required_fragments_len();
}

#[test]
fn recursive_growth_required_fragments_len_when_appended() {
    check_required_fragments_len_when_appended();
}

#[test]
fn growth_required_fragments_len_when_appended() {
    check_required_fragments_len_when_appended();
}

#[test]
fn recursive_new_cap_and_indices() {
    fn new_fra(cap: usize) -> Fragment<usize> {
        Fragment::new_empty(cap)
    }
    let growth = Recursive;
    assert_eq!(4, growth.new_fragment_capacity(&[new_fra(2)]));
    assert_eq!(12, growth.new_fragment_capacity(&[new_fra(3), new_fra(6)]));
    assert_eq!(
        56,
        growth.new_fragment_capacity(&[new_fra(7), new_fra(14), new_fra(28)])
    );
    assert_eq!(
        None,
        <Recursive as Growth>::get_fragment_and_inner_indices::<usize>(&Recursive, 0, &[], 0)
    );

    fn new_full() -> Fragment<usize> {
        let mut vec = Vec::with_capacity(4);
        vec.extend(0..4);
        Fragment::new(4, vec)
    }
    fn new_half() -> Fragment<usize> {
        let mut vec = Vec::with_capacity(8);
        for i in 0..4 {
            vec.push(10 + i);
        }
        Fragment::new(8, vec)
    }
    for i in 0..4 {
        assert_eq!(
            Some((0, i)),
            growth.get_fragment_and_inner_indices(4, &[new_full()], i)
        );
    }
    assert_eq!(None, growth.get_fragment_and_inner_indices(4, &[new_full()], 4));
    for i in 0..4 {
        assert_eq!(
            Some((0, i)),
            growth.get_fragment_and_inner_indices(8, &[new_full(), new_half()], i)
        );
    }
    for i in 4..8 {
        assert_eq!(
            Some((1, i - 4)),
            growth.get_fragment_and_inner_indices(8, &[new_full(), new_half()], i)
        );
    }
    assert_eq!(
        None,
        growth.get_fragment_and_inner_indices(8, &[new_full(), new_half()], 12)
    );

    let max_capacity = Recursive.maximum_concurrent_capacity_bound::<char>(&[], 0);
    if usize::BITS == 64 {
        assert_eq!(max_capacity, 17_179_869_180);
    } else {
        assert_eq!(max_capacity, 2_147_483_644);
    }
}

#[test]
fn append_full_fragment_when_empty() {
    let mut vec = SplitVec::with_recursive_growth();
    assert_eq!(vec.capacity(), 4);

    vec.append(vec![0, 1, 2]);
    assert_eq!(vec.fragments().len(), 2);
    assert_eq!(vec.capacity(), 4 + 3);

    vec.push(3);
    assert_eq!(vec.fragments().len(), 3);
    assert_eq!(vec.capacity(), 4 + 3 + 6);

    assert_eq!(elements(&vec), vec![0, 1, 2, 3]);
}

#[test]
fn append_full_fragment_when_non_empty() {
    let mut vec = SplitVec::with_recursive_growth();
    vec.push(42);
    assert_eq!(vec.capacity(), 4);

    vec.append(vec![0, 1, 2]);
    assert_eq!(vec.fragments().len(), 2);
    assert_eq!(vec.capacity(), 4 + 3);

    vec.push(3);
    assert_eq!(vec.fragments().len(), 3);
    assert_eq!(vec.capacity(), 4 + 3 + 6);

    assert_eq!(elements(&vec), vec![42, 0, 1, 2, 3]);
}

#[test]
fn append_when_empty() {
    let mut rec = SplitVec::with_recursive_growth();

    rec.append(vec!['b', 'c']);
    assert_eq!(elements(&rec), vec!['b', 'c']);

    _ = rec.pop();
    assert_eq!(elements(&rec), vec!['b']);

    _ = rec.pop();
    assert_eq!(elements(&rec), Vec::<char>::new());

    rec.push('a');
    rec.push('b');
    rec.push('c');
    rec.push('d');
    rec.push('e');
    rec.push('f');
    assert_eq!(elements(&rec), vec!['a', 'b', 'c', 'd', 'e', 'f']);

    rec.append(vec!['h']);
    assert_eq!(elements(&rec), vec!['a', 'b', 'c', 'd', 'e', 'f', 'h']);
}

#[test]
fn append_remove() {
    fn assert_seq(rec: &SplitVec<usize, Recursive>, expected_len: usize) {
        assert_eq!(expected_len, rec.len());
        for i in 0..expected_len {
            assert_eq!(Some(&i), rec.get(i));
        }
    }

    let mut rec = SplitVec::with_recursive_growth();

    rec.push(0);
    rec.append((1..30).collect::<Vec<_>>());

    assert_seq(&rec, 30);

    for i in 0..10 {
        rec.remove(i);
    }
    for i in 0..rec.len() {
        *rec.get_mut(i).expect("in bounds") = i;
    }

    assert_seq(&rec, 20);

    let mut other = SplitVec::with_linear_growth(6);
    for i in 20..45 {
        other.push(i);
    }

    rec.append(other);
    assert_seq(&rec, 45);

    rec.truncate(14);
    assert_seq(&rec, 14);

    let mut other = SplitVec::with_doubling_growth();
    for i in 14..1243 {
        other.push(i);
    }

    rec.append(other);
    assert_seq(&rec, 1243);
}

#[test]
fn from_doubling() {
    for len in 0..135 {
        let vec: Vec<_> = (0..len).collect();
        let split_vec_doubling: SplitVec<_, Doubling> = vec.clone().into();
        let split_vec: SplitVec<_, Recursive> = split_vec_doubling.into();
        assert_eq!(elements(&split_vec), vec);
        assert!(vec.capacity() <= split_vec.capacity());
    }
}

#[test]
fn from_from_vec_medium() {
    for len in 0..135 {
        let vec: Vec<usize> = (0..len).collect();

        let split_vec: SplitVec<_, Doubling> = vec.clone().into();
        assert_eq!(elements(&split_vec), vec);
        assert!(vec.capacity() <= split_vec.capacity());

        let split_vec: SplitVec<_, Linear> = vec.clone().into();
        assert_eq!(elements(&split_vec), vec);
        assert!(vec.capacity() <= split_vec.capacity());

        let split_vec: SplitVec<_, Recursive> = vec.clone().into();
        assert_eq!(elements(&split_vec), vec);
        assert!(vec.capacity() <= split_vec.capacity());
    }
}

#[test]
fn recursive_from_linear_keeps_elements() {
    let mut linear = SplitVec::with_linear_growth(2);
    for i in 0..23 {
        linear.push(i);
    }
    let rec: SplitVec<usize, Recursive> = linear.into();
    assert_eq!(elements(&rec), (0..23).collect::<Vec<_>>());
    assert_eq!(rec.capacity(), 24);
}

#[test]
fn append_half_fragment_when_empty() {
    let mut vec = SplitVec::with_recursive_growth();
    assert_eq!(vec.capacity(), 4);

    let mut append = Vec::with_capacity(4);
    append.extend_from_slice(&[0, 1, 2]);
    vec.append(append);
    assert_eq!(vec.fragments().len(), 2);
    assert_eq!(vec.capacity(), 4 + 4);

    vec.push(3);
    assert_eq!(vec.fragments().len(), 2);
    assert_eq!(vec.capacity(), 4 + 4);

    vec.push(4);
    assert_eq!(vec.fragments().len(), 3);
    assert_eq!(vec.capacity(), 4 + 4 + 8);

    assert_eq!(elements(&vec), vec![0, 1, 2, 3, 4]);
}

#[test]
fn append_half_fragment_when_non_empty() {
    let mut vec = SplitVec::with_recursive_growth();
    vec.push(42);
    assert_eq!(vec.capacity(), 4);

    let mut append = Vec::with_capacity(4);
    append.extend_from_slice(&[0, 1, 2]);
    vec.append(append);
    assert_eq!(vec.fragments().len(), 2);
    assert_eq!(vec.capacity(), 4 + 4);

    vec.push(3);
    assert_eq!(vec.fragments().len(), 2);
    assert_eq!(vec.capacity(), 4 + 4);

    vec.push(4);
    assert_eq!(vec.fragments().len(), 3);
    assert_eq!(vec.capacity(), 4 + 4 + 8);

    assert_eq!(elements(&vec), vec![42, 0, 1, 2, 3, 4]);
}

#[test]
fn into_recursive() {
    fn validate<G: Growth>(split: SplitVec<usize, G>, recursive: SplitVec<usize, Recursive>) {
        assert_eq!(split.len(), recursive.len());
        for i in 0..split.len() {
            assert_eq!(split.get(i), recursive.get(i));
        }
    }

    let filled_linear = || {
        let mut linear = SplitVec::with_linear_growth(4);
        for i in 0..879 {
            linear.push(i);
        }
        linear
    };
    let filled_doubling = || {
        let mut doubling = SplitVec::with_doubling_growth();
        for i in 0..879 {
            doubling.push(i);
        }
        doubling
    };
    let vec: Vec<usize> = (0..879).collect();

    let recursive: SplitVec<_, Recursive> = vec.clone().into();
    let again: SplitVec<_, Recursive> = vec.into();
    validate(recursive, again);
    validate(filled_linear(), filled_linear().into());
    validate(filled_doubling(), filled_doubling().into());
}

#[test]
fn maximum_concurrent_capacity_by_growing_matches_strategies() {
    let vec: SplitVec<char, Doubling> = SplitVec::with_doubling_growth();
    assert_eq!(maximum_concurrent_capacity_by_growing(&Doubling, vec.fragments(), 4), 60);
    assert_eq!(vec.maximum_concurrent_capacity(), 60);

    let mut rec: SplitVec<char, Recursive> = SplitVec::with_recursive_growth();
    rec.append(vec!['x'; 10]);
    let expected = rec.maximum_concurrent_capacity();
    assert_eq!(
        maximum_concurrent_capacity_by_growing(&Recursive, rec.fragments(), rec.fragments_capacity()),
        expected
    );

    let lin: SplitVec<char, Linear> = SplitVec::with_linear_growth(5);
    assert_eq!(maximum_concurrent_capacity_by_growing(&lin.growth().clone(), lin.fragments(), 4), 4 * 32);
}

#[test]
fn required_fragments_len_by_growing_matches_strategies() {
    let mut rec: SplitVec<char, Recursive> = SplitVec::with_recursive_growth();
    for _ in 0..4 {
        rec.push('x');
    }
    rec.append(vec!['x'; 10]);
    for m in [0, 1, 14, 15, 21, 34, 35, 74, 75, 154, 155] {
        assert_eq!(
            required_fragments_len_by_growing(&Recursive, rec.fragments(), m),
            rec.growth().required_fragments_len(rec.fragments(), m)
        );
    }
    // 4 - 8 - 16 - 32 - 64 from an empty doubling vector
    let vec: SplitVec<char, Doubling> = SplitVec::with_doubling_growth();
    assert_eq!(required_fragments_len_by_growing(&Doubling, vec.fragments(), 0), Ok(1));
    assert_eq!(required_fragments_len_by_growing(&Doubling, vec.fragments(), 5), Ok(2));
    assert_eq!(required_fragments_len_by_growing(&Doubling, vec.fragments(), 60), Ok(4));
    assert_eq!(required_fragments_len_by_growing(&Doubling, vec.fragments(), 61), Ok(5));

    let fixed: SplitVec<u8, _> = SplitVec::with_fixed_capacity(8);
    assert_eq!(required_fragments_len_by_growing(&orx_split_vec::FixedCapacity, fixed.fragments(), 8), Ok(1));
    assert_eq!(
        required_fragments_len_by_growing(&orx_split_vec::FixedCapacity, fixed.fragments(), 9),
        Err(format!("Maximum cumulative capacity that can be reached is {}.", usize::MAX))
    );
}

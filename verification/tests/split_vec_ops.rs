use orx_split_vec::growth::get_capacity_indices;
use orx_split_vec::{
    Doubling, Growth, GrowthWithConstantTimeAccess, Linear, ParGrowth, Recursive, SplitIndex,
    SplitVec, SplitVecIterator, SplitVecSlice,
};

fn elements<T: Clone, G: Growth>(vec: &SplitVec<T, G>) -> Vec<T> {
    let mut out = Vec::new();
    for i in 0..vec.len() {
        out.push(vec.get(i).expect("in bounds").clone());
    }
    out
}

fn at<G: Growth>(vec: &SplitVec<usize, G>, i: usize) -> usize {
    *vec.get(i).expect("in bounds")
}

#[test]
fn resize_unit_grow() {
    fn test<G: Growth>(mut vec: SplitVec<usize, G>) {
        for i in 0..42 {
            vec.push(i);
        }
        for i in 0..42 {
            vec.insert(i, 100 + i);
        }

        for i in 0..42 {
            assert_eq!(i, at(&vec, 42 + i));
            assert_eq!(100 + i, at(&vec, i));
        }
    }
    test::<Linear>(SplitVec::with_linear_growth(2));
    test::<Doubling>(SplitVec::with_doubling_growth());
}

#[test]
fn resize_unit_shrink() {
    fn test<G: Growth>(mut vec: SplitVec<usize, G>) {
        for i in 0..42 {
            vec.push(i);
            assert_eq!(i, vec.remove(0));
            assert!(vec.is_empty());
        }

        for i in 0..42 {
            vec.push(i);
        }
        for i in 0..42 {
            assert_eq!(i, vec.remove(0));
        }
        assert!(vec.is_empty());

        for i in 0..42 {
            vec.push(i);
        }
        for _ in 0..42 {
            vec.remove(vec.len() / 2);
        }
        assert!(vec.is_empty());
    }
    test::<Linear>(SplitVec::with_linear_growth(2));
    test::<Doubling>(SplitVec::with_doubling_growth());
}

#[test]
fn extend() {
    fn test<G: Growth>(mut vec: SplitVec<usize, G>) {
        for i in 0..42 {
            vec.push(i);
        }
        vec.extend_from_slice(&(42..63).collect::<Vec<_>>());
        for i in 53..90 {
            vec.push(i + 10);
        }

        assert_eq!(100, vec.len());
        for i in 0..100 {
            assert_eq!(i, at(&vec, i));
        }
    }
    test::<Linear>(SplitVec::with_linear_growth(2));
    test::<Doubling>(SplitVec::with_doubling_growth());
}

#[test]
fn try_get_slice() {
    fn test<G: Growth>(mut vec: SplitVec<usize, G>) {
        for i in 0..42 {
            assert_eq!(SplitVecSlice::OutOfBounds, vec.try_get_slice(0..(i + 1)));
            assert_eq!(SplitVecSlice::OutOfBounds, vec.try_get_slice(i..(i + 1)));
            vec.push(i);
        }

        let fragments = vec.fragments();
        for f in 0..fragments.len() {
            let begin: usize = fragments.iter().take(f).map(|f| f.len()).sum();
            let end = begin + fragments[f].len();
            let half = begin + fragments[f].len() / 2;
            let data = fragments[f].as_slice();

            // ok
            let slice_full_fragment = vec.try_get_slice(begin..end);
            assert_eq!(slice_full_fragment, SplitVecSlice::Slice(data));

            let slice_half_fragment = vec.try_get_slice(begin..half);
            assert_eq!(
                slice_half_fragment,
                SplitVecSlice::Slice(&data[0..data.len() / 2])
            );

            let slice_half_fragment = vec.try_get_slice(half..end);
            assert_eq!(
                slice_half_fragment,
                SplitVecSlice::Slice(&data[data.len() / 2..data.len()])
            );

            // fragmented
            if f > 0 {
                let prev_begin = begin - 1;
                let slice = vec.try_get_slice(prev_begin..end);
                assert_eq!(slice, SplitVecSlice::Fragmented(f - 1, f));
                if f < fragments.len() - 1 {
                    let next_end = end + 1;

                    let slice = vec.try_get_slice(begin..next_end);
                    assert_eq!(slice, SplitVecSlice::Fragmented(f, f + 1));

                    let slice = vec.try_get_slice(prev_begin..next_end);
                    assert_eq!(slice, SplitVecSlice::Fragmented(f - 1, f + 1));
                }
            }
        }
    }
    test::<Linear>(SplitVec::with_linear_growth(2));
    test::<Doubling>(SplitVec::with_doubling_growth());
}

#[test]
fn split_vec_get_fragment_and_inner_indices() {
    fn test<G: Growth>(mut vec: SplitVec<usize, G>) {
        for i in 0..432 {
            vec.push(i);
            assert_eq!(None, vec.get_fragment_and_inner_indices(i + 1));
        }

        for i in 0..432 {
            let (f, ii) = vec.get_fragment_and_inner_indices(i).expect("is-some");
            assert_eq!(vec.get(i), vec.fragments()[f].get(ii));
        }
    }
    test::<Linear>(SplitVec::with_linear_growth(2));
    test::<Doubling>(SplitVec::with_doubling_growth());
}

#[test]
fn from_same_as_push() {
    for len in 0..135 {
        let vec: Vec<_> = (0..len).collect();
        let split_vec_from: SplitVec<_, Doubling> = vec.clone().into();
        let mut split_vec_manual = SplitVec::new();
        for item in vec {
            split_vec_manual.push(item);
        }
        assert_eq!(elements(&split_vec_from), elements(&split_vec_manual));
    }
}

#[test]
fn push_then_pop_gives_back_the_element() {
    let mut vec: SplitVec<usize> = SplitVec::new();
    for i in 0..20 {
        vec.push(i);
    }
    let before = elements(&vec);
    vec.push(77);
    assert_eq!(vec.pop(), Some(77));
    assert_eq!(elements(&vec), before);

    let mut empty: SplitVec<usize> = SplitVec::new();
    assert_eq!(empty.pop(), None);
    assert!(empty.is_empty());
}

#[test]
fn insert_then_remove_restores() {
    let mut vec = SplitVec::with_linear_growth(2);
    for i in 0..13 {
        vec.push(i);
    }
    let before = elements(&vec);
    for idx in [0, 3, 4, 7, 12, 13] {
        vec.insert(idx, 1000);
        assert_eq!(at(&vec, idx), 1000);
        assert_eq!(vec.len(), 14);
        assert_eq!(vec.remove(idx), 1000);
        assert_eq!(elements(&vec), before);
    }
}

#[test]
fn remove_then_insert_restores() {
    let mut vec: SplitVec<usize, Doubling> = SplitVec::with_doubling_growth();
    for i in 0..30 {
        vec.push(i);
    }
    let before = elements(&vec);
    for idx in [0, 3, 4, 11, 12, 29] {
        let x = vec.remove(idx);
        assert_eq!(x, idx);
        vec.insert(idx, x);
        assert_eq!(elements(&vec), before);
    }
}

#[test]
fn swap_twice_restores() {
    let mut vec = SplitVec::with_linear_growth(2);
    for i in 0..10 {
        vec.push(i);
    }
    vec.swap(1, 8);
    assert_eq!(at(&vec, 1), 8);
    assert_eq!(at(&vec, 8), 1);
    vec.swap(1, 8);
    assert_eq!(elements(&vec), (0..10).collect::<Vec<_>>());
    vec.swap(5, 5);
    assert_eq!(elements(&vec), (0..10).collect::<Vec<_>>());
}

#[test]
fn truncate_clear_and_to_vec() {
    let mut vec = SplitVec::with_doubling_growth();
    for i in 0..50 {
        vec.push(i);
    }
    vec.truncate(60);
    assert_eq!(vec.len(), 50);
    vec.truncate(17);
    assert_eq!(elements(&vec), (0..17).collect::<Vec<_>>());
    vec.truncate(17);
    assert_eq!(vec.len(), 17);
    let as_vec = vec.to_vec();
    assert_eq!(as_vec, (0..17).collect::<Vec<_>>());

    let mut vec = SplitVec::with_doubling_growth();
    for i in 0..50 {
        vec.push(i);
    }
    vec.clear();
    assert!(vec.is_empty());
    assert_eq!(vec.fragments().len(), 1);
    assert_eq!(vec.capacity(), 4);
    let as_vec: Vec<usize> = vec.into();
    assert!(as_vec.is_empty());
}

#[test]
fn first_last_and_get() {
    let mut vec = SplitVec::with_linear_growth(2);
    assert_eq!(vec.first(), None);
    assert_eq!(vec.last(), None);
    assert_eq!(vec.get(0), None);
    for i in 0..9 {
        vec.push(10 * i);
    }
    assert_eq!(vec.first(), Some(&0));
    assert_eq!(vec.last(), Some(&80));
    assert_eq!(vec.get(5), Some(&50));
    assert_eq!(vec.get(9), None);
    assert_eq!(vec.fragment_and_inner_index(5), Some((1, 1)));
    assert_eq!(vec.fragment_and_inner_index(9), None);
}

#[test]
fn slices_over_fragments() {
    let mut vec = SplitVec::with_linear_growth(2);
    for i in 0..10 {
        vec.push(i);
    }
    let slices = vec.slices(2..9);
    assert_eq!(slices, vec![&[2, 3][..], &[4, 5, 6, 7][..], &[8][..]]);
    assert!(vec.slices(3..3).is_empty());
    assert!(vec.slices(5..11).is_empty());
    assert_eq!(vec.slices(0..4), vec![&[0, 1, 2, 3][..]]);
}

#[test]
fn extend_from_slice_across_fragments() {
    let mut vec = SplitVec::with_linear_growth(2);
    vec.push(0);
    vec.extend_from_slice(&[1, 2, 3, 4, 5, 6, 7, 8, 9]);
    assert_eq!(elements(&vec), (0..10).collect::<Vec<_>>());
    assert_eq!(vec.fragments().len(), 3);
    assert_eq!(vec.capacity(), 12);
}

#[test]
fn iterator_in_order() {
    let mut vec = SplitVec::with_recursive_growth();
    for i in 0..25 {
        vec.push(i);
    }
    vec.append(vec![25, 26]);
    let mut iter = SplitVecIterator::new(&vec);
    let mut seen = Vec::new();
    while let Some(x) = iter.next() {
        seen.push(*x);
    }
    assert_eq!(seen, (0..27).collect::<Vec<_>>());
    assert_eq!(iter.next(), None);

    let empty: SplitVec<usize> = SplitVec::new();
    let mut iter = SplitVecIterator::new(&empty);
    assert_eq!(iter.next(), None);
}

#[test]
fn split_index_order() {
    let a = SplitIndex::new(0, 5);
    let b = SplitIndex::new(1, 0);
    let c = SplitIndex::from((1, 2));
    assert!(a < b);
    assert!(b < c);
    assert!(a < c);
    assert!(!(c < a));
    assert_eq!(SplitIndex::default(), SplitIndex::new(0, 0));
    assert_eq!(c, SplitIndex::new(1, 2));
}

#[test]
fn jagged_indices() {
    let mut vec = SplitVec::with_doubling_growth();
    for i in 0..30 {
        vec.push(i);
    }
    let g = *vec.growth();
    assert_eq!(g.jagged_index_unchecked(vec.fragments(), 0), SplitIndex::new(0, 0));
    assert_eq!(g.jagged_index_unchecked(vec.fragments(), 4), SplitIndex::new(1, 0));
    assert_eq!(g.jagged_index_unchecked(vec.fragments(), 29), SplitIndex::new(3, 1));
    assert_eq!(g.get_fragment_and_inner_indices_unchecked(29), (3, 1));
    assert_eq!(g.fragment_capacity_of(3), 32);

    let mut rec = SplitVec::with_recursive_growth();
    rec.append(vec![1, 2, 3]);
    rec.push(4);
    // the walk starts at the first fragment, empty or not
    assert_eq!(Recursive.jagged_index_unchecked(rec.fragments(), 0), SplitIndex::new(0, 0));
    assert_eq!(Recursive.jagged_index_unchecked(rec.fragments(), 1), SplitIndex::new(1, 1));
    assert_eq!(Recursive.jagged_index_unchecked(rec.fragments(), 3), SplitIndex::new(2, 0));
}

#[test]
fn concurrent_reserve_grows_fragments_capacity() {
    let mut vec: SplitVec<char> = SplitVec::new();
    assert_eq!(vec.maximum_concurrent_capacity(), 4 + 8 + 16 + 32);
    assert!(vec.can_concurrently_add_fragment());
    assert_eq!(vec.concurrent_reserve(100), Ok(124));
    assert_eq!(vec.fragments_capacity(), 5);
    assert_eq!(vec.concurrent_reserve(10), Ok(124));
    assert_eq!(vec.fragments_capacity(), 5);
    assert!(vec.is_empty());

    let mut fixed = SplitVec::<char, _>::with_fixed_capacity(8);
    assert!(fixed.concurrent_reserve(9).is_err());
    assert_eq!(fixed.concurrent_reserve(8), Ok(8));
}

#[test]
fn recursive_pop_keeps_one_fragment() {
    let mut rec = SplitVec::with_recursive_growth();
    rec.append(vec!['a']);
    assert_eq!(rec.pop(), Some('a'));
    assert_eq!(rec.pop(), None);
    rec.push('z');
    assert_eq!(elements(&rec), vec!['z']);
}

#[test]
fn readme_example() {
    let mut vec = SplitVec::new();

    vec.push(0);
    vec.extend_from_slice(&[1, 2, 3]);
    assert_eq!(elements(&vec), vec![0, 1, 2, 3]);

    *vec.get_mut(0).expect("in bounds") = 10;
    assert_eq!(10, at(&vec, 0));

    vec.remove(0);
    vec.insert(0, 0);

    let sum: usize = elements(&vec).iter().sum();
    assert_eq!(6, sum);

    let std_vec: Vec<_> = vec.into();
    assert_eq!(&std_vec, &[0, 1, 2, 3]);
}

#[test]
fn get_mut_changes_one_element() {
    let mut vec = SplitVec::with_linear_growth(2);
    vec.extend_from_slice(&[0, 1, 2, 3, 4, 5]);
    if let Some(elem) = vec.get_mut(5) {
        *elem = 42;
    }
    assert_eq!(elements(&vec), vec![0, 1, 2, 3, 4, 42]);
    assert!(vec.get_mut(6).is_none());
    assert_eq!(vec.capacity(), 8);
}

#[test]
fn get_ptr_mut() {
    fn test<G: GrowthWithConstantTimeAccess>(mut vec: SplitVec<usize, G>) {
        for i in 0..65 {
            vec.push(i);
        }
        for i in 0..64 {
            let (f, ii) = get_capacity_indices(vec.fragments(), i).expect("is-some");
            assert_eq!(Some(&i), vec.fragments()[f].get(ii));
        }
        for i in 64..vec.capacity() {
            let p = get_capacity_indices(vec.fragments(), i);
            assert!(p.is_some());
        }

        for i in vec.capacity()..(vec.capacity() * 2) {
            let p = get_capacity_indices(vec.fragments(), i);
            assert!(p.is_none());
        }
    }

    test(SplitVec::with_doubling_growth());
    test(SplitVec::with_linear_growth(6));
}

#[test]
fn capacity_indices_beyond_length() {
    let mut vec = SplitVec::with_linear_growth(2);
    for i in 0..5 {
        vec.push(i);
    }
    // fragments of capacity 4: the element 4 is first in the second fragment
    assert_eq!(get_capacity_indices(vec.fragments(), 4), Some((1, 0)));
    assert_eq!(get_capacity_indices(vec.fragments(), 6), Some((1, 2)));
    assert_eq!(get_capacity_indices(vec.fragments(), 8), None);
}

#[test]
fn iterator_from_doubling_vec() {
    let mut vec: SplitVec<usize> = SplitVec::new();
    for i in 0..10 {
        vec.push(i);
    }
    let mut iter = SplitVecIterator::from(&vec);
    for i in 0..10 {
        assert_eq!(iter.next(), Some(&i));
    }
    assert_eq!(iter.next(), None);
}

#[test]
fn concurrent_reserve() {
    fn test<G: Growth>(mut vec: SplitVec<usize, G>) {
        for _ in 0..2 {
            vec.clear();

            let current_max = vec.maximum_concurrent_capacity();
            let target_max = current_max * 2 + 1;

            let result = vec.concurrent_reserve(target_max);
            assert_eq!(result, Ok(vec.maximum_concurrent_capacity()));
            assert!(vec.maximum_concurrent_capacity() >= current_max);
            assert!(vec.maximum_concurrent_capacity() >= target_max);
        }
    }
    test::<Linear>(SplitVec::with_linear_growth(2));
    test::<Doubling>(SplitVec::with_doubling_growth());
}

#[test]
fn pop_keeps_the_first_fragment() {
    let mut v = SplitVec::with_doubling_growth();
    v.push(1);
    assert_eq!(v.pop(), Some(1));
    assert!(v.is_empty());
    assert_eq!(v.fragments().len(), 1);
    assert_eq!(v.capacity(), 4);
    assert_eq!(v.pop(), None);
    assert_eq!(v.fragments().len(), 1);
}

#[test]
fn empty_vec_converts_to_one_empty_fragment() {
    let v: SplitVec<usize, Doubling> = Vec::new().into();
    assert_eq!(v.fragments().len(), 1);
    assert_eq!(v.capacity(), 4);
    assert!(v.is_empty());

    let r: SplitVec<usize, Recursive> = Vec::new().into();
    assert_eq!(r.fragments().len(), 1);
    assert_eq!(r.capacity(), 4);
}

#[test]
fn first_and_last_skip_empty_edge_fragments() {
    let mut rec = SplitVec::with_recursive_growth();
    rec.append(vec![7, 8, 9]);
    // the first fragment is empty, the elements are in the appended one
    assert_eq!(rec.first(), Some(&7));
    assert_eq!(rec.last(), Some(&9));
}

#[test]
fn append_keeps_incoming_fragments() {
    let mut other = SplitVec::with_linear_growth(2);
    for i in 0..6 {
        other.push(i);
    }
    let mut rec = SplitVec::with_recursive_growth();
    rec.push(100);
    rec.append(other);
    assert_eq!(rec.fragments().len(), 3);
    assert_eq!(rec.fragments()[1].capacity(), 4);
    assert_eq!(rec.fragments()[2].capacity(), 4);
    assert_eq!(rec.fragments()[2].len(), 2);
    assert_eq!(rec.capacity(), 12);
}

#[test]
fn fixed_capacity_error_message() {
    let vec: SplitVec<u8, _> = SplitVec::with_fixed_capacity(33);
    assert_eq!(
        vec.growth().required_fragments_len(vec.fragments(), 34),
        Err(String::from(
            "Maximum cumulative capacity that can be reached by the FixedCapacity strategy is 33."
        ))
    );
    let rec: SplitVec<u8, Recursive> = SplitVec::with_recursive_growth();
    assert_eq!(
        rec.growth().required_fragments_len(rec.fragments(), usize::MAX),
        Err(format!(
            "Maximum cumulative capacity that can be reached by the Recursive strategy is {}.",
            usize::MAX
        ))
    );
}

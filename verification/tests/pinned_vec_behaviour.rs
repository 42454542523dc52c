use orx_split_vec::{Doubling, Growth, Linear, SplitVec};

fn at<T, G: Growth>(vec: &SplitVec<T, G>, i: usize) -> &T {
    vec.get(i).expect("in bounds")
}

fn elements<T: Clone, G: Growth>(vec: &SplitVec<T, G>) -> Vec<T> {
    (0..vec.len()).map(|i| at(vec, i).clone()).collect()
}

#[derive(Debug, PartialEq, Clone)]
struct Num(usize);

#[test]
fn len_and_is_empty() {
    fn test<G: Growth>(mut vec: SplitVec<usize, G>) {
        for i in 0..42 {
            assert_eq!(i, vec.len());
            vec.push(i);
        }
        assert_eq!(42, vec.len());

        vec.clear();
        assert_eq!(0, vec.len());

        vec.extend_from_slice(&(0..42).collect::<Vec<_>>());
        assert_eq!(42, vec.len());

        for i in 0..42 {
            assert_eq!(42 - i, vec.len());
            vec.pop();
        }
        assert_eq!(0, vec.len());

        vec.extend_from_slice(&(0..42).collect::<Vec<_>>());
        for i in 0..42 {
            assert_eq!(42 - i, vec.len());
            vec.remove(vec.len() / 2);
        }
        assert_eq!(0, vec.len());

        vec.extend_from_slice(&(0..42).collect::<Vec<_>>());
        for i in 0..42 {
            assert_eq!(42 - i, vec.len());
            vec.remove(0);
        }
        assert_eq!(0, vec.len());

        vec.extend_from_slice(&(0..42).collect::<Vec<_>>());
        for i in 0..42 {
            assert_eq!(42 - i, vec.len());
            vec.remove(vec.len() - 1);
        }
        assert_eq!(0, vec.len());

        vec.clear();
        for i in 0..42 {
            assert_eq!(i, vec.len());
            vec.insert(i, i);
            assert_eq!(i + 1, vec.len());
        }
        assert_eq!(42, vec.len());

        vec.clear();
        for i in 0..42 {
            assert_eq!(i, vec.len());
            vec.insert(0, i);
        }
        assert_eq!(42, vec.len());
    }
    test::<Linear>(SplitVec::with_linear_growth(2));
    test::<Doubling>(SplitVec::with_doubling_growth());
}

#[test]
fn clear() {
    fn clear_is_empty<G: Growth>(mut vec: SplitVec<usize, G>) {
        vec.clear();
        assert!(vec.is_empty());
        assert_eq!(0, vec.len());

        vec.push(1);
        assert!(!vec.is_empty());
        for i in 0..42 {
            vec.push(i);
        }
        assert!(!vec.is_empty());

        vec.clear();
        assert!(vec.is_empty());
        assert_eq!(0, vec.len());
    }
    clear_is_empty::<Linear>(SplitVec::with_linear_growth(2));
    clear_is_empty::<Doubling>(SplitVec::with_doubling_growth());
}

#[test]
fn get() {
    fn test_get<G: Growth>(mut vec: SplitVec<usize, G>) {
        assert!(vec.is_empty());

        for i in 0..53 {
            vec.push(i);

            assert_eq!(vec.get(i), Some(&i));
            assert_eq!(vec.get(i + 1), None);

            *vec.get_mut(i).expect("is-some") += 100;
        }

        for i in 0..53 {
            assert_eq!(vec.get(i), Some(&(100 + i)));
        }
    }
    test_get::<Linear>(SplitVec::with_linear_growth(2));
    test_get::<Doubling>(SplitVec::with_doubling_growth());
}

#[test]
fn first_last() {
    fn test<G: Growth>(mut vec: SplitVec<usize, G>) {
        assert!(vec.first().is_none());
        assert!(vec.last().is_none());

        vec.push(42);

        assert_eq!(vec.first(), Some(&42));
        assert_eq!(vec.last(), Some(&42));

        vec.push(7);

        assert_eq!(vec.first(), Some(&42));
        assert_eq!(vec.last(), Some(&7));

        for _ in 0..800 {
            vec.insert(1, 56421);
        }

        assert_eq!(vec.first(), Some(&42));
        assert_eq!(vec.last(), Some(&7));

        vec.clear();

        assert!(vec.first().is_none());
        assert!(vec.last().is_none());
    }
    test::<Linear>(SplitVec::with_linear_growth(2));
    test::<Doubling>(SplitVec::with_doubling_growth());
}

#[test]
fn extend_from_slice() {
    fn test<G: Growth>(mut vec: SplitVec<usize, G>) {
        vec.extend_from_slice(&(0..42).collect::<Vec<_>>());
        vec.extend_from_slice(&(42..63).collect::<Vec<_>>());
        vec.extend_from_slice(&(63..100).collect::<Vec<_>>());

        assert_eq!(100, vec.len());
        for i in 0..100 {
            assert_eq!(i, *at(&vec, i));
        }
    }
    test::<Linear>(SplitVec::with_linear_growth(2));
    test::<Doubling>(SplitVec::with_doubling_growth());
}

#[test]
fn pinned_vec_grow() {
    fn test<G: Growth>(mut vec: SplitVec<usize, G>) {
        for i in 0..42 {
            vec.push(i);
        }
        for i in 0..42 {
            vec.insert(i, 100 + i);
        }

        for i in 0..42 {
            assert_eq!(i, *at(&vec, 42 + i));
            assert_eq!(100 + i, *at(&vec, i));
        }
    }
    test::<Linear>(SplitVec::with_linear_growth(2));
    test::<Doubling>(SplitVec::with_doubling_growth());
}

#[test]
fn pinned_vec_shrink() {
    fn test<G: Growth>(mut vec: SplitVec<usize, G>) {
        for i in 0..42 {
            vec.push(i);
            assert_eq!(i, vec.remove(0));
            assert!(vec.is_empty());
        }

        for i in 0..42 {
            vec.push(i);
        }
        for i in 0..42 {
            assert_eq!(i, vec.remove(0));
        }
        assert!(vec.is_empty());

        for i in 0..42 {
            vec.push(i);
        }
        for _ in 0..42 {
            vec.remove(vec.len() / 2);
        }
        assert!(vec.is_empty());
    }
    test::<Linear>(SplitVec::with_linear_growth(2));
    test::<Doubling>(SplitVec::with_doubling_growth());
}

#[test]
fn swap() {
    fn test<G: Growth>(mut vec: SplitVec<usize, G>) {
        for i in 0..42 {
            vec.push(i);
        }

        for i in 0..21 {
            vec.swap(i, 21 + i);
        }

        for i in 0..21 {
            assert_eq!(21 + i, *at(&vec, i));
        }
        for i in 21..42 {
            assert_eq!(i - 21, *at(&vec, i));
        }
    }
    test::<Linear>(SplitVec::with_linear_growth(2));
    test::<Doubling>(SplitVec::with_doubling_growth());
}

#[test]
fn truncate() {
    fn test<G: Growth>(mut vec: SplitVec<usize, G>) {
        let std_vec: Vec<_> = (0..42).collect();
        for i in 0..42 {
            vec.push(i);
        }

        vec.truncate(100);
        assert_eq!(elements(&vec), std_vec);

        for i in (0..42).rev() {
            vec.truncate(i);
            assert_eq!(elements(&vec), &std_vec[0..i]);
        }
    }
    test::<Linear>(SplitVec::with_linear_growth(2));
    test::<Doubling>(SplitVec::with_doubling_growth());
}

#[test]
fn insert() {
    fn test<G: Growth>(mut vec: SplitVec<Num, G>) {
        for i in 0..42 {
            vec.push(Num(i));
        }
        for i in 0..42 {
            vec.insert(i, Num(100 + i));
        }

        for i in 0..42 {
            assert_eq!(Some(&Num(i)), vec.get(42 + i));
            assert_eq!(Some(&Num(100 + i)), vec.get(i));
        }
    }
    test::<Linear>(SplitVec::with_linear_growth(2));
    test::<Doubling>(SplitVec::with_doubling_growth());
}

#[test]
fn slices() {
    fn test<G: Growth>(mut vec: SplitVec<usize, G>) {
        for i in 0..184 {
            assert_eq!(vec.slices(i..i + 1).len(), 0);
            assert_eq!(vec.slices(0..i + 1).len(), 0);
            vec.push(i);
        }

        let slice = vec.slices(0..vec.len());
        let mut combined = Vec::new();
        for s in slice {
            combined.extend_from_slice(s);
        }
        for i in 0..184 {
            assert_eq!(i, *at(&vec, i));
            assert_eq!(i, combined[i]);
        }

        let begin = vec.len() / 4;
        let end = 3 * vec.len() / 4;
        let slice = vec.slices(begin..end);
        let mut combined = Vec::new();
        for s in slice {
            combined.extend_from_slice(s);
        }
        for i in begin..end {
            assert_eq!(i, *at(&vec, i));
            assert_eq!(i, combined[i - begin]);
        }
    }
    test::<Linear>(SplitVec::with_linear_growth(2));
    test::<Doubling>(SplitVec::with_doubling_growth());
}

#[test]
fn slices_mut() {
    fn test<G: Growth>(mut vec: SplitVec<usize, G>) {
        for i in 0..184 {
            assert!(vec.slices_mut(i..i + 1).is_empty());
            assert!(vec.slices_mut(0..i + 1).is_empty());
            vec.push(i);
        }

        let len = vec.len();
        let slice = vec.slices_mut(0..len);
        let mut combined = Vec::new();
        for s in slice {
            combined.extend_from_slice(s);
        }
        for i in 0..184 {
            assert_eq!(i, *at(&vec, i));
            assert_eq!(i, combined[i]);
        }

        let begin = vec.len() / 4;
        let end = 3 * vec.len() / 4;
        let slice = vec.slices_mut(begin..end);
        let mut combined = Vec::new();
        for s in slice {
            combined.extend_from_slice(s);
        }
        for i in begin..end {
            assert_eq!(i, *at(&vec, i));
            assert_eq!(i, combined[i - begin]);
        }

        vec.clear();

        for _ in 0..184 {
            vec.push(0);
        }

        fn update(slice: Vec<&mut [usize]>, begin: usize) {
            let mut val = begin;
            for s in slice {
                for x in s {
                    *x = val;
                    val += 1;
                }
            }
        }
        let mut fill = |begin: usize, end: usize| {
            let range = begin..end;
            update(vec.slices_mut(range), begin);
        };

        fill(0, 14);
        fill(14, 56);
        fill(56, 77);
        fill(77, 149);
        fill(149, 182);
        fill(182, 184);
        for i in 0..184 {
            assert_eq!(vec.get(i), Some(&i));
        }
    }
    test::<Linear>(SplitVec::with_linear_growth(2));
    test::<Doubling>(SplitVec::with_doubling_growth());
}

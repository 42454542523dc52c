use orx_split_vec::{FixedCapacity, Fragment, Growth, SplitVec};

#[test]
fn fixed_indices() {
    fn new_full() -> Fragment<usize> {
        (0..10).collect::<Vec<_>>().into()
    }

    let growth = FixedCapacity;

    for i in 0..10 {
        assert_eq!(
            Some((0, i)),
            growth.get_fragment_and_inner_indices(10, &[new_full()], i)
        );
    }
    assert_eq!(
        None,
        growth.get_fragment_and_inner_indices(10, &[new_full()], 10)
    );
}

#[test]
fn fixed_capacity_vec() {
    let mut vec = SplitVec::with_fixed_capacity(77);

    for i in 0..vec.capacity() {
        assert_eq!(i, vec.len());
        vec.push(i);
        assert_eq!(1, vec.fragments().len());
        assert_eq!(77, vec.capacity());
        assert_eq!(77, vec.fragments()[0].capacity());
    }
}

#[test]
fn fixed_maximum_concurrent_capacity_is_capacity() {
    let vec: SplitVec<u8, FixedCapacity> = SplitVec::with_fixed_capacity(33);
    assert_eq!(vec.maximum_concurrent_capacity(), 33);
    assert_eq!(
        vec.growth().required_fragments_len(vec.fragments(), 33),
        Ok(1)
    );
    assert!(vec
        .growth()
        .required_fragments_len(vec.fragments(), 34)
        .is_err());
}

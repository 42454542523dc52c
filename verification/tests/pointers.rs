use orx_split_vec::{Fragment, Ptr, PtrBackward, Ptrs};

#[test]
fn ptr_empty_fragment() {
    let fragment: Fragment<String> = Vec::with_capacity(0).into();

    let mut iter = Ptr::from(&fragment);
    assert_eq!(iter.next(), None);
    assert_eq!(iter.next(), None);
}

#[test]
fn ptr_half_full_fragment() {
    let mut fragment: Fragment<String> = Vec::with_capacity(14).into();
    for i in 0..9 {
        fragment.push(i.to_string());
    }

    let mut iter = Ptr::from(&fragment);
    for i in 0..9 {
        let val = iter.next();
        assert_eq!(val, Some(&i.to_string()));
    }

    assert_eq!(iter.next(), None);
    assert_eq!(iter.next(), None);
}

#[test]
fn ptr_full_fragment() {
    let mut fragment: Fragment<String> = Vec::with_capacity(14).into();
    for i in 0..14 {
        fragment.push(i.to_string());
    }

    let mut iter = Ptr::from(&fragment);
    for i in 0..14 {
        let val = iter.next();
        assert_eq!(val, Some(&i.to_string()));
    }

    assert_eq!(iter.next(), None);
    assert_eq!(iter.next(), None);
}

#[test]
fn ptr_bwd_empty_fragment() {
    let fragment: Fragment<String> = Vec::with_capacity(0).into();

    let mut iter = PtrBackward::from(&fragment);
    assert_eq!(iter.next(), None);
    assert_eq!(iter.next(), None);
}

#[test]
fn ptr_bwd_half_full_fragment() {
    let mut fragment: Fragment<String> = Vec::with_capacity(14).into();
    for i in 0..9 {
        fragment.push(i.to_string());
    }

    let mut iter = PtrBackward::from(&fragment);
    for i in (0..9).rev() {
        let val = iter.next();
        assert_eq!(val, Some(&i.to_string()));
    }

    assert_eq!(iter.next(), None);
    assert_eq!(iter.next(), None);
}

#[test]
fn ptr_bwd_full_fragment() {
    let mut fragment: Fragment<String> = Vec::with_capacity(14).into();
    for i in 0..14 {
        fragment.push(i.to_string());
    }

    let mut iter = PtrBackward::from(&fragment);
    for i in (0..14).rev() {
        let val = iter.next();
        assert_eq!(val, Some(&i.to_string()));
    }

    assert_eq!(iter.next(), None);
    assert_eq!(iter.next(), None);
}

#[test]
fn ptrs_over_fragments() {
    let fragments: Vec<Fragment<usize>> = vec![vec![1, 2].into(), vec![3].into()];
    let ptrs = Ptrs::from(fragments.as_slice());

    let mut fwd = ptrs.get(0).expect("fragment 0");
    assert_eq!(fwd.next(), Some(&1));
    assert_eq!(fwd.next(), Some(&2));
    assert_eq!(fwd.next(), None);

    let mut bwd = ptrs.get_bwd(0).expect("fragment 0");
    assert_eq!(bwd.next(), Some(&2));
    assert_eq!(bwd.next(), Some(&1));
    assert_eq!(bwd.next(), None);

    let mut last = ptrs.get(1).expect("fragment 1");
    assert_eq!(last.next(), Some(&3));
    assert_eq!(last.next(), None);

    assert!(ptrs.get(2).is_none());
    assert!(ptrs.get_bwd(2).is_none());
}

#[test]
fn ptr_zero_fragments() {
    let fragments: Vec<Fragment<String>> = Vec::with_capacity(4);
    let ptrs = Ptrs::from(fragments.as_slice());

    for i in 0..10 {
        assert!(ptrs.get(i).is_none());
    }
}

#[test]
fn ptr_one_empty_fragment() {
    let fragment: Fragment<String> = Vec::with_capacity(2).into();
    let mut fragments: Vec<Fragment<String>> = Vec::with_capacity(4);
    fragments.push(fragment);

    let ptrs = Ptrs::from(fragments.as_slice());
    let mut ptr = ptrs.get(0).unwrap();
    assert_eq!(ptr.next(), None);
    assert_eq!(ptr.next(), None);
}

#[test]
fn ptr_one_non_empty_fragment() {
    let mut fragment: Fragment<String> = Vec::with_capacity(3).into();
    fragment.push(0.to_string());
    fragment.push(1.to_string());

    let mut fragments: Vec<Fragment<String>> = Vec::with_capacity(4);
    fragments.push(fragment);

    let ptrs = Ptrs::from(fragments.as_slice());
    let mut ptr = ptrs.get(0).unwrap();
    for i in 0..2 {
        assert_eq!(ptr.next(), Some(&i.to_string()));
    }
    assert_eq!(ptr.next(), None);
    assert_eq!(ptr.next(), None);
}

fn fragments_of_lengths(lengths: &[(usize, usize)]) -> Vec<Fragment<String>> {
    let mut fragments: Vec<Fragment<String>> = Vec::with_capacity(4);
    let mut prior = 0;
    for &(capacity, len) in lengths {
        let mut fragment: Fragment<String> = Vec::with_capacity(capacity).into();
        for i in 0..len {
            fragment.push((prior + i).to_string());
        }
        fragments.push(fragment);
        prior += capacity;
    }
    fragments
}

fn check_each_fragment(fragments: &[Fragment<String>]) {
    let ptrs = Ptrs::from(fragments);
    let mut prior = 0;
    for f in 0..fragments.len() {
        let mut ptr = ptrs.get(f).unwrap();
        for i in 0..fragments[f].len() {
            assert_eq!(ptr.next(), Some(&(prior + i).to_string()));
        }
        assert_eq!(ptr.next(), None);
        assert_eq!(ptr.next(), None);
        prior += fragments[f].len();
    }
}

#[test]
fn ptr_many_non_empty_fragments() {
    let fragments = fragments_of_lengths(&[(4, 4), (8, 8), (16, 16)]);
    check_each_fragment(&fragments);
}

#[test]
fn ptr_many_non_empty_fragments_half_last() {
    let fragments = fragments_of_lengths(&[(4, 4), (8, 8), (16, 8)]);
    check_each_fragment(&fragments);
}

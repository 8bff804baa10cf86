use robodoan::StackVec;

#[test]
fn test_stackvec_merge() {
    let mut a = StackVec::<(u8, u8), 16>::new();
    a = a.push((1, 12)).unwrap();
    a = a.push((1, 6)).unwrap();
    a = a.push((2, 1)).unwrap();
    a = a.push((6, 92)).unwrap();
    a = a.push((1, 4)).unwrap();
    a = a.push((2, 9)).unwrap();
    a = a.push((3, 14)).unwrap();
    a = a.push((1, 3)).unwrap();
    a = a.sorted_unstable();
    assert_eq!(
        a.as_slice(),
        &[(1, 3), (1, 4), (1, 6), (1, 12), (2, 1), (2, 9), (3, 14), (6, 92)]
    );
}

#[test]
fn test_stackvec_retain() {
    let mut a = StackVec::<u8, 16>::from_iter(&[9, 7, 10, 2, 8, 3, 1, 4, 6, 5]).unwrap();
    a = a.retain_unsorted(|x| x > 5);
    a = a.sorted_unstable();
    assert_eq!(a.as_slice(), &[6, 7, 8, 9, 10]);

    let b = StackVec::<u8, 2>::from_iter(&[0, 10])
        .unwrap()
        .retain_unsorted(|x| x != 0);
    assert_eq!(b.as_slice(), &[10]);
}

#[test]
fn test_push_until_full() {
    let mut a = StackVec::<u8, 3>::new();
    for x in [1, 2, 3] {
        a = a.push(x).unwrap();
    }
    assert!(a.push(4).is_none());
    assert_eq!(a.len(), 3);
    assert_eq!(a.as_slice(), &[1, 2, 3]);
}

#[test]
fn test_pop_and_clear() {
    let mut a = StackVec::<u8, 4>::from_slice(&[5, 6, 7]).unwrap();
    assert_eq!(a.pop(), Some(7));
    assert_eq!(a.as_slice(), &[5, 6]);
    a.clear();
    assert!(a.is_empty());
    assert_eq!(a.pop(), None);
}

#[test]
fn test_from_slice_too_long() {
    assert!(StackVec::<u8, 2>::from_slice(&[1, 2, 3]).is_none());
    assert!(StackVec::<u8, 3>::from_iter(&[1, 2, 3]).is_some());
}

#[test]
fn test_extend() {
    let a = StackVec::<u8, 4>::from_slice(&[1, 2]).unwrap();
    assert_eq!(a.extend(&[3, 4]).unwrap().as_slice(), &[1, 2, 3, 4]);
    assert!(a.extend(&[3, 4, 5]).is_none());
    let b = StackVec::<u8, 8>::from_slice(&[9, 8]).unwrap();
    assert_eq!(a.extend_from_stackvec(&b).unwrap().as_slice(), &[1, 2, 9, 8]);
    let c = StackVec::<u8, 8>::from_slice(&[9, 8, 7]).unwrap();
    assert!(a.extend_from_stackvec(&c).is_none());
}

#[test]
fn test_swap_remove() {
    let a = StackVec::<u8, 8>::from_slice(&[1, 2, 3, 4]).unwrap();
    assert_eq!(a.swap_remove(1).as_slice(), &[1, 4, 3]);
    assert_eq!(a.swap_remove(3).as_slice(), &[1, 2, 3]);
}

#[test]
fn test_map() {
    let a = StackVec::<u8, 8>::from_slice(&[1, 2, 3]).unwrap();
    let b: StackVec<u16, 8> = a.map(|x| x as u16 * 100);
    assert_eq!(b.as_slice(), &[100, 200, 300]);
}

#[test]
fn test_deduped() {
    let a = StackVec::<u8, 8>::from_slice(&[1, 1, 2, 3, 3, 3, 5]).unwrap();
    assert_eq!(a.deduped().as_slice(), &[1, 2, 3, 5]);
    let e = StackVec::<u8, 8>::new();
    assert!(e.deduped().is_empty());
}

#[test]
fn test_sorted_by_key_and_by() {
    let a = StackVec::<(u8, u8), 8>::from_slice(&[(1, 9), (2, 3), (3, 5)]).unwrap();
    let by_second = a.sorted_unstable_by_key(|p| p.1);
    assert_eq!(by_second.as_slice(), &[(2, 3), (3, 5), (1, 9)]);
    let desc = a.sorted_unstable_by(|x, y| y.cmp(x));
    assert_eq!(desc.as_slice(), &[(3, 5), (2, 3), (1, 9)]);
}

#[test]
fn test_retain_unsorted_order() {
    // A dropped element is replaced by the last one, which is looked at next.
    let a = StackVec::<u8, 16>::from_iter(&[9, 7, 10, 2, 8, 3, 1, 4, 6, 5]).unwrap();
    assert_eq!(a.retain_unsorted(|x| x > 5).as_slice(), &[9, 7, 10, 6, 8]);
}

#[test]
fn test_stale_slots_count_for_equality() {
    // Removing leaves the old value behind the length, and the derived
    // equality sees it.
    let a = StackVec::<u8, 4>::from_iter(&[1, 2, 3]).unwrap().swap_remove(0);
    let b = StackVec::<u8, 4>::from_iter(&[3, 2]).unwrap();
    assert_eq!(a.as_slice(), b.as_slice());
    assert_ne!(a, b);
}

use param_smoothing::const_vec::ConstVec;

#[test]
fn const_vec_push_get_and_len() {
    let mut v: ConstVec<u32, 4> = ConstVec::new();
    assert!(v.is_empty());
    assert_eq!(v.len(), 0);
    assert_eq!(v.get(0), None);
    v.push(7);
    v.push(9);
    assert!(!v.is_empty());
    assert_eq!(v.len(), 2);
    assert_eq!(v.get(0), Some(&7));
    assert_eq!(v.get(1), Some(&9));
    assert_eq!(v.get(2), None);
}

#[test]
fn const_vec_fills_to_capacity() {
    let mut v: ConstVec<i32, 3> = ConstVec::new();
    for n in 0..3 {
        v.push(n * 10);
    }
    assert_eq!(v.len(), 3);
    assert_eq!(v.get(2), Some(&20));
}

#[test]
fn const_vec_iter_walks_in_order() {
    let mut v: ConstVec<u8, 8> = ConstVec::new();
    v.push(1);
    v.push(2);
    v.push(3);
    let mut it = v.iter();
    assert_eq!(it.next(), Some(&1));
    assert_eq!(it.next(), Some(&2));
    assert_eq!(it.next(), Some(&3));
    assert_eq!(it.next(), None);
    assert_eq!(it.next(), None);

    let empty: ConstVec<u8, 2> = ConstVec::new();
    assert_eq!(empty.iter().next(), None);
}

use retriever::bitfield::{Bitfield, BITS};
use std::collections::BTreeSet;
use rand::Rng;

#[test]
fn bitfield_test_two_bits() {
    let mut b = Bitfield::new(7);

    assert!(b.get(7));
    assert!(!b.get(21));
    b.set(21);
    assert!(b.get(21));

    assert!(!b.get(0));
    assert!(!b.get(8));
    assert!(!b.get(6));
    assert!(!b.get(20));
    assert!(!b.get(22));
    assert!(!b.get(31));
    assert!(!b.get(BITS - 1));
    assert!(!b.get(BITS - 6));
    assert!(!b.get(BITS - 8));

    assert_eq!(2, b.indices().len());

    for i in b.indices() {
        assert!(i == 7 || i == 21);
    }
}

#[test]
fn bitfield_test_unset() {
    let mut b = Bitfield::new(21);

    b.set(19);
    b.set(20);
    b.set(23);
    b.set(24);
    b.set(27);

    assert!(b.get(19));
    assert!(b.get(20));
    assert!(b.get(21));
    assert!(!b.get(22));
    assert!(b.get(23));
    assert!(b.get(24));
    assert!(!b.get(25));
    assert!(!b.get(26));
    assert!(b.get(27));

    b.unset(19);
    b.unset(20);
    b.unset(21);

    assert_eq!(3, b.indices().len());
    assert_eq!(3, b.indices_rev().len());

    b.unset(23);
    b.unset(24);
    b.unset(27);

    assert_eq!(0, b.indices().len());
}

#[test]
fn bitfield_test_random() {
    let mut b = Bitfield::new(57602);
    let mut h = BTreeSet::new();

    h.insert(57602);

    for _ in 0..16 {
        let x = rand::thread_rng().gen_range(57600..57600 + BITS);
        b.set(x);
        h.insert(x);
    }

    let mut fore = Vec::new();
    for i in b.indices() {
        fore.push(i);
        assert!(h.contains(&i));
    }

    let mut aft = Vec::new();
    for i in b.indices_rev() {
        aft.push(i);
        assert!(h.contains(&i));
    }

    aft.reverse();
    assert_eq!(&fore, &aft);

    for (i, v) in h.iter().enumerate() {
        assert!(b.get(*v));
        assert_eq!(&fore[i], v);
        assert_eq!(&aft[i], v);
    }

    for x in 57600..57600 + BITS {
        assert_eq!(b.get(x), h.contains(&x));
    }
}

#[test]
fn bitfield_iter_meets_in_middle() {
    let mut b = Bitfield::new(130);
    b.set(128);
    b.set(133);
    b.set(190);

    let mut it = b.iter();
    assert_eq!(Some(128), it.next());
    assert_eq!(Some(190), it.next_back());
    assert_eq!(Some(130), it.next());
    assert_eq!(Some(133), it.next_back());
    assert_eq!(None, it.next());
    assert_eq!(None, it.next_back());
}

#[test]
fn test_two_bits() {
    let mut b = Bitfield::new(7);

    assert!(b.get(7));
    assert!(!b.get(21));
    b.set(21);
    assert!(b.get(21));

    assert!(!b.get(0));
    assert!(!b.get(8));
    assert!(!b.get(6));
    assert!(!b.get(20));
    assert!(!b.get(22));
    assert!(!b.get(31));
    assert!(!b.get(BITS - 1));
    assert!(!b.get(BITS - 6));
    assert!(!b.get(BITS - 8));

    assert_eq!(2, b.indices().len());

    for i in b.indices() {
        assert!(i == 7 || i == 21);
    }
}

#[test]
fn test_unset() {
    let mut b = Bitfield::new(21);

    b.set(19);
    b.set(20);
    b.set(23);
    b.set(24);
    b.set(27);

    assert!(b.get(19));
    assert!(b.get(20));
    assert!(b.get(21));
    assert!(!b.get(22));
    assert!(b.get(23));
    assert!(b.get(24));
    assert!(!b.get(25));
    assert!(!b.get(26));
    assert!(b.get(27));

    b.unset(19);
    b.unset(20);
    b.unset(21);

    assert_eq!(3, b.indices().len());
    assert_eq!(3, b.indices_rev().len());

    b.unset(23);
    b.unset(24);
    b.unset(27);

    assert_eq!(0, b.indices().len());
}

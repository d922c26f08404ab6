use retriever::bitset::Bitset;
use std::collections::BTreeSet;
use rand::Rng;

#[test]
fn bitset_test_single_bit() {
    let mut b = Bitset::new();

    assert!(!b.get(7));
    b.set(7);
    assert!(b.get(7));

    assert!(!b.get(0));
    assert!(!b.get(8));
    assert!(!b.get(6));
    assert!(!b.get(257));

    let mut blocks = 0;
    let mut it = b.iter();
    while let Some(_) = it.next() {
        blocks += 1;
    }
    assert_eq!(1, blocks);

    for i in b.indices() {
        assert_eq!(7, i);
    }
}

#[test]
fn bitset_test_tight_cluster() {
    let mut b = Bitset::new();

    b.set(19);
    b.set(20);
    b.set(21);
    b.set(23);
    b.set(24);
    b.set(27);

    assert!(b.get(19));
    assert!(b.get(20));
    assert!(b.get(21));
    assert!(!b.get(22));
    assert!(b.get(23));
    assert!(b.get(24));
    assert!(!b.get(25));
    assert!(!b.get(26));
    assert!(b.get(27));

    assert_eq!(6, b.indices().len());

    let v: Vec<_> = b.indices();
    assert_eq!(&v, &[19, 20, 21, 23, 24, 27]);
}

#[test]
fn bitset_test_unset() {
    let mut b = Bitset::new();

    b.set(19);
    b.set(20);
    b.set(21);
    b.set(23);
    b.set(24);
    b.set(27);

    assert!(b.get(19));
    assert!(b.get(20));
    assert!(b.get(21));
    assert!(!b.get(22));
    assert!(b.get(23));
    assert!(b.get(24));
    assert!(!b.get(25));
    assert!(!b.get(26));
    assert!(b.get(27));

    b.unset(19);
    b.unset(20);
    b.unset(21);
    b.unset(23);
    b.unset(24);
    b.unset(27);

    assert_eq!(0, b.indices().len());
    assert!(b.is_empty());
}

#[test]
fn bitset_test_sparse() {
    let mut b = Bitset::new();

    b.set(10);
    b.set(20);
    b.set(40);
    b.set(80);
    b.set(100);

    b.set(1000);
    b.set(2000);
    b.set(4000);
    b.set(8000);
    b.set(10000);

    b.set(20000);
    b.set(40000);
    b.set(80000);
    b.set(100_000);
    b.set(200_000);

    b.set(400_000);
    b.set(800_000);
    b.set(1_000_000);
    b.set(2_000_000);
    b.set(4_000_000);

    b.set(8_000_000);
    b.set(10_000_000);
    b.set(20_000_000);
    b.set(40_000_000);
    b.set(80_000_000);

    b.set(100_000_000);
    b.set(200_000_000);
    b.set(400_000_000);
    b.set(800_000_000);

    assert!(!b.get(600_000_000));
    assert!(b.get(800_000_000));

    assert_eq!(29, b.indices().len());
}

#[test]
fn bitset_test_random() {
    let mut b = Bitset::new();
    let mut h = BTreeSet::new();

    for _ in 0..1000 {
        let x = rand::thread_rng().gen_range(0..10_000);
        b.set(x);
        h.insert(x);
    }

    let mut fore = b.indices();
    fore.sort();
    for i in fore.iter() {
        assert!(h.contains(i));
    }

    for (i, v) in h.iter().enumerate() {
        assert!(b.get(*v));
        assert_eq!(&fore[i], v);
    }

    for x in 0..10_000 {
        assert_eq!(b.get(x), h.contains(&x));
    }
}

#[test]
fn bitset_random_unset_cross_check() {
    let mut b = Bitset::new();
    let mut h = BTreeSet::new();

    for _ in 0..2000 {
        let x = rand::thread_rng().gen_range(0..3_000);
        if rand::thread_rng().gen_range(0..2) == 0 {
            b.set(x);
            h.insert(x);
        } else {
            b.unset(x);
            h.remove(&x);
        }
    }

    for x in 0..3_000 {
        assert_eq!(b.get(x), h.contains(&x));
    }
}

#[test]
fn bitset_len_counts_bits() {
    let mut b = Bitset::new();
    assert_eq!(0, b.len());
    b.set(1);
    b.set(2);
    b.set(1000);
    assert_eq!(3, b.len());
    b.unset(2);
    assert_eq!(2, b.len());
    b.set(1);
    assert_eq!(2, b.len());
}

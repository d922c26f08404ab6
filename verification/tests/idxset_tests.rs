use retriever::bitfield::Bitfield;
use retriever::bitset::Bitset;
use retriever::id::Id;
use retriever::idxset::{idx_set_indices, ExactIdx, IdxRange, IdxSet, Intersection, NoIdx};
use retriever::memory_usage::MemoryUsage;
use std::collections::BTreeSet;
use rand::Rng;

#[test]
fn test_size_of_zero_length_idxrange() {
    let zero_range = IdxRange::new(0, 0);

    assert_eq!(zero_range.size(), 0);
}

#[test]
fn test_size_of_single_length_idxrange() {
    let zero_range = IdxRange::new(0, 1);

    assert_eq!(zero_range.size(), 1);
}

#[test]
fn test_size_of_short_idxrange() {
    let zero_range = IdxRange::new(0, 7);

    assert_eq!(zero_range.size(), 1);
}

fn collect_indices<S: IdxSet>(s: &S, upto: usize) -> BTreeSet<usize> {
    let mut out = BTreeSet::new();
    let mut blk = 0usize;
    while blk * 64 < upto {
        let probe = Bitfield::new_full(blk * 64);
        let got = s.intersect(&probe);
        for i in got.indices() {
            out.insert(i);
        }
        blk += 1;
    }
    out
}

#[test]
fn intersection_commutes_on_bitsets() {
    let mut a = Bitset::new();
    let mut b = Bitset::new();
    for i in [1usize, 5, 9, 130, 131, 900, 901] {
        a.set(i);
    }
    for i in [1usize, 9, 131, 899, 900, 4000] {
        b.set(i);
    }

    let ab = Intersection::new(a.clone(), b.clone());
    let ba = Intersection::new(b, a);

    let left = collect_indices(&ab, 5000);
    let right = collect_indices(&ba, 5000);
    assert_eq!(left, right);

    let expected: BTreeSet<usize> = [1usize, 9, 131, 900].into_iter().collect();
    assert_eq!(left, expected);
}

#[test]
fn intersection_with_range_and_nothing() {
    let mut a = Bitset::new();
    for i in 0..200usize {
        a.set(i);
    }
    let r = IdxRange::new(50, 130);
    let both = Intersection::new(a.clone(), r);
    let got = collect_indices(&both, 300);
    let expected: BTreeSet<usize> = (50..130usize).collect();
    assert_eq!(got, expected);

    let nothing = Intersection::new(a, NoIdx);
    assert!(collect_indices(&nothing, 300).is_empty());
    assert_eq!(nothing.size(), 0);
}

#[test]
fn id_builds_fluently() {
    let id = Id((), ()).chunk(7u64).item("name");
    assert_eq!(id.0, 7);
    assert_eq!(id.1, "name");
    let id2 = Id::new(3u32, 4u32);
    assert_eq!((id2.0, id2.1), (3, 4));
}

#[test]
fn memory_usage_merge_adds_and_reconciles() {
    let a = MemoryUsage { size_of: Some(8), len: 3, capacity: 10 };
    let b = MemoryUsage { size_of: Some(8), len: 4, capacity: 6 };
    let m = MemoryUsage::merge(a, b);
    assert_eq!(m.len, 7);
    assert_eq!(m.capacity, 16);
    assert_eq!(m.size_of, Some(8));

    let c = MemoryUsage { size_of: Some(16), len: 1, capacity: 1 };
    let m2 = MemoryUsage::merge(m, c);
    assert_eq!(m2.size_of, None);
    assert_eq!(m2.len, 8);
}

#[test]
fn test_from_range() {
    for _ in 0..200 {
        let lo = rand::thread_rng().gen_range(0..1000usize);
        let hi = rand::thread_rng().gen_range(0..10000usize);
        let mut ranger = IdxRange::new(lo, hi);

        let mut idxs = Vec::new();
        while let Some(bits) = ranger.next() {
            for i in bits.indices() {
                assert!(lo <= i && i < hi);
                idxs.push(i);
            }
        }

        for i in 0..10000usize {
            assert_eq!(lo <= i && i < hi, idxs.binary_search(&i).is_ok(), "i: {}", i);
        }
    }
}

#[test]
fn test_from_range_rev() {
    for _ in 0..200 {
        let lo = rand::thread_rng().gen_range(0..1000usize);
        let hi = rand::thread_rng().gen_range(0..10000usize);
        let mut ranger = IdxRange::new(lo, hi);

        let mut bits = Vec::new();
        while let Some(b) = ranger.next_back() {
            bits.push(b);
        }
        bits.reverse();

        let mut idxs = Vec::new();
        for b in bits.iter() {
            for i in b.indices() {
                assert!(lo <= i && i < hi);
                idxs.push(i);
            }
        }

        for i in 0..10000usize {
            assert_eq!(lo <= i && i < hi, idxs.binary_search(&i).is_ok(), "i: {}", i);
        }
    }
}

#[test]
fn invalid_block_is_empty_idx_set() {
    let sentinel = Bitfield::invalid();
    assert!(!sentinel.valid());

    let mut a = Bitset::new();
    a.set(3);
    a.set(70);

    let probe = Bitfield::new_full(64);
    let got = IdxSet::intersect(&sentinel, &probe);
    assert_eq!(0, got.indices().len());

    let both = Intersection::new(a, sentinel);
    assert!(collect_indices(&both, 200).is_empty());
}

#[test]
fn exact_value_short_circuits() {
    let mut a = Bitset::new();
    a.set(5);
    a.set(9);
    a.set(700);

    let hit = Intersection::new(a.clone(), ExactIdx { idx: 9 });
    assert_eq!(vec![9usize], idx_set_indices(&hit));

    let miss = Intersection::new(a, ExactIdx { idx: 8 });
    assert!(idx_set_indices(&miss).is_empty());
}

#[test]
fn intersection_indices_drive_from_smaller_side() {
    let mut big = Bitset::new();
    for i in 0..2000usize {
        big.set(i);
    }
    let mut small = Bitset::new();
    small.set(3);
    small.set(1999);
    small.set(2500);

    // three-way chain: the smallest operand drives, whichever way nested
    let chain1 = Intersection::new(Intersection::new(big.clone(), IdxRange::new(0, 2200)), small.clone());
    let chain2 = Intersection::new(small, Intersection::new(IdxRange::new(0, 2200), big));

    let mut v1 = idx_set_indices(&chain1);
    let mut v2 = idx_set_indices(&chain2);
    v1.sort();
    v2.sort();
    assert_eq!(v1, vec![3usize, 1999]);
    assert_eq!(v1, v2);
}

use retriever::gc::{gc_derived, DerivedMap};
use retriever::rvec::RVec;

#[test]
fn derived_map_basic() {
    let mut m: DerivedMap<u64> = DerivedMap::new();
    assert_eq!(0, m.len());
    assert!(m.get(7).is_none());

    m.insert(7, 70);
    m.insert(9, 90);
    m.insert(7, 71);
    assert_eq!(2, m.len());
    assert_eq!(Some(&71), m.get(7));
    assert_eq!(Some(&90), m.get(9));
    assert!(m.get(8).is_none());
}

#[test]
fn gc_mirrors_and_prunes() {
    let mut chunks: RVec<u64> = RVec::new();
    chunks.push(10);
    chunks.push(20);
    chunks.push(30);

    let mut chunk_list: RVec<Option<u64>> = RVec::new();
    let mut data: DerivedMap<&str> = DerivedMap::new();
    data.insert(10, "ten");
    data.insert(20, "twenty");
    data.insert(30, "thirty");
    data.insert(40, "stale");

    gc_derived(&mut chunk_list, &chunks, &mut data);
    assert_eq!(3, chunk_list.len());
    assert_eq!(Some(10), *chunk_list.index(0));
    assert_eq!(Some(20), *chunk_list.index(1));
    assert_eq!(Some(30), *chunk_list.index(2));
    assert_eq!(Some(&"ten"), data.get(10));
    assert!(data.get(40).is_none());

    // a chunk disappears (swap-removed): its derived state goes with it on
    // the next collection, and the survivors are untouched
    chunks.swap_remove(0);
    gc_derived(&mut chunk_list, &chunks, &mut data);
    assert_eq!(2, chunk_list.len());
    assert_eq!(Some(30), *chunk_list.index(0));
    assert_eq!(Some(20), *chunk_list.index(1));
    assert!(data.get(10).is_none());
    assert_eq!(Some(&"twenty"), data.get(20));
    assert_eq!(Some(&"thirty"), data.get(30));
}

#[test]
fn gc_after_remove_and_readd_restores_state_exactly() {
    // the shape of chunk removal plus re-adding the same key: the stale
    // derived value is collected on the next observed structural change,
    // and a fresh value can then be rebuilt under the same key
    let mut chunks: RVec<u64> = RVec::new();
    chunks.push(0);
    chunks.push(1);

    let mut chunk_list: RVec<Option<u64>> = RVec::new();
    let mut data: DerivedMap<u64> = DerivedMap::new();
    data.insert(0, 4);
    data.insert(1, 4);

    gc_derived(&mut chunk_list, &chunks, &mut data);
    assert_eq!(Some(&4), data.get(0));

    // remove chunk 0, collect: its cached count is dropped
    chunks.swap_remove(0);
    gc_derived(&mut chunk_list, &chunks, &mut data);
    assert!(data.get(0).is_none());
    assert_eq!(Some(&4), data.get(1));

    // re-add an identical chunk 0 and rebuild: the count reads 4 again
    chunks.push(0);
    gc_derived(&mut chunk_list, &chunks, &mut data);
    data.insert(0, 4);
    assert_eq!(Some(&4), data.get(0));
    assert_eq!(2, chunk_list.len());
}

use retriever::rvec::{GroupOp, RVec};

struct SumOp;

impl GroupOp<i64, i64> for SumOp {
    fn compute(&self, group: &[i64], _prior: &i64, _idx: usize) -> Option<i64> {
        Some(group.iter().sum::<i64>())
    }
}

#[test]
fn rvec_test_len() {
    let mut v = RVec::new();
    v.push(0);
    v.push(1);
    v.push(2);
    assert_eq!(v.len(), 3);
}

#[test]
fn rvec_test_change_count() {
    let mut v = RVec::new();
    v.push(1);
    v.push(2);
    v.push(3);
    v.set(0, 4);
    v.set(2, 5);
    v.set(1, 6);
    v.swap_remove(1);
    v.swap_remove(1);

    assert_eq!(v.change_count(), 10);
}

#[test]
fn rvec_test_map_reduce_small_sum() {
    let mut v = RVec::new();
    v.push(1);
    v.push(2);
    v.push(3);

    let mut result = RVec::new();
    result.reduce(&v, 100, &SumOp);

    assert_eq!(*result.index(0), 6);
    assert_eq!(result.len(), 1);
}

#[test]
fn rvec_test_map_reduce_small_sum_with_edit() {
    let mut v = RVec::new();
    v.push(1);
    v.push(2);
    v.push(3);

    let mut result = RVec::new();
    result.reduce(&v, 100, &SumOp);

    assert_eq!(*result.index(0), 6);
    assert_eq!(result.len(), 1);

    v.set(1, 4);

    result.reduce(&v, 100, &SumOp);

    assert_eq!(*result.index(0), 8);
    assert_eq!(result.len(), 1);
}

#[test]
fn rvec_test_map_reduce_small_sum_with_removal() {
    let mut v = RVec::new();
    v.push(1);
    v.push(2);
    v.push(3);

    let mut result = RVec::new();
    result.reduce(&v, 100, &SumOp);

    assert_eq!(*result.index(0), 6);
    assert_eq!(result.len(), 1);

    v.swap_remove(2);

    result.reduce(&v, 100, &SumOp);

    assert_eq!(*result.index(0), 3);
    assert_eq!(result.len(), 1);
}

#[test]
fn rvec_test_map_reduce_with_two_layers() {
    let mut v = RVec::new();
    for i in 1..=10 {
        v.push(i as i64);
    }

    let mut layer_1 = RVec::new();
    layer_1.reduce(&v, 2, &SumOp);

    assert_eq!(*layer_1.index(0), 3);
    assert_eq!(*layer_1.index(1), 7);
    assert_eq!(*layer_1.index(2), 11);
    assert_eq!(*layer_1.index(3), 15);
    assert_eq!(*layer_1.index(4), 19);
    assert_eq!(layer_1.len(), 5);

    v.swap_remove(3);
    layer_1.reduce(&v, 2, &SumOp);

    assert_eq!(*layer_1.index(0), 3);
    assert_eq!(*layer_1.index(1), 13);
    assert_eq!(*layer_1.index(2), 11);
    assert_eq!(*layer_1.index(3), 15);
    assert_eq!(*layer_1.index(4), 9);
    assert_eq!(layer_1.len(), 5);

    v.swap_remove(5);
    layer_1.reduce(&v, 2, &SumOp);

    assert_eq!(*layer_1.index(0), 3);
    assert_eq!(*layer_1.index(1), 13);
    assert_eq!(*layer_1.index(2), 14);
    assert_eq!(*layer_1.index(3), 15);
    assert_eq!(layer_1.len(), 4);
}

#[test]
fn rvec_test_map_reduce_with_changing_source_should_no_longer_panic() {
    let mut v = RVec::new();
    v.push(1);
    v.push(2);
    v.push(3);

    let mut result = RVec::new();
    result.reduce(&v, 2, &SumOp);
    assert_eq!(3, *result.index(0));
    assert_eq!(3, *result.index(1));

    let mut w = RVec::new();
    w.push(4);
    w.push(5);
    w.push(6);

    result.reduce(&w, 2, &SumOp);
    assert_eq!(9, *result.index(0));
    assert_eq!(6, *result.index(1));
}

#[test]
fn mrvec_test_len() {
    let mut v = RVec::new();
    v.push(0);
    v.push(1);
    v.push(2);
    assert_eq!(v.len(), 3);
}

#[test]
fn mrvec_test_change_count() {
    let mut v = RVec::new();
    v.push(1);
    v.push(2);
    v.push(3);
    v.set(0, 4);
    v.set(2, 5);
    v.set(1, 6);
    v.swap_remove(1);
    v.swap_remove(1);

    assert_eq!(v.change_count(), 10);
}

#[test]
fn mrvec_test_map_reduce_small_sum() {
    let mut v = RVec::new();
    v.push(1);
    v.push(2);
    v.push(3);

    let mut result = RVec::new();
    result.reduce(&v, 100, &SumOp);

    assert_eq!(*result.index(0), 6);
    assert_eq!(result.len(), 1);
}

#[test]
fn mrvec_test_map_reduce_small_sum_with_edit() {
    let mut v = RVec::new();
    v.push(1);
    v.push(2);
    v.push(3);

    let mut result = RVec::new();
    result.reduce(&v, 100, &SumOp);

    assert_eq!(*result.index(0), 6);

    v.set(1, 4);

    result.reduce(&v, 100, &SumOp);

    assert_eq!(*result.index(0), 8);
    assert_eq!(result.len(), 1);
}

#[test]
fn mrvec_test_map_reduce_small_sum_with_removal() {
    let mut v = RVec::new();
    v.push(1);
    v.push(2);
    v.push(3);

    let mut result = RVec::new();
    result.reduce(&v, 100, &SumOp);

    assert_eq!(*result.index(0), 6);

    v.swap_remove(2);

    result.reduce(&v, 100, &SumOp);

    assert_eq!(*result.index(0), 3);
    assert_eq!(result.len(), 1);
}

#[test]
fn mrvec_test_map_reduce_with_two_layers() {
    let mut v = RVec::new();
    for i in 1..=10 {
        v.push(i as i64);
    }

    let mut layer_1 = RVec::new();
    layer_1.reduce(&v, 2, &SumOp);

    assert_eq!(*layer_1.index(0), 3);
    assert_eq!(*layer_1.index(1), 7);
    assert_eq!(*layer_1.index(2), 11);
    assert_eq!(*layer_1.index(3), 15);
    assert_eq!(*layer_1.index(4), 19);
    assert_eq!(layer_1.len(), 5);
}

#[test]
fn mrvec_test_map_reduce_with_changing_source_should_no_longer_panic() {
    let mut v = RVec::new();
    v.push(1);
    v.push(2);
    v.push(3);

    let mut result = RVec::new();
    result.reduce(&v, 2, &SumOp);
    assert_eq!(3, *result.index(0));
    assert_eq!(3, *result.index(1));

    let mut w = RVec::new();
    w.push(4);
    w.push(5);
    w.push(6);

    result.reduce(&w, 2, &SumOp);
    assert_eq!(9, *result.index(0));
    assert_eq!(6, *result.index(1));
}

#[test]
fn rvec_touch_monotonicity() {
    // after every mutation the global counter strictly increases, so each
    // touch stamps its buckets with a value above every earlier checkpoint
    let mut v = RVec::new();
    let mut last = v.change_count();
    for i in 0..100u64 {
        v.push(i);
        assert!(v.change_count() > last);
        last = v.change_count();
    }
    for i in 0..100usize {
        v.set(i, 1000 + i as u64);
        assert!(v.change_count() > last);
        last = v.change_count();
    }
    while v.len() > 0 {
        v.swap_remove(0);
        assert!(v.change_count() > last);
        last = v.change_count();
    }
}

#[test]
fn rvec_shrink_at_bucket_boundary_recomputes_tail_group() {
    // shrinking a source so that only whole checkpoint buckets disappear
    // still refreshes the final group, whose extent changed
    let mut v = RVec::new();
    for _ in 0..100 {
        v.push(1i64);
    }

    let mut result = RVec::new();
    result.reduce(&v, 100, &SumOp);
    assert_eq!(*result.index(0), 100);

    while v.len() > 32 {
        let last = v.len() - 1;
        v.swap_remove(last);
    }

    result.reduce(&v, 100, &SumOp);
    assert_eq!(*result.index(0), 32);
}

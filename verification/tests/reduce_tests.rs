use retriever::reduce::{Reduce, ReduceRules};
use retriever::rvec::RVec;
use retriever::sums::SumRules;
use std::cell::Cell;
use std::rc::Rc;
use rand::Rng;

fn numbers_to_seven() -> RVec<u64> {
    let mut numbers = RVec::new();
    numbers.push(1);
    numbers.push(2);
    numbers.push(3);
    numbers.push(4);
    numbers.push(5);
    numbers.push(6);
    numbers.push(7);
    numbers
}

#[test]
fn reduce_test_sum() {
    let numbers = numbers_to_seven();
    let mut sum = Reduce::new(&numbers, 2, SumRules);
    sum.update(&numbers);
    assert_eq!(sum.peek(), Some(&28));
}

#[test]
fn reduce_test_sum_with_update() {
    let mut numbers = numbers_to_seven();
    let mut sum = Reduce::new(&numbers, 2, SumRules);
    sum.update(&numbers);
    assert_eq!(sum.peek(), Some(&28));

    numbers.set(3, 14);

    sum.update(&numbers);
    assert_eq!(sum.peek(), Some(&38));
}

#[test]
fn reduce_test_sum_with_removal() {
    let mut numbers = numbers_to_seven();
    let mut sum = Reduce::new(&numbers, 2, SumRules);
    sum.update(&numbers);
    assert_eq!(sum.peek(), Some(&28));

    numbers.swap_remove(3);

    sum.update(&numbers);
    assert_eq!(sum.peek(), Some(&24));
}

#[test]
fn reduce_test_sum_with_addition() {
    let mut numbers = numbers_to_seven();
    let mut sum = Reduce::new(&numbers, 2, SumRules);
    sum.update(&numbers);
    assert_eq!(sum.peek(), Some(&28));

    numbers.push(8);

    sum.update(&numbers);
    assert_eq!(sum.peek(), Some(&36));
}

/// Summation rules that count how often either rule runs.
struct CountingSumRules {
    calls: Rc<Cell<usize>>,
}

impl ReduceRules<u64, u64> for CountingSumRules {
    fn clone_summary(&self, s: &u64) -> u64 {
        *s
    }

    fn map_one(&self, e: &u64, prior: &u64, _idx: usize) -> Option<u64> {
        self.calls.set(self.calls.get() + 1);
        if *e != *prior {
            Some(*e)
        } else {
            None
        }
    }

    fn fold_many(&self, group: &[u64], prior: &u64) -> Option<u64> {
        self.calls.set(self.calls.get() + 1);
        let total: u64 = group.iter().sum();
        if total != *prior {
            Some(total)
        } else {
            None
        }
    }
}

#[test]
fn reduce_update_is_idempotent() {
    let calls = Rc::new(Cell::new(0usize));
    let mut numbers = RVec::new();
    for i in 0..100u64 {
        numbers.push(i);
    }

    let mut sum = Reduce::new(&numbers, 4, CountingSumRules { calls: Rc::clone(&calls) });
    sum.update(&numbers);
    let first = *sum.peek().unwrap();
    let calls_after_first = calls.get();
    assert!(calls_after_first > 0);

    // a second update with no intervening mutation changes nothing and
    // invokes no rule at all
    sum.update(&numbers);
    assert_eq!(Some(&first), sum.peek());
    assert_eq!(calls_after_first, calls.get());
}

#[test]
fn reduce_partial_recomputation() {
    let calls = Rc::new(Cell::new(0usize));
    let mut numbers = RVec::new();
    for i in 0..4096u64 {
        numbers.push(i);
    }

    let mut sum = Reduce::new(&numbers, 16, CountingSumRules { calls: Rc::clone(&calls) });
    sum.update(&numbers);
    let naive: u64 = (0..4096u64).sum();
    assert_eq!(sum.peek(), Some(&naive));

    // one edit: far fewer rule invocations than elements
    calls.set(0);
    numbers.set(1000, 0);
    sum.update(&numbers);
    let naive2 = naive - 1000;
    assert_eq!(sum.peek(), Some(&naive2));
    assert!(calls.get() < 4096);
}

#[test]
fn reduce_random_edits_match_naive_sum() {
    let mut numbers = RVec::new();
    let mut mirror: Vec<u64> = Vec::new();
    let k = 2000usize;

    for _ in 0..k {
        let x = rand::thread_rng().gen_range(0..1_000u64);
        numbers.push(x);
        mirror.push(x);
    }

    let mut sum = Reduce::new(&numbers, 16, SumRules);

    for _ in 0..200 {
        let op = rand::thread_rng().gen_range(0..3);
        if op == 0 || mirror.is_empty() {
            let x = rand::thread_rng().gen_range(0..1_000u64);
            numbers.push(x);
            mirror.push(x);
        } else if op == 1 {
            let i = rand::thread_rng().gen_range(0..mirror.len());
            let x = rand::thread_rng().gen_range(0..1_000u64);
            numbers.set(i, x);
            mirror[i] = x;
        } else {
            let i = rand::thread_rng().gen_range(0..mirror.len());
            numbers.swap_remove(i);
            mirror.swap_remove(i);
        }

        sum.update(&numbers);
        let naive: u64 = mirror.iter().sum();
        if mirror.is_empty() {
            assert_eq!(sum.peek(), None);
        } else {
            assert_eq!(sum.peek(), Some(&naive));
        }
    }
}

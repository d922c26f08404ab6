use retriever::rvec::RVec;
use retriever::summarize::{Summarize, SummaryRules};
use retriever::sums::SumSummaryRules;

struct SummationRules;

impl SummaryRules<i64, i64, i64> for SummationRules {
    fn map_token(&self, n: &i64, old_n: &i64, _idx: usize) -> Option<i64> {
        if *n != *old_n {
            Some(*n)
        } else {
            None
        }
    }

    fn is_absent(&self, t: &i64) -> bool {
        *t == 0
    }

    fn contribute(&self, new_n: &i64, _idx: usize, summary: &mut i64) {
        *summary += *new_n;
    }

    fn uncontribute(&self, old_n: &i64, _idx: usize, summary: &mut i64) {
        *summary -= *old_n;
    }
}

fn numbers_to_seven() -> RVec<i64> {
    let mut numbers = RVec::new();
    numbers.push(1);
    numbers.push(2);
    numbers.push(3);
    numbers.push(4);
    numbers.push(5);
    numbers.push(6);
    numbers.push(7);
    numbers
}

#[test]
fn summarize_test_sum() {
    let numbers = numbers_to_seven();
    let mut sum = Summarize::new(&numbers, SummationRules);
    sum.update(&numbers);
    assert_eq!(*sum.peek(), 28);
}

#[test]
fn summarize_test_sum_with_update() {
    let mut numbers = numbers_to_seven();
    let mut sum = Summarize::new(&numbers, SummationRules);
    sum.update(&numbers);
    assert_eq!(*sum.peek(), 28);

    numbers.set(3, 14);

    sum.update(&numbers);
    assert_eq!(*sum.peek(), 38);
}

#[test]
fn summarize_test_sum_with_removal() {
    let mut numbers = numbers_to_seven();
    let mut sum = Summarize::new(&numbers, SummationRules);
    sum.update(&numbers);
    assert_eq!(*sum.peek(), 28);

    numbers.swap_remove(3);

    sum.update(&numbers);
    assert_eq!(*sum.peek(), 24);
}

#[test]
fn summarize_test_sum_with_addition() {
    let mut numbers = numbers_to_seven();
    let mut sum = Summarize::new(&numbers, SummationRules);
    sum.update(&numbers);
    assert_eq!(*sum.peek(), 28);

    numbers.push(8);

    sum.update(&numbers);
    assert_eq!(*sum.peek(), 36);
}

#[test]
fn summarize_reattach_rebuilds() {
    let numbers = numbers_to_seven();
    let mut sum = Summarize::new(&numbers, SummationRules);
    sum.update(&numbers);
    assert_eq!(*sum.peek(), 28);

    let mut others = RVec::new();
    others.push(10i64);
    others.push(20);

    sum.update(&others);
    assert_eq!(*sum.peek(), 30);
}

#[test]
fn summarize_verified_sum_rules() {
    let mut numbers = RVec::new();
    for i in 1..=7u64 {
        numbers.push(i);
    }
    let mut sum = Summarize::new(&numbers, SumSummaryRules);
    sum.update(&numbers);
    assert_eq!(*sum.peek(), 28);

    numbers.set(3, 14);
    sum.update(&numbers);
    assert_eq!(*sum.peek(), 38);

    numbers.swap_remove(0);
    sum.update(&numbers);
    assert_eq!(*sum.peek(), 37);
}

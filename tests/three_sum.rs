use std::collections::HashSet;

use threesum::{naive_three_sum, three_sum, try_three_sum, ThreeSumError, MAX_NUMBER, MIN_NUMBER};

fn as_set(v: Vec<[i64; 3]>) -> HashSet<[i64; 3]> {
    v.into_iter().collect::<HashSet<_>>()
}

fn set_of(items: &[[i64; 3]]) -> HashSet<[i64; 3]> {
    items.iter().copied().collect::<HashSet<_>>()
}

#[test]
fn it_works() {
    fastrand::seed(1774478);

    for i in 0..100 {
        let mut src = Vec::with_capacity(fastrand::usize(250..500));
        for _i in 0..src.capacity() {
            src.push(fastrand::i64(MIN_NUMBER..MAX_NUMBER));
        }

        let naive_soln = naive_three_sum(&src).into_iter().collect::<HashSet<_>>();
        let maybe_soln = three_sum(&src).into_iter().collect::<HashSet<_>>();

        assert_eq!(naive_soln, maybe_soln);
        println!("{i:<5} correct");
    }
}

#[test]
fn scenario_mixed_values() {
    let src = [-1, 0, 1, 2, -1, -4];
    let expected = set_of(&[[-1, -1, 2], [-1, 0, 1]]);
    assert_eq!(as_set(three_sum(&src)), expected);
    assert_eq!(as_set(naive_three_sum(&src)), expected);
    assert_eq!(three_sum(&src).len(), 2);
}

#[test]
fn scenario_four_zeros() {
    let src = [0, 0, 0, 0];
    assert_eq!(three_sum(&src), vec![[0, 0, 0]]);
    assert_eq!(as_set(naive_three_sum(&src)), set_of(&[[0, 0, 0]]));
}

#[test]
fn scenario_no_triple() {
    let src = [1, 2, 3];
    assert!(three_sum(&src).is_empty());
    assert!(naive_three_sum(&src).is_empty());
}

#[test]
fn two_zeros_are_not_enough() {
    assert!(three_sum(&[0, 0, 5]).is_empty());
    assert!(naive_three_sum(&[0, 0, 5]).is_empty());
}

#[test]
fn single_occurrence_is_not_reused() {
    // 2 + 2 - 4 needs two copies of 2
    assert!(three_sum(&[2, -4, 7]).is_empty());
    assert_eq!(three_sum(&[2, -4, 2]), vec![[-4, 2, 2]]);
    // -1 - 1 + 2 needs two copies of -1
    assert!(three_sum(&[-1, 2, 9]).is_empty());
    assert_eq!(three_sum(&[-1, 2, -1]), vec![[-1, -1, 2]]);
}

#[test]
fn short_inputs_give_nothing() {
    let empty: [i64; 0] = [];
    assert!(three_sum(&empty).is_empty());
    assert!(three_sum(&[0]).is_empty());
    assert!(three_sum(&[0, 0]).is_empty());
    assert!(naive_three_sum(&empty).is_empty());
    assert!(naive_three_sum(&[0]).is_empty());
    assert!(naive_three_sum(&[0, 0]).is_empty());
}

#[test]
fn triples_are_sorted_zero_sum_and_distinct() {
    let src = [-5, -3, -2, -1, 0, 0, 0, 1, 2, 3, 3, 4, 5, -4, 6, -6];
    let found = three_sum(&src);
    for t in &found {
        assert!(t[0] <= t[1] && t[1] <= t[2]);
        assert_eq!(t[0] + t[1] + t[2], 0);
    }
    assert_eq!(as_set(found.clone()).len(), found.len());
    assert_eq!(as_set(found), as_set(naive_three_sum(&src)));
}

#[test]
fn repeated_calls_agree() {
    let src = [4, -2, -2, 0, 1, -1, 3, -3, 0, 0];
    assert_eq!(as_set(three_sum(&src)), as_set(three_sum(&src)));
}

#[test]
fn domain_edges() {
    let low = MIN_NUMBER;
    let high = MAX_NUMBER - 1;
    assert_eq!(three_sum(&[low, 1500, 1500]), vec![[-3000, 1500, 1500]]);
    assert_eq!(three_sum(&[high, -2999, 0]), vec![[-2999, 0, 2999]]);
    assert_eq!(three_sum(&[low, high, 1]), vec![[-3000, 1, 2999]]);
}

#[test]
fn naive_keeps_one_entry_per_position_triple() {
    // positions (0,1,2), (0,1,3) and (0,2,3) give the same sorted triple
    let src = [-2, 1, 1, 1];
    assert_eq!(naive_three_sum(&src), vec![[-2, 1, 1], [-2, 1, 1], [-2, 1, 1]]);
    assert_eq!(three_sum(&src), vec![[-2, 1, 1]]);
}

#[test]
fn naive_handles_extreme_values() {
    let src = [i64::MAX, i64::MAX, i64::MIN, i64::MIN, 0];
    assert_eq!(as_set(naive_three_sum(&src)), HashSet::new());
    let src = [i64::MAX, i64::MIN + 1, 0];
    assert_eq!(naive_three_sum(&src), vec![[i64::MIN + 1, 0, i64::MAX]]);
}

#[test]
fn try_three_sum_refuses_value_below_domain() {
    let src = [0, 1, -3001, -1];
    assert_eq!(
        try_three_sum(&src),
        Err(ThreeSumError::OutOfRangeValue { index: 2, value: -3001 })
    );
}

#[test]
fn try_three_sum_refuses_upper_bound() {
    let src = [0, 3000, 5000];
    assert_eq!(
        try_three_sum(&src),
        Err(ThreeSumError::OutOfRangeValue { index: 1, value: 3000 })
    );
}

#[test]
fn try_three_sum_accepts_domain_values() {
    let src = [-1, 0, 1, 2, -1, -4];
    let found = try_three_sum(&src).unwrap();
    assert_eq!(as_set(found), set_of(&[[-1, -1, 2], [-1, 0, 1]]));
    let empty: [i64; 0] = [];
    assert_eq!(try_three_sum(&empty), Ok(vec![]));
}

#[test]
fn naive_lists_hits_in_position_order() {
    let src = [-1, 0, 1, 2, -1, -4];
    assert_eq!(naive_three_sum(&src), vec![[-1, 0, 1], [-1, -1, 2], [-1, 0, 1]]);
}

#[test]
fn naive_keeps_every_all_zero_hit() {
    let src = [0, 0, 0, 0];
    assert_eq!(naive_three_sum(&src), vec![[0, 0, 0], [0, 0, 0], [0, 0, 0], [0, 0, 0]]);
}

#[test]
fn naive_sorts_each_triple() {
    assert_eq!(naive_three_sum(&[1, -2, 1]), vec![[-2, 1, 1]]);
}

#[test]
fn naive_multiset_ignores_input_order() {
    let mut first = naive_three_sum(&[-1, 0, 1, 2, -1, -4]);
    let mut second = naive_three_sum(&[-4, 2, -1, 1, 0, -1]);
    first.sort();
    second.sort();
    assert_eq!(first, second);
}

use rocket_search::impulse_iterator::new;

#[test]
fn single_stage_yields_every_value_up_to_the_cap() {
    let distributions = new(1, 5120, 0);
    assert_eq!(distributions.len(), 5121);
    for (value, tuple) in distributions.iter().enumerate() {
        assert_eq!(*tuple, vec![value as u16]);
    }
}

#[test]
fn single_stage_with_zero_cap_yields_only_zero() {
    let distributions = new(1, 0, 0);
    assert_eq!(distributions, vec![vec![0]]);
}

#[test]
fn two_stage_tuples_are_strictly_increasing_and_within_budget() {
    let distributions = new(2, 10, 0);
    for tuple in &distributions {
        assert_eq!(tuple.len(), 2);
        assert!(tuple[0] < tuple[1]);
        assert!(tuple[1] <= 9);
        assert!(tuple[0] as u32 + tuple[1] as u32 <= 10);
    }
    assert!(distributions.contains(&vec![4, 5]));
    assert!(!distributions.contains(&vec![5, 5]));
    assert!(!distributions.contains(&vec![4, 7]));
    assert!(!distributions.contains(&vec![0, 10]));
}

#[test]
fn floor_and_budget_cut_the_two_stage_set_down_exactly() {
    let distributions = new(2, 20, 8);
    let expected: Vec<Vec<u16>> = vec![
        vec![8, 9],
        vec![8, 10],
        vec![8, 11],
        vec![8, 12],
        vec![9, 10],
        vec![9, 11],
    ];
    assert_eq!(distributions, expected);
}

#[test]
fn three_stage_tuples_under_a_tight_budget_come_out_exactly() {
    let distributions = new(3, 6, 0);
    let expected: Vec<Vec<u16>> = vec![
        vec![0, 1, 2],
        vec![0, 1, 3],
        vec![0, 1, 4],
        vec![0, 2, 3],
        vec![0, 2, 4],
        vec![1, 2, 3],
    ];
    assert_eq!(distributions, expected);
}

#[test]
fn the_impulse_sum_matches_a_hand_total() {
    assert_eq!(rocket_search::impulse_iterator::sum_of(&vec![8, 9, 12]), 29);
    assert_eq!(rocket_search::impulse_iterator::sum_of(&Vec::new()), 0);
}

#[test]
fn cap_below_the_reserved_separations_yields_nothing() {
    assert!(new(3, 1, 0).is_empty());
}

#[test]
fn floor_above_the_per_stage_ceiling_yields_nothing() {
    assert!(new(2, 10, 10).is_empty());
}

#[test]
fn tuples_come_in_climbing_lexicographic_order() {
    let distributions = new(3, 12, 0);
    assert!(!distributions.is_empty());
    for pair in distributions.windows(2) {
        assert!(pair[0] < pair[1]);
    }
}

use rocket_search::config::StageAdditionFunction;

#[test]
fn the_default_mode_is_cumulative() {
    assert_eq!(StageAdditionFunction::default(), StageAdditionFunction::Cumulative);
}

#[test]
fn the_two_modes_are_distinct() {
    assert_ne!(StageAdditionFunction::Direct, StageAdditionFunction::Cumulative);
}

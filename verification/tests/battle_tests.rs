use maze_game::battle::FireRateState;

#[test]
fn test_fire_rate_becomes_ready() {
    let mut state = FireRateState::new(300);
    assert!(!state.ready);
    assert_eq!(state.time_passed_ms, 0);

    state.tick(300);
    // exactly the wait is not yet enough: more time must have passed
    assert!(!state.ready);

    state.tick(1);
    assert!(state.ready);
    assert_eq!(state.time_passed_ms, 301);
}

#[test]
fn test_fire_rate_reset() {
    let mut state = FireRateState::new(100);
    state.tick(250);
    assert!(state.ready);

    state.reset();
    assert_eq!(state.time_passed_ms, 0);
    assert_eq!(state.time_to_wait_between_shots_ms, 100);

    state.tick(50);
    assert!(!state.ready);
}

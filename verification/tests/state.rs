use parallel_worker::state::State;

#[test]
fn test_state() {
    let state = State::new();
    assert!(!state.is_cancelled());

    state.set_running();
    assert!(!state.is_cancelled());

    state.cancel();
    assert!(state.is_cancelled());

    state.cancel();
    assert!(state.is_cancelled());

    state.set_running();
    assert!(!state.is_cancelled());

    state.set_running();
    assert!(!state.is_cancelled());
}

#[test]
fn state_clones_share_the_flag() {
    let state = State::new();
    let other = state.clone();
    other.cancel();
    assert!(state.is_cancelled());
    state.set_running();
    assert!(!other.is_cancelled());
}

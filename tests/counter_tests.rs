use sqrt_contract::{IncrementContract, State};

#[test]
fn get_state_defaults_to_zero() {
    assert_eq!(IncrementContract::get_state(None), State { count: 0, last_incr: 0 });
}

#[test]
fn get_state_returns_stored_record() {
    let s = State { count: 9, last_incr: 4 };
    assert_eq!(IncrementContract::get_state(Some(s)), s);
}

#[test]
fn increment_accumulates() {
    let mut state = IncrementContract::get_state(None);
    assert_eq!(IncrementContract::increment(&mut state, 1), 1);
    assert_eq!(IncrementContract::increment(&mut state, 10), 11);
    assert_eq!(state, State { count: 11, last_incr: 10 });
    assert_eq!(IncrementContract::increment(&mut state, 0), 11);
    assert_eq!(state.last_incr, 0);
}

#[test]
fn increment_up_to_max() {
    let mut state = State { count: u32::MAX - 5, last_incr: 1 };
    assert_eq!(IncrementContract::increment(&mut state, 5), u32::MAX);
    assert_eq!(state.last_incr, 5);
}

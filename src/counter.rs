//! A counter that remembers its total and the amount last added.
use vstd::prelude::*;

verus! {

/// The counter's persistent record.
#[derive(Clone, Copy, Debug, PartialEq, Eq, Structural)]
pub struct State {
    pub count: u32,
    pub last_incr: u32,
}

/// The counter's operations on its record.
pub struct IncrementContract;

impl IncrementContract {
    /// The record as stored, or a zero record where none was stored yet.
    pub fn get_state(stored: Option<State>) -> (r: State)
        ensures
            r == (match stored {
                Some(s) => s,
                None => State { count: 0, last_incr: 0 },
            }),
    {
        match stored {
            Some(s) => s,
            None => State { count: 0, last_incr: 0 },
        }
    }

    /// Adds `incr` to the count, records `incr` as the last amount added, and
    /// returns the new count.
    pub fn increment(state: &mut State, incr: u32) -> (r: u32)
        requires
            old(state).count + incr <= u32::MAX,
        ensures
            final(state).count == old(state).count + incr,
            final(state).last_incr == incr,
            r == final(state).count,
    {
        state.count = state.count + incr;
        state.last_incr = incr;
        state.count
    }
}

} // verus!

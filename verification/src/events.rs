//! Events as plain data, as an event queue carries them between the input
//! side and the consumers of a frame loop.

use vstd::prelude::*;

verus! {

/// A typed event: a plain wrapper around its payload.
pub struct Event<T> {
    pub data: T,
}

impl<T> Event<T> {
    pub fn new(data: T) -> (r: Event<T>)
        ensures
            r == (Event { data }),
    {
        Event { data }
    }
}

/// The edge reported for a button: it just went down, or it just went up.
#[derive(Clone, Copy, Debug, PartialEq, Eq, Structural)]
pub enum ButtonEventState {
    JustPressed,
    JustReleased,
}

} // verus!

//! Input intents as plain data.

use vstd::prelude::*;

verus! {

/// A movement intent derived from held keys.
#[derive(Clone, Copy, Debug)]
pub enum Movement {
    Forward,
    Backward,
    Left,
    Right,
}

/// Whether a button is currently held.
#[derive(Clone, Copy, Debug, PartialEq, Eq, Structural)]
pub enum ButtonState {
    Pressed,
    Released,
}

} // verus!

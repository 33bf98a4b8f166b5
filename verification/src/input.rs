//! The state of a button or key.

use vstd::prelude::*;

verus! {

/// Whether a button or key is pressed or released.
#[derive(Debug, Copy, Clone, Eq, PartialEq, Hash)]
pub enum ElementState {
    Pressed,
    Released,
}

impl ElementState {
    /// Whether this is the pressed state.
    pub fn is_pressed(&self) -> (r: bool)
        ensures
            r == (*self is Pressed),
    {
        match self {
            ElementState::Pressed => true,
            ElementState::Released => false,
        }
    }
}

} // verus!

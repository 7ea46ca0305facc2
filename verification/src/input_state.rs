//! What the pointer did since the last tick.

use crate::math::Vector2;
use vstd::prelude::*;

verus! {

/// The pointer's cell and its buttons, as the tick finds them.
pub struct InputState {
    /// The pointer's place in grid coordinates; it may lie outside the grid.
    pub mouse_position: Vector2<i32>,
    /// Held down to paint.
    pub mouse_left_down: bool,
    /// Held down to erase.
    pub mouse_right_down: bool,
}

} // verus!

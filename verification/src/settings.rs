//! Start-up configuration.

use vstd::prelude::*;

verus! {

/// Dimensions of the simulated grid and the pacing of its updates.
pub struct Settings {
    pub game_width: usize,
    pub game_height: usize,
    pub debug_enabled: bool,
    /// Milliseconds between two rendered frames.
    pub render_update_interval: u64,
    /// Milliseconds between two physics ticks.
    pub physics_update_interval: u64,
}

impl Default for Settings {
    fn default() -> (s: Settings)
        ensures
            s.game_width == 200,
            s.game_height == 150,
            s.debug_enabled,
            s.render_update_interval == 15,
            s.physics_update_interval == 15,
    {
        Settings {
            game_width: 200,
            game_height: 150,
            debug_enabled: true,
            render_update_interval: 15,
            physics_update_interval: 15,
        }
    }
}

} // verus!

//! A falling-sand cellular automaton: a grid of typed particles that fall and
//! spill by local density comparisons, the tick that orders their updates, and
//! the coalescing of changed cells into a bounded set of upload rectangles.

pub mod app_manager_interface;
pub mod color;
pub mod engine;
pub mod grid;
pub mod input_state;
pub mod loader;
pub mod math;
pub mod native_renderer;
pub mod particle;
pub mod particle_data;
pub mod random;
pub mod renderer_interface;
pub mod renderer_utils;
pub mod schedule;
pub mod settings;
pub mod text;
pub mod utils;

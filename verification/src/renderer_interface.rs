//! What the simulation asks of whatever draws it.

use crate::particle::Particle;
use crate::utils::Pixel;
use vstd::prelude::*;

verus! {

/// A presentation layer: it takes batches of changed particles and is told
/// when to draw a frame.
pub trait RendererInterface {
    /// Takes a batch of particles to draw at their cells.
    fn queue_particles(&mut self, particles_to_queue: &[Particle]);

    /// Takes pixels to draw over the scene.
    fn queue_debug_overlay_pixels(&mut self, pixels_to_queue: Vec<Pixel>);

    /// Draws what has been queued.
    fn render_frame(&mut self);
}

} // verus!

//! Helpers of the presentation layer that need no GPU.

use crate::color::Color;
use crate::native_renderer::with_pixel;
use crate::particle::Particle;
use vstd::prelude::*;

verus! {

/// The linear index of the pixel that a particle's position names in a
/// canvas `width` wide.
pub open spec fn pixel_index(p: Particle, width: int) -> int {
    p.position.y * width + p.position.x
}

/// The buffer `buffer` with each of `particles` drawn at its position, one
/// after the other.
pub open spec fn drawn_by_position(buffer: Seq<u8>, particles: Seq<Particle>, width: int) -> Seq<u8>
    decreases particles.len(),
{
    if particles.len() == 0 {
        buffer
    } else {
        with_pixel(
            drawn_by_position(buffer, particles.drop_last(), width),
            pixel_index(particles.last(), width),
            particles.last().color,
        )
    }
}

/// Whether every particle of a batch has its pixel within the buffer.
pub open spec fn fits(particles: Seq<Particle>, bytes: int, width: int) -> bool {
    forall|i: int|
        0 <= i < particles.len() ==> {
            let p = #[trigger] particles[i];
            &&& 0 <= p.position.x
            &&& 0 <= p.position.y
            &&& pixel_index(p, width) * 4 + 3 < bytes
        }
}

/// Draws particles into a frame buffer of BGRA bytes, each at the pixel
/// that its position names.
pub fn process_particles(particles: &[Particle], frame_buffer: &mut [u8], width: usize)
    requires
        fits(particles@, old(frame_buffer)@.len() as int, width as int),
    ensures
        final(frame_buffer)@ == drawn_by_position(old(frame_buffer)@, particles@, width as int),
{
    let ghost w = width as int;
    let mut n: usize = 0;
    assert(particles@.take(0) =~= Seq::<Particle>::empty());
    while n < particles.len()
        invariant
            n <= particles@.len(),
            w == width,
            fits(particles@, old(frame_buffer)@.len() as int, w),
            frame_buffer@.len() == old(frame_buffer)@.len(),
            frame_buffer@ == drawn_by_position(old(frame_buffer)@, particles@.take(n as int), w),
        decreases particles.len() - n,
    {
        let bytes: usize = frame_buffer.len();
        let x: usize = particles[n].position.x as usize;
        let y: usize = particles[n].position.y as usize;
        proof {
            assert(particles@.take(n + 1).drop_last() =~= particles@.take(n as int));
            assert(0 <= y * w) by (nonlinear_arith)
                requires
                    0 <= y,
                    0 <= w,
            ;
        }
        let index: usize = y * width + x;
        let final_color: Color = particles[n].color;
        let offset: usize = index * 4;
        frame_buffer[offset] = final_color.b;
        frame_buffer[offset + 1] = final_color.g;
        frame_buffer[offset + 2] = final_color.r;
        frame_buffer[offset + 3] = final_color.a;
        n += 1;
    }
    assert(particles@.take(n as int) =~= particles@);
}

} // verus!

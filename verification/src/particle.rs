//! The live content of one grid cell.

use crate::color::{lerp_of, raw_of_hex, unpacked, Color};
use crate::math::Vector2;
use crate::particle_data::{MaterialView, ParticleData};
use crate::random::random_below;
use rand::rngs::StdRng;
use vstd::prelude::*;

verus! {

/// Number of equally likely draws that decide a particle's shade.
pub const SHADE_DRAWS: u32 = 10;

/// Number of steps between a material's base colour and its variant.
pub const SHADE_STEPS: u8 = 5;

/// A cell's instance of a material, with its resolved colour and the cell it
/// lies in.
#[derive(Debug)]
pub struct Particle {
    pub handle: u32,
    pub id: u16,
    pub name: String,
    pub category: u16,
    pub color: Color,
    pub position: Vector2<i32>,
    pub index: u32,
    pub is_movable: bool,
    /// Density in millionths, copied from the material.
    pub density: u64,
}

/// The shade, in fifths of the way from base to variant, that a draw from
/// `0..10` selects: a uniform value in `[0, 1)` rounded to the nearest fifth,
/// so that the two ends are half as likely as the four shades between them.
pub open spec fn shade_of_draw(draw: u32) -> u8 {
    if draw >= SHADE_DRAWS {
        SHADE_STEPS
    } else {
        ((draw + 1) / 2) as u8
    }
}

/// The colour of a material at a shade.
pub open spec fn shaded_color(material: MaterialView, shade: u8) -> Color {
    lerp_of(unpacked(raw_of_hex(material.base_color)), unpacked(raw_of_hex(material.variant_color)), shade)
}

/// Whether `p` carries what every particle of `material` carries: all but
/// its colour, its handle and its place.
pub open spec fn made_of(p: Particle, material: MaterialView) -> bool {
    &&& p.id == material.id
    &&& p.name@ == material.name
    &&& p.category == material.category
    &&& p.is_movable == material.is_movable
    &&& p.density == material.density
}

/// Whether the colour of `p` is one of the six shades of `material`.
pub open spec fn has_shade_of(p: Particle, material: MaterialView) -> bool {
    exists|shade: u8| shade <= SHADE_STEPS && p.color == #[trigger] shaded_color(material, shade)
}

impl Clone for Particle {
    fn clone(&self) -> (copy: Self)
        ensures
            copy == *self,
    {
        Particle {
            handle: self.handle,
            id: self.id,
            name: self.name.clone(),
            category: self.category,
            color: self.color,
            position: self.position,
            index: self.index,
            is_movable: self.is_movable,
            density: self.density,
        }
    }
}

impl Particle {
    /// A particle of the given material at `(x, y)`, its shade drawn from
    /// `rng`. Its linear index is left at zero for the grid to set.
    pub fn new(particle_data: &ParticleData, x: i32, y: i32, handle: u32, rng: &mut StdRng) -> (p:
        Particle)
        ensures
            made_of(p, particle_data@),
            has_shade_of(p, particle_data@),
            p.handle == handle,
            p.position.x == x,
            p.position.y == y,
            p.index == 0,
    {
        let draw: u32 = random_below(rng, SHADE_DRAWS);
        Self::with_draw(particle_data, x, y, handle, draw)
    }

    /// The particle that `new` makes when its draw from `0..10` is `draw`.
    pub fn with_draw(particle_data: &ParticleData, x: i32, y: i32, handle: u32, draw: u32) -> (p:
        Particle)
        ensures
            made_of(p, particle_data@),
            p.color == shaded_color(particle_data@, shade_of_draw(draw)),
            has_shade_of(p, particle_data@),
            p.handle == handle,
            p.position.x == x,
            p.position.y == y,
            p.index == 0,
    {
        let shade: u8 = if draw >= SHADE_DRAWS {
            SHADE_STEPS
        } else {
            ((draw + 1) / 2) as u8
        };
        let final_color: Color = Color::lerp_hex(
            particle_data.base_color.as_str(),
            particle_data.variant_color.as_str(),
            shade,
        );
        assert(shade <= SHADE_STEPS && final_color == shaded_color(particle_data@, shade));
        Particle {
            handle: handle,
            id: particle_data.id,
            name: particle_data.name.clone(),
            category: particle_data.category,
            color: final_color,
            position: Vector2::<i32>::new(x, y),
            index: 0,
            is_movable: particle_data.is_movable,
            density: particle_data.density,
        }
    }
}

} // verus!

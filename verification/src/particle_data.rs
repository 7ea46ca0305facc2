//! Material definitions.

use vstd::prelude::*;

verus! {

/// Number of density units in one whole: densities are kept in millionths.
pub const DENSITY_SCALE: u64 = 1_000_000;

/// The definition of one material: what every particle made from it has in
/// common.
#[derive(Debug, Clone)]
pub struct ParticleData {
    pub id: u16,
    pub name: String,
    pub category: u16,
    /// Hexadecimal text of the colour at one end of the material's range.
    pub base_color: String,
    /// Hexadecimal text of the colour at the other end.
    pub variant_color: String,
    pub is_movable: bool,
    /// Density in millionths: water at `1.0` is `1_000_000`.
    pub density: u64,
}

/// A material definition with its texts as sequences of characters.
pub struct MaterialView {
    pub id: u16,
    pub name: Seq<char>,
    pub category: u16,
    pub base_color: Seq<char>,
    pub variant_color: Seq<char>,
    pub is_movable: bool,
    pub density: u64,
}

impl View for ParticleData {
    type V = MaterialView;

    open spec fn view(&self) -> MaterialView {
        MaterialView {
            id: self.id,
            name: self.name@,
            category: self.category,
            base_color: self.base_color@,
            variant_color: self.variant_color@,
            is_movable: self.is_movable,
            density: self.density,
        }
    }
}

/// Whether each material of a catalog is filed under its own id.
pub open spec fn keys_are_ids(catalog: Map<u16, ParticleData>) -> bool {
    forall|id: u16| #[trigger] catalog.contains_key(id) ==> catalog[id].id == id
}

} // verus!

//! The grid: sole owner of the simulation's state. All coordinate arithmetic
//! and every change of a cell pass through it.

use crate::color::Color;
use crate::math::Vector2;
use crate::particle::{has_shade_of, made_of, Particle};
use crate::particle_data::{keys_are_ids, ParticleData};
use crate::random::random_below;
use crate::utils::Offset2;
use rand::rngs::StdRng;
use std::collections::HashMap;
use std::collections::HashSet;
use vstd::arithmetic::div_mod::{lemma_fundamental_div_mod, lemma_fundamental_div_mod_converse};
use vstd::multiset::Multiset;
use vstd::prelude::*;
use vstd::std_specs::iter::IteratorSpec;

verus! {

/// A rectangle of cells, each holding exactly one particle, with the set of
/// cells that changed since the set was last drained.
pub struct Grid {
    pub width: i32,
    pub height: i32,
    /// The cells, row by row.
    pub data: Vec<Particle>,
    /// Linear indices of the cells that changed.
    pub dirty_particles: HashSet<u32>,
    /// The materials that cells can be made of, by id.
    pub particle_data_map: HashMap<u16, ParticleData>,
}

/// Whether a particle's stored place is the cell with linear index `k` of a
/// grid `width` cells wide.
pub open spec fn cell_ok(p: Particle, k: int, width: int) -> bool {
    &&& p.index == k
    &&& p.position.x == k % width
    &&& p.position.y == k / width
}

/// The particle `p` as it is once it lies in the cell that `cell` described:
/// the material's content moves, the place stays with the cell.
pub open spec fn moved_into(p: Particle, cell: Particle) -> Particle {
    Particle { position: cell.position, index: cell.index, ..p }
}

/// The cells after the particles at `a` and `b` have changed places.
pub open spec fn swapped(data: Seq<Particle>, a: int, b: int) -> Seq<Particle> {
    data.update(a, moved_into(data[b], data[a])).update(b, moved_into(data[a], data[b]))
}

/// What a particle is apart from the cell it lies in.
pub open spec fn content_of(p: Particle) -> Particle {
    Particle { position: Vector2 { x: 0, y: 0 }, index: 0, ..p }
}

/// The particles in the cells apart from their places, each as often as it
/// occurs.
pub open spec fn contents(data: Seq<Particle>) -> Multiset<Particle> {
    data.map_values(|p: Particle| content_of(p)).to_multiset()
}

/// The material ids in the cells, each as often as it occurs.
pub open spec fn material_ids(data: Seq<Particle>) -> Multiset<u16> {
    data.map_values(|p: Particle| p.id).to_multiset()
}

/// In a grid of `w` by `h` cells, the cell `(x, y)` has a linear index below
/// `w * h` from which its column and row can be read back.
pub proof fn lemma_cell_index(w: int, h: int, x: int, y: int)
    requires
        0 <= x < w,
        0 <= y < h,
    ensures
        0 <= y * w + x < w * h,
        (y * w + x) % w == x,
        (y * w + x) / w == y,
{
    assert(y * w + w <= h * w) by (nonlinear_arith)
        requires
            0 <= y < h,
            0 < w,
    ;
    assert(0 <= y * w) by (nonlinear_arith)
        requires
            0 <= y,
            0 < w,
    ;
    assert(h * w == w * h) by (nonlinear_arith);
    lemma_fundamental_div_mod_converse(y * w + x, w, y, x);
}

/// In a grid of `w` by `h` cells, a linear index below `w * h` names a cell
/// within the grid, and that cell has this index.
pub proof fn lemma_index_cell(w: int, h: int, k: int)
    requires
        0 < w,
        0 <= k < w * h,
    ensures
        0 <= k % w < w,
        0 <= k / w < h,
        (k / w) * w + k % w == k,
{
    lemma_fundamental_div_mod(k, w);
    assert((k / w) * w == w * (k / w)) by (nonlinear_arith);
    assert(k / w < h) by (nonlinear_arith)
        requires
            0 < w,
            k < w * h,
            k == w * (k / w) + k % w,
            0 <= k % w,
    ;
    assert(0 <= k / w) by (nonlinear_arith)
        requires
            0 < w,
            0 <= k,
            k == w * (k / w) + k % w,
            k % w < w,
    ;
}

/// Whether a cell at the displacement `(dx, dy)` from a marked cell is marked
/// with it: the cell itself, and its eight neighbours if they are included.
pub open spec fn near(dx: int, dy: int, include_neighbors: bool) -> bool {
    if include_neighbors {
        -1 <= dx <= 1 && -1 <= dy <= 1
    } else {
        dx == 0 && dy == 0
    }
}

impl Grid {
    /// The materials that cells of this grid can be made of.
    pub open spec fn catalog(&self) -> Map<u16, ParticleData> {
        self.particle_data_map@
    }

    /// The number of cells.
    pub open spec fn cell_count(&self) -> int {
        self.width * self.height
    }

    /// Whether `(x, y)` names a cell.
    pub open spec fn in_bounds(&self, x: int, y: int) -> bool {
        0 <= x < self.width && 0 <= y < self.height
    }

    /// The linear, row-major index of the cell `(x, y)`.
    pub open spec fn index_of(&self, x: int, y: int) -> int {
        y * self.width + x
    }

    /// Whether the dimensions are ones that a grid can be made with.
    pub open spec fn dims_ok(&self) -> bool {
        &&& 0 <= self.width <= u16::MAX
        &&& 0 <= self.height <= u16::MAX
    }

    /// Whether every cell holds a particle that knows its own place.
    pub open spec fn cells_ok(&self) -> bool {
        &&& self.dims_ok()
        &&& self.data@.len() == self.cell_count()
        &&& forall|k: int|
            0 <= k < self.data@.len() ==> cell_ok(#[trigger] self.data@[k], k, self.width as int)
    }

    /// Whether each material of the catalog is filed under its own id.
    pub open spec fn catalog_ok(&self) -> bool {
        keys_are_ids(self.catalog())
    }

    /// Whether every dirty mark names a cell.
    pub open spec fn dirty_ok(&self) -> bool {
        forall|k: u32| self.dirty_particles@.contains(k) ==> (k as int) < self.cell_count()
    }

    /// The invariant of a populated grid.
    pub open spec fn wf(&self) -> bool {
        self.cells_ok() && self.dirty_ok() && self.catalog_ok()
    }

    /// A grid of the given size over the given materials. It has no cells
    /// until it is populated.
    pub fn new(width: u16, height: u16, catalog: HashMap<u16, ParticleData>) -> (grid: Grid)
        ensures
            grid.width == width,
            grid.height == height,
            grid.data@.len() == 0,
            grid.dirty_particles@ == Set::<u32>::empty(),
            grid.catalog() == catalog@,
            grid.dims_ok(),
            grid.dirty_ok(),
            grid.catalog_ok() == keys_are_ids(catalog@),
    {
        let data: Vec<Particle> = Vec::new();
        Grid {
            width: width as i32,
            height: height as i32,
            data: data,
            dirty_particles: HashSet::<u32>::new(),
            particle_data_map: catalog,
        }
    }

    /// Whether `(x, y)` names a cell.
    pub fn is_in_bounds(&self, x: i32, y: i32) -> (inside: bool)
        ensures
            inside == self.in_bounds(x as int, y as int),
    {
        x >= 0 && x < self.width && y >= 0 && y < self.height
    }

    /// The linear index of a cell.
    fn cell_index(&self, x: i32, y: i32) -> (k: u32)
        requires
            self.dims_ok(),
            self.in_bounds(x as int, y as int),
        ensures
            k == self.index_of(x as int, y as int),
            k < self.cell_count(),
            k % (self.width as u32) == x,
            k / (self.width as u32) == y,
    {
        proof {
            lemma_cell_index(self.width as int, self.height as int, x as int, y as int);
            assert(self.width * self.height <= 65535 * 65535) by (nonlinear_arith)
                requires
                    0 <= self.width <= 65535,
                    0 <= self.height <= 65535,
            ;
        }
        (y as u32) * (self.width as u32) + (x as u32)
    }

    /// Fills every cell with a fresh particle of the material `particle_id`,
    /// each with its own shade and with its place set. What the grid held
    /// before is dropped; the dirty marks stay as they are.
    pub fn populate(&mut self, particle_id: u16, rng: &mut StdRng)
        requires
            old(self).dims_ok(),
            old(self).catalog_ok(),
            old(self).catalog().contains_key(particle_id),
        ensures
            final(self).cells_ok(),
            final(self).catalog_ok(),
            final(self).width == old(self).width,
            final(self).height == old(self).height,
            final(self).catalog() == old(self).catalog(),
            final(self).dirty_particles@ == old(self).dirty_particles@,
            forall|k: int|
                0 <= k < final(self).data@.len() ==> {
                    let p = #[trigger] final(self).data@[k];
                    &&& p.id == particle_id
                    &&& made_of(p, old(self).catalog()[particle_id]@)
                    &&& has_shade_of(p, old(self).catalog()[particle_id]@)
                    &&& p.handle == k
                },
    {
        broadcast use vstd::std_specs::hash::group_hash_axioms;

        let ghost material = self.catalog()[particle_id]@;
        self.data.clear();
        let mut y: i32 = 0;
        while y < self.height
            invariant
                self.dims_ok(),
                self.width == old(self).width,
                self.height == old(self).height,
                self.particle_data_map == old(self).particle_data_map,
                self.dirty_particles == old(self).dirty_particles,
                self.catalog().contains_key(particle_id),
                material == self.catalog()[particle_id]@,
                0 <= y <= self.height,
                self.data@.len() == y * self.width,
                forall|k: int|
                    0 <= k < self.data@.len() ==> {
                        let p = #[trigger] self.data@[k];
                        &&& cell_ok(p, k, self.width as int)
                        &&& made_of(p, material)
                        &&& has_shade_of(p, material)
                        &&& p.handle == k
                    },
            decreases self.height - y,
        {
            let mut x: i32 = 0;
            while x < self.width
                invariant
                    self.dims_ok(),
                    self.width == old(self).width,
                    self.height == old(self).height,
                    self.particle_data_map == old(self).particle_data_map,
                    self.dirty_particles == old(self).dirty_particles,
                    self.catalog().contains_key(particle_id),
                    material == self.catalog()[particle_id]@,
                    0 <= y < self.height,
                    0 <= x <= self.width,
                    self.data@.len() == y * self.width + x,
                    forall|k: int|
                        0 <= k < self.data@.len() ==> {
                            let p = #[trigger] self.data@[k];
                            &&& cell_ok(p, k, self.width as int)
                            &&& made_of(p, material)
                            &&& has_shade_of(p, material)
                            &&& p.handle == k
                        },
                decreases self.width - x,
            {
                let index: u32 = self.cell_index(x, y);
                let particle_data = self.particle_data_map.get(&particle_id).unwrap();
                let mut particle: Particle = Particle::new(particle_data, x, y, index, rng);
                particle.index = index;
                self.data.push(particle);
                x += 1;
            }
            y += 1;
            assert((y - 1) * self.width + self.width == y * self.width) by (nonlinear_arith);
        }
        assert(self.data@.len() == self.cell_count()) by (nonlinear_arith)
            requires
                y == self.height,
                self.data@.len() == y * self.width,
        ;
    }

    /// The particle in the cell `(x, y)`, if there is such a cell and the
    /// grid holds a particle for it.
    pub fn get_particle_at<'a>(&'a self, x: i32, y: i32) -> (found: Option<&'a Particle>)
        requires
            self.dims_ok(),
        ensures
            found is Some <==> self.in_bounds(x as int, y as int) && self.index_of(
                x as int,
                y as int,
            ) < self.data@.len(),
            found matches Some(p) ==> *p == self.data@[self.index_of(x as int, y as int)],
    {
        if !(self.is_in_bounds(x, y)) {
            return None;
        }
        let index: usize = self.cell_index(x, y) as usize;
        if index < self.data.len() {
            Some(&self.data[index])
        } else {
            None
        }
    }

    /// The cells that marking `(x, y)` dirty marks: the cell itself if it lies
    /// in the grid and, if asked for, those of its eight neighbours that do.
    pub open spec fn marks(&self, x: int, y: int, include_neighbors: bool) -> Set<u32> {
        Set::new(
            |k: u32|
                (k as int) < self.cell_count() && near(
                    (k as int) % (self.width as int) - x,
                    (k as int) / (self.width as int) - y,
                    include_neighbors,
                ),
        )
    }

    /// The in-grid cells among those that lie at `offsets` from `(x, y)`, by
    /// linear index and in the order of `offsets`.
    pub open spec fn neighbor_indices(&self, x: int, y: int, offsets: Seq<(i32, i32)>) -> Seq<u32> {
        offsets.filter_map(
            |o: (i32, i32)|
                if self.in_bounds(x + o.0, y + o.1) {
                    Some(self.index_of(x + o.0, y + o.1) as u32)
                } else {
                    None
                },
        )
    }

    /// Marks the one cell `(x, y)`, if the grid has it.
    fn mark_cell(&mut self, x: i64, y: i64)
        requires
            old(self).dims_ok(),
        ensures
            final(self).width == old(self).width,
            final(self).height == old(self).height,
            final(self).data == old(self).data,
            final(self).particle_data_map == old(self).particle_data_map,
            final(self).dirty_particles@ == if old(self).in_bounds(x as int, y as int) {
                old(self).dirty_particles@.insert(old(self).index_of(x as int, y as int) as u32)
            } else {
                old(self).dirty_particles@
            },
    {
        broadcast use vstd::std_specs::hash::group_hash_axioms;

        if x >= 0 && x < self.width as i64 && y >= 0 && y < self.height as i64 {
            let k: u32 = self.cell_index(x as i32, y as i32);
            self.dirty_particles.insert(k);
        }
    }

    /// Records that the cell `(x, y)` changed and, if asked for, that its
    /// eight neighbours may have to react. Cells outside the grid get no mark.
    pub fn mark_particle_dirty(&mut self, x: i32, y: i32, mark_neighbors_dirty: bool)
        requires
            old(self).dims_ok(),
        ensures
            final(self).width == old(self).width,
            final(self).height == old(self).height,
            final(self).data == old(self).data,
            final(self).particle_data_map == old(self).particle_data_map,
            final(self).dirty_particles@ == old(self).dirty_particles@.union(
                old(self).marks(x as int, y as int, mark_neighbors_dirty),
            ),
    {
        let ghost before = self.dirty_particles@;
        let ghost w = self.width as int;
        let ghost h = self.height as int;
        let cx: i64 = x as i64;
        let cy: i64 = y as i64;
        self.mark_cell(cx, cy);
        if mark_neighbors_dirty {
            self.mark_cell(cx - 1, cy - 1);
            self.mark_cell(cx, cy - 1);
            self.mark_cell(cx + 1, cy - 1);
            self.mark_cell(cx - 1, cy);
            self.mark_cell(cx + 1, cy);
            self.mark_cell(cx - 1, cy + 1);
            self.mark_cell(cx, cy + 1);
            self.mark_cell(cx + 1, cy + 1);
        }
        proof {
            let marked = old(self).marks(x as int, y as int, mark_neighbors_dirty);
            let after = self.dirty_particles@;
            assert forall|k: u32| after.contains(k) <==> (before.contains(k) || marked.contains(
                k,
            )) by {
                old(self).lemma_marks_contains(x as int, y as int, mark_neighbors_dirty, k);
            }
            assert(after =~= before.union(marked));
        }
    }

    /// The mark that one cell gets: its linear index, if the grid has it.
    spec fn mark_of(&self, x: int, y: int) -> Set<u32> {
        if self.in_bounds(x, y) {
            set![self.index_of(x, y) as u32]
        } else {
            Set::empty()
        }
    }

    /// A mark of `(x, y)` is the mark of that cell or, with neighbours, of
    /// one of the eight cells around it.
    proof fn lemma_marks_contains(&self, x: int, y: int, include_neighbors: bool, k: u32)
        requires
            self.dims_ok(),
        ensures
            self.marks(x, y, include_neighbors).contains(k) <==> (self.mark_of(x, y).contains(k)
                || (include_neighbors && (self.mark_of(x - 1, y - 1).contains(k) || self.mark_of(
                x,
                y - 1,
            ).contains(k) || self.mark_of(x + 1, y - 1).contains(k) || self.mark_of(
                x - 1,
                y,
            ).contains(k) || self.mark_of(x + 1, y).contains(k) || self.mark_of(
                x - 1,
                y + 1,
            ).contains(k) || self.mark_of(x, y + 1).contains(k) || self.mark_of(
                x + 1,
                y + 1,
            ).contains(k)))),
    {
        let w = self.width as int;
        let h = self.height as int;
        assert(w * h <= 65535 * 65535) by (nonlinear_arith)
            requires
                0 <= w <= 65535,
                0 <= h <= 65535,
        ;
        if (k as int) < w * h {
            assert(w > 0) by (nonlinear_arith)
                requires
                    0 <= w,
                    0 < w * h,
            ;
            lemma_index_cell(w, h, k as int);
            let cx = (k as int) % w;
            let cy = (k as int) / w;
            assert(self.in_bounds(cx, cy));
            assert(self.index_of(cx, cy) == k as int);
            assert(self.mark_of(cx, cy).contains(k));
        }
        self.lemma_mark_of(x, y, k);
        self.lemma_mark_of(x - 1, y - 1, k);
        self.lemma_mark_of(x, y - 1, k);
        self.lemma_mark_of(x + 1, y - 1, k);
        self.lemma_mark_of(x - 1, y, k);
        self.lemma_mark_of(x + 1, y, k);
        self.lemma_mark_of(x - 1, y + 1, k);
        self.lemma_mark_of(x, y + 1, k);
        self.lemma_mark_of(x + 1, y + 1, k);
    }

    /// The mark of a cell is below the cell count and gives the cell back.
    proof fn lemma_mark_of(&self, x: int, y: int, k: u32)
        requires
            self.dims_ok(),
        ensures
            self.mark_of(x, y).contains(k) ==> {
                &&& (k as int) < self.cell_count()
                &&& (k as int) % (self.width as int) == x
                &&& (k as int) / (self.width as int) == y
            },
    {
        if self.in_bounds(x, y) {
            lemma_cell_index(self.width as int, self.height as int, x, y);
        }
        assert(self.width * self.height <= 65535 * 65535) by (nonlinear_arith)
            requires
                0 <= self.width <= 65535,
                0 <= self.height <= 65535,
        ;
    }
}

impl Grid {
    /// The in-grid cells among those that lie at `offsets` from `(x, y)`, by
    /// linear index and in the order of `offsets`.
    pub fn get_neighbor_indices_of(&self, x: i32, y: i32, offsets: &[(i32, i32)]) -> (neighbors:
        Vec<u32>)
        requires
            self.dims_ok(),
        ensures
            neighbors@ == self.neighbor_indices(x as int, y as int, offsets@),
    {
        let mut neighbors: Vec<u32> = Vec::with_capacity(offsets.len());
        let ghost pick = |o: (i32, i32)|
            if self.in_bounds(x + o.0, y + o.1) {
                Some(self.index_of(x + o.0, y + o.1) as u32)
            } else {
                None
            };
        let mut i: usize = 0;
        while i < offsets.len()
            invariant
                self.dims_ok(),
                i <= offsets.len(),
                pick == |o: (i32, i32)|
                    if self.in_bounds(x + o.0, y + o.1) {
                        Some(self.index_of(x + o.0, y + o.1) as u32)
                    } else {
                        None
                    },
                neighbors@ == offsets@.take(i as int).filter_map(pick),
            decreases offsets.len() - i,
        {
            let x_pos: i64 = x as i64 + offsets[i].0 as i64;
            let y_pos: i64 = y as i64 + offsets[i].1 as i64;
            proof {
                offsets@.lemma_filter_map_take_succ(pick, i as int);
            }
            if x_pos >= 0 && x_pos < self.width as i64 && y_pos >= 0 && y_pos < self.height as i64 {
                let neighbor_index: u32 = self.cell_index(x_pos as i32, y_pos as i32);
                neighbors.push(neighbor_index);
            }
            i += 1;
        }
        assert(offsets@.take(offsets.len() as int) =~= offsets@);
        neighbors
    }

    /// Overwrites the cell `(x, y)` with a fresh particle of the material
    /// `particle_id`. Does nothing, and says so, where the grid has no such
    /// cell or the catalog no such material.
    pub fn create_particle_at(
        &mut self,
        x: i32,
        y: i32,
        particle_id: u16,
        mark_dirty: bool,
        mark_neighbors_dirty: bool,
        rng: &mut StdRng,
    ) -> (created: bool)
        requires
            old(self).wf(),
        ensures
            final(self).wf(),
            final(self).width == old(self).width,
            final(self).height == old(self).height,
            final(self).catalog() == old(self).catalog(),
            created <==> old(self).in_bounds(x as int, y as int) && old(self).catalog().contains_key(
                particle_id,
            ),
            !created ==> final(self).data == old(self).data && final(self).dirty_particles@ == old(
                self,
            ).dirty_particles@,
            created ==> {
                let k = old(self).index_of(x as int, y as int);
                let p = final(self).data@[k];
                &&& final(self).data@ == old(self).data@.update(k, p)
                &&& p.id == particle_id
                &&& made_of(p, old(self).catalog()[particle_id]@)
                &&& has_shade_of(p, old(self).catalog()[particle_id]@)
                &&& p.handle == 1
                &&& final(self).dirty_particles@ == if mark_dirty {
                    old(self).dirty_particles@.union(
                        old(self).marks(x as int, y as int, mark_neighbors_dirty),
                    )
                } else {
                    old(self).dirty_particles@
                }
            },
    {
        broadcast use vstd::std_specs::hash::group_hash_axioms;

        if !(self.is_in_bounds(x, y)) {
            return false;
        }
        let index: u32 = self.cell_index(x, y);
        let mut new_particle: Particle = match self.particle_data_map.get(&particle_id) {
            Some(particle_data) => Particle::new(particle_data, x, y, 1, rng),
            None => {
                return false;
            },
        };
        new_particle.index = index;
        self.data[index as usize] = new_particle;
        assert(self.data@ =~= old(self).data@.update(index as int, self.data@[index as int]));
        if mark_dirty {
            self.mark_particle_dirty(x, y, mark_neighbors_dirty);
        }
        true
    }
}

/// The offsets of all groups, one group after the other.
pub open spec fn candidates(groups: Seq<Vec<Offset2<i32>>>) -> Seq<Offset2<i32>> {
    groups.map_values(|g: Vec<Offset2<i32>>| g@).flatten()
}

/// The candidates of the groups before group `g` are followed, among all
/// candidates, by the offsets of group `g`.
proof fn lemma_candidates_group(groups: Seq<Vec<Offset2<i32>>>, g: int)
    requires
        0 <= g < groups.len(),
    ensures
        candidates(groups.take(g + 1)) == candidates(groups.take(g)) + groups[g]@,
        candidates(groups.take(g + 1)).len() <= candidates(groups).len(),
        forall|d: int|
            0 <= d < groups[g]@.len() ==> candidates(groups)[candidates(groups.take(g)).len() + d]
                == groups[g]@[d],
{
    let view = |v: Vec<Offset2<i32>>| v@;
    let head = groups.take(g + 1).map_values(view);
    let tail = groups.skip(g + 1).map_values(view);
    assert(head =~= groups.take(g).map_values(view).push(groups[g]@));
    groups.take(g).map_values(view).lemma_flatten_push(groups[g]@);
    assert(groups.map_values(view) =~= head + tail);
    vstd::seq_lib::lemma_flatten_concat(head, tail);
}

/// Exchanges the contents of two cells.
fn swap_cells(data: &mut Vec<Particle>, a: usize, b: usize)
    requires
        a < old(data).len(),
        b < old(data).len(),
        a != b,
    ensures
        final(data)@ == old(data)@.update(a as int, old(data)@[b as int]).update(
            b as int,
            old(data)@[a as int],
        ),
{
    let mut held = Particle {
        handle: 0,
        id: 0,
        name: String::new(),
        category: 0,
        color: Color::from_rgba(0, 0, 0, 0),
        position: Vector2::<i32>::new(0, 0),
        index: 0,
        is_movable: false,
        density: 0,
    };
    core::mem::swap(&mut held, &mut data[a]);
    core::mem::swap(&mut held, &mut data[b]);
    core::mem::swap(&mut held, &mut data[a]);
    assert(data@ =~= old(data)@.update(a as int, old(data)@[b as int]).update(
        b as int,
        old(data)@[a as int],
    ));
}

/// Whatever is read off a particle without regard to its place is found as
/// often after two particles have changed places as before.
proof fn lemma_swap_keeps<T>(data: Seq<Particle>, a: int, b: int, read: spec_fn(Particle) -> T)
    requires
        0 <= a < data.len(),
        0 <= b < data.len(),
        a != b,
        forall|p: Particle, cell: Particle| #[trigger] read(moved_into(p, cell)) == read(p),
    ensures
        swapped(data, a, b).map_values(read).to_multiset() == data.map_values(read).to_multiset(),
{
    broadcast use vstd::seq_lib::to_multiset_update;

    let was = data.map_values(read);
    let step = was.update(a, was[b]);
    assert(read(moved_into(data[b], data[a])) == read(data[b]));
    assert(read(moved_into(data[a], data[b])) == read(data[a]));
    assert(swapped(data, a, b).map_values(read) =~= step.update(b, was[a]));
    assert(step.to_multiset() == was.to_multiset().insert(was[b]).remove(was[a]));
    assert(step.update(b, was[a]).to_multiset() == step.to_multiset().insert(was[a]).remove(
        step[b],
    ));
    assert(was.to_multiset().count(was[a]) > 0) by {
        broadcast use vstd::seq_lib::to_multiset_contains;

        assert(was.contains(was[a]));
    }
    assert(was.to_multiset().count(was[b]) > 0) by {
        broadcast use vstd::seq_lib::to_multiset_contains;

        assert(was.contains(was[b]));
    }
    assert(step.update(b, was[a]).to_multiset() =~= was.to_multiset());
}

/// Two particles that change places leave the material ids as they were.
pub proof fn lemma_swap_keeps_materials(data: Seq<Particle>, a: int, b: int)
    requires
        0 <= a < data.len(),
        0 <= b < data.len(),
        a != b,
    ensures
        material_ids(swapped(data, a, b)) == material_ids(data),
{
    lemma_swap_keeps(data, a, b, |p: Particle| p.id);
}

/// Two particles that change places leave the contents of the grid as they
/// were: nothing but the places of the two has changed.
pub proof fn lemma_swap_keeps_contents(data: Seq<Particle>, a: int, b: int)
    requires
        0 <= a < data.len(),
        0 <= b < data.len(),
        a != b,
    ensures
        contents(swapped(data, a, b)) == contents(data),
{
    lemma_swap_keeps(data, a, b, |p: Particle| content_of(p));
}

impl Grid {
    /// The cell that the particle at `source` would move to by the offset
    /// `o`, taken as it is or mirrored left to right.
    pub open spec fn target_of(&self, source: int, o: Offset2<i32>, mirrored: bool) -> (int, int) {
        let from = self.data@[source].position;
        (
            from.x + if mirrored {
                -(o.dx as int)
            } else {
                o.dx as int
            },
            from.y + o.dy,
        )
    }

    /// Whether the particle at `source` may change places with the one at
    /// `(tx, ty)`: that cell exists, is another cell, holds a movable particle,
    /// and that particle is strictly less dense.
    pub open spec fn legal_move(&self, source: int, tx: int, ty: int) -> bool {
        &&& self.in_bounds(tx, ty)
        &&& self.index_of(tx, ty) != source
        &&& self.data@[self.index_of(tx, ty)].is_movable
        &&& self.data@[source].density > self.data@[self.index_of(tx, ty)].density
    }

    /// Whether candidate `k` is a legal move for the particle at `source`.
    pub open spec fn legal_candidate(
        &self,
        source: int,
        offsets: Seq<Offset2<i32>>,
        flips: Seq<bool>,
        k: int,
    ) -> bool {
        let t = self.target_of(source, offsets[k], flips[k]);
        self.legal_move(source, t.0, t.1)
    }

    /// Whether candidate `k` is the one that is taken: it is legal and none
    /// before it is.
    pub open spec fn first_legal(
        &self,
        source: int,
        offsets: Seq<Offset2<i32>>,
        flips: Seq<bool>,
        k: int,
    ) -> bool {
        &&& 0 <= k < offsets.len()
        &&& self.legal_candidate(source, offsets, flips, k)
        &&& forall|j: int| 0 <= j < k ==> !self.legal_candidate(source, offsets, flips, j)
    }

    /// Whether `after` is this grid once the particle at `source` has changed
    /// places with the one at `(tx, ty)`.
    pub open spec fn moved_to(
        &self,
        after: Grid,
        source: int,
        tx: int,
        ty: int,
        mark_dirty: bool,
        mark_neighbors_dirty: bool,
    ) -> bool {
        let from = self.data@[source].position;
        &&& after.data@ == swapped(self.data@, source, self.index_of(tx, ty))
        &&& after.dirty_particles@ == if mark_dirty {
            self.dirty_particles@.union(self.marks(tx, ty, mark_neighbors_dirty)).union(
                self.marks(from.x as int, from.y as int, mark_neighbors_dirty),
            )
        } else {
            self.dirty_particles@
        }
    }

    /// Moves the particle at `particle_index` to the first of its candidate
    /// cells that it may move to, if there is one. The candidates are the
    /// offsets of `direction_groups`, group by group; candidate `k` is
    /// mirrored left to right where `flips[k]` is set.
    pub fn try_move_with_flips(
        &mut self,
        particle_index: usize,
        direction_groups: &[Vec<Offset2<i32>>],
        flips: &[bool],
        mark_dirty: bool,
        mark_neighbors_dirty: bool,
    ) -> (moved: bool)
        requires
            old(self).wf(),
            particle_index < old(self).data@.len(),
            flips@.len() == candidates(direction_groups@).len(),
        ensures
            final(self).wf(),
            final(self).width == old(self).width,
            final(self).height == old(self).height,
            final(self).catalog() == old(self).catalog(),
            moved <==> exists|k: int|
                old(self).first_legal(
                    particle_index as int,
                    candidates(direction_groups@),
                    flips@,
                    k,
                ),
            forall|k: int|
                old(self).first_legal(
                    particle_index as int,
                    candidates(direction_groups@),
                    flips@,
                    k,
                ) ==> {
                    let t = old(self).target_of(
                        particle_index as int,
                        candidates(direction_groups@)[k],
                        flips@[k],
                    );
                    old(self).moved_to(
                        *final(self),
                        particle_index as int,
                        t.0,
                        t.1,
                        mark_dirty,
                        mark_neighbors_dirty,
                    )
                },
            !moved ==> final(self).data == old(self).data && final(self).dirty_particles@ == old(
                self,
            ).dirty_particles@,
            material_ids(final(self).data@) == material_ids(old(self).data@),
            contents(final(self).data@) == contents(old(self).data@),
    {
        let ghost all = candidates(direction_groups@);
        let ghost source = particle_index as int;
        let ghost w = self.width as int;
        let ghost h = self.height as int;
        let from_x: i32 = self.data[particle_index].position.x;
        let from_y: i32 = self.data[particle_index].position.y;
        proof {
            assert(cell_ok(self.data@[source], source, w));
            assert(w > 0) by (nonlinear_arith)
                requires
                    0 <= w,
                    0 <= source < w * h,
            ;
            lemma_index_cell(w, h, source);
        }
        let mut k: usize = 0;
        let mut g: usize = 0;
        while g < direction_groups.len()
            invariant
                *self == *old(self),
                self.wf(),
                source == particle_index as int,
                source < self.data@.len(),
                all == candidates(direction_groups@),
                flips@.len() == all.len(),
                from_x == self.data@[source].position.x,
                from_y == self.data@[source].position.y,
                self.in_bounds(from_x as int, from_y as int),
                self.index_of(from_x as int, from_y as int) == source,
                w == self.width,
                h == self.height,
                g <= direction_groups.len(),
                k == candidates(direction_groups@.take(g as int)).len(),
                k <= all.len(),
                forall|j: int| 0 <= j < k ==> !self.legal_candidate(source, all, flips@, j),
            decreases direction_groups.len() - g,
        {
            proof {
                lemma_candidates_group(direction_groups@, g as int);
            }
            let directions = &direction_groups[g];
            let ghost base = k as int;
            let mut d: usize = 0;
            while d < directions.len()
                invariant
                    *self == *old(self),
                    self.wf(),
                    source == particle_index as int,
                    source < self.data@.len(),
                    all == candidates(direction_groups@),
                    flips@.len() == all.len(),
                    from_x == self.data@[source].position.x,
                    from_y == self.data@[source].position.y,
                    self.in_bounds(from_x as int, from_y as int),
                    self.index_of(from_x as int, from_y as int) == source,
                    w == self.width,
                    h == self.height,
                    g < direction_groups.len(),
                    *directions == direction_groups@[g as int],
                    d <= directions@.len(),
                    k == base + d,
                    base + directions@.len() <= all.len(),
                    forall|i: int| 0 <= i < directions@.len() ==> all[base + i] == directions@[i],
                    forall|j: int| 0 <= j < k ==> !self.legal_candidate(source, all, flips@, j),
                decreases directions.len() - d,
            {
                let direction = directions[d];
                let final_dx: i64 = if flips[k] {
                    -(direction.dx as i64)
                } else {
                    direction.dx as i64
                };
                let tx: i64 = from_x as i64 + final_dx;
                let ty: i64 = from_y as i64 + direction.dy as i64;
                assert(self.target_of(source, all[k as int], flips@[k as int]) == (
                    tx as int,
                    ty as int,
                ));
                if self.try_move_to(particle_index, tx, ty, mark_dirty, mark_neighbors_dirty) {
                    proof {
                        assert(old(self).first_legal(source, all, flips@, k as int));
                        assert forall|n: int| old(self).first_legal(source, all, flips@, n) implies n
                            == k by {
                            if n < k {
                                assert(!old(self).legal_candidate(source, all, flips@, n));
                            } else if n > k {
                                assert(old(self).legal_candidate(source, all, flips@, k as int));
                            }
                        }
                    }
                    return true;
                }
                k += 1;
                d += 1;
            }
            g += 1;
        }
        proof {
            assert(direction_groups@.take(g as int) =~= direction_groups@);
            assert forall|n: int| !old(self).first_legal(source, all, flips@, n) by {
                if 0 <= n < all.len() {
                    assert(!old(self).legal_candidate(source, all, flips@, n));
                }
            }
        }
        false
    }

    /// Changes the places of the particle at `particle_index` and the one at
    /// `(tx, ty)` if that move is legal, and says whether it did.
    fn try_move_to(
        &mut self,
        particle_index: usize,
        tx: i64,
        ty: i64,
        mark_dirty: bool,
        mark_neighbors_dirty: bool,
    ) -> (moved: bool)
        requires
            old(self).wf(),
            particle_index < old(self).data@.len(),
        ensures
            final(self).wf(),
            final(self).width == old(self).width,
            final(self).height == old(self).height,
            final(self).catalog() == old(self).catalog(),
            moved == old(self).legal_move(particle_index as int, tx as int, ty as int),
            moved ==> old(self).moved_to(
                *final(self),
                particle_index as int,
                tx as int,
                ty as int,
                mark_dirty,
                mark_neighbors_dirty,
            ),
            !moved ==> *final(self) == *old(self),
            material_ids(final(self).data@) == material_ids(old(self).data@),
            contents(final(self).data@) == contents(old(self).data@),
    {
        if !(tx >= 0 && tx < self.width as i64 && ty >= 0 && ty < self.height as i64) {
            return false;
        }
        let target_index: usize = self.cell_index(tx as i32, ty as i32) as usize;
        if particle_index == target_index {
            return false;
        }
        if !(self.data[target_index].is_movable && self.data[particle_index].density
            > self.data[target_index].density) {
            return false;
        }
        let ghost w = self.width as int;
        let source_position = self.data[particle_index].position;
        let source_index: u32 = self.data[particle_index].index;
        let target_position = self.data[target_index].position;
        let target_cell: u32 = self.data[target_index].index;
        assert(cell_ok(self.data@[particle_index as int], particle_index as int, w));
        assert(cell_ok(self.data@[target_index as int], target_index as int, w));
        swap_cells(&mut self.data, particle_index, target_index);
        self.data[particle_index].position = source_position;
        self.data[particle_index].index = source_index;
        self.data[target_index].position = target_position;
        self.data[target_index].index = target_cell;
        proof {
            assert(self.data@ =~= swapped(
                old(self).data@,
                particle_index as int,
                target_index as int,
            ));
            lemma_swap_keeps_materials(old(self).data@, particle_index as int, target_index as int);
            lemma_swap_keeps_contents(old(self).data@, particle_index as int, target_index as int);
            assert forall|i: int| 0 <= i < self.data@.len() implies cell_ok(
                #[trigger] self.data@[i],
                i,
                w,
            ) by {
                assert(cell_ok(old(self).data@[i], i, w));
            }
        }
        if mark_dirty {
            self.mark_particle_dirty(tx as i32, ty as i32, mark_neighbors_dirty);
            self.mark_particle_dirty(source_position.x, source_position.y, mark_neighbors_dirty);
        }
        true
    }
}

/// Whether a sequence of flips is one that a move may be made with: one flip
/// for each candidate, and none set unless mirroring is asked for.
pub open spec fn flips_allowed(flips: Seq<bool>, count: nat, mirroring: bool) -> bool {
    &&& flips.len() == count
    &&& !mirroring ==> forall|i: int| 0 <= i < flips.len() ==> !flips[i]
}

impl Grid {
    /// Whether `after` and `moved` are what a move of the particle at
    /// `source` gives with the candidates `offsets`, mirrored by `flips`:
    /// the first legal candidate is taken; without one nothing changes.
    pub open spec fn move_outcome(
        &self,
        after: Grid,
        moved: bool,
        source: int,
        offsets: Seq<Offset2<i32>>,
        flips: Seq<bool>,
        mark_dirty: bool,
        mark_neighbors_dirty: bool,
    ) -> bool {
        &&& moved <==> exists|k: int| self.first_legal(source, offsets, flips, k)
        &&& forall|k: int| #[trigger]
            self.first_legal(source, offsets, flips, k) ==> {
                let t = self.target_of(source, offsets[k], flips[k]);
                self.moved_to(after, source, t.0, t.1, mark_dirty, mark_neighbors_dirty)
            }
        &&& !moved ==> after.data == self.data && after.dirty_particles@
            == self.dirty_particles@
    }

    /// The core physics primitive: moves the particle at `particle_index` to
    /// the first cell, among those its direction groups name in order, that
    /// holds a movable and strictly less dense particle. With
    /// `bump_them_nerds` each offset is mirrored left to right with
    /// probability one half, so that neither side is preferred. A particle
    /// that cannot move has settled: the grid is then left as it was.
    pub fn try_move_particle(
        &mut self,
        particle_index: usize,
        direction_groups: &[Vec<Offset2<i32>>],
        bump_them_nerds: bool,
        mark_dirty: bool,
        mark_neighbors_dirty: bool,
        rng: &mut StdRng,
    ) -> (moved: bool)
        requires
            old(self).wf(),
            particle_index < old(self).data@.len(),
        ensures
            final(self).wf(),
            final(self).width == old(self).width,
            final(self).height == old(self).height,
            final(self).catalog() == old(self).catalog(),
            exists|flips: Seq<bool>|
                flips_allowed(flips, candidates(direction_groups@).len(), bump_them_nerds) && old(
                    self,
                ).move_outcome(
                    *final(self),
                    moved,
                    particle_index as int,
                    candidates(direction_groups@),
                    flips,
                    mark_dirty,
                    mark_neighbors_dirty,
                ),
            moved ==> exists|tx: int, ty: int|
                old(self).legal_move(particle_index as int, tx, ty) && final(self).data@
                    == swapped(
                    old(self).data@,
                    particle_index as int,
                    old(self).index_of(tx, ty),
                ),
            !moved ==> final(self).data == old(self).data && final(self).dirty_particles@ == old(
                self,
            ).dirty_particles@,
            material_ids(final(self).data@) == material_ids(old(self).data@),
            contents(final(self).data@) == contents(old(self).data@),
    {
        let flips = Self::draw_flips(direction_groups, bump_them_nerds, rng);
        let moved = self.try_move_with_flips(
            particle_index,
            direction_groups,
            flips.as_slice(),
            mark_dirty,
            mark_neighbors_dirty,
        );
        proof {
            let all = candidates(direction_groups@);
            assert(old(self).move_outcome(
                *self,
                moved,
                particle_index as int,
                all,
                flips@,
                mark_dirty,
                mark_neighbors_dirty,
            ));
            if moved {
                let k = choose|k: int| old(self).first_legal(particle_index as int, all, flips@, k);
                let t = old(self).target_of(particle_index as int, all[k], flips@[k]);
                assert(old(self).legal_move(particle_index as int, t.0, t.1));
                assert(self.data@ == swapped(
                    old(self).data@,
                    particle_index as int,
                    old(self).index_of(t.0, t.1),
                ));
            }
        }
        moved
    }

    /// One flip for each candidate of `direction_groups`: a fair coin each
    /// where mirroring is asked for, unset otherwise.
    fn draw_flips(direction_groups: &[Vec<Offset2<i32>>], mirroring: bool, rng: &mut StdRng) -> (flips:
        Vec<bool>)
        ensures
            flips_allowed(flips@, candidates(direction_groups@).len(), mirroring),
    {
        let mut flips: Vec<bool> = Vec::new();
        let mut g: usize = 0;
        while g < direction_groups.len()
            invariant
                g <= direction_groups.len(),
                flips@.len() == candidates(direction_groups@.take(g as int)).len(),
                !mirroring ==> forall|i: int| 0 <= i < flips@.len() ==> !flips@[i],
            decreases direction_groups.len() - g,
        {
            proof {
                lemma_candidates_group(direction_groups@, g as int);
            }
            let ghost base = flips@.len();
            let directions = &direction_groups[g];
            let mut d: usize = 0;
            while d < directions.len()
                invariant
                    d <= directions@.len(),
                    flips@.len() == base + d,
                    !mirroring ==> forall|i: int| 0 <= i < flips@.len() ==> !flips@[i],
                decreases directions.len() - d,
            {
                let flip: bool = mirroring && random_below(rng, 2) == 1;
                flips.push(flip);
                d += 1;
            }
            g += 1;
        }
        assert(direction_groups@.take(g as int) =~= direction_groups@);
        flips
    }
}

/// Whether the displacement `(dx, dy)` lies under a brush of the given
/// radius: within the disc, and within the square that starts at `-radius`
/// and ends before `radius`.
pub open spec fn under_brush(dx: int, dy: int, radius: int) -> bool {
    &&& -radius <= dx < radius
    &&& -radius <= dy < radius
    &&& dx * dx + dy * dy <= radius * radius
}

/// The least displacement along one axis at which a brush centred at
/// `center` can meet the grid.
spec fn brush_low(center: int, radius: int) -> int {
    if -radius > -center {
        -radius
    } else {
        -center
    }
}

/// The displacement along one axis before which a brush centred at `center`
/// ends or leaves a grid of the given extent.
spec fn brush_high(center: int, radius: int, extent: int) -> int {
    if radius < extent - center {
        radius
    } else {
        extent - center
    }
}

/// Whether a fresh particle of `material` lies in a painted cell.
pub open spec fn painted_with(p: Particle, material: ParticleData) -> bool {
    &&& made_of(p, material@)
    &&& has_shade_of(p, material@)
    &&& p.handle == 1
}

impl Grid {
    /// Whether a stroke of the brush at `(x, y)` paints the cell `(cx, cy)`.
    pub open spec fn painted(&self, x: int, y: int, radius: int, cx: int, cy: int) -> bool {
        self.in_bounds(cx, cy) && under_brush(cx - x, cy - y, radius)
    }

    /// Whether the stroke paints `(cx, cy)` before it comes to the
    /// displacement `(i, j)`: it goes column by column, and down each column.
    spec fn painted_before(
        &self,
        x: int,
        y: int,
        radius: int,
        cx: int,
        cy: int,
        i: int,
        j: int,
    ) -> bool {
        self.painted(x, y, radius, cx, cy) && (cx - x < i || (cx - x == i && cy - y < j))
    }

    /// Whether the stroke paints `(cx, cy)` or one of its eight neighbours.
    pub open spec fn near_painted(&self, x: int, y: int, radius: int, cx: int, cy: int) -> bool {
        ||| self.painted(x, y, radius, cx - 1, cy - 1)
        ||| self.painted(x, y, radius, cx, cy - 1)
        ||| self.painted(x, y, radius, cx + 1, cy - 1)
        ||| self.painted(x, y, radius, cx - 1, cy)
        ||| self.painted(x, y, radius, cx, cy)
        ||| self.painted(x, y, radius, cx + 1, cy)
        ||| self.painted(x, y, radius, cx - 1, cy + 1)
        ||| self.painted(x, y, radius, cx, cy + 1)
        ||| self.painted(x, y, radius, cx + 1, cy + 1)
    }

    /// As `near_painted`, for the part of the stroke before `(i, j)`.
    spec fn near_painted_before(
        &self,
        x: int,
        y: int,
        radius: int,
        cx: int,
        cy: int,
        i: int,
        j: int,
    ) -> bool {
        ||| self.painted_before(x, y, radius, cx - 1, cy - 1, i, j)
        ||| self.painted_before(x, y, radius, cx, cy - 1, i, j)
        ||| self.painted_before(x, y, radius, cx + 1, cy - 1, i, j)
        ||| self.painted_before(x, y, radius, cx - 1, cy, i, j)
        ||| self.painted_before(x, y, radius, cx, cy, i, j)
        ||| self.painted_before(x, y, radius, cx + 1, cy, i, j)
        ||| self.painted_before(x, y, radius, cx - 1, cy + 1, i, j)
        ||| self.painted_before(x, y, radius, cx, cy + 1, i, j)
        ||| self.painted_before(x, y, radius, cx + 1, cy + 1, i, j)
    }

    /// The cells that a stroke of the brush at `(x, y)` marks dirty: those it
    /// paints and their neighbours.
    pub open spec fn brush_marks(&self, x: int, y: int, radius: int) -> Set<u32> {
        Set::new(
            |m: u32|
                (m as int) < self.cell_count() && self.near_painted(
                    x,
                    y,
                    radius,
                    (m as int) % (self.width as int),
                    (m as int) / (self.width as int),
                ),
        )
    }

    /// As `brush_marks`, for the part of the stroke before `(i, j)`.
    spec fn brush_marks_before(&self, x: int, y: int, radius: int, i: int, j: int) -> Set<u32> {
        Set::new(
            |m: u32|
                (m as int) < self.cell_count() && self.near_painted_before(
                    x,
                    y,
                    radius,
                    (m as int) % (self.width as int),
                    (m as int) / (self.width as int),
                    i,
                    j,
                ),
        )
    }

    /// Whether `after` is this grid with the part of a stroke before `(i, j)`
    /// painted in `material`.
    spec fn stroke_before(
        &self,
        after: Grid,
        x: int,
        y: int,
        radius: int,
        material: ParticleData,
        i: int,
        j: int,
    ) -> bool {
        &&& after.data@.len() == self.data@.len()
        &&& forall|k: int|
            0 <= k < self.data@.len() ==> if self.painted_before(
                x,
                y,
                radius,
                k % (self.width as int),
                k / (self.width as int),
                i,
                j,
            ) {
                painted_with(#[trigger] after.data@[k], material)
            } else {
                after.data@[k] == self.data@[k]
            }
        &&& after.dirty_particles@ == self.dirty_particles@.union(
            self.brush_marks_before(x, y, radius, i, j),
        )
    }

    /// Whether `after` is this grid with a whole stroke painted in
    /// `material`: painted cells hold fresh particles of it, all others hold
    /// what they held, and the painted cells and their neighbours are dirty.
    pub open spec fn stroke(&self, after: Grid, x: int, y: int, radius: int, material: ParticleData) -> bool {
        &&& after.data@.len() == self.data@.len()
        &&& forall|k: int|
            0 <= k < self.data@.len() ==> if self.painted(
                x,
                y,
                radius,
                k % (self.width as int),
                k / (self.width as int),
            ) {
                painted_with(#[trigger] after.data@[k], material)
            } else {
                after.data@[k] == self.data@[k]
            }
        &&& after.dirty_particles@ == self.dirty_particles@.union(self.brush_marks(x, y, radius))
    }
}

impl Grid {
    /// Two points of a stroke before which the same cells are painted
    /// describe the same grid.
    proof fn lemma_stroke_same(
        &self,
        after: Grid,
        x: int,
        y: int,
        radius: int,
        material: ParticleData,
        i1: int,
        j1: int,
        i2: int,
        j2: int,
    )
        requires
            self.stroke_before(after, x, y, radius, material, i1, j1),
            forall|cx: int, cy: int| #[trigger]
                self.painted_before(x, y, radius, cx, cy, i1, j1) == self.painted_before(
                    x,
                    y,
                    radius,
                    cx,
                    cy,
                    i2,
                    j2,
                ),
        ensures
            self.stroke_before(after, x, y, radius, material, i2, j2),
    {
        assert(self.brush_marks_before(x, y, radius, i1, j1) =~= self.brush_marks_before(
            x,
            y,
            radius,
            i2,
            j2,
        ));
    }

    /// Once every painted cell lies before a point of the stroke, the stroke
    /// is complete.
    proof fn lemma_stroke_done(
        &self,
        after: Grid,
        x: int,
        y: int,
        radius: int,
        material: ParticleData,
        i: int,
        j: int,
    )
        requires
            self.stroke_before(after, x, y, radius, material, i, j),
            forall|cx: int, cy: int| #[trigger]
                self.painted_before(x, y, radius, cx, cy, i, j) == self.painted(
                    x,
                    y,
                    radius,
                    cx,
                    cy,
                ),
        ensures
            self.stroke(after, x, y, radius, material),
    {
        assert(self.brush_marks_before(x, y, radius, i, j) =~= self.brush_marks(x, y, radius));
    }

    /// Painting the cell at the displacement `(i, j)` takes the stroke one
    /// step further down its column.
    proof fn lemma_stroke_step(
        &self,
        mid: Grid,
        next: Grid,
        x: int,
        y: int,
        radius: int,
        material: ParticleData,
        i: int,
        j: int,
    )
        requires
            self.wf(),
            mid.width == self.width,
            mid.height == self.height,
            self.stroke_before(mid, x, y, radius, material, i, j),
            self.painted(x, y, radius, x + i, y + j),
            next.data@ == mid.data@.update(
                self.index_of(x + i, y + j),
                next.data@[self.index_of(x + i, y + j)],
            ),
            painted_with(next.data@[self.index_of(x + i, y + j)], material),
            next.dirty_particles@ == mid.dirty_particles@.union(mid.marks(x + i, y + j, true)),
        ensures
            self.stroke_before(next, x, y, radius, material, i, j + 1),
    {
        let w = self.width as int;
        let h = self.height as int;
        lemma_cell_index(w, h, x + i, y + j);
        assert forall|k: int| 0 <= k < self.data@.len() implies if self.painted_before(
            x,
            y,
            radius,
            k % w,
            k / w,
            i,
            j + 1,
        ) {
            painted_with(#[trigger] next.data@[k], material)
        } else {
            next.data@[k] == self.data@[k]
        } by {
            lemma_index_cell(w, h, k);
        }
        assert forall|m: u32|
            next.dirty_particles@.contains(m) <==> self.dirty_particles@.union(
                self.brush_marks_before(x, y, radius, i, j + 1),
            ).contains(m) by {
            if (m as int) < w * h {
                lemma_index_cell(w, h, m as int);
            }
            assert(mid.marks(x + i, y + j, true).contains(m) <==> (m as int) < w * h && near(
                (m as int) % w - (x + i),
                (m as int) / w - (y + j),
                true,
            ));
        }
        assert(next.dirty_particles@ =~= self.dirty_particles@.union(
            self.brush_marks_before(x, y, radius, i, j + 1),
        ));
    }

    /// Paints a disc: every cell of the grid whose displacement `(i, j)` from
    /// `(x, y)` has `i * i + j * j <= radius * radius`, with both `i` and `j`
    /// from `-radius` up to but not including `radius`, gets a fresh particle
    /// of the material `particle_id` and is marked dirty with its neighbours.
    /// An unknown material paints nothing.
    pub fn fill_circle_at(&mut self, x: i32, y: i32, radius: i32, particle_id: u16, rng: &mut StdRng)
        requires
            old(self).wf(),
        ensures
            final(self).wf(),
            final(self).width == old(self).width,
            final(self).height == old(self).height,
            final(self).catalog() == old(self).catalog(),
            old(self).catalog().contains_key(particle_id) ==> old(self).stroke(
                *final(self),
                x as int,
                y as int,
                radius as int,
                old(self).catalog()[particle_id],
            ),
            !old(self).catalog().contains_key(particle_id) ==> final(self).data == old(self).data
                && final(self).dirty_particles@ == old(self).dirty_particles@,
    {
        broadcast use vstd::std_specs::hash::group_hash_axioms;

        if !self.particle_data_map.contains_key(&particle_id) {
            return ;
        }
        let ghost material = self.catalog()[particle_id];
        let ghost gx = x as int;
        let ghost gy = y as int;
        let ghost gr = radius as int;
        let r: i64 = radius as i64;
        let lo_i: i64 = if -r > -(x as i64) {
            -r
        } else {
            -(x as i64)
        };
        let hi_i: i64 = if r < self.width as i64 - x as i64 {
            r
        } else {
            self.width as i64 - x as i64
        };
        let lo_j: i64 = if -r > -(y as i64) {
            -r
        } else {
            -(y as i64)
        };
        let hi_j: i64 = if r < self.height as i64 - y as i64 {
            r
        } else {
            self.height as i64 - y as i64
        };
        proof {
            assert(old(self).brush_marks_before(gx, gy, gr, lo_i as int, lo_j as int) =~= Set::<
                u32,
            >::empty());
            assert(old(self).dirty_particles@.union(Set::<u32>::empty())
                =~= old(self).dirty_particles@);
            assert(old(self).stroke_before(*self, gx, gy, gr, material, lo_i as int, lo_j as int));
        }
        if lo_i >= hi_i || lo_j >= hi_j {
            proof {
                assert forall|cx: int, cy: int| #[trigger]
                    old(self).painted_before(gx, gy, gr, cx, cy, lo_i as int, lo_j as int) == old(
                        self,
                    ).painted(gx, gy, gr, cx, cy) by {}
                old(self).lemma_stroke_done(*self, gx, gy, gr, material, lo_i as int, lo_j as int);
            }
            return ;
        }
        let mut i: i64 = lo_i;
        while i < hi_i
            invariant
                self.wf(),
                old(self).wf(),
                self.width == old(self).width,
                self.height == old(self).height,
                self.catalog() == old(self).catalog(),
                self.catalog().contains_key(particle_id),
                material == self.catalog()[particle_id],
                gx == x,
                gy == y,
                gr == radius,
                r == radius,
                lo_i == brush_low(x as int, radius as int),
                hi_i == brush_high(x as int, radius as int, self.width as int),
                lo_j == brush_low(y as int, radius as int),
                hi_j == brush_high(y as int, radius as int, self.height as int),
                lo_i < hi_i,
                lo_j < hi_j,
                lo_i <= i <= hi_i,
                old(self).stroke_before(*self, gx, gy, gr, material, i as int, lo_j as int),
            decreases hi_i - i,
        {
            let mut j: i64 = lo_j;
            while j < hi_j
                invariant
                    self.wf(),
                    old(self).wf(),
                    self.width == old(self).width,
                    self.height == old(self).height,
                    self.catalog() == old(self).catalog(),
                    self.catalog().contains_key(particle_id),
                    material == self.catalog()[particle_id],
                    gx == x,
                    gy == y,
                    gr == radius,
                    r == radius,
                    lo_i == brush_low(x as int, radius as int),
                    hi_i == brush_high(x as int, radius as int, self.width as int),
                    lo_j == brush_low(y as int, radius as int),
                    hi_j == brush_high(y as int, radius as int, self.height as int),
                    lo_i <= i < hi_i,
                    lo_j <= j <= hi_j,
                    old(self).stroke_before(*self, gx, gy, gr, material, i as int, j as int),
                decreases hi_j - j,
            {
                assert(0 <= i * i <= 0x4000_0000_0000_0000 && 0 <= j * j <= 0x4000_0000_0000_0000
                    && 0 <= r * r < 0x4000_0000_0000_0000) by (nonlinear_arith)
                    requires
                        -0x8000_0000 <= i <= 0x8000_0000,
                        -0x8000_0000 <= j <= 0x8000_0000,
                        -0x8000_0000 <= r < 0x8000_0000,
                        r > 0,
                ;
                if i * i <= r * r && j * j <= r * r - i * i {
                    let px: i32 = (x as i64 + i) as i32;
                    let py: i32 = (y as i64 + j) as i32;
                    let ghost mid = *self;
                    let created = self.create_particle_at(px, py, particle_id, true, true, rng);
                    proof {
                        assert(old(self).painted(gx, gy, gr, gx + i, gy + j));
                        old(self).lemma_stroke_step(
                            mid,
                            *self,
                            gx,
                            gy,
                            gr,
                            material,
                            i as int,
                            j as int,
                        );
                    }
                } else {
                    proof {
                        assert(!old(self).painted(gx, gy, gr, gx + i, gy + j));
                        assert forall|cx: int, cy: int| #[trigger]
                            old(self).painted_before(gx, gy, gr, cx, cy, i as int, j as int) == old(
                                self,
                            ).painted_before(gx, gy, gr, cx, cy, i as int, j + 1) by {}
                        old(self).lemma_stroke_same(
                            *self,
                            gx,
                            gy,
                            gr,
                            material,
                            i as int,
                            j as int,
                            i as int,
                            j + 1,
                        );
                    }
                }
                j += 1;
            }
            proof {
                assert forall|cx: int, cy: int| #[trigger]
                    old(self).painted_before(gx, gy, gr, cx, cy, i as int, hi_j as int) == old(
                        self,
                    ).painted_before(gx, gy, gr, cx, cy, i + 1, lo_j as int) by {}
                old(self).lemma_stroke_same(
                    *self,
                    gx,
                    gy,
                    gr,
                    material,
                    i as int,
                    hi_j as int,
                    i + 1,
                    lo_j as int,
                );
            }
            i += 1;
        }
        proof {
            assert forall|cx: int, cy: int| #[trigger]
                old(self).painted_before(gx, gy, gr, cx, cy, hi_i as int, lo_j as int) == old(
                    self,
                ).painted(gx, gy, gr, cx, cy) by {}
            old(self).lemma_stroke_done(*self, gx, gy, gr, material, hi_i as int, lo_j as int);
        }
    }
}

impl Grid {
    /// The linear indices of the dirty cells, each once, in no particular
    /// order.
    pub fn dirty_indices(&self) -> (indices: Vec<u32>)
        ensures
            indices@.to_set() == self.dirty_particles@,
            indices@.no_duplicates(),
    {
        broadcast use vstd::std_specs::hash::group_hash_axioms;
        broadcast use vstd::std_specs::hash::axiom_spec_hash_keys_iter;

        let ghost keys = vstd::std_specs::hash::spec_hash_keys_iter(
            &self.dirty_particles,
        ).remaining();
        let mut indices: Vec<u32> = Vec::new();
        for k in it: self.dirty_particles.iter()
            invariant
                it.seq() == keys,
                indices@.len() == it.index(),
                forall|j: int| 0 <= j < indices@.len() ==> indices@[j] == *keys[j],
        {
            indices.push(*k);
        }
        proof {
            assert(indices@ =~= keys.unref());
            assert forall|a: int, b: int|
                0 <= a < indices@.len() && 0 <= b < indices@.len() && a != b implies indices@[a]
                != indices@[b] by {
                assert(keys[a] != keys[b]);
            }
        }
        indices
    }
}

} // verus!
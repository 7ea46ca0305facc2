//! The tick: paints what the pointer asks for, hands the changed cells to
//! the renderer and lets what can fall, fall.

use crate::grid::{candidates, contents, flips_allowed, material_ids, Grid};
use crate::input_state::InputState;
use crate::particle::{has_shade_of, made_of, Particle};
use crate::particle_data::{keys_are_ids, ParticleData};
use crate::renderer_interface::RendererInterface;
use crate::schedule::{by_rows, is_shuffle, row_of, update_order};
use crate::utils::Offset2;
use rand::rngs::StdRng;
use std::collections::HashMap;
use std::collections::HashSet;
use vstd::prelude::*;

verus! {

/// The id of the material that erasing paints, and that a new grid is
/// filled with.
pub const EMPTY_PARTICLE_ID: u16 = 0;

/// The category of the materials that fall and spill.
pub const GRANULAR_CATEGORY: u16 = 4;

/// The radius of the brush of a new engine.
pub const DEFAULT_BRUSH_RADIUS: i32 = 8;

/// The material that a new engine paints with.
pub const DEFAULT_PARTICLE_ID: u16 = 300;

/// The simulation: a grid and the brush that paints on it.
pub struct Engine {
    pub game_width: usize,
    pub game_height: usize,
    pub current_grid: Grid,
    pub brush_radius: i32,
    pub selected_particle_id: u16,
}

/// The ways a granular particle falls, in the order it tries them: straight
/// down, then down to either side.
pub open spec fn falling_offsets() -> Seq<Offset2<i32>> {
    seq![
        Offset2::<i32> { dx: 0, dy: -1i32 },
        Offset2::<i32> { dx: 1, dy: -1i32 },
        Offset2::<i32> { dx: -1i32, dy: -1i32 },
    ]
}

/// Whether `after` is `before` once the particle in the cell `index` has
/// tried to fall: it has taken the first of the falling offsets, each
/// mirrored or not, that it may move by, and the two cells and their
/// neighbours are dirty; or it may move by none and nothing has changed.
pub open spec fn fell(before: Grid, after: Grid, index: int) -> bool {
    &&& after.width == before.width
    &&& after.height == before.height
    &&& after.catalog() == before.catalog()
    &&& exists|flips: Seq<bool>, moved: bool|
        flips_allowed(flips, 3, true) && #[trigger] before.move_outcome(
            after,
            moved,
            index,
            falling_offsets(),
            flips,
            true,
            true,
        )
}

/// Whether `after` is `before` once a tick has visited the particle `p` of
/// its working set: if `p` is granular, whatever lies in the cell that `p`
/// was taken from has tried to fall; otherwise nothing has changed.
pub open spec fn visited(before: Grid, after: Grid, p: Particle) -> bool {
    if p.category == GRANULAR_CATEGORY {
        fell(before, after, p.index as int)
    } else {
        after == before
    }
}

/// Whether the visit `n` of a tick leads from the grid `grids[n]` to the
/// grid `grids[n + 1]`.
pub open spec fn visit_at(
    grids: Seq<Grid>,
    particles: Seq<Particle>,
    order: Seq<usize>,
    n: int,
) -> bool {
    visited(grids[n], grids[n + 1], particles[order[n] as int])
}

/// Whether `grids` are the grids of a tick that visits the particles of its
/// working set in the order `order`: one before the first visit and one
/// after each.
pub open spec fn falls_along(grids: Seq<Grid>, particles: Seq<Particle>, order: Seq<usize>) -> bool {
    &&& grids.len() == order.len() + 1
    &&& forall|n: int| 0 <= n < order.len() ==> #[trigger] visit_at(grids, particles, order, n)
}

/// Whether one of `particles` was taken from the cell `k`.
pub open spec fn holds_index(particles: Seq<Particle>, k: u32) -> bool {
    exists|i: int| 0 <= i < particles.len() && (#[trigger] particles[i]).index == k
}

/// Whether `working` is the working set of a tick on `grid`: the particles
/// of its dirty cells, each once.
pub open spec fn is_working_set(working: Seq<Particle>, grid: Grid) -> bool {
    &&& forall|i: int|
        0 <= i < working.len() ==> grid.dirty_particles@.contains((#[trigger] working[i]).index)
            && working[i] == grid.data@[working[i].index as int]
    &&& forall|i: int, j: int|
        0 <= i < j < working.len() ==> (#[trigger] working[i]).index != (#[trigger] working[j]).index
    &&& forall|k: u32| #[trigger] grid.dirty_particles@.contains(k) ==> holds_index(working, k)
}

/// Whether `after` is `grid` with its dirty marks drained and nothing else
/// changed.
pub open spec fn is_drained(grid: Grid, after: Grid) -> bool {
    &&& after.data == grid.data
    &&& after.width == grid.width
    &&& after.height == grid.height
    &&& after.catalog() == grid.catalog()
    &&& after.dirty_particles@ == Set::<u32>::empty()
}

/// Whether `batch` shows `grid` at the cells that a tick may have changed:
/// each particle is the one that lies in its cell, no cell comes twice, and
/// the cells are those of the tick's working set and those that are dirty.
pub open spec fn is_view_of(batch: Seq<Particle>, grid: Grid, working: Seq<Particle>) -> bool {
    &&& forall|i: int|
        0 <= i < batch.len() ==> ((#[trigger] batch[i]).index as int) < grid.data@.len()
            && batch[i] == grid.data@[batch[i].index as int]
    &&& forall|i: int, j: int|
        0 <= i < j < batch.len() ==> (#[trigger] batch[i]).index != (#[trigger] batch[j]).index
    &&& forall|k: u32| #[trigger]
        holds_index(batch, k) <==> grid.dirty_particles@.contains(k) || holds_index(working, k)
}

/// One more particle is taken from the cells of the others and from its own.
proof fn lemma_holds_push(particles: Seq<Particle>, p: Particle, k: u32)
    ensures
        holds_index(particles.push(p), k) <==> holds_index(particles, k) || p.index == k,
{
    let more = particles.push(p);
    if holds_index(particles, k) {
        let i = choose|i: int| 0 <= i < particles.len() && (#[trigger] particles[i]).index == k;
        assert(more[i].index == k);
    }
    if p.index == k {
        assert(more[particles.len() as int].index == k);
    }
    if holds_index(more, k) {
        let i = choose|i: int| 0 <= i < more.len() && (#[trigger] more[i]).index == k;
        if i < particles.len() {
            assert(particles[i].index == k);
        }
    }
}

/// Whether every particle of a working set stands for a cell of `grid`.
pub open spec fn working_set_ok(particles: Seq<Particle>, grid: Grid) -> bool {
    forall|i: int|
        0 <= i < particles.len() ==> (#[trigger] particles[i]).index < grid.data@.len() && 0
            <= particles[i].position.y < grid.height
}

impl Engine {
    /// Whether the pointer paints: a button is down and the pointer lies
    /// within the game's bounds.
    pub open spec fn paints(&self, input: InputState) -> bool {
        &&& input.mouse_left_down || input.mouse_right_down
        &&& 0 <= input.mouse_position.x < self.game_width
        &&& 0 <= input.mouse_position.y < self.game_height
    }

    /// The material that the pointer paints: nothing where it erases.
    pub open spec fn painted_id(&self, input: InputState) -> u16 {
        if input.mouse_right_down {
            EMPTY_PARTICLE_ID
        } else {
            self.selected_particle_id
        }
    }

    /// Whether `after` is the grid once the pointer has had its way: with a
    /// stroke of the brush in the painted material where the pointer paints
    /// and the catalog knows that material, and as it was otherwise.
    pub open spec fn input_outcome(&self, after: Grid, input: InputState) -> bool {
        &&& after.width == self.current_grid.width
        &&& after.height == self.current_grid.height
        &&& after.catalog() == self.current_grid.catalog()
        &&& if self.paints(input) && self.current_grid.catalog().contains_key(
            self.painted_id(input),
        ) {
            self.current_grid.stroke(
                after,
                input.mouse_position.x as int,
                input.mouse_position.y as int,
                self.brush_radius as int,
                self.current_grid.catalog()[self.painted_id(input)],
            )
        } else {
            after.data == self.current_grid.data && after.dirty_particles@
                == self.current_grid.dirty_particles@
        }
    }

    /// Whether none of the dirty cells of `grid` holds a granular particle.
    pub open spec fn at_rest(grid: Grid) -> bool {
        forall|k: u32| #[trigger]
            grid.dirty_particles@.contains(k) ==> grid.data@[k as int].category
                != GRANULAR_CATEGORY
    }

    /// Whether `after` is the grid once a tick has run on this engine with
    /// the input `input`: the pointer has painted, which gives `painted`;
    /// the dirty cells of that grid have been taken as the working set
    /// `working`, which leaves `drained`; and the working set has been
    /// visited in the order that `shuffled` gives once it is sorted by row,
    /// each granular particle trying to fall, through the grids `grids`.
    pub open spec fn tick(
        &self,
        after: Grid,
        input: InputState,
        painted: Grid,
        drained: Grid,
        working: Seq<Particle>,
        shuffled: Seq<usize>,
        grids: Seq<Grid>,
    ) -> bool {
        &&& self.input_outcome(painted, input)
        &&& is_drained(painted, drained)
        &&& is_working_set(working, painted)
        &&& is_shuffle(shuffled, working.len())
        &&& falls_along(grids, working, by_rows(shuffled, row_of(working), painted.height as int))
        &&& grids[0] == drained
        &&& grids.last() == after
    }

    /// An engine over a grid of the given size, filled with the empty
    /// material and handed to the renderer once. The grid's width and height
    /// are the game's, taken modulo 65536. The catalog has to hold the empty
    /// material, and each material under its own id, as a catalog read from
    /// text does.
    pub fn new<R: RendererInterface>(
        game_width: usize,
        game_height: usize,
        catalog: HashMap<u16, ParticleData>,
        renderer: &mut R,
        rng: &mut StdRng,
    ) -> (engine: Engine)
        requires
            catalog@.contains_key(EMPTY_PARTICLE_ID),
            keys_are_ids(catalog@),
        ensures
            engine.game_width == game_width,
            engine.game_height == game_height,
            engine.brush_radius == DEFAULT_BRUSH_RADIUS,
            engine.selected_particle_id == DEFAULT_PARTICLE_ID,
            engine.current_grid.wf(),
            engine.current_grid.width == game_width % 65536,
            engine.current_grid.height == game_height % 65536,
            engine.current_grid.catalog() == catalog@,
            engine.current_grid.dirty_particles@ == Set::<u32>::empty(),
            forall|k: int|
                0 <= k < engine.current_grid.data@.len() ==> made_of(
                    #[trigger] engine.current_grid.data@[k],
                    catalog@[EMPTY_PARTICLE_ID]@,
                ) && has_shade_of(engine.current_grid.data@[k], catalog@[EMPTY_PARTICLE_ID]@)
                    && engine.current_grid.data@[k].handle == k,
    {
        let width: u16 = (game_width % 65536) as u16;
        let height: u16 = (game_height % 65536) as u16;
        let mut new_engine = Engine {
            game_width,
            game_height,
            current_grid: Grid::new(width, height, catalog),
            brush_radius: DEFAULT_BRUSH_RADIUS,
            selected_particle_id: DEFAULT_PARTICLE_ID,
        };
        new_engine.current_grid.populate(EMPTY_PARTICLE_ID, rng);
        renderer.queue_particles(new_engine.current_grid.data.as_slice());
        new_engine
    }

    /// One tick: paints, takes the dirty cells as the working set, lets what
    /// can fall, fall, and hands the renderer the cells that the tick may
    /// have changed as they are once it is complete: those of the working
    /// set and those that a move has marked. What a move has marked is the
    /// working set of the next tick.
    pub fn update<R: RendererInterface>(
        &mut self,
        renderer: &mut R,
        input_state: &InputState,
        rng: &mut StdRng,
    )
        requires
            old(self).current_grid.wf(),
        ensures
            final(self).current_grid.wf(),
            final(self).game_width == old(self).game_width,
            final(self).game_height == old(self).game_height,
            final(self).brush_radius == old(self).brush_radius,
            final(self).selected_particle_id == old(self).selected_particle_id,
            final(self).current_grid.width == old(self).current_grid.width,
            final(self).current_grid.height == old(self).current_grid.height,
            final(self).current_grid.catalog() == old(self).current_grid.catalog(),
            final(self).current_grid.data@.len() == old(self).current_grid.data@.len(),
            !old(self).paints(*input_state) ==> material_ids(final(self).current_grid.data@)
                == material_ids(old(self).current_grid.data@) && contents(
                final(self).current_grid.data@,
            ) == contents(old(self).current_grid.data@),
            exists|
                painted: Grid,
                drained: Grid,
                working: Seq<Particle>,
                shuffled: Seq<usize>,
                grids: Seq<Grid>,
            | #[trigger]
                old(self).tick(
                    final(self).current_grid,
                    *input_state,
                    painted,
                    drained,
                    working,
                    shuffled,
                    grids,
                ),
            exists|painted: Grid| #[trigger]
                old(self).input_outcome(painted, *input_state) && material_ids(
                    final(self).current_grid.data@,
                ) == material_ids(painted.data@) && contents(final(self).current_grid.data@)
                    == contents(painted.data@) && (Self::at_rest(painted) ==> final(self).current_grid.data == painted.data && final(self).current_grid.dirty_particles@
                    == Set::<u32>::empty()),
    {
        self.handle_input(input_state, rng);
        let ghost painted = self.current_grid;
        let working: Vec<Particle> = self.take_dirty();
        let ghost drained = self.current_grid;
        self.step_physics(&working, rng);
        let batch: Vec<Particle> = self.changed_particles(&working);
        renderer.queue_particles(batch.as_slice());
        proof {
            assert(old(self).input_outcome(painted, *input_state));
            assert(is_drained(painted, drained));
            assert(is_working_set(working@, painted));
            let (shuffled, grids) = choose|shuffled: Seq<usize>, grids: Seq<Grid>|
                is_shuffle(shuffled, working@.len()) && #[trigger] falls_along(
                    grids,
                    working@,
                    by_rows(shuffled, row_of(working@), drained.height as int),
                ) && grids[0] == drained && grids.last() == self.current_grid;
            assert(old(self).tick(
                self.current_grid,
                *input_state,
                painted,
                drained,
                working@,
                shuffled,
                grids,
            ));
            if Self::at_rest(painted) {
                assert forall|i: int| 0 <= i < working@.len() implies (#[trigger] working@[i]).category
                    != GRANULAR_CATEGORY by {
                    assert(painted.dirty_particles@.contains(working@[i].index));
                }
            }
        }
    }

    /// The cells that a tick with the working set `working` may have
    /// changed, as they are now: the particles that lie in the cells of the
    /// working set and in the dirty cells, each cell once.
    pub fn changed_particles(&self, working: &Vec<Particle>) -> (batch: Vec<Particle>)
        requires
            self.current_grid.wf(),
            forall|i: int|
                0 <= i < working@.len() ==> ((#[trigger] working@[i]).index as int)
                    < self.current_grid.data@.len(),
        ensures
            is_view_of(batch@, self.current_grid, working@),
    {
        broadcast use vstd::std_specs::hash::group_hash_axioms;

        let ghost w = self.current_grid.width as int;
        let mut batch: Vec<Particle> = Vec::with_capacity(working.len());
        let mut seen: HashSet<u32> = HashSet::new();
        let mut i: usize = 0;
        assert(working@.take(0) =~= Seq::<Particle>::empty());
        while i < working.len()
            invariant
                i <= working@.len(),
                self.current_grid.wf(),
                w == self.current_grid.width,
                forall|n: int|
                    0 <= n < working@.len() ==> ((#[trigger] working@[n]).index as int)
                        < self.current_grid.data@.len(),
                forall|n: int|
                    0 <= n < batch@.len() ==> ((#[trigger] batch@[n]).index as int)
                        < self.current_grid.data@.len(),
                forall|n: int|
                    0 <= n < batch@.len() ==> (#[trigger] batch@[n])
                        == self.current_grid.data@[batch@[n].index as int],
                forall|n: int, m: int|
                    0 <= n < m < batch@.len() ==> (#[trigger] batch@[n]).index != (
                    #[trigger] batch@[m]).index,
                forall|k: u32| #[trigger] seen@.contains(k) <==> holds_index(batch@, k),
                forall|k: u32| #[trigger]
                    holds_index(batch@, k) <==> holds_index(working@.take(i as int), k),
            decreases working.len() - i,
        {
            let index: u32 = working[i].index;
            proof {
                assert(working@.take(i + 1) =~= working@.take(i as int).push(working@[i as int]));
                assert forall|k: u32|
                    holds_index(working@.take(i + 1), k) <==> holds_index(
                        working@.take(i as int),
                        k,
                    ) || index == k by {
                    lemma_holds_push(working@.take(i as int), working@[i as int], k);
                }
            }
            if !seen.contains(&index) {
                self.take_cell(index, &mut batch, &mut seen);
            }
            i += 1;
        }
        assert(working@.take(i as int) =~= working@);
        let marked: Vec<u32> = self.current_grid.dirty_indices();
        let mut j: usize = 0;
        while j < marked.len()
            invariant
                j <= marked@.len(),
                self.current_grid.wf(),
                w == self.current_grid.width,
                marked@.to_set() == self.current_grid.dirty_particles@,
                forall|n: int|
                    0 <= n < batch@.len() ==> ((#[trigger] batch@[n]).index as int)
                        < self.current_grid.data@.len(),
                forall|n: int|
                    0 <= n < batch@.len() ==> (#[trigger] batch@[n])
                        == self.current_grid.data@[batch@[n].index as int],
                forall|n: int, m: int|
                    0 <= n < m < batch@.len() ==> (#[trigger] batch@[n]).index != (
                    #[trigger] batch@[m]).index,
                forall|k: u32| #[trigger] seen@.contains(k) <==> holds_index(batch@, k),
                forall|k: u32| #[trigger]
                    holds_index(batch@, k) <==> holds_index(working@, k) || marked@.take(
                        j as int,
                    ).contains(k),
            decreases marked.len() - j,
        {
            let index: u32 = marked[j];
            proof {
                assert(marked@.contains(index));
                assert(self.current_grid.dirty_particles@.contains(index));
                assert(marked@.take(j + 1) =~= marked@.take(j as int).push(index));
                assert forall|k: u32|
                    marked@.take(j + 1).contains(k) <==> marked@.take(j as int).contains(k)
                        || index == k by {
                    if marked@.take(j as int).contains(k) {
                        let n = choose|n: int|
                            0 <= n < marked@.take(j as int).len() && marked@.take(j as int)[n]
                                == k;
                        assert(marked@.take(j + 1)[n] == k);
                    }
                    if index == k {
                        assert(marked@.take(j + 1)[j as int] == k);
                    }
                }
            }
            if !seen.contains(&index) {
                self.take_cell(index, &mut batch, &mut seen);
            }
            j += 1;
        }
        proof {
            assert(marked@.take(j as int) =~= marked@);
            assert forall|k: u32| #[trigger]
                holds_index(batch@, k) <==> self.current_grid.dirty_particles@.contains(k)
                    || holds_index(working@, k) by {
                assert(marked@.contains(k) <==> marked@.to_set().contains(k));
            }
        }
        batch
    }

    /// Adds the particle that lies in the cell `index`, which is not yet
    /// among those taken, to a batch.
    fn take_cell(&self, index: u32, batch: &mut Vec<Particle>, seen: &mut HashSet<u32>)
        requires
            self.current_grid.wf(),
            (index as int) < self.current_grid.data@.len(),
            !old(seen)@.contains(index),
            forall|k: u32| #[trigger] old(seen)@.contains(k) <==> holds_index(old(batch)@, k),
        ensures
            final(batch)@ == old(batch)@.push(self.current_grid.data@[index as int]),
            self.current_grid.data@[index as int].index == index,
            final(seen)@ == old(seen)@.insert(index),
            forall|k: u32| #[trigger] final(seen)@.contains(k) <==> holds_index(final(batch)@, k),
            forall|k: u32|
                holds_index(final(batch)@, k) <==> holds_index(old(batch)@, k) || index == k,
    {
        broadcast use vstd::std_specs::hash::group_hash_axioms;

        assert(crate::grid::cell_ok(
            self.current_grid.data@[index as int],
            index as int,
            self.current_grid.width as int,
        ));
        let copy: Particle = self.current_grid.data[index as usize].clone();
        seen.insert(index);
        batch.push(copy);
        proof {
            assert forall|k: u32|
                holds_index(batch@, k) <==> holds_index(old(batch)@, k) || index == k by {
                lemma_holds_push(old(batch)@, copy, k);
            }
        }
    }

    /// Paints or erases a disc of the brush's radius around the pointer, if
    /// the pointer paints.
    pub fn handle_input(&mut self, input_state: &InputState, rng: &mut StdRng)
        requires
            old(self).current_grid.wf(),
        ensures
            final(self).current_grid.wf(),
            final(self).game_width == old(self).game_width,
            final(self).game_height == old(self).game_height,
            final(self).brush_radius == old(self).brush_radius,
            final(self).selected_particle_id == old(self).selected_particle_id,
            final(self).current_grid.width == old(self).current_grid.width,
            final(self).current_grid.height == old(self).current_grid.height,
            final(self).current_grid.catalog() == old(self).current_grid.catalog(),
            final(self).current_grid.data@.len() == old(self).current_grid.data@.len(),
            old(self).input_outcome(final(self).current_grid, *input_state),
    {
        if input_state.mouse_left_down || input_state.mouse_right_down {
            let x: i32 = input_state.mouse_position.x;
            let y: i32 = input_state.mouse_position.y;
            let mut particle_id: u16 = self.selected_particle_id;
            if input_state.mouse_right_down {
                particle_id = EMPTY_PARTICLE_ID;
            }
            if x >= 0 && (x as usize) < self.game_width && y >= 0 && (y as usize)
                < self.game_height {
                self.current_grid.fill_circle_at(x, y, self.brush_radius, particle_id, rng);
            }
        }
    }

    /// The particles of the dirty cells, each once and in no particular
    /// order. No cell is dirty afterwards.
    pub fn take_dirty(&mut self) -> (particles: Vec<Particle>)
        requires
            old(self).current_grid.wf(),
        ensures
            final(self).current_grid.wf(),
            final(self).game_width == old(self).game_width,
            final(self).game_height == old(self).game_height,
            final(self).brush_radius == old(self).brush_radius,
            final(self).selected_particle_id == old(self).selected_particle_id,
            final(self).current_grid.width == old(self).current_grid.width,
            final(self).current_grid.height == old(self).current_grid.height,
            final(self).current_grid.catalog() == old(self).current_grid.catalog(),
            final(self).current_grid.data == old(self).current_grid.data,
            final(self).current_grid.dirty_particles@ == Set::<u32>::empty(),
            working_set_ok(particles@, final(self).current_grid),
            forall|i: int|
                0 <= i < particles@.len() ==> old(self).current_grid.dirty_particles@.contains(
                    (#[trigger] particles@[i]).index,
                ) && particles@[i] == old(self).current_grid.data@[particles@[i].index as int],
            forall|i: int, j: int|
                0 <= i < j < particles@.len() ==> (#[trigger] particles@[i]).index != (
                #[trigger] particles@[j]).index,
            forall|k: u32|
                old(self).current_grid.dirty_particles@.contains(k) ==> exists|i: int|
                    0 <= i < particles@.len() && (#[trigger] particles@[i]).index == k,
    {
        broadcast use vstd::std_specs::hash::group_hash_axioms;

        let indices: Vec<u32> = self.current_grid.dirty_indices();
        let ghost w = self.current_grid.width as int;
        let ghost h = self.current_grid.height as int;
        let mut particles: Vec<Particle> = Vec::with_capacity(indices.len());
        let mut i: usize = 0;
        while i < indices.len()
            invariant
                *self == *old(self),
                self.current_grid.wf(),
                w == self.current_grid.width,
                h == self.current_grid.height,
                indices@.to_set() == self.current_grid.dirty_particles@,
                indices@.no_duplicates(),
                i <= indices@.len(),
                particles@.len() == i,
                forall|j: int|
                    0 <= j < i ==> (#[trigger] indices@[j] as int) < self.current_grid.data@.len(),
                forall|j: int|
                    0 <= j < i ==> (#[trigger] particles@[j]) == self.current_grid.data@[indices@[j] as int],
                forall|j: int| 0 <= j < i ==> (#[trigger] particles@[j]).index == indices@[j],
                forall|j: int| 0 <= j < i ==> 0 <= (#[trigger] particles@[j]).position.y < h,
            decreases indices.len() - i,
        {
            let index: u32 = indices[i];
            assert(indices@.contains(index));
            assert(self.current_grid.dirty_particles@.contains(index));
            proof {
                assert(crate::grid::cell_ok(self.current_grid.data@[index as int], index as int, w));
                assert(w > 0) by (nonlinear_arith)
                    requires
                        0 <= w,
                        0 <= index < w * h,
                ;
                crate::grid::lemma_index_cell(w, h, index as int);
            }
            let ghost before = particles@;
            let copy: Particle = self.current_grid.data[index as usize].clone();
            assert(copy.index == index && copy.position.y == index as int / w);
            particles.push(copy);
            assert forall|j: int| 0 <= j < i + 1 implies {
                &&& (indices@[j] as int) < self.current_grid.data@.len()
                &&& (#[trigger] particles@[j]) == self.current_grid.data@[indices@[j] as int]
                &&& particles@[j].index == indices@[j]
                &&& 0 <= particles@[j].position.y < h
            } by {
                if j < i {
                    assert(particles@[j] == before[j]);
                }
            }
            i += 1;
        }
        self.current_grid.dirty_particles.clear();
        proof {
            assert forall|j: int| 0 <= j < particles@.len() implies old(self).current_grid.dirty_particles@.contains((#[trigger] particles@[j]).index) by {
                assert(indices@.contains(indices@[j]));
            }
            assert forall|k: u32|
                old(self).current_grid.dirty_particles@.contains(k) implies exists|i: int|
                0 <= i < particles@.len() && (#[trigger] particles@[i]).index == k by {
                assert(indices@.contains(k));
                let j = choose|j: int| 0 <= j < indices@.len() && indices@[j] == k;
                assert(particles@[j].index == k);
            }
        }
        particles
    }

    /// Lets the particles of a working set fall. The set is visited in
    /// shuffled order, lower rows first; at each granular particle, whatever
    /// lies in the cell it was taken from tries to fall. Nothing else moves.
    pub fn step_physics(&mut self, particles_to_update: &Vec<Particle>, rng: &mut StdRng)
        requires
            old(self).current_grid.wf(),
            working_set_ok(particles_to_update@, old(self).current_grid),
        ensures
            final(self).current_grid.wf(),
            final(self).game_width == old(self).game_width,
            final(self).game_height == old(self).game_height,
            final(self).brush_radius == old(self).brush_radius,
            final(self).selected_particle_id == old(self).selected_particle_id,
            final(self).current_grid.width == old(self).current_grid.width,
            final(self).current_grid.height == old(self).current_grid.height,
            final(self).current_grid.catalog() == old(self).current_grid.catalog(),
            final(self).current_grid.data@.len() == old(self).current_grid.data@.len(),
            material_ids(final(self).current_grid.data@) == material_ids(
                old(self).current_grid.data@,
            ),
            contents(final(self).current_grid.data@) == contents(old(self).current_grid.data@),
            (forall|i: int|
                0 <= i < particles_to_update@.len() ==> (#[trigger] particles_to_update@[i]).category
                    != GRANULAR_CATEGORY) ==> final(self).current_grid.data == old(self).current_grid.data && final(self).current_grid.dirty_particles@ == old(self).current_grid.dirty_particles@,
            exists|shuffled: Seq<usize>, grids: Seq<Grid>|
                is_shuffle(shuffled, particles_to_update@.len()) && #[trigger] falls_along(
                    grids,
                    particles_to_update@,
                    by_rows(
                        shuffled,
                        row_of(particles_to_update@),
                        old(self).current_grid.height as int,
                    ),
                ) && grids[0] == old(self).current_grid && grids.last() == final(self).current_grid,
    {
        let order: Vec<usize> = update_order(particles_to_update, self.current_grid.height, rng);
        let ghost shuffled = choose|shuffled: Seq<usize>|
            is_shuffle(shuffled, particles_to_update@.len()) && order@ == #[trigger] by_rows(
                shuffled,
                row_of(particles_to_update@),
                old(self).current_grid.height as int,
            );
        let ghost mut grids: Seq<Grid> = seq![self.current_grid];
        let ghost still = forall|i: int|
            0 <= i < particles_to_update@.len() ==> (#[trigger] particles_to_update@[i]).category
                != GRANULAR_CATEGORY;
        let mut n: usize = 0;
        while n < order.len()
            invariant
                n <= order@.len(),
                forall|i: int| 0 <= i < order@.len() ==> (#[trigger] order@[i]) < particles_to_update@.len(),
                working_set_ok(particles_to_update@, old(self).current_grid),
                still == (forall|i: int|
                    0 <= i < particles_to_update@.len() ==> (
                    #[trigger] particles_to_update@[i]).category != GRANULAR_CATEGORY),
                self.current_grid.wf(),
                self.game_width == old(self).game_width,
                self.game_height == old(self).game_height,
                self.brush_radius == old(self).brush_radius,
                self.selected_particle_id == old(self).selected_particle_id,
                self.current_grid.width == old(self).current_grid.width,
                self.current_grid.height == old(self).current_grid.height,
                self.current_grid.catalog() == old(self).current_grid.catalog(),
                self.current_grid.data@.len() == old(self).current_grid.data@.len(),
                material_ids(self.current_grid.data@) == material_ids(old(self).current_grid.data@),
                contents(self.current_grid.data@) == contents(old(self).current_grid.data@),
                still ==> self.current_grid.data == old(self).current_grid.data
                    && self.current_grid.dirty_particles@ == old(self).current_grid.dirty_particles@,
                grids.len() == n + 1,
                grids[0] == old(self).current_grid,
                grids[n as int] == self.current_grid,
                forall|m: int|
                    0 <= m < n ==> #[trigger] visit_at(grids, particles_to_update@, order@, m),
            decreases order.len() - n,
        {
            let k: usize = order[n];
            let ghost before = self.current_grid;
            let ghost earlier = grids;
            if particles_to_update[k].category == GRANULAR_CATEGORY {
                let particle_index: usize = particles_to_update[k].index as usize;
                self.handle_sands(particle_index, rng);
                assert(fell(before, self.current_grid, particle_index as int));
            }
            proof {
                grids = grids.push(self.current_grid);
                assert(visited(before, self.current_grid, particles_to_update@[k as int]));
                assert forall|m: int| 0 <= m < n + 1 implies #[trigger] visit_at(
                    grids,
                    particles_to_update@,
                    order@,
                    m,
                ) by {
                    if m < n {
                        assert(visit_at(earlier, particles_to_update@, order@, m));
                        assert(grids[m] == earlier[m] && grids[m + 1] == earlier[m + 1]);
                    } else {
                        assert(grids[m] == before && grids[m + 1] == self.current_grid);
                    }
                }
            }
            n += 1;
        }
        proof {
            assert(falls_along(grids, particles_to_update@, order@));
        }
    }

    /// Lets the particle in the cell `particle_index` fall: straight down if
    /// it can, else down to one side, each way mirrored left to right by the
    /// flip of a coin. Tells whether it fell.
    pub fn handle_sands(&mut self, particle_index: usize, rng: &mut StdRng) -> (moved: bool)
        requires
            old(self).current_grid.wf(),
            particle_index < old(self).current_grid.data@.len(),
        ensures
            final(self).current_grid.wf(),
            final(self).game_width == old(self).game_width,
            final(self).game_height == old(self).game_height,
            final(self).brush_radius == old(self).brush_radius,
            final(self).selected_particle_id == old(self).selected_particle_id,
            final(self).current_grid.width == old(self).current_grid.width,
            final(self).current_grid.height == old(self).current_grid.height,
            final(self).current_grid.catalog() == old(self).current_grid.catalog(),
            final(self).current_grid.data@.len() == old(self).current_grid.data@.len(),
            material_ids(final(self).current_grid.data@) == material_ids(
                old(self).current_grid.data@,
            ),
            contents(final(self).current_grid.data@) == contents(old(self).current_grid.data@),
            exists|flips: Seq<bool>|
                flips_allowed(flips, 3, true) && #[trigger] old(self).current_grid.move_outcome(
                    final(self).current_grid,
                    moved,
                    particle_index as int,
                    falling_offsets(),
                    flips,
                    true,
                    true,
                ),
            !moved ==> final(self).current_grid.data == old(self).current_grid.data && final(self).current_grid.dirty_particles@ == old(self).current_grid.dirty_particles@,
    {
        let direction_groups: Vec<Vec<Offset2<i32>>> = vec![
            vec![Offset2::<i32> { dx: 0, dy: -1 }],
            vec![Offset2::<i32> { dx: 1, dy: -1 }, Offset2::<i32> { dx: -1, dy: -1 }],
        ];
        proof {
            let views = direction_groups@.map_values(|g: Vec<Offset2<i32>>| g@);
            assert(views.len() == 2);
            assert(views[0] =~= seq![Offset2::<i32> { dx: 0, dy: -1i32 }]);
            assert(views[1] =~= seq![
                Offset2::<i32> { dx: 1, dy: -1i32 },
                Offset2::<i32> { dx: -1i32, dy: -1i32 },
            ]);
            assert(views =~= seq![
                seq![Offset2::<i32> { dx: 0, dy: -1i32 }],
                seq![Offset2::<i32> { dx: 1, dy: -1i32 }, Offset2::<i32> { dx: -1i32, dy: -1i32 }],
            ]);
            reveal_with_fuel(Seq::flatten, 4);
            assert(views.drop_first() =~= seq![
                seq![Offset2::<i32> { dx: 1, dy: -1i32 }, Offset2::<i32> { dx: -1i32, dy: -1i32 }],
            ]);
            assert(views.drop_first().drop_first() =~= Seq::<Seq<Offset2<i32>>>::empty());
            assert(candidates(direction_groups@) =~= falling_offsets());
        }
        self.current_grid.try_move_particle(
            particle_index,
            direction_groups.as_slice(),
            true,
            true,
            true,
            rng,
        )
    }
}

} // verus!

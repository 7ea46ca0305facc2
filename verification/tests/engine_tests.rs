use bog_engine::engine::Engine;
use bog_engine::input_state::InputState;
use bog_engine::loader::parse_particle_data;
use bog_engine::math::Vector2;
use bog_engine::particle::Particle;
use bog_engine::renderer_interface::RendererInterface;
use bog_engine::utils::Pixel;
use rand::rngs::StdRng;
use rand::SeedableRng;

const CATALOG: &str = "\
[10]\nname: Sand\ncategory: 4\nbase_color: #C2B280\nvariant_color: #A89060\nis_movable: true\ndensity: 1.6\n\
[30]\nname: Wall\ncategory: 1\nbase_color: #888888\nvariant_color: #999999\nis_movable: false\ndensity: 0.5\n\
[300]\nname: Dust\ncategory: 4\nbase_color: #555555\nvariant_color: #666666\nis_movable: true\ndensity: 0.8\n";

struct Recorder {
    batches: Vec<Vec<u32>>,
    shown: Vec<Vec<Particle>>,
    frames: usize,
}

impl Recorder {
    fn new() -> Recorder {
        Recorder { batches: Vec::new(), shown: Vec::new(), frames: 0 }
    }
}

impl RendererInterface for Recorder {
    fn queue_particles(&mut self, particles_to_queue: &[Particle]) {
        self.batches.push(particles_to_queue.iter().map(|p| p.index).collect());
        self.shown.push(particles_to_queue.to_vec());
    }

    fn queue_debug_overlay_pixels(&mut self, _pixels_to_queue: Vec<Pixel>) {}

    fn render_frame(&mut self) {
        self.frames += 1;
    }
}

fn idle() -> InputState {
    InputState { mouse_position: Vector2::new(0, 0), mouse_left_down: false, mouse_right_down: false }
}

fn pointer(x: i32, y: i32, left: bool, right: bool) -> InputState {
    InputState { mouse_position: Vector2::new(x, y), mouse_left_down: left, mouse_right_down: right }
}

fn engine(width: usize, height: usize, r: &mut Recorder, rng: &mut StdRng) -> Engine {
    Engine::new(width, height, parse_particle_data(CATALOG), r, rng)
}

fn filled(e: &Engine) -> Vec<(i32, i32, u16)> {
    e.current_grid
        .data
        .iter()
        .filter(|p| p.id != 0)
        .map(|p| (p.position.x, p.position.y, p.id))
        .collect()
}

fn places_are_right(e: &Engine) -> bool {
    let g = &e.current_grid;
    g.data.iter().enumerate().all(|(i, p)| {
        p.index as usize == i
            && p.position.x == (i as i32) % g.width
            && p.position.y == (i as i32) / g.width
    })
}

#[test]
fn a_new_engine_is_empty_and_shown_once() {
    let mut r = Recorder::new();
    let mut rng = StdRng::seed_from_u64(1);
    let e = engine(10, 10, &mut r, &mut rng);
    assert_eq!((e.game_width, e.game_height), (10, 10));
    assert_eq!((e.current_grid.width, e.current_grid.height), (10, 10));
    assert_eq!(e.brush_radius, 8);
    assert_eq!(e.selected_particle_id, 300);
    assert_eq!(e.current_grid.data.len(), 100);
    assert!(e.current_grid.data.iter().all(|p| p.id == 0));
    assert!(e.current_grid.dirty_particles.is_empty());
    assert!(places_are_right(&e));
    assert_eq!(r.batches, vec![(0..100).collect::<Vec<u32>>()]);
    assert_eq!(r.frames, 0);
}

#[test]
fn a_grain_of_sand_falls_down_its_column_and_stays() {
    let mut r = Recorder::new();
    let mut rng = StdRng::seed_from_u64(2);
    let mut e = engine(10, 10, &mut r, &mut rng);
    assert!(e.current_grid.create_particle_at(5, 9, 10, true, true, &mut rng));
    let mut rows = Vec::new();
    for _ in 0..40 {
        e.update(&mut r, &idle(), &mut rng);
        assert!(places_are_right(&e));
        let grains = filled(&e);
        assert_eq!(grains.len(), 1);
        let (x, y, id) = grains[0];
        assert_eq!((x, id), (5, 10));
        assert!((0..10).contains(&y));
        rows.push(y);
    }
    assert_eq!(&rows[..10], &[8, 7, 6, 5, 4, 3, 2, 1, 0, 0]);
    assert!(rows[10..].iter().all(|&y| y == 0));
    assert!(e.current_grid.dirty_particles.is_empty());
}

#[test]
fn a_tick_without_anything_dirty_changes_nothing() {
    let mut r = Recorder::new();
    let mut rng = StdRng::seed_from_u64(3);
    let mut e = engine(6, 6, &mut r, &mut rng);
    assert!(e.current_grid.create_particle_at(3, 5, 10, false, false, &mut rng));
    for _ in 0..5 {
        e.update(&mut r, &idle(), &mut rng);
        assert_eq!(filled(&e), vec![(3, 5, 10)]);
    }
    assert_eq!(r.batches.len(), 6);
    assert!(r.batches[1..].iter().all(|b| b.is_empty()));
}

#[test]
fn the_renderer_gets_the_cells_that_a_tick_may_have_changed() {
    let mut r = Recorder::new();
    let mut rng = StdRng::seed_from_u64(4);
    let mut e = engine(6, 6, &mut r, &mut rng);
    assert!(e.current_grid.create_particle_at(3, 5, 10, true, false, &mut rng));
    e.update(&mut r, &idle(), &mut rng);
    // the grain fell from cell 33 to cell 27: both cells and their neighbours
    let mut first = r.batches[1].clone();
    first.sort();
    assert_eq!(first, vec![20, 21, 22, 26, 27, 28, 32, 33, 34]);
    e.update(&mut r, &idle(), &mut rng);
    // the working set of the second tick, and what its move from 27 to 21 marked
    let mut second = r.batches[2].clone();
    second.sort();
    assert_eq!(second, vec![14, 15, 16, 20, 21, 22, 26, 27, 28, 32, 33, 34]);
}

#[test]
fn the_renderer_is_shown_the_grid_as_the_tick_leaves_it() {
    let mut r = Recorder::new();
    let mut rng = StdRng::seed_from_u64(13);
    let mut e = engine(12, 12, &mut r, &mut rng);
    e.brush_radius = 3;
    e.selected_particle_id = 10;
    let mut screen: Vec<u16> = vec![0; 144];
    for tick in 0..60 {
        let input = if tick < 3 { pointer(6, 9, true, false) } else { idle() };
        e.update(&mut r, &input, &mut rng);
        assert_eq!(r.shown.len(), tick + 2);
        assert_eq!(r.frames, 0);
        let batch = r.shown.last().unwrap();
        let mut cells: Vec<u32> = batch.iter().map(|p| p.index).collect();
        cells.sort();
        cells.dedup();
        assert_eq!(cells.len(), batch.len());
        for p in batch {
            let now = &e.current_grid.data[p.index as usize];
            assert_eq!(p.id, now.id);
            assert_eq!(p.color, now.color);
            assert_eq!((p.position.x, p.position.y), (now.position.x, now.position.y));
            screen[p.index as usize] = p.id;
        }
        let grid: Vec<u16> = e.current_grid.data.iter().map(|p| p.id).collect();
        assert_eq!(screen, grid, "after tick {}", tick);
    }
}

#[test]
fn the_changed_cells_are_the_working_set_and_the_dirty_cells() {
    let mut r = Recorder::new();
    let mut rng = StdRng::seed_from_u64(14);
    let mut e = engine(6, 6, &mut r, &mut rng);
    e.current_grid.mark_particle_dirty(0, 0, false);
    e.current_grid.mark_particle_dirty(5, 5, false);
    let working = e.take_dirty();
    e.current_grid.mark_particle_dirty(5, 5, false);
    e.current_grid.mark_particle_dirty(2, 0, false);
    assert!(e.current_grid.create_particle_at(0, 0, 10, false, false, &mut rng));
    let batch = e.changed_particles(&working);
    let mut cells: Vec<u32> = batch.iter().map(|p| p.index).collect();
    cells.sort();
    assert_eq!(cells, vec![0, 2, 35]);
    assert_eq!(batch.iter().find(|p| p.index == 0).unwrap().id, 10);
    assert_eq!(e.current_grid.dirty_particles.len(), 2);
    assert!(e.changed_particles(&Vec::new()).iter().all(|p| p.index == 2 || p.index == 35));
}

#[test]
fn the_left_button_paints_and_the_right_button_erases() {
    let mut r = Recorder::new();
    let mut rng = StdRng::seed_from_u64(5);
    let mut e = engine(20, 20, &mut r, &mut rng);
    e.brush_radius = 2;
    e.selected_particle_id = 30;
    e.handle_input(&pointer(10, 10, true, false), &mut rng);
    assert_eq!(filled(&e).len(), 11);
    assert!(filled(&e).iter().all(|&(_, _, id)| id == 30));
    assert_eq!(e.current_grid.get_particle_at(10, 10).unwrap().id, 30);
    e.handle_input(&pointer(10, 10, true, true), &mut rng);
    assert!(filled(&e).is_empty());
    e.handle_input(&pointer(10, 10, true, false), &mut rng);
    e.handle_input(&pointer(9, 10, false, true), &mut rng);
    assert_eq!(filled(&e), vec![(10, 8, 30), (11, 9, 30), (11, 10, 30), (11, 11, 30)]);
    assert_eq!(e.current_grid.get_particle_at(10, 10).unwrap().id, 0);
}

#[test]
fn no_button_or_a_pointer_outside_paints_nothing() {
    let mut r = Recorder::new();
    let mut rng = StdRng::seed_from_u64(6);
    let mut e = engine(20, 20, &mut r, &mut rng);
    e.selected_particle_id = 10;
    for input in [
        pointer(10, 10, false, false),
        pointer(-1, 10, true, false),
        pointer(10, -1, true, false),
        pointer(20, 10, true, false),
        pointer(10, 20, false, true),
        pointer(i32::MAX, i32::MIN, true, true),
    ] {
        e.handle_input(&input, &mut rng);
        assert!(filled(&e).is_empty());
        assert!(e.current_grid.dirty_particles.is_empty());
    }
    e.selected_particle_id = 11;
    e.handle_input(&pointer(10, 10, true, false), &mut rng);
    assert!(filled(&e).is_empty());
}

#[test]
fn painted_sand_piles_up_at_the_bottom() {
    let mut r = Recorder::new();
    let mut rng = StdRng::seed_from_u64(7);
    let mut e = engine(20, 20, &mut r, &mut rng);
    e.brush_radius = 3;
    e.selected_particle_id = 10;
    e.update(&mut r, &pointer(10, 15, true, false), &mut rng);
    let grains = filled(&e).len();
    assert_eq!(grains, 27);
    for _ in 0..200 {
        e.update(&mut r, &idle(), &mut rng);
        assert_eq!(filled(&e).len(), grains);
        assert!(places_are_right(&e));
    }
    assert!(e.current_grid.dirty_particles.is_empty());
    let g = &e.current_grid;
    for p in g.data.iter().filter(|p| p.id == 10) {
        let (x, y) = (p.position.x, p.position.y);
        if y > 0 {
            assert_eq!(g.get_particle_at(x, y - 1).unwrap().id, 10, "sand at ({}, {}) hangs", x, y);
        }
    }
    assert!(g.data.iter().filter(|p| p.id == 10).all(|p| p.position.y < 6));
}

#[test]
fn only_granular_particles_fall() {
    let mut r = Recorder::new();
    let mut rng = StdRng::seed_from_u64(8);
    let mut e = engine(6, 6, &mut r, &mut rng);
    assert!(e.current_grid.create_particle_at(2, 4, 30, true, true, &mut rng));
    for _ in 0..10 {
        e.update(&mut r, &idle(), &mut rng);
        assert_eq!(filled(&e), vec![(2, 4, 30)]);
    }
}

#[test]
fn a_grain_falls_one_row_at_a_time() {
    let mut r = Recorder::new();
    let mut rng = StdRng::seed_from_u64(11);
    let mut e = engine(5, 3, &mut r, &mut rng);
    assert!(e.current_grid.create_particle_at(2, 2, 10, false, false, &mut rng));
    assert!(e.handle_sands(12, &mut rng));
    assert_eq!(filled(&e), vec![(2, 1, 10)]);
    assert!(e.handle_sands(7, &mut rng));
    assert_eq!(filled(&e), vec![(2, 0, 10)]);
    assert!(!e.handle_sands(2, &mut rng));
    assert!(!e.handle_sands(7, &mut rng));
    assert_eq!(filled(&e), vec![(2, 0, 10)]);
    assert!(places_are_right(&e));
}

#[test]
fn a_working_set_without_granular_particles_moves_nothing() {
    let mut r = Recorder::new();
    let mut rng = StdRng::seed_from_u64(12);
    let mut e = engine(5, 3, &mut r, &mut rng);
    assert!(e.current_grid.create_particle_at(2, 2, 30, false, false, &mut rng));
    let all: Vec<Particle> = e.current_grid.data.clone();
    e.step_physics(&all, &mut rng);
    assert_eq!(filled(&e), vec![(2, 2, 30)]);
    assert!(e.current_grid.dirty_particles.is_empty());
    assert!(e.current_grid.create_particle_at(1, 2, 10, false, false, &mut rng));
    let all: Vec<Particle> = e.current_grid.data.clone();
    e.step_physics(&all, &mut rng);
    assert_eq!(filled(&e), vec![(1, 1, 10), (2, 2, 30)]);
}

#[test]
fn taking_the_dirty_cells_drains_them() {
    let mut r = Recorder::new();
    let mut rng = StdRng::seed_from_u64(9);
    let mut e = engine(6, 6, &mut r, &mut rng);
    e.current_grid.mark_particle_dirty(1, 1, true);
    let taken = e.take_dirty();
    let mut indices: Vec<u32> = taken.iter().map(|p| p.index).collect();
    indices.sort();
    assert_eq!(indices, vec![0, 1, 2, 6, 7, 8, 12, 13, 14]);
    assert!(e.current_grid.dirty_particles.is_empty());
    assert!(e.take_dirty().is_empty());
}

#[test]
fn a_grid_wider_than_sixteen_bits_wraps() {
    let mut r = Recorder::new();
    let mut rng = StdRng::seed_from_u64(10);
    let e = engine(65536 + 3, 2, &mut r, &mut rng);
    assert_eq!(e.game_width, 65539);
    assert_eq!((e.current_grid.width, e.current_grid.height), (3, 2));
    assert_eq!(e.current_grid.data.len(), 6);
}

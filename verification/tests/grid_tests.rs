use bog_engine::grid::Grid;
use bog_engine::loader::parse_particle_data;
use bog_engine::particle::Particle;
use bog_engine::utils::Offset2;
use rand::rngs::StdRng;
use rand::SeedableRng;
use std::collections::HashSet;

const CATALOG: &str = "\
[10]\nname: Sand\ncategory: 4\nbase_color: #C2B280\nvariant_color: #A89060\nis_movable: true\ndensity: 1.6\n\
[20]\nname: Water\ncategory: 5\nbase_color: #2266FF\nvariant_color: #3377FF\nis_movable: true\ndensity: 1.0\n\
[30]\nname: Wall\ncategory: 1\nbase_color: #888888\nvariant_color: #999999\nis_movable: false\ndensity: 0.5\n\
[40]\nname: Lead\ncategory: 4\nbase_color: #333333\nvariant_color: #444444\nis_movable: true\ndensity: 11.3\n";

fn grid(width: u16, height: u16, rng: &mut StdRng) -> Grid {
    let mut g = Grid::new(width, height, parse_particle_data(CATALOG));
    g.populate(0, rng);
    g
}

fn ids(g: &Grid) -> Vec<u16> {
    g.data.iter().map(|p| p.id).collect()
}

fn sorted_ids(g: &Grid) -> Vec<u16> {
    let mut v = ids(g);
    v.sort();
    v
}

fn places_are_right(g: &Grid) -> bool {
    g.data.iter().enumerate().all(|(i, p)| {
        p.index as usize == i
            && p.position.x == (i as i32) % g.width
            && p.position.y == (i as i32) / g.width
    })
}

fn down() -> Vec<Vec<Offset2<i32>>> {
    vec![
        vec![Offset2::new(0, -1)],
        vec![Offset2::new(1, -1), Offset2::new(-1, -1)],
    ]
}

fn dirty(g: &Grid) -> HashSet<u32> {
    g.dirty_particles.clone()
}

#[test]
fn a_new_grid_has_no_cells_yet() {
    let g = Grid::new(4, 3, parse_particle_data(CATALOG));
    assert_eq!((g.width, g.height), (4, 3));
    assert!(g.data.is_empty());
    assert!(g.dirty_particles.is_empty());
}

#[test]
fn populate_fills_every_cell_with_its_place() {
    let mut rng = StdRng::seed_from_u64(1);
    for (w, h) in [(1u16, 1u16), (1, 7), (7, 1), (10, 10), (13, 5)] {
        let g = grid(w, h, &mut rng);
        assert_eq!(g.data.len(), w as usize * h as usize);
        assert!(places_are_right(&g));
        for (i, p) in g.data.iter().enumerate() {
            assert_eq!(p.id, 0);
            assert_eq!(p.name, "Empty");
            assert_eq!(p.category, 0);
            assert!(p.is_movable);
            assert_eq!(p.density, 0);
            assert_eq!(p.handle as usize, i);
            assert_eq!(p.color.to_hex(), "#0E0E11FF");
        }
        assert!(g.dirty_particles.is_empty());
    }
}

#[test]
fn populate_again_starts_over() {
    let mut rng = StdRng::seed_from_u64(2);
    let mut g = grid(3, 3, &mut rng);
    g.populate(10, &mut rng);
    assert_eq!(g.data.len(), 9);
    assert!(places_are_right(&g));
    assert!(g.data.iter().all(|p| p.id == 10));
}

#[test]
fn bounds_are_half_open() {
    let mut rng = StdRng::seed_from_u64(3);
    let g = grid(4, 3, &mut rng);
    assert!(g.is_in_bounds(0, 0));
    assert!(g.is_in_bounds(3, 2));
    assert!(!g.is_in_bounds(4, 0));
    assert!(!g.is_in_bounds(0, 3));
    assert!(!g.is_in_bounds(-1, 0));
    assert!(!g.is_in_bounds(0, -1));
    assert!(!g.is_in_bounds(i32::MAX, i32::MIN));
}

#[test]
fn get_particle_at_finds_the_cell() {
    let mut rng = StdRng::seed_from_u64(4);
    let g = grid(4, 3, &mut rng);
    let p = g.get_particle_at(2, 1).unwrap();
    assert_eq!(p.index, 6);
    assert_eq!((p.position.x, p.position.y), (2, 1));
    assert!(g.get_particle_at(4, 1).is_none());
    assert!(g.get_particle_at(2, -1).is_none());
}

#[test]
fn a_grid_without_cells_finds_no_particle() {
    let g = Grid::new(4, 3, parse_particle_data(CATALOG));
    assert!(g.get_particle_at(0, 0).is_none());
    assert!(g.get_particle_at(3, 2).is_none());
    assert!(g.is_in_bounds(3, 2));
}

#[test]
fn create_particle_overwrites_one_cell() {
    let mut rng = StdRng::seed_from_u64(5);
    let mut g = grid(4, 3, &mut rng);
    assert!(g.create_particle_at(2, 1, 10, false, false, &mut rng));
    assert!(places_are_right(&g));
    for (i, p) in g.data.iter().enumerate() {
        assert_eq!(p.id, if i == 6 { 10 } else { 0 });
    }
    let sand = &g.data[6];
    assert_eq!(sand.name, "Sand");
    assert_eq!(sand.category, 4);
    assert_eq!(sand.density, 1_600_000);
    assert!(sand.is_movable);
    assert_eq!(sand.handle, 1);
    assert!(g.dirty_particles.is_empty());
}

#[test]
fn create_particle_fails_without_a_cell_or_a_material() {
    let mut rng = StdRng::seed_from_u64(6);
    let mut g = grid(4, 3, &mut rng);
    let before = ids(&g);
    assert!(!g.create_particle_at(4, 1, 10, true, true, &mut rng));
    assert!(!g.create_particle_at(-1, 1, 10, true, true, &mut rng));
    assert!(!g.create_particle_at(1, 3, 10, true, true, &mut rng));
    assert!(!g.create_particle_at(1, 1, 11, true, true, &mut rng));
    assert!(!g.create_particle_at(1, 1, 9, true, true, &mut rng));
    assert_eq!(ids(&g), before);
    assert!(g.dirty_particles.is_empty());
}

#[test]
fn create_particle_marks_the_cell_and_its_neighbours() {
    let mut rng = StdRng::seed_from_u64(7);
    let mut g = grid(4, 3, &mut rng);
    assert!(g.create_particle_at(0, 0, 10, true, false, &mut rng));
    assert_eq!(dirty(&g), HashSet::from([0]));
    assert!(g.create_particle_at(3, 2, 10, true, true, &mut rng));
    assert_eq!(dirty(&g), HashSet::from([0, 6, 7, 10, 11]));
}

#[test]
fn mark_dirty_takes_the_moore_neighbourhood_within_the_grid() {
    let mut rng = StdRng::seed_from_u64(8);
    let mut g = grid(5, 4, &mut rng);
    g.mark_particle_dirty(2, 2, true);
    assert_eq!(dirty(&g), HashSet::from([6, 7, 8, 11, 12, 13, 16, 17, 18]));
    let mut g = grid(5, 4, &mut rng);
    g.mark_particle_dirty(0, 3, true);
    assert_eq!(dirty(&g), HashSet::from([10, 11, 15, 16]));
    let mut g = grid(5, 4, &mut rng);
    g.mark_particle_dirty(4, 0, false);
    assert_eq!(dirty(&g), HashSet::from([4]));
}

#[test]
fn mark_dirty_outside_the_grid_marks_only_what_lies_inside() {
    let mut rng = StdRng::seed_from_u64(9);
    let mut g = grid(5, 4, &mut rng);
    g.mark_particle_dirty(5, 1, false);
    assert!(g.dirty_particles.is_empty());
    g.mark_particle_dirty(5, 1, true);
    assert_eq!(dirty(&g), HashSet::from([4, 9, 14]));
    let mut g = grid(5, 4, &mut rng);
    g.mark_particle_dirty(i32::MAX, i32::MIN, true);
    g.mark_particle_dirty(-7, 2, true);
    assert!(g.dirty_particles.is_empty());
}

#[test]
fn dirty_marks_only_grow() {
    let mut rng = StdRng::seed_from_u64(10);
    let mut g = grid(5, 4, &mut rng);
    g.mark_particle_dirty(0, 0, false);
    g.mark_particle_dirty(4, 3, false);
    g.mark_particle_dirty(0, 0, false);
    assert_eq!(dirty(&g), HashSet::from([0, 19]));
    let mut listed = g.dirty_indices();
    listed.sort();
    assert_eq!(listed, vec![0, 19]);
}

#[test]
fn neighbours_come_in_the_order_of_the_offsets() {
    let mut rng = StdRng::seed_from_u64(11);
    let g = grid(5, 4, &mut rng);
    let four = [(0, -1), (-1, 0), (1, 0), (0, 1)];
    assert_eq!(g.get_neighbor_indices_of(2, 2, &four), vec![7, 11, 13, 17]);
    assert_eq!(g.get_neighbor_indices_of(0, 0, &four), vec![1, 5]);
    assert_eq!(g.get_neighbor_indices_of(4, 3, &four), vec![14, 18]);
    let eight = [(-1, -1), (0, -1), (1, -1), (-1, 0), (1, 0), (-1, 1), (0, 1), (1, 1)];
    assert_eq!(g.get_neighbor_indices_of(1, 1, &eight), vec![0, 1, 2, 5, 7, 10, 11, 12]);
    assert_eq!(g.get_neighbor_indices_of(9, 9, &eight), Vec::<u32>::new());
    assert_eq!(g.get_neighbor_indices_of(2, 2, &[]), Vec::<u32>::new());
    assert_eq!(g.get_neighbor_indices_of(2, 2, &[(0, 0), (0, 0)]), vec![12, 12]);
    assert_eq!(
        g.get_neighbor_indices_of(i32::MAX, i32::MAX, &[(i32::MAX, i32::MAX), (i32::MIN, i32::MIN)]),
        Vec::<u32>::new()
    );
}

#[test]
fn sand_falls_straight_down_into_empty() {
    let mut rng = StdRng::seed_from_u64(12);
    let mut g = grid(3, 3, &mut rng);
    g.create_particle_at(1, 2, 10, false, false, &mut rng);
    let shade = g.data[7].color;
    assert!(g.try_move_with_flips(7, &down(), &[false, false, false], true, false));
    assert!(places_are_right(&g));
    assert_eq!(ids(&g), vec![0, 0, 0, 0, 10, 0, 0, 0, 0]);
    assert_eq!(g.data[4].color, shade);
    assert_eq!(g.data[4].name, "Sand");
    assert_eq!(g.data[7].name, "Empty");
    assert_eq!(dirty(&g), HashSet::from([4, 7]));
}

#[test]
fn a_move_marks_both_cells_with_their_neighbours() {
    let mut rng = StdRng::seed_from_u64(13);
    let mut g = grid(4, 4, &mut rng);
    g.create_particle_at(0, 3, 10, false, false, &mut rng);
    assert!(g.try_move_with_flips(12, &down(), &[false, false, false], true, true));
    assert_eq!(dirty(&g), HashSet::from([4, 5, 8, 9, 12, 13]));
    let mut g = grid(4, 4, &mut rng);
    g.create_particle_at(0, 3, 10, false, false, &mut rng);
    assert!(g.try_move_with_flips(12, &down(), &[false, false, false], false, true));
    assert!(g.dirty_particles.is_empty());
}

#[test]
fn sand_spills_to_the_side_that_comes_first() {
    let mut rng = StdRng::seed_from_u64(14);
    let mut g = grid(3, 3, &mut rng);
    g.create_particle_at(1, 1, 10, false, false, &mut rng);
    g.create_particle_at(1, 0, 30, false, false, &mut rng);
    assert!(g.try_move_with_flips(4, &down(), &[false, false, false], false, false));
    assert_eq!(ids(&g), vec![0, 30, 10, 0, 0, 0, 0, 0, 0]);
    assert!(places_are_right(&g));
}

#[test]
fn a_flip_mirrors_the_candidate() {
    let mut rng = StdRng::seed_from_u64(15);
    let mut g = grid(3, 3, &mut rng);
    g.create_particle_at(1, 1, 10, false, false, &mut rng);
    g.create_particle_at(1, 0, 30, false, false, &mut rng);
    assert!(g.try_move_with_flips(4, &down(), &[true, true, false], false, false));
    assert_eq!(ids(&g), vec![10, 30, 0, 0, 0, 0, 0, 0, 0]);
    // both sides mirrored: the first candidate of the group now goes left, the second right
    let mut g = grid(3, 3, &mut rng);
    g.create_particle_at(1, 1, 10, false, false, &mut rng);
    g.create_particle_at(1, 0, 30, false, false, &mut rng);
    g.create_particle_at(0, 0, 30, false, false, &mut rng);
    assert!(g.try_move_with_flips(4, &down(), &[false, true, true], false, false));
    assert_eq!(ids(&g), vec![30, 30, 10, 0, 0, 0, 0, 0, 0]);
}

#[test]
fn a_settled_particle_leaves_the_grid_as_it_was() {
    let mut rng = StdRng::seed_from_u64(16);
    let mut g = grid(3, 3, &mut rng);
    g.create_particle_at(1, 0, 10, false, false, &mut rng);
    let before = ids(&g);
    for flips in [[false, false, false], [true, true, true], [false, true, false]] {
        assert!(!g.try_move_with_flips(1, &down(), &flips, true, true));
        assert_eq!(ids(&g), before);
        assert!(g.dirty_particles.is_empty());
    }
    assert!(!g.try_move_particle(1, &down(), true, true, true, &mut rng));
    assert!(!g.try_move_with_flips(1, &[], &[], true, true));
    assert!(!g.try_move_with_flips(1, &[vec![], vec![]], &[], true, true));
}

#[test]
fn nothing_moves_into_what_is_immovable_or_as_dense() {
    let mut rng = StdRng::seed_from_u64(17);
    let all_round = vec![vec![
        Offset2::new(-1, -1),
        Offset2::new(0, -1),
        Offset2::new(1, -1),
        Offset2::new(-1, 0),
        Offset2::new(1, 0),
        Offset2::new(-1, 1),
        Offset2::new(0, 1),
        Offset2::new(1, 1),
    ]];
    // sand amid walls, which are lighter but do not move
    let mut g = grid(3, 3, &mut rng);
    g.populate(30, &mut rng);
    g.create_particle_at(1, 1, 10, false, false, &mut rng);
    assert!(!g.try_move_with_flips(4, &all_round, &[false; 8], true, true));
    // sand amid sand: as dense
    let mut g = grid(3, 3, &mut rng);
    g.populate(10, &mut rng);
    assert!(!g.try_move_with_flips(4, &all_round, &[false; 8], true, true));
    // sand amid lead: denser
    let mut g = grid(3, 3, &mut rng);
    g.populate(40, &mut rng);
    g.create_particle_at(1, 1, 10, false, false, &mut rng);
    assert!(!g.try_move_with_flips(4, &all_round, &[false; 8], true, true));
    assert!(!g.try_move_particle(4, &all_round, true, true, true, &mut rng));
    // empty never moves: nothing is less dense
    let mut g = grid(3, 3, &mut rng);
    assert!(!g.try_move_with_flips(4, &all_round, &[false; 8], true, true));
}

#[test]
fn the_denser_sinks_through_the_lighter() {
    let mut rng = StdRng::seed_from_u64(18);
    let mut g = grid(1, 3, &mut rng);
    g.create_particle_at(0, 0, 20, false, false, &mut rng);
    g.create_particle_at(0, 1, 10, false, false, &mut rng);
    g.create_particle_at(0, 2, 40, false, false, &mut rng);
    assert!(g.try_move_with_flips(2, &down(), &[false, false, false], false, false));
    assert_eq!(ids(&g), vec![20, 40, 10]);
    assert!(g.try_move_with_flips(1, &down(), &[false, false, false], false, false));
    assert_eq!(ids(&g), vec![40, 20, 10]);
    assert!(!g.try_move_with_flips(1, &down(), &[false, false, false], false, false));
    assert!(places_are_right(&g));
}

#[test]
fn an_offset_of_nothing_is_no_move() {
    let mut rng = StdRng::seed_from_u64(19);
    let mut g = grid(3, 3, &mut rng);
    g.create_particle_at(1, 1, 10, false, false, &mut rng);
    let stay = vec![vec![Offset2::new(0, 0)]];
    assert!(!g.try_move_with_flips(4, &stay, &[false], true, true));
    let far = vec![vec![Offset2::new(i32::MAX, i32::MIN), Offset2::new(i32::MIN, i32::MAX)]];
    assert!(!g.try_move_with_flips(4, &far, &[true, true], true, true));
    assert!(!g.try_move_particle(4, &far, true, true, true, &mut rng));
}

#[test]
fn moves_keep_every_material() {
    let mut rng = StdRng::seed_from_u64(20);
    let mut g = grid(8, 8, &mut rng);
    g.fill_circle_at(4, 5, 3, 10, &mut rng);
    g.fill_circle_at(2, 2, 2, 20, &mut rng);
    g.fill_circle_at(6, 1, 1, 30, &mut rng);
    g.fill_circle_at(5, 6, 1, 40, &mut rng);
    let before = sorted_ids(&g);
    for round in 0..40 {
        for i in 0..g.data.len() {
            g.try_move_particle(i, &down(), round % 2 == 0, true, true, &mut rng);
            assert!(places_are_right(&g));
        }
        assert_eq!(sorted_ids(&g), before);
    }
}

#[test]
fn a_move_without_mirroring_takes_the_first_legal_candidate() {
    let mut rng = StdRng::seed_from_u64(21);
    for _ in 0..20 {
        let mut g = grid(3, 3, &mut rng);
        g.create_particle_at(1, 1, 10, false, false, &mut rng);
        g.create_particle_at(1, 0, 30, false, false, &mut rng);
        assert!(g.try_move_particle(4, &down(), false, false, false, &mut rng));
        assert_eq!(ids(&g), vec![0, 30, 10, 0, 0, 0, 0, 0, 0]);
    }
}

#[test]
fn mirroring_takes_both_sides_in_turn() {
    let mut rng = StdRng::seed_from_u64(22);
    let (mut left, mut right) = (0, 0);
    for _ in 0..200 {
        let mut g = grid(3, 3, &mut rng);
        g.create_particle_at(1, 1, 10, false, false, &mut rng);
        g.create_particle_at(1, 0, 30, false, false, &mut rng);
        assert!(g.try_move_particle(4, &down(), true, false, false, &mut rng));
        match ids(&g).as_slice() {
            [10, 30, 0, 0, 0, 0, 0, 0, 0] => left += 1,
            [0, 30, 10, 0, 0, 0, 0, 0, 0] => right += 1,
            other => panic!("{:?}", other),
        }
    }
    assert!(left > 40 && right > 40, "{} to the left, {} to the right", left, right);
}

fn under_brush(dx: i64, dy: i64, r: i64) -> bool {
    -r <= dx && dx < r && -r <= dy && dy < r && dx * dx + dy * dy <= r * r
}

#[test]
fn a_stroke_paints_the_disc_within_its_square() {
    let mut rng = StdRng::seed_from_u64(23);
    for (cx, cy, r) in [(5, 5, 3), (0, 0, 4), (9, 9, 2), (5, 5, 0), (5, 5, 1), (5, 5, -3), (14, 5, 6), (-2, -2, 5), (5, 5, 40), (100, 100, 3)] {
        let mut g = grid(10, 10, &mut rng);
        g.fill_circle_at(cx, cy, r, 10, &mut rng);
        assert!(places_are_right(&g));
        let mut marks: HashSet<u32> = HashSet::new();
        for y in 0..10i64 {
            for x in 0..10i64 {
                let p: &Particle = &g.data[(y * 10 + x) as usize];
                if under_brush(x - cx as i64, y - cy as i64, r as i64) {
                    assert_eq!(p.id, 10, "({}, {}) of {:?}", x, y, (cx, cy, r));
                    assert_eq!(p.handle, 1);
                    for ny in (y - 1).max(0)..(y + 2).min(10) {
                        for nx in (x - 1).max(0)..(x + 2).min(10) {
                            marks.insert((ny * 10 + nx) as u32);
                        }
                    }
                } else {
                    assert_eq!(p.id, 0, "({}, {}) of {:?}", x, y, (cx, cy, r));
                    assert_eq!(p.handle as i64, y * 10 + x);
                }
            }
        }
        assert_eq!(dirty(&g), marks);
    }
}

#[test]
fn a_stroke_ends_before_its_radius() {
    let mut rng = StdRng::seed_from_u64(24);
    let mut g = grid(10, 10, &mut rng);
    g.fill_circle_at(5, 5, 2, 10, &mut rng);
    assert_eq!(g.get_particle_at(3, 5).unwrap().id, 10);
    assert_eq!(g.get_particle_at(5, 3).unwrap().id, 10);
    assert_eq!(g.get_particle_at(7, 5).unwrap().id, 0);
    assert_eq!(g.get_particle_at(5, 7).unwrap().id, 0);
    assert_eq!(ids(&g).iter().filter(|&&id| id == 10).count(), 11);
}

#[test]
fn a_stroke_of_an_unknown_material_paints_nothing() {
    let mut rng = StdRng::seed_from_u64(25);
    let mut g = grid(10, 10, &mut rng);
    g.fill_circle_at(5, 5, 3, 11, &mut rng);
    assert!(g.data.iter().all(|p| p.id == 0));
    assert!(g.dirty_particles.is_empty());
}

#[test]
fn erasing_paints_the_empty_material() {
    let mut rng = StdRng::seed_from_u64(26);
    let mut g = grid(10, 10, &mut rng);
    g.populate(10, &mut rng);
    g.fill_circle_at(5, 5, 2, 0, &mut rng);
    assert_eq!(ids(&g).iter().filter(|&&id| id == 0).count(), 11);
    assert_eq!(g.get_particle_at(5, 5).unwrap().name, "Empty");
}

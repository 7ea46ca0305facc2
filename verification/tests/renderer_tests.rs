use bog_engine::color::Color;
use bog_engine::loader::parse_particle_data;
use bog_engine::native_renderer::{DirtyRect, NativeRenderer};
use bog_engine::particle::Particle;
use bog_engine::renderer_utils::process_particles;
use bog_engine::utils::Pixel;
use std::collections::HashSet;

fn rect(min_x: u32, min_y: u32, max_x: u32, max_y: u32) -> DirtyRect {
    DirtyRect { min_x, min_y, max_x, max_y }
}

fn cell(x: u32, y: u32) -> DirtyRect {
    rect(x, y, x + 1, y + 1)
}

fn merge(rects: &[DirtyRect], width: u32, height: u32) -> Vec<DirtyRect> {
    let mut gathered = rects.to_vec();
    let merged = NativeRenderer::merge_dirty_rects(&mut gathered, width, height);
    assert!(gathered.is_empty());
    merged
}

fn as_set(rects: &[DirtyRect]) -> HashSet<DirtyRect> {
    rects.iter().copied().collect()
}

fn tiles_of(rects: &[DirtyRect]) -> HashSet<(u32, u32)> {
    let mut tiles = HashSet::new();
    for r in rects {
        for cx in r.min_x / 32..(r.max_x.saturating_sub(1) / 32) + 1 {
            for cy in r.min_y / 32..(r.max_y.saturating_sub(1) / 32) + 1 {
                tiles.insert((cx, cy));
            }
        }
    }
    tiles
}

fn particle_at(index: u32, x: i32, y: i32, color: Color) -> Particle {
    let catalog = parse_particle_data("");
    let mut p = Particle::with_draw(&catalog[&0], x, y, 0, 0);
    p.index = index;
    p.color = color;
    p
}

#[test]
fn nothing_gathered_gives_nothing_merged() {
    assert!(merge(&[], 100, 100).is_empty());
    assert!(merge(&[], 0, 0).is_empty());
}

#[test]
fn pixels_of_one_tile_merge_into_their_bounds() {
    let merged = merge(&[cell(0, 0), cell(1, 1), cell(31, 7), cell(5, 20)], 100, 100);
    assert_eq!(merged, vec![rect(0, 0, 32, 21)]);
}

#[test]
fn each_touched_tile_gives_one_rectangle() {
    let merged = merge(&[cell(0, 0), cell(1, 1), cell(40, 5), cell(33, 6), cell(0, 99)], 100, 100);
    assert_eq!(merged.len(), 3);
    assert_eq!(as_set(&merged), as_set(&[rect(0, 0, 2, 2), rect(33, 5, 41, 7), rect(0, 99, 1, 100)]));
}

#[test]
fn a_rectangle_across_tiles_is_cut_at_their_edges() {
    let merged = merge(&[rect(30, 30, 34, 34)], 100, 100);
    assert_eq!(merged.len(), 4);
    assert_eq!(
        as_set(&merged),
        as_set(&[rect(30, 30, 32, 32), rect(30, 32, 32, 34), rect(32, 30, 34, 32), rect(32, 32, 34, 34)])
    );
}

#[test]
fn merged_rectangles_end_at_the_canvas() {
    assert_eq!(merge(&[rect(0, 0, 10, 10)], 5, 5), vec![rect(0, 0, 5, 5)]);
    assert_eq!(merge(&[rect(30, 0, 40, 3)], 36, 2), as_set_vec(&[rect(30, 0, 32, 2), rect(32, 0, 36, 2)]));
}

fn as_set_vec(rects: &[DirtyRect]) -> Vec<DirtyRect> {
    rects.to_vec()
}

#[test]
fn merged_rectangles_cover_what_was_gathered() {
    let gathered = [
        cell(3, 4),
        cell(63, 63),
        cell(64, 64),
        rect(10, 10, 50, 12),
        rect(31, 31, 33, 33),
        rect(90, 0, 100, 100),
        rect(0, 95, 100, 100),
        cell(99, 99),
        cell(3, 4),
    ];
    let merged = merge(&gathered, 100, 100);
    for r in &gathered {
        for y in r.min_y..r.max_y {
            for x in r.min_x..r.max_x {
                assert!(
                    merged.iter().any(|m| m.min_x <= x && x < m.max_x && m.min_y <= y && y < m.max_y),
                    "({}, {}) is not covered",
                    x,
                    y
                );
            }
        }
    }
    assert_eq!(merged.len(), tiles_of(&gathered).len());
    for m in &merged {
        assert!(m.max_x <= 100 && m.max_y <= 100);
        assert_eq!(m.min_x / 32, (m.max_x - 1) / 32);
        assert_eq!(m.min_y / 32, (m.max_y - 1) / 32);
    }
}

#[test]
fn one_rectangle_for_each_pixel_merges_to_the_tiles_touched() {
    let mut gathered = Vec::new();
    for y in 0..70 {
        for x in 0..50 {
            if (x * 7 + y * 13) % 5 == 0 {
                gathered.push(cell(x, y));
            }
        }
    }
    let merged = merge(&gathered, 50, 70);
    assert_eq!(merged.len(), 6);
    assert_eq!(merged.len(), tiles_of(&gathered).len());
}

#[test]
fn a_new_renderer_is_blank() {
    let r = NativeRenderer::new(4, 3);
    assert_eq!((r.width, r.height), (4, 3));
    assert_eq!(r.frame_buffer, vec![0u8; 48]);
    assert!(r.dirty_rects.is_empty());
    assert!(r.debug_overlay_pixels.is_empty());
    let r = NativeRenderer::new(0, 9);
    assert!(r.frame_buffer.is_empty());
}

#[test]
fn queued_particles_are_drawn_as_bgra() {
    let mut r = NativeRenderer::new(4, 3);
    let batch = [
        particle_at(0, 0, 0, Color::from_rgba(1, 2, 3, 4)),
        particle_at(6, 2, 1, Color::from_rgba(10, 20, 30, 40)),
        particle_at(11, 3, 2, Color::from_rgba(50, 60, 70, 80)),
        particle_at(6, 2, 1, Color::from_rgba(11, 21, 31, 41)),
    ];
    r.queue_particles(&batch);
    let mut expected = vec![0u8; 48];
    expected[0..4].copy_from_slice(&[3, 2, 1, 4]);
    expected[24..28].copy_from_slice(&[31, 21, 11, 41]);
    expected[44..48].copy_from_slice(&[70, 60, 50, 80]);
    assert_eq!(r.frame_buffer, expected);
    assert_eq!(r.dirty_rects, vec![cell(0, 0), cell(2, 1), cell(3, 2), cell(2, 1)]);
    r.queue_particles(&[]);
    assert_eq!(r.frame_buffer, expected);
    assert_eq!(r.dirty_rects.len(), 4);
}

#[test]
fn uploads_hold_the_bytes_of_their_rectangles() {
    let mut r = NativeRenderer::new(40, 3);
    r.queue_particles(&[
        particle_at(1, 1, 0, Color::from_rgba(1, 2, 3, 4)),
        particle_at(42, 2, 1, Color::from_rgba(5, 6, 7, 8)),
        particle_at(39, 39, 0, Color::from_rgba(9, 10, 11, 12)),
    ]);
    let mut uploads = r.frame_uploads();
    assert!(r.dirty_rects.is_empty());
    uploads.sort_by_key(|u| u.rect.min_x);
    assert_eq!(uploads.len(), 2);
    assert_eq!(uploads[0].rect, rect(1, 0, 3, 2));
    assert_eq!(uploads[0].data, vec![3, 2, 1, 4, 0, 0, 0, 0, 0, 0, 0, 0, 7, 6, 5, 8]);
    assert_eq!(uploads[1].rect, rect(39, 0, 40, 1));
    assert_eq!(uploads[1].data, vec![11, 10, 9, 12]);
    assert!(r.frame_uploads().is_empty());
}

#[test]
fn rectangles_without_pixels_are_not_uploaded() {
    let mut r = NativeRenderer::new(100, 8);
    r.dirty_rects.push(rect(5, 5, 5, 7));
    r.dirty_rects.push(rect(40, 3, 50, 3));
    r.dirty_rects.push(rect(70, 0, 72, 1));
    let uploads = r.frame_uploads();
    assert_eq!(uploads.len(), 1);
    assert_eq!(uploads[0].rect, rect(70, 0, 72, 1));
    assert_eq!(uploads[0].data, vec![0u8; 8]);
}

#[test]
fn a_tile_gathers_the_bounds_of_all_that_touches_it() {
    // what reaches beyond the canvas still widens the bounds of its tile up to the canvas
    assert_eq!(merge(&[rect(5, 5, 5, 7), rect(20, 0, 30, 4), rect(0, 0, 2, 1)], 8, 8), vec![rect(0, 0, 8, 7)]);
}

#[test]
fn a_region_is_read_row_by_row() {
    let mut r = NativeRenderer::new(3, 3);
    for (i, b) in r.frame_buffer.iter_mut().enumerate() {
        *b = i as u8;
    }
    assert_eq!(r.region_of(&rect(1, 1, 3, 3)), vec![16, 17, 18, 19, 20, 21, 22, 23, 28, 29, 30, 31, 32, 33, 34, 35]);
    assert_eq!(r.region_of(&rect(0, 0, 3, 3)), (0u8..36).collect::<Vec<u8>>());
    assert_eq!(r.region_of(&rect(2, 0, 3, 1)), vec![8, 9, 10, 11]);
}

#[test]
fn overlay_pixels_replace_earlier_ones() {
    let mut r = NativeRenderer::new(4, 3);
    r.queue_debug_overlay_pixels(vec![
        Pixel::from_rgba(1, 2, 3, 4, 5),
        Pixel::from_rgba(9, 9, 9, 9, 7),
        Pixel::from_rgba(5, 6, 7, 8, 5),
    ]);
    assert_eq!(r.debug_overlay_pixels.len(), 2);
    let p = &r.debug_overlay_pixels[&5];
    assert_eq!((p.r, p.g, p.b, p.a, p.index), (5, 6, 7, 8, 5));
    let q = &r.debug_overlay_pixels[&7];
    assert_eq!((q.r, q.g, q.b, q.a, q.index), (9, 9, 9, 9, 7));
    assert_eq!(r.frame_buffer, vec![0u8; 48]);
}

#[test]
fn process_particles_draws_at_positions() {
    let mut buffer = vec![0u8; 48];
    let batch = [
        particle_at(99, 2, 1, Color::from_rgba(10, 20, 30, 40)),
        particle_at(99, 0, 0, Color::from_rgba(1, 2, 3, 4)),
    ];
    process_particles(&batch, &mut buffer, 4);
    let mut expected = vec![0u8; 48];
    expected[0..4].copy_from_slice(&[3, 2, 1, 4]);
    expected[24..28].copy_from_slice(&[30, 20, 10, 40]);
    assert_eq!(buffer, expected);
    process_particles(&[], &mut buffer, 4);
    assert_eq!(buffer, expected);
}

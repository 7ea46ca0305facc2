//! The CPU side of the presentation layer: the frame buffer that queued
//! particles are written to, and the coalescing of the cells that changed
//! into a small number of rectangles to upload.

use crate::color::Color;
use crate::particle::Particle;
use crate::utils::Pixel;
use std::collections::HashMap;
use vstd::prelude::*;

verus! {

/// An axis-aligned rectangle of pixels: `min` inclusive, `max` exclusive.
#[derive(Debug, Clone, Copy, PartialEq, Eq, Hash, Structural)]
pub struct DirtyRect {
    pub min_x: u32,
    pub min_y: u32,
    pub max_x: u32,
    pub max_y: u32,
}

/// Edge length of the coarse tiles that dirty rectangles are gathered in.
pub const COARSE_GRID_CELL_SIZE: u32 = 32;

/// The lesser of two numbers.
pub open spec fn least(a: int, b: int) -> int {
    if a <= b {
        a
    } else {
        b
    }
}

/// The greater of two numbers.
pub open spec fn greatest(a: int, b: int) -> int {
    if a >= b {
        a
    } else {
        b
    }
}

/// The first tile, along one axis, that a span starting at `low` touches.
pub open spec fn first_tile(low: u32) -> int {
    low as int / COARSE_GRID_CELL_SIZE as int
}

/// The tile, along one axis, before which a span ending at `high` stops.
pub open spec fn end_tile(high: u32) -> int {
    greatest(high as int - 1, 0) / COARSE_GRID_CELL_SIZE as int + 1
}

/// Whether the rectangle `r` touches the tile `(cx, cy)`.
pub open spec fn touches(r: DirtyRect, cx: int, cy: int) -> bool {
    &&& first_tile(r.min_x) <= cx < end_tile(r.max_x)
    &&& first_tile(r.min_y) <= cy < end_tile(r.max_y)
}

/// The part of `r` that lies in the tile `(cx, cy)` and on the canvas.
pub open spec fn piece(r: DirtyRect, cx: int, cy: int, width: u32, height: u32) -> DirtyRect {
    let size = COARSE_GRID_CELL_SIZE as int;
    DirtyRect {
        min_x: greatest(r.min_x as int, cx * size) as u32,
        min_y: greatest(r.min_y as int, cy * size) as u32,
        max_x: least(least(r.max_x as int, (cx + 1) * size), width as int) as u32,
        max_y: least(least(r.max_y as int, (cy + 1) * size), height as int) as u32,
    }
}

/// The smallest rectangle that holds both `a` and `b`.
pub open spec fn join(a: DirtyRect, b: DirtyRect) -> DirtyRect {
    DirtyRect {
        min_x: least(a.min_x as int, b.min_x as int) as u32,
        min_y: least(a.min_y as int, b.min_y as int) as u32,
        max_x: greatest(a.max_x as int, b.max_x as int) as u32,
        max_y: greatest(a.max_y as int, b.max_y as int) as u32,
    }
}

/// The bounds `acc` of a tile once the rectangle `r` is taken in, if `r`
/// counts and touches the tile.
pub open spec fn taken_in(
    acc: Option<DirtyRect>,
    r: DirtyRect,
    cx: int,
    cy: int,
    width: u32,
    height: u32,
    counts: bool,
) -> Option<DirtyRect> {
    if counts && touches(r, cx, cy) {
        match acc {
            Some(bounds) => Some(join(bounds, piece(r, cx, cy, width, height))),
            None => Some(piece(r, cx, cy, width, height)),
        }
    } else {
        acc
    }
}

/// The bounds that the tile `(cx, cy)` gathers from `rects`: the smallest
/// rectangle that holds the piece of every rectangle that touches the tile.
/// A tile that none touches has no bounds.
pub open spec fn tile_bounds(rects: Seq<DirtyRect>, cx: int, cy: int, width: u32, height: u32) -> Option<
    DirtyRect,
>
    decreases rects.len(),
{
    if rects.len() == 0 {
        None
    } else {
        taken_in(
            tile_bounds(rects.drop_last(), cx, cy, width, height),
            rects.last(),
            cx,
            cy,
            width,
            height,
            true,
        )
    }
}

/// Whether `merged` holds the bounds of the tiles `tiles`, one rectangle for
/// each, and `tiles` are all the tiles that `rects` touch, each once.
pub open spec fn is_merge_of(
    merged: Seq<DirtyRect>,
    tiles: Seq<(int, int)>,
    rects: Seq<DirtyRect>,
    width: u32,
    height: u32,
) -> bool {
    &&& tiles.len() == merged.len()
    &&& tiles.no_duplicates()
    &&& forall|i: int|
        0 <= i < tiles.len() ==> tile_bounds(rects, (#[trigger] tiles[i]).0, tiles[i].1, width, height)
            == Some(merged[i])
    &&& forall|cx: int, cy: int|
        (#[trigger] tile_bounds(rects, cx, cy, width, height)) is Some ==> tiles.contains((cx, cy))
}

/// Whether the pixel `(px, py)` lies in `r`.
pub open spec fn holds_pixel(r: DirtyRect, px: int, py: int) -> bool {
    r.min_x <= px < r.max_x && r.min_y <= py < r.max_y
}

/// Whether `r` is a rectangle with at least one pixel, all on the canvas.
pub open spec fn on_canvas(r: DirtyRect, width: u32, height: u32) -> bool {
    r.min_x < r.max_x <= width && r.min_y < r.max_y <= height
}

/// The number by which a tile is looked up.
spec fn key_of(t: (int, int)) -> u64 {
    (t.0 * 0x1_0000_0000 + t.1) as u64
}

/// Whether a tile is one that a 32-bit rectangle can touch.
spec fn tile_in_range(t: (int, int)) -> bool {
    0 <= t.0 < 0x800_0000 && 0 <= t.1 < 0x800_0000
}

/// Whether the walk over the tiles of one rectangle, column by column and
/// down each column, has passed the tile `t` when it stands at `(cx, cy)`.
spec fn seen(t: (int, int), cx: int, cy: int) -> bool {
    t.0 < cx || (t.0 == cx && t.1 < cy)
}

/// The bounds of the tile `t` once the rectangles before `rects[n]` are
/// taken in, and `rects[n]` too if its walk has passed `t`.
spec fn bounds_at(
    rects: Seq<DirtyRect>,
    n: int,
    t: (int, int),
    cx: int,
    cy: int,
    width: u32,
    height: u32,
) -> Option<DirtyRect> {
    taken_in(
        tile_bounds(rects.take(n), t.0, t.1, width, height),
        rects[n],
        t.0,
        t.1,
        width,
        height,
        seen(t, cx, cy),
    )
}

/// Whether `slots` finds each tile of `tiles` at its place.
spec fn slots_find(slots: Map<u64, usize>, tiles: Seq<(int, int)>) -> bool {
    &&& forall|i: int|
        0 <= i < tiles.len() ==> tile_in_range(#[trigger] tiles[i]) && slots.contains_key(
            key_of(tiles[i]),
        ) && slots[key_of(tiles[i])] == i
    &&& forall|key: u64| #[trigger]
        slots.contains_key(key) ==> slots[key] < tiles.len() && key_of(tiles[slots[key] as int])
            == key
}

/// The state of the merge while the walk over the tiles of `rects[n]` stands
/// at `(cx, cy)`.
spec fn gathered(
    merged: Seq<DirtyRect>,
    tiles: Seq<(int, int)>,
    rects: Seq<DirtyRect>,
    n: int,
    cx: int,
    cy: int,
    width: u32,
    height: u32,
) -> bool {
    &&& tiles.len() == merged.len()
    &&& tiles.no_duplicates()
    &&& forall|i: int|
        0 <= i < tiles.len() ==> bounds_at(rects, n, #[trigger] tiles[i], cx, cy, width, height)
            == Some(merged[i])
    &&& forall|t: (int, int)|
        (#[trigger] bounds_at(rects, n, t, cx, cy, width, height)) is Some ==> tiles.contains(t)
}

/// Two places of a walk that have passed the same touched tiles describe the
/// same state.
proof fn lemma_gathered_same(
    merged: Seq<DirtyRect>,
    tiles: Seq<(int, int)>,
    rects: Seq<DirtyRect>,
    n: int,
    cx1: int,
    cy1: int,
    cx2: int,
    cy2: int,
    width: u32,
    height: u32,
)
    requires
        gathered(merged, tiles, rects, n, cx1, cy1, width, height),
        forall|t: (int, int)|
            touches(rects[n], t.0, t.1) ==> #[trigger] seen(t, cx1, cy1) == seen(t, cx2, cy2),
    ensures
        gathered(merged, tiles, rects, n, cx2, cy2, width, height),
{
    assert forall|t: (int, int)|
        bounds_at(rects, n, t, cx1, cy1, width, height) == #[trigger] bounds_at(
            rects,
            n,
            t,
            cx2,
            cy2,
            width,
            height,
        ) by {
        if touches(rects[n], t.0, t.1) {
            assert(seen(t, cx1, cy1) == seen(t, cx2, cy2));
        }
    }
    assert forall|i: int| 0 <= i < tiles.len() implies bounds_at(
        rects,
        n,
        #[trigger] tiles[i],
        cx2,
        cy2,
        width,
        height,
    ) == Some(merged[i]) by {
        assert(bounds_at(rects, n, tiles[i], cx1, cy1, width, height) == Some(merged[i]));
    }
    assert forall|t: (int, int)|
        (#[trigger] bounds_at(rects, n, t, cx2, cy2, width, height)) is Some implies tiles.contains(
        t,
    ) by {
        assert(bounds_at(rects, n, t, cx1, cy1, width, height) is Some);
    }
}

/// Before the walk over `rects[n]` starts, the state is the merge of the
/// rectangles before it.
proof fn lemma_gathered_start(
    merged: Seq<DirtyRect>,
    tiles: Seq<(int, int)>,
    rects: Seq<DirtyRect>,
    n: int,
    width: u32,
    height: u32,
)
    requires
        0 <= n < rects.len(),
        is_merge_of(merged, tiles, rects.take(n), width, height),
    ensures
        gathered(
            merged,
            tiles,
            rects,
            n,
            first_tile(rects[n].min_x),
            first_tile(rects[n].min_y),
            width,
            height,
        ),
{
    let cx = first_tile(rects[n].min_x);
    let cy = first_tile(rects[n].min_y);
    assert forall|t: (int, int)|
        #[trigger] bounds_at(rects, n, t, cx, cy, width, height) == tile_bounds(
            rects.take(n),
            t.0,
            t.1,
            width,
            height,
        ) by {}
    assert forall|i: int| 0 <= i < tiles.len() implies bounds_at(
        rects,
        n,
        #[trigger] tiles[i],
        cx,
        cy,
        width,
        height,
    ) == Some(merged[i]) by {}
    assert forall|t: (int, int)|
        (#[trigger] bounds_at(rects, n, t, cx, cy, width, height)) is Some implies tiles.contains(
        t,
    ) by {
        assert(tile_bounds(rects.take(n), t.0, t.1, width, height) is Some);
    }
}

/// After the walk over `rects[n]` has ended, the state is the merge of the
/// rectangles up to and including it.
proof fn lemma_gathered_end(
    merged: Seq<DirtyRect>,
    tiles: Seq<(int, int)>,
    rects: Seq<DirtyRect>,
    n: int,
    cy: int,
    width: u32,
    height: u32,
)
    requires
        0 <= n < rects.len(),
        gathered(merged, tiles, rects, n, end_tile(rects[n].max_x), cy, width, height),
    ensures
        is_merge_of(merged, tiles, rects.take(n + 1), width, height),
{
    let cx = end_tile(rects[n].max_x);
    assert(rects.take(n + 1).drop_last() =~= rects.take(n));
    assert(rects.take(n + 1).last() == rects[n]);
    assert forall|t: (int, int)|
        #[trigger] bounds_at(rects, n, t, cx, cy, width, height) == tile_bounds(
            rects.take(n + 1),
            t.0,
            t.1,
            width,
            height,
        ) by {}
    assert forall|i: int| 0 <= i < tiles.len() implies tile_bounds(
        rects.take(n + 1),
        (#[trigger] tiles[i]).0,
        tiles[i].1,
        width,
        height,
    ) == Some(merged[i]) by {
        assert(bounds_at(rects, n, tiles[i], cx, cy, width, height) == Some(merged[i]));
    }
    assert forall|tx: int, ty: int|
        (#[trigger] tile_bounds(rects.take(n + 1), tx, ty, width, height)) is Some implies tiles.contains(
        (tx, ty),
    ) by {
        assert(bounds_at(rects, n, (tx, ty), cx, cy, width, height) is Some);
    }
}

/// Taking the piece of `rects[n]` into the bounds that the tile `(cx, cy)`
/// already has moves the walk one tile down.
proof fn lemma_gathered_found(
    merged: Seq<DirtyRect>,
    tiles: Seq<(int, int)>,
    rects: Seq<DirtyRect>,
    n: int,
    cx: int,
    cy: int,
    i: int,
    width: u32,
    height: u32,
)
    requires
        gathered(merged, tiles, rects, n, cx, cy, width, height),
        touches(rects[n], cx, cy),
        0 <= i < tiles.len(),
        tiles[i] == (cx, cy),
    ensures
        gathered(
            merged.update(i, join(merged[i], piece(rects[n], cx, cy, width, height))),
            tiles,
            rects,
            n,
            cx,
            cy + 1,
            width,
            height,
        ),
{
    let next = merged.update(i, join(merged[i], piece(rects[n], cx, cy, width, height)));
    assert forall|j: int| 0 <= j < tiles.len() implies bounds_at(
        rects,
        n,
        #[trigger] tiles[j],
        cx,
        cy + 1,
        width,
        height,
    ) == Some(next[j]) by {
        assert(bounds_at(rects, n, tiles[j], cx, cy, width, height) == Some(merged[j]));
        if j != i {
            assert(tiles[j] != tiles[i]);
        }
    }
    assert forall|t: (int, int)|
        (#[trigger] bounds_at(rects, n, t, cx, cy + 1, width, height)) is Some implies tiles.contains(
        t,
    ) by {
        if t != (cx, cy) {
            assert(bounds_at(rects, n, t, cx, cy, width, height) is Some);
        }
    }
}

/// Giving the tile `(cx, cy)`, which has no bounds yet, the piece of
/// `rects[n]` moves the walk one tile down.
proof fn lemma_gathered_new(
    merged: Seq<DirtyRect>,
    tiles: Seq<(int, int)>,
    rects: Seq<DirtyRect>,
    n: int,
    cx: int,
    cy: int,
    width: u32,
    height: u32,
)
    requires
        gathered(merged, tiles, rects, n, cx, cy, width, height),
        touches(rects[n], cx, cy),
        !tiles.contains((cx, cy)),
    ensures
        gathered(
            merged.push(piece(rects[n], cx, cy, width, height)),
            tiles.push((cx, cy)),
            rects,
            n,
            cx,
            cy + 1,
            width,
            height,
        ),
{
    let next = merged.push(piece(rects[n], cx, cy, width, height));
    let more = tiles.push((cx, cy));
    assert(bounds_at(rects, n, (cx, cy), cx, cy, width, height) is None);
    assert forall|j: int| 0 <= j < more.len() implies bounds_at(
        rects,
        n,
        #[trigger] more[j],
        cx,
        cy + 1,
        width,
        height,
    ) == Some(next[j]) by {
        if j < tiles.len() {
            assert(tiles.contains(tiles[j]));
            assert(bounds_at(rects, n, tiles[j], cx, cy, width, height) == Some(merged[j]));
        }
    }
    assert forall|t: (int, int)|
        (#[trigger] bounds_at(rects, n, t, cx, cy + 1, width, height)) is Some implies more.contains(
        t,
    ) by {
        if t != (cx, cy) {
            assert(bounds_at(rects, n, t, cx, cy, width, height) is Some);
            let j = choose|j: int| 0 <= j < tiles.len() && tiles[j] == t;
            assert(more[j] == t);
        } else {
            assert(more[tiles.len() as int] == t);
        }
    }
    assert(more.no_duplicates()) by {
        assert forall|a: int, b: int| 0 <= a < more.len() && 0 <= b < more.len() && a != b implies more[a]
            != more[b] by {
            if a < tiles.len() {
                assert(tiles.contains(tiles[a]));
            }
            if b < tiles.len() {
                assert(tiles.contains(tiles[b]));
            }
        }
    }
}

/// The CPU side of a renderer: the frame buffer in BGRA bytes, and what has
/// changed in it since the last frame.
pub struct NativeRenderer {
    pub width: usize,
    pub height: usize,
    /// Four bytes for each pixel, row by row: blue, green, red, alpha.
    pub frame_buffer: Vec<u8>,
    /// The rectangles that changed since the last frame.
    pub dirty_rects: Vec<DirtyRect>,
    /// Pixels to draw over the scene, by linear index.
    pub debug_overlay_pixels: HashMap<usize, Pixel>,
}

/// A part of the frame buffer to hand to the GPU: a rectangle and its bytes,
/// row by row.
pub struct Upload {
    pub rect: DirtyRect,
    pub data: Vec<u8>,
}

/// The buffer `buffer` with the pixel `index` set to `color`.
pub open spec fn with_pixel(buffer: Seq<u8>, index: int, color: Color) -> Seq<u8> {
    buffer.update(4 * index, color.b).update(4 * index + 1, color.g).update(
        4 * index + 2,
        color.r,
    ).update(4 * index + 3, color.a)
}

/// The buffer `buffer` with each of `particles` drawn at its linear index,
/// one after the other.
pub open spec fn drawn(buffer: Seq<u8>, particles: Seq<Particle>) -> Seq<u8>
    decreases particles.len(),
{
    if particles.len() == 0 {
        buffer
    } else {
        with_pixel(
            drawn(buffer, particles.drop_last()),
            particles.last().index as int,
            particles.last().color,
        )
    }
}

/// The one-pixel rectangle of the cell `index` in a canvas `width` wide.
pub open spec fn cell_rect(index: u32, width: int) -> DirtyRect {
    DirtyRect {
        min_x: (index as int % width) as u32,
        min_y: (index as int / width) as u32,
        max_x: (index as int % width + 1) as u32,
        max_y: (index as int / width + 1) as u32,
    }
}

/// The one-pixel rectangles of the cells of `particles`.
pub open spec fn cell_rects(particles: Seq<Particle>, width: int) -> Seq<DirtyRect> {
    particles.map_values(|p: Particle| cell_rect(p.index, width))
}

/// The bytes of the rows of `rect` from its first up to `until`, one row
/// after the other.
pub open spec fn rows_bytes(buffer: Seq<u8>, width: int, rect: DirtyRect, until: int) -> Seq<u8>
    decreases until - rect.min_y,
{
    if until <= rect.min_y {
        Seq::empty()
    } else {
        rows_bytes(buffer, width, rect, until - 1) + buffer.subrange(
            ((until - 1) * width + rect.min_x) * 4,
            ((until - 1) * width + rect.max_x) * 4,
        )
    }
}

/// The bytes of the pixels of `rect`, row by row.
pub open spec fn region_bytes(buffer: Seq<u8>, width: int, rect: DirtyRect) -> Seq<u8> {
    rows_bytes(buffer, width, rect, rect.max_y as int)
}

impl NativeRenderer {
    /// Compresses the rectangles gathered over a frame into one rectangle
    /// for each coarse tile that any of them touches: the smallest that holds
    /// the pieces of them that lie in the tile, cut to the canvas. The
    /// gathered rectangles are cleared.
    pub fn merge_dirty_rects(dirty_rects: &mut Vec<DirtyRect>, width: u32, height: u32) -> (merged:
        Vec<DirtyRect>)
        ensures
            final(dirty_rects)@.len() == 0,
            old(dirty_rects)@.len() == 0 ==> merged@.len() == 0,
            exists|tiles: Seq<(int, int)>|
                is_merge_of(merged@, tiles, old(dirty_rects)@, width, height),
    {
        broadcast use vstd::std_specs::hash::group_hash_axioms;

        let mut merged: Vec<DirtyRect> = Vec::new();
        let mut slots: HashMap<u64, usize> = HashMap::new();
        let ghost mut tiles: Seq<(int, int)> = Seq::empty();
        let ghost rects = dirty_rects@;
        assert(rects.take(0).len() == 0);
        let mut n: usize = 0;
        while n < dirty_rects.len()
            invariant
                dirty_rects@ == rects,
                rects == old(dirty_rects)@,
                n <= rects.len(),
                is_merge_of(merged@, tiles, rects.take(n as int), width, height),
                slots_find(slots@, tiles),
                n == 0 ==> merged@.len() == 0,
                rects.len() == 0 ==> merged@.len() == 0,
            decreases dirty_rects.len() - n,
        {
            let rect = dirty_rects[n];
            let start_cell_x: u32 = rect.min_x / COARSE_GRID_CELL_SIZE;
            let start_cell_y: u32 = rect.min_y / COARSE_GRID_CELL_SIZE;
            let end_cell_x: u32 = (if rect.max_x == 0 {
                0
            } else {
                rect.max_x - 1
            }) / COARSE_GRID_CELL_SIZE + 1;
            let end_cell_y: u32 = (if rect.max_y == 0 {
                0
            } else {
                rect.max_y - 1
            }) / COARSE_GRID_CELL_SIZE + 1;
            proof {
                lemma_gathered_start(merged@, tiles, rects, n as int, width, height);
            }
            if start_cell_x < end_cell_x && start_cell_y < end_cell_y {
                let mut cx: u32 = start_cell_x;
                while cx < end_cell_x
                    invariant
                        dirty_rects@ == rects,
                        n < rects.len(),
                        rect == rects[n as int],
                        start_cell_x == first_tile(rect.min_x),
                        start_cell_y == first_tile(rect.min_y),
                        end_cell_x == end_tile(rect.max_x),
                        end_cell_y == end_tile(rect.max_y),
                        start_cell_y < end_cell_y,
                        start_cell_x <= cx <= end_cell_x,
                        gathered(
                            merged@,
                            tiles,
                            rects,
                            n as int,
                            cx as int,
                            start_cell_y as int,
                            width,
                            height,
                        ),
                        slots_find(slots@, tiles),
                    decreases end_cell_x - cx,
                {
                    let mut cy: u32 = start_cell_y;
                    while cy < end_cell_y
                        invariant
                            dirty_rects@ == rects,
                            n < rects.len(),
                            rect == rects[n as int],
                            start_cell_x == first_tile(rect.min_x),
                            start_cell_y == first_tile(rect.min_y),
                            end_cell_x == end_tile(rect.max_x),
                            end_cell_y == end_tile(rect.max_y),
                            start_cell_x <= cx < end_cell_x,
                            start_cell_y <= cy <= end_cell_y,
                            gathered(
                                merged@,
                                tiles,
                                rects,
                                n as int,
                                cx as int,
                                cy as int,
                                width,
                                height,
                            ),
                            slots_find(slots@, tiles),
                        decreases end_cell_y - cy,
                    {
                        let key: u64 = (cx as u64) * 0x1_0000_0000 + cy as u64;
                        let part = Self::piece_of(&rect, cx, cy, width, height);
                        assert(key == key_of((cx as int, cy as int)));
                        assert(touches(rect, cx as int, cy as int));
                        let found: Option<usize> = match slots.get(&key) {
                            Some(at) => Some(*at),
                            None => None,
                        };
                        match found {
                            Some(at) => {
                                proof {
                                    assert(tiles[at as int] == (cx as int, cy as int));
                                    lemma_gathered_found(
                                        merged@,
                                        tiles,
                                        rects,
                                        n as int,
                                        cx as int,
                                        cy as int,
                                        at as int,
                                        width,
                                        height,
                                    );
                                }
                                let joined = Self::join_of(&merged[at], &part);
                                merged[at] = joined;
                            },
                            None => {
                                proof {
                                    if tiles.contains((cx as int, cy as int)) {
                                        let j = choose|j: int|
                                            0 <= j < tiles.len() && tiles[j] == (
                                                cx as int,
                                                cy as int,
                                            );
                                        assert(slots@.contains_key(key_of(tiles[j])));
                                    }
                                    lemma_gathered_new(
                                        merged@,
                                        tiles,
                                        rects,
                                        n as int,
                                        cx as int,
                                        cy as int,
                                        width,
                                        height,
                                    );
                                }
                                let ghost before = tiles;
                                slots.insert(key, merged.len());
                                merged.push(part);
                                proof {
                                    tiles = tiles.push((cx as int, cy as int));
                                    assert forall|i: int| 0 <= i < tiles.len() implies tile_in_range(
                                        #[trigger] tiles[i],
                                    ) && slots@.contains_key(key_of(tiles[i])) && slots@[key_of(
                                        tiles[i],
                                    )] == i by {
                                        if i < before.len() {
                                            assert(before[i] == tiles[i]);
                                            assert(before.contains(before[i]));
                                            assert(key_of(before[i]) != key);
                                        }
                                    }
                                    assert forall|k: u64| #[trigger]
                                        slots@.contains_key(k) implies slots@[k] < tiles.len()
                                        && key_of(tiles[slots@[k] as int]) == k by {
                                        if k != key {
                                            assert(before[slots@[k] as int] == tiles[slots@[k] as int]);
                                        }
                                    }
                                }
                            },
                        }
                        cy += 1;
                    }
                    proof {
                        lemma_gathered_same(
                            merged@,
                            tiles,
                            rects,
                            n as int,
                            cx as int,
                            end_cell_y as int,
                            cx + 1,
                            start_cell_y as int,
                            width,
                            height,
                        );
                    }
                    cx += 1;
                }
            } else {
                proof {
                    lemma_gathered_same(
                        merged@,
                        tiles,
                        rects,
                        n as int,
                        start_cell_x as int,
                        start_cell_y as int,
                        end_cell_x as int,
                        start_cell_y as int,
                        width,
                        height,
                    );
                }
            }
            proof {
                lemma_gathered_end(merged@, tiles, rects, n as int, start_cell_y as int, width, height);
            }
            n += 1;
        }
        assert(rects.take(n as int) =~= rects);
        dirty_rects.clear();
        merged
    }

    /// The part of `rect` that lies in the tile `(cx, cy)` and on the canvas.
    fn piece_of(rect: &DirtyRect, cx: u32, cy: u32, width: u32, height: u32) -> (part: DirtyRect)
        requires
            cx < 0x800_0000,
            cy < 0x800_0000,
        ensures
            part == piece(*rect, cx as int, cy as int, width, height),
    {
        let size: u64 = COARSE_GRID_CELL_SIZE as u64;
        let cell_min_x: u64 = cx as u64 * size;
        let cell_min_y: u64 = cy as u64 * size;
        let cell_max_x: u64 = (cx as u64 + 1) * size;
        let cell_max_y: u64 = (cy as u64 + 1) * size;
        let min_x: u64 = if rect.min_x as u64 >= cell_min_x {
            rect.min_x as u64
        } else {
            cell_min_x
        };
        let min_y: u64 = if rect.min_y as u64 >= cell_min_y {
            rect.min_y as u64
        } else {
            cell_min_y
        };
        let cut_x: u64 = if rect.max_x as u64 <= cell_max_x {
            rect.max_x as u64
        } else {
            cell_max_x
        };
        let cut_y: u64 = if rect.max_y as u64 <= cell_max_y {
            rect.max_y as u64
        } else {
            cell_max_y
        };
        let max_x: u64 = if cut_x <= width as u64 {
            cut_x
        } else {
            width as u64
        };
        let max_y: u64 = if cut_y <= height as u64 {
            cut_y
        } else {
            height as u64
        };
        DirtyRect { min_x: min_x as u32, min_y: min_y as u32, max_x: max_x as u32, max_y: max_y as u32 }
    }

    /// The smallest rectangle that holds both `a` and `b`.
    fn join_of(a: &DirtyRect, b: &DirtyRect) -> (both: DirtyRect)
        ensures
            both == join(*a, *b),
    {
        DirtyRect {
            min_x: if a.min_x <= b.min_x {
                a.min_x
            } else {
                b.min_x
            },
            min_y: if a.min_y <= b.min_y {
                a.min_y
            } else {
                b.min_y
            },
            max_x: if a.max_x >= b.max_x {
                a.max_x
            } else {
                b.max_x
            },
            max_y: if a.max_y >= b.max_y {
                a.max_y
            } else {
                b.max_y
            },
        }
    }
}

/// The tiles that at least one of `rects` touches.
pub open spec fn touched_tiles(rects: Seq<DirtyRect>, width: u32, height: u32) -> Set<(int, int)> {
    Set::new(|t: (int, int)| tile_bounds(rects, t.0, t.1, width, height) is Some)
}

/// A tile has bounds exactly when a rectangle touches it, and its bounds
/// hold the piece of every rectangle that does.
pub proof fn lemma_tile_bounds_hold(
    rects: Seq<DirtyRect>,
    cx: int,
    cy: int,
    width: u32,
    height: u32,
)
    ensures
        tile_bounds(rects, cx, cy, width, height) is Some <==> exists|n: int|
            0 <= n < rects.len() && touches(#[trigger] rects[n], cx, cy),
        forall|n: int|
            0 <= n < rects.len() && touches(#[trigger] rects[n], cx, cy) ==> {
                let bounds = tile_bounds(rects, cx, cy, width, height)->0;
                let part = piece(rects[n], cx, cy, width, height);
                &&& bounds.min_x <= part.min_x
                &&& bounds.min_y <= part.min_y
                &&& bounds.max_x >= part.max_x
                &&& bounds.max_y >= part.max_y
            },
    decreases rects.len(),
{
    if rects.len() > 0 {
        let rest = rects.drop_last();
        lemma_tile_bounds_hold(rest, cx, cy, width, height);
        if tile_bounds(rects, cx, cy, width, height) is Some {
            if touches(rects.last(), cx, cy) {
                assert(touches(rects[rects.len() - 1], cx, cy));
            } else {
                let n = choose|n: int| 0 <= n < rest.len() && touches(#[trigger] rest[n], cx, cy);
                assert(touches(rects[n], cx, cy));
            }
        }
        assert forall|n: int| 0 <= n < rects.len() && touches(#[trigger] rects[n], cx, cy) implies {
            let bounds = tile_bounds(rects, cx, cy, width, height)->0;
            let part = piece(rects[n], cx, cy, width, height);
            &&& tile_bounds(rects, cx, cy, width, height) is Some
            &&& bounds.min_x <= part.min_x
            &&& bounds.min_y <= part.min_y
            &&& bounds.max_x >= part.max_x
            &&& bounds.max_y >= part.max_y
        } by {
            if n < rest.len() {
                assert(touches(rest[n], cx, cy));
            }
        }
    }
}

/// The merged rectangles cover the gathered ones: a pixel of a gathered
/// rectangle that is not empty and lies on the canvas is a pixel of a merged
/// rectangle.
pub proof fn lemma_merge_covers(
    merged: Seq<DirtyRect>,
    tiles: Seq<(int, int)>,
    rects: Seq<DirtyRect>,
    width: u32,
    height: u32,
    n: int,
    px: int,
    py: int,
)
    requires
        is_merge_of(merged, tiles, rects, width, height),
        0 <= n < rects.len(),
        on_canvas(rects[n], width, height),
        holds_pixel(rects[n], px, py),
    ensures
        exists|i: int| 0 <= i < merged.len() && holds_pixel(#[trigger] merged[i], px, py),
{
    let size = COARSE_GRID_CELL_SIZE as int;
    let cx = px / size;
    let cy = py / size;
    assert(touches(rects[n], cx, cy));
    lemma_tile_bounds_hold(rects, cx, cy, width, height);
    assert(tile_bounds(rects, cx, cy, width, height) is Some);
    assert(tiles.contains((cx, cy)));
    let i = choose|i: int| 0 <= i < tiles.len() && tiles[i] == (cx, cy);
    assert(tile_bounds(rects, tiles[i].0, tiles[i].1, width, height) == Some(merged[i]));
    assert(holds_pixel(merged[i], px, py));
}

/// There are as many merged rectangles as there are tiles that a gathered
/// rectangle touches.
pub proof fn lemma_merge_count(
    merged: Seq<DirtyRect>,
    tiles: Seq<(int, int)>,
    rects: Seq<DirtyRect>,
    width: u32,
    height: u32,
)
    requires
        is_merge_of(merged, tiles, rects, width, height),
    ensures
        touched_tiles(rects, width, height).finite(),
        merged.len() == touched_tiles(rects, width, height).len(),
{
    assert(tiles.to_set() =~= touched_tiles(rects, width, height)) by {
        assert forall|t: (int, int)| tiles.to_set().contains(t) <==> touched_tiles(
            rects,
            width,
            height,
        ).contains(t) by {
            if tiles.contains(t) {
                let i = choose|i: int| 0 <= i < tiles.len() && tiles[i] == t;
                assert(tile_bounds(rects, tiles[i].0, tiles[i].1, width, height) is Some);
            }
            if tile_bounds(rects, t.0, t.1, width, height) is Some {
                assert(tiles.contains((t.0, t.1)));
            }
        }
    }
    tiles.unique_seq_to_set();
    vstd::seq_lib::seq_to_set_is_finite(tiles);
}

/// The overlay `overlay` with each of `pixels` put at its index, one after
/// the other.
pub open spec fn overlaid(overlay: Map<usize, Pixel>, pixels: Seq<Pixel>) -> Map<usize, Pixel>
    decreases pixels.len(),
{
    if pixels.len() == 0 {
        overlay
    } else {
        overlaid(overlay, pixels.drop_last()).insert(pixels.last().index, pixels.last())
    }
}

/// Whether `r` has at least one pixel.
pub open spec fn has_pixels(r: DirtyRect) -> bool {
    r.min_x < r.max_x && r.min_y < r.max_y
}

/// Whether `uploads` are the rectangles of `merged` that have pixels, in
/// their order, each with its bytes of `buffer`.
pub open spec fn uploads_of(
    uploads: Seq<Upload>,
    merged: Seq<DirtyRect>,
    buffer: Seq<u8>,
    width: int,
) -> bool {
    &&& uploads.map_values(|u: Upload| u.rect) == merged.filter(|r: DirtyRect| has_pixels(r))
    &&& forall|i: int|
        0 <= i < uploads.len() ==> (#[trigger] uploads[i]).data@ == region_bytes(
            buffer,
            width,
            uploads[i].rect,
        )
}

/// The bounds of a tile do not reach beyond the canvas.
pub proof fn lemma_bounds_on_canvas(
    rects: Seq<DirtyRect>,
    cx: int,
    cy: int,
    width: u32,
    height: u32,
)
    ensures
        tile_bounds(rects, cx, cy, width, height) matches Some(b) ==> b.max_x <= width && b.max_y
            <= height,
    decreases rects.len(),
{
    if rects.len() > 0 {
        lemma_bounds_on_canvas(rects.drop_last(), cx, cy, width, height);
    }
}

impl NativeRenderer {
    /// Whether the frame buffer has four bytes for each pixel of the canvas.
    pub open spec fn wf(&self) -> bool {
        &&& self.width <= u32::MAX
        &&& self.height <= u32::MAX
        &&& self.frame_buffer@.len() == self.width * self.height * 4
    }

    /// Whether every particle of a batch lies on the canvas.
    pub open spec fn takes(&self, particles: Seq<Particle>) -> bool {
        forall|i: int|
            0 <= i < particles.len() ==> ((#[trigger] particles[i]).index as int) < self.width
                * self.height
    }

    /// A renderer for a canvas of the given size, all transparent black and
    /// with nothing to upload.
    pub fn new(width: usize, height: usize) -> (renderer: NativeRenderer)
        requires
            width <= u32::MAX,
            height <= u32::MAX,
            width * height * 4 <= usize::MAX,
        ensures
            renderer.wf(),
            renderer.width == width,
            renderer.height == height,
            forall|i: int| 0 <= i < renderer.frame_buffer@.len() ==> renderer.frame_buffer@[i] == 0,
            renderer.dirty_rects@.len() == 0,
            renderer.debug_overlay_pixels@ == Map::<usize, Pixel>::empty(),
    {
        assert(width * height <= width * height * 4) by (nonlinear_arith)
            requires
                0 <= width,
                0 <= height,
        ;
        let bytes: usize = width * height * 4;
        let mut frame_buffer: Vec<u8> = Vec::with_capacity(bytes);
        let mut i: usize = 0;
        while i < bytes
            invariant
                i <= bytes,
                frame_buffer@.len() == i,
                forall|j: int| 0 <= j < i ==> frame_buffer@[j] == 0,
            decreases bytes - i,
        {
            frame_buffer.push(0);
            i += 1;
        }
        NativeRenderer {
            width: width,
            height: height,
            frame_buffer: frame_buffer,
            dirty_rects: Vec::new(),
            debug_overlay_pixels: HashMap::new(),
        }
    }

    /// Draws a batch of particles into the frame buffer, each at its linear
    /// index, and notes the pixel of each as changed.
    pub fn queue_particles(&mut self, particles_to_queue: &[Particle])
        requires
            old(self).wf(),
            old(self).takes(particles_to_queue@),
        ensures
            final(self).wf(),
            final(self).width == old(self).width,
            final(self).height == old(self).height,
            final(self).debug_overlay_pixels == old(self).debug_overlay_pixels,
            final(self).frame_buffer@ == drawn(old(self).frame_buffer@, particles_to_queue@),
            final(self).dirty_rects@ == old(self).dirty_rects@ + cell_rects(
                particles_to_queue@,
                old(self).width as int,
            ),
    {
        let ghost w = self.width as int;
        let ghost h = self.height as int;
        let width: u32 = self.width as u32;
        let mut n: usize = 0;
        assert(particles_to_queue@.take(0) =~= Seq::<Particle>::empty());
        assert(old(self).dirty_rects@ + cell_rects(particles_to_queue@.take(0), w) =~= old(
            self,
        ).dirty_rects@);
        while n < particles_to_queue.len()
            invariant
                n <= particles_to_queue@.len(),
                old(self).wf(),
                old(self).takes(particles_to_queue@),
                w == old(self).width,
                h == old(self).height,
                width == w,
                self.width == old(self).width,
                self.height == old(self).height,
                self.debug_overlay_pixels == old(self).debug_overlay_pixels,
                self.frame_buffer@.len() == old(self).frame_buffer@.len(),
                self.frame_buffer@ == drawn(
                    old(self).frame_buffer@,
                    particles_to_queue@.take(n as int),
                ),
                self.dirty_rects@ == old(self).dirty_rects@ + cell_rects(
                    particles_to_queue@.take(n as int),
                    w,
                ),
            decreases particles_to_queue.len() - n,
        {
            let index: u32 = particles_to_queue[n].index;
            let final_color: Color = particles_to_queue[n].color;
            proof {
                assert((index as int) < w * h);
                assert(w > 0 && index as int / w < h && index as int % w < w) by {
                    assert(w > 0) by (nonlinear_arith)
                        requires
                            0 <= w,
                            0 <= index < w * h,
                    ;
                    crate::grid::lemma_index_cell(w, h, index as int);
                }
                assert(particles_to_queue@.take(n + 1).drop_last() =~= particles_to_queue@.take(
                    n as int,
                ));
                assert(cell_rects(particles_to_queue@.take(n + 1), w) =~= cell_rects(
                    particles_to_queue@.take(n as int),
                    w,
                ).push(cell_rect(index, w)));
            }
            let bytes: usize = self.frame_buffer.len();
            assert(index * 4 + 3 < bytes) by (nonlinear_arith)
                requires
                    0 <= index < w * h,
                    bytes == w * h * 4,
            ;
            let offset: usize = index as usize * 4;
            self.frame_buffer[offset] = final_color.b;
            self.frame_buffer[offset + 1] = final_color.g;
            self.frame_buffer[offset + 2] = final_color.r;
            self.frame_buffer[offset + 3] = final_color.a;
            let x: u32 = index % width;
            let y: u32 = index / width;
            self.dirty_rects.push(DirtyRect { min_x: x, min_y: y, max_x: x + 1, max_y: y + 1 });
            n += 1;
        }
        assert(particles_to_queue@.take(n as int) =~= particles_to_queue@);
    }

    /// Puts pixels on the overlay, each at its index; a later pixel replaces
    /// an earlier one at the same index.
    pub fn queue_debug_overlay_pixels(&mut self, pixels_to_queue: Vec<Pixel>)
        ensures
            final(self).width == old(self).width,
            final(self).height == old(self).height,
            final(self).frame_buffer == old(self).frame_buffer,
            final(self).dirty_rects == old(self).dirty_rects,
            final(self).debug_overlay_pixels@ == overlaid(
                old(self).debug_overlay_pixels@,
                pixels_to_queue@,
            ),
    {
        broadcast use vstd::std_specs::hash::group_hash_axioms;

        let mut n: usize = 0;
        assert(pixels_to_queue@.take(0) =~= Seq::<Pixel>::empty());
        while n < pixels_to_queue.len()
            invariant
                n <= pixels_to_queue@.len(),
                self.width == old(self).width,
                self.height == old(self).height,
                self.frame_buffer == old(self).frame_buffer,
                self.dirty_rects == old(self).dirty_rects,
                self.debug_overlay_pixels@ == overlaid(
                    old(self).debug_overlay_pixels@,
                    pixels_to_queue@.take(n as int),
                ),
            decreases pixels_to_queue.len() - n,
        {
            let pixel = &pixels_to_queue[n];
            assert(pixels_to_queue@.take(n + 1).drop_last() =~= pixels_to_queue@.take(n as int));
            self.debug_overlay_pixels.insert(
                pixel.index,
                Pixel { r: pixel.r, g: pixel.g, b: pixel.b, a: pixel.a, index: pixel.index },
            );
            n += 1;
        }
        assert(pixels_to_queue@.take(n as int) =~= pixels_to_queue@);
    }

    /// The bytes of the pixels of `rect`, row by row.
    pub fn region_of(&self, rect: &DirtyRect) -> (data: Vec<u8>)
        requires
            self.wf(),
            on_canvas(*rect, self.width as u32, self.height as u32),
        ensures
            data@ == region_bytes(self.frame_buffer@, self.width as int, *rect),
    {
        let ghost w = self.width as int;
        let ghost h = self.height as int;
        let mut data: Vec<u8> = Vec::new();
        let mut y: usize = rect.min_y as usize;
        while y < rect.max_y as usize
            invariant
                self.wf(),
                on_canvas(*rect, self.width as u32, self.height as u32),
                w == self.width,
                h == self.height,
                rect.min_y <= y <= rect.max_y,
                data@ == rows_bytes(self.frame_buffer@, w, *rect, y as int),
            decreases rect.max_y - y,
        {
            assert(y * w + rect.max_x <= w * h) by (nonlinear_arith)
                requires
                    0 <= y < h,
                    0 <= rect.max_x <= w,
            ;
            assert(0 <= y * w) by (nonlinear_arith)
                requires
                    0 <= y,
                    0 <= w,
            ;
            let bytes: usize = self.frame_buffer.len();
            assert((y * w + rect.max_x) * 4 <= bytes) by (nonlinear_arith)
                requires
                    y * w + rect.max_x <= w * h,
                    bytes == w * h * 4,
            ;
            let row: usize = y * self.width;
            let from: usize = (row + rect.min_x as usize) * 4;
            let to: usize = (row + rect.max_x as usize) * 4;
            let ghost before = data@;
            let mut at: usize = from;
            while at < to
                invariant
                    from <= at <= to <= self.frame_buffer@.len(),
                    data@ == before + self.frame_buffer@.subrange(from as int, at as int),
                decreases to - at,
            {
                data.push(self.frame_buffer[at]);
                at += 1;
                assert(self.frame_buffer@.subrange(from as int, at as int)
                    =~= self.frame_buffer@.subrange(from as int, at - 1).push(
                    self.frame_buffer@[at - 1],
                ));
                assert(data@ =~= before + self.frame_buffer@.subrange(from as int, at as int));
            }
            y += 1;
        }
        data
    }

    /// What a frame has to hand to the GPU: the rectangles gathered since
    /// the last frame, merged tile by tile, each that has pixels with its
    /// bytes. The gathered rectangles are cleared.
    pub fn frame_uploads(&mut self) -> (uploads: Vec<Upload>)
        requires
            old(self).wf(),
        ensures
            final(self).wf(),
            final(self).width == old(self).width,
            final(self).height == old(self).height,
            final(self).frame_buffer == old(self).frame_buffer,
            final(self).debug_overlay_pixels == old(self).debug_overlay_pixels,
            final(self).dirty_rects@.len() == 0,
            exists|merged: Seq<DirtyRect>, tiles: Seq<(int, int)>|
                #![trigger is_merge_of(merged, tiles, old(self).dirty_rects@, old(self).width as u32, old(self).height as u32)]
                is_merge_of(
                    merged,
                    tiles,
                    old(self).dirty_rects@,
                    old(self).width as u32,
                    old(self).height as u32,
                ) && uploads_of(uploads@, merged, old(self).frame_buffer@, old(self).width as int),
    {
        let width: u32 = self.width as u32;
        let height: u32 = self.height as u32;
        let merged: Vec<DirtyRect> = Self::merge_dirty_rects(&mut self.dirty_rects, width, height);
        let ghost tiles = choose|tiles: Seq<(int, int)>|
            is_merge_of(merged@, tiles, old(self).dirty_rects@, width, height);
        let ghost keep = |r: DirtyRect| has_pixels(r);
        let ghost rect_of = |u: Upload| u.rect;
        let mut uploads: Vec<Upload> = Vec::new();
        let mut n: usize = 0;
        assert(merged@.take(0) =~= Seq::<DirtyRect>::empty());
        assert(uploads@.map_values(rect_of) =~= merged@.take(0).filter(keep)) by {
            reveal(Seq::filter);
        }
        while n < merged.len()
            invariant
                n <= merged@.len(),
                self.wf(),
                self.width == old(self).width,
                self.height == old(self).height,
                width == self.width,
                height == self.height,
                self.frame_buffer == old(self).frame_buffer,
                self.debug_overlay_pixels == old(self).debug_overlay_pixels,
                self.dirty_rects@.len() == 0,
                is_merge_of(merged@, tiles, old(self).dirty_rects@, width, height),
                keep == |r: DirtyRect| has_pixels(r),
                rect_of == |u: Upload| u.rect,
                uploads@.map_values(rect_of) == merged@.take(n as int).filter(keep),
                forall|i: int|
                    0 <= i < uploads@.len() ==> (#[trigger] uploads@[i]).data@ == region_bytes(
                        self.frame_buffer@,
                        self.width as int,
                        uploads@[i].rect,
                    ),
            decreases merged.len() - n,
        {
            let rect: DirtyRect = merged[n];
            proof {
                merged@.take(n as int).lemma_filter_push(rect, keep);
                assert(merged@.take(n + 1) =~= merged@.take(n as int).push(rect));
                lemma_bounds_on_canvas(
                    old(self).dirty_rects@,
                    tiles[n as int].0,
                    tiles[n as int].1,
                    width,
                    height,
                );
            }
            if rect.min_x < rect.max_x && rect.min_y < rect.max_y {
                let ghost before = uploads@;
                let data: Vec<u8> = self.region_of(&rect);
                uploads.push(Upload { rect: rect, data: data });
                assert(uploads@.map_values(rect_of) =~= before.map_values(rect_of).push(rect));
            }
            n += 1;
        }
        assert(merged@.take(n as int) =~= merged@);
        uploads
    }
}

} // verus!
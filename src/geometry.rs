//! Tile coordinates, fixed-point world positions and the maps between them.
use vstd::prelude::*;

verus! {

/// A grid cell, `(column, row)`.
pub type Tile = (u32, u32);

/// Number of fixed-point steps in one world unit.
///
/// A world coordinate is stored as an integer count of `1 / SUBDIVISIONS`
/// world units, so a tile's corner and its centre are both exact.
pub const SUBDIVISIONS: i64 = 2;

/// A point in world space, where tile `(x, y)` covers `[x, x + 1) × [y, y + 1)`.
/// Each component counts steps of `1 / SUBDIVISIONS` world units.
#[derive(Clone, Copy, Debug, PartialEq, Eq, Structural)]
pub struct WorldPos {
    pub x: i64,
    pub y: i64,
}

/// Manhattan distance between two tiles.
pub open spec fn manhattan(a: Tile, b: Tile) -> nat {
    (if a.0 >= b.0 { a.0 - b.0 } else { b.0 - a.0 }) as nat
        + (if a.1 >= b.1 { a.1 - b.1 } else { b.1 - a.1 }) as nat
}

/// Fixed-point coordinate of the centre of the cell with index `c`.
pub open spec fn center_coord(c: u32) -> i64 {
    (c * SUBDIVISIONS + SUBDIVISIONS / 2) as i64
}

/// The centre of a tile, `(x + 0.5, y + 0.5)` in world units.
pub open spec fn center_spec(t: Tile) -> WorldPos {
    WorldPos { x: center_coord(t.0), y: center_coord(t.1) }
}

/// The cell index holding the fixed-point coordinate `v`: its floor in world
/// units, clamped into the range of `u32`.
pub open spec fn floor_coord(v: i64) -> u32 {
    if v < 0 {
        0
    } else if v / SUBDIVISIONS > u32::MAX {
        u32::MAX
    } else {
        (v / SUBDIVISIONS) as u32
    }
}

/// The tile that holds a world position.
pub open spec fn world_to_tile_spec(p: WorldPos) -> Tile {
    (floor_coord(p.x), floor_coord(p.y))
}

/// Returns the centre of `pos` in world space.
pub fn tile_to_center(pos: Tile) -> (r: WorldPos)
    ensures
        r == center_spec(pos),
{
    let (x, y) = pos;
    WorldPos {
        x: x as i64 * SUBDIVISIONS + SUBDIVISIONS / 2,
        y: y as i64 * SUBDIVISIONS + SUBDIVISIONS / 2,
    }
}

/// Manhattan distance between two tiles; never overflows.
pub fn dist(a: Tile, b: Tile) -> (r: u64)
    ensures
        r == manhattan(a, b),
{
    let dx: u32 = if a.0 >= b.0 { a.0 - b.0 } else { b.0 - a.0 };
    let dy: u32 = if a.1 >= b.1 { a.1 - b.1 } else { b.1 - a.1 };
    dx as u64 + dy as u64
}

fn coord_to_cell(v: i64) -> (r: u32)
    ensures
        r == floor_coord(v),
{
    if v < 0 {
        0
    } else if v / SUBDIVISIONS > u32::MAX as i64 {
        u32::MAX
    } else {
        (v / SUBDIVISIONS) as u32
    }
}

/// The tile holding `p`: each component floored, and clamped to be
/// non-negative.
pub fn world_to_tile(p: WorldPos) -> (r: Tile)
    ensures
        r == world_to_tile_spec(p),
{
    (coord_to_cell(p.x), coord_to_cell(p.y))
}

/// Mapping a tile to its centre and back gives the tile again.
pub proof fn lemma_center_round_trip(t: Tile)
    ensures
        world_to_tile_spec(center_spec(t)) == t,
{
}

} // verus!

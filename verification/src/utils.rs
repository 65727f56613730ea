//! Index arithmetic on cubes of cells.

use vstd::prelude::*;
use crate::chunk::{is_offset, offset_at, offset_place, offsets_upto, ChunksRefs};
use crate::coord::Coord;

verus! {

/// How many generation tasks a wide budget allows.
pub const CHUNK_TASKS: usize = 8;

/// How many meshing tasks a wide budget allows.
pub const MESH_TASKS: usize = 4;

/// The chunk coordinates of the neighbourhood of `pos`, in neighbourhood
/// order. A neighbour beyond the coordinate range is left out.
pub fn near_chunks(pos: Coord) -> (v: Vec<Coord>)
    ensures
        v@ == offsets_upto(pos, 7),
{
    ChunksRefs::offsets(pos)
}

/// The place of `pos` among the neighbourhood offsets, or `None` where
/// `pos` is none of them.
pub fn index_from_offset(pos: Coord) -> (r: Option<usize>)
    ensures
        r is Some <==> is_offset(pos),
        r is Some ==> r->0 < 7 && offset_at(r->0 as int) == pos && r->0 == offset_place(pos),
{
    ChunksRefs::offset_index(pos)
}

/// The index of the cell at `pos` in a cube with `bounds` cells along each
/// edge: `x` varies fastest, `z` slowest.
pub open spec fn index_in(pos: Coord, bounds: int) -> int {
    pos.x + pos.y * bounds + pos.z * bounds * bounds
}

/// The cell with index `i` in a cube with `bounds` cells along each edge.
pub open spec fn cell_in(i: int, bounds: int) -> (int, int, int) {
    (i % bounds, i / bounds % bounds, i / (bounds * bounds))
}

/// Whether every component of `pos` lies in `0..bounds`.
pub open spec fn within(pos: Coord, bounds: int) -> bool {
    &&& 0 <= pos.x < bounds
    &&& 0 <= pos.y < bounds
    &&& 0 <= pos.z < bounds
}

/// The index of the cell at `pos` in a cube with `bounds` cells along each
/// edge.
pub fn vec3_to_index(pos: Coord, bounds: i32) -> (i: usize)
    requires
        0 < bounds <= 1024,
        within(pos, bounds as int),
    ensures
        i == index_in(pos, bounds as int),
        i < bounds * bounds * bounds,
{
    let b = bounds as usize;
    let x = pos.x as usize;
    let y = pos.y as usize;
    let z = pos.z as usize;
    assert(y * b <= 1023 * 1024 && b * b <= 1024 * 1024) by (nonlinear_arith)
        requires
            y < b,
            b <= 1024,
    ;
    assert(z * (b * b) <= 1023 * (1024 * 1024)) by (nonlinear_arith)
        requires
            z < b,
            b <= 1024,
            b * b <= 1024 * 1024,
    ;
    assert(z * (b * b) == z * b * b) by (nonlinear_arith);
    assert(x + y * b + z * b * b < b * b * b) by (nonlinear_arith)
        requires
            x < b,
            y < b,
            z < b,
    ;
    x + y * b + z * (b * b)
}

/// The cell with index `i` in a chunk.
pub fn index_to_ivec3(i: usize) -> (c: Coord)
    requires
        i < 32768,
    ensures
        (c.x as int, c.y as int, c.z as int) == cell_in(i as int, 32),
        within(c, 32),
{
    index_to_ivec3_bounds(i, 32)
}

/// The cell with index `i` in a cube with `bounds` cells along each edge.
pub fn index_to_ivec3_bounds(i: usize, bounds: usize) -> (c: Coord)
    requires
        0 < bounds <= 1024,
        i < bounds * bounds * bounds,
    ensures
        (c.x as int, c.y as int, c.z as int) == cell_in(i as int, bounds as int),
        within(c, bounds as int),
{
    assert(bounds * bounds <= 1024 * 1024 && bounds * bounds > 0) by (nonlinear_arith)
        requires
            0 < bounds <= 1024,
    ;
    let square = bounds * bounds;
    let x = i % bounds;
    let y = (i / bounds) % bounds;
    let z = i / square;
    assert(z < bounds) by (nonlinear_arith)
        requires
            z == i / square,
            square == bounds * bounds,
            square > 0,
            i < bounds * bounds * bounds,
    ;
    Coord { x: x as i32, y: y as i32, z: z as i32 }
}

/// The chunk coordinate of the chunk that holds world block position
/// `global`.
pub fn get_chunk_pos(global: Coord) -> (c: Coord)
    ensures
        c == global.chunk_of(),
{
    global.to_chunk()
}

/// Index and cell correspond one to one: the cell of an index has that
/// index, and the index of a cell leads back to the cell.
pub proof fn lemma_index_round_trip(pos: Coord, bounds: int)
    requires
        0 < bounds,
        within(pos, bounds),
    ensures
        0 <= index_in(pos, bounds) < bounds * bounds * bounds,
        cell_in(index_in(pos, bounds), bounds) == (pos.x as int, pos.y as int, pos.z as int),
{
    let b = bounds;
    let x = pos.x as int;
    let y = pos.y as int;
    let z = pos.z as int;
    let i = index_in(pos, bounds);
    assert(i == x + b * (y + b * z)) by (nonlinear_arith)
        requires
            i == x + y * b + z * b * b,
    ;
    vstd::arithmetic::div_mod::lemma_fundamental_div_mod_converse(i, b, y + b * z, x);
    vstd::arithmetic::div_mod::lemma_fundamental_div_mod_converse(y + b * z, b, z, y);
    assert(b * b > 0) by (nonlinear_arith)
        requires
            b > 0,
    ;
    vstd::arithmetic::div_mod::lemma_div_denominator(i, b, b);
    assert(i < b * b * b) by (nonlinear_arith)
        requires
            i == x + b * (y + b * z),
            0 <= x < b,
            0 <= y < b,
            0 <= z < b,
    ;
    assert(0 <= i) by (nonlinear_arith)
        requires
            i == x + b * (y + b * z),
            0 <= x < b,
            0 <= y < b,
            0 <= z < b,
    ;
}

} // verus!

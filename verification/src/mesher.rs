//! Face directions, packed vertices and the quads of a chunk mesh.

use vstd::prelude::*;
use vstd::multiset::Multiset;
use crate::blocks::{meshable_in, BlocksHandler, Model};
use crate::chunk::{in_reach, lemma_reach_of_step, offset_at, ChunksRefs, Neighbourhood};
use crate::coord::Coord;
use crate::greedy::{
    all_inside, any_set, covered, disjoint, greedy, greedy_quads, grid_of, grid_wf,
    lemma_greedy_empty, lemma_greedy_exact_cover, plane_mask, Grid, Quad,
};

verus! {

/// The six directions in which a block face can point. A direction is also
/// the outward normal of its faces.
#[derive(Debug, Clone, Copy, PartialEq, Eq, Structural)]
pub enum Direction {
    Left,
    Right,
    Down,
    Up,
    Back,
    Forward,
}

impl Direction {
    /// The point at (`row`, `column`) on the faces of this direction of slab
    /// `axis`. The faces lie on the side of the slab to which the direction
    /// points: one further along the axis for the directions that point up
    /// the axis.
    pub open spec fn sample(self, axis: int, row: int, column: int) -> (int, int, int) {
        match self {
            Direction::Up => (row, axis + 1, column),
            Direction::Down => (row, axis, column),
            Direction::Left => (axis, column, row),
            Direction::Right => (axis + 1, column, row),
            Direction::Forward => (row, column, axis),
            Direction::Back => (row, column, axis + 1),
        }
    }

    /// The step from a block to the block across a face of this direction.
    pub open spec fn air(self) -> Coord {
        match self {
            Direction::Up => Coord { x: 0, y: 1, z: 0 },
            Direction::Down => Coord { x: 0, y: -1i32, z: 0 },
            Direction::Left => Coord { x: -1i32, y: 0, z: 0 },
            Direction::Right => Coord { x: 1, y: 0, z: 0 },
            Direction::Forward => Coord { x: 0, y: 0, z: -1i32 },
            Direction::Back => Coord { x: 0, y: 0, z: 1 },
        }
    }

    /// How far the faces of this direction lie from the cells of their slab
    /// along the axis: 1 for the directions that point up the axis.
    pub open spec fn shift(self) -> int {
        match self {
            Direction::Up => 1,
            Direction::Down => 0,
            Direction::Left => 0,
            Direction::Right => 1,
            Direction::Forward => 0,
            Direction::Back => 1,
        }
    }

    /// Whether the corners of a face of this direction are emitted in
    /// reverse, so that the face winds around its outward normal.
    pub open spec fn reversed(self) -> bool {
        match self {
            Direction::Up => true,
            Direction::Down => false,
            Direction::Left => false,
            Direction::Right => true,
            Direction::Forward => true,
            Direction::Back => false,
        }
    }

    /// The number that stands for this direction in a packed vertex.
    pub open spec fn code(self) -> int {
        match self {
            Direction::Up => 0,
            Direction::Left => 1,
            Direction::Right => 2,
            Direction::Forward => 3,
            Direction::Back => 4,
            Direction::Down => 5,
        }
    }

    /// The six directions in the order in which a mesh is built.
    pub open spec fn order() -> Seq<Direction> {
        seq![
            Direction::Left,
            Direction::Right,
            Direction::Down,
            Direction::Up,
            Direction::Back,
            Direction::Forward,
        ]
    }

    /// The six directions in the order in which a mesh is built.
    pub fn all() -> (d: [Direction; 6])
        ensures
            d@ == Self::order(),
    {
        [
            Direction::Left,
            Direction::Right,
            Direction::Down,
            Direction::Up,
            Direction::Back,
            Direction::Forward,
        ]
    }

    /// The point at (`row`, `column`) on the faces of this direction of slab
    /// `axis`, relative to the chunk.
    pub fn world_sample(&self, axis: i32, row: i32, column: i32) -> (p: Coord)
        requires
            axis < i32::MAX,
        ensures
            (p.x as int, p.y as int, p.z as int) == self.sample(axis as int, row as int, column as int),
    {
        match self {
            Direction::Up => Coord { x: row, y: axis + 1, z: column },
            Direction::Down => Coord { x: row, y: axis, z: column },
            Direction::Left => Coord { x: axis, y: column, z: row },
            Direction::Right => Coord { x: axis + 1, y: column, z: row },
            Direction::Forward => Coord { x: row, y: column, z: axis },
            Direction::Back => Coord { x: row, y: column, z: axis + 1 },
        }
    }

    /// The step from a block to the block across a face of this direction.
    pub fn air_sample(&self) -> (p: Coord)
        ensures
            p == self.air(),
    {
        match self {
            Direction::Up => Coord { x: 0, y: 1, z: 0 },
            Direction::Down => Coord { x: 0, y: -1, z: 0 },
            Direction::Left => Coord { x: -1, y: 0, z: 0 },
            Direction::Right => Coord { x: 1, y: 0, z: 0 },
            Direction::Forward => Coord { x: 0, y: 0, z: -1 },
            Direction::Back => Coord { x: 0, y: 0, z: 1 },
        }
    }

    /// How far the faces of this direction lie from the cells of their slab
    /// along the axis.
    pub fn negate_axis(&self) -> (n: i32)
        ensures
            n == self.shift(),
    {
        match self {
            Direction::Up => 1,
            Direction::Down => 0,
            Direction::Left => 0,
            Direction::Right => 1,
            Direction::Forward => 0,
            Direction::Back => 1,
        }
    }

    /// Whether the corners of a face of this direction are emitted in
    /// reverse.
    pub fn reverse_order(&self) -> (b: bool)
        ensures
            b == self.reversed(),
    {
        match self {
            Direction::Up => true,
            Direction::Down => false,
            Direction::Left => false,
            Direction::Right => true,
            Direction::Forward => true,
            Direction::Back => false,
        }
    }

    /// The number that stands for this direction in a packed vertex.
    pub fn to_u32(&self) -> (n: u32)
        ensures
            n == self.code(),
    {
        match self {
            Direction::Up => 0,
            Direction::Left => 1,
            Direction::Right => 2,
            Direction::Forward => 3,
            Direction::Back => 4,
            Direction::Down => 5,
        }
    }
}

/// The value of a packed vertex, field by field:
///
/// | bits   | field                          |
/// |--------|--------------------------------|
/// | 0..6   | x, modulo 64                   |
/// | 6..12  | y, modulo 64                   |
/// | 12..18 | z, modulo 64                   |
/// | 18..21 | direction code                 |
/// | 21..28 | block identifier, modulo 128   |
/// | 28     | first texture coordinate, 0/1  |
/// | 29     | second texture coordinate, 0/1 |
pub open spec fn packed(x: int, y: int, z: int, dir: Direction, block: int, u: int, v: int) -> int {
    x % 64 + (y % 64) * 0x40 + (z % 64) * 0x1000 + dir.code() * 0x4_0000 + (block % 128)
        * 0x20_0000 + (u % 2) * 0x1000_0000 + (v % 2) * 0x2000_0000
}

/// Pocket of vertex data: position, face direction, block and texture
/// corner packed into 32 bits, laid out as [`packed`] says.
#[derive(Debug, Clone, Copy, PartialEq, Eq, Structural)]
pub struct Vertex(u32);

impl Vertex {
    /// The 32 bits of the vertex.
    pub closed spec fn view(self) -> u32 {
        self.0
    }

    /// Packs a vertex. Each field is cut to its bits: the position to six
    /// bits for each component, the block to seven, each texture coordinate
    /// to one.
    pub fn new(local: Coord, dir: Direction, block: u32, uv: (u32, u32)) -> (v: Vertex)
        ensures
            v@ == packed(
                local.x as int,
                local.y as int,
                local.z as int,
                dir,
                block as int,
                uv.0 as int,
                uv.1 as int,
            ),
    {
        let x = low_six(local.x);
        let y = low_six(local.y);
        let z = low_six(local.z);
        let d = dir.to_u32();
        let b = block & 0x7f;
        let s0 = uv.0;
        let t0 = uv.1;
        let s = s0 & 1;
        let t = t0 & 1;
        assert(block & 0x7f == block % 128) by (bit_vector);
        assert(s0 & 1 == s0 % 2) by (bit_vector);
        assert(t0 & 1 == t0 % 2) by (bit_vector);
        let data = x | y << 6u32 | z << 12u32 | d << 18u32 | b << 21u32 | s << 28u32 | t << 29u32;
        assert(data == x + y * 0x40 + z * 0x1000 + d * 0x4_0000 + b * 0x20_0000 + s * 0x1000_0000 + t
            * 0x2000_0000) by (bit_vector)
            requires
                data == x | y << 6u32 | z << 12u32 | d << 18u32 | b << 21u32 | s << 28u32 | t
                    << 29u32,
                x < 64,
                y < 64,
                z < 64,
                d < 8,
                b < 128,
                s < 2,
                t < 2,
        ;
        Vertex(data)
    }

    /// The 32 bits of the vertex, as the renderer takes them.
    pub fn bits(&self) -> (b: u32)
        ensures
            b == self@,
    {
        self.0
    }

    /// The position field: each component modulo 64.
    pub fn position(&self) -> (p: Coord)
        ensures
            p.x == self@ % 64,
            p.y == self@ / 0x40 % 64,
            p.z == self@ / 0x1000 % 64,
    {
        let b = self.0;
        assert(b & 63 == b % 64) by (bit_vector);
        assert((b >> 6u32) & 63 == b / 0x40 % 64) by (bit_vector);
        assert((b >> 12u32) & 63 == b / 0x1000 % 64) by (bit_vector);
        assert(b & 63 < 64 && (b >> 6u32) & 63 < 64 && (b >> 12u32) & 63 < 64) by (bit_vector);
        Coord { x: (b & 63) as i32, y: ((b >> 6u32) & 63) as i32, z: ((b >> 12u32) & 63) as i32 }
    }

    /// The direction code field.
    pub fn face(&self) -> (d: u32)
        ensures
            d == self@ / 0x4_0000 % 8,
    {
        let b = self.0;
        assert((b >> 18u32) & 7 == b / 0x4_0000 % 8) by (bit_vector);
        (b >> 18u32) & 7
    }

    /// The block field: the block identifier modulo 128.
    pub fn block(&self) -> (k: u32)
        ensures
            k == self@ / 0x20_0000 % 128,
    {
        let b = self.0;
        assert((b >> 21u32) & 0x7f == b / 0x20_0000 % 128) by (bit_vector);
        (b >> 21u32) & 0x7f
    }

    /// The two texture coordinate fields.
    pub fn uv(&self) -> (t: (u32, u32))
        ensures
            t.0 == self@ / 0x1000_0000 % 2,
            t.1 == self@ / 0x2000_0000 % 2,
    {
        let b = self.0;
        assert((b >> 28u32) & 1 == b / 0x1000_0000 % 2) by (bit_vector);
        assert((b >> 29u32) & 1 == b / 0x2000_0000 % 2) by (bit_vector);
        ((b >> 28u32) & 1, (b >> 29u32) & 1)
    }
}

/// The low six bits of `v`.
fn low_six(v: i32) -> (r: u32)
    ensures
        r == v as int % 64,
        r < 64,
{
    assert(v & 63 == v as int % 64) by (bit_vector);
    assert(0 <= v & 63 < 64) by (bit_vector);
    (v & 63) as u32
}

/// What is packed can be read back: where every field fits its bits, the
/// fields of the packed value are the fields that went in.
pub proof fn lemma_packed_fields(x: int, y: int, z: int, dir: Direction, block: int, u: int, v: int)
    requires
        0 <= x < 64,
        0 <= y < 64,
        0 <= z < 64,
        0 <= block < 128,
        0 <= u < 2,
        0 <= v < 2,
    ensures
        ({
            let p = packed(x, y, z, dir, block, u, v);
            &&& 0 <= p < 0x4000_0000
            &&& p % 64 == x
            &&& p / 0x40 % 64 == y
            &&& p / 0x1000 % 64 == z
            &&& p / 0x4_0000 % 8 == dir.code()
            &&& p / 0x20_0000 % 128 == block
            &&& p / 0x1000_0000 % 2 == u
            &&& p / 0x2000_0000 % 2 == v
        }),
{
    let d = dir.code();
    let p = packed(x, y, z, dir, block, u, v);
    let r6 = u + 2 * v;
    let r5 = block + 128 * r6;
    let r4 = d + 8 * r5;
    let r3 = z + 64 * r4;
    let r2 = y + 64 * r3;
    assert(p == x + 64 * r2);
    assert(p / 0x40 == r2);
    assert(p / 0x1000 == r3);
    assert(p / 0x4_0000 == r4);
    assert(p / 0x20_0000 == r5);
    assert(p / 0x1000_0000 == r6);
    assert(p / 0x2000_0000 == v);
}

/// The bits of each vertex of `vertices`.
pub open spec fn bits_of(vertices: Seq<Vertex>) -> Seq<u32> {
    Seq::new(vertices.len(), |i: int| vertices[i]@)
}

/// The packed corner at (`x`, `y`) of the faces of direction `dir` of the
/// cells of slab `axis`. The faces lie on the side of the slab to which the
/// direction points.
pub open spec fn corner(dir: Direction, axis: int, block: int, x: int, y: int, u: int, v: int) -> u32 {
    let p = dir.sample(axis, x, y);
    packed(p.0, p.1, p.2, dir, block, u, v) as u32
}

/// The four packed corners of the face of direction `dir` of the rectangle
/// of `w` by `h` cells at (`x`, `y`) of slab `axis`, wound around the outward
/// normal of `dir`.
pub open spec fn rect_vertices(
    dir: Direction,
    axis: int,
    block: int,
    x: int,
    y: int,
    w: int,
    h: int,
) -> Seq<u32> {
    let v1 = corner(dir, axis, block, x, y, 1, 1);
    let v2 = corner(dir, axis, block, x + w, y, 0, 1);
    let v3 = corner(dir, axis, block, x + w, y + h, 0, 0);
    let v4 = corner(dir, axis, block, x, y + h, 1, 0);
    if dir.reversed() {
        seq![v1, v4, v3, v2]
    } else {
        seq![v1, v2, v3, v4]
    }
}

/// The vertices of the rectangles `quads` of slab `axis`, four for each
/// rectangle, in the order of the rectangles.
pub open spec fn quads_vertices(dir: Direction, axis: int, block: int, quads: Seq<Quad>) -> Seq<u32>
    decreases quads.len(),
{
    if quads.len() == 0 {
        Seq::empty()
    } else {
        let q = quads.last();
        quads_vertices(dir, axis, block, quads.drop_last()) + rect_vertices(
            dir,
            axis,
            block,
            q.x as int,
            q.y as int,
            q.w as int,
            q.h as int,
        )
    }
}

/// The position in the chunk of the cell at (`row`, `column`) of slab
/// `axis`: slab `axis` holds the cells whose coordinate along the axis of
/// `dir` is `axis`.
pub open spec fn cell_pos(dir: Direction, axis: int, row: int, column: int) -> Coord {
    let p = dir.sample(axis - dir.shift(), row, column);
    Coord { x: p.0 as i32, y: p.1 as i32, z: p.2 as i32 }
}

/// Whether the face of direction `dir` of the block at `pos` is visible:
/// the block is drawn and the block across the face is not.
pub open spec fn face_visible(
    refs: Neighbourhood,
    pal: Seq<(Seq<char>, Model)>,
    dir: Direction,
    pos: Coord,
) -> bool {
    meshable_in(pal, refs.block_at(pos)) && !meshable_in(pal, refs.block_at(pos.plus(dir.air())))
}

/// The block in the cell at (`row`, `column`) of slab `axis`.
pub open spec fn sampled(refs: Neighbourhood, dir: Direction, axis: int, row: int, column: int) -> u16 {
    refs.block_at(cell_pos(dir, axis, row, column))
}

/// Whether the face of direction `dir` of the cell at (`row`, `column`) of
/// slab `axis` is visible: its block is drawn and the block across the face
/// is not.
pub open spec fn visible(
    refs: Neighbourhood,
    pal: Seq<(Seq<char>, Model)>,
    dir: Direction,
    axis: int,
    row: int,
    column: int,
) -> bool {
    face_visible(refs, pal, dir, cell_pos(dir, axis, row, column))
}

/// The block whose face is visible in cell `i` of slab `axis`, or 0 where
/// the face is not visible. Cell `i` lies at row `i % 32`, column `i / 32`.
pub open spec fn slab_cell(
    refs: Neighbourhood,
    pal: Seq<(Seq<char>, Model)>,
    dir: Direction,
    axis: int,
    i: int,
) -> u16 {
    if visible(refs, pal, dir, axis, i % 32, i / 32) {
        sampled(refs, dir, axis, i % 32, i / 32)
    } else {
        0
    }
}

/// The vertices of one face for each of the first `n` cells of slab `axis`
/// whose face is visible.
pub open spec fn culled_cells(
    refs: Neighbourhood,
    pal: Seq<(Seq<char>, Model)>,
    dir: Direction,
    axis: int,
    n: nat,
) -> Seq<u32>
    decreases n,
{
    if n == 0 {
        Seq::empty()
    } else {
        let i = n - 1;
        let before = culled_cells(refs, pal, dir, axis, i as nat);
        if visible(refs, pal, dir, axis, i % 32, i / 32) {
            before + rect_vertices(
                dir,
                axis,
                sampled(refs, dir, axis, i % 32, i / 32) as int,
                i % 32,
                i / 32,
                1,
                1,
            )
        } else {
            before
        }
    }
}

/// The vertices of the visible faces of the first `n` slabs, one face for
/// each cell.
pub open spec fn culled_slabs(
    refs: Neighbourhood,
    pal: Seq<(Seq<char>, Model)>,
    dir: Direction,
    n: nat,
) -> Seq<u32>
    decreases n,
{
    if n == 0 {
        Seq::empty()
    } else {
        culled_slabs(refs, pal, dir, (n - 1) as nat) + culled_cells(refs, pal, dir, n - 1, 1024)
    }
}

/// The culled mesh of a neighbourhood: the vertices of the visible faces of
/// the directions `dirs`, one face for each cell.
pub open spec fn culled_mesh(
    refs: Neighbourhood,
    pal: Seq<(Seq<char>, Model)>,
    dirs: Seq<Direction>,
) -> Seq<u32>
    decreases dirs.len(),
{
    if dirs.len() == 0 {
        Seq::empty()
    } else {
        culled_mesh(refs, pal, dirs.drop_last()) + culled_slabs(refs, pal, dirs.last(), 32)
    }
}

/// The mask of block `block` in slab `axis`: the cells whose face is visible
/// and whose block is `block`.
pub open spec fn slab_grid(
    refs: Neighbourhood,
    pal: Seq<(Seq<char>, Model)>,
    dir: Direction,
    axis: int,
    block: u16,
) -> Grid {
    Seq::new(
        32,
        |y: int|
            Seq::new(
                32,
                |x: int| visible(refs, pal, dir, axis, x, y) && sampled(refs, dir, axis, x, y) == block,
            ),
    )
}

/// The number of block identifiers of a palette.
pub open spec fn block_count(pal: Seq<(Seq<char>, Model)>) -> nat {
    if pal.len() <= 0x1_0000 {
        pal.len()
    } else {
        0x1_0000
    }
}

/// The vertices of the greedy rectangles of slab `axis` for the blocks
/// `1..n`, block by block.
pub open spec fn greedy_blocks(
    refs: Neighbourhood,
    pal: Seq<(Seq<char>, Model)>,
    dir: Direction,
    axis: int,
    n: nat,
) -> Seq<u32>
    decreases n,
{
    if n <= 1 {
        Seq::empty()
    } else {
        let block = (n - 1) as u16;
        greedy_blocks(refs, pal, dir, axis, (n - 1) as nat) + quads_vertices(
            dir,
            axis,
            block as int,
            greedy(slab_grid(refs, pal, dir, axis, block)),
        )
    }
}

/// The vertices of the greedy rectangles of the first `n` slabs.
pub open spec fn greedy_slabs(
    refs: Neighbourhood,
    pal: Seq<(Seq<char>, Model)>,
    dir: Direction,
    n: nat,
) -> Seq<u32>
    decreases n,
{
    if n == 0 {
        Seq::empty()
    } else {
        greedy_slabs(refs, pal, dir, (n - 1) as nat) + greedy_blocks(
            refs,
            pal,
            dir,
            n - 1,
            block_count(pal),
        )
    }
}

/// The greedy mesh of a neighbourhood: for each of the directions `dirs`,
/// for each slab and for each block of the palette, the vertices of the
/// rectangles that greedy extraction takes from the mask of the visible
/// faces of that block.
pub open spec fn greedy_mesh(
    refs: Neighbourhood,
    pal: Seq<(Seq<char>, Model)>,
    dirs: Seq<Direction>,
) -> Seq<u32>
    decreases dirs.len(),
{
    if dirs.len() == 0 {
        Seq::empty()
    } else {
        greedy_mesh(refs, pal, dirs.drop_last()) + greedy_slabs(refs, pal, dirs.last(), 32)
    }
}

/// The triangle indices of `quads` quads: two triangles for each quad, over
/// its corners 0, 1, 2 and 0, 2, 3.
pub open spec fn indices_of(quads: nat) -> Seq<u32> {
    Seq::new(
        6 * quads,
        |i: int|
            {
                let k = i % 6;
                let c = if k == 0 || k == 3 {
                    0int
                } else if k == 1 {
                    1int
                } else if k == 5 {
                    3int
                } else {
                    2int
                };
                (i / 6 * 4 + c) as u32
            },
    )
}

/// The cells of the slabs are the cells of the chunk. They, and the cells
/// across their faces, can be looked up in the chunk's neighbourhood.
pub proof fn lemma_sample_reach(dir: Direction, axis: int, row: int, column: int)
    requires
        0 <= axis < 32,
        0 <= row < 32,
        0 <= column < 32,
    ensures
        cell_pos(dir, axis, row, column).is_local(),
        in_reach(cell_pos(dir, axis, row, column)),
        in_reach(cell_pos(dir, axis, row, column).plus(dir.air())),
        cell_pos(dir, axis, row, column).can_add(dir.air()),
{
    let p = cell_pos(dir, axis, row, column);
    lemma_reach_of_step(p);
    assert(dir.air() == offset_at(1) || dir.air() == offset_at(2) || dir.air() == offset_at(3)
        || dir.air() == offset_at(4) || dir.air() == offset_at(5) || dir.air() == offset_at(6));
}

/// The four corners of the face of direction `dir` of a rectangle of cells
/// of slab `axis`, wound around the outward normal of `dir`.
fn rect_corners(dir: Direction, axis: i32, block: u16, x: i32, y: i32, w: i32, h: i32) -> (v: Vec<
    Vertex,
>)
    requires
        axis < i32::MAX,
        0 <= w,
        0 <= h,
        x + w <= i32::MAX,
        y + h <= i32::MAX,
    ensures
        bits_of(v@) == rect_vertices(
            dir,
            axis as int,
            block as int,
            x as int,
            y as int,
            w as int,
            h as int,
        ),
{
    let v1 = Vertex::new(dir.world_sample(axis, x, y), dir, block as u32, (1, 1));
    let v2 = Vertex::new(dir.world_sample(axis, x + w, y), dir, block as u32, (0, 1));
    let v3 = Vertex::new(dir.world_sample(axis, x + w, y + h), dir, block as u32, (0, 0));
    let v4 = Vertex::new(dir.world_sample(axis, x, y + h), dir, block as u32, (1, 0));
    let mut out: Vec<Vertex> = Vec::new();
    out.push(v1);
    if dir.reverse_order() {
        out.push(v4);
        out.push(v3);
        out.push(v2);
    } else {
        out.push(v2);
        out.push(v3);
        out.push(v4);
    }
    assert(bits_of(out@) =~= rect_vertices(
        dir,
        axis as int,
        block as int,
        x as int,
        y as int,
        w as int,
        h as int,
    ));
    out
}

/// The face of one cell of a slab.
#[derive(Debug, Clone, Copy)]
pub struct Face {
    x: i32,
    y: i32,
}

impl Face {
    /// The face of the cell at row `x`, column `y`.
    pub fn new(x: i32, y: i32) -> (f: Face)
        ensures
            f.row() == x,
            f.column() == y,
    {
        Face { x, y }
    }

    /// The row of the cell.
    pub closed spec fn row(self) -> i32 {
        self.x
    }

    /// The column of the cell.
    pub closed spec fn column(self) -> i32 {
        self.y
    }

    /// The texture coordinates of corner `i` of a face.
    pub fn uv(i: usize) -> (t: (u32, u32))
        requires
            i < 4,
        ensures
            t == (if i == 0 {
                (1u32, 1u32)
            } else if i == 1 {
                (0u32, 1u32)
            } else if i == 2 {
                (0u32, 0u32)
            } else {
                (1u32, 0u32)
            }),
    {
        if i == 0 {
            (1, 1)
        } else if i == 1 {
            (0, 1)
        } else if i == 2 {
            (0, 0)
        } else {
            (1, 0)
        }
    }

    /// The four vertices of a face of direction `dir` at this row and
    /// column, wound around the outward normal. `axis` counts the slabs from
    /// `-negate_axis` on: the face is that of the cell in slab
    /// `axis + negate_axis`.
    pub fn vertices(self, dir: Direction, axis: i32, block: u16) -> (v: Vec<Vertex>)
        requires
            axis <= i32::MAX - 2,
            self.row() < i32::MAX,
            self.column() < i32::MAX,
        ensures
            bits_of(v@) == rect_vertices(
                dir,
                axis + dir.shift(),
                block as int,
                self.row() as int,
                self.column() as int,
                1,
                1,
            ),
    {
        rect_corners(dir, axis + dir.negate_axis(), block, self.x, self.y, 1, 1)
    }
}

/// The four vertices of the face of direction `dir` of the rectangle `quad`
/// of cells of slab `axis`, wound around the outward normal of `dir`.
pub fn quad_vertices(quad: Quad, dir: Direction, axis: i32, block: u16) -> (v: Vec<Vertex>)
    requires
        axis < i32::MAX,
        quad.inside(),
    ensures
        bits_of(v@) == rect_vertices(
            dir,
            axis as int,
            block as int,
            quad.x as int,
            quad.y as int,
            quad.w as int,
            quad.h as int,
        ),
{
    rect_corners(dir, axis, block, quad.x as i32, quad.y as i32, quad.w as i32, quad.h as i32)
}

fn push_all(out: &mut Vec<Vertex>, more: &Vec<Vertex>)
    ensures
        bits_of(final(out)@) == bits_of(old(out)@) + bits_of(more@),
{
    let ghost before = out@;
    let mut i: usize = 0;
    while i < more.len()
        invariant
            i <= more.len(),
            out@ == before + more@.subrange(0, i as int),
        decreases more.len() - i,
    {
        out.push(more[i]);
        i += 1;
        assert(out@ =~= before + more@.subrange(0, i as int));
    }
    assert(bits_of(out@) =~= bits_of(before) + bits_of(more@));
}

/// The visible block of each cell of slab `axis`.
fn slab_cells(
    dir: Direction,
    handler: &BlocksHandler,
    refs: &Neighbourhood,
    axis: i32,
) -> (cells: Vec<u16>)
    requires
        0 <= axis < 32,
    ensures
        cells@.len() == 1024,
        forall|i: int| 0 <= i < 1024 ==> cells@[i] == slab_cell(*refs, handler@, dir, axis as int, i),
{
    let mut cells: Vec<u16> = Vec::new();
    let mut i: i32 = 0;
    while i < 1024
        invariant
            0 <= i <= 1024,
            0 <= axis < 32,
            cells@.len() == i,
            forall|j: int| 0 <= j < i ==> cells@[j] == slab_cell(*refs, handler@, dir, axis as int, j),
        decreases 1024 - i,
    {
        let row = i % 32;
        let column = i / 32;
        proof {
            lemma_sample_reach(dir, axis as int, row as int, column as int);
        }
        let pos = dir.world_sample(axis - dir.negate_axis(), row, column);
        let step = dir.air_sample();
        let next = Coord { x: pos.x + step.x, y: pos.y + step.y, z: pos.z + step.z };
        let current = refs.get_block(pos);
        let behind = refs.get_block(next);
        let cell = if handler.is_meshable(current) && !handler.is_meshable(behind) {
            current
        } else {
            0
        };
        cells.push(cell);
        i += 1;
    }
    cells
}

/// All mesh vertices of one chunk, four for each quad.
#[derive(Debug, Clone)]
pub struct ChunkMesh {
    vertices: Vec<Vertex>,
}

impl Default for ChunkMesh {
    /// A mesh without vertices.
    fn default() -> (m: ChunkMesh)
        ensures
            m@ == Seq::<u32>::empty(),
    {
        let m = ChunkMesh { vertices: Vec::new() };
        assert(m@ =~= Seq::<u32>::empty());
        m
    }
}

impl ChunkMesh {
    /// The bits of the vertices, in order.
    pub closed spec fn view(self) -> Seq<u32> {
        bits_of(self.vertices@)
    }

    /// The culled faces of direction `dir`, one for each visible cell.
    fn make_vertices(dir: Direction, handler: &BlocksHandler, refs: &Neighbourhood) -> (v: Vec<Vertex>)
        ensures
            bits_of(v@) == culled_slabs(*refs, handler@, dir, 32),
    {
        let mut vertices: Vec<Vertex> = Vec::new();
        let mut axis: i32 = 0;
        assert(bits_of(vertices@) =~= culled_slabs(*refs, handler@, dir, 0));
        while axis < 32
            invariant
                0 <= axis <= 32,
                bits_of(vertices@) == culled_slabs(*refs, handler@, dir, axis as nat),
            decreases 32 - axis,
        {
            let cells = slab_cells(dir, handler, refs, axis);
            let ghost start = bits_of(vertices@);
            let mut i: i32 = 0;
            assert(bits_of(vertices@) =~= start + culled_cells(*refs, handler@, dir, axis as int, 0));
            while i < 1024
                invariant
                    0 <= i <= 1024,
                    0 <= axis < 32,
                    cells@.len() == 1024,
                    forall|j: int|
                        0 <= j < 1024 ==> cells@[j] == slab_cell(
                            *refs,
                            handler@,
                            dir,
                            axis as int,
                            j,
                        ),
                    bits_of(vertices@) == start + culled_cells(
                        *refs,
                        handler@,
                        dir,
                        axis as int,
                        i as nat,
                    ),
                decreases 1024 - i,
            {
                let cell = cells[i as usize];
                if cell != 0 {
                    let face = Face::new(i % 32, i / 32);
                    let more = face.vertices(dir, axis - dir.negate_axis(), cell);
                    let ghost before = bits_of(vertices@);
                    push_all(&mut vertices, &more);
                    assert(bits_of(vertices@) =~= start + (culled_cells(
                        *refs,
                        handler@,
                        dir,
                        axis as int,
                        i as nat,
                    ) + bits_of(more@)));
                }
                i += 1;
            }
            axis += 1;
            assert(bits_of(vertices@) =~= culled_slabs(*refs, handler@, dir, axis as nat));
        }
        vertices
    }

    /// Adds to `vertices` the greedy rectangles of block `id` in slab
    /// `axis`, whose visible blocks are `cells`.
    fn greedy_block(
        vertices: &mut Vec<Vertex>,
        dir: Direction,
        handler: &BlocksHandler,
        refs: &Neighbourhood,
        axis: i32,
        cells: &Vec<u16>,
        id: u16,
    )
        requires
            0 <= axis < 32,
            1 <= id,
            cells@.len() == 1024,
            forall|j: int|
                0 <= j < 1024 ==> cells@[j] == slab_cell(*refs, handler@, dir, axis as int, j),
        ensures
            bits_of(final(vertices)@) == bits_of(old(vertices)@) + quads_vertices(
                dir,
                axis as int,
                id as int,
                greedy(slab_grid(*refs, handler@, dir, axis as int, id)),
            ),
    {
        let mask = plane_mask(cells, id);
        let ghost grid = slab_grid(*refs, handler@, dir, axis as int, id);
        proof {
            assert forall|y: int| 0 <= y < 32 implies #[trigger] grid_of(mask@)[y] == grid[y] by {
                assert forall|x: int| 0 <= x < 32 implies grid_of(mask@)[y][x] == grid[y][x] by {
                    assert(grid_of(mask@)[y][x] == (cells@[y * 32 + x] == id));
                    assert(cells@[y * 32 + x] == slab_cell(
                        *refs,
                        handler@,
                        dir,
                        axis as int,
                        y * 32 + x,
                    ));
                }
                assert(grid_of(mask@)[y] =~= grid[y]);
            }
            assert(grid_of(mask@) =~= grid);
            assert(grid_wf(grid));
            lemma_greedy_exact_cover(grid);
        }
        let quads = greedy_quads(&mask);
        let ghost before = bits_of(vertices@);
        let mut k: usize = 0;
        assert(bits_of(vertices@) =~= before + quads_vertices(
            dir,
            axis as int,
            id as int,
            quads@.subrange(0, 0),
        ));
        while k < quads.len()
            invariant
                k <= quads.len(),
                0 <= axis < 32,
                all_inside(quads@),
                bits_of(vertices@) == before + quads_vertices(
                    dir,
                    axis as int,
                    id as int,
                    quads@.subrange(0, k as int),
                ),
            decreases quads.len() - k,
        {
            let more = quad_vertices(quads[k], dir, axis, id);
            push_all(vertices, &more);
            proof {
                let next = quads@.subrange(0, k + 1);
                assert(next.drop_last() =~= quads@.subrange(0, k as int));
                assert(next.last() == quads@[k as int]);
                assert(bits_of(vertices@) =~= before + quads_vertices(
                    dir,
                    axis as int,
                    id as int,
                    next,
                ));
            }
            k += 1;
        }
        proof {
            assert(quads@.subrange(0, quads@.len() as int) =~= quads@);
        }
    }

    /// The greedy rectangles of direction `dir`, slab by slab and block by
    /// block.
    fn make_greedy(dir: Direction, handler: &BlocksHandler, refs: &Neighbourhood) -> (v: Vec<Vertex>)
        ensures
            bits_of(v@) == greedy_slabs(*refs, handler@, dir, 32),
    {
        let count = handler.len();
        let blocks: usize = if count <= 0x1_0000 {
            count
        } else {
            0x1_0000
        };
        let mut vertices: Vec<Vertex> = Vec::new();
        let mut axis: i32 = 0;
        assert(bits_of(vertices@) =~= greedy_slabs(*refs, handler@, dir, 0));
        while axis < 32
            invariant
                0 <= axis <= 32,
                blocks == block_count(handler@),
                bits_of(vertices@) == greedy_slabs(*refs, handler@, dir, axis as nat),
            decreases 32 - axis,
        {
            let cells = slab_cells(dir, handler, refs, axis);
            let ghost start = bits_of(vertices@);
            let mut block: usize = 1;
            assert(bits_of(vertices@) =~= start + greedy_blocks(*refs, handler@, dir, axis as int, 1));
            while block < blocks
                invariant
                    1 <= block,
                    block <= blocks || block == 1,
                    blocks <= 0x1_0000,
                    0 <= axis < 32,
                    cells@.len() == 1024,
                    forall|j: int|
                        0 <= j < 1024 ==> cells@[j] == slab_cell(
                            *refs,
                            handler@,
                            dir,
                            axis as int,
                            j,
                        ),
                    bits_of(vertices@) == start + greedy_blocks(
                        *refs,
                        handler@,
                        dir,
                        axis as int,
                        block as nat,
                    ),
                decreases blocks - block,
            {
                let id = block as u16;
                let ghost sofar = bits_of(vertices@);
                Self::greedy_block(&mut vertices, dir, handler, refs, axis, &cells, id);
                proof {
                    assert(bits_of(vertices@) =~= start + (greedy_blocks(
                        *refs,
                        handler@,
                        dir,
                        axis as int,
                        block as nat,
                    ) + quads_vertices(
                        dir,
                        axis as int,
                        id as int,
                        greedy(slab_grid(*refs, handler@, dir, axis as int, id)),
                    )));
                }
                block += 1;
            }
            proof {
                if blocks < 1 {
                    assert(greedy_blocks(*refs, handler@, dir, axis as int, blocks as nat)
                        == greedy_blocks(*refs, handler@, dir, axis as int, 1));
                } else {
                    assert(block == blocks);
                }
                assert(bits_of(vertices@) == start + greedy_blocks(
                    *refs,
                    handler@,
                    dir,
                    axis as int,
                    block_count(handler@),
                ));
                assert(greedy_slabs(*refs, handler@, dir, (axis + 1) as nat) == greedy_slabs(
                    *refs,
                    handler@,
                    dir,
                    axis as nat,
                ) + greedy_blocks(*refs, handler@, dir, axis as int, block_count(handler@)));
            }
            axis += 1;
        }
        vertices
    }

    /// The mesh of the centre chunk of the neighbourhood `refs` by greedy
    /// meshing: the visible faces of equal blocks in one slab are merged into
    /// rectangles.
    /// `None` stands for a chunk without visible faces.
    pub fn greedy(handler: &BlocksHandler, refs: &Neighbourhood) -> (r: Option<ChunkMesh>)
        ensures
            r is Some <==> greedy_mesh(*refs, handler@, Direction::order()).len() > 0,
            r is Some ==> r->0@ == greedy_mesh(*refs, handler@, Direction::order()),
    {
        let dirs = Direction::all();
        let mut vertices: Vec<Vertex> = Vec::new();
        let mut i: usize = 0;
        assert(Direction::order().subrange(0, 0) =~= Seq::<Direction>::empty());
        assert(bits_of(vertices@) =~= greedy_mesh(*refs, handler@, Direction::order().subrange(0, 0)));
        while i < 6
            invariant
                i <= 6,
                dirs@ == Direction::order(),
                bits_of(vertices@) == greedy_mesh(
                    *refs,
                    handler@,
                    Direction::order().subrange(0, i as int),
                ),
            decreases 6 - i,
        {
            let more = Self::make_greedy(dirs[i], handler, refs);
            push_all(&mut vertices, &more);
            proof {
                let next = Direction::order().subrange(0, i + 1);
                assert(next.drop_last() =~= Direction::order().subrange(0, i as int));
                assert(next.last() == dirs@[i as int]);
            }
            i += 1;
        }
        assert(Direction::order().subrange(0, 6) =~= Direction::order());
        if vertices.len() > 0 {
            Some(ChunkMesh { vertices })
        } else {
            None
        }
    }

    /// The mesh of the centre chunk of the neighbourhood `refs` with one quad
    /// for each visible face. `None` stands for a chunk without visible faces.
    pub fn culled(handler: &BlocksHandler, refs: &Neighbourhood) -> (r: Option<ChunkMesh>)
        ensures
            r is Some <==> culled_mesh(*refs, handler@, Direction::order()).len() > 0,
            r is Some ==> r->0@ == culled_mesh(*refs, handler@, Direction::order()),
    {
        let dirs = Direction::all();
        let mut vertices: Vec<Vertex> = Vec::new();
        let mut i: usize = 0;
        assert(Direction::order().subrange(0, 0) =~= Seq::<Direction>::empty());
        assert(bits_of(vertices@) =~= culled_mesh(*refs, handler@, Direction::order().subrange(0, 0)));
        while i < 6
            invariant
                i <= 6,
                dirs@ == Direction::order(),
                bits_of(vertices@) == culled_mesh(
                    *refs,
                    handler@,
                    Direction::order().subrange(0, i as int),
                ),
            decreases 6 - i,
        {
            let more = Self::make_vertices(dirs[i], handler, refs);
            push_all(&mut vertices, &more);
            proof {
                let next = Direction::order().subrange(0, i + 1);
                assert(next.drop_last() =~= Direction::order().subrange(0, i as int));
                assert(next.last() == dirs@[i as int]);
            }
            i += 1;
        }
        assert(Direction::order().subrange(0, 6) =~= Direction::order());
        if vertices.len() > 0 {
            Some(ChunkMesh { vertices })
        } else {
            None
        }
    }

    /// Builds the mesh of the centre chunk of the bundle `refs`: reads the
    /// seven buffers and meshes what was read, greedily. `None` stands for
    /// a chunk without visible faces.
    pub fn build(handler: &BlocksHandler, refs: &ChunksRefs) -> (r: Option<ChunkMesh>)
        ensures
            exists|around: Neighbourhood|
                {
                    &&& around.wf()
                    &&& r is Some <==> greedy_mesh(around, handler@, Direction::order()).len() > 0
                    &&& r is Some ==> r->0@ == greedy_mesh(around, handler@, Direction::order())
                },
    {
        let around = refs.read();
        let r = Self::greedy(handler, &around);
        proof {
            assert(around.wf() && (r is Some <==> greedy_mesh(
                around,
                handler@,
                Direction::order(),
            ).len() > 0) && (r is Some ==> r->0@ == greedy_mesh(
                around,
                handler@,
                Direction::order(),
            )));
        }
        r
    }

    /// Builds the mesh of the centre chunk of the bundle `refs` with one
    /// quad for each visible face: reads the seven buffers and meshes what
    /// was read. `None` stands for a chunk without visible faces.
    pub fn build_culled(handler: &BlocksHandler, refs: &ChunksRefs) -> (r: Option<ChunkMesh>)
        ensures
            exists|around: Neighbourhood|
                {
                    &&& around.wf()
                    &&& r is Some <==> culled_mesh(around, handler@, Direction::order()).len() > 0
                    &&& r is Some ==> r->0@ == culled_mesh(around, handler@, Direction::order())
                },
    {
        let around = refs.read();
        let r = Self::culled(handler, &around);
        proof {
            assert(around.wf() && (r is Some <==> culled_mesh(
                around,
                handler@,
                Direction::order(),
            ).len() > 0) && (r is Some ==> r->0@ == culled_mesh(
                around,
                handler@,
                Direction::order(),
            )));
        }
        r
    }

    /// The number of vertices.
    pub fn len(&self) -> (n: usize)
        ensures
            n == self@.len(),
    {
        self.vertices.len()
    }

    /// The vertices, in order.
    pub fn vertices(&self) -> (v: &Vec<Vertex>)
        ensures
            bits_of(v@) == self@,
    {
        &self.vertices
    }

    /// The bits of the vertices, as the renderer's vertex buffer takes them.
    pub fn data(&self) -> (d: Vec<u32>)
        ensures
            d@ == self@,
    {
        let mut d: Vec<u32> = Vec::new();
        let mut i: usize = 0;
        while i < self.vertices.len()
            invariant
                i <= self.vertices.len(),
                d@ == self@.subrange(0, i as int),
            decreases self.vertices.len() - i,
        {
            d.push(self.vertices[i].bits());
            i += 1;
            assert(d@ =~= self@.subrange(0, i as int));
        }
        assert(d@ =~= self@);
        d
    }

    /// The triangle indices of the mesh: two triangles for each four
    /// vertices.
    pub fn generate_indices(&self) -> (v: Vec<u32>)
        requires
            self@.len() <= u32::MAX,
        ensures
            v@ == indices_of(self@.len() / 4),
    {
        generate_indices(self.vertices.len())
    }
}

/// The triangle indices of a mesh of `verts` vertices: for each four
/// vertices the corners 0, 1, 2 and 0, 2, 3.
pub fn generate_indices(verts: usize) -> (v: Vec<u32>)
    requires
        verts <= u32::MAX,
    ensures
        v@ == indices_of(verts as nat / 4),
{
    let indices_count = verts / 4;
    let mut indices: Vec<u32> = Vec::new();
    let mut quad: usize = 0;
    while quad < indices_count
        invariant
            quad <= indices_count,
            indices_count == verts / 4,
            verts <= u32::MAX,
            indices@.len() == 6 * quad,
            forall|i: int| 0 <= i < 6 * quad ==> indices@[i] == indices_of(indices_count as nat)[i],
        decreases indices_count - quad,
    {
        let first = (quad * 4) as u32;
        indices.push(first);
        indices.push(first + 1);
        indices.push(first + 2);
        indices.push(first);
        indices.push(first + 2);
        indices.push(first + 3);
        quad += 1;
    }
    assert(indices@ =~= indices_of(indices_count as nat));
    indices
}

/// The parts of the directions `dirs`, one behind the other.
spec fn joined(part: spec_fn(Direction) -> Seq<u32>, dirs: Seq<Direction>) -> Seq<u32>
    decreases dirs.len(),
{
    if dirs.len() == 0 {
        Seq::empty()
    } else {
        joined(part, dirs.drop_last()) + part(dirs.last())
    }
}

/// How often `v` occurs in the part of `d`, once for each time that `d`
/// occurs in `dirs`.
spec fn share(
    part: spec_fn(Direction) -> Seq<u32>,
    dirs: Multiset<Direction>,
    d: Direction,
    v: u32,
) -> int {
    (dirs.count(d) * part(d).to_multiset().count(v)) as int
}

/// How often `v` occurs in the parts of the directions of `dirs`.
spec fn weighted(part: spec_fn(Direction) -> Seq<u32>, dirs: Multiset<Direction>, v: u32) -> int {
    share(part, dirs, Direction::Left, v) + share(part, dirs, Direction::Right, v) + share(
        part,
        dirs,
        Direction::Down,
        v,
    ) + share(part, dirs, Direction::Up, v) + share(part, dirs, Direction::Back, v) + share(
        part,
        dirs,
        Direction::Forward,
        v,
    )
}

proof fn lemma_share_step(
    part: spec_fn(Direction) -> Seq<u32>,
    dirs: Multiset<Direction>,
    last: Direction,
    d: Direction,
    v: u32,
)
    ensures
        share(part, dirs.insert(last), d, v) == share(part, dirs, d, v) + (if d == last {
            part(d).to_multiset().count(v) as int
        } else {
            0
        }),
{
    broadcast use vstd::multiset::group_multiset_axioms;

    let c = dirs.count(d) as int;
    let k = part(d).to_multiset().count(v) as int;
    assert((c + 1) * k == c * k + k) by (nonlinear_arith);
}

proof fn lemma_joined_count(part: spec_fn(Direction) -> Seq<u32>, dirs: Seq<Direction>, v: u32)
    ensures
        joined(part, dirs).to_multiset().count(v) == weighted(part, dirs.to_multiset(), v),
    decreases dirs.len(),
{
    broadcast use vstd::multiset::group_multiset_axioms;

    if dirs.len() == 0 {
        assert(dirs.to_multiset().len() == 0) by {
            dirs.to_multiset_ensures();
        }
        assert(joined(part, dirs).to_multiset().len() == 0) by {
            joined(part, dirs).to_multiset_ensures();
        }
        assert forall|d: Direction| dirs.to_multiset().count(d) == 0 by {
            if dirs.to_multiset().count(d) > 0 {
                assert(dirs.to_multiset().len() > 0);
            }
        }
        if joined(part, dirs).to_multiset().count(v) > 0 {
            assert(joined(part, dirs).to_multiset().len() > 0);
        }
    } else {
        let init = dirs.drop_last();
        let last = dirs.last();
        lemma_joined_count(part, init, v);
        assert(dirs =~= init.push(last));
        vstd::seq_lib::to_multiset_build(init, last);
        vstd::seq_lib::lemma_multiset_commutative(joined(part, init), part(last));
        lemma_share_step(part, init.to_multiset(), last, Direction::Left, v);
        lemma_share_step(part, init.to_multiset(), last, Direction::Right, v);
        lemma_share_step(part, init.to_multiset(), last, Direction::Down, v);
        lemma_share_step(part, init.to_multiset(), last, Direction::Up, v);
        lemma_share_step(part, init.to_multiset(), last, Direction::Back, v);
        lemma_share_step(part, init.to_multiset(), last, Direction::Forward, v);
    }
}

proof fn lemma_joined_order(part: spec_fn(Direction) -> Seq<u32>, a: Seq<Direction>, b: Seq<Direction>)
    requires
        a.to_multiset() == b.to_multiset(),
    ensures
        joined(part, a).to_multiset() == joined(part, b).to_multiset(),
{
    assert forall|v: u32|
        joined(part, a).to_multiset().count(v) == joined(part, b).to_multiset().count(v) by {
        lemma_joined_count(part, a, v);
        lemma_joined_count(part, b, v);
    }
    assert(joined(part, a).to_multiset() =~= joined(part, b).to_multiset());
}

proof fn lemma_greedy_joined(
    refs: Neighbourhood,
    pal: Seq<(Seq<char>, Model)>,
    part: spec_fn(Direction) -> Seq<u32>,
    dirs: Seq<Direction>,
)
    requires
        forall|d: Direction| #[trigger] part(d) == greedy_slabs(refs, pal, d, 32),
    ensures
        greedy_mesh(refs, pal, dirs) == joined(part, dirs),
    decreases dirs.len(),
{
    if dirs.len() > 0 {
        lemma_greedy_joined(refs, pal, part, dirs.drop_last());
    }
}

proof fn lemma_culled_joined(
    refs: Neighbourhood,
    pal: Seq<(Seq<char>, Model)>,
    part: spec_fn(Direction) -> Seq<u32>,
    dirs: Seq<Direction>,
)
    requires
        forall|d: Direction| #[trigger] part(d) == culled_slabs(refs, pal, d, 32),
    ensures
        culled_mesh(refs, pal, dirs) == joined(part, dirs),
    decreases dirs.len(),
{
    if dirs.len() > 0 {
        lemma_culled_joined(refs, pal, part, dirs.drop_last());
    }
}

/// The order in which the directions are meshed changes the order of the
/// vertices and nothing else: whatever the order, the mesh of a
/// neighbourhood holds the same vertices, each as often. Meshing the same
/// neighbourhood again, in the same order, gives the same mesh, because a
/// mesh is a function of the neighbourhood, the palette and the order.
pub proof fn lemma_mesh_order(
    refs: Neighbourhood,
    pal: Seq<(Seq<char>, Model)>,
    a: Seq<Direction>,
    b: Seq<Direction>,
)
    requires
        a.to_multiset() == b.to_multiset(),
    ensures
        greedy_mesh(refs, pal, a).to_multiset() == greedy_mesh(refs, pal, b).to_multiset(),
        greedy_mesh(refs, pal, a).len() == greedy_mesh(refs, pal, b).len(),
        culled_mesh(refs, pal, a).to_multiset() == culled_mesh(refs, pal, b).to_multiset(),
        culled_mesh(refs, pal, a).len() == culled_mesh(refs, pal, b).len(),
{
    let greedy_part = |d: Direction| greedy_slabs(refs, pal, d, 32);
    lemma_greedy_joined(refs, pal, greedy_part, a);
    lemma_greedy_joined(refs, pal, greedy_part, b);
    lemma_joined_order(greedy_part, a, b);
    greedy_mesh(refs, pal, a).to_multiset_ensures();
    greedy_mesh(refs, pal, b).to_multiset_ensures();
    let culled_part = |d: Direction| culled_slabs(refs, pal, d, 32);
    lemma_culled_joined(refs, pal, culled_part, a);
    lemma_culled_joined(refs, pal, culled_part, b);
    lemma_joined_order(culled_part, a, b);
    culled_mesh(refs, pal, a).to_multiset_ensures();
    culled_mesh(refs, pal, b).to_multiset_ensures();
}

/// Whether the face of cell `i` of slab `axis` is visible.
pub open spec fn cell_visible(
    refs: Neighbourhood,
    pal: Seq<(Seq<char>, Model)>,
    dir: Direction,
    axis: int,
    i: int,
) -> bool {
    visible(refs, pal, dir, axis, i % 32, i / 32)
}

/// Whether one of the first `n` cells of slab `axis` has a visible face.
pub open spec fn cells_have(
    refs: Neighbourhood,
    pal: Seq<(Seq<char>, Model)>,
    dir: Direction,
    axis: int,
    n: int,
) -> bool {
    exists|i: int| 0 <= i < n && #[trigger] cell_visible(refs, pal, dir, axis, i)
}

/// Whether one of the first `n` slabs of direction `dir` has a visible face.
pub open spec fn slabs_have(
    refs: Neighbourhood,
    pal: Seq<(Seq<char>, Model)>,
    dir: Direction,
    n: int,
) -> bool {
    exists|axis: int| 0 <= axis < n && #[trigger] cells_have(refs, pal, dir, axis, 1024)
}

/// Whether a face of one of the directions `dirs` is visible.
pub open spec fn dirs_have(
    refs: Neighbourhood,
    pal: Seq<(Seq<char>, Model)>,
    dirs: Seq<Direction>,
) -> bool {
    exists|k: int| 0 <= k < dirs.len() && slabs_have(refs, pal, #[trigger] dirs[k], 32)
}

/// Whether the centre chunk has a visible face: a block of the chunk that
/// is drawn, next to a block that is not, which may lie in a neighbour.
pub open spec fn has_visible_face(refs: Neighbourhood, pal: Seq<(Seq<char>, Model)>) -> bool {
    exists|dir: Direction, pos: Coord|
        pos.is_local() && #[trigger] face_visible(refs, pal, dir, pos)
}

proof fn lemma_quads_len(dir: Direction, axis: int, block: int, quads: Seq<Quad>)
    ensures
        quads_vertices(dir, axis, block, quads).len() == 4 * quads.len(),
    decreases quads.len(),
{
    if quads.len() > 0 {
        lemma_quads_len(dir, axis, block, quads.drop_last());
    }
}

proof fn lemma_culled_cells_empty(
    refs: Neighbourhood,
    pal: Seq<(Seq<char>, Model)>,
    dir: Direction,
    axis: int,
    n: nat,
)
    ensures
        culled_cells(refs, pal, dir, axis, n).len() > 0 <==> cells_have(refs, pal, dir, axis, n as int),
    decreases n,
{
    if n > 0 {
        lemma_culled_cells_empty(refs, pal, dir, axis, (n - 1) as nat);
        if cells_have(refs, pal, dir, axis, n as int) {
            let i = choose|i: int| 0 <= i < n && #[trigger] cell_visible(refs, pal, dir, axis, i);
            if i < n - 1 {
                assert(cells_have(refs, pal, dir, axis, n - 1));
            }
        }
        if cells_have(refs, pal, dir, axis, n - 1) {
            let i = choose|i: int| 0 <= i < n - 1 && #[trigger] cell_visible(refs, pal, dir, axis, i);
            assert(0 <= i < n && cell_visible(refs, pal, dir, axis, i));
        }
        if visible(refs, pal, dir, axis, (n - 1) % 32, (n - 1) / 32) {
            assert(cell_visible(refs, pal, dir, axis, n - 1));
        }
    }
}

/// Whether the face of cell `i` of slab `axis` is visible and the block of
/// the cell is `block`.
spec fn cell_of_block(
    refs: Neighbourhood,
    pal: Seq<(Seq<char>, Model)>,
    dir: Direction,
    axis: int,
    block: u16,
    i: int,
) -> bool {
    cell_visible(refs, pal, dir, axis, i) && sampled(refs, dir, axis, i % 32, i / 32) == block
}

/// Whether slab `axis` has a visible face of block `block`.
spec fn slab_has_block(
    refs: Neighbourhood,
    pal: Seq<(Seq<char>, Model)>,
    dir: Direction,
    axis: int,
    block: u16,
) -> bool {
    exists|i: int| 0 <= i < 1024 && #[trigger] cell_of_block(refs, pal, dir, axis, block, i)
}

/// Whether slab `axis` has a visible face of one of the blocks `1..n`.
spec fn blocks_have(
    refs: Neighbourhood,
    pal: Seq<(Seq<char>, Model)>,
    dir: Direction,
    axis: int,
    n: nat,
) -> bool {
    exists|b: u16| 1 <= b < n && #[trigger] slab_has_block(refs, pal, dir, axis, b)
}

proof fn lemma_block_quads(
    refs: Neighbourhood,
    pal: Seq<(Seq<char>, Model)>,
    dir: Direction,
    axis: int,
    block: u16,
)
    ensures
        quads_vertices(
            dir,
            axis,
            block as int,
            greedy(slab_grid(refs, pal, dir, axis, block)),
        ).len() > 0 <==> slab_has_block(refs, pal, dir, axis, block),
{
    let grid = slab_grid(refs, pal, dir, axis, block);
    let quads = greedy(grid);
    lemma_quads_len(dir, axis, block as int, quads);
    assert(grid_wf(grid));
    lemma_greedy_empty(grid);
    if any_set(grid) {
        let (x, y) = choose|x: int, y: int| 0 <= x < 32 && 0 <= y < 32 && #[trigger] grid[y][x];
        let i = y * 32 + x;
        assert(i % 32 == x && i / 32 == y);
        assert(cell_of_block(refs, pal, dir, axis, block, i));
    }
    if slab_has_block(refs, pal, dir, axis, block) {
        let i = choose|i: int|
            0 <= i < 1024 && #[trigger] cell_of_block(refs, pal, dir, axis, block, i);
        assert(grid[i / 32][i % 32]);
    }
}

proof fn lemma_greedy_blocks_empty(
    refs: Neighbourhood,
    pal: Seq<(Seq<char>, Model)>,
    dir: Direction,
    axis: int,
    n: nat,
)
    requires
        n <= 0x1_0000,
    ensures
        greedy_blocks(refs, pal, dir, axis, n).len() > 0 <==> blocks_have(refs, pal, dir, axis, n),
    decreases n,
{
    if n > 1 {
        let block = (n - 1) as u16;
        let before = greedy_blocks(refs, pal, dir, axis, (n - 1) as nat);
        let here = quads_vertices(
            dir,
            axis,
            block as int,
            greedy(slab_grid(refs, pal, dir, axis, block)),
        );
        lemma_greedy_blocks_empty(refs, pal, dir, axis, (n - 1) as nat);
        lemma_block_quads(refs, pal, dir, axis, block);
        assert(greedy_blocks(refs, pal, dir, axis, n).len() == before.len() + here.len());
        if blocks_have(refs, pal, dir, axis, n) {
            let b = choose|b: u16| 1 <= b < n && #[trigger] slab_has_block(refs, pal, dir, axis, b);
            if b < n - 1 {
                assert(blocks_have(refs, pal, dir, axis, (n - 1) as nat));
            }
        }
        if blocks_have(refs, pal, dir, axis, (n - 1) as nat) {
            let b = choose|b: u16|
                1 <= b < n - 1 && #[trigger] slab_has_block(refs, pal, dir, axis, b);
            assert(1 <= b < n && slab_has_block(refs, pal, dir, axis, b));
        }
        if slab_has_block(refs, pal, dir, axis, block) {
            assert(1 <= block < n && slab_has_block(refs, pal, dir, axis, block));
        }
    }
}

proof fn lemma_blocks_cells(
    refs: Neighbourhood,
    pal: Seq<(Seq<char>, Model)>,
    dir: Direction,
    axis: int,
)
    ensures
        blocks_have(refs, pal, dir, axis, block_count(pal)) <==> cells_have(
            refs,
            pal,
            dir,
            axis,
            1024,
        ),
{
    let n = block_count(pal);
    if blocks_have(refs, pal, dir, axis, n) {
        let b = choose|b: u16| 1 <= b < n && #[trigger] slab_has_block(refs, pal, dir, axis, b);
        let i = choose|i: int| 0 <= i < 1024 && #[trigger] cell_of_block(refs, pal, dir, axis, b, i);
        assert(cell_visible(refs, pal, dir, axis, i));
    }
    if cells_have(refs, pal, dir, axis, 1024) {
        let i = choose|i: int| 0 <= i < 1024 && #[trigger] cell_visible(refs, pal, dir, axis, i);
        let b = sampled(refs, dir, axis, i % 32, i / 32);
        assert(meshable_in(pal, b));
        assert(cell_of_block(refs, pal, dir, axis, b, i));
        assert(slab_has_block(refs, pal, dir, axis, b));
        assert(1 <= b < n);
    }
}

proof fn lemma_slab_empty(refs: Neighbourhood, pal: Seq<(Seq<char>, Model)>, dir: Direction, axis: int)
    ensures
        culled_cells(refs, pal, dir, axis, 1024).len() > 0 <==> cells_have(
            refs,
            pal,
            dir,
            axis,
            1024,
        ),
        greedy_blocks(refs, pal, dir, axis, block_count(pal)).len() > 0 <==> cells_have(
            refs,
            pal,
            dir,
            axis,
            1024,
        ),
{
    lemma_culled_cells_empty(refs, pal, dir, axis, 1024);
    lemma_greedy_blocks_empty(refs, pal, dir, axis, block_count(pal));
    lemma_blocks_cells(refs, pal, dir, axis);
}

proof fn lemma_slabs_empty(refs: Neighbourhood, pal: Seq<(Seq<char>, Model)>, dir: Direction, n: nat)
    ensures
        culled_slabs(refs, pal, dir, n).len() > 0 <==> slabs_have(refs, pal, dir, n as int),
        greedy_slabs(refs, pal, dir, n).len() > 0 <==> slabs_have(refs, pal, dir, n as int),
    decreases n,
{
    if n > 0 {
        lemma_slabs_empty(refs, pal, dir, (n - 1) as nat);
        lemma_slab_empty(refs, pal, dir, n - 1);
        if slabs_have(refs, pal, dir, n as int) {
            let axis = choose|axis: int|
                0 <= axis < n && #[trigger] cells_have(refs, pal, dir, axis, 1024);
            if axis < n - 1 {
                assert(slabs_have(refs, pal, dir, n - 1));
            }
        }
        if slabs_have(refs, pal, dir, n - 1) {
            let axis = choose|axis: int|
                0 <= axis < n - 1 && #[trigger] cells_have(refs, pal, dir, axis, 1024);
            assert(0 <= axis < n && cells_have(refs, pal, dir, axis, 1024));
        }
        if cells_have(refs, pal, dir, n - 1, 1024) {
            assert(0 <= n - 1 < n && cells_have(refs, pal, dir, n - 1, 1024));
        }
    }
}

proof fn lemma_dirs_empty(refs: Neighbourhood, pal: Seq<(Seq<char>, Model)>, dirs: Seq<Direction>)
    ensures
        culled_mesh(refs, pal, dirs).len() > 0 <==> dirs_have(refs, pal, dirs),
        greedy_mesh(refs, pal, dirs).len() > 0 <==> dirs_have(refs, pal, dirs),
    decreases dirs.len(),
{
    if dirs.len() > 0 {
        let init = dirs.drop_last();
        lemma_dirs_empty(refs, pal, init);
        lemma_slabs_empty(refs, pal, dirs.last(), 32);
        if dirs_have(refs, pal, dirs) {
            let k = choose|k: int| 0 <= k < dirs.len() && slabs_have(refs, pal, #[trigger] dirs[k], 32);
            if k < dirs.len() - 1 {
                assert(init[k] == dirs[k]);
                assert(dirs_have(refs, pal, init));
            }
        }
        if dirs_have(refs, pal, init) {
            let k = choose|k: int| 0 <= k < init.len() && slabs_have(refs, pal, #[trigger] init[k], 32);
            assert(dirs[k] == init[k]);
        }
        if slabs_have(refs, pal, dirs.last(), 32) {
            assert(dirs[dirs.len() - 1] == dirs.last());
        }
    }
}

proof fn lemma_cell_of(dir: Direction, pos: Coord) -> (cell: (int, int, int))
    requires
        pos.is_local(),
    ensures
        0 <= cell.0 < 32,
        0 <= cell.1 < 32,
        0 <= cell.2 < 32,
        cell_pos(dir, cell.0, cell.1, cell.2) == pos,
{
    match dir {
        Direction::Up => (pos.y as int, pos.x as int, pos.z as int),
        Direction::Down => (pos.y as int, pos.x as int, pos.z as int),
        Direction::Left => (pos.x as int, pos.z as int, pos.y as int),
        Direction::Right => (pos.x as int, pos.z as int, pos.y as int),
        Direction::Forward => (pos.z as int, pos.x as int, pos.y as int),
        Direction::Back => (pos.z as int, pos.x as int, pos.y as int),
    }
}

proof fn lemma_face_of_cell(
    refs: Neighbourhood,
    pal: Seq<(Seq<char>, Model)>,
    dir: Direction,
    axis: int,
    i: int,
)
    requires
        0 <= axis < 32,
        0 <= i < 1024,
        cell_visible(refs, pal, dir, axis, i),
    ensures
        has_visible_face(refs, pal),
{
    let pos = cell_pos(dir, axis, i % 32, i / 32);
    lemma_sample_reach(dir, axis, i % 32, i / 32);
    assert(pos.is_local() && face_visible(refs, pal, dir, pos));
}

proof fn lemma_faces_of_cells(refs: Neighbourhood, pal: Seq<(Seq<char>, Model)>)
    requires
        dirs_have(refs, pal, Direction::order()),
    ensures
        has_visible_face(refs, pal),
{
    let dirs = Direction::order();
    let k = choose|k: int| 0 <= k < dirs.len() && slabs_have(refs, pal, #[trigger] dirs[k], 32);
    let dir = dirs[k];
    let axis = choose|axis: int| 0 <= axis < 32 && #[trigger] cells_have(refs, pal, dir, axis, 1024);
    let i = choose|i: int| 0 <= i < 1024 && #[trigger] cell_visible(refs, pal, dir, axis, i);
    lemma_face_of_cell(refs, pal, dir, axis, i);
}

proof fn lemma_cell_of_face(
    refs: Neighbourhood,
    pal: Seq<(Seq<char>, Model)>,
    dir: Direction,
    pos: Coord,
)
    requires
        pos.is_local(),
        face_visible(refs, pal, dir, pos),
    ensures
        slabs_have(refs, pal, dir, 32),
{
    let cell = lemma_cell_of(dir, pos);
    let i = cell.2 * 32 + cell.1;
    assert(i % 32 == cell.1 && i / 32 == cell.2);
    assert(cell_visible(refs, pal, dir, cell.0, i));
    assert(cells_have(refs, pal, dir, cell.0, 1024));
}

proof fn lemma_cells_of_faces(refs: Neighbourhood, pal: Seq<(Seq<char>, Model)>)
    requires
        has_visible_face(refs, pal),
    ensures
        dirs_have(refs, pal, Direction::order()),
{
    let dirs = Direction::order();
    let (dir, pos) = choose|dir: Direction, pos: Coord|
        pos.is_local() && #[trigger] face_visible(refs, pal, dir, pos);
    lemma_cell_of_face(refs, pal, dir, pos);
    let k: int = match dir {
        Direction::Left => 0,
        Direction::Right => 1,
        Direction::Down => 2,
        Direction::Up => 3,
        Direction::Back => 4,
        Direction::Forward => 5,
    };
    assert(dirs[k] == dir);
}

/// A chunk has a mesh exactly where it has a visible face: where a block of
/// the chunk that is drawn lies next to a block that is not. The greedy
/// mesh and the culled mesh are empty together.
pub proof fn lemma_mesh_empty(refs: Neighbourhood, pal: Seq<(Seq<char>, Model)>)
    ensures
        greedy_mesh(refs, pal, Direction::order()).len() > 0 <==> has_visible_face(refs, pal),
        culled_mesh(refs, pal, Direction::order()).len() > 0 <==> has_visible_face(refs, pal),
{
    lemma_dirs_empty(refs, pal, Direction::order());
    if dirs_have(refs, pal, Direction::order()) {
        lemma_faces_of_cells(refs, pal);
    }
    if has_visible_face(refs, pal) {
        lemma_cells_of_faces(refs, pal);
    }
}

/// In every slab the greedy rectangles cover the visible faces, each of them
/// once, and nothing else: the rectangles of a block cover the cells whose
/// face is visible and whose block it is, no two of them share a cell, and
/// every rectangle lies in the slab.
pub proof fn lemma_slab_cover(
    refs: Neighbourhood,
    pal: Seq<(Seq<char>, Model)>,
    dir: Direction,
    axis: int,
    block: u16,
)
    ensures
        all_inside(greedy(slab_grid(refs, pal, dir, axis, block))),
        disjoint(greedy(slab_grid(refs, pal, dir, axis, block))),
        forall|x: int, y: int|
            0 <= x < 32 && 0 <= y < 32 ==> (#[trigger] covered(
                greedy(slab_grid(refs, pal, dir, axis, block)),
                x,
                y,
            ) <==> visible(refs, pal, dir, axis, x, y) && sampled(refs, dir, axis, x, y) == block),
{
    let grid = slab_grid(refs, pal, dir, axis, block);
    assert(grid_wf(grid));
    lemma_greedy_exact_cover(grid);
    assert forall|x: int, y: int| 0 <= x < 32 && 0 <= y < 32 implies (#[trigger] covered(
        greedy(grid),
        x,
        y,
    ) <==> visible(refs, pal, dir, axis, x, y) && sampled(refs, dir, axis, x, y) == block) by {
        assert(grid[y][x] == (visible(refs, pal, dir, axis, x, y) && sampled(refs, dir, axis, x, y)
            == block));
    }
}

proof fn lemma_rect_len(dir: Direction, axis: int, block: int, x: int, y: int, w: int, h: int)
    ensures
        rect_vertices(dir, axis, block, x, y, w, h).len() == 4,
{
}

proof fn lemma_cells_fours(
    refs: Neighbourhood,
    pal: Seq<(Seq<char>, Model)>,
    dir: Direction,
    axis: int,
    n: nat,
)
    ensures
        culled_cells(refs, pal, dir, axis, n).len() % 4 == 0,
    decreases n,
{
    if n > 0 {
        let i = n - 1;
        let before = culled_cells(refs, pal, dir, axis, i as nat);
        lemma_cells_fours(refs, pal, dir, axis, i as nat);
        let face = rect_vertices(
            dir,
            axis,
            sampled(refs, dir, axis, i % 32, i / 32) as int,
            i % 32,
            i / 32,
            1,
            1,
        );
        lemma_rect_len(dir, axis, sampled(refs, dir, axis, i % 32, i / 32) as int, i % 32, i / 32,
            1, 1);
        assert((before + face).len() == before.len() + 4);
        assert(culled_cells(refs, pal, dir, axis, n) == before || culled_cells(
            refs,
            pal,
            dir,
            axis,
            n,
        ) == before + face);
    }
}

proof fn lemma_blocks_fours(
    refs: Neighbourhood,
    pal: Seq<(Seq<char>, Model)>,
    dir: Direction,
    axis: int,
    n: nat,
)
    ensures
        greedy_blocks(refs, pal, dir, axis, n).len() % 4 == 0,
    decreases n,
{
    if n > 1 {
        let block = (n - 1) as u16;
        lemma_blocks_fours(refs, pal, dir, axis, (n - 1) as nat);
        lemma_quads_len(dir, axis, block as int, greedy(slab_grid(refs, pal, dir, axis, block)));
    }
}

proof fn lemma_slabs_fours(refs: Neighbourhood, pal: Seq<(Seq<char>, Model)>, dir: Direction, n: nat)
    ensures
        culled_slabs(refs, pal, dir, n).len() % 4 == 0,
        greedy_slabs(refs, pal, dir, n).len() % 4 == 0,
    decreases n,
{
    if n > 0 {
        lemma_slabs_fours(refs, pal, dir, (n - 1) as nat);
        lemma_cells_fours(refs, pal, dir, n - 1, 1024);
        lemma_blocks_fours(refs, pal, dir, n - 1, block_count(pal));
        let a = culled_slabs(refs, pal, dir, (n - 1) as nat).len();
        let b = culled_cells(refs, pal, dir, n - 1, 1024).len();
        assert(culled_slabs(refs, pal, dir, n).len() == a + b);
        let c = greedy_slabs(refs, pal, dir, (n - 1) as nat).len();
        let d = greedy_blocks(refs, pal, dir, n - 1, block_count(pal)).len();
        assert(greedy_slabs(refs, pal, dir, n).len() == c + d);
    }
}

/// A mesh is made of quads: the number of its vertices is a multiple of
/// four, whatever the directions and their order.
pub proof fn lemma_mesh_fours(refs: Neighbourhood, pal: Seq<(Seq<char>, Model)>, dirs: Seq<Direction>)
    ensures
        culled_mesh(refs, pal, dirs).len() % 4 == 0,
        greedy_mesh(refs, pal, dirs).len() % 4 == 0,
    decreases dirs.len(),
{
    if dirs.len() > 0 {
        lemma_mesh_fours(refs, pal, dirs.drop_last());
        lemma_slabs_fours(refs, pal, dirs.last(), 32);
        let a = culled_mesh(refs, pal, dirs.drop_last()).len();
        let b = culled_slabs(refs, pal, dirs.last(), 32).len();
        assert(culled_mesh(refs, pal, dirs).len() == a + b);
        let c = greedy_mesh(refs, pal, dirs.drop_last()).len();
        let d = greedy_slabs(refs, pal, dirs.last(), 32).len();
        assert(greedy_mesh(refs, pal, dirs).len() == c + d);
    }
}

} // verus!

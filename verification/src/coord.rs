//! Integer positions on the block grid and on the chunk grid.

use vstd::prelude::*;

verus! {

/// Edge length of a chunk, in blocks.
pub const CHUNK_SIZE: usize = 32;

/// [`CHUNK_SIZE`] as a signed coordinate.
pub const CHUNK_SIZE_I32: i32 = 32;

/// Number of blocks in one chunk.
pub const CHUNK_SIZE_P3: usize = 32768;

/// A point with three signed integer components. It is used for world block
/// positions, for chunk coordinates and for positions local to a chunk.
#[derive(Clone, Copy, Debug, PartialEq, Eq, Hash, Structural)]
pub struct Coord {
    pub x: i32,
    pub y: i32,
    pub z: i32,
}

/// Whether `v` is the value of some `i32`.
pub open spec fn fits_i32(v: int) -> bool {
    i32::MIN <= v <= i32::MAX
}

impl Coord {
    /// The coordinate with the given components.
    pub fn new(x: i32, y: i32, z: i32) -> (c: Coord)
        ensures
            c == (Coord { x, y, z }),
    {
        Coord { x, y, z }
    }

    /// Whether the component-wise sum of `self` and `d` is a coordinate.
    pub open spec fn can_add(self, d: Coord) -> bool {
        &&& fits_i32(self.x + d.x)
        &&& fits_i32(self.y + d.y)
        &&& fits_i32(self.z + d.z)
    }

    /// The component-wise sum, meaningful where [`Coord::can_add`] holds.
    pub open spec fn plus(self, d: Coord) -> Coord {
        Coord { x: (self.x + d.x) as i32, y: (self.y + d.y) as i32, z: (self.z + d.z) as i32 }
    }

    /// The sum of the squares of the component differences.
    pub open spec fn dist2(self, other: Coord) -> int {
        (self.x - other.x) * (self.x - other.x) + (self.y - other.y) * (self.y - other.y) + (self.z
            - other.z) * (self.z - other.z)
    }

    /// The chunk coordinate of the chunk that holds world position `self`.
    pub open spec fn chunk_of(self) -> Coord {
        Coord {
            x: (self.x as int / 32) as i32,
            y: (self.y as int / 32) as i32,
            z: (self.z as int / 32) as i32,
        }
    }

    /// The position of world position `self` inside its chunk.
    pub open spec fn local_of(self) -> Coord {
        Coord {
            x: (self.x as int % 32) as i32,
            y: (self.y as int % 32) as i32,
            z: (self.z as int % 32) as i32,
        }
    }

    /// Whether every component lies in `0..CHUNK_SIZE`.
    pub open spec fn is_local(self) -> bool {
        &&& 0 <= self.x < 32
        &&& 0 <= self.y < 32
        &&& 0 <= self.z < 32
    }

    /// Whether the world position of local position `local` in chunk `self`
    /// is a coordinate.
    pub open spec fn can_hold(self, local: Coord) -> bool {
        &&& fits_i32(self.x * 32 + local.x)
        &&& fits_i32(self.y * 32 + local.y)
        &&& fits_i32(self.z * 32 + local.z)
    }

    /// The world position of local position `local` in chunk `self`,
    /// meaningful where [`Coord::can_hold`] holds.
    pub open spec fn world_of(self, local: Coord) -> Coord {
        Coord {
            x: (self.x * 32 + local.x) as i32,
            y: (self.y * 32 + local.y) as i32,
            z: (self.z * 32 + local.z) as i32,
        }
    }

    /// Component-wise sum, or `None` where a component leaves the `i32` range.
    pub fn checked_add(self, d: Coord) -> (r: Option<Coord>)
        ensures
            r is Some <==> self.can_add(d),
            r is Some ==> r->0 == self.plus(d),
    {
        let x = match self.x.checked_add(d.x) {
            Some(v) => v,
            None => { return None; },
        };
        let y = match self.y.checked_add(d.y) {
            Some(v) => v,
            None => { return None; },
        };
        let z = match self.z.checked_add(d.z) {
            Some(v) => v,
            None => { return None; },
        };
        Some(Coord { x, y, z })
    }

    /// Squared Euclidean distance between two coordinates. The result is
    /// exact for every pair of coordinates.
    pub fn distance_squared(self, other: Coord) -> (d: u128)
        ensures
            d == self.dist2(other),
    {
        let dx: i128 = self.x as i128 - other.x as i128;
        let dy: i128 = self.y as i128 - other.y as i128;
        let dz: i128 = self.z as i128 - other.z as i128;
        assert(0 <= dx * dx <= 0x1_0000_0000_0000_0000) by (nonlinear_arith)
            requires
                -0x1_0000_0000 <= dx <= 0x1_0000_0000,
        ;
        assert(0 <= dy * dy <= 0x1_0000_0000_0000_0000) by (nonlinear_arith)
            requires
                -0x1_0000_0000 <= dy <= 0x1_0000_0000,
        ;
        assert(0 <= dz * dz <= 0x1_0000_0000_0000_0000) by (nonlinear_arith)
            requires
                -0x1_0000_0000 <= dz <= 0x1_0000_0000,
        ;
        (dx * dx + dy * dy + dz * dz) as u128
    }

    /// Chunk coordinate of a world block position: each component divided by
    /// the chunk size and rounded towards negative infinity.
    pub fn to_chunk(self) -> (c: Coord)
        ensures
            c == self.chunk_of(),
    {
        Coord { x: floor_div_size(self.x), y: floor_div_size(self.y), z: floor_div_size(self.z) }
    }

    /// Position of a world block position inside its chunk: each component
    /// reduced to `0..CHUNK_SIZE`, also for negative components.
    pub fn to_local(self) -> (l: Coord)
        ensures
            l == self.local_of(),
            l.is_local(),
    {
        Coord { x: floor_mod_size(self.x), y: floor_mod_size(self.y), z: floor_mod_size(self.z) }
    }

    /// World position of the block at `local` in chunk `self`, or `None`
    /// where `local` is no local position or the world position is outside
    /// the coordinate range.
    pub fn to_world(self, local: Coord) -> (w: Option<Coord>)
        ensures
            w is Some <==> local.is_local() && self.can_hold(local),
            w is Some ==> w->0 == self.world_of(local),
    {
        if !(0 <= local.x && local.x < 32 && 0 <= local.y && local.y < 32 && 0 <= local.z
            && local.z < 32) {
            return None;
        }
        let x: i64 = self.x as i64 * 32 + local.x as i64;
        let y: i64 = self.y as i64 * 32 + local.y as i64;
        let z: i64 = self.z as i64 * 32 + local.z as i64;
        if x < -2147483648 || x > 2147483647 || y < -2147483648 || y > 2147483647 || z
            < -2147483648 || z > 2147483647 {
            return None;
        }
        Some(Coord { x: x as i32, y: y as i32, z: z as i32 })
    }
}

/// The number that stands for coordinate `c` as the key of a hash map: its
/// components, each moved into `0..2^32`, written one behind the other.
pub open spec fn key_of(c: Coord) -> u128 {
    ((c.x + 0x8000_0000) * 0x1_0000_0000_0000_0000 + (c.y + 0x8000_0000) * 0x1_0000_0000 + (c.z
        + 0x8000_0000)) as u128
}

/// The coordinate whose key is `k`, meaningful where `k` is a key.
pub open spec fn coord_of_key(k: u128) -> Coord {
    Coord {
        x: (k / 0x1_0000_0000_0000_0000 - 0x8000_0000) as i32,
        y: (k / 0x1_0000_0000 % 0x1_0000_0000 - 0x8000_0000) as i32,
        z: (k % 0x1_0000_0000 - 0x8000_0000) as i32,
    }
}

/// Whether `k` is the key of a coordinate.
pub open spec fn is_key(k: u128) -> bool {
    k < 0x1_0000_0000_0000_0000_0000_0000
}

/// Keys and coordinates correspond one to one.
pub proof fn lemma_keys(c: Coord)
    ensures
        is_key(key_of(c)),
        coord_of_key(key_of(c)) == c,
        key_of(c) == (c.x + 0x8000_0000) * 0x1_0000_0000_0000_0000 + (c.y + 0x8000_0000)
            * 0x1_0000_0000 + (c.z + 0x8000_0000),
{
}

/// Every key is the key of the coordinate that it decodes to.
pub proof fn lemma_key_of_coord(k: u128)
    requires
        is_key(k),
    ensures
        key_of(coord_of_key(k)) == k,
{
}

/// Different coordinates have different keys.
pub proof fn lemma_key_injective(a: Coord, b: Coord)
    requires
        key_of(a) == key_of(b),
    ensures
        a == b,
{
    lemma_keys(a);
    lemma_keys(b);
}

impl Coord {
    /// The key of this coordinate.
    pub fn key(self) -> (k: u128)
        ensures
            k == key_of(self),
    {
        let x: u128 = (self.x as i64 + 0x8000_0000) as u128;
        let y: u128 = (self.y as i64 + 0x8000_0000) as u128;
        let z: u128 = (self.z as i64 + 0x8000_0000) as u128;
        x * 0x1_0000_0000_0000_0000 + y * 0x1_0000_0000 + z
    }

    /// The coordinate with key `k`.
    pub fn from_key(k: u128) -> (c: Coord)
        requires
            is_key(k),
        ensures
            c == coord_of_key(k),
            key_of(c) == k,
    {
        let x: i64 = (k / 0x1_0000_0000_0000_0000) as i64 - 0x8000_0000;
        let y: i64 = (k / 0x1_0000_0000 % 0x1_0000_0000) as i64 - 0x8000_0000;
        let z: i64 = (k % 0x1_0000_0000) as i64 - 0x8000_0000;
        Coord { x: x as i32, y: y as i32, z: z as i32 }
    }
}

/// `v` divided by the chunk size, rounded towards negative infinity.
pub fn floor_div_size(v: i32) -> (q: i32)
    ensures
        q == v as int / 32,
{
    assert(v >> 5 == v as int / 32) by (bit_vector);
    v >> 5
}

/// The remainder of `v` by the chunk size, in `0..CHUNK_SIZE`.
pub fn floor_mod_size(v: i32) -> (r: i32)
    ensures
        r == v as int % 32,
        0 <= r < 32,
{
    assert(v & 31 == v as int % 32) by (bit_vector);
    v & 31
}

/// Splitting a world position into chunk coordinate and local position loses
/// nothing: the local position lies inside the chunk's bounds, and chunk
/// coordinate and local position together give the world position back. This
/// holds for negative components too, because the division rounds down.
pub proof fn lemma_split_round_trip(p: Coord)
    ensures
        p.local_of().is_local(),
        p.chunk_of().can_hold(p.local_of()),
        p.chunk_of().world_of(p.local_of()) == p,
{
}

/// Every block of a chunk maps back to that chunk: the world position built
/// from a chunk coordinate and a local position splits into the same two.
pub proof fn lemma_join_round_trip(chunk: Coord, local: Coord)
    requires
        local.is_local(),
        chunk.can_hold(local),
    ensures
        chunk.world_of(local).chunk_of() == chunk,
        chunk.world_of(local).local_of() == local,
{
}

} // verus!

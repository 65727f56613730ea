//! Render distances: which chunk coordinates around a viewer are wanted.

use vstd::prelude::*;
use crate::coord::Coord;
use crate::queue::{lemma_stable_sort_keeps, nearest_first, stable_sort_by};

verus! {

/// A box around a viewer: `radius` chunks to each side along x and z,
/// `height` chunks up and down.
#[derive(Clone, Copy, Debug, PartialEq, Eq, Structural)]
pub struct RenderDistance {
    pub radius: u8,
    pub height: u8,
}

/// The chunk coordinate of a viewer at the origin.
pub open spec fn origin() -> Coord {
    Coord { x: 0, y: 0, z: 0 }
}

/// The first `n` cells of the line of the box at (`x`, `y`), from `z = -r`
/// upwards.
pub open spec fn box_line(x: int, y: int, r: int, n: nat) -> Seq<Coord>
    decreases n,
{
    if n == 0 {
        Seq::empty()
    } else {
        box_line(x, y, r, (n - 1) as nat).push(
            Coord { x: x as i32, y: y as i32, z: (n - 1 - r) as i32 },
        )
    }
}

/// The first `n` lines of the plane of the box at `x`, from `y = -h`
/// upwards, line behind line.
pub open spec fn box_plane(x: int, r: int, h: int, n: nat) -> Seq<Coord>
    decreases n,
{
    if n == 0 {
        Seq::empty()
    } else {
        box_plane(x, r, h, (n - 1) as nat) + box_line(x, n - 1 - h, r, (2 * r + 1) as nat)
    }
}

/// The first `n` planes of the box, from `x = -r` upwards, plane behind
/// plane.
pub open spec fn box_planes(r: int, h: int, n: nat) -> Seq<Coord>
    decreases n,
{
    if n == 0 {
        Seq::empty()
    } else {
        box_planes(r, h, (n - 1) as nat) + box_plane(n - 1 - r, r, h, (2 * h + 1) as nat)
    }
}

/// The offsets of the box of `distance`, ordered by `x`, then `y`, then
/// `z`.
pub open spec fn box_cells(distance: RenderDistance) -> Seq<Coord> {
    box_planes(distance.radius as int, distance.height as int, (2 * distance.radius + 1) as nat)
}

/// Whether `offsets` is the offset list of `distance`: it holds every offset
/// of the box, each once, nearest first, and offsets at the same distance
/// ordered by `x`, then `y`, then `z`.
pub open spec fn offsets_of(offsets: Seq<Coord>, distance: RenderDistance) -> bool {
    &&& offsets.no_duplicates()
    &&& forall|c: Coord| offsets.contains(c) <==> distance.covers(origin(), c)
    &&& nearest_first(offsets, origin())
    &&& stable_sort_by(box_cells(distance), offsets, |c: Coord| c.dist2(origin()))
}

/// `slice::sort_by_key` on the coordinates of `v`, with the squared distance
/// to `viewer` as the key: a stable sort by ascending key.
#[verifier::external_body]
fn sort_by_distance(v: &mut Vec<Coord>, viewer: Coord)
    requires
        old(v)@.no_duplicates(),
    ensures
        stable_sort_by(old(v)@, final(v)@, |c: Coord| c.dist2(viewer)),
{
    v.sort_by_key(|c| c.distance_squared(viewer));
}

proof fn lemma_push_new(s: Seq<Coord>, a: Coord)
    requires
        s.no_duplicates(),
        !s.contains(a),
    ensures
        s.push(a).no_duplicates(),
        forall|c: Coord| s.push(a).contains(c) <==> s.contains(c) || c == a,
{
    let r = s.push(a);
    assert forall|c: Coord| r.contains(c) <==> s.contains(c) || c == a by {
        if r.contains(c) {
            let j = choose|j: int| 0 <= j < r.len() && r[j] == c;
            if j < s.len() {
                assert(s[j] == c);
            }
        }
        if s.contains(c) {
            let j = choose|j: int| 0 <= j < s.len() && s[j] == c;
            assert(r[j] == c);
        }
        assert(r[s.len() as int] == a);
    }
}

impl RenderDistance {
    /// The box with the given radius and height.
    pub fn new(radius: u8, height: u8) -> (d: RenderDistance)
        ensures
            d == (RenderDistance { radius, height }),
    {
        RenderDistance { radius, height }
    }

    /// Whether chunk `c` lies in the box around a viewer in chunk `center`.
    pub open spec fn covers(self, center: Coord, c: Coord) -> bool {
        &&& -self.radius <= c.x - center.x <= self.radius
        &&& -self.height <= c.y - center.y <= self.height
        &&& -self.radius <= c.z - center.z <= self.radius
    }

    /// Whether chunk `c` lies in the box around a viewer in chunk `center`.
    pub fn contains(&self, center: Coord, c: Coord) -> (b: bool)
        ensures
            b == self.covers(center, c),
    {
        let dx: i64 = c.x as i64 - center.x as i64;
        let dy: i64 = c.y as i64 - center.y as i64;
        let dz: i64 = c.z as i64 - center.z as i64;
        let r: i64 = self.radius as i64;
        let h: i64 = self.height as i64;
        -r <= dx && dx <= r && -h <= dy && dy <= h && -r <= dz && dz <= r
    }

    /// The offsets of the box from its centre: every offset once, nearest
    /// first, offsets at the same distance ordered by `x`, then `y`, then
    /// `z`.
    pub fn offsets(&self) -> (v: Vec<Coord>)
        ensures
            offsets_of(v@, *self),
    {
        let r: i32 = self.radius as i32;
        let h: i32 = self.height as i32;
        let mut v: Vec<Coord> = Vec::new();
        let mut x: i32 = -r;
        assert(v@ =~= box_planes(r as int, h as int, 0));
        while x <= r
            invariant
                r == self.radius,
                h == self.height,
                -r <= x <= r + 1,
                v@.no_duplicates(),
                forall|c: Coord| v@.contains(c) <==> self.covers(origin(), c) && c.x < x,
                v@ == box_planes(r as int, h as int, (x + r) as nat),
            decreases r + 1 - x,
        {
            let mut y: i32 = -h;
            let ghost planes = v@;
            assert(v@ =~= planes + box_plane(x as int, r as int, h as int, 0));
            while y <= h
                invariant
                    r == self.radius,
                    h == self.height,
                    -r <= x <= r,
                    -h <= y <= h + 1,
                    v@.no_duplicates(),
                    forall|c: Coord|
                        v@.contains(c) <==> self.covers(origin(), c) && (c.x < x || (c.x == x && c.y
                            < y)),
                    v@ == planes + box_plane(x as int, r as int, h as int, (y + h) as nat),
                decreases h + 1 - y,
            {
                let mut z: i32 = -r;
                let ghost lines = v@;
                assert(v@ =~= lines + box_line(x as int, y as int, r as int, 0));
                while z <= r
                    invariant
                        r == self.radius,
                        h == self.height,
                        -r <= x <= r,
                        -h <= y <= h,
                        -r <= z <= r + 1,
                        v@.no_duplicates(),
                        forall|c: Coord|
                            v@.contains(c) <==> self.covers(origin(), c) && (c.x < x || (c.x == x
                                && c.y < y) || (c.x == x && c.y == y && c.z < z)),
                        v@ == lines + box_line(x as int, y as int, r as int, (z + r) as nat),
                    decreases r + 1 - z,
                {
                    let c = Coord { x, y, z };
                    let ghost before = v@;
                    proof {
                        lemma_push_new(before, c);
                    }
                    v.push(c);
                    proof {
                        assert(v@ == before.push(c));
                        assert forall|k: Coord|
                            v@.contains(k) <==> self.covers(origin(), k) && (k.x < x || (k.x == x
                                && k.y < y) || (k.x == x && k.y == y && k.z < z + 1)) by {
                            assert(before.push(c).contains(k) <==> before.contains(k) || k == c);
                        }
                        assert(v@ =~= lines + box_line(
                            x as int,
                            y as int,
                            r as int,
                            (z + 1 + r) as nat,
                        ));
                    }
                    z += 1;
                }
                proof {
                    assert(v@ =~= planes + box_plane(
                        x as int,
                        r as int,
                        h as int,
                        (y + 1 + h) as nat,
                    ));
                }
                y += 1;
            }
            proof {
                assert(v@ =~= box_planes(r as int, h as int, (x + 1 + r) as nat));
            }
            x += 1;
        }
        let ghost unsorted = v@;
        sort_by_distance(&mut v, Coord { x: 0, y: 0, z: 0 });
        proof {
            lemma_stable_sort_keeps(unsorted, v@, |c: Coord| c.dist2(origin()));
        }
        v
    }
}

} // verus!

//! Voxel buffers, shared chunk handles and the seven-chunk neighbourhood.

use vstd::prelude::*;
use std::sync::Arc;
use std::sync::RwLock;
use crate::blocks::BlocksHandler;
use crate::coord::Coord;

verus! {

/// The block data of one chunk: one block identifier for each of its
/// `CHUNK_SIZE`³ cells. Identifier 0 is the empty block.
#[derive(Debug)]
pub struct RawChunk(Vec<u16>);

/// The index in a voxel buffer of the cell at local position `pos`:
/// `x` varies fastest, `z` slowest.
pub open spec fn cell_index(pos: Coord) -> int {
    pos.x + pos.y * 32 + pos.z * 1024
}

impl RawChunk {
    /// Edge length of a chunk, in blocks.
    pub const SIZE: usize = 32;

    /// [`RawChunk::SIZE`] as a signed coordinate.
    pub const SIZE_I32: i32 = 32;

    /// Number of cells of a chunk.
    pub const SIZE_P3: usize = 32768;

    #[verifier::type_invariant]
    spec fn full(self) -> bool {
        self.0@.len() == 32768
    }

    /// The cells of the chunk, in index order.
    pub closed spec fn view(self) -> Seq<u16> {
        self.0@
    }

    /// A buffer holds exactly `CHUNK_SIZE`³ cells.
    pub open spec fn wf(self) -> bool {
        self@.len() == 32768
    }

    /// The block at local position `pos`.
    pub open spec fn at(self, pos: Coord) -> u16 {
        self@[cell_index(pos)]
    }

    /// The chunk coordinate of the chunk that holds world block position `pos`.
    pub fn global(pos: Coord) -> (c: Coord)
        ensures
            c == pos.chunk_of(),
    {
        pos.to_chunk()
    }

    /// The position of world block position `pos` relative to its chunk.
    pub fn relative(pos: Coord) -> (l: Coord)
        ensures
            l == pos.local_of(),
            l.is_local(),
    {
        pos.to_local()
    }

    /// The buffer index of the cell at local position `pos`.
    pub fn block_index(pos: Coord) -> (i: usize)
        requires
            pos.is_local(),
        ensures
            i == cell_index(pos),
            i < 32768,
    {
        (pos.x + pos.y * 32 + pos.z * 1024) as usize
    }

    /// A chunk in which every cell holds `block`.
    pub fn filled(block: u16) -> (c: RawChunk)
        ensures
            c.wf(),
            forall|i: int| 0 <= i < 32768 ==> c@[i] == block,
    {
        RawChunk(vec![block; 32768])
    }

    /// A chunk of empty cells.
    pub fn empty() -> (c: RawChunk)
        ensures
            c.wf(),
            forall|i: int| 0 <= i < 32768 ==> c@[i] == 0,
    {
        Self::filled(0)
    }

    /// The cells as a vector, in index order.
    pub fn get(&self) -> (v: &Vec<u16>)
        ensures
            v@ == self@,
            self.wf(),
    {
        proof {
            use_type_invariant(self);
        }
        &self.0
    }

    /// The block at buffer index `index`.
    pub fn block(&self, index: usize) -> (b: u16)
        requires
            index < 32768,
        ensures
            b == self@[index as int],
            self.wf(),
    {
        proof {
            use_type_invariant(self);
        }
        self.0[index]
    }

    /// Stores `block` at buffer index `index` and leaves every other cell as
    /// it was.
    pub fn set(&mut self, index: usize, block: u16)
        requires
            index < 32768,
        ensures
            final(self)@ == old(self)@.update(index as int, block),
            final(self).wf(),
    {
        proof {
            use_type_invariant(&*self);
        }
        self.0[index] = block;
    }

    /// The block that [`RawChunk::generate`] puts into cell `index` of the
    /// chunk at chunk coordinate `pos`: the bottom layer of the chunks at
    /// height 0 is made of `ground`, everything else is empty.
    pub open spec fn generated(pos: Coord, ground: u16, index: int) -> u16 {
        if pos.y == 0 && index / 32 % 32 == 0 {
            ground
        } else {
            0
        }
    }

    /// Main generate function: the blocks of the chunk at chunk coordinate
    /// `pos`. The ground is made of the block named "Grass", or of the
    /// empty block where the palette has no such block.
    pub fn generate(blocks: &BlocksHandler, pos: Coord) -> (c: RawChunk)
        requires
            blocks.wf(),
        ensures
            c.wf(),
            forall|i: int|
                0 <= i < 32768 ==> c@[i] == Self::generated(pos, blocks.block_of("Grass"@) as u16, i),
    {
        let mut chunk = Self::empty();
        if pos.y == 0 {
            let ground = blocks.block("Grass");
            let mut z: usize = 0;
            while z < 32
                invariant
                    z <= 32,
                    chunk.wf(),
                    forall|i: int|
                        0 <= i < 32768 ==> chunk@[i] == (if i / 32 % 32 == 0 && i / 1024 < z {
                            ground
                        } else {
                            0
                        }),
                decreases 32 - z,
            {
                let mut x: usize = 0;
                while x < 32
                    invariant
                        z < 32,
                        x <= 32,
                        chunk.wf(),
                        forall|i: int|
                            0 <= i < 32768 ==> chunk@[i] == (if i / 32 % 32 == 0 && (i / 1024 < z
                                || (i / 1024 == z && i % 32 < x)) {
                                ground
                            } else {
                                0
                            }),
                    decreases 32 - x,
                {
                    chunk.set(x + z * 1024, ground);
                    x += 1;
                }
                z += 1;
            }
        }
        chunk
    }

    /// A copy of the chunk with the same cells.
    pub fn duplicate(&self) -> (c: RawChunk)
        ensures
            c@ == self@,
            c.wf(),
    {
        proof {
            use_type_invariant(self);
        }
        RawChunk(self.0.clone())
    }
}

/// `std::sync::RwLock`: a lock for many readers or one writer. The verifier
/// sees nothing inside it.
#[verifier::external_type_specification]
#[verifier::external_body]
#[verifier::reject_recursive_types(T)]
pub struct ExRwLock<T: ?Sized>(RwLock<T>);

/// `RwLock::new`: a lock that holds `raw`.
#[verifier::external_body]
fn lock_new(raw: RawChunk) -> (lock: RwLock<RawChunk>) {
    RwLock::new(raw)
}

/// `RwLock::read`: waits for the read lock and copies the buffer out. Any
/// writer may have replaced the buffer since it was stored, so nothing is
/// claimed of the cells that come back. A poisoned lock is read like any
/// other.
#[verifier::external_body]
fn lock_read(lock: &RwLock<RawChunk>) -> (raw: RawChunk) {
    match lock.read() {
        Ok(guard) => RawChunk(guard.0.clone()),
        Err(poisoned) => RawChunk(poisoned.into_inner().0.clone()),
    }
}

/// `RwLock::write`: waits for the write lock and replaces the buffer by
/// `raw`. A poisoned lock is written like any other.
#[verifier::external_body]
fn lock_write(lock: &RwLock<RawChunk>, raw: RawChunk) {
    match lock.write() {
        Ok(mut guard) => { *guard = raw; },
        Err(poisoned) => { *poisoned.into_inner() = raw; },
    }
}

/// `Arc::clone`: another pointer to the same lock. The two pointers are
/// equal, as two pointers to one value are.
#[verifier::external_body]
fn lock_share(lock: &Arc<RwLock<RawChunk>>) -> (other: Arc<RwLock<RawChunk>>)
    ensures
        other == *lock,
{
    Arc::clone(lock)
}

/// A shared handle to the voxel buffer of one chunk. Any number of readers,
/// or one writer, hold the buffer at a time.
#[derive(Debug, Clone)]
pub struct Chunk(Arc<RwLock<RawChunk>>);

impl Chunk {
    /// Wraps a buffer for shared ownership.
    pub fn new(raw: RawChunk) -> (c: Chunk) {
        Chunk(Arc::new(lock_new(raw)))
    }

    /// Another handle to the same buffer.
    pub fn share(&self) -> (c: Chunk)
        ensures
            c == *self,
    {
        Chunk(lock_share(&self.0))
    }

    /// Get read access with the lock: a copy of the buffer as it is now.
    /// The buffer is read whole, under the read lock: no writer is halfway
    /// through it. Which blocks it holds is up to the writers; that it holds
    /// one block for each cell of the chunk is certain.
    pub fn read(&self) -> (raw: RawChunk)
        ensures
            raw.wf(),
    {
        let raw = lock_read(&self.0);
        proof {
            use_type_invariant(&raw);
        }
        raw
    }

    /// Get write access with the lock: replaces the buffer by `raw`. The
    /// lock is held for the replacement and no longer.
    pub fn write(&self, raw: RawChunk) {
        lock_write(&self.0, raw)
    }
}

/// The offset from a chunk to itself and to its six face neighbours, in the
/// order in which a neighbourhood holds them: the chunk itself, down, up,
/// left, right, forward, back.
pub open spec fn offset_at(i: int) -> Coord {
    if i == 1 {
        Coord { x: 0, y: -1i32, z: 0 }
    } else if i == 2 {
        Coord { x: 0, y: 1, z: 0 }
    } else if i == 3 {
        Coord { x: -1i32, y: 0, z: 0 }
    } else if i == 4 {
        Coord { x: 1, y: 0, z: 0 }
    } else if i == 5 {
        Coord { x: 0, y: 0, z: -1i32 }
    } else if i == 6 {
        Coord { x: 0, y: 0, z: 1 }
    } else {
        Coord { x: 0, y: 0, z: 0 }
    }
}

/// Whether `v` is one of the seven neighbourhood offsets.
pub open spec fn is_offset(v: Coord) -> bool {
    exists|i: int| 0 <= i < 7 && offset_at(i) == v
}

/// The place of offset `v` in the neighbourhood order.
pub open spec fn offset_place(v: Coord) -> int {
    choose|i: int| 0 <= i < 7 && offset_at(i) == v
}

/// The first `n` neighbourhood offsets added to `pos`, without those whose
/// sum is no coordinate.
pub open spec fn offsets_upto(pos: Coord, n: nat) -> Seq<Coord>
    decreases n,
{
    if n == 0 {
        Seq::empty()
    } else {
        let rest = offsets_upto(pos, (n - 1) as nat);
        if pos.can_add(offset_at(n - 1)) {
            rest.push(pos.plus(offset_at(n - 1)))
        } else {
            rest
        }
    }
}

/// Whether `pos` can be looked up in the neighbourhood of a chunk: it lies in
/// the chunk or at most one chunk width outside it, and outside it along at
/// most one axis.
pub open spec fn in_reach(pos: Coord) -> bool {
    &&& -32 <= pos.x < 64
    &&& -32 <= pos.y < 64
    &&& -32 <= pos.z < 64
    &&& is_offset(pos.chunk_of())
}

/// Contains all near chunks: the handles of a chunk and of its six face
/// neighbours, in neighbourhood order.
#[derive(Debug, Clone)]
pub struct ChunksRefs([Chunk; 7]);

impl ChunksRefs {
    /// Edge length of each chunk, in blocks.
    pub const SIZE: usize = 32;

    /// [`ChunksRefs::SIZE`] as a signed coordinate.
    pub const SIZE_I32: i32 = 32;

    /// The seven handles, in neighbourhood order.
    pub closed spec fn view(self) -> Seq<Chunk> {
        self.0@
    }

    /// Neighbourhood offset number `i`.
    pub fn offset(i: usize) -> (v: Coord)
        requires
            i < 7,
        ensures
            v == offset_at(i as int),
    {
        if i == 1 {
            Coord { x: 0, y: -1, z: 0 }
        } else if i == 2 {
            Coord { x: 0, y: 1, z: 0 }
        } else if i == 3 {
            Coord { x: -1, y: 0, z: 0 }
        } else if i == 4 {
            Coord { x: 1, y: 0, z: 0 }
        } else if i == 5 {
            Coord { x: 0, y: 0, z: -1 }
        } else if i == 6 {
            Coord { x: 0, y: 0, z: 1 }
        } else {
            Coord { x: 0, y: 0, z: 0 }
        }
    }

    /// The chunk coordinates of the neighbourhood of `pos`, in neighbourhood
    /// order. A neighbour beyond the coordinate range is left out.
    pub fn offsets(pos: Coord) -> (v: Vec<Coord>)
        ensures
            v@ == offsets_upto(pos, 7),
    {
        let mut v: Vec<Coord> = Vec::new();
        let mut i: usize = 0;
        while i < 7
            invariant
                i <= 7,
                v@ == offsets_upto(pos, i as nat),
            decreases 7 - i,
        {
            match pos.checked_add(Self::offset(i)) {
                Some(c) => { v.push(c); },
                None => {},
            }
            i += 1;
        }
        v
    }

    /// The bundle of the given handles, in neighbourhood order.
    pub fn new(data: [Chunk; 7]) -> (r: ChunksRefs)
        ensures
            r@ == data@,
    {
        ChunksRefs(data)
    }

    /// The place of `v` among the neighbourhood offsets, or `None` where `v`
    /// is none of them.
    pub fn offset_index(v: Coord) -> (r: Option<usize>)
        ensures
            r is Some <==> is_offset(v),
            r is Some ==> r->0 < 7 && offset_at(r->0 as int) == v && r->0 == offset_place(v),
    {
        let mut i: usize = 0;
        while i < 7
            invariant
                i <= 7,
                forall|j: int| 0 <= j < i ==> offset_at(j) != v,
            decreases 7 - i,
        {
            if Self::offset(i) == v {
                proof {
                    lemma_offsets_distinct();
                }
                return Some(i);
            }
            i += 1;
        }
        None
    }

    /// Reads the seven buffers, each whole and under its read lock, as they
    /// are now.
    pub fn read(&self) -> (around: Neighbourhood)
        ensures
            around.wf(),
    {
        Neighbourhood::new(
            [
                self.0[0].read(),
                self.0[1].read(),
                self.0[2].read(),
                self.0[3].read(),
                self.0[4].read(),
                self.0[5].read(),
                self.0[6].read(),
            ],
        )
    }

    /// The block at `pos`, a position relative to the centre chunk, as it is
    /// now. Where `pos` lies outside the centre chunk the block is read from
    /// the neighbour that holds it.
    pub fn get_block(&self, pos: Coord) -> (b: u16)
        requires
            in_reach(pos),
    {
        let place = match Self::offset_index(pos.to_chunk()) {
            Some(i) => i,
            None => 0,
        };
        let index = RawChunk::block_index(pos.to_local());
        self.0[place].read().block(index)
    }
}

/// The voxel buffers of a chunk and of its six face neighbours, as they were
/// when they were read.
#[derive(Debug)]
pub struct Neighbourhood([RawChunk; 7]);

impl Neighbourhood {
    #[verifier::type_invariant]
    spec fn full(self) -> bool {
        forall|i: int| 0 <= i < 7 ==> (#[trigger] self.0[i])@.len() == 32768
    }

    /// The seven buffers, in neighbourhood order.
    pub closed spec fn view(self) -> Seq<Seq<u16>> {
        Seq::new(7, |i: int| self.0[i]@)
    }

    /// A neighbourhood holds seven full buffers.
    pub open spec fn wf(self) -> bool {
        &&& self@.len() == 7
        &&& forall|i: int| 0 <= i < 7 ==> (#[trigger] self@[i]).len() == 32768
    }

    /// The block at `pos`, a position relative to the centre chunk that may
    /// lie in a neighbour.
    pub open spec fn block_at(self, pos: Coord) -> u16 {
        self@[offset_place(pos.chunk_of())][cell_index(pos.local_of())]
    }

    /// A neighbourhood of the given buffers, in neighbourhood order.
    pub fn new(data: [RawChunk; 7]) -> (r: Neighbourhood)
        ensures
            r.wf(),
            forall|i: int| 0 <= i < 7 ==> r@[i] == data[i]@,
    {
        let mut i: usize = 0;
        while i < 7
            invariant
                i <= 7,
                forall|j: int| 0 <= j < i ==> (#[trigger] data[j])@.len() == 32768,
            decreases 7 - i,
        {
            let chunk = &data[i];
            proof {
                use_type_invariant(chunk);
            }
            i += 1;
        }
        Neighbourhood(data)
    }

    /// The block at `pos`, a position relative to the centre chunk. Where
    /// `pos` lies outside the centre chunk the block is read from the
    /// neighbour that holds it.
    pub fn get_block(&self, pos: Coord) -> (b: u16)
        requires
            in_reach(pos),
        ensures
            b == self.block_at(pos),
            self.wf(),
    {
        let place = match ChunksRefs::offset_index(pos.to_chunk()) {
            Some(i) => i,
            None => 0,
        };
        let index = RawChunk::block_index(pos.to_local());
        proof {
            use_type_invariant(self);
        }
        self.0[place].block(index)
    }

    /// The block at local position `pos` and the blocks behind it, to its
    /// left and below it, in this order.
    pub fn get_adjacent_blocks(&self, pos: Coord) -> (r: (u16, u16, u16, u16))
        requires
            pos.is_local(),
        ensures
            r.0 == self.block_at(pos),
            r.1 == self.block_at(Coord { x: pos.x, y: pos.y, z: (pos.z - 1) as i32 }),
            r.2 == self.block_at(Coord { x: (pos.x - 1) as i32, y: pos.y, z: pos.z }),
            r.3 == self.block_at(Coord { x: pos.x, y: (pos.y - 1) as i32, z: pos.z }),
    {
        proof {
            lemma_reach_of_step(pos);
            assert(pos.plus(offset_at(5)) == Coord { x: pos.x, y: pos.y, z: (pos.z - 1) as i32 });
            assert(pos.plus(offset_at(3)) == Coord { x: (pos.x - 1) as i32, y: pos.y, z: pos.z });
            assert(pos.plus(offset_at(1)) == Coord { x: pos.x, y: (pos.y - 1) as i32, z: pos.z });
        }
        let current = self.get_block(pos);
        let back = self.get_block(Coord { x: pos.x, y: pos.y, z: pos.z - 1 });
        let left = self.get_block(Coord { x: pos.x - 1, y: pos.y, z: pos.z });
        let down = self.get_block(Coord { x: pos.x, y: pos.y - 1, z: pos.z });
        (current, back, left, down)
    }

}

/// The seven neighbourhood offsets differ from each other.
pub proof fn lemma_offsets_distinct()
    ensures
        forall|i: int, j: int|
            0 <= i < 7 && 0 <= j < 7 && offset_at(i) == offset_at(j) ==> i == j,
        forall|i: int| 0 <= i < 7 ==> is_offset(#[trigger] offset_at(i))
            && offset_place(offset_at(i)) == i,
{
    assert forall|i: int| 0 <= i < 7 implies is_offset(#[trigger] offset_at(i)) && offset_place(
        offset_at(i),
    ) == i by {
        let v = offset_at(i);
        assert(0 <= i < 7 && offset_at(i) == v);
    }
}

/// A position in the centre chunk, or one step outside it along one axis,
/// can be looked up in the neighbourhood.
pub proof fn lemma_reach_of_step(pos: Coord)
    requires
        pos.is_local(),
    ensures
        in_reach(pos),
        forall|i: int| 0 <= i < 7 ==> in_reach(#[trigger] pos.plus(offset_at(i))),
{
    assert(pos.chunk_of() == offset_at(0));
    assert forall|i: int| 0 <= i < 7 implies in_reach(#[trigger] pos.plus(offset_at(i))) by {
        let q = pos.plus(offset_at(i));
        let c = q.chunk_of();
        if c == offset_at(0) {
        } else if c == offset_at(1) {
        } else if c == offset_at(2) {
        } else if c == offset_at(3) {
        } else if c == offset_at(4) {
        } else if c == offset_at(5) {
        } else {
            assert(c == offset_at(6));
        }
    }
}

} // verus!

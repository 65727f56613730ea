//! The block under the cursor and the edits that start from it.

use vstd::prelude::*;
use crate::chunk::{cell_index, offsets_upto, Chunk, RawChunk};
use crate::controller::{Controller, State};
use crate::coord::Coord;
use crate::queue::extended;

verus! {

/// One cell of the world: its chunk, its index in the chunk, and the block
/// that it held when it was looked at.
#[derive(Debug, Clone, Copy, PartialEq, Eq, Structural)]
pub struct SelectedBlock {
    pub chunk: Coord,
    pub block: usize,
    pub data: u16,
}

impl SelectedBlock {
    /// No cell: the first cell of the chunk at the origin, without data.
    pub fn empty() -> (b: SelectedBlock)
        ensures
            b == (SelectedBlock { chunk: Coord { x: 0, y: 0, z: 0 }, block: 0, data: 0 }),
    {
        SelectedBlock { chunk: Coord { x: 0, y: 0, z: 0 }, block: 0, data: 0 }
    }

    /// Makes this the cell `block` of chunk `chunk`, holding `data`.
    pub fn set(&mut self, chunk: Coord, block: usize, data: u16)
        ensures
            *final(self) == (SelectedBlock { chunk, block, data }),
    {
        self.chunk = chunk;
        self.block = block;
        self.data = data;
    }
}

/// What the cursor points at: `current` is the first block along the view
/// ray that is not empty, `previous` the last empty cell before it. A
/// `current` without data means that nothing is selected.
#[derive(Debug, Clone, Copy, PartialEq, Eq, Structural)]
pub struct SelectedData {
    pub previous: SelectedBlock,
    pub current: SelectedBlock,
}

/// The selection before a ray is walked.
pub open spec fn nothing_selected() -> SelectedData {
    SelectedData {
        previous: SelectedBlock { chunk: Coord { x: 0, y: 0, z: 0 }, block: 0, data: 0 },
        current: SelectedBlock { chunk: Coord { x: 0, y: 0, z: 0 }, block: 0, data: 0 },
    }
}

/// The selection after the cells `hits` along the ray were looked at, one
/// after the other, starting from `start`: an empty cell becomes
/// `previous`, the first cell that is not empty becomes `current` and ends
/// the walk.
pub open spec fn selection(start: SelectedData, hits: Seq<SelectedBlock>) -> SelectedData
    decreases hits.len(),
{
    if hits.len() == 0 {
        start
    } else if hits[0].data == 0 {
        selection(SelectedData { previous: hits[0], ..start }, hits.drop_first())
    } else {
        SelectedData { current: hits[0], ..start }
    }
}

impl SelectedData {
    /// Nothing selected.
    pub fn empty() -> (d: SelectedData)
        ensures
            d == nothing_selected(),
    {
        SelectedData { previous: SelectedBlock::empty(), current: SelectedBlock::empty() }
    }

    /// Forgets the selection.
    pub fn reset(&mut self)
        ensures
            *final(self) == nothing_selected(),
    {
        *self = Self::empty();
    }

    /// The selection that the cells `hits` give: the cells of the view ray
    /// that lie in loaded chunks, in the order of the ray.
    pub fn select(hits: &Vec<SelectedBlock>) -> (d: SelectedData)
        ensures
            d == selection(nothing_selected(), hits@),
    {
        let mut selected = Self::empty();
        let mut i: usize = 0;
        assert(hits@.skip(0) =~= hits@);
        while i < hits.len()
            invariant
                i <= hits.len(),
                selection(nothing_selected(), hits@) == selection(selected, hits@.skip(i as int)),
            decreases hits.len() - i,
        {
            let hit = hits[i];
            proof {
                assert(hits@.skip(i as int)[0] == hit);
                assert(hits@.skip(i as int).drop_first() =~= hits@.skip(i + 1));
            }
            if hit.data == 0 {
                selected.previous = hit;
            } else {
                selected.current = hit;
                return selected;
            }
            i += 1;
        }
        selected
    }
}

/// The cell at world block position `pos` as a selected block with the data
/// `data`.
pub open spec fn cell_of(pos: Coord, data: u16) -> SelectedBlock {
    SelectedBlock { chunk: pos.chunk_of(), block: cell_index(pos.local_of()) as usize, data }
}

/// The positions of `samples` whose chunk is loaded, in order.
pub open spec fn loaded_of(samples: Seq<Coord>, chunks: Map<Coord, Chunk>) -> Seq<Coord>
    decreases samples.len(),
{
    if samples.len() == 0 {
        Seq::empty()
    } else if chunks.contains_key(samples.last().chunk_of()) {
        loaded_of(samples.drop_last(), chunks).push(samples.last())
    } else {
        loaded_of(samples.drop_last(), chunks)
    }
}

/// Looks at the world block positions `samples`, which lie along the view
/// ray in its order, and gives the cells among them that lie in loaded
/// chunks, each with the block that it holds now.
pub fn look(controller: &Controller, samples: &Vec<Coord>) -> (hits: Vec<SelectedBlock>)
    ensures
        hits@.len() == loaded_of(samples@, controller@.chunks).len(),
        forall|i: int|
            0 <= i < hits@.len() ==> #[trigger] hits@[i] == cell_of(
                loaded_of(samples@, controller@.chunks)[i],
                hits@[i].data,
            ),
{
    let mut hits: Vec<SelectedBlock> = Vec::new();
    let mut i: usize = 0;
    assert(samples@.take(0) =~= Seq::<Coord>::empty());
    while i < samples.len()
        invariant
            i <= samples.len(),
            hits@.len() == loaded_of(samples@.take(i as int), controller@.chunks).len(),
            forall|k: int|
                0 <= k < hits@.len() ==> #[trigger] hits@[k] == cell_of(
                    loaded_of(samples@.take(i as int), controller@.chunks)[k],
                    hits@[k].data,
                ),
        decreases samples.len() - i,
    {
        let pos = samples[i];
        let chunk = RawChunk::global(pos);
        let index = RawChunk::block_index(RawChunk::relative(pos));
        proof {
            let next = samples@.take(i + 1);
            assert(next.drop_last() =~= samples@.take(i as int));
            assert(next.last() == pos);
        }
        match controller.read_block(chunk, index) {
            Some(data) => {
                hits.push(SelectedBlock { chunk, block: index, data });
            },
            None => {},
        }
        i += 1;
    }
    assert(samples@.take(samples@.len() as int) =~= samples@);
    hits
}

/// The selection along the view ray through the world block positions
/// `samples`: the cells in loaded chunks are looked at, and the first that
/// is not empty is selected.
pub fn update_selected(controller: &Controller, samples: &Vec<Coord>, selected: &mut SelectedData)
    ensures
        exists|hits: Seq<SelectedBlock>|
            {
                &&& hits.len() == loaded_of(samples@, controller@.chunks).len()
                &&& forall|i: int|
                    0 <= i < hits.len() ==> #[trigger] hits[i] == cell_of(
                        loaded_of(samples@, controller@.chunks)[i],
                        hits[i].data,
                    )
                &&& *final(selected) == selection(nothing_selected(), hits)
            },
{
    let hits = look(controller, samples);
    *selected = SelectedData::select(&hits);
    proof {
        let seen = hits@;
        assert(seen.len() == loaded_of(samples@, controller@.chunks).len() && (forall|i: int|
            0 <= i < seen.len() ==> #[trigger] seen[i] == cell_of(
                loaded_of(samples@, controller@.chunks)[i],
                seen[i].data,
            )) && *selected == selection(nothing_selected(), seen));
    }
}

/// Destroy block: where a block is selected, its cell is emptied and its
/// chunk and the six face neighbours are queued for meshing. Returns
/// whether a block is selected.
pub fn destroy_selected(controller: &mut Controller, selected: &SelectedData) -> (done: bool)
    requires
        old(controller).wf(),
    ensures
        final(controller).wf(),
        done == (selected.current.data != 0),
        !done ==> final(controller)@ == old(controller)@,
        done ==> final(controller)@ == (State {
            build: extended(old(controller)@.build, offsets_upto(selected.current.chunk, 7)),
            need_sort: true,
            ..old(controller)@
        }),
{
    if selected.current.data != 0 {
        controller.write_block(selected.current.chunk, selected.current.block, 0);
        controller.rebuild(selected.current.chunk);
        true
    } else {
        false
    }
}

/// Place block: where a block is selected, `block` is stored in the empty
/// cell before it, and the chunk of that cell and its six face neighbours
/// are queued for meshing. Returns whether a block is selected.
pub fn place_selected(controller: &mut Controller, selected: &SelectedData, block: u16) -> (done: bool)
    requires
        old(controller).wf(),
    ensures
        final(controller).wf(),
        done == (selected.current.data != 0),
        !done ==> final(controller)@ == old(controller)@,
        done ==> final(controller)@ == (State {
            build: extended(old(controller)@.build, offsets_upto(selected.previous.chunk, 7)),
            need_sort: true,
            ..old(controller)@
        }),
{
    if selected.current.data != 0 {
        controller.write_block(selected.previous.chunk, selected.previous.block, block);
        controller.rebuild(selected.previous.chunk);
        true
    } else {
        false
    }
}

/// The build queue after the chunks of the world block positions `samples`
/// were queued for meshing, each with its six face neighbours.
pub open spec fn filled_queue(build: Seq<Coord>, samples: Seq<Coord>) -> Seq<Coord>
    decreases samples.len(),
{
    if samples.len() == 0 {
        build
    } else {
        extended(
            filled_queue(build, samples.drop_last()),
            offsets_upto(samples.last().chunk_of(), 7),
        )
    }
}

/// Stores `block` at each of the world block positions `samples`, as far as
/// their chunks are loaded, and queues the chunk of each position and its
/// six face neighbours for meshing.
pub fn fill(controller: &mut Controller, samples: &Vec<Coord>, block: u16)
    requires
        old(controller).wf(),
    ensures
        final(controller).wf(),
        samples@.len() == 0 ==> final(controller)@ == old(controller)@,
        samples@.len() > 0 ==> final(controller)@ == (State {
            build: filled_queue(old(controller)@.build, samples@),
            need_sort: true,
            ..old(controller)@
        }),
{
    let mut i: usize = 0;
    let ghost first = controller@;
    assert(samples@.take(0) =~= Seq::<Coord>::empty());
    while i < samples.len()
        invariant
            i <= samples.len(),
            controller.wf(),
            i == 0 ==> controller@ == first,
            i > 0 ==> controller@ == (State {
                build: filled_queue(first.build, samples@.take(i as int)),
                need_sort: true,
                ..first
            }),
            filled_queue(first.build, samples@.take(0)) == first.build,
        decreases samples.len() - i,
    {
        proof {
            let next = samples@.take(i + 1);
            assert(next.drop_last() =~= samples@.take(i as int));
            assert(next.last() == samples@[i as int]);
        }
        controller.edit_block(samples[i], block);
        i += 1;
    }
    assert(samples@.take(samples@.len() as int) =~= samples@);
}

} // verus!

//! The world store and the streaming scheduler: which chunks exist, which
//! are queued for generation, meshing and unloading, and which tasks are in
//! flight.
//!
//! The controller decides; the host performs. Each tick the host tells the
//! controller where the viewer is, takes the work that [`Controller::begin`]
//! hands out, runs it on its task pool, and reports each finished task back.

use vstd::prelude::*;
use crate::chunk::{offset_at, offsets_upto, Chunk, ChunksRefs, RawChunk};
use crate::coord::Coord;
use crate::queue::{
    extended, lemma_extended, lemma_only, lemma_only_without, lemma_without, only, stable_sort_by,
    without, Queue,
};
use crate::render::{offsets_of, origin, RenderDistance};
use crate::mesher::ChunkMesh;
use crate::store::{CoordMap, CoordSet};

verus! {

/// Max thread tasks: how many generation tasks may be in flight.
pub const MAX_CHUNKS: usize = 4;

/// How many meshing tasks may be in flight.
pub const MAX_MESHES: usize = 2;

/// What a controller holds, as mathematical values.
pub struct State {
    /// The chunk of each loaded coordinate.
    pub chunks: Map<Coord, Chunk>,
    /// The renderer's handle of the mesh of each meshed coordinate.
    pub meshes: Map<Coord, u64>,
    /// The coordinates that wait for generation.
    pub load: Seq<Coord>,
    /// The coordinates that wait for meshing.
    pub build: Seq<Coord>,
    /// The coordinates that wait for unloading.
    pub unload: Seq<Coord>,
    /// The mesh handles that the renderer is to despawn.
    pub despawn: Seq<u64>,
    /// The coordinates whose generation task is in flight.
    pub load_tasks: Seq<Coord>,
    /// The coordinates whose meshing task is in flight.
    pub build_tasks: Seq<Coord>,
    /// Whether the queues are sorted anew before the next dispatch.
    pub need_sort: bool,
    /// The chunk of the viewer, once it is known.
    pub center: Option<Coord>,
    /// The box of chunks that are kept loaded.
    pub load_distance: RenderDistance,
    /// The box of chunks that are kept meshed.
    pub build_distance: RenderDistance,
    /// The offsets of the load box from the viewer, nearest first.
    pub load_offsets: Seq<Coord>,
    /// The offsets of the build box from the viewer, nearest first.
    pub build_offsets: Seq<Coord>,
}

/// Whether `pos` and its six face neighbours are all loaded.
pub open spec fn complete(chunks: Map<Coord, Chunk>, pos: Coord) -> bool {
    forall|i: int|
        0 <= i < 7 ==> pos.can_add(#[trigger] offset_at(i)) && chunks.contains_key(
            pos.plus(offset_at(i)),
        )
}

/// The point to which the queues are sorted: the viewer's chunk, or the
/// origin as long as the viewer is not known.
pub open spec fn sort_center(s: State) -> Coord {
    match s.center {
        Some(c) => c,
        None => origin(),
    }
}

/// How many generation tasks a dispatch starts: as many as the budget
/// leaves, and no more than wait.
pub open spec fn load_count(s: State) -> int {
    let free = MAX_CHUNKS - s.load_tasks.len();
    if free <= 0 {
        0
    } else if free <= s.load.len() {
        free
    } else {
        s.load.len() as int
    }
}

/// How many meshing tasks a dispatch may start.
pub open spec fn build_budget(s: State) -> nat {
    let free = MAX_MESHES - s.build_tasks.len();
    if free <= 0 {
        0
    } else {
        free as nat
    }
}

/// Whether the meshing of `c` can start: its neighbourhood is loaded and no
/// meshing of it is in flight.
pub open spec fn ready(chunks: Map<Coord, Chunk>, busy: Seq<Coord>, c: Coord) -> bool {
    complete(chunks, c) && !busy.contains(c)
}

/// The first `budget` coordinates of `q` whose meshing can start, in the
/// order of `q`.
pub open spec fn taken(
    q: Seq<Coord>,
    chunks: Map<Coord, Chunk>,
    busy: Seq<Coord>,
    budget: nat,
) -> Seq<Coord>
    decreases q.len(),
{
    if q.len() == 0 || budget == 0 {
        Seq::empty()
    } else if ready(chunks, busy, q[0]) {
        seq![q[0]] + taken(q.drop_first(), chunks, busy, (budget - 1) as nat)
    } else {
        taken(q.drop_first(), chunks, busy, budget)
    }
}

/// What stays of `q` when the coordinates of [`taken`] leave it.
pub open spec fn passed(
    q: Seq<Coord>,
    chunks: Map<Coord, Chunk>,
    busy: Seq<Coord>,
    budget: nat,
) -> Seq<Coord>
    decreases q.len(),
{
    if q.len() == 0 {
        Seq::empty()
    } else if budget == 0 {
        q
    } else if ready(chunks, busy, q[0]) {
        passed(q.drop_first(), chunks, busy, (budget - 1) as nat)
    } else {
        seq![q[0]] + passed(q.drop_first(), chunks, busy, budget)
    }
}

/// The coordinates whose generation a dispatch from state `s` starts: the
/// first of the queue.
pub open spec fn loads_of(s: State) -> Seq<Coord> {
    s.load.take(load_count(s))
}

/// The coordinates whose meshing a dispatch from state `s` starts.
pub open spec fn builds_of(s: State) -> Seq<Coord> {
    taken(s.build, s.chunks, s.build_tasks, build_budget(s))
}

/// The state after a dispatch from state `s`.
pub open spec fn after_dispatch(s: State) -> State {
    State {
        load: s.load.skip(load_count(s)),
        load_tasks: s.load_tasks + loads_of(s),
        build: passed(s.build, s.chunks, s.build_tasks, build_budget(s)),
        build_tasks: s.build_tasks + builds_of(s),
        ..s
    }
}

/// Whether `t` is state `s` with its queues sorted, where sorting was asked
/// for: nearest to the viewer first, coordinates at the same distance in
/// the order that they had.
pub open spec fn sorted_from(s: State, t: State) -> bool {
    if s.need_sort {
        &&& stable_sort_by(s.load, t.load, |c: Coord| c.dist2(sort_center(s)))
        &&& stable_sort_by(s.build, t.build, |c: Coord| c.dist2(sort_center(s)))
        &&& t == (State { load: t.load, build: t.build, need_sort: false, ..s })
    } else {
        t == s
    }
}

/// Whether a task for `c` is in flight.
pub open spec fn in_flight(s: State, c: Coord) -> bool {
    s.load_tasks.contains(c) || s.build_tasks.contains(c)
}

/// The coordinates of `q` whose unloading has to wait because a task for
/// them is in flight, in the order of `q`.
pub open spec fn deferred(q: Seq<Coord>, s: State) -> Seq<Coord>
    decreases q.len(),
{
    if q.len() == 0 {
        Seq::empty()
    } else if in_flight(s, q.last()) {
        deferred(q.drop_last(), s).push(q.last())
    } else {
        deferred(q.drop_last(), s)
    }
}

/// The coordinates of `q` that can be unloaded: no task for them is in
/// flight.
pub open spec fn freed(q: Seq<Coord>, s: State) -> Set<Coord> {
    Set::new(|c: Coord| q.contains(c) && !in_flight(s, c))
}

/// The mesh handles of the coordinates of `q` that can be unloaded and have
/// a mesh, in the order of `q`.
pub open spec fn retired(q: Seq<Coord>, s: State) -> Seq<u64>
    decreases q.len(),
{
    if q.len() == 0 {
        Seq::empty()
    } else if !in_flight(s, q.last()) && s.meshes.contains_key(q.last()) {
        retired(q.drop_last(), s).push(s.meshes[q.last()])
    } else {
        retired(q.drop_last(), s)
    }
}

/// Whether what a finished task brings for `c` is kept: the chunk of `c` is
/// loaded and `c` does not wait for unloading.
pub open spec fn kept(s: State, c: Coord) -> bool {
    s.chunks.contains_key(c) && !s.unload.contains(c)
}

/// The despawn list of `s` with the mesh of `c` queued, if `c` has one.
pub open spec fn with_retired(s: State, c: Coord) -> Seq<u64> {
    if s.meshes.contains_key(c) {
        s.despawn.push(s.meshes[c])
    } else {
        s.despawn
    }
}

/// Whether `c` lies in the box of `distance` around the viewer, if the
/// viewer is known.
pub open spec fn wanted(center: Option<Coord>, distance: RenderDistance, c: Coord) -> bool {
    match center {
        Some(v) => distance.covers(v, c),
        None => false,
    }
}

/// The coordinates outside the box of `distance` around `viewer`.
pub open spec fn outside(viewer: Coord, distance: RenderDistance) -> Set<Coord> {
    Set::new(|c: Coord| !distance.covers(viewer, c))
}

/// The coordinates in the box of `was` around `prev` and outside the box of
/// `now` around `viewer`.
pub open spec fn leaving(
    was: RenderDistance,
    prev: Coord,
    viewer: Coord,
    now: RenderDistance,
) -> Set<Coord> {
    Set::new(|c: Coord| was.covers(prev, c) && !now.covers(viewer, c))
}

/// The coordinates that were not wanted: outside the box of `was` around
/// the former centre, or all coordinates where there was no centre.
pub open spec fn fresh(was_center: Option<Coord>, was: RenderDistance) -> Set<Coord> {
    Set::new(|c: Coord| !wanted(was_center, was, c))
}

/// The coordinates in the box of `now` around `viewer` that were not wanted.
pub open spec fn entering(
    was_center: Option<Coord>,
    was: RenderDistance,
    viewer: Coord,
    now: RenderDistance,
) -> Set<Coord> {
    Set::new(|c: Coord| now.covers(viewer, c) && !wanted(was_center, was, c))
}

/// The coordinates that were not wanted and are neither loaded nor being
/// generated.
pub open spec fn missing(s: State) -> Set<Coord> {
    Set::new(
        |c: Coord|
            !wanted(s.center, s.load_distance, c) && !s.chunks.contains_key(c)
                && !s.load_tasks.contains(c),
    )
}

/// Whether one of the first `n` offsets, added to `center`, gives `c`.
pub open spec fn reached(center: Coord, offsets: Seq<Coord>, n: int, c: Coord) -> bool {
    exists|j: int| 0 <= j < n && center.can_add(#[trigger] offsets[j]) && center.plus(offsets[j]) == c
}

/// The offsets `offsets` added to `center`, as far as the sum is a
/// coordinate of `pick`, in the order of the offsets.
pub open spec fn shifted(center: Coord, offsets: Seq<Coord>, pick: Set<Coord>) -> Seq<Coord>
    decreases offsets.len(),
{
    if offsets.len() == 0 {
        Seq::empty()
    } else if center.can_add(offsets.last()) && pick.contains(center.plus(offsets.last())) {
        shifted(center, offsets.drop_last(), pick).push(center.plus(offsets.last()))
    } else {
        shifted(center, offsets.drop_last(), pick)
    }
}

/// The load queue of state `s` without what leaves the load box when the
/// viewer moves to `viewer` with the load distance `load`.
pub open spec fn load_left(s: State, viewer: Coord, load: RenderDistance) -> Seq<Coord> {
    match s.center {
        Some(prev) => only(s.load, leaving(s.load_distance, prev, viewer, load)),
        None => s.load,
    }
}

/// The unload queue of state `s` with what leaves the load box queued
/// behind it, nearest to the former centre first.
pub open spec fn unload_left(s: State, viewer: Coord, load: RenderDistance) -> Seq<Coord> {
    match s.center {
        Some(prev) => extended(s.unload, shifted(prev, s.load_offsets, outside(viewer, load))),
        None => s.unload,
    }
}

/// The build queue of state `s` without what leaves the load box or the
/// build box.
pub open spec fn build_left(
    s: State,
    viewer: Coord,
    load: RenderDistance,
    build: RenderDistance,
) -> Seq<Coord> {
    match s.center {
        Some(prev) => only(
            only(s.build, leaving(s.load_distance, prev, viewer, load)),
            leaving(s.build_distance, prev, viewer, build),
        ),
        None => s.build,
    }
}

/// Whether `t` is state `s` after the viewer moved to chunk `viewer` with
/// the render distances `load` and `build`.
///
/// What leaves the load box leaves the load queue and the build queue and
/// is queued for unloading. What enters the load box is no longer queued
/// for unloading and is queued for generation, unless it is loaded or its
/// generation is in flight. What leaves the build box leaves the build
/// queue, what enters it is queued for meshing. Every queue keeps the order
/// of what stays in it; what comes is queued behind, nearest to the centre
/// of its box first. The offsets of a box whose distance stays are kept.
pub open spec fn retargeted(
    s: State,
    t: State,
    viewer: Coord,
    load: RenderDistance,
    build: RenderDistance,
) -> bool {
    &&& t == (State {
        load: t.load,
        build: t.build,
        unload: t.unload,
        need_sort: true,
        center: Some(viewer),
        load_distance: load,
        build_distance: build,
        load_offsets: t.load_offsets,
        build_offsets: t.build_offsets,
        ..s
    })
    &&& offsets_of(t.load_offsets, load)
    &&& offsets_of(t.build_offsets, build)
    &&& s.load_distance == load ==> t.load_offsets == s.load_offsets
    &&& s.build_distance == build ==> t.build_offsets == s.build_offsets
    &&& t.load == extended(load_left(s, viewer, load), shifted(viewer, t.load_offsets, missing(s)))
    &&& t.unload == only(
        unload_left(s, viewer, load),
        entering(s.center, s.load_distance, viewer, load),
    )
    &&& t.build == extended(
        build_left(s, viewer, load, build),
        shifted(viewer, t.build_offsets, fresh(s.center, s.build_distance)),
    )
}

/// The work that a dispatch hands to the host.
pub struct Dispatch {
    /// The coordinates to generate, nearest first.
    pub loads: Vec<Coord>,
    /// The coordinates to mesh, each with the handles of its neighbourhood.
    pub builds: Vec<(Coord, ChunksRefs)>,
}

/// The coordinates of `builds`, in order.
pub open spec fn build_coords(builds: Seq<(Coord, ChunksRefs)>) -> Seq<Coord> {
    Seq::new(builds.len(), |i: int| builds[i].0)
}

/// Whether `refs` holds the handles that `chunks` has for `pos` and its six
/// face neighbours, in neighbourhood order.
pub open spec fn bundle_of(chunks: Map<Coord, Chunk>, pos: Coord, refs: ChunksRefs) -> bool {
    &&& refs@.len() == 7
    &&& forall|i: int| 0 <= i < 7 ==> #[trigger] refs@[i] == chunks[pos.plus(offset_at(i))]
}

/// Whether each of `builds` comes with the handles of its neighbourhood.
pub open spec fn bundled(chunks: Map<Coord, Chunk>, builds: Seq<(Coord, ChunksRefs)>) -> bool {
    forall|k: int| 0 <= k < builds.len() ==> bundle_of(chunks, (#[trigger] builds[k]).0, builds[k].1)
}

/// Main stored world chunks data: the store, the queues and the tables of
/// tasks in flight.
pub struct Controller {
    chunks: CoordMap<Chunk>,
    meshes: CoordMap<u64>,
    load: Queue,
    build: Queue,
    unload: Queue,
    despawn: Vec<u64>,
    load_tasks: CoordSet,
    build_tasks: CoordSet,
    need_sort: bool,
    center: Option<Coord>,
    load_distance: RenderDistance,
    build_distance: RenderDistance,
    load_offsets: Vec<Coord>,
    build_offsets: Vec<Coord>,
}

impl Controller {
    /// What the controller holds.
    pub closed spec fn view(self) -> State {
        State {
            chunks: self.chunks@,
            meshes: self.meshes@,
            load: self.load@,
            build: self.build@,
            unload: self.unload@,
            despawn: self.despawn@,
            load_tasks: self.load_tasks@,
            build_tasks: self.build_tasks@,
            need_sort: self.need_sort,
            center: self.center,
            load_distance: self.load_distance,
            build_distance: self.build_distance,
            load_offsets: self.load_offsets@,
            build_offsets: self.build_offsets@,
        }
    }

    /// The invariant of a controller: no queue or table holds a coordinate
    /// twice, no coordinate waits for generation while its generation is in
    /// flight, the tasks in flight keep within their budgets, and the offset
    /// lists are those of the render distances.
    pub closed spec fn wf(self) -> bool {
        &&& self.chunks.wf()
        &&& self.meshes.wf()
        &&& self.load.wf()
        &&& self.build.wf()
        &&& self.unload.wf()
        &&& self.load_tasks.wf()
        &&& self.build_tasks.wf()
        &&& self.load_tasks@.len() <= MAX_CHUNKS
        &&& self.build_tasks@.len() <= MAX_MESHES
        &&& forall|c: Coord| self.load@.contains(c) ==> !self.load_tasks@.contains(c)
        &&& offsets_of(self.load_offsets@, self.load_distance)
        &&& offsets_of(self.build_offsets@, self.build_distance)
    }

    /// Whatever was done to a controller, at most
    /// [`MAX_CHUNKS`] generation tasks and at most [`MAX_MESHES`] meshing
    /// tasks are in flight, no coordinate is queued or in flight twice, no
    /// coordinate is queued for generation while it is generated, and the
    /// offset lists are those of the render distances.
    pub proof fn lemma_budget(self)
        requires
            self.wf(),
        ensures
            self@.load_tasks.len() <= MAX_CHUNKS,
            self@.build_tasks.len() <= MAX_MESHES,
            self@.load.no_duplicates(),
            self@.build.no_duplicates(),
            self@.unload.no_duplicates(),
            self@.load_tasks.no_duplicates(),
            self@.build_tasks.no_duplicates(),
            forall|c: Coord| self@.load.contains(c) ==> !self@.load_tasks.contains(c),
            offsets_of(self@.load_offsets, self@.load_distance),
            offsets_of(self@.build_offsets, self@.build_distance),
    {
    }

    /// A controller without chunks, meshes, queued work or tasks, for the
    /// given render distances. The viewer is not known yet.
    pub fn new(load_distance: RenderDistance, build_distance: RenderDistance) -> (c: Controller)
        ensures
            c.wf(),
            c@ == (State {
                chunks: Map::empty(),
                meshes: Map::empty(),
                load: Seq::empty(),
                build: Seq::empty(),
                unload: Seq::empty(),
                despawn: Seq::empty(),
                load_tasks: Seq::empty(),
                build_tasks: Seq::empty(),
                need_sort: true,
                center: None,
                load_distance,
                build_distance,
                load_offsets: c@.load_offsets,
                build_offsets: c@.build_offsets,
            }),
    {
        Controller {
            chunks: CoordMap::new(),
            meshes: CoordMap::new(),
            load: Queue::new(),
            build: Queue::new(),
            unload: Queue::new(),
            despawn: Vec::new(),
            load_tasks: CoordSet::new(),
            build_tasks: CoordSet::new(),
            need_sort: true,
            center: None,
            load_distance,
            build_distance,
            load_offsets: load_distance.offsets(),
            build_offsets: build_distance.offsets(),
        }
    }

    /// sort load and build queues before the next dispatch
    pub fn sort(&mut self)
        requires
            old(self).wf(),
        ensures
            final(self).wf(),
            final(self)@ == (State { need_sort: true, ..old(self)@ }),
    {
        self.need_sort = true;
    }

    /// Reload all meshes & sort: every meshed coordinate is queued for
    /// meshing, behind what is queued already. The order in which the meshed
    /// coordinates come is the order in which the mesh table is walked.
    pub fn reload(&mut self)
        requires
            old(self).wf(),
        ensures
            final(self).wf(),
            exists|keys: Seq<Coord>|
                {
                    &&& keys.no_duplicates()
                    &&& forall|c: Coord| keys.contains(c) <==> old(self)@.meshes.contains_key(c)
                    &&& final(self)@ == (State {
                        build: extended(old(self)@.build, keys),
                        need_sort: true,
                        ..old(self)@
                    })
                },
    {
        let keys = self.meshes.keys();
        let ghost first = self@;
        self.build.extend(&keys);
        self.need_sort = true;
        proof {
            let walked = keys@;
            assert(walked.no_duplicates() && (forall|c: Coord|
                walked.contains(c) <==> first.meshes.contains_key(c)) && self@ == (State {
                build: extended(first.build, walked),
                need_sort: true,
                ..first
            }));
        }
    }

    /// Rebuild chunk meshes: `chunk` and its six face neighbours are queued
    /// for meshing, behind what is queued already.
    pub fn rebuild(&mut self, chunk: Coord)
        requires
            old(self).wf(),
        ensures
            final(self).wf(),
            final(self)@ == (State {
                build: extended(old(self)@.build, offsets_upto(chunk, 7)),
                need_sort: true,
                ..old(self)@
            }),
    {
        let near = ChunksRefs::offsets(chunk);
        self.build.extend(&near);
        self.need_sort = true;
    }

    /// Sorts the two queues by distance to the viewer, if sorting was asked
    /// for since they were last sorted.
    pub fn sort_queues(&mut self)
        requires
            old(self).wf(),
        ensures
            final(self).wf(),
            sorted_from(old(self)@, final(self)@),
    {
        if self.need_sort {
            let current = match self.center {
                Some(c) => c,
                None => Coord { x: 0, y: 0, z: 0 },
            };
            self.load.sort(current);
            self.build.sort(current);
            self.need_sort = false;
        }
    }

    /// Starts generation for the first coordinates of the queue, as many as
    /// the budget leaves.
    fn dispatch_loads(&mut self) -> (loads: Vec<Coord>)
        requires
            old(self).wf(),
        ensures
            final(self).wf(),
            loads@ == loads_of(old(self)@),
            final(self)@ == (State {
                load: old(self)@.load.skip(load_count(old(self)@)),
                load_tasks: old(self)@.load_tasks + loads_of(old(self)@),
                ..old(self)@
            }),
    {
        let free = MAX_CHUNKS - self.load_tasks.len();
        let count = if free <= self.load.len() {
            free
        } else {
            self.load.len()
        };
        let mut loads: Vec<Coord> = Vec::new();
        let mut i: usize = 0;
        let ghost first = self@;
        assert(self@.load =~= first.load.skip(0));
        assert(self@.load_tasks =~= first.load_tasks + first.load.take(0));
        assert(loads@ =~= first.load.take(0));
        while i < count
            invariant
                i <= count,
                count == load_count(first),
                first.load_tasks.len() + count <= MAX_CHUNKS,
                first.load.no_duplicates(),
                self.wf(),
                loads@ == first.load.take(i as int),
                self@ == (State {
                    load: first.load.skip(i as int),
                    load_tasks: first.load_tasks + first.load.take(i as int),
                    ..first
                }),
            decreases count - i,
        {
            let ghost q = self.load@;
            let next = self.load.get_index(0);
            match next {
                Some(c) => {
                    proof {
                        assert(q[0] == c);
                        assert(q.contains(c));
                        assert(q.index_of(c) == 0);
                        assert(q.remove(0) =~= first.load.skip(i + 1));
                        lemma_without(q, c);
                        lemma_push_contains(self.load_tasks@, c);
                        assert(first.load.take(i + 1) =~= first.load.take(i as int).push(c));
                        assert(first.load_tasks + first.load.take(i + 1) =~= (first.load_tasks
                            + first.load.take(i as int)).push(c));
                    }
                    self.load.remove(c);
                    self.load_tasks.insert(c);
                    loads.push(c);
                },
                None => {},
            }
            i += 1;
        }
        loads
    }

    /// Starts meshing for the first coordinates of the queue whose
    /// neighbourhood is loaded, as many as the budget leaves. The others
    /// stay queued.
    fn dispatch_builds(&mut self) -> (builds: Vec<(Coord, ChunksRefs)>)
        requires
            old(self).wf(),
        ensures
            final(self).wf(),
            build_coords(builds@) == builds_of(old(self)@),
            bundled(old(self)@.chunks, builds@),
            final(self)@ == (State {
                build: passed(
                    old(self)@.build,
                    old(self)@.chunks,
                    old(self)@.build_tasks,
                    build_budget(old(self)@),
                ),
                build_tasks: old(self)@.build_tasks + builds_of(old(self)@),
                ..old(self)@
            }),
    {
        let budget = MAX_MESHES - self.build_tasks.len();
        let mut builds: Vec<(Coord, ChunksRefs)> = Vec::new();
        let mut i: usize = 0;
        let ghost first = self@;
        let ghost chunks = first.chunks;
        let ghost busy = first.build_tasks;
        assert(self@.build.skip(0) =~= first.build);
        assert(build_coords(builds@) + taken(first.build, chunks, busy, budget as nat) =~= taken(
            first.build,
            chunks,
            busy,
            budget as nat,
        ));
        assert(self@.build.take(0) + passed(first.build, chunks, busy, budget as nat) =~= passed(
            first.build,
            chunks,
            busy,
            budget as nat,
        ));
        assert(self@.build_tasks =~= busy + build_coords(builds@));
        while i < self.build.len() && builds.len() < budget
            invariant
                i <= self.build@.len(),
                builds@.len() <= budget,
                budget == build_budget(first),
                busy.len() + budget <= MAX_MESHES,
                chunks == first.chunks,
                busy == first.build_tasks,
                self.wf(),
                self@ == (State { build: self@.build, build_tasks: self@.build_tasks, ..first }),
                self@.build_tasks == busy + build_coords(builds@),
                bundled(chunks, builds@),
                forall|c: Coord| build_coords(builds@).contains(c) ==> !self@.build.contains(c),
                taken(first.build, chunks, busy, budget as nat) == build_coords(builds@) + taken(
                    self@.build.skip(i as int),
                    chunks,
                    busy,
                    (budget - builds@.len()) as nat,
                ),
                passed(first.build, chunks, busy, budget as nat) == self@.build.take(i as int)
                    + passed(
                    self@.build.skip(i as int),
                    chunks,
                    busy,
                    (budget - builds@.len()) as nat,
                ),
            decreases self.build@.len() - i,
        {
            let ghost q = self.build@;
            let ghost done = build_coords(builds@);
            let ghost left = (budget - builds@.len()) as nat;
            let next = self.build.get_index(i);
            match next {
                Some(c) => {
                    proof {
                        assert(q[i as int] == c);
                        assert(q.contains(c));
                        assert(q.skip(i as int)[0] == c);
                        assert(q.skip(i as int).drop_first() =~= q.skip(i + 1));
                        lemma_concat_contains(busy, done, c);
                    }
                    let free = !self.build_tasks.contains(c);
                    let refs = if free {
                        self.refs(c)
                    } else {
                        None
                    };
                    match refs {
                        Some(r) => {
                            proof {
                                assert(ready(chunks, busy, c));
                                assert(q.index_of(c) == i);
                                lemma_without(q, c);
                                assert(q.remove(i as int).skip(i as int) =~= q.skip(i + 1));
                                assert(q.remove(i as int).take(i as int) =~= q.take(i as int));
                                lemma_push_contains(done, c);
                                assert(done.push(c) + taken(
                                    q.skip(i + 1),
                                    chunks,
                                    busy,
                                    (left - 1) as nat,
                                ) =~= done + (seq![c] + taken(
                                    q.skip(i + 1),
                                    chunks,
                                    busy,
                                    (left - 1) as nat,
                                )));
                                assert(busy + done.push(c) =~= (busy + done).push(c));
                            }
                            self.build.remove(c);
                            self.build_tasks.insert(c);
                            builds.push((c, r));
                            proof {
                                assert(build_coords(builds@) =~= done.push(c));
                                assert forall|x: Coord|
                                    build_coords(builds@).contains(x) implies !self@.build.contains(
                                    x,
                                ) by {
                                    assert(done.push(c).contains(x) <==> done.contains(x) || x == c);
                                    assert(self@.build.contains(x) <==> q.contains(x) && x != c);
                                }
                            }
                        },
                        None => {
                            proof {
                                assert(!ready(chunks, busy, c));
                                assert(q.take(i + 1) =~= q.take(i as int).push(c));
                                assert(q.take(i + 1) + passed(q.skip(i + 1), chunks, busy, left)
                                    =~= q.take(i as int) + (seq![c] + passed(
                                    q.skip(i + 1),
                                    chunks,
                                    busy,
                                    left,
                                )));
                            }
                            i += 1;
                        },
                    }
                },
                None => {},
            }
        }
        proof {
            let q = self.build@;
            let done = build_coords(builds@);
            let left = (budget - builds@.len()) as nat;
            if i == q.len() {
                assert(q.skip(i as int) =~= Seq::<Coord>::empty());
            }
            assert(taken(q.skip(i as int), chunks, busy, left) =~= Seq::<Coord>::empty());
            assert(passed(q.skip(i as int), chunks, busy, left) =~= q.skip(i as int));
            assert(q.take(i as int) + q.skip(i as int) =~= q);
            assert(done + Seq::<Coord>::empty() =~= done);
        }
        builds
    }

    /// Hands out work within the budgets: generation for the first
    /// coordinates of the load queue, meshing for the first coordinates of
    /// the build queue whose neighbourhood is loaded. What is handed out
    /// leaves its queue and counts as in flight until the host reports it
    /// finished.
    pub fn dispatch(&mut self) -> (d: Dispatch)
        requires
            old(self).wf(),
        ensures
            final(self).wf(),
            d.loads@ == loads_of(old(self)@),
            build_coords(d.builds@) == builds_of(old(self)@),
            bundled(old(self)@.chunks, d.builds@),
            final(self)@ == after_dispatch(old(self)@),
    {
        let loads = self.dispatch_loads();
        let builds = self.dispatch_builds();
        Dispatch { loads, builds }
    }

    /// Begin tasks: sorts the queues where sorting was asked for, then
    /// hands out work as [`Controller::dispatch`] does.
    pub fn begin(&mut self) -> (d: Dispatch)
        requires
            old(self).wf(),
        ensures
            final(self).wf(),
            exists|mid: State|
                {
                    &&& sorted_from(old(self)@, mid)
                    &&& d.loads@ == loads_of(mid)
                    &&& build_coords(d.builds@) == builds_of(mid)
                    &&& bundled(mid.chunks, d.builds@)
                    &&& final(self)@ == after_dispatch(mid)
                },
            final(self)@.load_tasks.len() <= MAX_CHUNKS,
            final(self)@.build_tasks.len() <= MAX_MESHES,
    {
        self.sort_queues();
        let ghost mid = self@;
        let d = self.dispatch();
        proof {
            assert(sorted_from(old(self)@, mid) && d.loads@ == loads_of(mid) && build_coords(
                d.builds@,
            ) == builds_of(mid) && bundled(mid.chunks, d.builds@) && self@ == after_dispatch(
                mid,
            ));
        }
        d
    }

    /// Joins a finished generation task: `raw` is the buffer that the task
    /// made for `pos`. Where `pos` waits for unloading the buffer is
    /// discarded. Otherwise it becomes the chunk at `pos`, and `pos` and its
    /// six face neighbours are queued for meshing.
    pub fn finish_load(&mut self, pos: Coord, raw: RawChunk)
        requires
            old(self).wf(),
        ensures
            final(self).wf(),
            old(self)@.unload.contains(pos) ==> final(self)@ == (State {
                load_tasks: without(old(self)@.load_tasks, pos),
                ..old(self)@
            }),
            !old(self)@.unload.contains(pos) ==> final(self)@.chunks.contains_key(pos)
                && final(self)@ == (State {
                load_tasks: without(old(self)@.load_tasks, pos),
                chunks: old(self)@.chunks.insert(pos, final(self)@.chunks[pos]),
                build: extended(old(self)@.build, offsets_upto(pos, 7)),
                need_sort: true,
                ..old(self)@
            }),
    {
        self.load_tasks.remove(pos);
        if !self.unload.contains(pos) {
            self.chunks.insert(pos, Chunk::new(raw));
            let near = ChunksRefs::offsets(pos);
            self.build.extend(&near);
            self.need_sort = true;
        }
    }

    /// Joins a finished meshing task: `mesh` is what the task made for
    /// `pos`, `None` for a chunk without visible faces. The mesh that `pos`
    /// had is queued for despawn. The new mesh comes back for the host to
    /// spawn, unless `pos` was unloaded or waits for unloading: then it is
    /// discarded.
    pub fn finish_build(&mut self, pos: Coord, mesh: Option<ChunkMesh>) -> (r: Option<ChunkMesh>)
        requires
            old(self).wf(),
        ensures
            final(self).wf(),
            r == (if kept(old(self)@, pos) {
                mesh
            } else {
                None::<ChunkMesh>
            }),
            final(self)@ == (State {
                build_tasks: without(old(self)@.build_tasks, pos),
                meshes: old(self)@.meshes.remove(pos),
                despawn: with_retired(old(self)@, pos),
                ..old(self)@
            }),
    {
        self.build_tasks.remove(pos);
        match self.meshes.remove(pos) {
            Some(old_mesh) => { self.despawn.push(old_mesh); },
            None => {},
        }
        if self.chunks.contains_key(pos) && !self.unload.contains(pos) {
            mesh
        } else {
            None
        }
    }

    /// Records that the host spawned the mesh of `pos` as `entity`. Where
    /// `pos` was unloaded meanwhile, or waits for unloading, the entity is
    /// queued for despawn at once.
    pub fn spawned(&mut self, pos: Coord, entity: u64)
        requires
            old(self).wf(),
        ensures
            final(self).wf(),
            kept(old(self)@, pos) ==> final(self)@ == (State {
                meshes: old(self)@.meshes.insert(pos, entity),
                despawn: with_retired(old(self)@, pos),
                ..old(self)@
            }),
            !kept(old(self)@, pos) ==> final(self)@ == (State {
                despawn: old(self)@.despawn.push(entity),
                ..old(self)@
            }),
    {
        if self.chunks.contains_key(pos) && !self.unload.contains(pos) {
            match self.meshes.insert(pos, entity) {
                Some(old_mesh) => { self.despawn.push(old_mesh); },
                None => {},
            }
        } else {
            self.despawn.push(entity);
        }
    }

    /// Unloads what waits for unloading: the chunk leaves the store and its
    /// mesh is queued for despawn. A coordinate with a task in flight is not
    /// touched: it stays queued until the task has been joined.
    pub fn unload(&mut self)
        requires
            old(self).wf(),
        ensures
            final(self).wf(),
            final(self)@ == (State {
                unload: deferred(old(self)@.unload, old(self)@),
                chunks: old(self)@.chunks.remove_keys(freed(old(self)@.unload, old(self)@)),
                meshes: old(self)@.meshes.remove_keys(freed(old(self)@.unload, old(self)@)),
                despawn: old(self)@.despawn + retired(old(self)@.unload, old(self)@),
                ..old(self)@
            }),
    {
        let pending = self.unload.to_vec();
        let ghost first = self@;
        let mut i: usize = 0;
        proof {
            assert(pending@.take(0) =~= Seq::<Coord>::empty());
            assert(freed(pending@.take(0), first) =~= Set::<Coord>::empty());
            assert(first.chunks.remove_keys(Set::<Coord>::empty()) =~= first.chunks);
            assert(first.meshes.remove_keys(Set::<Coord>::empty()) =~= first.meshes);
            assert(first.despawn + retired(pending@.take(0), first) =~= first.despawn);
            assert(deferred(pending@.take(0), first) + pending@.skip(0) =~= first.unload);
        }
        while i < pending.len()
            invariant
                i <= pending.len(),
                pending@ == first.unload,
                pending@.no_duplicates(),
                self.wf(),
                self@ == (State {
                    unload: deferred(pending@.take(i as int), first) + pending@.skip(i as int),
                    chunks: first.chunks.remove_keys(freed(pending@.take(i as int), first)),
                    meshes: first.meshes.remove_keys(freed(pending@.take(i as int), first)),
                    despawn: first.despawn + retired(pending@.take(i as int), first),
                    ..first
                }),
            decreases pending.len() - i,
        {
            let c = pending[i];
            let ghost done = pending@.take(i as int);
            let ghost next = pending@.take(i + 1);
            let ghost q = self.unload@;
            proof {
                assert(next.drop_last() =~= done);
                assert(next.last() == c);
                assert(next =~= done.push(c));
                lemma_push_contains(done, c);
                lemma_deferred(done, first);
                assert(!done.contains(c)) by {
                    if done.contains(c) {
                        let j = choose|j: int| 0 <= j < done.len() && done[j] == c;
                        assert(pending@[j] == c);
                    }
                }
                assert(pending@.skip(i as int) =~= seq![c] + pending@.skip(i + 1));
            }
            if self.load_tasks.contains(c) || self.build_tasks.contains(c) {
                proof {
                    assert(in_flight(first, c));
                    assert(freed(next, first) =~= freed(done, first));
                    assert(deferred(next, first) + pending@.skip(i + 1) =~= deferred(done, first)
                        + pending@.skip(i as int));
                }
            } else {
                proof {
                    assert(!in_flight(first, c));
                    assert(freed(next, first) =~= freed(done, first).insert(c));
                    assert(first.chunks.remove_keys(freed(next, first)) =~= first.chunks.remove_keys(
                        freed(done, first),
                    ).remove(c));
                    assert(first.meshes.remove_keys(freed(next, first)) =~= first.meshes.remove_keys(
                        freed(done, first),
                    ).remove(c));
                    let k = deferred(done, first).len() as int;
                    assert(q[k] == c);
                    assert(q.contains(c));
                    assert(q.index_of(c) == k);
                    assert(q.remove(k) =~= deferred(next, first) + pending@.skip(i + 1));
                    lemma_without(q, c);
                    if first.meshes.contains_key(c) {
                        assert(first.despawn + retired(next, first) =~= (first.despawn + retired(
                            done,
                            first,
                        )).push(first.meshes[c]));
                    }
                }
                self.chunks.remove(c);
                match self.meshes.remove(c) {
                    Some(mesh) => { self.despawn.push(mesh); },
                    None => {},
                }
                self.unload.remove(c);
            }
            i += 1;
        }
        proof {
            assert(pending@.take(pending@.len() as int) =~= pending@);
            assert(deferred(pending@, first) + pending@.skip(pending@.len() as int) =~= deferred(
                pending@,
                first,
            ));
        }
    }

    /// Takes out of the queues what lay in the load box around `prev` and
    /// lies outside the box of `load` around `viewer`, and queues it for
    /// unloading.
    fn leave_load(&mut self, prev: Coord, viewer: Coord, load: RenderDistance)
        requires
            old(self).wf(),
        ensures
            final(self).wf(),
            final(self)@ == (State {
                load: only(old(self)@.load, leaving(old(self)@.load_distance, prev, viewer, load)),
                build: only(old(self)@.build, leaving(old(self)@.load_distance, prev, viewer, load)),
                unload: extended(
                    old(self)@.unload,
                    shifted(prev, old(self)@.load_offsets, outside(viewer, load)),
                ),
                ..old(self)@
            }),
    {
        let ghost first = self@;
        let ghost offsets = self.load_offsets@;
        let ghost pick = outside(viewer, load);
        let mut i: usize = 0;
        proof {
            assert(offsets.take(0) =~= Seq::<Coord>::empty());
            assert(gone(prev, offsets, 0, pick) =~= Set::<Coord>::empty());
            lemma_only_nothing(first.load);
            lemma_only_nothing(first.build);
        }
        while i < self.load_offsets.len()
            invariant
                i <= self.load_offsets@.len(),
                offsets == self.load_offsets@,
                pick == outside(viewer, load),
                self.wf(),
                first.load.no_duplicates(),
                first.build.no_duplicates(),
                self@ == (State {
                    load: only(first.load, gone(prev, offsets, i as int, pick)),
                    build: only(first.build, gone(prev, offsets, i as int, pick)),
                    unload: extended(first.unload, shifted(prev, offsets.take(i as int), pick)),
                    ..first
                }),
            decreases self.load_offsets@.len() - i,
        {
            let ghost before = gone(prev, offsets, i as int, pick);
            proof {
                lemma_gone_step(prev, offsets, i as int, pick);
                lemma_shifted_step(prev, offsets, i as int, pick);
            }
            match prev.checked_add(self.load_offsets[i]) {
                Some(c) => {
                    if !load.contains(viewer, c) {
                        proof {
                            lemma_only_without(first.load, before, c);
                            lemma_only_without(first.build, before, c);
                            let sofar = shifted(prev, offsets.take(i as int), pick);
                            assert(pick.contains(c));
                            assert(sofar.push(c).drop_last() =~= sofar);
                            assert(sofar.push(c).last() == c);
                        }
                        self.load.remove(c);
                        self.build.remove(c);
                        self.unload.insert(c);
                    }
                },
                None => {},
            }
            i += 1;
        }
        proof {
            assert(offsets.take(offsets.len() as int) =~= offsets);
            assert(gone(prev, offsets, offsets.len() as int, pick) =~= leaving(
                first.load_distance,
                prev,
                viewer,
                load,
            )) by {
                assert forall|c: Coord|
                    reached(prev, offsets, offsets.len() as int, c) <==> first.load_distance.covers(
                        prev,
                        c,
                    ) by {
                    lemma_reached_all(prev, offsets, first.load_distance, c);
                }
            }
        }
    }

    /// Takes out of the build queue what lay in the build box around `prev`
    /// and lies outside the box of `build` around `viewer`.
    fn leave_build(&mut self, prev: Coord, viewer: Coord, build: RenderDistance)
        requires
            old(self).wf(),
        ensures
            final(self).wf(),
            final(self)@ == (State {
                build: only(
                    old(self)@.build,
                    leaving(old(self)@.build_distance, prev, viewer, build),
                ),
                ..old(self)@
            }),
    {
        let ghost first = self@;
        let ghost offsets = self.build_offsets@;
        let ghost pick = outside(viewer, build);
        let mut i: usize = 0;
        proof {
            assert(gone(prev, offsets, 0, pick) =~= Set::<Coord>::empty());
            lemma_only_nothing(first.build);
        }
        while i < self.build_offsets.len()
            invariant
                i <= self.build_offsets@.len(),
                offsets == self.build_offsets@,
                pick == outside(viewer, build),
                self.wf(),
                first.build.no_duplicates(),
                self@ == (State {
                    build: only(first.build, gone(prev, offsets, i as int, pick)),
                    ..first
                }),
            decreases self.build_offsets@.len() - i,
        {
            let ghost before = gone(prev, offsets, i as int, pick);
            proof {
                lemma_gone_step(prev, offsets, i as int, pick);
            }
            match prev.checked_add(self.build_offsets[i]) {
                Some(c) => {
                    if !build.contains(viewer, c) {
                        proof {
                            lemma_only_without(first.build, before, c);
                            assert(pick.contains(c));
                        }
                        self.build.remove(c);
                    }
                },
                None => {},
            }
            i += 1;
        }
        proof {
            assert(gone(prev, offsets, offsets.len() as int, pick) =~= leaving(
                first.build_distance,
                prev,
                viewer,
                build,
            )) by {
                assert forall|c: Coord|
                    reached(prev, offsets, offsets.len() as int, c)
                        <==> first.build_distance.covers(prev, c) by {
                    lemma_reached_all(prev, offsets, first.build_distance, c);
                }
            }
        }
    }

    /// Queues for generation what lies in the load box around `viewer` and
    /// lay outside the box of `was` around `was_center`, and takes it out of
    /// the unload queue.
    fn enter_load(&mut self, viewer: Coord, was_center: Option<Coord>, was: RenderDistance)
        requires
            old(self).wf(),
        ensures
            final(self).wf(),
            final(self)@ == (State {
                load: extended(
                    old(self)@.load,
                    shifted(
                        viewer,
                        old(self)@.load_offsets,
                        missing(State { center: was_center, load_distance: was, ..old(self)@ }),
                    ),
                ),
                unload: only(
                    old(self)@.unload,
                    entering(was_center, was, viewer, old(self)@.load_distance),
                ),
                ..old(self)@
            }),
    {
        let ghost first = self@;
        let ghost offsets = self.load_offsets@;
        let ghost pick = fresh(was_center, was);
        let ghost need = missing(State { center: was_center, load_distance: was, ..first });
        let mut i: usize = 0;
        proof {
            assert(offsets.take(0) =~= Seq::<Coord>::empty());
            assert(gone(viewer, offsets, 0, pick) =~= Set::<Coord>::empty());
            lemma_only_nothing(first.unload);
        }
        while i < self.load_offsets.len()
            invariant
                i <= self.load_offsets@.len(),
                offsets == self.load_offsets@,
                pick == fresh(was_center, was),
                need == missing(State { center: was_center, load_distance: was, ..first }),
                self.wf(),
                first.unload.no_duplicates(),
                self@ == (State {
                    load: extended(first.load, shifted(viewer, offsets.take(i as int), need)),
                    unload: only(first.unload, gone(viewer, offsets, i as int, pick)),
                    ..first
                }),
            decreases self.load_offsets@.len() - i,
        {
            let ghost before = gone(viewer, offsets, i as int, pick);
            proof {
                lemma_gone_step(viewer, offsets, i as int, pick);
                lemma_shifted_step(viewer, offsets, i as int, need);
            }
            match viewer.checked_add(self.load_offsets[i]) {
                Some(c) => {
                    let inside = match was_center {
                        Some(v) => was.contains(v, c),
                        None => false,
                    };
                    proof {
                        let sofar = shifted(viewer, offsets.take(i as int), need);
                        assert(sofar.push(c).drop_last() =~= sofar);
                        assert(sofar.push(c).last() == c);
                        assert(pick.contains(c) <==> !inside);
                        assert(need.contains(c) <==> !inside && !first.chunks.contains_key(c)
                            && !first.load_tasks.contains(c));
                    }
                    if !inside {
                        proof {
                            lemma_only_without(first.unload, before, c);
                        }
                        self.unload.remove(c);
                        if !self.chunks.contains_key(c) && !self.load_tasks.contains(c) {
                            self.load.insert(c);
                        }
                    }
                },
                None => {},
            }
            i += 1;
        }
        proof {
            assert(offsets.take(offsets.len() as int) =~= offsets);
            assert(gone(viewer, offsets, offsets.len() as int, pick) =~= entering(
                was_center,
                was,
                viewer,
                first.load_distance,
            )) by {
                assert forall|c: Coord|
                    reached(viewer, offsets, offsets.len() as int, c)
                        <==> first.load_distance.covers(viewer, c) by {
                    lemma_reached_all(viewer, offsets, first.load_distance, c);
                }
            }
        }
    }

    /// Queues for meshing what lies in the build box around `viewer` and lay
    /// outside the box of `was` around `was_center`.
    fn enter_build(&mut self, viewer: Coord, was_center: Option<Coord>, was: RenderDistance)
        requires
            old(self).wf(),
        ensures
            final(self).wf(),
            final(self)@ == (State {
                build: extended(
                    old(self)@.build,
                    shifted(viewer, old(self)@.build_offsets, fresh(was_center, was)),
                ),
                ..old(self)@
            }),
    {
        let ghost first = self@;
        let ghost offsets = self.build_offsets@;
        let ghost pick = fresh(was_center, was);
        let mut i: usize = 0;
        proof {
            assert(offsets.take(0) =~= Seq::<Coord>::empty());
        }
        while i < self.build_offsets.len()
            invariant
                i <= self.build_offsets@.len(),
                offsets == self.build_offsets@,
                pick == fresh(was_center, was),
                self.wf(),
                self@ == (State {
                    build: extended(first.build, shifted(viewer, offsets.take(i as int), pick)),
                    ..first
                }),
            decreases self.build_offsets@.len() - i,
        {
            proof {
                lemma_shifted_step(viewer, offsets, i as int, pick);
            }
            match viewer.checked_add(self.build_offsets[i]) {
                Some(c) => {
                    let inside = match was_center {
                        Some(v) => was.contains(v, c),
                        None => false,
                    };
                    proof {
                        let sofar = shifted(viewer, offsets.take(i as int), pick);
                        assert(sofar.push(c).drop_last() =~= sofar);
                        assert(sofar.push(c).last() == c);
                        assert(pick.contains(c) <==> !inside);
                    }
                    if !inside {
                        self.build.insert(c);
                    }
                },
                None => {},
            }
            i += 1;
        }
        proof {
            assert(offsets.take(offsets.len() as int) =~= offsets);
        }
    }

    /// Moves the wanted boxes: to the chunk `viewer`, with the render
    /// distances `load` and `build`. Nothing happens where neither the
    /// viewer's chunk nor a distance changes.
    pub fn retarget(&mut self, viewer: Coord, load: RenderDistance, build: RenderDistance)
        requires
            old(self).wf(),
        ensures
            final(self).wf(),
            old(self)@.center == Some(viewer) && old(self)@.load_distance == load
                && old(self)@.build_distance == build ==> final(self)@ == old(self)@,
            !(old(self)@.center == Some(viewer) && old(self)@.load_distance == load
                && old(self)@.build_distance == build) ==> retargeted(
                old(self)@,
                final(self)@,
                viewer,
                load,
                build,
            ),
    {
        let was_center = self.center;
        let was_load = self.load_distance;
        let was_build = self.build_distance;
        let same = match was_center {
            Some(v) => v == viewer && was_load == load && was_build == build,
            None => false,
        };
        if same {
            return ;
        }
        let ghost first = self@;
        match was_center {
            Some(prev) => {
                self.leave_load(prev, viewer, load);
                self.leave_build(prev, viewer, build);
            },
            None => {},
        }
        if !(was_load == load) {
            self.load_offsets = load.offsets();
            self.load_distance = load;
        }
        if !(was_build == build) {
            self.build_offsets = build.offsets();
            self.build_distance = build;
        }
        proof {
            assert(missing(State { center: was_center, load_distance: was_load, ..self@ })
                =~= missing(first));
        }
        self.enter_load(viewer, was_center, was_load);
        self.enter_build(viewer, was_center, was_build);
        self.center = Some(viewer);
        self.need_sort = true;
    }

    /// Tells the controller in which chunk the viewer is.
    pub fn set_viewer(&mut self, viewer: Coord)
        requires
            old(self).wf(),
        ensures
            final(self).wf(),
            old(self)@.center == Some(viewer) ==> final(self)@ == old(self)@,
            old(self)@.center != Some(viewer) ==> retargeted(
                old(self)@,
                final(self)@,
                viewer,
                old(self)@.load_distance,
                old(self)@.build_distance,
            ),
    {
        let load = self.load_distance;
        let build = self.build_distance;
        self.retarget(viewer, load, build);
    }

    /// Changes the render distances. As long as the viewer is not known the
    /// distances are only recorded.
    pub fn set_render_distance(&mut self, load: RenderDistance, build: RenderDistance)
        requires
            old(self).wf(),
        ensures
            final(self).wf(),
            old(self)@.load_distance == load && old(self)@.build_distance == build ==> final(self)@
                == old(self)@,
            old(self)@.center is None ==> final(self)@ == (State {
                load_distance: load,
                build_distance: build,
                load_offsets: final(self)@.load_offsets,
                build_offsets: final(self)@.build_offsets,
                ..old(self)@
            }),
            old(self)@.center is Some && !(old(self)@.load_distance == load
                && old(self)@.build_distance == build) ==> retargeted(
                old(self)@,
                final(self)@,
                old(self)@.center->0,
                load,
                build,
            ),
    {
        match self.center {
            Some(viewer) => {
                self.retarget(viewer, load, build);
            },
            None => {
                if !(self.load_distance == load) {
                    self.load_offsets = load.offsets();
                    self.load_distance = load;
                }
                if !(self.build_distance == build) {
                    self.build_offsets = build.offsets();
                    self.build_distance = build;
                }
            },
        }
    }

    /// Stores `block` in cell `index` of the chunk at `chunk`, through the
    /// chunk's handle. Returns whether there is such a cell: the chunk is
    /// loaded and `index` lies in it.
    pub fn write_block(&self, chunk: Coord, index: usize, block: u16) -> (written: bool)
        ensures
            written == (self@.chunks.contains_key(chunk) && index < 32768),
    {
        if index >= 32768 {
            return false;
        }
        match self.chunks.get(chunk) {
            Some(handle) => {
                let mut raw = handle.read();
                raw.set(index, block);
                handle.write(raw);
                true
            },
            None => false,
        }
    }

    /// The block in cell `index` of the chunk at `chunk`, as it is now, or
    /// `None` where there is no such cell.
    pub fn read_block(&self, chunk: Coord, index: usize) -> (r: Option<u16>)
        ensures
            r is Some <==> self@.chunks.contains_key(chunk) && index < 32768,
    {
        if index >= 32768 {
            return None;
        }
        match self.chunks.get(chunk) {
            Some(handle) => {
                let raw = handle.read();
                Some(raw.block(index))
            },
            None => None,
        }
    }

    /// The block-edit entry point: stores `block` at world block position
    /// `world` and queues the chunk of that position and its six face
    /// neighbours for meshing. Returns whether the chunk is loaded; where it
    /// is not, nothing is stored.
    pub fn edit_block(&mut self, world: Coord, block: u16) -> (written: bool)
        requires
            old(self).wf(),
        ensures
            final(self).wf(),
            written == old(self)@.chunks.contains_key(world.chunk_of()),
            final(self)@ == (State {
                build: extended(old(self)@.build, offsets_upto(world.chunk_of(), 7)),
                need_sort: true,
                ..old(self)@
            }),
    {
        let chunk = RawChunk::global(world);
        let index = RawChunk::block_index(RawChunk::relative(world));
        let written = self.write_block(chunk, index, block);
        self.rebuild(chunk);
        written
    }

    /// The handle of the chunk at offset number `i` from `pos`.
    fn handle_at(&self, pos: Coord, i: usize) -> (r: Option<Chunk>)
        requires
            i < 7,
        ensures
            r is Some <==> pos.can_add(offset_at(i as int)) && self@.chunks.contains_key(
                pos.plus(offset_at(i as int)),
            ),
            r is Some ==> r->0 == self@.chunks[pos.plus(offset_at(i as int))],
    {
        match pos.checked_add(ChunksRefs::offset(i)) {
            Some(c) => match self.chunks.get(c) {
                Some(chunk) => Some(chunk.share()),
                None => None,
            },
            None => None,
        }
    }

    /// Get chunk refs: the handles of `pos` and of its six face neighbours.
    /// There is a bundle exactly where all seven chunks are loaded; one
    /// missing chunk is enough for `None`.
    pub fn refs(&self, pos: Coord) -> (r: Option<ChunksRefs>)
        ensures
            r is Some <==> complete(self@.chunks, pos),
            r is Some ==> bundle_of(self@.chunks, pos, r->0),
    {
        let r0 = match self.handle_at(pos, 0) {
            Some(r) => r,
            None => { return None; },
        };
        let r1 = match self.handle_at(pos, 1) {
            Some(r) => r,
            None => { return None; },
        };
        let r2 = match self.handle_at(pos, 2) {
            Some(r) => r,
            None => { return None; },
        };
        let r3 = match self.handle_at(pos, 3) {
            Some(r) => r,
            None => { return None; },
        };
        let r4 = match self.handle_at(pos, 4) {
            Some(r) => r,
            None => { return None; },
        };
        let r5 = match self.handle_at(pos, 5) {
            Some(r) => r,
            None => { return None; },
        };
        let r6 = match self.handle_at(pos, 6) {
            Some(r) => r,
            None => { return None; },
        };
        Some(ChunksRefs::new([r0, r1, r2, r3, r4, r5, r6]))
    }

    /// A handle to the chunk at `pos`, if it is loaded.
    pub fn get(&self, pos: Coord) -> (r: Option<Chunk>)
        ensures
            r == (if self@.chunks.contains_key(pos) {
                Some(self@.chunks[pos])
            } else {
                None::<Chunk>
            }),
    {
        match self.chunks.get(pos) {
            Some(chunk) => Some(chunk.share()),
            None => None,
        }
    }

    /// Stores `chunk` as the chunk at `pos`.
    pub fn insert(&mut self, pos: Coord, chunk: Chunk)
        requires
            old(self).wf(),
        ensures
            final(self).wf(),
            final(self)@ == (State { chunks: old(self)@.chunks.insert(pos, chunk), ..old(self)@ }),
    {
        self.chunks.insert(pos, chunk);
    }

    /// Takes the chunk at `pos` out of the store and returns it. The mesh of
    /// the coordinate, if it has one, is queued for despawn.
    pub fn remove(&mut self, pos: Coord) -> (r: Option<Chunk>)
        requires
            old(self).wf(),
        ensures
            final(self).wf(),
            r == (if old(self)@.chunks.contains_key(pos) {
                Some(old(self)@.chunks[pos])
            } else {
                None::<Chunk>
            }),
            final(self)@ == (State {
                chunks: old(self)@.chunks.remove(pos),
                meshes: old(self)@.meshes.remove(pos),
                despawn: if old(self)@.meshes.contains_key(pos) {
                    old(self)@.despawn.push(old(self)@.meshes[pos])
                } else {
                    old(self)@.despawn
                },
                ..old(self)@
            }),
    {
        let r = self.chunks.remove(pos);
        match self.meshes.remove(pos) {
            Some(mesh) => { self.despawn.push(mesh); },
            None => {},
        }
        r
    }

    /// Queues `pos` for generation, unless it is queued or its generation is
    /// in flight.
    pub fn request_load(&mut self, pos: Coord)
        requires
            old(self).wf(),
        ensures
            final(self).wf(),
            final(self)@ == (State {
                load: if old(self)@.load.contains(pos) || old(self)@.load_tasks.contains(pos) {
                    old(self)@.load
                } else {
                    old(self)@.load.push(pos)
                },
                need_sort: true,
                ..old(self)@
            }),
    {
        if !self.load_tasks.contains(pos) {
            let ghost before = self.load@;
            self.load.insert(pos);
            proof {
                lemma_push_contains(before, pos);
            }
        }
        self.need_sort = true;
    }

    /// Queues `pos` for meshing, unless it is queued.
    pub fn request_build(&mut self, pos: Coord)
        requires
            old(self).wf(),
        ensures
            final(self).wf(),
            final(self)@ == (State {
                build: if old(self)@.build.contains(pos) {
                    old(self)@.build
                } else {
                    old(self)@.build.push(pos)
                },
                need_sort: true,
                ..old(self)@
            }),
    {
        self.build.insert(pos);
        self.need_sort = true;
    }

    /// Queues `pos` for unloading, unless it is queued. It leaves the queues
    /// for generation and meshing.
    pub fn request_unload(&mut self, pos: Coord)
        requires
            old(self).wf(),
        ensures
            final(self).wf(),
            final(self)@ == (State {
                load: without(old(self)@.load, pos),
                build: without(old(self)@.build, pos),
                unload: if old(self)@.unload.contains(pos) {
                    old(self)@.unload
                } else {
                    old(self)@.unload.push(pos)
                },
                ..old(self)@
            }),
    {
        self.load.remove(pos);
        self.build.remove(pos);
        self.unload.insert(pos);
    }

    /// The mesh handles that the renderer is to despawn. The list is handed
    /// out once: the controller forgets it.
    pub fn take_despawn(&mut self) -> (v: Vec<u64>)
        requires
            old(self).wf(),
        ensures
            final(self).wf(),
            v@ == old(self)@.despawn,
            final(self)@ == (State { despawn: Seq::empty(), ..old(self)@ }),
    {
        let mut v: Vec<u64> = Vec::new();
        std::mem::swap(&mut v, &mut self.despawn);
        v
    }

    /// The coordinates that wait for generation, in order.
    pub fn load_queue(&self) -> (v: Vec<Coord>)
        ensures
            v@ == self@.load,
    {
        self.load.to_vec()
    }

    /// The coordinates that wait for meshing, in order.
    pub fn build_queue(&self) -> (v: Vec<Coord>)
        ensures
            v@ == self@.build,
    {
        self.build.to_vec()
    }

    /// The coordinates that wait for unloading, in order.
    pub fn unload_queue(&self) -> (v: Vec<Coord>)
        ensures
            v@ == self@.unload,
    {
        self.unload.to_vec()
    }

    /// Whether the generation of `pos` is in flight.
    pub fn is_loading(&self, pos: Coord) -> (b: bool)
        ensures
            b == self@.load_tasks.contains(pos),
    {
        self.load_tasks.contains(pos)
    }

    /// Whether the meshing of `pos` is in flight.
    pub fn is_building(&self, pos: Coord) -> (b: bool)
        ensures
            b == self@.build_tasks.contains(pos),
    {
        self.build_tasks.contains(pos)
    }

    /// The number of generation tasks in flight.
    pub fn loading(&self) -> (n: usize)
        ensures
            n == self@.load_tasks.len(),
    {
        self.load_tasks.len()
    }

    /// The number of meshing tasks in flight.
    pub fn building(&self) -> (n: usize)
        ensures
            n == self@.build_tasks.len(),
    {
        self.build_tasks.len()
    }

    /// The number of loaded chunks.
    pub fn chunk_count(&self) -> (n: usize)
        requires
            self.wf(),
        ensures
            n == self@.chunks.dom().len(),
    {
        self.chunks.len()
    }

    /// The handle of the mesh of `pos`, if it has one.
    pub fn mesh(&self, pos: Coord) -> (r: Option<u64>)
        ensures
            r == (if self@.meshes.contains_key(pos) {
                Some(self@.meshes[pos])
            } else {
                None::<u64>
            }),
    {
        match self.meshes.get(pos) {
            Some(m) => Some(*m),
            None => None,
        }
    }

    /// The chunk of the viewer, once it is known.
    pub fn center(&self) -> (c: Option<Coord>)
        ensures
            c == self@.center,
    {
        self.center
    }
}

impl Default for Controller {
    /// A controller that keeps 8 chunks to each side of the viewer loaded
    /// and 7 chunks to each side meshed.
    fn default() -> (c: Controller)
        ensures
            c.wf(),
            c@ == (State {
                chunks: Map::empty(),
                meshes: Map::empty(),
                load: Seq::empty(),
                build: Seq::empty(),
                unload: Seq::empty(),
                despawn: Seq::empty(),
                load_tasks: Seq::empty(),
                build_tasks: Seq::empty(),
                need_sort: true,
                center: None,
                load_distance: RenderDistance { radius: 8, height: 8 },
                build_distance: RenderDistance { radius: 7, height: 7 },
                load_offsets: c@.load_offsets,
                build_offsets: c@.build_offsets,
            }),
    {
        Controller::new(RenderDistance { radius: 8, height: 8 }, RenderDistance { radius: 7,
            height: 7 })
    }
}

proof fn lemma_push_contains(s: Seq<Coord>, a: Coord)
    ensures
        forall|c: Coord| s.push(a).contains(c) <==> s.contains(c) || c == a,
{
    let r = s.push(a);
    assert forall|c: Coord| r.contains(c) <==> s.contains(c) || c == a by {
        if r.contains(c) {
            let j = choose|j: int| 0 <= j < r.len() && r[j] == c;
            if j < s.len() {
                assert(s[j] == c);
            }
        }
        if s.contains(c) {
            let j = choose|j: int| 0 <= j < s.len() && s[j] == c;
            assert(r[j] == c);
        }
        assert(r[s.len() as int] == a);
    }
}

proof fn lemma_concat_contains(a: Seq<Coord>, b: Seq<Coord>, c: Coord)
    ensures
        (a + b).contains(c) <==> a.contains(c) || b.contains(c),
{
    let r = a + b;
    if r.contains(c) {
        let j = choose|j: int| 0 <= j < r.len() && r[j] == c;
        if j < a.len() {
            assert(a[j] == c);
        } else {
            assert(b[j - a.len()] == c);
        }
    }
    if a.contains(c) {
        let j = choose|j: int| 0 <= j < a.len() && a[j] == c;
        assert(r[j] == c);
    }
    if b.contains(c) {
        let j = choose|j: int| 0 <= j < b.len() && b[j] == c;
        assert(r[a.len() + j] == c);
    }
}

/// The coordinates that stay queued for unloading are those with a task in
/// flight, and they keep their order; what can be unloaded holds none of
/// them, so their chunks stay in the store.
pub proof fn lemma_deferred(q: Seq<Coord>, s: State)
    ensures
        forall|c: Coord| deferred(q, s).contains(c) <==> q.contains(c) && in_flight(s, c),
        forall|c: Coord| in_flight(s, c) ==> !freed(q, s).contains(c),
        deferred(q, s).len() <= q.len(),
        q.no_duplicates() ==> deferred(q, s).no_duplicates(),
    decreases q.len(),
{
    if q.len() > 0 {
        let init = q.drop_last();
        let last = q.last();
        lemma_deferred(init, s);
        assert(q =~= init.push(last));
        lemma_push_contains(init, last);
        lemma_push_contains(deferred(init, s), last);
        if q.no_duplicates() {
            assert(init.no_duplicates());
            assert(!init.contains(last)) by {
                if init.contains(last) {
                    let j = choose|j: int| 0 <= j < init.len() && init[j] == last;
                    assert(q[j] == last);
                }
            }
        }
    }
}

proof fn lemma_reached_step(center: Coord, offsets: Seq<Coord>, n: int, c: Coord)
    requires
        0 <= n < offsets.len(),
    ensures
        reached(center, offsets, n + 1, c) <==> reached(center, offsets, n, c) || (center.can_add(
            offsets[n],
        ) && center.plus(offsets[n]) == c),
{
    if reached(center, offsets, n + 1, c) {
        let j = choose|j: int|
            0 <= j < n + 1 && center.can_add(#[trigger] offsets[j]) && center.plus(offsets[j]) == c;
        if j < n {
            assert(reached(center, offsets, n, c));
        }
    }
    if reached(center, offsets, n, c) {
        let j = choose|j: int|
            0 <= j < n && center.can_add(#[trigger] offsets[j]) && center.plus(offsets[j]) == c;
        assert(0 <= j < n + 1 && center.can_add(offsets[j]) && center.plus(offsets[j]) == c);
    }
    if center.can_add(offsets[n]) && center.plus(offsets[n]) == c {
        assert(0 <= n < n + 1 && center.can_add(offsets[n]) && center.plus(offsets[n]) == c);
    }
}

/// The offsets of a render distance, added to a centre, reach the
/// coordinates of the box around the centre and no others.
pub proof fn lemma_reached_all(center: Coord, offsets: Seq<Coord>, distance: RenderDistance, c: Coord)
    requires
        offsets_of(offsets, distance),
    ensures
        reached(center, offsets, offsets.len() as int, c) <==> distance.covers(center, c),
{
    if reached(center, offsets, offsets.len() as int, c) {
        let j = choose|j: int|
            0 <= j < offsets.len() && center.can_add(#[trigger] offsets[j]) && center.plus(
                offsets[j],
            ) == c;
        assert(offsets.contains(offsets[j]));
    }
    if distance.covers(center, c) {
        let o = Coord {
            x: (c.x - center.x) as i32,
            y: (c.y - center.y) as i32,
            z: (c.z - center.z) as i32,
        };
        assert(distance.covers(origin(), o));
        assert(offsets.contains(o));
        let j = choose|j: int| 0 <= j < offsets.len() && offsets[j] == o;
        assert(center.can_add(offsets[j]) && center.plus(offsets[j]) == c);
    }
}

/// What a dispatch takes out of the build queue are coordinates of the
/// queue whose neighbourhood is loaded and whose meshing is not in flight,
/// no more than the budget allows; everything else stays queued.
pub proof fn lemma_taken(q: Seq<Coord>, chunks: Map<Coord, Chunk>, busy: Seq<Coord>, budget: nat)
    ensures
        taken(q, chunks, busy, budget).len() <= budget,
        taken(q, chunks, busy, budget).len() + passed(q, chunks, busy, budget).len() == q.len(),
        forall|c: Coord|
            taken(q, chunks, busy, budget).contains(c) ==> q.contains(c) && complete(chunks, c)
                && !busy.contains(c),
        forall|c: Coord| passed(q, chunks, busy, budget).contains(c) ==> q.contains(c),
        forall|c: Coord|
            q.contains(c) ==> taken(q, chunks, busy, budget).contains(c) || passed(
                q,
                chunks,
                busy,
                budget,
            ).contains(c),
    decreases q.len(),
{
    let t = taken(q, chunks, busy, budget);
    let p = passed(q, chunks, busy, budget);
    if q.len() > 0 {
        let rest = q.drop_first();
        let less = (budget - 1) as nat;
        assert forall|c: Coord| q.contains(c) <==> c == q[0] || rest.contains(c) by {
            if q.contains(c) {
                let j = choose|j: int| 0 <= j < q.len() && q[j] == c;
                if j > 0 {
                    assert(rest[j - 1] == c);
                }
            }
            if rest.contains(c) {
                let j = choose|j: int| 0 <= j < rest.len() && rest[j] == c;
                assert(q[j + 1] == c);
            }
        }
        if budget == 0 {
        } else if ready(chunks, busy, q[0]) {
            lemma_taken(rest, chunks, busy, less);
            lemma_concat_contains(seq![q[0]], taken(rest, chunks, busy, less), q[0]);
            assert forall|c: Coord| t.contains(c) <==> c == q[0] || taken(
                rest,
                chunks,
                busy,
                less,
            ).contains(c) by {
                lemma_concat_contains(seq![q[0]], taken(rest, chunks, busy, less), c);
                assert(seq![q[0]].contains(c) <==> c == q[0]) by {
                    if seq![q[0]].contains(c) {
                        let j = choose|j: int| 0 <= j < 1 && seq![q[0]][j] == c;
                    }
                    assert(seq![q[0]][0] == q[0]);
                }
            }
        } else {
            lemma_taken(rest, chunks, busy, budget);
            assert forall|c: Coord| p.contains(c) <==> c == q[0] || passed(
                rest,
                chunks,
                busy,
                budget,
            ).contains(c) by {
                lemma_concat_contains(seq![q[0]], passed(rest, chunks, busy, budget), c);
                assert(seq![q[0]].contains(c) <==> c == q[0]) by {
                    if seq![q[0]].contains(c) {
                        let j = choose|j: int| 0 <= j < 1 && seq![q[0]][j] == c;
                    }
                    assert(seq![q[0]][0] == q[0]);
                }
            }
        }
    }
}

/// A dispatch from a state within the budgets leads to a state within the
/// budgets. It starts no more tasks than the budgets leave,
/// and meshing only for coordinates whose neighbourhood is loaded.
pub proof fn lemma_dispatch_budget(s: State)
    requires
        s.load_tasks.len() <= MAX_CHUNKS,
        s.build_tasks.len() <= MAX_MESHES,
    ensures
        after_dispatch(s).load_tasks.len() <= MAX_CHUNKS,
        after_dispatch(s).build_tasks.len() <= MAX_MESHES,
        loads_of(s).len() + s.load_tasks.len() <= MAX_CHUNKS,
        builds_of(s).len() + s.build_tasks.len() <= MAX_MESHES,
        forall|c: Coord| builds_of(s).contains(c) ==> complete(s.chunks, c),
{
    lemma_taken(s.build, s.chunks, s.build_tasks, build_budget(s));
}

/// The coordinates of `pick` that the first `n` offsets reach from
/// `center`.
spec fn gone(center: Coord, offsets: Seq<Coord>, n: int, pick: Set<Coord>) -> Set<Coord> {
    Set::new(|c: Coord| reached(center, offsets, n, c) && pick.contains(c))
}

proof fn lemma_gone_step(center: Coord, offsets: Seq<Coord>, n: int, pick: Set<Coord>)
    requires
        0 <= n < offsets.len(),
    ensures
        center.can_add(offsets[n]) && pick.contains(center.plus(offsets[n])) ==> gone(
            center,
            offsets,
            n + 1,
            pick,
        ) == gone(center, offsets, n, pick).insert(center.plus(offsets[n])),
        !(center.can_add(offsets[n]) && pick.contains(center.plus(offsets[n]))) ==> gone(
            center,
            offsets,
            n + 1,
            pick,
        ) == gone(center, offsets, n, pick),
{
    assert forall|c: Coord|
        reached(center, offsets, n + 1, c) <==> reached(center, offsets, n, c) || (center.can_add(
            offsets[n],
        ) && center.plus(offsets[n]) == c) by {
        lemma_reached_step(center, offsets, n, c);
    }
    if center.can_add(offsets[n]) && pick.contains(center.plus(offsets[n])) {
        assert(gone(center, offsets, n + 1, pick) =~= gone(center, offsets, n, pick).insert(
            center.plus(offsets[n]),
        ));
    } else {
        assert(gone(center, offsets, n + 1, pick) =~= gone(center, offsets, n, pick));
    }
}

proof fn lemma_shifted_step(center: Coord, offsets: Seq<Coord>, n: int, pick: Set<Coord>)
    requires
        0 <= n < offsets.len(),
    ensures
        shifted(center, offsets.take(n + 1), pick) == (if center.can_add(offsets[n])
            && pick.contains(center.plus(offsets[n])) {
            shifted(center, offsets.take(n), pick).push(center.plus(offsets[n]))
        } else {
            shifted(center, offsets.take(n), pick)
        }),
{
    let next = offsets.take(n + 1);
    assert(next.drop_last() =~= offsets.take(n));
    assert(next.last() == offsets[n]);
}

proof fn lemma_only_nothing(q: Seq<Coord>)
    ensures
        only(q, Set::<Coord>::empty()) == q,
    decreases q.len(),
{
    if q.len() > 0 {
        lemma_only_nothing(q.drop_last());
        assert(q.drop_last().push(q.last()) =~= q);
    }
}

/// What the offsets of a box, added to a centre, reach of a set of
/// coordinates: the coordinates of the set that lie in the box around the
/// centre, each once.
pub proof fn lemma_shifted(
    center: Coord,
    offsets: Seq<Coord>,
    distance: RenderDistance,
    pick: Set<Coord>,
)
    requires
        offsets_of(offsets, distance),
    ensures
        forall|c: Coord| #[trigger]
            shifted(center, offsets, pick).contains(c) <==> distance.covers(center, c)
                && pick.contains(c),
{
    lemma_shifted_reached(center, offsets, pick);
    assert forall|c: Coord| #[trigger]
        shifted(center, offsets, pick).contains(c) <==> distance.covers(center, c)
            && pick.contains(c) by {
        lemma_reached_all(center, offsets, distance, c);
    }
}

proof fn lemma_shifted_reached(center: Coord, offsets: Seq<Coord>, pick: Set<Coord>)
    ensures
        forall|c: Coord| #[trigger]
            shifted(center, offsets, pick).contains(c) <==> reached(
                center,
                offsets,
                offsets.len() as int,
                c,
            ) && pick.contains(c),
    decreases offsets.len(),
{
    if offsets.len() == 0 {
        assert forall|c: Coord| !shifted(center, offsets, pick).contains(c) by {}
    } else {
        let init = offsets.drop_last();
        let last = offsets.last();
        let n = init.len() as int;
        let before = shifted(center, init, pick);
        let here = shifted(center, offsets, pick);
        lemma_shifted_reached(center, init, pick);
        assert(offsets[n] == last);
        assert forall|c: Coord|
            here.contains(c) <==> reached(center, offsets, offsets.len() as int, c)
                && pick.contains(c) by {
            lemma_reached_step(center, offsets, n, c);
            assert(reached(center, init, n, c) <==> reached(center, offsets, n, c)) by {
                if reached(center, init, n, c) {
                    let j = choose|j: int|
                        0 <= j < n && center.can_add(#[trigger] init[j]) && center.plus(init[j])
                            == c;
                    assert(offsets[j] == init[j]);
                }
                if reached(center, offsets, n, c) {
                    let j = choose|j: int|
                        0 <= j < n && center.can_add(#[trigger] offsets[j]) && center.plus(
                            offsets[j],
                        ) == c;
                    assert(init[j] == offsets[j]);
                }
            }
            assert(before.contains(c) <==> reached(center, init, n, c) && pick.contains(c));
            if center.can_add(last) && pick.contains(center.plus(last)) {
                lemma_push_contains(before, center.plus(last));
                assert(here == before.push(center.plus(last)));
                assert(here.contains(c) <==> before.contains(c) || c == center.plus(last));
            } else {
                assert(here == before);
            }
        }
    }
}

/// What a move of the viewer does to the queues, coordinate by coordinate.
/// Queued for generation is what was queued and does not leave the load
/// box, and what enters the box and is neither loaded nor being generated.
/// Queued for unloading is what leaves the load box, and what was queued
/// and does not enter it. Queued for meshing is what enters the build box,
/// and what was queued and leaves neither box.
pub proof fn lemma_retargeted(
    s: State,
    t: State,
    viewer: Coord,
    load: RenderDistance,
    build: RenderDistance,
)
    requires
        retargeted(s, t, viewer, load, build),
        offsets_of(s.load_offsets, s.load_distance),
        offsets_of(s.build_offsets, s.build_distance),
        s.load.no_duplicates(),
        s.build.no_duplicates(),
        s.unload.no_duplicates(),
    ensures
        t.load.no_duplicates(),
        t.build.no_duplicates(),
        t.unload.no_duplicates(),
        forall|c: Coord| #[trigger]
            t.load.contains(c) <==> (s.load.contains(c) && !(wanted(s.center, s.load_distance, c)
                && !load.covers(viewer, c))) || (load.covers(viewer, c) && !wanted(
                s.center,
                s.load_distance,
                c,
            ) && !s.chunks.contains_key(c) && !s.load_tasks.contains(c)),
        forall|c: Coord| #[trigger]
            t.unload.contains(c) <==> (s.unload.contains(c) && !(load.covers(viewer, c) && !wanted(
                s.center,
                s.load_distance,
                c,
            ))) || (wanted(s.center, s.load_distance, c) && !load.covers(viewer, c)),
        forall|c: Coord| #[trigger]
            t.build.contains(c) <==> (s.build.contains(c) && !(wanted(s.center, s.load_distance, c)
                && !load.covers(viewer, c)) && !(wanted(s.center, s.build_distance, c)
                && !build.covers(viewer, c))) || (build.covers(viewer, c) && !wanted(
                s.center,
                s.build_distance,
                c,
            )),
{
    let ll = load_left(s, viewer, load);
    let ul = unload_left(s, viewer, load);
    let bl = build_left(s, viewer, load, build);
    match s.center {
        Some(prev) => {
            let out = leaving(s.load_distance, prev, viewer, load);
            lemma_only(s.load, out);
            lemma_only(s.build, out);
            lemma_only(only(s.build, out), leaving(s.build_distance, prev, viewer, build));
            lemma_shifted(prev, s.load_offsets, s.load_distance, outside(viewer, load));
            lemma_extended(s.unload, shifted(prev, s.load_offsets, outside(viewer, load)));
        },
        None => {},
    }
    lemma_shifted(viewer, t.load_offsets, load, missing(s));
    lemma_extended(ll, shifted(viewer, t.load_offsets, missing(s)));
    lemma_only(ul, entering(s.center, s.load_distance, viewer, load));
    lemma_shifted(viewer, t.build_offsets, build, fresh(s.center, s.build_distance));
    lemma_extended(bl, shifted(viewer, t.build_offsets, fresh(s.center, s.build_distance)));
    assert forall|c: Coord| #[trigger]
        t.load.contains(c) <==> (s.load.contains(c) && !(wanted(s.center, s.load_distance, c)
            && !load.covers(viewer, c))) || (load.covers(viewer, c) && !wanted(
            s.center,
            s.load_distance,
            c,
        ) && !s.chunks.contains_key(c) && !s.load_tasks.contains(c)) by {
        assert(ll.contains(c) <==> s.load.contains(c) && !(wanted(s.center, s.load_distance, c)
            && !load.covers(viewer, c)));
        assert(shifted(viewer, t.load_offsets, missing(s)).contains(c) <==> load.covers(viewer, c)
            && missing(s).contains(c));
    }
    assert forall|c: Coord| #[trigger]
        t.unload.contains(c) <==> (s.unload.contains(c) && !(load.covers(viewer, c) && !wanted(
            s.center,
            s.load_distance,
            c,
        ))) || (wanted(s.center, s.load_distance, c) && !load.covers(viewer, c)) by {
        assert(ul.contains(c) <==> s.unload.contains(c) || (wanted(s.center, s.load_distance, c)
            && !load.covers(viewer, c)));
        assert(t.unload.contains(c) <==> ul.contains(c) && !entering(
            s.center,
            s.load_distance,
            viewer,
            load,
        ).contains(c));
    }
    assert forall|c: Coord| #[trigger]
        t.build.contains(c) <==> (s.build.contains(c) && !(wanted(s.center, s.load_distance, c)
            && !load.covers(viewer, c)) && !(wanted(s.center, s.build_distance, c)
            && !build.covers(viewer, c))) || (build.covers(viewer, c) && !wanted(
            s.center,
            s.build_distance,
            c,
        )) by {
        assert(bl.contains(c) <==> s.build.contains(c) && !(wanted(s.center, s.load_distance, c)
            && !load.covers(viewer, c)) && !(wanted(s.center, s.build_distance, c)
            && !build.covers(viewer, c)));
        assert(shifted(viewer, t.build_offsets, fresh(s.center, s.build_distance)).contains(c)
            <==> build.covers(viewer, c) && fresh(s.center, s.build_distance).contains(c));
    }
}

} // verus!

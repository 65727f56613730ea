//! Work queues: ordered sets of chunk coordinates.

use vstd::prelude::*;
use ordermap::OrderSet;
use crate::coord::Coord;

verus! {

/// `ordermap::OrderSet`: a hash set that keeps its items in insertion order.
/// The verifier sees nothing inside it.
#[verifier::external_type_specification]
#[verifier::external_body]
#[verifier::reject_recursive_types(T)]
#[verifier::reject_recursive_types(S)]
pub struct ExOrderSet<T, S>(OrderSet<T, S>);

/// The items of an ordered set, in their order.
pub uninterp spec fn queue_items(q: OrderSet<(i32, i32, i32)>) -> Seq<(i32, i32, i32)>;

/// The coordinate with the components of `item`.
pub open spec fn item_coord(item: (i32, i32, i32)) -> Coord {
    Coord { x: item.0, y: item.1, z: item.2 }
}

/// The squared distance from `item` to `viewer`.
pub open spec fn item_dist2(item: (i32, i32, i32), viewer: Coord) -> int {
    item_coord(item).dist2(viewer)
}

/// Whether `after` holds the items of `before`, ordered by ascending key,
/// with items of equal key in the order in which `before` has them.
pub open spec fn stable_sort_by<T>(before: Seq<T>, after: Seq<T>, key: spec_fn(T) -> int) -> bool {
    &&& after.to_multiset() == before.to_multiset()
    &&& forall|i: int, j: int| 0 <= i < j < after.len()
        ==> key(#[trigger] after[i]) <= key(#[trigger] after[j])
    &&& forall|i: int, j: int, k: int, l: int|
        #![trigger before[i], before[j], after[k], after[l]]
        0 <= i < j < before.len() && 0 <= k < after.len() && 0 <= l < after.len() && after[k]
            == before[i] && after[l] == before[j] && key(before[i]) == key(before[j]) ==> k < l
}

/// The squared distance from `item` to `viewer`, the key by which a queue is
/// sorted.
pub fn distance_key(item: &(i32, i32, i32), viewer: Coord) -> (d: u128)
    ensures
        d == item_dist2(*item, viewer),
{
    Coord { x: item.0, y: item.1, z: item.2 }.distance_squared(viewer)
}

/// `OrderSet::new`: a set without items.
#[verifier::external_body]
fn queue_new() -> (q: OrderSet<(i32, i32, i32)>)
    ensures
        queue_items(q) == Seq::<(i32, i32, i32)>::empty(),
{
    OrderSet::new()
}

/// `OrderSet::len`: the number of items.
#[verifier::external_body]
fn queue_len(q: &OrderSet<(i32, i32, i32)>) -> (n: usize)
    ensures
        n == queue_items(*q).len(),
{
    q.len()
}

/// `OrderSet::contains`: whether the set holds the item.
#[verifier::external_body]
fn queue_contains(q: &OrderSet<(i32, i32, i32)>, item: &(i32, i32, i32)) -> (b: bool)
    ensures
        b == queue_items(*q).contains(*item),
{
    q.contains(item)
}

/// `OrderSet::insert`: an item that the set holds already changes nothing
/// and gives `false`; a new item becomes the last and gives `true`.
#[verifier::external_body]
fn queue_insert(q: &mut OrderSet<(i32, i32, i32)>, item: (i32, i32, i32)) -> (b: bool)
    ensures
        b == !queue_items(*old(q)).contains(item),
        queue_items(*final(q)) == (if b {
            queue_items(*old(q)).push(item)
        } else {
            queue_items(*old(q))
        }),
{
    q.insert(item)
}

/// `OrderSet::remove`: an item that the set does not hold changes nothing
/// and gives `false`; an item that it holds leaves, the items behind it move
/// up by one place and keep their order, and the call gives `true`.
#[verifier::external_body]
fn queue_remove(q: &mut OrderSet<(i32, i32, i32)>, item: &(i32, i32, i32)) -> (b: bool)
    ensures
        b == queue_items(*old(q)).contains(*item),
        !b ==> queue_items(*final(q)) == queue_items(*old(q)),
        forall|i: int|
            0 <= i < queue_items(*old(q)).len() && queue_items(*old(q))[i] == *item ==> queue_items(
                *final(q),
            ) == queue_items(*old(q)).remove(i),
{
    q.remove(item)
}

/// `OrderSet::get_index`: the item at the given place, or `None` where the
/// place is past the last item.
#[verifier::external_body]
fn queue_get(q: &OrderSet<(i32, i32, i32)>, index: usize) -> (r: Option<(i32, i32, i32)>)
    ensures
        match r {
            Some(item) => index < queue_items(*q).len() && item == queue_items(*q)[index as int],
            None => index >= queue_items(*q).len(),
        },
{
    q.get_index(index).copied()
}

/// `OrderSet::sort_by_key`, with the squared distance to `viewer` as the
/// key: a stable sort of the items by ascending key.
#[verifier::external_body]
fn queue_sort(q: &mut OrderSet<(i32, i32, i32)>, viewer: Coord)
    requires
        queue_items(*old(q)).no_duplicates(),
    ensures
        stable_sort_by(
            queue_items(*old(q)),
            queue_items(*final(q)),
            |item: (i32, i32, i32)| item_dist2(item, viewer),
        ),
{
    q.sort_by_key(|item| distance_key(item, viewer));
}

/// The coordinates of `items`, in order.
pub open spec fn coords_of(items: Seq<(i32, i32, i32)>) -> Seq<Coord> {
    Seq::new(items.len(), |i: int| item_coord(items[i]))
}

/// `s` without `c`.
pub open spec fn without(s: Seq<Coord>, c: Coord) -> Seq<Coord> {
    if s.contains(c) {
        s.remove(s.index_of(c))
    } else {
        s
    }
}

/// Whether the coordinates of `s` come in ascending distance to `viewer`.
pub open spec fn nearest_first(s: Seq<Coord>, viewer: Coord) -> bool {
    forall|i: int, j: int| 0 <= i < j < s.len()
        ==> (#[trigger] s[i]).dist2(viewer) <= (#[trigger] s[j]).dist2(viewer)
}

/// An ordered set of chunk coordinates: no coordinate is queued twice, and
/// the coordinates keep the order in which they came in until the queue is
/// sorted.
pub struct Queue {
    set: OrderSet<(i32, i32, i32)>,
}

impl Queue {
    /// The queued coordinates, in order.
    pub closed spec fn view(self) -> Seq<Coord> {
        coords_of(queue_items(self.set))
    }

    /// No coordinate is queued twice.
    pub open spec fn wf(self) -> bool {
        self@.no_duplicates()
    }

    /// An empty queue.
    pub fn new() -> (q: Queue)
        ensures
            q.wf(),
            q@ == Seq::<Coord>::empty(),
    {
        let q = Queue { set: queue_new() };
        assert(q@ =~= Seq::<Coord>::empty());
        q
    }

    /// The number of queued coordinates.
    pub fn len(&self) -> (n: usize)
        ensures
            n == self@.len(),
    {
        queue_len(&self.set)
    }

    /// Whether `pos` is queued.
    pub fn contains(&self, pos: Coord) -> (b: bool)
        ensures
            b == self@.contains(pos),
    {
        let item = (pos.x, pos.y, pos.z);
        let b = queue_contains(&self.set, &item);
        proof {
            lemma_coords_contains(queue_items(self.set), item);
        }
        b
    }

    /// The coordinate at place `index`, or `None` past the end.
    pub fn get_index(&self, index: usize) -> (r: Option<Coord>)
        ensures
            r == (if index < self@.len() {
                Some(self@[index as int])
            } else {
                None::<Coord>
            }),
    {
        match queue_get(&self.set, index) {
            Some(item) => Some(Coord { x: item.0, y: item.1, z: item.2 }),
            None => None,
        }
    }

    /// Queues `pos` behind the others. A coordinate that is queued already
    /// keeps its place. Returns whether `pos` was new.
    pub fn insert(&mut self, pos: Coord) -> (b: bool)
        requires
            old(self).wf(),
        ensures
            final(self).wf(),
            b == !old(self)@.contains(pos),
            final(self)@ == (if b {
                old(self)@.push(pos)
            } else {
                old(self)@
            }),
    {
        let item = (pos.x, pos.y, pos.z);
        let ghost before = queue_items(self.set);
        let b = queue_insert(&mut self.set, item);
        proof {
            lemma_coords_contains(before, item);
            if b {
                assert(self@ =~= coords_of(before).push(pos));
            }
        }
        b
    }

    /// Takes `pos` out of the queue. The coordinates behind it keep their
    /// order. Returns whether `pos` was queued.
    pub fn remove(&mut self, pos: Coord) -> (b: bool)
        requires
            old(self).wf(),
        ensures
            final(self).wf(),
            b == old(self)@.contains(pos),
            final(self)@ == without(old(self)@, pos),
            forall|c: Coord| final(self)@.contains(c) <==> old(self)@.contains(c) && c != pos,
    {
        let item = (pos.x, pos.y, pos.z);
        let ghost before = queue_items(self.set);
        let ghost old_view = self@;
        let b = queue_remove(&mut self.set, &item);
        proof {
            lemma_coords_contains(before, item);
            if b {
                let i = old_view.index_of(pos);
                assert(old_view[i] == pos);
                assert(before[i] == item);
                assert(self@ =~= old_view.remove(i));
            }
            lemma_without(old_view, pos);
        }
        b
    }

    /// Queues the coordinates of `more`, in their order, as far as they are
    /// not queued yet.
    pub fn extend(&mut self, more: &Vec<Coord>)
        requires
            old(self).wf(),
        ensures
            final(self).wf(),
            final(self)@ == extended(old(self)@, more@),
    {
        let mut i: usize = 0;
        while i < more.len()
            invariant
                i <= more.len(),
                self.wf(),
                self@ == extended(old(self)@, more@.subrange(0, i as int)),
            decreases more.len() - i,
        {
            self.insert(more[i]);
            proof {
                let next = more@.subrange(0, i + 1);
                assert(next.drop_last() =~= more@.subrange(0, i as int));
                assert(next.last() == more@[i as int]);
            }
            i += 1;
        }
        assert(more@.subrange(0, more@.len() as int) =~= more@);
    }

    /// Sorts the queue by ascending distance to `viewer`. Coordinates at the
    /// same distance keep their order.
    pub fn sort(&mut self, viewer: Coord)
        requires
            old(self).wf(),
        ensures
            final(self).wf(),
            stable_sort_by(old(self)@, final(self)@, |c: Coord| c.dist2(viewer)),
            nearest_first(final(self)@, viewer),
            final(self)@.len() == old(self)@.len(),
            forall|c: Coord| final(self)@.contains(c) <==> old(self)@.contains(c),
    {
        let ghost before = queue_items(self.set);
        let ghost old_view = self@;
        proof {
            lemma_coords_contains(before, (0, 0, 0));
        }
        queue_sort(&mut self.set, viewer);
        proof {
            let after = queue_items(self.set);
            lemma_coords_multiset(before);
            lemma_coords_multiset(after);
            assert(self@.to_multiset() =~= old_view.to_multiset()) by {
                assert forall|c: Coord| self@.to_multiset().count(c) == old_view.to_multiset().count(
                    c,
                ) by {
                    let item = (c.x, c.y, c.z);
                    assert(item_coord(item) == c);
                    assert(after.to_multiset().count(item) == before.to_multiset().count(item));
                }
            }
            assert forall|i: int, j: int| 0 <= i < j < self@.len() implies (#[trigger] self@[i]).dist2(
                viewer,
            ) <= (#[trigger] self@[j]).dist2(viewer) by {
                assert(item_dist2(after[i], viewer) <= item_dist2(after[j], viewer));
            }
            assert forall|i: int, j: int, k: int, l: int|
                #![trigger old_view[i], old_view[j], self@[k], self@[l]]
                0 <= i < j < old_view.len() && 0 <= k < self@.len() && 0 <= l < self@.len()
                    && self@[k] == old_view[i] && self@[l] == old_view[j] && old_view[i].dist2(viewer)
                    == old_view[j].dist2(viewer) implies k < l by {
                assert(after[k] == before[i]);
                assert(after[l] == before[j]);
            }
            old_view.to_multiset_ensures();
            self@.to_multiset_ensures();
            old_view.lemma_multiset_has_no_duplicates();
            self@.lemma_multiset_has_no_duplicates_conv();
            assert forall|c: Coord| self@.contains(c) <==> old_view.contains(c) by {
                assert(self@.to_multiset().count(c) == old_view.to_multiset().count(c));
            }
        }
    }

    /// The queued coordinates as a vector, in order.
    pub fn to_vec(&self) -> (v: Vec<Coord>)
        ensures
            v@ == self@,
    {
        let n = self.len();
        let mut v: Vec<Coord> = Vec::new();
        let mut i: usize = 0;
        while i < n
            invariant
                i <= n,
                n == self@.len(),
                v@ == self@.subrange(0, i as int),
            decreases n - i,
        {
            match self.get_index(i) {
                Some(c) => { v.push(c); },
                None => {},
            }
            i += 1;
            assert(v@ =~= self@.subrange(0, i as int));
        }
        assert(v@ =~= self@);
        v
    }
}

/// `s` with the coordinates of `more` queued behind it, in their order, as
/// far as they are not queued yet.
pub open spec fn extended(s: Seq<Coord>, more: Seq<Coord>) -> Seq<Coord>
    decreases more.len(),
{
    if more.len() == 0 {
        s
    } else {
        let sofar = extended(s, more.drop_last());
        if sofar.contains(more.last()) {
            sofar
        } else {
            sofar.push(more.last())
        }
    }
}

proof fn lemma_coords_contains(items: Seq<(i32, i32, i32)>, item: (i32, i32, i32))
    ensures
        items.contains(item) <==> coords_of(items).contains(item_coord(item)),
        coords_of(items).no_duplicates() ==> items.no_duplicates(),
{
    let coords = coords_of(items);
    if items.contains(item) {
        let i = choose|i: int| 0 <= i < items.len() && items[i] == item;
        assert(coords[i] == item_coord(item));
    }
    if coords.contains(item_coord(item)) {
        let i = choose|i: int| 0 <= i < coords.len() && coords[i] == item_coord(item);
        assert(items[i] == item);
    }
    if coords.no_duplicates() {
        assert forall|i: int, j: int| 0 <= i < items.len() && 0 <= j < items.len() && i
            != j implies items[i] != items[j] by {
            assert(coords[i] != coords[j]);
        }
    }
}

proof fn lemma_coords_multiset(items: Seq<(i32, i32, i32)>)
    ensures
        forall|item: (i32, i32, i32)|
            #[trigger] items.to_multiset().count(item) == coords_of(items).to_multiset().count(
                item_coord(item),
            ),
    decreases items.len(),
{
    broadcast use vstd::multiset::group_multiset_axioms;

    if items.len() == 0 {
        items.to_multiset_ensures();
        coords_of(items).to_multiset_ensures();
        assert forall|item: (i32, i32, i32)|
            #[trigger] items.to_multiset().count(item) == coords_of(items).to_multiset().count(
                item_coord(item),
            ) by {
            if items.to_multiset().count(item) > 0 {
                assert(items.to_multiset().len() > 0);
            }
            if coords_of(items).to_multiset().count(item_coord(item)) > 0 {
                assert(coords_of(items).to_multiset().len() > 0);
            }
        }
    } else {
        let init = items.drop_last();
        let last = items.last();
        lemma_coords_multiset(init);
        assert(items =~= init.push(last));
        assert(coords_of(items) =~= coords_of(init).push(item_coord(last)));
        vstd::seq_lib::to_multiset_build(init, last);
        vstd::seq_lib::to_multiset_build(coords_of(init), item_coord(last));
        assert forall|item: (i32, i32, i32)|
            #[trigger] items.to_multiset().count(item) == coords_of(items).to_multiset().count(
                item_coord(item),
            ) by {
            assert(init.to_multiset().count(item) == coords_of(init).to_multiset().count(
                item_coord(item),
            ));
        }
    }
}

/// Taking a coordinate out of a list without repetitions leaves a list
/// without repetitions that holds the other coordinates.
pub proof fn lemma_without(s: Seq<Coord>, pos: Coord)
    requires
        s.no_duplicates(),
    ensures
        without(s, pos).no_duplicates(),
        forall|c: Coord| #[trigger] without(s, pos).contains(c) <==> s.contains(c) && c != pos,
        without(s, pos).len() == s.len() - (if s.contains(pos) {
            1int
        } else {
            0int
        }),
{
    let r = without(s, pos);
    if s.contains(pos) {
        let i = s.index_of(pos);
        assert(s[i] == pos);
        assert forall|c: Coord| r.contains(c) <==> s.contains(c) && c != pos by {
            if r.contains(c) {
                let j = choose|j: int| 0 <= j < r.len() && r[j] == c;
                if j < i {
                    assert(s[j] == c);
                } else {
                    assert(s[j + 1] == c);
                }
            }
            if s.contains(c) && c != pos {
                let j = choose|j: int| 0 <= j < s.len() && s[j] == c;
                if j < i {
                    assert(r[j] == c);
                } else {
                    assert(r[j - 1] == c);
                }
            }
        }
    }
}

/// Queueing more coordinates keeps what was queued in its place, queues no
/// coordinate twice, and leaves the queue holding what it held and what
/// came.
pub proof fn lemma_extended(s: Seq<Coord>, more: Seq<Coord>)
    requires
        s.no_duplicates(),
    ensures
        extended(s, more).no_duplicates(),
        s.len() <= extended(s, more).len(),
        extended(s, more).subrange(0, s.len() as int) == s,
        forall|c: Coord| #[trigger]
            extended(s, more).contains(c) <==> s.contains(c) || more.contains(c),
    decreases more.len(),
{
    let r = extended(s, more);
    if more.len() == 0 {
        assert(r.subrange(0, s.len() as int) =~= s);
    } else {
        let init = more.drop_last();
        let last = more.last();
        let sofar = extended(s, init);
        lemma_extended(s, init);
        assert(r.subrange(0, s.len() as int) =~= sofar.subrange(0, s.len() as int));
        assert forall|c: Coord| r.contains(c) <==> s.contains(c) || more.contains(c) by {
            if more.contains(c) {
                let j = choose|j: int| 0 <= j < more.len() && more[j] == c;
                if j < init.len() {
                    assert(init[j] == c);
                }
            }
            if init.contains(c) {
                let j = choose|j: int| 0 <= j < init.len() && init[j] == c;
                assert(more[j] == c);
            }
            assert(more[more.len() - 1] == last);
            if sofar.contains(last) {
            } else {
                if r.contains(c) {
                    let j = choose|j: int| 0 <= j < r.len() && r[j] == c;
                    if j < sofar.len() {
                        assert(sofar[j] == c);
                    }
                }
                if sofar.contains(c) {
                    let j = choose|j: int| 0 <= j < sofar.len() && sofar[j] == c;
                    assert(r[j] == c);
                }
                assert(r[r.len() - 1] == last);
            }
        }
    }
}

/// A stable sort of a list without repetitions gives a list without
/// repetitions, of the same length, that holds the same items.
pub proof fn lemma_stable_sort_keeps<T>(before: Seq<T>, after: Seq<T>, key: spec_fn(T) -> int)
    requires
        stable_sort_by(before, after, key),
        before.no_duplicates(),
    ensures
        after.no_duplicates(),
        after.len() == before.len(),
        forall|c: T| after.contains(c) <==> before.contains(c),
{
    before.to_multiset_ensures();
    after.to_multiset_ensures();
    before.lemma_multiset_has_no_duplicates();
    after.lemma_multiset_has_no_duplicates_conv();
    assert forall|c: T| after.contains(c) <==> before.contains(c) by {
        assert(after.to_multiset().count(c) == before.to_multiset().count(c));
    }
}

/// `q` without the coordinates of `drop`, in the order of `q`.
pub open spec fn only(q: Seq<Coord>, drop: Set<Coord>) -> Seq<Coord>
    decreases q.len(),
{
    if q.len() == 0 {
        Seq::empty()
    } else if drop.contains(q.last()) {
        only(q.drop_last(), drop)
    } else {
        only(q.drop_last(), drop).push(q.last())
    }
}

/// What stays of a list holds the coordinates that were not dropped, and no
/// coordinate twice if the list held none twice.
pub proof fn lemma_only(q: Seq<Coord>, drop: Set<Coord>)
    ensures
        forall|c: Coord| #[trigger] only(q, drop).contains(c) <==> q.contains(c) && !drop.contains(c),
        only(q, drop).len() <= q.len(),
        q.no_duplicates() ==> only(q, drop).no_duplicates(),
    decreases q.len(),
{
    let here = only(q, drop);
    if q.len() == 0 {
        assert forall|c: Coord| #[trigger] here.contains(c) <==> q.contains(c)
            && !drop.contains(c) by {}
    } else {
        let init = q.drop_last();
        let last = q.last();
        let r = only(init, drop);
        lemma_only(init, drop);
        assert(q =~= init.push(last));
        assert forall|c: Coord| q.contains(c) <==> init.contains(c) || c == last by {
            if q.contains(c) {
                let j = choose|j: int| 0 <= j < q.len() && q[j] == c;
                if j < init.len() {
                    assert(init[j] == c);
                }
            }
            if init.contains(c) {
                let j = choose|j: int| 0 <= j < init.len() && init[j] == c;
                assert(q[j] == c);
            }
            assert(q[q.len() - 1] == last);
        }
        assert forall|c: Coord| r.push(last).contains(c) <==> r.contains(c) || c == last by {
            if r.push(last).contains(c) {
                let j = choose|j: int| 0 <= j < r.push(last).len() && r.push(last)[j] == c;
                if j < r.len() {
                    assert(r[j] == c);
                }
            }
            if r.contains(c) {
                let j = choose|j: int| 0 <= j < r.len() && r[j] == c;
                assert(r.push(last)[j] == c);
            }
            assert(r.push(last)[r.len() as int] == last);
        }
        assert forall|c: Coord| #[trigger] here.contains(c) <==> q.contains(c) && !drop.contains(c) by {
            assert(r.contains(c) <==> init.contains(c) && !drop.contains(c));
            if drop.contains(last) {
                assert(here == r);
            } else {
                assert(here == r.push(last));
            }
        }
        if q.no_duplicates() {
            assert(init.no_duplicates());
            assert(!init.contains(last)) by {
                if init.contains(last) {
                    let j = choose|j: int| 0 <= j < init.len() && init[j] == last;
                    assert(q[j] == last);
                }
            }
            if !drop.contains(last) {
                assert(!r.contains(last));
                assert forall|i: int, j: int|
                    0 <= i < here.len() && 0 <= j < here.len() && i != j implies here[i]
                    != here[j] by {
                    if i < r.len() {
                        assert(r.contains(r[i]));
                    }
                    if j < r.len() {
                        assert(r.contains(r[j]));
                    }
                }
            }
        }
    }
}

/// In a list without repetitions a coordinate has one place.
pub proof fn lemma_index_unique(s: Seq<Coord>, i: int)
    requires
        s.no_duplicates(),
        0 <= i < s.len(),
    ensures
        s.contains(s[i]),
        s.index_of(s[i]) == i,
{
    assert(s.contains(s[i]));
    let k = s.index_of(s[i]);
    assert(0 <= k < s.len() && s[k] == s[i]);
}

/// Taking a coordinate out of what stays of a list is dropping it too.
pub proof fn lemma_only_without(q: Seq<Coord>, drop: Set<Coord>, c: Coord)
    requires
        q.no_duplicates(),
    ensures
        without(only(q, drop), c) == only(q, drop.insert(c)),
    decreases q.len(),
{
    let more = drop.insert(c);
    if q.len() > 0 {
        let init = q.drop_last();
        let last = q.last();
        let a = only(init, drop);
        lemma_only(init, drop);
        lemma_only(q, drop);
        lemma_only_without(init, drop, c);
        assert(q =~= init.push(last));
        assert(!init.contains(last)) by {
            if init.contains(last) {
                let j = choose|j: int| 0 <= j < init.len() && init[j] == last;
                assert(q[j] == last);
            }
        }
        if drop.contains(last) {
        } else if last == c {
            let full = a.push(c);
            assert(full[a.len() as int] == c);
            lemma_index_unique(full, a.len() as int);
            assert(full.remove(a.len() as int) =~= a);
            assert(!a.contains(c));
            assert(without(a, c) == a);
        } else {
            let full = a.push(last);
            if a.contains(c) {
                let k = a.index_of(c);
                assert(a[k] == c);
                assert(full[k] == c);
                lemma_index_unique(full, k);
                assert(full.remove(k) =~= a.remove(k).push(last));
            } else {
                assert(!full.contains(c)) by {
                    if full.contains(c) {
                        let j = choose|j: int| 0 <= j < full.len() && full[j] == c;
                        if j < a.len() {
                            assert(a[j] == c);
                        }
                    }
                }
            }
        }
    }
}

} // verus!

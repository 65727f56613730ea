//! A hash map from grid coordinates to values.

use vstd::prelude::*;
use std::collections::HashMap;
use vstd::std_specs::iter::IteratorSpec;
use crate::coord::{
    coord_of_key, is_key, key_of, lemma_key_injective, lemma_key_of_coord, lemma_keys, Coord,
};
use crate::queue::{lemma_without, without};

verus! {

/// A map from coordinates to values of type `V`.
pub struct CoordMap<V> {
    map: HashMap<u128, V>,
}

impl<V> CoordMap<V> {
    /// The map: which coordinates have a value, and which.
    pub closed spec fn view(self) -> Map<Coord, V> {
        Map::new(|c: Coord| self.map@.contains_key(key_of(c)), |c: Coord| self.map@[key_of(c)])
    }

    /// Every key of the underlying map stands for a coordinate.
    pub closed spec fn wf(self) -> bool {
        forall|k: u128| self.map@.contains_key(k) ==> is_key(k)
    }

    /// An empty map.
    pub fn new() -> (m: CoordMap<V>)
        ensures
            m.wf(),
            m@ == Map::<Coord, V>::empty(),
    {
        let m = CoordMap { map: HashMap::new() };
        assert(m@ =~= Map::<Coord, V>::empty());
        m
    }

    /// Whether `pos` has a value.
    pub fn contains_key(&self, pos: Coord) -> (b: bool)
        ensures
            b == self@.contains_key(pos),
    {
        let k = pos.key();
        self.map.contains_key(&k)
    }

    /// The value at `pos`.
    pub fn get(&self, pos: Coord) -> (r: Option<&V>)
        ensures
            match r {
                Some(v) => self@.contains_key(pos) && *v == self@[pos],
                None => !self@.contains_key(pos),
            },
    {
        let k = pos.key();
        self.map.get(&k)
    }

    /// Gives `pos` the value `value` and returns the value that it had.
    pub fn insert(&mut self, pos: Coord, value: V) -> (r: Option<V>)
        requires
            old(self).wf(),
        ensures
            final(self).wf(),
            final(self)@ == old(self)@.insert(pos, value),
            match r {
                Some(v) => old(self)@.contains_key(pos) && v == old(self)@[pos],
                None => !old(self)@.contains_key(pos),
            },
    {
        let k = pos.key();
        let ghost before = *self;
        let r = self.map.insert(k, value);
        proof {
            lemma_keys(pos);
            assert forall|c: Coord| #[trigger]
                self@.contains_key(c) == before@.insert(pos, value).contains_key(c) by {
                if key_of(c) == k {
                    lemma_key_injective(c, pos);
                }
            }
            assert forall|c: Coord| #[trigger] self@.contains_key(c) implies self@[c] == before@.insert(
                pos,
                value,
            )[c] by {
                if key_of(c) == k {
                    lemma_key_injective(c, pos);
                }
            }
            assert(self@ =~= before@.insert(pos, value));
        }
        r
    }

    /// Takes the value of `pos` out of the map and returns it.
    pub fn remove(&mut self, pos: Coord) -> (r: Option<V>)
        requires
            old(self).wf(),
        ensures
            final(self).wf(),
            final(self)@ == old(self)@.remove(pos),
            match r {
                Some(v) => old(self)@.contains_key(pos) && v == old(self)@[pos],
                None => !old(self)@.contains_key(pos),
            },
    {
        let k = pos.key();
        let ghost before = *self;
        let r = self.map.remove(&k);
        proof {
            assert forall|c: Coord| #[trigger]
                self@.contains_key(c) == before@.remove(pos).contains_key(c) by {
                if key_of(c) == k {
                    lemma_key_injective(c, pos);
                }
            }
            assert(self@ =~= before@.remove(pos));
        }
        r
    }

    /// The number of coordinates that have a value.
    pub fn len(&self) -> (n: usize)
        requires
            self.wf(),
        ensures
            self@.dom().finite(),
            n == self@.dom().len(),
    {
        proof {
            let keys = self.map@.dom();
            let decode = |k: u128| coord_of_key(k);
            assert forall|a: u128, b: u128|
                keys.contains(a) && keys.contains(b) && #[trigger] decode(a) == #[trigger] decode(
                    b,
                ) implies a == b by {
                lemma_key_of_coord(a);
                lemma_key_of_coord(b);
            }
            assert forall|c: Coord| keys.map(decode).contains(c) <==> self@.dom().contains(c) by {
                if keys.map(decode).contains(c) {
                    let k = choose|k: u128| keys.contains(k) && decode(k) == c;
                    lemma_key_of_coord(k);
                }
                if self@.dom().contains(c) {
                    lemma_keys(c);
                    assert(keys.contains(key_of(c)) && decode(key_of(c)) == c);
                }
            }
            assert(keys.map(decode) =~= self@.dom());
            vstd::set_lib::lemma_map_size(keys, self@.dom(), decode);
        }
        self.map.len()
    }

    /// The coordinates that have a value, each once, in no particular order.
    pub fn keys(&self) -> (v: Vec<Coord>)
        requires
            self.wf(),
        ensures
            v@.no_duplicates(),
            forall|c: Coord| v@.contains(c) <==> self@.contains_key(c),
    {
        let mut out: Vec<Coord> = Vec::new();
        proof {
            vstd::std_specs::hash::axiom_spec_keys_iter(&self.map);
        }
        let ghost all = self.map.keys().remaining().unref();
        for k in it: self.map.keys()
            invariant
                self.wf(),
                all.to_set() == self.map@.dom(),
                all.no_duplicates(),
                it.seq().unref() == all,
                out@.len() == it.index(),
                forall|j: int| 0 <= j < out@.len() ==> key_of(#[trigger] out@[j]) == all[j],
        {
            proof {
                assert(all[it.index() as int] == *k);
                assert(all.to_set().contains(*k));
            }
            out.push(Coord::from_key(*k));
        }
        proof {
            assert forall|i: int, j: int| 0 <= i < out@.len() && 0 <= j < out@.len()
                && i != j implies out@[i] != out@[j] by {
                assert(key_of(out@[i]) == all[i]);
                assert(key_of(out@[j]) == all[j]);
            }
            assert forall|c: Coord| out@.contains(c) <==> self@.contains_key(c) by {
                if out@.contains(c) {
                    let j = choose|j: int| 0 <= j < out@.len() && out@[j] == c;
                    assert(key_of(out@[j]) == all[j]);
                    assert(all.to_set().contains(all[j]));
                }
                if self@.contains_key(c) {
                    assert(all.to_set().contains(key_of(c)));
                    let j = choose|j: int| 0 <= j < all.len() && all[j] == key_of(c);
                    assert(key_of(out@[j]) == all[j]);
                    lemma_key_injective(out@[j], c);
                }
            }
        }
        out
    }
}

/// A small set of coordinates, held as a list without repetitions.
pub struct CoordSet {
    items: Vec<Coord>,
}

impl CoordSet {
    /// The coordinates of the set, in the order in which they came in.
    pub closed spec fn view(self) -> Seq<Coord> {
        self.items@
    }

    /// No coordinate is listed twice.
    pub open spec fn wf(self) -> bool {
        self@.no_duplicates()
    }

    /// The empty set.
    pub fn new() -> (s: CoordSet)
        ensures
            s.wf(),
            s@ == Seq::<Coord>::empty(),
    {
        CoordSet { items: Vec::new() }
    }

    /// The number of coordinates in the set.
    pub fn len(&self) -> (n: usize)
        ensures
            n == self@.len(),
    {
        self.items.len()
    }

    /// The place of `pos` in the list.
    fn find(&self, pos: Coord) -> (r: Option<usize>)
        ensures
            match r {
                Some(i) => i < self@.len() && self@[i as int] == pos,
                None => !self@.contains(pos),
            },
    {
        let mut i: usize = 0;
        while i < self.items.len()
            invariant
                i <= self.items.len(),
                forall|j: int| 0 <= j < i ==> self@[j] != pos,
            decreases self.items.len() - i,
        {
            if self.items[i] == pos {
                return Some(i);
            }
            i += 1;
        }
        None
    }

    /// Whether `pos` is in the set.
    pub fn contains(&self, pos: Coord) -> (b: bool)
        ensures
            b == self@.contains(pos),
    {
        self.find(pos).is_some()
    }

    /// Puts `pos` into the set. Returns whether it was new.
    pub fn insert(&mut self, pos: Coord) -> (b: bool)
        requires
            old(self).wf(),
        ensures
            final(self).wf(),
            b == !old(self)@.contains(pos),
            final(self)@ == (if b {
                old(self)@.push(pos)
            } else {
                old(self)@
            }),
    {
        if self.contains(pos) {
            false
        } else {
            self.items.push(pos);
            true
        }
    }

    /// Takes `pos` out of the set. Returns whether it was in it.
    pub fn remove(&mut self, pos: Coord) -> (b: bool)
        requires
            old(self).wf(),
        ensures
            final(self).wf(),
            b == old(self)@.contains(pos),
            final(self)@ == without(old(self)@, pos),
            forall|c: Coord| final(self)@.contains(c) <==> old(self)@.contains(c) && c != pos,
            final(self)@.len() == old(self)@.len() - (if b {
                1int
            } else {
                0int
            }),
    {
        match self.find(pos) {
            Some(i) => {
                let ghost before = self@;
                self.items.remove(i);
                proof {
                    assert(self@ == before.remove(i as int));
                    assert(before.contains(pos));
                    assert(before.index_of(pos) == i);
                    lemma_without(before, pos);
                    assert forall|c: Coord| self@.contains(c) <==> before.contains(c) && c
                        != pos by {
                        if self@.contains(c) {
                            let j = choose|j: int| 0 <= j < self@.len() && self@[j] == c;
                            if j < i {
                                assert(before[j] == c);
                            } else {
                                assert(before[j + 1] == c);
                            }
                        }
                        if before.contains(c) && c != pos {
                            let j = choose|j: int| 0 <= j < before.len() && before[j] == c;
                            if j < i {
                                assert(self@[j] == c);
                            } else {
                                assert(self@[j - 1] == c);
                            }
                        }
                    }
                }
                true
            },
            None => false,
        }
    }
}

} // verus!

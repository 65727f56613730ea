//! The block palette: the ordered list of block kinds of a world. A block
//! identifier is the place of its kind in the palette.

use vstd::prelude::*;
use ordermap::OrderMap;

verus! {

/// How a block kind is drawn. The number that a variant carries is the slot
/// of its texture or model among the renderer's resources.
#[derive(Clone, Copy, Debug, PartialEq, Eq, Structural)]
pub enum Model {
    /// Nothing is drawn: air.
    Empty,
    /// A full cube, drawn by the chunk mesher.
    Meshable(u32),
    /// Two crossed planes.
    Crossed(u32),
    /// A model of its own.
    Custom(u32),
}

impl Model {
    /// Whether the chunk mesher draws blocks of this kind.
    pub open spec fn meshable(self) -> bool {
        self is Meshable
    }

    /// Is model meshable?
    pub fn is_meshable(&self) -> (b: bool)
        ensures
            b == self.meshable(),
    {
        match self {
            Model::Meshable(_) => true,
            _ => false,
        }
    }

    /// The texture slot of a meshable block, `None` for every other kind.
    pub fn texture(&self) -> (t: Option<u32>)
        ensures
            t == (match *self {
                Model::Meshable(slot) => Some(slot),
                _ => None::<u32>,
            }),
    {
        match self {
            Model::Meshable(slot) => Some(*slot),
            _ => None,
        }
    }
}

/// A block kind of the built-in palette, with its six textures in the
/// texture atlas.
#[derive(Debug, Clone, Copy, PartialEq, Eq, Structural)]
pub enum Block {
    Air,
    Grass,
    Dirt,
}

/// The number of cells in one line of the texture atlas.
pub const ATLAS_LINE: usize = 1024;

impl Block {
    /// The atlas index of the first of the six textures of the block.
    pub open spec fn first_texture(self) -> Option<int> {
        match self {
            Block::Grass => Some(0int),
            Block::Dirt => Some(1024int),
            Block::Air => None,
        }
    }

    /// Whether the block has textures, and so is drawn.
    pub fn meshable(&self) -> (b: bool)
        ensures
            b == self.first_texture().is_some(),
    {
        self.texture().is_some()
    }

    /// Returns block texture id: the atlas indices of the six faces, which
    /// follow each other in the atlas, or `None` for a block that is not
    /// drawn.
    pub fn texture(&self) -> (t: Option<[usize; 6]>)
        ensures
            t is Some <==> self.first_texture() is Some,
            t is Some ==> forall|i: int|
                0 <= i < 6 ==> (#[trigger] t->0[i]) == self.first_texture()->0 + i,
    {
        match self {
            Block::Grass => Some([0, 1, 2, 3, 4, 5]),
            Block::Dirt => Some([1024, 1025, 1026, 1027, 1028, 1029]),
            _ => None,
        }
    }

    /// The atlas cell of the texture of face `id`: its column and its line.
    pub fn face(&self, texture: [usize; 6], id: usize) -> (cell: (usize, usize))
        requires
            id < 6,
        ensures
            cell.0 == texture[id as int] % 1024,
            cell.1 == texture[id as int] / 1024,
    {
        (texture[id] % ATLAS_LINE, texture[id] / ATLAS_LINE)
    }
}

/// `ordermap::OrderMap`: a hash map that keeps its entries in insertion
/// order. The verifier sees nothing inside it.
#[verifier::external_type_specification]
#[verifier::external_body]
#[verifier::reject_recursive_types(K)]
#[verifier::reject_recursive_types(V)]
#[verifier::reject_recursive_types(S)]
pub struct ExOrderMap<K, V, S>(OrderMap<K, V, S>);

/// The entries of a palette map, in insertion order: the name of each block
/// kind and its model.
pub uninterp spec fn palette_entries(m: OrderMap<String, Model>) -> Seq<(Seq<char>, Model)>;

/// `OrderMap::new`: a map without entries.
#[verifier::external_body]
fn palette_new() -> (m: OrderMap<String, Model>)
    ensures
        palette_entries(m) == Seq::<(Seq<char>, Model)>::empty(),
{
    OrderMap::new()
}

/// `OrderMap::len`: the number of entries.
#[verifier::external_body]
fn palette_len(m: &OrderMap<String, Model>) -> (n: usize)
    ensures
        n == palette_entries(*m).len(),
{
    m.len()
}

/// `OrderMap::insert`: where an entry has the key, its value is replaced and
/// it keeps its place; otherwise the pair becomes the last entry.
#[verifier::external_body]
fn palette_insert(m: &mut OrderMap<String, Model>, name: String, model: Model)
    ensures
        (forall|j: int| 0 <= j < palette_entries(*old(m)).len()
            ==> palette_entries(*old(m))[j].0 != name@)
            ==> palette_entries(*final(m)) == palette_entries(*old(m)).push((name@, model)),
        forall|j: int|
            0 <= j < palette_entries(*old(m)).len() && palette_entries(*old(m))[j].0 == name@
                ==> palette_entries(*final(m)) == palette_entries(*old(m)).update(j, (name@, model)),
{
    m.insert(name, model);
}

/// `OrderMap::get_index_of`: the place of the entry with the given key, or
/// `None` where no entry has it.
#[verifier::external_body]
fn palette_index_of(m: &OrderMap<String, Model>, name: &str) -> (r: Option<usize>)
    ensures
        match r {
            Some(i) => i < palette_entries(*m).len() && palette_entries(*m)[i as int].0 == name@,
            None => forall|j: int|
                0 <= j < palette_entries(*m).len() ==> palette_entries(*m)[j].0 != name@,
        },
{
    m.get_index_of(name)
}

/// `OrderMap::get_index`: the value of the entry at the given place, or
/// `None` where the place is past the last entry.
#[verifier::external_body]
fn palette_get(m: &OrderMap<String, Model>, index: usize) -> (r: Option<Model>)
    ensures
        match r {
            Some(model) => index < palette_entries(*m).len() && model == palette_entries(
                *m,
            )[index as int].1,
            None => index >= palette_entries(*m).len(),
        },
{
    m.get_index(index).map(|entry| *entry.1)
}

/// Whether no name occurs twice among `entries`.
pub open spec fn names_unique(entries: Seq<(Seq<char>, Model)>) -> bool {
    forall|i: int, j: int|
        0 <= i < entries.len() && 0 <= j < entries.len() && (#[trigger] entries[i]).0 == (
        #[trigger] entries[j]).0 ==> i == j
}

/// Whether an entry of `entries` has the name `name`.
pub open spec fn has_name(entries: Seq<(Seq<char>, Model)>, name: Seq<char>) -> bool {
    exists|i: int| 0 <= i < entries.len() && (#[trigger] entries[i]).0 == name
}

/// The place of the entry named `name`, meaningful where one has the name.
pub open spec fn place_of_name(entries: Seq<(Seq<char>, Model)>, name: Seq<char>) -> int {
    choose|i: int| 0 <= i < entries.len() && (#[trigger] entries[i]).0 == name
}

/// Whether `block` is the identifier of a block kind that the chunk mesher
/// draws. Identifier 0 is the empty block and is never drawn, nor is an
/// identifier past the end of the palette.
pub open spec fn meshable_in(entries: Seq<(Seq<char>, Model)>, block: u16) -> bool {
    0 < block < entries.len() && entries[block as int].1.meshable()
}

/// Contains all block kinds of a world, by name and in palette order.
pub struct BlocksHandler {
    map: OrderMap<String, Model>,
}

impl BlocksHandler {
    /// The entries of the palette, in order.
    pub closed spec fn view(self) -> Seq<(Seq<char>, Model)> {
        palette_entries(self.map)
    }

    /// No name occurs twice in a palette.
    pub open spec fn wf(self) -> bool {
        names_unique(self@)
    }

    /// The identifier that [`BlocksHandler::block`] gives for `name`.
    pub open spec fn block_of(self, name: Seq<char>) -> int {
        if has_name(self@, name) {
            place_of_name(self@, name) % 0x1_0000
        } else {
            0
        }
    }

    /// A palette without block kinds.
    pub fn new() -> (h: BlocksHandler)
        ensures
            h.wf(),
            h@ == Seq::<(Seq<char>, Model)>::empty(),
    {
        BlocksHandler { map: palette_new() }
    }

    /// The number of block kinds.
    pub fn len(&self) -> (n: usize)
        ensures
            n == self@.len(),
    {
        palette_len(&self.map)
    }

    /// Adds the block kind `name` as the last of the palette. Where the
    /// palette has a kind of that name already, the kind keeps its place and
    /// gets the new model.
    pub fn insert(&mut self, name: String, model: Model)
        requires
            old(self).wf(),
        ensures
            final(self).wf(),
            !has_name(old(self)@, name@) ==> final(self)@ == old(self)@.push((name@, model)),
            has_name(old(self)@, name@) ==> final(self)@ == old(self)@.update(
                place_of_name(old(self)@, name@),
                (name@, model),
            ),
    {
        let ghost before = self@;
        palette_insert(&mut self.map, name, model);
        proof {
            if has_name(before, name@) {
                let j = place_of_name(before, name@);
                assert(self@ == before.update(j, (name@, model)));
                assert forall|a: int, b: int|
                    0 <= a < self@.len() && 0 <= b < self@.len() && (#[trigger] self@[a]).0 == (
                    #[trigger] self@[b]).0 implies a == b by {
                    assert(before[a].0 == self@[a].0);
                    assert(before[b].0 == self@[b].0);
                }
            } else {
                assert forall|k: int| 0 <= k < before.len() implies before[k].0 != name@ by {
                    assert(before[k].0 == before[k].0);
                }
                assert(self@ == before.push((name@, model)));
                assert forall|a: int, b: int|
                    0 <= a < self@.len() && 0 <= b < self@.len() && (#[trigger] self@[a]).0 == (
                    #[trigger] self@[b]).0 implies a == b by {
                    if a < before.len() {
                        assert(before[a].0 == self@[a].0);
                    }
                    if b < before.len() {
                        assert(before[b].0 == self@[b].0);
                    }
                }
            }
        }
    }

    /// Return block id (0 if not exists) by name. The identifier is the place
    /// of the kind in the palette, reduced to sixteen bits.
    pub fn block(&self, name: &str) -> (b: u16)
        requires
            self.wf(),
        ensures
            b == self.block_of(name@),
    {
        match palette_index_of(&self.map, name) {
            Some(i) => {
                proof {
                    assert(self@[i as int].0 == name@);
                    assert(place_of_name(self@, name@) == i);
                }
                low_sixteen(i)
            },
            None => {
                proof {
                    if has_name(self@, name@) {
                        let j = place_of_name(self@, name@);
                        assert(self@[j].0 == name@);
                    }
                }
                0
            },
        }
    }

    /// Is texture drawable with default way? False for the empty block 0
    /// and for an identifier past the end of the palette.
    pub fn is_meshable(&self, block: u16) -> (b: bool)
        ensures
            b == meshable_in(self@, block),
    {
        if block == 0 {
            return false;
        }
        match palette_get(&self.map, block as usize) {
            Some(model) => model.is_meshable(),
            None => false,
        }
    }

    /// The texture slot of every block kind, in palette order: `None` for a
    /// kind that the chunk mesher does not draw.
    pub fn textures(&self) -> (v: Vec<Option<u32>>)
        ensures
            v@.len() == self@.len(),
            forall|i: int|
                0 <= i < self@.len() ==> v@[i] == (match (#[trigger] self@[i]).1 {
                    Model::Meshable(slot) => Some(slot),
                    _ => None::<u32>,
                }),
    {
        let n = palette_len(&self.map);
        let mut v: Vec<Option<u32>> = Vec::new();
        let mut i: usize = 0;
        while i < n
            invariant
                i <= n,
                n == self@.len(),
                v@.len() == i,
                forall|k: int|
                    0 <= k < i ==> v@[k] == (match (#[trigger] self@[k]).1 {
                        Model::Meshable(slot) => Some(slot),
                        _ => None::<u32>,
                    }),
            decreases n - i,
        {
            let t = match palette_get(&self.map, i) {
                Some(model) => model.texture(),
                None => None,
            };
            v.push(t);
            i += 1;
        }
        v
    }

    /// Returns all blocks vec: the identifiers `0..len`, as far as sixteen
    /// bits hold them.
    pub fn all(&self) -> (v: Vec<u16>)
        ensures
            v@.len() == (if self@.len() <= 0x1_0000 { self@.len() as int } else { 0x1_0000 }),
            forall|i: int| 0 <= i < v@.len() ==> v@[i] == i,
    {
        let n = palette_len(&self.map);
        let mut v: Vec<u16> = Vec::new();
        let mut i: usize = 0;
        while i < n && i < 0x1_0000
            invariant
                i <= n,
                i <= 0x1_0000,
                n == self@.len(),
                v@.len() == i,
                forall|k: int| 0 <= k < i ==> v@[k] == k,
            decreases n - i,
        {
            v.push(i as u16);
            i += 1;
        }
        v
    }
}

/// The low sixteen bits of `i`.
fn low_sixteen(i: usize) -> (b: u16)
    ensures
        b == i as int % 0x1_0000,
{
    assert(i & 0xffff == i % 0x1_0000) by (bit_vector);
    assert(i & 0xffff < 0x1_0000) by (bit_vector);
    (i & 0xffff) as u16
}

} // verus!

//! Greedy extraction of rectangles from the bit mask of one slab.
//!
//! A mask has 32 lines of 32 cells. Cell `x` of line `y` is bit `x` of word
//! `y`. Extraction scans the lines in order and the cells of a line from bit
//! 0 upwards. At a set cell it takes the run of set cells that starts there,
//! extends the run over the following lines as long as they hold the whole
//! run, clears the rectangle and goes on behind the run.

use vstd::prelude::*;

verus! {

/// A rectangle of cells: `w` cells from `x` in each of `h` lines from `y`.
#[derive(Debug, Clone, Copy, PartialEq, Eq, Structural)]
pub struct Quad {
    pub x: u32,
    pub y: u32,
    pub w: u32,
    pub h: u32,
}

impl Quad {
    /// Whether the cell at (`x`, `y`) lies in the rectangle.
    pub open spec fn holds(self, x: int, y: int) -> bool {
        self.x <= x < self.x + self.w && self.y <= y < self.y + self.h
    }

    /// Whether the rectangle is not empty and lies in the mask.
    pub open spec fn inside(self) -> bool {
        self.w >= 1 && self.h >= 1 && self.x + self.w <= 32 && self.y + self.h <= 32
    }
}

/// The cells of a mask: `g[y][x]` says whether cell `x` of line `y` is set.
pub type Grid = Seq<Seq<bool>>;

/// A grid has 32 lines of 32 cells.
pub open spec fn grid_wf(g: Grid) -> bool {
    g.len() == 32 && forall|y: int| 0 <= y < 32 ==> (#[trigger] g[y]).len() == 32
}

/// Whether bit `k` of `word` is set.
pub open spec fn bit(word: u32, k: int) -> bool {
    0 <= k < 32 && (word >> (k as u32)) & 1u32 == 1u32
}

/// The cells of the mask with the given words.
pub open spec fn grid_of(words: Seq<u32>) -> Grid {
    Seq::new(32, |y: int| Seq::new(32, |x: int| bit(words[y], x)))
}

/// The number of set cells in a row from cell `x` of `line`.
pub open spec fn run_len(line: Seq<bool>, x: int) -> nat
    decreases 32 - x,
{
    if 0 <= x < 32 && line[x] {
        1 + run_len(line, x + 1)
    } else {
        0
    }
}

/// Whether the `w` cells from `x` of `line` are all set.
pub open spec fn has_run(line: Seq<bool>, x: int, w: int) -> bool {
    forall|k: int| x <= k < x + w ==> #[trigger] line[k]
}

/// The number of lines in a row from line `y` that hold the run of `w` cells
/// from `x`.
pub open spec fn run_height(g: Grid, y: int, x: int, w: int) -> nat
    decreases 32 - y,
{
    if 0 <= y < 32 && has_run(g[y], x, w) {
        1 + run_height(g, y + 1, x, w)
    } else {
        0
    }
}

/// The grid without the cells of `q`.
pub open spec fn clear(g: Grid, q: Quad) -> Grid {
    Seq::new(32, |y: int| Seq::new(32, |x: int| g[y][x] && !q.holds(x, y)))
}

/// The rectangles that greedy extraction takes from `g` when it stands at
/// cell `x` of line `y`.
pub open spec fn greedy_from(g: Grid, y: int, x: int) -> Seq<Quad>
    decreases 32 - y, 32 - x,
{
    if y < 0 || y >= 32 || x < 0 {
        Seq::empty()
    } else if x >= 32 {
        greedy_from(g, y + 1, 0)
    } else if !g[y][x] {
        greedy_from(g, y, x + 1)
    } else {
        let w = run_len(g[y], x);
        let h = run_height(g, y, x, w as int);
        let q = Quad { x: x as u32, y: y as u32, w: w as u32, h: h as u32 };
        proof {
            lemma_run_len(g[y], x);
        }
        seq![q] + greedy_from(clear(g, q), y, x + w)
    }
}

/// The rectangles that greedy extraction takes from the whole of `g`.
pub open spec fn greedy(g: Grid) -> Seq<Quad> {
    greedy_from(g, 0, 0)
}

/// One rectangle of a single cell for each set cell of `g` from cell `x` of
/// line `y` on, in scan order.
pub open spec fn naive_from(g: Grid, y: int, x: int) -> Seq<Quad>
    decreases 32 - y, 32 - x,
{
    if y < 0 || y >= 32 || x < 0 {
        Seq::empty()
    } else if x >= 32 {
        naive_from(g, y + 1, 0)
    } else if !g[y][x] {
        naive_from(g, y, x + 1)
    } else {
        seq![Quad { x: x as u32, y: y as u32, w: 1, h: 1 }] + naive_from(g, y, x + 1)
    }
}

/// One rectangle of a single cell for each set cell of `g`, in scan order.
pub open spec fn naive(g: Grid) -> Seq<Quad> {
    naive_from(g, 0, 0)
}

/// Whether one of `quads` holds the cell at (`x`, `y`).
pub open spec fn covered(quads: Seq<Quad>, x: int, y: int) -> bool {
    exists|i: int| 0 <= i < quads.len() && (#[trigger] quads[i]).holds(x, y)
}

/// Whether no cell lies in two of `quads`.
pub open spec fn disjoint(quads: Seq<Quad>) -> bool {
    forall|i: int, j: int, x: int, y: int|
        #![trigger quads[i].holds(x, y), quads[j].holds(x, y)]
        0 <= i < j < quads.len() && quads[i].holds(x, y) ==> !quads[j].holds(x, y)
}

/// Whether every one of `quads` is not empty and lies in the mask.
pub open spec fn all_inside(quads: Seq<Quad>) -> bool {
    forall|i: int| 0 <= i < quads.len() ==> (#[trigger] quads[i]).inside()
}

/// Whether the scan reaches cell (`x`, `y`) when it stands at (`x0`, `y0`).
pub open spec fn at_or_after(x: int, y: int, x0: int, y0: int) -> bool {
    y > y0 || (y == y0 && x >= x0)
}

/// Whether `quads` cover the set cells of `g` that the scan reaches from
/// (`x0`, `y0`), each of them once, and no other cell.
pub open spec fn exact_cover_from(quads: Seq<Quad>, g: Grid, y0: int, x0: int) -> bool {
    &&& all_inside(quads)
    &&& disjoint(quads)
    &&& forall|x: int, y: int|
        0 <= x < 32 && 0 <= y < 32 ==> (#[trigger] covered(quads, x, y) <==> g[y][x] && at_or_after(
            x,
            y,
            x0,
            y0,
        ))
}

/// Whether `quads` cover the set cells of `g`, each of them once, and no
/// other cell.
pub open spec fn exact_cover(quads: Seq<Quad>, g: Grid) -> bool {
    exact_cover_from(quads, g, 0, 0)
}

/// A run ends in the line, every cell of it is set, and the cell behind it,
/// if the line has one, is not.
pub proof fn lemma_run_len(line: Seq<bool>, x: int)
    requires
        0 <= x <= 32,
    ensures
        x + run_len(line, x) <= 32,
        has_run(line, x, run_len(line, x) as int),
        x + run_len(line, x) == 32 || !line[x + run_len(line, x)],
    decreases 32 - x,
{
    if x < 32 && line[x] {
        lemma_run_len(line, x + 1);
    }
}

/// The lines that [`run_height`] counts end in the grid, each of them holds
/// the run, and the line behind them, if the grid has one, does not.
pub proof fn lemma_run_height(g: Grid, y: int, x: int, w: int)
    requires
        grid_wf(g),
        0 <= y <= 32,
    ensures
        y + run_height(g, y, x, w) <= 32,
        forall|l: int| y <= l < y + run_height(g, y, x, w) ==> has_run(#[trigger] g[l], x, w),
        y + run_height(g, y, x, w) == 32 || !has_run(g[y + run_height(g, y, x, w)], x, w),
    decreases 32 - y,
{
    if y < 32 && has_run(g[y], x, w) {
        lemma_run_height(g, y + 1, x, w);
    }
}

proof fn lemma_cover_cons(q: Quad, rest: Seq<Quad>)
    ensures
        forall|x: int, y: int| #[trigger]
            covered(seq![q] + rest, x, y) <==> q.holds(x, y) || covered(rest, x, y),
{
    let all = seq![q] + rest;
    assert forall|x: int, y: int| #[trigger]
        covered(all, x, y) <==> q.holds(x, y) || covered(rest, x, y) by {
        if covered(all, x, y) {
            let i = choose|i: int| 0 <= i < all.len() && (#[trigger] all[i]).holds(x, y);
            if i > 0 {
                assert(rest[i - 1] == all[i]);
                assert(rest[i - 1].holds(x, y));
            }
        }
        if q.holds(x, y) {
            assert(all[0].holds(x, y));
        }
        if covered(rest, x, y) {
            let i = choose|i: int| 0 <= i < rest.len() && (#[trigger] rest[i]).holds(x, y);
            assert(all[i + 1] == rest[i]);
            assert(all[i + 1].holds(x, y));
        }
    }
}

proof fn lemma_exact_cons(q: Quad, rest: Seq<Quad>, g: Grid, g2: Grid, y0: int, x0: int, x1: int)
    requires
        grid_wf(g),
        0 <= y0 < 32,
        0 <= x0 < 32,
        x0 < x1,
        q.inside(),
        q.x == x0,
        q.y == y0,
        q.x + q.w == x1,
        forall|x: int, y: int| q.holds(x, y) ==> g[y][x],
        forall|x: int, y: int| 0 <= x < 32 && 0 <= y < 32 ==> g2[y][x] == (g[y][x] && !q.holds(x, y)),
        exact_cover_from(rest, g2, y0, x1),
    ensures
        exact_cover_from(seq![q] + rest, g, y0, x0),
{
    let all = seq![q] + rest;
    lemma_cover_cons(q, rest);
    assert forall|i: int| 0 <= i < all.len() implies (#[trigger] all[i]).inside() by {
        if i > 0 {
            assert(all[i] == rest[i - 1]);
        }
    }
    assert forall|i: int, j: int, x: int, y: int|
        #![trigger all[i].holds(x, y), all[j].holds(x, y)]
        0 <= i < j < all.len() && all[i].holds(x, y) implies !all[j].holds(x, y) by {
        assert(all[j] == rest[j - 1]);
        if all[j].holds(x, y) {
            assert(rest[j - 1].inside());
            assert(covered(rest, x, y));
            if i == 0 {
                assert(g2[y][x]);
            } else {
                assert(all[i] == rest[i - 1]);
                assert(rest[i - 1].holds(x, y));
            }
        }
    }
    assert forall|x: int, y: int| 0 <= x < 32 && 0 <= y < 32 implies (#[trigger] covered(all, x, y)
        <==> g[y][x] && at_or_after(x, y, x0, y0)) by {
        assert(covered(all, x, y) <==> q.holds(x, y) || covered(rest, x, y));
        assert(covered(rest, x, y) <==> g2[y][x] && at_or_after(x, y, x1, y0));
        assert(g2[y][x] == (g[y][x] && !q.holds(x, y)));
        if q.holds(x, y) {
            assert(g[y][x]);
        }
    }
}

/// From wherever the scan stands, greedy extraction covers the set cells
/// that it reaches, each of them once, and nothing else.
pub proof fn lemma_greedy_from(g: Grid, y: int, x: int)
    requires
        grid_wf(g),
        0 <= y,
        0 <= x,
    ensures
        exact_cover_from(greedy_from(g, y, x), g, y, x),
    decreases 32 - y, 32 - x,
{
    let r = greedy_from(g, y, x);
    if y >= 32 {
        assert forall|cx: int, cy: int| 0 <= cx < 32 && 0 <= cy < 32 implies (#[trigger] covered(
            r,
            cx,
            cy,
        ) <==> g[cy][cx] && at_or_after(cx, cy, x, y)) by {}
    } else if x >= 32 {
        lemma_greedy_from(g, y + 1, 0);
        assert forall|cx: int, cy: int| 0 <= cx < 32 && 0 <= cy < 32 implies (#[trigger] covered(
            r,
            cx,
            cy,
        ) <==> g[cy][cx] && at_or_after(cx, cy, x, y)) by {
            assert(covered(r, cx, cy) <==> g[cy][cx] && at_or_after(cx, cy, 0, y + 1));
        }
    } else if !g[y][x] {
        lemma_greedy_from(g, y, x + 1);
        assert forall|cx: int, cy: int| 0 <= cx < 32 && 0 <= cy < 32 implies (#[trigger] covered(
            r,
            cx,
            cy,
        ) <==> g[cy][cx] && at_or_after(cx, cy, x, y)) by {
            assert(covered(r, cx, cy) <==> g[cy][cx] && at_or_after(cx, cy, x + 1, y));
        }
    } else {
        let w = run_len(g[y], x);
        let h = run_height(g, y, x, w as int);
        let q = Quad { x: x as u32, y: y as u32, w: w as u32, h: h as u32 };
        lemma_run_len(g[y], x);
        lemma_run_height(g, y, x, w as int);
        let g2 = clear(g, q);
        lemma_greedy_from(g2, y, x + w);
        assert forall|cx: int, cy: int| q.holds(cx, cy) implies g[cy][cx] by {
            assert(has_run(g[cy], x, w as int));
        }
        lemma_exact_cons(q, greedy_from(g2, y, x + w), g, g2, y, x, x + w);
    }
}

/// Greedy extraction covers the set cells of the mask, each of them once,
/// and no other cell: rasterizing its rectangles gives the mask back.
pub proof fn lemma_greedy_exact_cover(g: Grid)
    requires
        grid_wf(g),
    ensures
        exact_cover(greedy(g), g),
{
    lemma_greedy_from(g, 0, 0);
}

/// From wherever the scan stands, the single-cell rectangles cover the set
/// cells that it reaches, each of them once, and nothing else.
pub proof fn lemma_naive_from(g: Grid, y: int, x: int)
    requires
        grid_wf(g),
        0 <= y,
        0 <= x,
    ensures
        exact_cover_from(naive_from(g, y, x), g, y, x),
    decreases 32 - y, 32 - x,
{
    let r = naive_from(g, y, x);
    if y >= 32 {
        assert forall|cx: int, cy: int| 0 <= cx < 32 && 0 <= cy < 32 implies (#[trigger] covered(
            r,
            cx,
            cy,
        ) <==> g[cy][cx] && at_or_after(cx, cy, x, y)) by {}
    } else if x >= 32 {
        lemma_naive_from(g, y + 1, 0);
        assert forall|cx: int, cy: int| 0 <= cx < 32 && 0 <= cy < 32 implies (#[trigger] covered(
            r,
            cx,
            cy,
        ) <==> g[cy][cx] && at_or_after(cx, cy, x, y)) by {
            assert(covered(r, cx, cy) <==> g[cy][cx] && at_or_after(cx, cy, 0, y + 1));
        }
    } else if !g[y][x] {
        lemma_naive_from(g, y, x + 1);
        assert forall|cx: int, cy: int| 0 <= cx < 32 && 0 <= cy < 32 implies (#[trigger] covered(
            r,
            cx,
            cy,
        ) <==> g[cy][cx] && at_or_after(cx, cy, x, y)) by {
            assert(covered(r, cx, cy) <==> g[cy][cx] && at_or_after(cx, cy, x + 1, y));
        }
    } else {
        let q = Quad { x: x as u32, y: y as u32, w: 1, h: 1 };
        let rest = naive_from(g, y, x + 1);
        lemma_naive_from(g, y, x + 1);
        let g2 = clear(g, q);
        assert forall|cx: int, cy: int| 0 <= cx < 32 && 0 <= cy < 32 implies (#[trigger] covered(
            rest,
            cx,
            cy,
        ) <==> g2[cy][cx] && at_or_after(cx, cy, x + 1, y)) by {
            assert(covered(rest, cx, cy) <==> g[cy][cx] && at_or_after(cx, cy, x + 1, y));
        }
        lemma_exact_cons(q, rest, g, g2, y, x, x + 1);
    }
}

/// The greedy rectangles and the single-cell rectangles of a mask cover the
/// same cells, and neither covers a cell twice or leaves a set cell out.
pub proof fn lemma_greedy_matches_naive(g: Grid)
    requires
        grid_wf(g),
    ensures
        exact_cover(greedy(g), g),
        exact_cover(naive(g), g),
        forall|x: int, y: int|
            0 <= x < 32 && 0 <= y < 32 ==> (#[trigger] covered(greedy(g), x, y) <==> covered(
                naive(g),
                x,
                y,
            )),
{
    lemma_greedy_from(g, 0, 0);
    lemma_naive_from(g, 0, 0);
    assert forall|x: int, y: int| 0 <= x < 32 && 0 <= y < 32 implies (#[trigger] covered(
        greedy(g),
        x,
        y,
    ) <==> covered(naive(g), x, y)) by {
        assert(covered(greedy(g), x, y) <==> g[y][x] && at_or_after(x, y, 0, 0));
        assert(covered(naive(g), x, y) <==> g[y][x] && at_or_after(x, y, 0, 0));
    }
}

/// A mask whose cells are all set yields one rectangle, which covers the
/// whole mask.
pub proof fn lemma_greedy_full(g: Grid)
    requires
        grid_wf(g),
        forall|x: int, y: int| 0 <= x < 32 && 0 <= y < 32 ==> g[y][x],
    ensures
        greedy(g) == seq![Quad { x: 0, y: 0, w: 32, h: 32 }],
{
    lemma_run_len(g[0], 0);
    let w = run_len(g[0], 0);
    assert(w == 32);
    lemma_run_height(g, 0, 0, 32);
    let h = run_height(g, 0, 0, 32);
    if h < 32 {
        assert forall|k: int| 0 <= k < 0 + 32 implies #[trigger] g[h as int][k] by {}
        assert(has_run(g[h as int], 0, 32));
    }
    let q = Quad { x: 0, y: 0, w: 32, h: 32 };
    let g2 = clear(g, q);
    let rest = greedy_from(g2, 0, 32);
    lemma_greedy_from(g2, 0, 32);
    if rest.len() > 0 {
        let r = rest[0];
        assert(r.inside());
        assert(r.holds(r.x as int, r.y as int));
        assert(covered(rest, r.x as int, r.y as int));
        assert(q.holds(r.x as int, r.y as int));
    }
    assert(seq![q] + rest =~= seq![q]);
}

/// Whether a cell of `g` is set.
pub open spec fn any_set(g: Grid) -> bool {
    exists|x: int, y: int| 0 <= x < 32 && 0 <= y < 32 && #[trigger] g[y][x]
}

/// Greedy extraction yields rectangles exactly where a cell of the mask is
/// set.
pub proof fn lemma_greedy_empty(g: Grid)
    requires
        grid_wf(g),
    ensures
        greedy(g).len() > 0 <==> any_set(g),
{
    let quads = greedy(g);
    lemma_greedy_exact_cover(g);
    if quads.len() > 0 {
        let q = quads[0];
        assert(q.inside());
        assert(q.holds(q.x as int, q.y as int));
        assert(covered(quads, q.x as int, q.y as int));
        assert(g[q.y as int][q.x as int]);
    }
    if any_set(g) {
        let (x, y) = choose|x: int, y: int| 0 <= x < 32 && 0 <= y < 32 && #[trigger] g[y][x];
        assert(covered(quads, x, y));
    }
}

/// Scanning over cells that are not set yields nothing.
proof fn lemma_skip(g: Grid, y: int, x: int, x2: int)
    requires
        0 <= y < 32,
        0 <= x <= x2 <= 32,
        forall|k: int| x <= k < x2 ==> !(#[trigger] g[y][k]),
    ensures
        greedy_from(g, y, x) == greedy_from(g, y, x2),
    decreases x2 - x,
{
    if x < x2 {
        assert(!g[y][x]);
        lemma_skip(g, y, x + 1, x2);
    }
}

/// A stretch of set cells that ends at the line's end or at a cell that is
/// not set is the run that starts at its first cell.
proof fn lemma_run_is(line: Seq<bool>, x: int, w: int)
    requires
        0 <= x,
        0 <= w,
        x + w <= 32,
        forall|k: int| x <= k < x + w ==> #[trigger] line[k],
        x + w == 32 || !line[x + w],
    ensures
        run_len(line, x) == w,
    decreases w,
{
    if w > 0 {
        assert(line[x]);
        lemma_run_is(line, x + 1, w - 1);
    }
}

/// Lines that hold the run, up to the grid's end or to a line that does not,
/// are the lines that [`run_height`] counts.
proof fn lemma_height_is(g: Grid, y: int, x: int, w: int, h: int)
    requires
        0 <= y,
        0 <= h,
        y + h <= 32,
        forall|l: int| y <= l < y + h ==> has_run(#[trigger] g[l], x, w),
        y + h == 32 || !has_run(g[y + h], x, w),
    ensures
        run_height(g, y, x, w) == h,
    decreases h,
{
    if h > 0 {
        assert(has_run(g[y], x, w));
        lemma_height_is(g, y + 1, x, w, h - 1);
    }
}

proof fn lemma_bit_shift(word: u32, x: u32, j: u32)
    by (bit_vector)
    requires
        x < 32,
        j < 32,
    ensures
        x + j < 32 ==> ((word >> x) >> j) & 1u32 == (word >> ((x + j) as u32)) & 1u32,
        x + j >= 32 ==> ((word >> x) >> j) & 1u32 == 0u32,
{
}

proof fn lemma_mask_bit(x: u32, w: u32, k: u32)
    by (bit_vector)
    requires
        x < 32,
        1 <= w,
        x + w <= 32,
        k < 32,
    ensures
        ({
            let low = if w == 32 {
                0xffff_ffffu32
            } else {
                ((1u32 << w) - 1) as u32
            };
            ((low << x) >> k) & 1u32 == 1u32 <==> (x <= k && k < x + w)
        }),
{
}

proof fn lemma_word_bits(word: u32, m: u32, k: u32)
    by (bit_vector)
    requires
        k < 32,
    ensures
        ((word & !m) >> k) & 1u32 == 1u32 <==> ((word >> k) & 1u32 == 1u32 && (m >> k) & 1u32
            != 1u32),
        word & m == m && (m >> k) & 1u32 == 1u32 ==> (word >> k) & 1u32 == 1u32,
        ((!word & m) >> k) & 1u32 == 1u32 ==> (m >> k) & 1u32 == 1u32 && (word >> k) & 1u32
            != 1u32,
        word & m != m ==> !word & m != 0,
{
}

/// The word whose set bits are the `w` bits from bit `x`.
fn run_mask(x: u32, w: u32) -> (m: u32)
    requires
        x < 32,
        1 <= w,
        x + w <= 32,
    ensures
        forall|k: int| 0 <= k < 32 ==> (#[trigger] bit(m, k) <==> x <= k < x + w),
{
    let low: u32 = if w >= 32 {
        0xffff_ffff
    } else {
        assert(1u32 << w >= 1) by (bit_vector)
            requires
                w < 32,
        ;
        (1u32 << w) - 1
    };
    let m = low << x;
    assert forall|k: int| 0 <= k < 32 implies (#[trigger] bit(m, k) <==> x <= k < x + w) by {
        lemma_mask_bit(x, w, k as u32);
    }
    m
}

/// The rectangles that greedy extraction takes from the mask `mask`, in the
/// order in which it finds them.
pub fn greedy_quads(mask: &[u32; 32]) -> (quads: Vec<Quad>)
    ensures
        quads@ == greedy(grid_of(mask@)),
{
    broadcast use vstd::std_specs::bits::axiom_u32_trailing_zeros;
    broadcast use vstd::std_specs::bits::axiom_u32_trailing_ones;

    let mut data: [u32; 32] = *mask;
    let mut quads: Vec<Quad> = Vec::new();
    let ghost target = greedy(grid_of(mask@));
    let mut y: usize = 0;
    assert(quads@ + greedy_from(grid_of(data@), 0, 0) =~= target);
    while y < 32
        invariant
            y <= 32,
            quads@ + greedy_from(grid_of(data@), y as int, 0) == target,
        decreases 32 - y,
    {
        let mut x: u32 = 0;
        while x < 32
            invariant
                y < 32,
                x <= 32,
                quads@ + greedy_from(grid_of(data@), y as int, x as int) == target,
            decreases 32 - x,
        {
            let ghost g = grid_of(data@);
            let line = data[y];
            let rest = line >> x;
            let skip = rest.trailing_zeros();
            if skip >= 32 - x {
                proof {
                    assert forall|k: int| x <= k < 32 implies !(#[trigger] g[y as int][k]) by {
                        let j = (k - x) as u32;
                        assert((rest >> j) & 1u32 == 0u32);
                        lemma_bit_shift(line, x, j);
                    }
                    lemma_skip(g, y as int, x as int, 32);
                }
                x = 32;
            } else {
                let x0 = x + skip;
                let tail = line >> x0;
                let w = tail.trailing_ones();
                proof {
                    assert forall|k: int| x <= k < x0 implies !(#[trigger] g[y as int][k]) by {
                        let j = (k - x) as u32;
                        assert((rest >> j) & 1u32 == 0u32);
                        lemma_bit_shift(line, x, j);
                    }
                    lemma_skip(g, y as int, x as int, x0 as int);
                    assert((rest >> skip) & 1u32 == 1u32);
                    lemma_bit_shift(line, x, skip);
                    assert(g[y as int][x0 as int]);
                    lemma_bit_shift(line, x0, 0);
                    assert((tail >> 0u32) & 1u32 == 1u32);
                    if w > 32 - x0 {
                        let j = (32 - x0) as u32;
                        assert((tail >> j) & 1u32 == 1u32);
                        lemma_bit_shift(line, x0, j);
                    }
                    assert(1 <= w <= 32 - x0);
                    assert forall|k: int| x0 <= k < x0 + w implies #[trigger] g[y as int][k] by {
                        let j = (k - x0) as u32;
                        assert((tail >> j) & 1u32 == 1u32);
                        lemma_bit_shift(line, x0, j);
                    }
                    if x0 + w < 32 {
                        assert((tail >> w) & 1u32 == 0u32);
                        lemma_bit_shift(line, x0, w);
                    }
                    lemma_run_is(g[y as int], x0 as int, w as int);
                }
                let m = run_mask(x0, w);
                let mut h: usize = 1;
                while y + h < 32 && data[y + h] & m == m
                    invariant
                        y < 32,
                        1 <= h,
                        y + h <= 32,
                        g == grid_of(data@),
                        x0 < 32,
                        1 <= w,
                        x0 + w <= 32,
                        forall|k: int| 0 <= k < 32 ==> (#[trigger] bit(m, k) <==> x0 <= k < x0 + w),
                        forall|l: int| y <= l < y + h ==> has_run(#[trigger] g[l], x0 as int, w as int),
                    decreases 32 - h,
                {
                    proof {
                        let word = data[y + h];
                        assert forall|k: int| x0 <= k < x0 + w implies #[trigger] g[y + h][k] by {
                            assert(bit(m, k));
                            lemma_word_bits(word, m, k as u32);
                        }
                    }
                    h += 1;
                }
                proof {
                    if y + h < 32 {
                        let word = data[y + h];
                        let v = !word & m;
                        lemma_word_bits(word, m, 0);
                        let k = v.trailing_zeros();
                        assert(k < 32);
                        lemma_word_bits(word, m, k);
                        assert(bit(m, k as int));
                        assert(!g[y + h][k as int]);
                    }
                    lemma_height_is(g, y as int, x0 as int, w as int, h as int);
                }
                let q = Quad { x: x0, y: y as u32, w, h: h as u32 };
                let ghost before = data@;
                let mut l: usize = y;
                while l < y + h
                    invariant
                        y <= l <= y + h,
                        y + h <= 32,
                        forall|i: int|
                            0 <= i < 32 ==> #[trigger] data@[i] == (if y <= i < l {
                                before[i] & !m
                            } else {
                                before[i]
                            }),
                    decreases y + h - l,
                {
                    let word = data[l];
                    data[l] = word & !m;
                    l += 1;
                }
                proof {
                    let g2 = grid_of(data@);
                    assert forall|yy: int, xx: int|
                        #![trigger g2[yy][xx]]
                        0 <= yy < 32 && 0 <= xx < 32 implies g2[yy][xx] == (g[yy][xx] && !q.holds(
                        xx,
                        yy,
                    )) by {
                        assert(bit(m, xx) <==> x0 <= xx < x0 + w);
                        if y <= yy < y + h {
                            assert(data@[yy] == before[yy] & !m);
                            lemma_word_bits(before[yy], m, xx as u32);
                        } else {
                            assert(data@[yy] == before[yy]);
                        }
                    }
                    let g3 = clear(g, q);
                    assert forall|yy: int| 0 <= yy < 32 implies #[trigger] g2[yy] == g3[yy] by {
                        assert forall|xx: int| 0 <= xx < 32 implies g2[yy][xx] == g3[yy][xx] by {
                            assert(g2[yy][xx] == (g[yy][xx] && !q.holds(xx, yy)));
                        }
                        assert(g2[yy] =~= g3[yy]);
                    }
                    assert(g2 =~= g3);
                    let rest_quads = greedy_from(g2, y as int, x0 + w);
                    assert(greedy_from(g, y as int, x0 as int) == seq![q] + rest_quads);
                    assert(quads@.push(q) + rest_quads =~= quads@ + (seq![q] + rest_quads));
                }
                quads.push(q);
                x = x0 + w;
            }
        }
        y += 1;
    }
    quads
}

proof fn lemma_set_bit(word: u32, x: u32, k: u32)
    by (bit_vector)
    requires
        x < 32,
        k < 32,
    ensures
        ((word | (1u32 << x)) >> k) & 1u32 == 1u32 <==> ((word >> k) & 1u32 == 1u32 || k == x),
        (0u32 >> k) & 1u32 != 1u32,
{
}

/// Whether bit `x` of `word` is set.
pub fn test_bit(word: u32, x: u32) -> (b: bool)
    requires
        x < 32,
    ensures
        b == bit(word, x as int),
{
    (word >> x) & 1 == 1
}

/// One rectangle of a single cell for each set cell of the mask `mask`, in
/// scan order.
pub fn naive_quads(mask: &[u32; 32]) -> (quads: Vec<Quad>)
    ensures
        quads@ == naive(grid_of(mask@)),
{
    let mut quads: Vec<Quad> = Vec::new();
    let ghost g = grid_of(mask@);
    let mut y: usize = 0;
    assert(quads@ + naive_from(g, 0, 0) =~= naive(g));
    while y < 32
        invariant
            y <= 32,
            g == grid_of(mask@),
            quads@ + naive_from(g, y as int, 0) == naive(g),
        decreases 32 - y,
    {
        let mut x: u32 = 0;
        while x < 32
            invariant
                y < 32,
                x <= 32,
                g == grid_of(mask@),
                quads@ + naive_from(g, y as int, x as int) == naive(g),
            decreases 32 - x,
        {
            if test_bit(mask[y], x) {
                let q = Quad { x, y: y as u32, w: 1, h: 1 };
                proof {
                    let rest = naive_from(g, y as int, x + 1);
                    assert(naive_from(g, y as int, x as int) == seq![q] + rest);
                    assert(quads@.push(q) + rest =~= quads@ + (seq![q] + rest));
                }
                quads.push(q);
            }
            x += 1;
        }
        y += 1;
    }
    quads
}

/// The mask of the cells that hold `block`: cell `x` of line `y` is set
/// where `cells[y * 32 + x]` is `block`.
pub fn plane_mask(cells: &Vec<u16>, block: u16) -> (mask: [u32; 32])
    requires
        cells@.len() == 1024,
    ensures
        forall|x: int, y: int|
            0 <= x < 32 && 0 <= y < 32 ==> #[trigger] grid_of(mask@)[y][x] == (cells@[y * 32 + x]
                == block),
{
    let mut mask: [u32; 32] = [0u32; 32];
    let mut y: usize = 0;
    while y < 32
        invariant
            y <= 32,
            cells@.len() == 1024,
            forall|x: int, l: int|
                0 <= x < 32 && 0 <= l < y ==> #[trigger] bit(mask@[l], x) == (cells@[l * 32 + x]
                    == block),
        decreases 32 - y,
    {
        let mut word: u32 = 0;
        let mut x: u32 = 0;
        proof {
            assert forall|k: int| 0 <= k < 32 implies !(#[trigger] bit(word, k)) by {
                lemma_set_bit(0, 0, k as u32);
            }
        }
        while x < 32
            invariant
                y < 32,
                x <= 32,
                cells@.len() == 1024,
                forall|k: int|
                    0 <= k < 32 ==> #[trigger] bit(word, k) == (k < x && cells@[y * 32 + k]
                        == block),
            decreases 32 - x,
        {
            if cells[y * 32 + x as usize] == block {
                let ghost before = word;
                word = word | (1u32 << x);
                proof {
                    assert forall|k: int| 0 <= k < 32 implies #[trigger] bit(word, k) == (k < x + 1
                        && cells@[y * 32 + k] == block) by {
                        lemma_set_bit(before, x, k as u32);
                        assert(bit(before, k) == (k < x && cells@[y * 32 + k] == block));
                    }
                }
            }
            x += 1;
        }
        mask[y] = word;
        y += 1;
    }
    mask
}

} // verus!

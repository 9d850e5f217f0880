//! The grid engine: the 2D tile state, the slide/merge transform, random
//! tile insertion, and the no-more-moves check.
//!
//! A grid value is never mutated: every operation returns a new grid.

use rand::Rng;
use vstd::prelude::*;

verus! {

use crate::pipes::PipeMap;
use crate::row::collapse_spec;
use crate::row::combine_row;
use crate::row::row_tile_count;

/// Selects the slide transform; carries no state of its own.
#[allow(non_camel_case_types)]
#[derive(Clone, Copy, Debug, PartialEq, Eq, Structural)]
pub enum Direction {
    LEFT,
    RIGHT,
    UP,
    DOWN,
}

/// Rejected grid dimensions: a width or height of zero, or both below two.
#[derive(Clone, Copy, Debug, PartialEq, Eq, Structural)]
pub struct ConstructionError;

/// The terminal state of the game: no slide can move or merge a tile.
#[derive(Clone, Copy, Debug, PartialEq, Eq, Structural)]
pub struct GameOverSignal;

/// The cell array of a grid as a sequence of rows of exponents.
pub open spec fn grid_of(rows: Vec<Vec<u8>>) -> Seq<Seq<u8>> {
    Seq::new(rows@.len(), |r: int| rows@[r]@)
}

/// A valid shape: rectangular, at least one cell per row and one row, and
/// at least one dimension of two or more, so that the two starting tiles
/// fit.
pub open spec fn grid_wf(g: Seq<Seq<u8>>) -> bool {
    &&& g.len() >= 1
    &&& g[0].len() >= 1
    &&& (forall|r: int| 0 <= r < g.len() ==> (#[trigger] g[r]).len() == g[0].len())
    &&& (g.len() >= 2 || g[0].len() >= 2)
}

/// Every exponent of the grid is below `bound`.
pub open spec fn grid_cells_lt(g: Seq<Seq<u8>>, bound: u8) -> bool {
    forall|r: int, c: int| 0 <= r < g.len() && 0 <= c < g[r].len() ==> g[r][c] < bound
}

/// No cell of the grid is empty.
pub open spec fn grid_full(g: Seq<Seq<u8>>) -> bool {
    forall|r: int, c: int| 0 <= r < g.len() && 0 <= c < g[r].len() ==> g[r][c] != 0
}

/// The grid with the cell at row `r`, column `c` set to `v`.
pub open spec fn grid_set(g: Seq<Seq<u8>>, r: int, c: int, v: u8) -> Seq<Seq<u8>> {
    g.update(r, g[r].update(c, v))
}

/// How many cells of the grid hold a tile.
pub open spec fn grid_tile_count(g: Seq<Seq<u8>>) -> nat
    decreases g.len(),
{
    if g.len() == 0 {
        0
    } else {
        row_tile_count(g[0]) + grid_tile_count(g.skip(1))
    }
}

/// `post` is `pre` with one new tile of exponent 1 or 2 on a formerly
/// empty cell.
pub open spec fn spawned(pre: Seq<Seq<u8>>, post: Seq<Seq<u8>>) -> bool {
    exists|r: int, c: int|
        {
            &&& 0 <= r < pre.len()
            &&& 0 <= c < pre[r].len()
            &&& pre[r][c] == 0
            &&& (post == grid_set(pre, r, c, 1u8) || post == grid_set(pre, r, c, 2u8))
        }
}

/// A row read backwards.
pub open spec fn rev_row(s: Seq<u8>) -> Seq<u8> {
    Seq::new(s.len(), |i: int| s[s.len() - 1 - i])
}

/// Every row read backwards.
pub open spec fn rows_rev(g: Seq<Seq<u8>>) -> Seq<Seq<u8>> {
    Seq::new(g.len(), |r: int| rev_row(g[r]))
}

/// Rows and columns exchanged; meaningful on rectangular grids.
pub open spec fn transpose_of(g: Seq<Seq<u8>>) -> Seq<Seq<u8>> {
    Seq::new(g[0].len(), |c: int| Seq::new(g.len(), |r: int| g[r][c]))
}

/// Row-collapse applied to every row independently.
pub open spec fn collapse_rows(g: Seq<Seq<u8>>) -> Seq<Seq<u8>> {
    Seq::new(g.len(), |r: int| collapse_spec(g[r]))
}

/// The pre-spawn result of a slide: rotate the grid so the move becomes a
/// left slide, collapse every row, and rotate back.
pub open spec fn slide_spec(g: Seq<Seq<u8>>, dir: Direction) -> Seq<Seq<u8>> {
    match dir {
        Direction::LEFT => collapse_rows(g),
        Direction::RIGHT => rows_rev(collapse_rows(rows_rev(g))),
        Direction::UP => transpose_of(collapse_rows(transpose_of(g))),
        Direction::DOWN => transpose_of(
            rows_rev(collapse_rows(rows_rev(transpose_of(g)))),
        ),
    }
}

/// Holds the game state.
#[derive(Debug)]
pub struct Grid {
    pub(crate) rows: Vec<Vec<u8>>,
    pub(crate) pipes: PipeMap,
}

impl View for Grid {
    type V = Seq<Seq<u8>>;

    closed spec fn view(&self) -> Seq<Seq<u8>> {
        grid_of(self.rows)
    }
}

impl Default for Grid {
    /// A 4 by 4 grid of empty cells, rendered with the `Thick` preset.
    fn default() -> (g: Grid)
        ensures
            g.wf(),
            g@.len() == 4,
            forall|r: int| 0 <= r < 4 ==> (#[trigger] g@[r]).len() == 4,
            forall|r: int, c: int| 0 <= r < 4 && 0 <= c < 4 ==> g@[r][c] == 0,
            g.pipes().is_thick(),
    {
        Grid { rows: zero_rows(4, 4), pipes: PipeMap::thick() }
    }
}

/// The view of a grid is the view of its cell array.
pub(crate) proof fn lemma_grid_view(g: &Grid)
    ensures
        g@ == grid_of(g.rows),
{
}

/// The preset of a grid is its preset field.
pub(crate) proof fn lemma_grid_pipes(g: &Grid)
    ensures
        g.pipes() == g.pipes,
{
}

/// Relies on rand's `thread_rng().gen_range(0..n)`: the sample lies in
/// `0..n`, and the call panics only when that range is empty.
#[verifier::external_body]
fn random_below(n: usize) -> (r: usize)
    requires
        n >= 1,
    ensures
        r < n,
{
    rand::thread_rng().gen_range(0..n)
}

fn copy_row(src: &Vec<u8>) -> (res: Vec<u8>)
    ensures
        res@ == src@,
{
    let mut out: Vec<u8> = Vec::new();
    let mut i: usize = 0;
    while i < src.len()
        invariant
            i <= src@.len(),
            out@ == src@.take(i as int),
        decreases src@.len() - i,
    {
        out.push(src[i]);
        proof {
            assert(out@ =~= src@.take(i + 1));
        }
        i += 1;
    }
    proof {
        assert(src@.take(src@.len() as int) =~= src@);
    }
    out
}

fn copy_rows(src: &Vec<Vec<u8>>) -> (res: Vec<Vec<u8>>)
    ensures
        grid_of(res) == grid_of(*src),
{
    let mut out: Vec<Vec<u8>> = Vec::new();
    let mut r: usize = 0;
    while r < src.len()
        invariant
            r <= src@.len(),
            out@.len() == r,
            forall|k: int| 0 <= k < r ==> out@[k]@ == src@[k]@,
        decreases src@.len() - r,
    {
        out.push(copy_row(&src[r]));
        r += 1;
    }
    proof {
        assert(grid_of(out) =~= grid_of(*src));
    }
    out
}

/// A new cell array with the one cell at (`r`, `c`) replaced by `v`.
fn set_cell(src: &Vec<Vec<u8>>, r: usize, c: usize, v: u8) -> (res: Vec<Vec<u8>>)
    requires
        r < src@.len(),
        c < src@[r as int]@.len(),
    ensures
        grid_of(res) == grid_set(grid_of(*src), r as int, c as int, v),
{
    let mut out: Vec<Vec<u8>> = Vec::new();
    let mut i: usize = 0;
    while i < src.len()
        invariant
            i <= src@.len(),
            r < src@.len(),
            c < src@[r as int]@.len(),
            out@.len() == i,
            forall|k: int| 0 <= k < i && k != r ==> out@[k]@ == src@[k]@,
            i > r ==> out@[r as int]@ == src@[r as int]@.update(c as int, v),
        decreases src@.len() - i,
    {
        if i == r {
            let mut new_row = copy_row(&src[i]);
            new_row[c] = v;
            out.push(new_row);
        } else {
            out.push(copy_row(&src[i]));
        }
        i += 1;
    }
    proof {
        assert(grid_of(out) =~= grid_set(grid_of(*src), r as int, c as int, v));
    }
    out
}

/// A cell array of `h` rows of `w` empty cells.
fn zero_rows(w: usize, h: usize) -> (res: Vec<Vec<u8>>)
    ensures
        grid_of(res).len() == h,
        forall|r: int| 0 <= r < h ==> grid_of(res)[r].len() == w,
        forall|r: int, c: int| 0 <= r < h && 0 <= c < w ==> grid_of(res)[r][c] == 0,
{
    let mut out: Vec<Vec<u8>> = Vec::new();
    let mut r: usize = 0;
    while r < h
        invariant
            r <= h,
            out@.len() == r,
            forall|k: int| 0 <= k < r ==> out@[k]@.len() == w,
            forall|k: int, c: int| 0 <= k < r && 0 <= c < w ==> out@[k]@[c] == 0,
        decreases h - r,
    {
        let mut line: Vec<u8> = Vec::new();
        let mut c: usize = 0;
        while c < w
            invariant
                c <= w,
                line@.len() == c,
                forall|j: int| 0 <= j < c ==> line@[j] == 0,
            decreases w - c,
        {
            line.push(0);
            c += 1;
        }
        out.push(line);
        r += 1;
    }
    out
}

fn reverse_row(src: &Vec<u8>) -> (res: Vec<u8>)
    ensures
        res@ == rev_row(src@),
{
    let n = src.len();
    let mut out: Vec<u8> = Vec::new();
    let mut i: usize = 0;
    while i < n
        invariant
            n == src@.len(),
            i <= n,
            out@.len() == i,
            forall|j: int| 0 <= j < i ==> out@[j] == src@[n - 1 - j],
        decreases n - i,
    {
        out.push(src[n - 1 - i]);
        i += 1;
    }
    proof {
        assert(out@ =~= rev_row(src@));
    }
    out
}

fn reverse_rows(src: &Vec<Vec<u8>>) -> (res: Vec<Vec<u8>>)
    ensures
        grid_of(res) == rows_rev(grid_of(*src)),
{
    let mut out: Vec<Vec<u8>> = Vec::new();
    let mut r: usize = 0;
    while r < src.len()
        invariant
            r <= src@.len(),
            out@.len() == r,
            forall|k: int| 0 <= k < r ==> out@[k]@ == rev_row(src@[k]@),
        decreases src@.len() - r,
    {
        out.push(reverse_row(&src[r]));
        r += 1;
    }
    proof {
        assert(grid_of(out) =~= rows_rev(grid_of(*src)));
    }
    out
}

fn transpose_rows(src: &Vec<Vec<u8>>) -> (res: Vec<Vec<u8>>)
    requires
        src@.len() >= 1,
        forall|r: int| 0 <= r < src@.len() ==> (#[trigger] src@[r])@.len() == src@[0]@.len(),
    ensures
        grid_of(res) == transpose_of(grid_of(*src)),
{
    let h = src.len();
    let w = src[0].len();
    let mut out: Vec<Vec<u8>> = Vec::new();
    let mut c: usize = 0;
    while c < w
        invariant
            h == src@.len(),
            h >= 1,
            w == src@[0]@.len(),
            forall|r: int| 0 <= r < h ==> (#[trigger] src@[r])@.len() == w,
            c <= w,
            out@.len() == c,
            forall|k: int| 0 <= k < c ==> (#[trigger] out@[k])@ == transpose_of(
                grid_of(*src),
            )[k],
        decreases w - c,
    {
        let mut col: Vec<u8> = Vec::new();
        let mut r: usize = 0;
        while r < h
            invariant
                h == src@.len(),
                w == src@[0]@.len(),
                forall|j: int| 0 <= j < h ==> (#[trigger] src@[j])@.len() == w,
                c < w,
                r <= h,
                col@.len() == r,
                forall|j: int| 0 <= j < r ==> col@[j] == src@[j]@[c as int],
            decreases h - r,
        {
            col.push(src[r][c]);
            r += 1;
        }
        let ghost colv = col@;
        out.push(col);
        proof {
            let g = grid_of(*src);
            assert forall|j: int| 0 <= j < h implies colv[j] == transpose_of(g)[c as int][j] by {
                assert(colv[j] == src@[j]@[c as int]);
            }
            assert(colv =~= transpose_of(g)[c as int]);
            assert(out@[c as int]@ == colv);
        }
        c += 1;
    }
    proof {
        let g = grid_of(*src);
        assert forall|k: int| 0 <= k < w implies grid_of(out)[k] == transpose_of(g)[k] by {
            assert(out@[k]@ == transpose_of(g)[k]);
        }
        assert(grid_of(out) =~= transpose_of(g));
    }
    out
}

fn collapse_all(src: &Vec<Vec<u8>>) -> (res: Vec<Vec<u8>>)
    requires
        grid_cells_lt(grid_of(*src), 255),
    ensures
        grid_of(res) == collapse_rows(grid_of(*src)),
{
    let mut out: Vec<Vec<u8>> = Vec::new();
    let mut r: usize = 0;
    while r < src.len()
        invariant
            grid_cells_lt(grid_of(*src), 255),
            r <= src@.len(),
            out@.len() == r,
            forall|k: int| 0 <= k < r ==> out@[k]@ == collapse_spec(src@[k]@),
        decreases src@.len() - r,
    {
        proof {
            assert forall|k: int| 0 <= k < src@[r as int]@.len() implies (#[trigger] src@[
                r as int
            ]@[k]) < 255 by {
                assert(grid_of(*src)[r as int][k] < 255);
            }
        }
        out.push(combine_row(&src[r]));
        r += 1;
    }
    proof {
        assert(grid_of(out) =~= collapse_rows(grid_of(*src)));
    }
    out
}

fn row_equal(a: &Vec<u8>, b: &Vec<u8>) -> (r: bool)
    ensures
        r <==> a@ == b@,
{
    if a.len() != b.len() {
        return false;
    }
    let mut i: usize = 0;
    while i < a.len()
        invariant
            a@.len() == b@.len(),
            i <= a@.len(),
            forall|j: int| 0 <= j < i ==> a@[j] == b@[j],
        decreases a@.len() - i,
    {
        if a[i] != b[i] {
            return false;
        }
        i += 1;
    }
    proof {
        assert(a@ =~= b@);
    }
    true
}

fn rows_equal(a: &Vec<Vec<u8>>, b: &Vec<Vec<u8>>) -> (r: bool)
    ensures
        r <==> grid_of(*a) == grid_of(*b),
{
    if a.len() != b.len() {
        proof {
            assert(grid_of(*a).len() != grid_of(*b).len());
        }
        return false;
    }
    let mut i: usize = 0;
    while i < a.len()
        invariant
            a@.len() == b@.len(),
            i <= a@.len(),
            forall|j: int| 0 <= j < i ==> a@[j]@ == b@[j]@,
        decreases a@.len() - i,
    {
        if !row_equal(&a[i], &b[i]) {
            proof {
                assert(grid_of(*a)[i as int] != grid_of(*b)[i as int]);
            }
            return false;
        }
        i += 1;
    }
    proof {
        assert(grid_of(*a) =~= grid_of(*b));
    }
    true
}

/// Collapsing keeps the length of every row and the number of rows.
proof fn lemma_collapse_rows_shape(g: Seq<Seq<u8>>)
    ensures
        collapse_rows(g).len() == g.len(),
        forall|r: int| 0 <= r < g.len() ==> (#[trigger] collapse_rows(g)[r]).len() == g[r].len(),
{
    assert forall|r: int| 0 <= r < g.len() implies (#[trigger] collapse_rows(g)[r]).len()
        == g[r].len() by {
        crate::row::lemma_collapse_len(g[r]);
    }
}

/// The shape facts of the four slide transforms: a slide never changes the
/// shape of a well-formed grid.
proof fn lemma_slide_shape(g: Seq<Seq<u8>>, dir: Direction)
    requires
        grid_wf(g),
    ensures
        slide_spec(g, dir).len() == g.len(),
        forall|r: int|
            0 <= r < g.len() ==> (#[trigger] slide_spec(g, dir)[r]).len() == g[0].len(),
        grid_wf(slide_spec(g, dir)),
{
    let s = slide_spec(g, dir);
    match dir {
        Direction::LEFT => {
            lemma_collapse_rows_shape(g);
        },
        Direction::RIGHT => {
            lemma_collapse_rows_shape(rows_rev(g));
        },
        Direction::UP => {
            let t = transpose_of(g);
            lemma_collapse_rows_shape(t);
            assert(s.len() == collapse_rows(t)[0].len());
            assert forall|r: int| 0 <= r < s.len() implies (#[trigger] s[r]).len()
                == g[0].len() by {
                assert(s[r].len() == collapse_rows(t).len());
            }
        },
        Direction::DOWN => {
            let t = transpose_of(g);
            let v = rows_rev(t);
            lemma_collapse_rows_shape(v);
            let w = rows_rev(collapse_rows(v));
            assert(s.len() == w[0].len());
            assert(w[0].len() == collapse_rows(v)[0].len());
            assert forall|r: int| 0 <= r < s.len() implies (#[trigger] s[r]).len()
                == g[0].len() by {
                assert(s[r].len() == w.len());
            }
        },
    }
}

proof fn lemma_row_set_count(s: Seq<u8>, c: int, v: u8)
    requires
        0 <= c < s.len(),
        s[c] == 0,
        v != 0,
    ensures
        row_tile_count(s.update(c, v)) == row_tile_count(s) + 1,
    decreases s.len(),
{
    let t = s.update(c, v);
    if c == 0 {
        assert(t.skip(1) =~= s.skip(1));
        assert(row_tile_count(t) == 1 + row_tile_count(t.skip(1)));
        assert(row_tile_count(s) == 0 + row_tile_count(s.skip(1)));
    } else {
        assert(t.skip(1) =~= s.skip(1).update(c - 1, v));
        lemma_row_set_count(s.skip(1), c - 1, v);
        assert(t[0] == s[0]);
        assert(row_tile_count(t) == (if t[0] == 0 {
            0nat
        } else {
            1nat
        }) + row_tile_count(t.skip(1)));
        assert(row_tile_count(s) == (if s[0] == 0 {
            0nat
        } else {
            1nat
        }) + row_tile_count(s.skip(1)));
    }
}

/// Placing a tile on an empty cell raises the tile count by exactly one.
proof fn lemma_grid_set_count(g: Seq<Seq<u8>>, r: int, c: int, v: u8)
    requires
        0 <= r < g.len(),
        0 <= c < g[r].len(),
        g[r][c] == 0,
        v != 0,
    ensures
        grid_tile_count(grid_set(g, r, c, v)) == grid_tile_count(g) + 1,
    decreases g.len(),
{
    let t = grid_set(g, r, c, v);
    if r == 0 {
        assert(t.skip(1) =~= g.skip(1));
        assert(t[0] == g[0].update(c, v));
        lemma_row_set_count(g[0], c, v);
        assert(grid_tile_count(t) == row_tile_count(t[0]) + grid_tile_count(t.skip(1)));
        assert(grid_tile_count(g) == row_tile_count(g[0]) + grid_tile_count(g.skip(1)));
    } else {
        assert(t.skip(1) =~= grid_set(g.skip(1), r - 1, c, v));
        lemma_grid_set_count(g.skip(1), r - 1, c, v);
        assert(t[0] == g[0]);
        assert(grid_tile_count(t) == row_tile_count(t[0]) + grid_tile_count(t.skip(1)));
        assert(grid_tile_count(g) == row_tile_count(g[0]) + grid_tile_count(g.skip(1)));
    }
}

impl Grid {
    /// The border preset the grid renders with.
    pub closed spec fn pipes(self) -> PipeMap {
        self.pipes
    }

    /// A valid grid: a well-formed shape and a valid border preset.
    pub open spec fn wf(self) -> bool {
        grid_wf(self@) && self.pipes().wf()
    }

    /// The cell array: one row of exponents per grid row.
    pub fn rows(&self) -> (res: Vec<Vec<u8>>)
        ensures
            grid_of(res) == self@,
    {
        copy_rows(&self.rows)
    }

    /// The shape of the grid as (width, height): cells per row, and rows.
    pub fn grid_dimensions(&self) -> (res: (usize, usize))
        requires
            self.wf(),
        ensures
            res.0 == self@[0].len(),
            res.1 == self@.len(),
    {
        let w = self.rows[0].len();
        let h = self.rows.len();
        (w, h)
    }

    /// Creates a grid of the given size with all cells empty but two: the
    /// starting tiles, placed by two independent random spawns. Rejects a
    /// width or height of zero, and a grid too small to hold both tiles.
    pub fn new(x_size: usize, y_size: usize) -> (res: Result<Grid, ConstructionError>)
        ensures
            res is Err <==> (x_size < 1 || y_size < 1 || (x_size < 2 && y_size < 2)),
            res matches Ok(g) ==> {
                &&& g.wf()
                &&& g@.len() == y_size
                &&& g@[0].len() == x_size
                &&& g.pipes().is_thick()
                &&& grid_tile_count(g@) == 2
                &&& (forall|r: int, c: int|
                    0 <= r < g@.len() && 0 <= c < g@[r].len() ==> (g@[r][c] == 0 || g@[r][c]
                        == 1 || g@[r][c] == 2))
            },
    {
        if x_size < 1 || y_size < 1 || (x_size < 2 && y_size < 2) {
            return Err(ConstructionError);
        }
        let rows = zero_rows(x_size, y_size);
        let g0 = Grid { rows, pipes: PipeMap::thick() };
        proof {
            assert(grid_wf(g0@));
            lemma_zero_grid_count(g0@);
            assert(g0@[0][0] == 0);
            assert(!grid_full(g0@));
        }
        let g1 = match g0.add_random_number() {
            Ok(g) => g,
            Err(_) => {
                proof {
                    assert(false);
                }
                return Err(ConstructionError);
            },
        };
        proof {
            lemma_spawn_shape_and_range(g0@, g1@);
            let (r1, c1) = choose|r: int, c: int|
                {
                    &&& 0 <= r < g0@.len()
                    &&& 0 <= c < g0@[r].len()
                    &&& g0@[r][c] == 0
                    &&& (g1@ == grid_set(g0@, r, c, 1u8) || g1@ == grid_set(g0@, r, c, 2u8))
                };
            if y_size >= 2 {
                let rw: int = if r1 == 0 {
                    1
                } else {
                    0
                };
                assert(g1@[rw] == g0@[rw]);
                assert(g1@[rw][c1] == 0);
            } else {
                let cw: int = if c1 == 0 {
                    1
                } else {
                    0
                };
                assert(g1@[r1] == g0@[r1].update(c1, if g1@ == grid_set(g0@, r1, c1, 1u8) {
                    1u8
                } else {
                    2u8
                }));
                assert(g1@[r1][cw] == g0@[r1][cw]);
                assert(g1@[r1][cw] == 0);
            }
            assert(!grid_full(g1@));
        }
        let g2 = match g1.add_random_number() {
            Ok(g) => g,
            Err(_) => {
                proof {
                    assert(false);
                }
                return Err(ConstructionError);
            },
        };
        proof {
            lemma_spawn_shape_and_range(g1@, g2@);
        }
        Ok(g2)
    }

    /// Removes all empty cells of a row, keeps the relative order of the
    /// tiles, and pads the freed trailing space with empty cells.
    pub fn compress_row(&self, row: &Vec<u8>) -> (res: Vec<u8>)
        ensures
            res@ == crate::row::compress_spec(row@),
            res@.len() == row@.len(),
    {
        crate::row::compress_row(row)
    }

    /// Applies the row-collapse to one row: compress, merge adjacent equal
    /// tiles once, and compress again.
    pub fn combine_row(&self, row: &Vec<u8>) -> (res: Vec<u8>)
        requires
            forall|k: int| 0 <= k < row@.len() ==> row@[k] < 255,
        ensures
            res@ == collapse_spec(row@),
            res@.len() == row@.len(),
    {
        combine_row(row)
    }

    /// Creates a grid from a caller-supplied rectangular cell array,
    /// bypassing random initialization. Renders with the `Thick` preset.
    pub fn from_rows(rows: Vec<Vec<u8>>) -> (g: Grid)
        requires
            grid_wf(grid_of(rows)),
        ensures
            g.wf(),
            g@ == grid_of(rows),
            g.pipes().is_thick(),
    {
        Grid { rows, pipes: PipeMap::thick() }
    }

    /// The same grid with a different border preset.
    pub fn with_pipes(&self, pipes: PipeMap) -> (g: Grid)
        requires
            pipes.wf(),
        ensures
            g@ == self@,
            g.pipes() == pipes,
    {
        Grid { rows: copy_rows(&self.rows), pipes }
    }

    /// Places a tile on one empty cell, picked uniformly at random: exponent
    /// 1 with probability 9/10, exponent 2 with probability 1/10. Fails
    /// exactly when the grid has no empty cell.
    pub fn add_random_number(&self) -> (res: Result<Grid, GameOverSignal>)
        requires
            self.wf(),
        ensures
            res is Err <==> grid_full(self@),
            res matches Ok(g) ==> {
                &&& g.wf()
                &&& g.pipes() == self.pipes()
                &&& spawned(self@, g@)
                &&& grid_tile_count(g@) == grid_tile_count(self@) + 1
            },
    {
        let ghost gv = self@;
        let h = self.rows.len();
        let mut options: Vec<(usize, usize)> = Vec::new();
        let mut r: usize = 0;
        while r < h
            invariant
                h == gv.len(),
                gv == self@,
                r <= h,
                forall|k: int| #![auto]
                    0 <= k < options@.len() ==> {
                        &&& (options@[k].0 as int) < gv.len()
                        &&& (options@[k].1 as int) < gv[options@[k].0 as int].len()
                        &&& gv[options@[k].0 as int][options@[k].1 as int] == 0
                    },
                forall|a: int, b: int| #![auto]
                    0 <= a < r && 0 <= b < gv[a].len() && gv[a][b] == 0 ==> exists|k: int|
                        #![auto]
                        0 <= k < options@.len() && options@[k] == (a as usize, b as usize),
            decreases h - r,
        {
            let w = self.rows[r].len();
            let mut c: usize = 0;
            while c < w
                invariant
                    h == gv.len(),
                    gv == self@,
                    r < h,
                    w == gv[r as int].len(),
                    c <= w,
                    forall|k: int| #![auto]
                        0 <= k < options@.len() ==> {
                            &&& (options@[k].0 as int) < gv.len()
                            &&& (options@[k].1 as int) < gv[options@[k].0 as int].len()
                            &&& gv[options@[k].0 as int][options@[k].1 as int] == 0
                        },
                    forall|a: int, b: int| #![auto]
                        0 <= a < r && 0 <= b < gv[a].len() && gv[a][b] == 0 ==> exists|k: int|
                            #![auto]
                            0 <= k < options@.len() && options@[k] == (a as usize, b as usize),
                    forall|b: int| #![auto]
                        0 <= b < c && gv[r as int][b] == 0 ==> exists|k: int|
                            #![auto]
                            0 <= k < options@.len() && options@[k] == (r, b as usize),
                decreases w - c,
            {
                if self.rows[r][c] == 0 {
                    let ghost old_options = options@;
                    options.push((r, c));
                    proof {
                        assert(options@[options@.len() - 1] == (r, c));
                        assert forall|a: int, b: int| #![auto]
                            0 <= a < r && 0 <= b < gv[a].len() && gv[a][b] == 0
                                implies exists|k: int|
                            #![auto]
                            0 <= k < options@.len() && options@[k] == (
                            a as usize,
                            b as usize,
                        ) by {
                            let k = choose|k: int|
                                #![auto]
                                0 <= k < old_options.len() && old_options[k] == (
                                a as usize,
                                b as usize,
                                );
                            assert(options@[k] == (a as usize, b as usize));
                        }
                        assert forall|b: int| #![auto]
                            0 <= b < c + 1 && gv[r as int][b] == 0 implies exists|k: int|
                            #![auto]
                            0 <= k < options@.len() && options@[k] == (r, b as usize) by {
                            if b < c {
                                let k = choose|k: int|
                                    #![auto]
                                    0 <= k < old_options.len() && old_options[k] == (
                                    r,
                                    b as usize,
                                    );
                                assert(options@[k] == (r, b as usize));
                            } else {
                                assert(options@[options@.len() - 1] == (r, b as usize));
                            }
                        }
                    }
                }
                c += 1;
            }
            r += 1;
        }
        if options.len() == 0 {
            proof {
                assert forall|a: int, b: int|
                    0 <= a < gv.len() && 0 <= b < gv[a].len() implies gv[a][b] != 0 by {
                    if gv[a][b] == 0 {
                        let k = choose|k: int|
                            #![auto]
                            0 <= k < options@.len() && options@[k] == (a as usize, b as usize);
                        assert(0 <= k < options@.len());
                    }
                }
            }
            return Err(GameOverSignal);
        }
        proof {
            assert(options@[0].0 < gv.len());
            assert(!grid_full(gv));
        }
        let idx = random_below(options.len());
        let pick = options[idx];
        let rr = pick.0;
        let cc = pick.1;
        let chance = random_below(10);
        let v: u8 = if chance == 0 {
            2
        } else {
            1
        };
        let new_rows = set_cell(&self.rows, rr, cc, v);
        proof {
            lemma_grid_set_count(gv, rr as int, cc as int, v);
        }
        let g = Grid { rows: new_rows, pipes: self.pipes };
        proof {
            assert(g@ == grid_set(gv, rr as int, cc as int, v));
            assert(spawned(gv, g@));
            assert(grid_wf(g@)) by {
                assert(g@.len() == gv.len());
                assert(forall|k: int| 0 <= k < g@.len() ==> g@[k].len() == gv[k].len());
            }
        }
        Ok(g)
    }

    /// Slides and merges the grid in the given direction. When the move
    /// changes the board, one new tile is spawned on a random empty cell of
    /// the collapsed board (there is always one, unless the collapsed board
    /// is full). When the move changes nothing, the grid comes back
    /// untouched and no tile is spawned — unless the board is also full, the
    /// game-over signal.
    pub fn slide(&self, dir: Direction) -> (res: Result<Grid, GameOverSignal>)
        requires
            self.wf(),
            grid_cells_lt(self@, 255),
        ensures
            res is Err <==> (slide_spec(self@, dir) == self@ && grid_full(self@)),
            res matches Ok(g) ==> {
                &&& g.wf()
                &&& g.pipes() == self.pipes()
                &&& g@.len() == self@.len()
                &&& g@[0].len() == self@[0].len()
                &&& (if slide_spec(self@, dir) == self@ {
                    g@ == self@
                } else if grid_full(slide_spec(self@, dir)) {
                    g@ == slide_spec(self@, dir)
                } else {
                    &&& spawned(slide_spec(self@, dir), g@)
                    &&& grid_tile_count(g@) == grid_tile_count(slide_spec(self@, dir)) + 1
                })
            },
    {
        let ghost gv = self@;
        proof {
            assert forall|r: int| 0 <= r < self.rows@.len() implies (#[trigger] self.rows@[
                r
            ])@.len() == self.rows@[0]@.len() by {
                assert(gv[r].len() == gv[0].len());
            }
        }
        let collapsed: Vec<Vec<u8>> = match dir {
            Direction::LEFT => collapse_all(&self.rows),
            Direction::RIGHT => {
                let a = reverse_rows(&self.rows);
                proof {
                    lemma_cells_lt_rows_rev(gv);
                }
                let b = collapse_all(&a);
                reverse_rows(&b)
            },
            Direction::UP => {
                let a = transpose_rows(&self.rows);
                proof {
                    lemma_cells_lt_transpose(gv);
                    lemma_collapse_rows_shape(transpose_of(gv));
                }
                let b = collapse_all(&a);
                proof {
                    assert forall|r: int| 0 <= r < b@.len() implies (#[trigger] b@[r])@.len()
                        == b@[0]@.len() by {
                        assert(grid_of(b)[r].len() == grid_of(b)[0].len());
                    }
                }
                transpose_rows(&b)
            },
            Direction::DOWN => {
                let a = transpose_rows(&self.rows);
                let b = reverse_rows(&a);
                proof {
                    lemma_cells_lt_transpose(gv);
                    lemma_cells_lt_rows_rev(transpose_of(gv));
                    lemma_collapse_rows_shape(rows_rev(transpose_of(gv)));
                }
                let c = collapse_all(&b);
                let d = reverse_rows(&c);
                proof {
                    let t = transpose_of(gv);
                    let v = rows_rev(t);
                    let cl = collapse_rows(v);
                    assert(grid_of(a) == t);
                    assert(grid_of(b) == v);
                    assert(grid_of(c) == cl);
                    assert(grid_of(d) == rows_rev(cl));
                    assert(rows_rev(cl).len() == cl.len());
                    assert(cl.len() == v.len());
                    assert(v.len() == t.len());
                    assert(t.len() == gv[0].len());
                    assert forall|r: int| 0 <= r < d@.len() implies (#[trigger] d@[r])@.len()
                        == d@[0]@.len() by {
                        assert(d@[r]@ == grid_of(d)[r]);
                        assert(rows_rev(cl)[r] == rev_row(cl[r]));
                        assert(rev_row(cl[r]).len() == cl[r].len());
                        assert(cl[r].len() == v[r].len());
                        assert(v[r] == rev_row(t[r]));
                        assert(rev_row(t[r]).len() == t[r].len());
                        assert(t[r].len() == gv.len());
                        assert(d@[0]@ == grid_of(d)[0]);
                        assert(rows_rev(cl)[0] == rev_row(cl[0]));
                        assert(rev_row(cl[0]).len() == cl[0].len());
                        assert(cl[0].len() == v[0].len());
                        assert(v[0] == rev_row(t[0]));
                        assert(rev_row(t[0]).len() == t[0].len());
                        assert(t[0].len() == gv.len());
                    }
                }
                transpose_rows(&d)
            },
        };
        proof {
            assert(grid_of(collapsed) == slide_spec(gv, dir));
            lemma_slide_shape(gv, dir);
        }
        let moved = !rows_equal(&collapsed, &self.rows);
        let out = Grid { rows: collapsed, pipes: self.pipes };
        if !moved {
            match out.add_random_number() {
                Ok(_) => Ok(out),
                Err(e) => Err(e),
            }
        } else {
            match out.add_random_number() {
                Ok(g) => {
                    proof {
                        lemma_spawn_keeps_shape(out@, g@);
                    }
                    Ok(g)
                },
                Err(_) => Ok(out),
            }
        }
    }
}

proof fn lemma_zero_row_count(s: Seq<u8>)
    requires
        forall|k: int| 0 <= k < s.len() ==> s[k] == 0,
    ensures
        row_tile_count(s) == 0,
    decreases s.len(),
{
    if s.len() > 0 {
        assert(forall|k: int| 0 <= k < s.skip(1).len() ==> s.skip(1)[k] == 0);
        lemma_zero_row_count(s.skip(1));
    }
}

proof fn lemma_zero_grid_count(g: Seq<Seq<u8>>)
    requires
        forall|r: int, c: int| 0 <= r < g.len() && 0 <= c < g[r].len() ==> g[r][c] == 0,
    ensures
        grid_tile_count(g) == 0,
    decreases g.len(),
{
    if g.len() > 0 {
        lemma_zero_row_count(g[0]);
        assert(forall|r: int, c: int|
            0 <= r < g.skip(1).len() && 0 <= c < g.skip(1)[r].len() ==> g.skip(1)[r][c] == 0);
        lemma_zero_grid_count(g.skip(1));
    }
}

/// Reversing rows keeps every exponent, so a bound carries over.
proof fn lemma_cells_lt_rows_rev(g: Seq<Seq<u8>>)
    requires
        grid_cells_lt(g, 255),
    ensures
        grid_cells_lt(rows_rev(g), 255),
{
    assert forall|r: int, c: int|
        0 <= r < rows_rev(g).len() && 0 <= c < rows_rev(g)[r].len() implies rows_rev(g)[r][c]
        < 255 by {
        assert(rows_rev(g)[r][c] == g[r][g[r].len() - 1 - c]);
    }
}

/// Transposing keeps every exponent, so a bound carries over.
proof fn lemma_cells_lt_transpose(g: Seq<Seq<u8>>)
    requires
        grid_cells_lt(g, 255),
        grid_wf(g),
    ensures
        grid_cells_lt(transpose_of(g), 255),
{
    assert forall|r: int, c: int|
        0 <= r < transpose_of(g).len() && 0 <= c < transpose_of(g)[r].len() implies transpose_of(
        g,
    )[r][c] < 255 by {
        assert(transpose_of(g)[r][c] == g[c][r]);
    }
}

/// A spawn keeps the shape of the grid, and adds no exponent beyond 2 to a
/// grid whose cells all hold 0, 1 or 2.
proof fn lemma_spawn_shape_and_range(pre: Seq<Seq<u8>>, post: Seq<Seq<u8>>)
    requires
        spawned(pre, post),
        grid_wf(pre),
        forall|r: int, c: int|
            0 <= r < pre.len() && 0 <= c < pre[r].len() ==> (pre[r][c] == 0 || pre[r][c] == 1
                || pre[r][c] == 2),
    ensures
        post.len() == pre.len(),
        forall|r: int| 0 <= r < post.len() ==> (#[trigger] post[r]).len() == pre[r].len(),
        grid_wf(post),
        forall|r: int, c: int|
            0 <= r < post.len() && 0 <= c < post[r].len() ==> (post[r][c] == 0 || post[r][c]
                == 1 || post[r][c] == 2),
{
    let (rr, cc) = choose|rr: int, cc: int|
        {
            &&& 0 <= rr < pre.len()
            &&& 0 <= cc < pre[rr].len()
            &&& pre[rr][cc] == 0
            &&& (post == grid_set(pre, rr, cc, 1u8) || post == grid_set(pre, rr, cc, 2u8))
        };
    assert forall|r: int| 0 <= r < post.len() implies (#[trigger] post[r]).len()
        == pre[r].len() by {
        if r == rr {
            assert(post[r].len() == pre[rr].update(cc, post[rr][cc]).len());
        }
    }
    assert forall|r: int, c: int|
        0 <= r < post.len() && 0 <= c < post[r].len() implies (post[r][c] == 0 || post[r][c]
        == 1 || post[r][c] == 2) by {
        if r == rr {
            if c != cc {
                assert(post[r][c] == pre[r][c]);
            }
        } else {
            assert(post[r] == pre[r]);
        }
    }
}

/// No two horizontally adjacent cells hold equal exponents.
pub open spec fn no_horizontal_merge(g: Seq<Seq<u8>>) -> bool {
    forall|r: int, c: int| #![trigger g[r][c]]
        0 <= r < g.len() && 0 <= c < g[r].len() - 1 ==> g[r][c] != g[r][c + 1]
}

/// No two vertically adjacent cells hold equal exponents.
pub open spec fn no_vertical_merge(g: Seq<Seq<u8>>) -> bool {
    forall|r: int, c: int| #![trigger g[r][c]]
        0 <= r < g.len() - 1 && 0 <= c < g[r].len() ==> g[r][c] != g[r + 1][c]
}

proof fn lemma_collapse_rows_identity(g: Seq<Seq<u8>>)
    requires
        forall|r: int, c: int| 0 <= r < g.len() && 0 <= c < g[r].len() ==> g[r][c] != 0,
        forall|r: int, c: int| #![trigger g[r][c]]
            0 <= r < g.len() && 0 <= c < g[r].len() - 1 ==> g[r][c] != g[r][c + 1],
    ensures
        collapse_rows(g) == g,
{
    assert forall|r: int| 0 <= r < g.len() implies collapse_rows(g)[r] == g[r] by {
        assert(forall|k: int| 0 <= k < g[r].len() ==> g[r][k] != 0);
        assert(forall|k: int|
            #![trigger g[r][k]]
            0 <= k < g[r].len() - 1 ==> g[r][k] != g[r][k + 1]);
        crate::row::lemma_collapse_identity(g[r]);
    }
    assert(collapse_rows(g) =~= g);
}

proof fn lemma_rows_rev_rev(g: Seq<Seq<u8>>)
    ensures
        rows_rev(rows_rev(g)) == g,
{
    assert forall|r: int| 0 <= r < g.len() implies rows_rev(rows_rev(g))[r] == g[r] by {
        assert(rows_rev(rows_rev(g))[r] == rev_row(rev_row(g[r])));
        assert(rev_row(rev_row(g[r])) =~= g[r]);
    }
    assert(rows_rev(rows_rev(g)) =~= g);
}

proof fn lemma_transpose_transpose(g: Seq<Seq<u8>>)
    requires
        grid_wf(g),
    ensures
        transpose_of(transpose_of(g)) == g,
{
    let t = transpose_of(g);
    assert forall|r: int| 0 <= r < g.len() implies transpose_of(t)[r] == g[r] by {
        assert forall|c: int| 0 <= c < g[r].len() implies transpose_of(t)[r][c] == g[r][c] by {
            assert(transpose_of(t)[r][c] == t[c][r]);
        }
        assert(transpose_of(t)[r] =~= g[r]);
    }
    assert(transpose_of(transpose_of(g)) =~= g);
}

/// The rows of a reversed-rows grid are still full and still hold no two
/// adjacent equal tiles.
proof fn lemma_rows_rev_stuck(g: Seq<Seq<u8>>)
    requires
        forall|r: int, c: int| 0 <= r < g.len() && 0 <= c < g[r].len() ==> g[r][c] != 0,
        forall|r: int, c: int| #![trigger g[r][c]]
            0 <= r < g.len() && 0 <= c < g[r].len() - 1 ==> g[r][c] != g[r][c + 1],
    ensures
        forall|r: int, c: int|
            0 <= r < rows_rev(g).len() && 0 <= c < rows_rev(g)[r].len()
                ==> rows_rev(g)[r][c] != 0,
        forall|r: int, c: int| #![trigger rows_rev(g)[r][c]]
            0 <= r < rows_rev(g).len() && 0 <= c < rows_rev(g)[r].len() - 1
                ==> rows_rev(g)[r][c] != rows_rev(g)[r][c + 1],
{
    let h = rows_rev(g);
    assert forall|r: int, c: int|
        0 <= r < h.len() && 0 <= c < h[r].len() implies h[r][c] != 0 by {
        assert(h[r][c] == g[r][g[r].len() - 1 - c]);
    }
    assert forall|r: int, c: int| #![trigger h[r][c]]
        0 <= r < h.len() && 0 <= c < h[r].len() - 1 implies h[r][c] != h[r][c + 1] by {
        let n = g[r].len();
        assert(h[r][c] == g[r][n - 1 - c]);
        assert(h[r][c + 1] == g[r][n - 2 - c]);
        assert(g[r][n - 2 - c] != g[r][n - 2 - c + 1]);
    }
}

/// The rows of the transposed grid are the columns: still full, and free of
/// adjacent equal tiles when the grid has no vertical pair.
proof fn lemma_transpose_stuck(g: Seq<Seq<u8>>)
    requires
        grid_wf(g),
        grid_full(g),
        no_vertical_merge(g),
    ensures
        forall|r: int, c: int|
            0 <= r < transpose_of(g).len() && 0 <= c < transpose_of(g)[r].len()
                ==> transpose_of(g)[r][c] != 0,
        forall|r: int, c: int| #![trigger transpose_of(g)[r][c]]
            0 <= r < transpose_of(g).len() && 0 <= c < transpose_of(g)[r].len() - 1
                ==> transpose_of(g)[r][c] != transpose_of(g)[r][c + 1],
{
    let t = transpose_of(g);
    assert forall|r: int, c: int|
        0 <= r < t.len() && 0 <= c < t[r].len() implies t[r][c] != 0 by {
        assert(t[r][c] == g[c][r]);
    }
    assert forall|r: int, c: int| #![trigger t[r][c]]
        0 <= r < t.len() && 0 <= c < t[r].len() - 1 implies t[r][c] != t[r][c + 1] by {
        assert(t[r][c] == g[c][r]);
        assert(t[r][c + 1] == g[c + 1][r]);
    }
}

/// On a full grid with no two adjacent equal exponents in any row or
/// column, no slide moves or merges a tile: every direction returns the
/// grid unchanged, which `slide` reports as the game-over signal.
pub proof fn lemma_game_over_state(g: Seq<Seq<u8>>)
    requires
        grid_wf(g),
        grid_full(g),
        no_horizontal_merge(g),
        no_vertical_merge(g),
    ensures
        forall|dir: Direction| slide_spec(g, dir) == g,
{
    assert forall|dir: Direction| slide_spec(g, dir) == g by {
        match dir {
            Direction::LEFT => {
                lemma_collapse_rows_identity(g);
            },
            Direction::RIGHT => {
                lemma_rows_rev_stuck(g);
                lemma_collapse_rows_identity(rows_rev(g));
                lemma_rows_rev_rev(g);
            },
            Direction::UP => {
                lemma_transpose_stuck(g);
                lemma_collapse_rows_identity(transpose_of(g));
                lemma_transpose_transpose(g);
            },
            Direction::DOWN => {
                lemma_transpose_stuck(g);
                lemma_rows_rev_stuck(transpose_of(g));
                lemma_collapse_rows_identity(rows_rev(transpose_of(g)));
                lemma_rows_rev_rev(transpose_of(g));
                lemma_transpose_transpose(g);
            },
        }
    }
}

/// Spawning a tile changes one cell, never the shape.
proof fn lemma_spawn_keeps_shape(pre: Seq<Seq<u8>>, post: Seq<Seq<u8>>)
    requires
        spawned(pre, post),
        pre.len() >= 1,
    ensures
        post.len() == pre.len(),
        post[0].len() == pre[0].len(),
{
    let (r, c) = choose|r: int, c: int|
        {
            &&& 0 <= r < pre.len()
            &&& 0 <= c < pre[r].len()
            &&& pre[r][c] == 0
            &&& (post == grid_set(pre, r, c, 1u8) || post == grid_set(pre, r, c, 2u8))
        };
    assert(post[0].len() == pre[0].len());
}

} // verus!

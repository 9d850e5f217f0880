//! The box renderer: the grid as a bordered block of text, each cell
//! right-aligned to a common field width, drawn with a line-style preset.

use vstd::prelude::*;

verus! {

use crate::grid::Grid;
use crate::grid::grid_cells_lt;
use crate::grid::grid_of;
use crate::grid::grid_wf;
use crate::pipes::PipeMap;
use crate::pipes::glyph_ok;
use crate::text::cell_chars;
use crate::text::cell_text;
use vstd::string::StrSliceExecFns;
use vstd::string::StringExecFns;

/// The larger of two sizes.
pub open spec fn nmax(a: nat, b: nat) -> nat {
    if a >= b {
        a
    } else {
        b
    }
}

/// The widest display text of any cell of the row.
pub open spec fn row_max_cell(s: Seq<u8>) -> nat
    decreases s.len(),
{
    if s.len() == 0 {
        0
    } else {
        nmax(row_max_cell(s.drop_last()), cell_chars(s.last()).len())
    }
}

/// The widest display text of any cell of the grid.
pub open spec fn grid_max_cell(g: Seq<Seq<u8>>) -> nat
    decreases g.len(),
{
    if g.len() == 0 {
        0
    } else {
        nmax(grid_max_cell(g.drop_last()), row_max_cell(g.last()))
    }
}

/// The common field width every cell is padded to: the widest display text
/// across the grid, and at least two characters.
pub open spec fn field_spec(g: Seq<Seq<u8>>) -> nat {
    nmax(2, grid_max_cell(g))
}

/// The character width of the rendered box.
pub open spec fn width_chars_spec(g: Seq<Seq<u8>>) -> int {
    (g[0].len() * (field_spec(g) + 1) + 1) as int
}

/// The number of lines of the rendered box.
pub open spec fn line_count_spec(g: Seq<Seq<u8>>) -> int {
    (2 * g.len() + 1) as int
}

proof fn lemma_row_max_take_step(s: Seq<u8>, i: int)
    requires
        0 <= i < s.len(),
    ensures
        row_max_cell(s.take(i + 1)) == nmax(row_max_cell(s.take(i)), cell_chars(s[i]).len()),
{
    assert(s.take(i + 1).drop_last() =~= s.take(i));
    assert(s.take(i + 1).last() == s[i]);
}

proof fn lemma_grid_max_take_step(g: Seq<Seq<u8>>, i: int)
    requires
        0 <= i < g.len(),
    ensures
        grid_max_cell(g.take(i + 1)) == nmax(grid_max_cell(g.take(i)), row_max_cell(g[i])),
{
    assert(g.take(i + 1).drop_last() =~= g.take(i));
    assert(g.take(i + 1).last() == g[i]);
}

proof fn lemma_row_max_ge(s: Seq<u8>, c: int)
    requires
        0 <= c < s.len(),
    ensures
        cell_chars(s[c]).len() <= row_max_cell(s),
    decreases s.len(),
{
    if c == s.len() - 1 {
        assert(s.last() == s[c]);
    } else {
        assert(s.drop_last()[c] == s[c]);
        lemma_row_max_ge(s.drop_last(), c);
    }
}

proof fn lemma_grid_max_ge(g: Seq<Seq<u8>>, r: int)
    requires
        0 <= r < g.len(),
    ensures
        row_max_cell(g[r]) <= grid_max_cell(g),
    decreases g.len(),
{
    if r == g.len() - 1 {
        assert(g.last() == g[r]);
    } else {
        assert(g.drop_last()[r] == g[r]);
        lemma_grid_max_ge(g.drop_last(), r);
    }
}

/// Every cell's display text fits in the common field.
proof fn lemma_field_fits(g: Seq<Seq<u8>>, r: int, c: int)
    requires
        0 <= r < g.len(),
        0 <= c < g[r].len(),
    ensures
        cell_chars(g[r][c]).len() <= field_spec(g),
        2 <= field_spec(g),
{
    lemma_row_max_ge(g[r], c);
    lemma_grid_max_ge(g, r);
}

/// The width of the display text of one cell.
fn cell_width(e: u8) -> (res: usize)
    requires
        e <= 63,
    ensures
        res == cell_chars(e).len(),
{
    let t = cell_text(e);
    t.as_str().unicode_len()
}

/// The common field width of the grid: the widest cell text, at least 2.
fn field_width(rows: &Vec<Vec<u8>>) -> (res: usize)
    requires
        grid_cells_lt(grid_of(*rows), 64),
    ensures
        res == field_spec(grid_of(*rows)),
{
    let ghost g = grid_of(*rows);
    let mut m: usize = 2;
    let mut r: usize = 0;
    proof {
        assert(g.take(0) =~= Seq::<Seq<u8>>::empty());
    }
    while r < rows.len()
        invariant
            grid_cells_lt(g, 64),
            g == grid_of(*rows),
            r <= g.len(),
            m == nmax(2, grid_max_cell(g.take(r as int))),
        decreases g.len() - r,
    {
        let row = &rows[r];
        let mut c: usize = 0;
        proof {
            assert(g[r as int].take(0) =~= Seq::<u8>::empty());
        }
        while c < row.len()
            invariant
                grid_cells_lt(g, 64),
                g == grid_of(*rows),
                r < g.len(),
                row@ == g[r as int],
                c <= row@.len(),
                m == nmax(
                    2,
                    nmax(grid_max_cell(g.take(r as int)), row_max_cell(g[r as int].take(c as int))),
                ),
            decreases row@.len() - c,
        {
            proof {
                assert(g[r as int][c as int] < 64);
            }
            let w = cell_width(row[c]);
            if w > m {
                m = w;
            }
            proof {
                lemma_row_max_take_step(g[r as int], c as int);
            }
            c += 1;
        }
        proof {
            assert(g[r as int].take(g[r as int].len() as int) =~= g[r as int]);
            lemma_grid_max_take_step(g, r as int);
        }
        r += 1;
    }
    proof {
        assert(g.take(g.len() as int) =~= g);
    }
    m
}

/// A run of `n` copies of one character.
pub open spec fn rep_char(ch: char, n: nat) -> Seq<char> {
    Seq::new(n, |i: int| ch)
}

/// The display text of one cell padded to the field width: blanks, then the
/// cell's own text, right-aligned.
pub open spec fn padded_cell(e: u8, field: nat) -> Seq<char> {
    rep_char(' ', (field - cell_chars(e).len()) as nat) + cell_chars(e)
}

fn padded_cell_text(e: u8, field: usize) -> (res: String)
    requires
        e <= 63,
        cell_chars(e).len() <= field,
    ensures
        res@ == padded_cell(e, field as nat),
        res@.len() == field,
{
    let t = cell_text(e);
    let w = t.as_str().unicode_len();
    let mut s = String::new();
    let mut i: usize = w;
    proof {
        reveal_strlit(" ");
        assert(" "@ =~= seq![' ']);
        assert(s@ =~= rep_char(' ', 0));
    }
    while i < field
        invariant
            w == cell_chars(e).len(),
            w <= i <= field,
            " "@ == seq![' '],
            s@ == rep_char(' ', (i - w) as nat),
        decreases field - i,
    {
        s.append(" ");
        proof {
            assert(s@ =~= rep_char(' ', (i + 1 - w) as nat));
        }
        i += 1;
    }
    s.append(t.as_str());
    proof {
        assert(s@ == rep_char(' ', (field - w) as nat) + cell_chars(e));
    }
    s
}

impl Grid {
    /// One display string per cell, all padded to the common field width:
    /// a tile shows its value `2^e` right-aligned, an empty cell blanks.
    pub fn formatted_numbers(&self) -> (res: Vec<Vec<String>>)
        requires
            self.wf(),
            grid_cells_lt(self@, 64),
        ensures
            res@.len() == self@.len(),
            forall|r: int| 0 <= r < self@.len() ==> (#[trigger] res@[r])@.len() == self@[r].len(),
            forall|r: int, c: int|
                0 <= r < self@.len() && 0 <= c < self@[r].len() ==> (#[trigger] res@[r]@[c])@
                    == padded_cell(self@[r][c], field_spec(self@)),
    {
        proof {
            crate::grid::lemma_grid_view(self);
        }
        let rows = &self.rows;
        let f = field_width(rows);
        let ghost g = self@;
        let mut out: Vec<Vec<String>> = Vec::new();
        let mut r: usize = 0;
        while r < rows.len()
            invariant
                g == self@,
                g == grid_of(*rows),
                f == field_spec(g),
                grid_cells_lt(g, 64),
                r <= g.len(),
                out@.len() == r,
                forall|k: int| 0 <= k < r ==> (#[trigger] out@[k])@.len() == g[k].len(),
                forall|k: int, c: int|
                    0 <= k < r && 0 <= c < g[k].len() ==> (#[trigger] out@[k]@[c])@
                        == padded_cell(g[k][c], field_spec(g)),
            decreases g.len() - r,
        {
            let row = &rows[r];
            let mut line: Vec<String> = Vec::new();
            let mut c: usize = 0;
            while c < row.len()
                invariant
                    g == self@,
                    g == grid_of(*rows),
                    f == field_spec(g),
                    grid_cells_lt(g, 64),
                    r < g.len(),
                    row@ == g[r as int],
                    c <= row@.len(),
                    line@.len() == c,
                    forall|j: int| 0 <= j < c ==> (#[trigger] line@[j])@
                        == padded_cell(g[r as int][j], field_spec(g)),
                decreases row@.len() - c,
            {
                proof {
                    assert(g[r as int][c as int] < 64);
                    lemma_field_fits(g, r as int, c as int);
                }
                line.push(padded_cell_text(row[c], f));
                c += 1;
            }
            out.push(line);
            r += 1;
        }
        out
    }

    /// The exact size of the rendered box, as (character width, line count).
    pub fn get_size(&self) -> (res: (usize, usize))
        requires
            self.wf(),
            grid_cells_lt(self@, 64),
            width_chars_spec(self@) <= usize::MAX,
            2 * self@.len() + 1 <= usize::MAX,
        ensures
            res.0 == width_chars_spec(self@),
            res.1 == line_count_spec(self@),
    {
        proof {
            crate::grid::lemma_grid_view(self);
        }
        let f = field_width(&self.rows);
        let cols = self.rows[0].len();
        let h = self.rows.len();
        proof {
            assert(self@[0].len() == cols);
            assert(cols * (f + 1) + 1 <= usize::MAX);
            assert(f + 1 <= cols * (f + 1)) by (nonlinear_arith)
                requires
                    cols >= 1,
                    f >= 0,
            ;
        }
        (cols * (f + 1) + 1, h * 2 + 1)
    }
}


/// The single character of a one-character glyph.
pub open spec fn gch(s: &str) -> char {
    s@[0]
}

/// The cells of a border line: a run of `field` fill glyphs per column,
/// the columns separated by a junction glyph.
pub open spec fn border_cells(fill: char, mid: char, cols: nat, field: nat) -> Seq<char>
    decreases cols,
{
    if cols == 0 {
        Seq::empty()
    } else if cols == 1 {
        rep_char(fill, field)
    } else {
        border_cells(fill, mid, (cols - 1) as nat, field) + seq![mid] + rep_char(fill, field)
    }
}

/// A full border line, closed by a line break.
pub open spec fn border_line(
    left: char,
    fill: char,
    mid: char,
    right: char,
    cols: nat,
    field: nat,
) -> Seq<char> {
    seq![left] + border_cells(fill, mid, cols, field) + seq![right, '\n']
}

/// The cells of a data line: a separator glyph, then the padded cell text,
/// for each column.
pub open spec fn data_cells(row: Seq<u8>, vert: char, field: nat) -> Seq<char>
    decreases row.len(),
{
    if row.len() == 0 {
        Seq::empty()
    } else {
        data_cells(row.drop_last(), vert, field) + seq![vert] + padded_cell(row.last(), field)
    }
}

/// A full data line, closed by a trailing separator and a line break.
pub open spec fn data_line(row: Seq<u8>, vert: char, field: nat) -> Seq<char> {
    data_cells(row, vert, field) + seq![vert, '\n']
}

/// The first `k` grid rows of the rendered box: each row a data line
/// followed by a junction line, the last row by the bottom border instead.
pub open spec fn body_spec(g: Seq<Seq<u8>>, p: PipeMap, field: nat, k: nat) -> Seq<char>
    decreases k,
{
    if k == 0 {
        Seq::empty()
    } else {
        body_spec(g, p, field, (k - 1) as nat) + data_line(g[k - 1], gch(p.vertical), field) + (
        if k == g.len() {
            border_line(
                gch(p.bottom_left),
                gch(p.horizontal),
                gch(p.bottom_horizontal),
                gch(p.bottom_right),
                g[0].len(),
                field,
            )
        } else {
            border_line(
                gch(p.left_vertical),
                gch(p.horizontal),
                gch(p.cross),
                gch(p.right_vertical),
                g[0].len(),
                field,
            )
        })
    }
}

/// The whole rendered box: the top border, then every grid row.
pub open spec fn render_spec(g: Seq<Seq<u8>>, p: PipeMap) -> Seq<char> {
    border_line(
        gch(p.top_left),
        gch(p.horizontal),
        gch(p.top_horizontal),
        gch(p.top_right),
        g[0].len(),
        field_spec(g),
    ) + body_spec(g, p, field_spec(g), g.len())
}

fn border_line_exec(
    left: &'static str,
    fill: &'static str,
    mid: &'static str,
    right: &'static str,
    cols: usize,
    field: usize,
) -> (res: String)
    requires
        glyph_ok(left),
        glyph_ok(fill),
        glyph_ok(mid),
        glyph_ok(right),
        cols >= 1,
    ensures
        res@ == border_line(
            gch(left),
            gch(fill),
            gch(mid),
            gch(right),
            cols as nat,
            field as nat,
        ),
{
    let mut s = String::new();
    s.append(left);
    proof {
        assert(left@ =~= seq![gch(left)]);
        assert(s@ =~= seq![gch(left)]);
        assert(fill@ =~= seq![gch(fill)]);
        assert(mid@ =~= seq![gch(mid)]);
        assert(right@ =~= seq![gch(right)]);
    }
    let mut i: usize = 0;
    while i < cols
        invariant
            cols >= 1,
            i <= cols,
            left@ == seq![gch(left)],
            fill@ == seq![gch(fill)],
            mid@ == seq![gch(mid)],
            right@ == seq![gch(right)],
            s@ == seq![gch(left)] + border_cells(gch(fill), gch(mid), i as nat, field as nat) + (
            if 0 < i < cols {
                seq![gch(mid)]
            } else {
                Seq::<char>::empty()
            }),
        decreases cols - i,
    {
        let ghost base = s@;
        let mut j: usize = 0;
        while j < field
            invariant
                j <= field,
                fill@ == seq![gch(fill)],
                s@ == base + rep_char(gch(fill), j as nat),
            decreases field - j,
        {
            s.append(fill);
            proof {
                assert(s@ =~= base + rep_char(gch(fill), (j + 1) as nat));
            }
            j += 1;
        }
        proof {
            let f = gch(fill);
            let m = gch(mid);
            let fi = field as nat;
            if i == 0 {
                assert(border_cells(f, m, 0, fi) =~= Seq::<char>::empty());
                assert(s@ =~= seq![gch(left)] + border_cells(f, m, 1, fi));
            } else {
                assert(border_cells(f, m, (i + 1) as nat, fi) == border_cells(f, m, i as nat, fi)
                    + seq![m] + rep_char(f, fi));
                assert(s@ =~= seq![gch(left)] + border_cells(f, m, (i + 1) as nat, fi));
            }
        }
        if i != cols - 1 {
            s.append(mid);
            proof {
                assert(s@ =~= (seq![gch(left)] + border_cells(
                    gch(fill),
                    gch(mid),
                    (i + 1) as nat,
                    field as nat,
                )) + seq![gch(mid)]);
            }
        }
        i += 1;
    }
    s.append(right);
    s.append("\n");
    proof {
        reveal_strlit("\n");
        assert("\n"@ =~= seq!['\n']);
        assert(s@ =~= border_line(
            gch(left),
            gch(fill),
            gch(mid),
            gch(right),
            cols as nat,
            field as nat,
        ));
    }
    s
}

fn data_line_exec(
    cells: &Vec<u8>,
    texts: &Vec<String>,
    vert: &'static str,
    field: Ghost<nat>,
) -> (res: String)
    requires
        glyph_ok(vert),
        texts@.len() == cells@.len(),
        forall|j: int|
            0 <= j < cells@.len() ==> (#[trigger] texts@[j])@ == padded_cell(cells@[j], field@),
    ensures
        res@ == data_line(cells@, gch(vert), field@),
{
    let mut s = String::new();
    let mut c: usize = 0;
    proof {
        assert(vert@ =~= seq![gch(vert)]);
        assert(cells@.take(0) =~= Seq::<u8>::empty());
        assert(s@ =~= data_cells(cells@.take(0), gch(vert), field@));
    }
    while c < cells.len()
        invariant
            texts@.len() == cells@.len(),
            forall|j: int|
                0 <= j < cells@.len() ==> (#[trigger] texts@[j])@ == padded_cell(
                    cells@[j],
                    field@,
                ),
            vert@ == seq![gch(vert)],
            c <= cells@.len(),
            s@ == data_cells(cells@.take(c as int), gch(vert), field@),
        decreases cells@.len() - c,
    {
        s.append(vert);
        s.append(texts[c].as_str());
        proof {
            let pre = cells@.take(c as int);
            let cur = cells@.take(c + 1);
            assert(cur.drop_last() =~= pre);
            assert(cur.last() == cells@[c as int]);
            assert(data_cells(cur, gch(vert), field@) == data_cells(pre, gch(vert), field@)
                + seq![gch(vert)] + padded_cell(cells@[c as int], field@));
            assert(s@ =~= data_cells(cur, gch(vert), field@));
        }
        c += 1;
    }
    s.append(vert);
    s.append("\n");
    proof {
        reveal_strlit("\n");
        assert("\n"@ =~= seq!['\n']);
        assert(cells@.take(cells@.len() as int) =~= cells@);
        assert(s@ =~= data_line(cells@, gch(vert), field@));
    }
    s
}

impl Grid {
    /// Draws the grid as a bordered text box with the grid's own preset:
    /// a top border, one data line per row, junction lines between rows,
    /// and a bottom border, each line closed by a line break.
    pub fn render(&self) -> (res: String)
        requires
            self.wf(),
            grid_cells_lt(self@, 64),
        ensures
            res@ == render_spec(self@, self.pipes()),
    {
        proof {
            crate::grid::lemma_grid_view(self);
            crate::grid::lemma_grid_pipes(self);
        }
        let ghost g = self@;
        let f = field_width(&self.rows);
        let texts = self.formatted_numbers();
        let cols = self.rows[0].len();
        let h = self.rows.len();
        let p = self.pipes;
        let mut s = border_line_exec(p.top_left, p.horizontal, p.top_horizontal, p.top_right,
            cols, f);
        let ghost top = s@;
        let mut r: usize = 0;
        while r < h
            invariant
                g == self@,
                g == grid_of(self.rows),
                p == self.pipes(),
                p.wf(),
                grid_wf(g),
                grid_cells_lt(g, 64),
                f == field_spec(g),
                cols == g[0].len(),
                h == g.len(),
                texts@.len() == g.len(),
                forall|k: int| 0 <= k < g.len() ==> (#[trigger] texts@[k])@.len() == g[k].len(),
                forall|k: int, j: int|
                    0 <= k < g.len() && 0 <= j < g[k].len() ==> (#[trigger] texts@[k]@[j])@
                        == padded_cell(g[k][j], field_spec(g)),
                r <= h,
                s@ == top + body_spec(g, p, f as nat, r as nat),
                top == border_line(
                    gch(p.top_left),
                    gch(p.horizontal),
                    gch(p.top_horizontal),
                    gch(p.top_right),
                    cols as nat,
                    f as nat,
                ),
            decreases h - r,
        {
            proof {
                assert(g[r as int].len() == cols);
            }
            let line = data_line_exec(&self.rows[r], &texts[r], p.vertical, Ghost(f as nat));
            s.append(line.as_str());
            let border = if r == h - 1 {
                border_line_exec(p.bottom_left, p.horizontal, p.bottom_horizontal,
                    p.bottom_right, cols, f)
            } else {
                border_line_exec(p.left_vertical, p.horizontal, p.cross, p.right_vertical,
                    cols, f)
            };
            s.append(border.as_str());
            proof {
                assert(s@ =~= top + body_spec(g, p, f as nat, (r + 1) as nat));
            }
            r += 1;
        }
        proof {
            assert(s@ =~= render_spec(g, p));
        }
        s
    }
}

/// `t` is exactly `n` lines of `w` characters, each line closed by one
/// line break.
pub open spec fn lines_shape(t: Seq<char>, w: int, n: int) -> bool {
    &&& t.len() == (w + 1) * n
    &&& forall|k: int| 0 <= k < t.len() ==> ((t[k] == '\n') <==> (k % (w + 1) == w))
}

proof fn lemma_lines_append(a: Seq<char>, b: Seq<char>, w: int, n1: int, n2: int)
    requires
        w >= 0,
        n1 >= 0,
        n2 >= 0,
        lines_shape(a, w, n1),
        lines_shape(b, w, n2),
    ensures
        lines_shape(a + b, w, n1 + n2),
{
    assert((w + 1) * n1 + (w + 1) * n2 == (w + 1) * (n1 + n2)) by (nonlinear_arith);
    assert forall|k: int| 0 <= k < (a + b).len() implies (((a + b)[k] == '\n') <==> (k % (w + 1)
        == w)) by {
        if k < a.len() {
            assert((a + b)[k] == a[k]);
        } else {
            let k2 = k - a.len();
            assert((a + b)[k] == b[k2]);
            vstd::arithmetic::div_mod::lemma_mod_multiples_vanish(n1, k2, w + 1);
            assert((w + 1) * n1 + k2 == k);
        }
    }
}

proof fn lemma_line_of(t: Seq<char>, w: int)
    requires
        w >= 0,
        t.len() == w + 1,
        t[w] == '\n',
        forall|k: int| 0 <= k < w ==> t[k] != '\n',
    ensures
        lines_shape(t, w, 1),
{
    assert forall|k: int| 0 <= k < t.len() implies ((t[k] == '\n') <==> (k % (w + 1) == w)) by {
        vstd::arithmetic::div_mod::lemma_small_mod(k as nat, (w + 1) as nat);
    }
}

proof fn lemma_rep_char_no_newline(ch: char, n: nat)
    requires
        ch != '\n',
    ensures
        forall|k: int| 0 <= k < n ==> rep_char(ch, n)[k] != '\n',
{
}

proof fn lemma_border_cells_shape(fill: char, mid: char, cols: nat, field: nat)
    requires
        fill != '\n',
        mid != '\n',
        cols >= 1,
    ensures
        border_cells(fill, mid, cols, field).len() == cols * (field + 1) - 1,
        forall|k: int|
            0 <= k < border_cells(fill, mid, cols, field).len() ==> border_cells(
                fill,
                mid,
                cols,
                field,
            )[k] != '\n',
    decreases cols,
{
    let t = border_cells(fill, mid, cols, field);
    if cols == 1 {
        assert(t == rep_char(fill, field));
        lemma_rep_char_no_newline(fill, field);
    } else {
        lemma_border_cells_shape(fill, mid, (cols - 1) as nat, field);
        lemma_rep_char_no_newline(fill, field);
        let pre = border_cells(fill, mid, (cols - 1) as nat, field);
        assert((cols - 1) * (field + 1) - 1 + 1 + field == cols * (field + 1) - 1)
            by (nonlinear_arith);
        assert forall|k: int| 0 <= k < t.len() implies t[k] != '\n' by {
            if k < pre.len() {
                assert(t[k] == pre[k]);
            } else if k == pre.len() {
                assert(t[k] == mid);
            } else {
                assert(t[k] == rep_char(fill, field)[k - pre.len() - 1]);
            }
        }
    }
}

proof fn lemma_border_line_shape(
    left: char,
    fill: char,
    mid: char,
    right: char,
    cols: nat,
    field: nat,
)
    requires
        left != '\n',
        fill != '\n',
        mid != '\n',
        right != '\n',
        cols >= 1,
    ensures
        lines_shape(
            border_line(left, fill, mid, right, cols, field),
            (cols * (field + 1) + 1) as int,
            1,
        ),
{
    let t = border_line(left, fill, mid, right, cols, field);
    let w = (cols * (field + 1) + 1) as int;
    lemma_border_cells_shape(fill, mid, cols, field);
    let cells = border_cells(fill, mid, cols, field);
    assert(t.len() == w + 1);
    assert(t[w] == '\n');
    assert forall|k: int| 0 <= k < w implies t[k] != '\n' by {
        if k == 0 {
            assert(t[k] == left);
        } else if k <= cells.len() {
            assert(t[k] == cells[k - 1]);
        } else {
            assert(t[k] == right);
        }
    }
    lemma_line_of(t, w);
}

proof fn lemma_padded_shape(e: u8, field: nat)
    requires
        cell_chars(e).len() <= field,
    ensures
        padded_cell(e, field).len() == field,
        forall|k: int| 0 <= k < field ==> padded_cell(e, field)[k] != '\n',
{
    crate::text::lemma_cell_chars_no_newline(e);
    let pad = rep_char(' ', (field - cell_chars(e).len()) as nat);
    lemma_rep_char_no_newline(' ', (field - cell_chars(e).len()) as nat);
    assert forall|k: int| 0 <= k < field implies padded_cell(e, field)[k] != '\n' by {
        if k < pad.len() {
            assert(padded_cell(e, field)[k] == pad[k]);
        } else {
            assert(padded_cell(e, field)[k] == cell_chars(e)[k - pad.len()]);
        }
    }
}

proof fn lemma_data_cells_shape(row: Seq<u8>, vert: char, field: nat)
    requires
        vert != '\n',
        forall|j: int| 0 <= j < row.len() ==> cell_chars(row[j]).len() <= field,
    ensures
        data_cells(row, vert, field).len() == row.len() * (field + 1),
        forall|k: int|
            0 <= k < data_cells(row, vert, field).len() ==> data_cells(row, vert, field)[k]
                != '\n',
    decreases row.len(),
{
    let t = data_cells(row, vert, field);
    if row.len() > 0 {
        assert(forall|j: int|
            0 <= j < row.drop_last().len() ==> cell_chars(row.drop_last()[j]).len() <= field);
        lemma_data_cells_shape(row.drop_last(), vert, field);
        assert(cell_chars(row.last()).len() <= field);
        lemma_padded_shape(row.last(), field);
        let pre = data_cells(row.drop_last(), vert, field);
        assert((row.len() - 1) * (field + 1) + 1 + field == row.len() * (field + 1))
            by (nonlinear_arith);
        assert forall|k: int| 0 <= k < t.len() implies t[k] != '\n' by {
            if k < pre.len() {
                assert(t[k] == pre[k]);
            } else if k == pre.len() {
                assert(t[k] == vert);
            } else {
                assert(t[k] == padded_cell(row.last(), field)[k - pre.len() - 1]);
            }
        }
    }
}

proof fn lemma_data_line_shape(row: Seq<u8>, vert: char, field: nat)
    requires
        vert != '\n',
        row.len() >= 1,
        forall|j: int| 0 <= j < row.len() ==> cell_chars(row[j]).len() <= field,
    ensures
        lines_shape(
            data_line(row, vert, field),
            (row.len() * (field + 1) + 1) as int,
            1,
        ),
{
    let t = data_line(row, vert, field);
    let w = (row.len() * (field + 1) + 1) as int;
    lemma_data_cells_shape(row, vert, field);
    let cells = data_cells(row, vert, field);
    assert(t.len() == w + 1);
    assert(t[w] == '\n');
    assert forall|k: int| 0 <= k < w implies t[k] != '\n' by {
        if k < cells.len() {
            assert(t[k] == cells[k]);
        } else {
            assert(t[k] == vert);
        }
    }
    lemma_line_of(t, w);
}

proof fn lemma_body_shape(g: Seq<Seq<u8>>, p: PipeMap, k: nat)
    requires
        grid_wf(g),
        p.wf(),
        k <= g.len(),
    ensures
        lines_shape(body_spec(g, p, field_spec(g), k), width_chars_spec(g), 2 * k as int),
    decreases k,
{
    let field = field_spec(g);
    let w = width_chars_spec(g);
    if k > 0 {
        lemma_body_shape(g, p, (k - 1) as nat);
        let row = g[k - 1];
        assert(row.len() == g[0].len());
        assert forall|j: int| 0 <= j < row.len() implies cell_chars(row[j]).len() <= field by {
            lemma_field_fits(g, k - 1, j);
        }
        lemma_data_line_shape(row, gch(p.vertical), field);
        let dl = data_line(row, gch(p.vertical), field);
        let border = if k == g.len() {
            border_line(
                gch(p.bottom_left),
                gch(p.horizontal),
                gch(p.bottom_horizontal),
                gch(p.bottom_right),
                g[0].len(),
                field,
            )
        } else {
            border_line(
                gch(p.left_vertical),
                gch(p.horizontal),
                gch(p.cross),
                gch(p.right_vertical),
                g[0].len(),
                field,
            )
        };
        if k == g.len() {
            lemma_border_line_shape(
                gch(p.bottom_left),
                gch(p.horizontal),
                gch(p.bottom_horizontal),
                gch(p.bottom_right),
                g[0].len(),
                field,
            );
        } else {
            lemma_border_line_shape(
                gch(p.left_vertical),
                gch(p.horizontal),
                gch(p.cross),
                gch(p.right_vertical),
                g[0].len(),
                field,
            );
        }
        lemma_lines_append(body_spec(g, p, field, (k - 1) as nat), dl, w, 2 * (k - 1), 1);
        lemma_lines_append(body_spec(g, p, field, (k - 1) as nat) + dl, border, w, 2 * (k - 1)
            + 1, 1);
        assert(body_spec(g, p, field, k) == (body_spec(g, p, field, (k - 1) as nat) + dl)
            + border);
        assert((w + 1) * (2 * (k - 1) + 1 + 1) == (w + 1) * (2 * k as int)) by (nonlinear_arith);
    } else {
        assert(body_spec(g, p, field, 0) == Seq::<char>::empty());
        assert((w + 1) * 0 == 0) by (nonlinear_arith);
    }
}

/// The rendered box occupies exactly the size `get_size` reports: its line
/// count and the character width of every line match, for every grid shape
/// and every valid preset.
pub proof fn lemma_render_size(g: Seq<Seq<u8>>, p: PipeMap)
    requires
        grid_wf(g),
        p.wf(),
    ensures
        lines_shape(render_spec(g, p), width_chars_spec(g), line_count_spec(g)),
{
    let field = field_spec(g);
    let top = border_line(
        gch(p.top_left),
        gch(p.horizontal),
        gch(p.top_horizontal),
        gch(p.top_right),
        g[0].len(),
        field,
    );
    lemma_border_line_shape(
        gch(p.top_left),
        gch(p.horizontal),
        gch(p.top_horizontal),
        gch(p.top_right),
        g[0].len(),
        field,
    );
    lemma_body_shape(g, p, g.len());
    lemma_lines_append(
        top,
        body_spec(g, p, field, g.len()),
        width_chars_spec(g),
        1,
        2 * g.len() as int,
    );
}

} // verus!

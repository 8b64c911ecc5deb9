//! The grid buffer: a 2D store of grapheme clusters with full-glyph
//! overwrite and clearing, built from text and rendered back to text.

use vstd::prelude::*;
use vstd::string::*;
use crate::grid_model::CellView;
use crate::grid_model::anchor_of;
use crate::grid_model::clear_at;
use crate::grid_model::clear_grid;
use crate::grid_model::clear_range;
use crate::grid_model::erase;
use crate::grid_model::glyph_owned;
use crate::grid_model::lemma_anchor;
use crate::grid_model::lemma_clear_at;
use crate::grid_model::lemma_clear_grid;
use crate::grid_model::lemma_clear_range_snoc;
use crate::grid_model::lemma_owner;
use crate::grid_model::lemma_render_split;
use crate::grid_model::lemma_set_grid;
use crate::grid_model::max_cols;
use crate::grid_model::owned_cols;
use crate::grid_model::pad_grid;
use crate::grid_model::pad_row;
use crate::grid_model::render_cell;
use crate::grid_model::render_range;
use crate::grid_model::render_row;
use crate::grid_model::render_rows;
use crate::grid_model::render_spec;
use crate::grid_model::set_grid;
use crate::grid_model::set_row;
use crate::grid_model::wf_cell;
use crate::grid_model::wf_grid;
use crate::grid_model::wf_row;
use crate::grid_model::write_glyph;
use crate::unicode::display_width;
use crate::unicode::grapheme_width;
use crate::unicode::graphemes_of;
use crate::unicode::lines_spec;
use crate::unicode::split_graphemes;
use crate::unicode::split_lines;

verus! {

/// One grid position of a buffer row.
///
/// A grapheme cluster whose display width is `w >= 1` occupies `w` adjacent
/// columns: its anchor column holds `Grapheme`, and the `w - 1` columns after
/// it hold `GraphemeBefore`. A zero-width cluster occupies its anchor column
/// alone.
#[derive(Debug, Clone)]
pub enum PrintLocation {
    /// Nothing here: transparent for compositing, a space when rendered.
    Transparent,
    /// A trailing column of a wide cluster anchored at an earlier column.
    GraphemeBefore,
    /// The anchor column of a cluster; holds the cluster's text.
    Grapheme(String),
}

impl View for PrintLocation {
    type V = CellView;

    open spec fn view(&self) -> CellView {
        match self {
            PrintLocation::Transparent => CellView::Empty,
            PrintLocation::GraphemeBefore => CellView::Continuation,
            PrintLocation::Grapheme(g) => CellView::Glyph(g@),
        }
    }
}

/// Text placement, one row: the clusters `gs[i..]` are laid out left to
/// right from column `col`, each advancing the cursor by its display width.
/// Placement stops if a cluster's columns would pass the machine's index
/// range.
pub open spec fn place_row(
    grid: Seq<Seq<CellView>>,
    r: int,
    gs: Seq<Seq<char>>,
    i: int,
    col: nat,
) -> Seq<Seq<CellView>>
    decreases gs.len() - i,
{
    if i < 0 || i >= gs.len() {
        grid
    } else {
        let w = display_width(gs[i]);
        if col + owned_cols(w) > usize::MAX {
            grid
        } else {
            place_row(set_grid(grid, r, col as int, gs[i]), r, gs, i + 1, (col + w) as nat)
        }
    }
}

/// Text placement, all rows: row `r` of the grid takes the clusters of line
/// `r` of the text.
pub open spec fn place_lines(grid: Seq<Seq<CellView>>, ls: Seq<Seq<char>>, r: int) -> Seq<
    Seq<CellView>,
>
    decreases ls.len() - r,
{
    if r < 0 || r >= ls.len() {
        grid
    } else {
        place_lines(place_row(grid, r, graphemes_of(ls[r]), 0, 0), ls, r + 1)
    }
}

/// The buffer a text builds: its lines split into grapheme clusters, each
/// placed at the running column its predecessors' widths determine.
pub open spec fn from_text(s: Seq<char>) -> Seq<Seq<CellView>> {
    place_lines(Seq::empty(), lines_spec(s), 0)
}

/// The mathematical value of one row of cells.
pub open spec fn rv(row: Seq<PrintLocation>) -> Seq<CellView> {
    row.map_values(|p: PrintLocation| p@)
}

/// A grid of grapheme clusters: rows of cells, rows possibly of different
/// lengths; everything outside the stored extent is implicitly empty.
#[derive(Debug, Clone)]
pub struct PrintBuffer {
    pub lines: Vec<Vec<PrintLocation>>,
}

impl View for PrintBuffer {
    type V = Seq<Seq<CellView>>;

    open spec fn view(&self) -> Seq<Seq<CellView>> {
        self.lines@.map_values(|line: Vec<PrintLocation>| rv(line@))
    }
}

impl PrintBuffer {
    /// The buffer's invariant: every row is structurally well formed.
    pub open spec fn wf(&self) -> bool {
        wf_grid(self@)
    }

    /// An empty buffer: no rows at all.
    pub fn new() -> (r: Self)
        ensures
            r@ == Seq::<Seq<CellView>>::empty(),
            r.wf(),
    {
        let r = PrintBuffer { lines: Vec::new() };
        proof {
            assert(r@ =~= Seq::<Seq<CellView>>::empty());
        }
        r
    }

    /// The number of stored rows.
    pub fn lines_len(&self) -> (r: usize)
        ensures
            r == self@.len(),
    {
        self.lines.len()
    }

    /// The widest stored row (0 when no row is stored).
    pub fn columns_len(&self) -> (r: usize)
        ensures
            r == max_cols(self@),
    {
        let mut m: usize = 0;
        let mut i: usize = 0;
        while i < self.lines.len()
            invariant
                i <= self.lines@.len(),
                self@.len() == self.lines@.len(),
                m == max_cols(self@.take(i as int)),
            decreases self.lines@.len() - i,
        {
            let l = self.lines[i].len();
            if l > m {
                m = l;
            }
            proof {
                assert(self@.take(i + 1).drop_last() =~= self@.take(i as int));
                assert(self@.take(i + 1).last() == self@[i as int]);
                assert(self@[i as int].len() == self.lines@[i as int]@.len());
            }
            i += 1;
        }
        proof {
            assert(self@.take(self@.len() as int) =~= self@);
        }
        m
    }

    /// The anchor column of the glyph that owns `column_index` in the row,
    /// found by walking backward over continuation cells; `None` when the
    /// position is outside the row or empty.
    fn find_anchor(row: &Vec<PrintLocation>, column_index: usize) -> (r: Option<usize>)
        requires
            wf_row(rv(row@)),
        ensures
            ({
                let rowv = rv(row@);
                let c = column_index as int;
                match r {
                    Some(a) => {
                        &&& 0 <= c < rowv.len()
                        &&& !(rowv[c] is Empty)
                        &&& a as int == anchor_of(rowv, c)
                        &&& rowv[a as int] is Glyph
                        &&& a <= column_index
                    },
                    None => !(c < rowv.len()) || rowv[c] is Empty,
                }
            }),
    {
        if column_index >= row.len() {
            return None;
        }
        proof {
            assert(rv(row@)[column_index as int] == row@[column_index as int]@);
        }
        match &row[column_index] {
            PrintLocation::Transparent => None,
            PrintLocation::Grapheme(_) => {
                proof {
                    assert(anchor_of(rv(row@), column_index as int) == column_index as int);
                }
                Some(column_index)
            },
            PrintLocation::GraphemeBefore => {
                proof {
                    lemma_anchor(rv(row@), column_index as int);
                }
                let mut j = column_index;
                loop
                    invariant
                        wf_row(rv(row@)),
                        0 < j <= column_index < row@.len(),
                        rv(row@).len() == row@.len(),
                        rv(row@)[j as int] is Continuation,
                        rv(row@)[column_index as int] is Continuation,
                        anchor_of(rv(row@), j as int) == anchor_of(rv(row@), column_index as int),
                    decreases j,
                {
                    proof {
                        assert(wf_cell(rv(row@), j as int));
                        lemma_anchor(rv(row@), j as int);
                    }
                    j = j - 1;
                    proof {
                        assert(rv(row@)[j as int] == row@[j as int]@);
                    }
                    match &row[j] {
                        PrintLocation::Grapheme(_) => {
                            proof {
                                assert(anchor_of(rv(row@), j + 1) == anchor_of(rv(row@), j as int));
                                assert(anchor_of(rv(row@), j as int) == j as int);
                            }
                            return Some(j);
                        },
                        PrintLocation::GraphemeBefore => {
                            proof {
                                assert(anchor_of(rv(row@), j + 1) == anchor_of(rv(row@), j as int));
                            }
                        },
                        PrintLocation::Transparent => {
                            proof {
                                assert(false);
                            }
                            return None;
                        },
                    }
                }
            },
        }
    }

    /// The anchor column of the glyph that owns `(line_index, column_index)`,
    /// or `None` when that position is outside the stored cells or empty.
    pub fn find_grapheme(&self, line_index: usize, column_index: usize) -> (r: Option<usize>)
        requires
            self.wf(),
        ensures
            ({
                let li = line_index as int;
                let c = column_index as int;
                match r {
                    Some(a) => {
                        &&& 0 <= li < self@.len()
                        &&& 0 <= c < self@[li].len()
                        &&& !(self@[li][c] is Empty)
                        &&& a as int == anchor_of(self@[li], c)
                        &&& self@[li][a as int] is Glyph
                    },
                    None => !(li < self@.len()) || !(c < self@[li].len()) || self@[li][c] is Empty,
                }
            }),
    {
        if line_index >= self.lines.len() {
            return None;
        }
        Self::find_anchor(&self.lines[line_index], column_index)
    }

    /// Erases, within one row, the whole glyph that owns `column_index`.
    fn clear_in_row(row: &mut Vec<PrintLocation>, column_index: usize)
        requires
            wf_row(rv(old(row)@)),
        ensures
            rv(final(row)@) == clear_at(rv(old(row)@), column_index as int),
            final(row)@.len() == old(row)@.len(),
            wf_row(rv(final(row)@)),
    {
        let ghost row0 = rv(old(row)@);
        proof {
            lemma_clear_at(row0, column_index as int);
        }
        let anchor_opt = Self::find_anchor(row, column_index);
        match anchor_opt {
            None => {
                proof {
                    assert(rv(row@) == clear_at(row0, column_index as int));
                }
            },
            Some(a) => {
                proof {
                    lemma_owner(row0, column_index as int);
                }
                let w: usize;
                proof {
                    assert(rv(row@)[a as int] == row@[a as int]@);
                }
                match &row[a] {
                    PrintLocation::Grapheme(g) => {
                        w = grapheme_width(g.as_str());
                        proof {
                            assert(row0[a as int] == CellView::Glyph(g@));
                            assert(glyph_owned(row0, a as int) == owned_cols(w as nat));
                        }
                    },
                    _ => {
                        w = vstd::pervasive::unreached();
                    },
                }
                let n = row.len();
                proof {
                    assert(n == row0.len());
                    assert(a + glyph_owned(row0, a as int) <= row0.len());
                }
                let e = a + (if w == 0 {
                    1
                } else {
                    w
                });
                proof {
                    assert(e == a + glyph_owned(row0, a as int));
                    assert(e <= row0.len());
                }
                let mut k = a;
                while k < e
                    invariant
                        a <= k <= e,
                        e == a + glyph_owned(row0, a as int),
                        e <= row0.len(),
                        row@.len() == row0.len(),
                        rv(row@) == erase(row0, a as int, k as int),
                    decreases e - k,
                {
                    let ghost prev = rv(row@);
                    row[k] = PrintLocation::Transparent;
                    proof {
                        assert forall|i: int| 0 <= i < row@.len() implies rv(row@)[i] == erase(
                            row0,
                            a as int,
                            k + 1,
                        )[i] by {
                            assert(rv(row@)[i] == row@[i]@);
                            if i != k {
                                assert(row@[i]@ == prev[i]);
                            }
                        }
                        assert(rv(row@) =~= erase(row0, a as int, k + 1));
                    }
                    k += 1;
                }
                proof {
                    assert(rv(row@) == clear_at(row0, column_index as int));
                }
            },
        }
    }

    /// Places the grapheme cluster with its anchor at `(line_index,
    /// column_index)`, growing the stored rows and columns as needed. Every
    /// glyph that overlaps the written columns is first erased whole; then
    /// the anchor and the continuation cells of the cluster's width are
    /// written. The two machine-size bounds keep the touched indices
    /// representable.
    #[verifier::loop_isolation(false)]
    pub fn set_grapheme(&mut self, line_index: usize, column_index: usize, grapheme: &str)
        requires
            old(self).wf(),
            line_index < usize::MAX,
            column_index + owned_cols(display_width(grapheme@)) <= usize::MAX,
        ensures
            final(self).wf(),
            final(self)@ == set_grid(
                old(self)@,
                line_index as int,
                column_index as int,
                grapheme@,
            ),
    {
        proof {
            lemma_set_grid(old(self)@, line_index as int, column_index as int, grapheme@);
        }
        let w = grapheme_width(grapheme);
        let span = if w == 0 {
            1
        } else {
            w
        };
        proof {
            assert(span == owned_cols(display_width(grapheme@)));
        }
        // grow the stored rows so the target row exists
        while self.lines.len() < line_index + 1
            invariant
                self@.len() == self.lines@.len(),
                old(self)@.len() <= self@.len(),
                self@.len() > old(self)@.len() ==> self@.len() <= line_index + 1,
                forall|i: int| 0 <= i < old(self)@.len() ==> #[trigger] self@[i] == old(self)@[i],
                forall|i: int|
                    old(self)@.len() <= i < self@.len() ==> (#[trigger] self@[i]).len() == 0,
            decreases line_index + 1 - self.lines@.len(),
        {
            let ghost before = self@;
            let ghost before_lines = self.lines@;
            self.lines.push(Vec::new());
            proof {
                assert forall|i: int| 0 <= i < before.len() implies #[trigger] self@[i]
                    == before[i] by {
                    assert(self.lines@[i] == before_lines[i]);
                    assert(self@[i] == rv(self.lines@[i]@));
                    assert(before[i] == rv(before_lines[i]@));
                }
                assert(rv(self.lines@[self.lines@.len() - 1]@).len() == 0);
            }
        }
        proof {
            assert(self@ =~~= pad_grid(old(self)@, line_index + 1));
        }
        let ghost gg = pad_grid(old(self)@, line_index + 1);
        let mut row = self.lines.remove(line_index);
        let ghost row_orig = rv(row@);
        proof {
            assert(row_orig == gg[line_index as int]);
            assert(wf_row(row_orig));
        }
        // grow the row so the written columns exist
        while row.len() < column_index + span
            invariant
                row@.len() >= row_orig.len(),
                row@.len() > row_orig.len() ==> row@.len() <= column_index + span,
                forall|i: int| 0 <= i < row_orig.len() ==> #[trigger] rv(row@)[i] == row_orig[i],
                forall|i: int|
                    row_orig.len() <= i < row@.len() ==> (#[trigger] rv(row@)[i]) is Empty,
            decreases column_index + span - row@.len(),
        {
            let ghost before = rv(row@);
            row.push(PrintLocation::Transparent);
            proof {
                assert forall|i: int| 0 <= i < row@.len() implies #[trigger] rv(row@)[i] == (
                if i < before.len() {
                    before[i]
                } else {
                    CellView::Empty
                }) by {
                    assert(rv(row@)[i] == row@[i]@);
                }
            }
        }
        let ghost padded = pad_row(row_orig, column_index + span);
        proof {
            crate::grid_model::lemma_pad_row(row_orig, column_index + span);
            assert(rv(row@) =~= padded);
            assert(wf_row(padded));
        }
        // erase whole every glyph that overlaps the written columns
        let mut k = column_index;
        while k < column_index + span
            invariant
                column_index <= k <= column_index + span,
                row@.len() == padded.len(),
                wf_row(rv(row@)),
                rv(row@) == clear_range(padded, column_index as int, k as int),
            decreases column_index + span - k,
        {
            proof {
                lemma_clear_range_snoc(padded, column_index as int, k as int);
            }
            Self::clear_in_row(&mut row, k);
            k += 1;
        }
        let ghost cleared = clear_range(padded, column_index as int, column_index + span);
        // write the anchor and the continuation cells
        let ghost before_write = rv(row@);
        row[column_index] = PrintLocation::Grapheme(grapheme.to_owned());
        proof {
            assert(rv(row@) =~= cleared.update(column_index as int, CellView::Glyph(grapheme@)));
        }
        let mut k2 = column_index + 1;
        while k2 < column_index + w
            invariant
                column_index + 1 <= k2 <= column_index + if w == 0 {
                    1
                } else {
                    w as int
                },
                row@.len() == cleared.len(),
                column_index + span <= usize::MAX,
                span == owned_cols(display_width(grapheme@)),
                w == display_width(grapheme@),
                span == if w == 0 {
                    1
                } else {
                    w as int
                },
                forall|i: int|
                    0 <= i < row@.len() ==> #[trigger] rv(row@)[i] == (if i == column_index {
                        CellView::Glyph(grapheme@)
                    } else if column_index < i < k2 {
                        CellView::Continuation
                    } else {
                        cleared[i]
                    }),
            decreases column_index + w - k2,
        {
            let ghost before = rv(row@);
            row[k2] = PrintLocation::GraphemeBefore;
            proof {
                assert forall|i: int| 0 <= i < row@.len() implies #[trigger] rv(row@)[i] == (if i
                    == k2 {
                    CellView::Continuation
                } else {
                    before[i]
                }) by {
                    assert(rv(row@)[i] == row@[i]@);
                }
            }
            k2 += 1;
        }
        proof {
            assert(rv(row@) =~= write_glyph(cleared, column_index as int, grapheme@));
            assert(rv(row@) == set_row(row_orig, column_index as int, grapheme@));
        }
        self.lines.insert(line_index, row);
        proof {
            assert forall|i: int| 0 <= i < self@.len() implies #[trigger] self@[i] == gg.update(
                line_index as int,
                set_row(row_orig, column_index as int, grapheme@),
            )[i] by {
                assert(self@[i] == rv(self.lines@[i]@));
            }
            assert(self@ =~= set_grid(
                old(self)@,
                line_index as int,
                column_index as int,
                grapheme@,
            ));
        }
    }

    /// Places the grapheme cluster if its columns fit within the machine's
    /// index range and reports whether it did; the buffer is untouched when
    /// they do not fit.
    pub fn try_set_grapheme(&mut self, line_index: usize, column_index: usize, grapheme: &str) -> (
    ok: bool)
        requires
            old(self).wf(),
        ensures
            final(self).wf(),
            ok == (line_index < usize::MAX && column_index + owned_cols(display_width(grapheme@))
                <= usize::MAX),
            ok ==> final(self)@ == set_grid(
                old(self)@,
                line_index as int,
                column_index as int,
                grapheme@,
            ),
            !ok ==> final(self)@ == old(self)@,
    {
        if line_index >= usize::MAX {
            return false;
        }
        let w = grapheme_width(grapheme);
        let span = if w == 0 {
            1
        } else {
            w
        };
        if column_index > usize::MAX - span {
            return false;
        }
        self.set_grapheme(line_index, column_index, grapheme);
        true
    }

    /// Builds a buffer whose cell layout matches the visual layout of `s`:
    /// each line's grapheme clusters are placed left to right, each at the
    /// column the widths of its predecessors add up to.
    #[verifier::loop_isolation(false)]
    pub fn from_str(s: &str) -> (r: Self)
        ensures
            r.wf(),
            r@ == from_text(s@),
    {
        let mut buffer = Self::new();
        let lines = split_lines(s);
        let ghost lsv = lines_spec(s@);
        let mut li: usize = 0;
        while li < lines.len()
            invariant
                buffer.wf(),
                li <= lines@.len(),
                lines@.map_values(|l: String| l@) == lsv,
                lines@.len() == lsv.len(),
                place_lines(buffer@, lsv, li as int) == place_lines(
                    Seq::<Seq<CellView>>::empty(),
                    lsv,
                    0,
                ),
            decreases lines@.len() - li,
        {
            let gs = split_graphemes(lines[li].as_str());
            let ghost gsv = graphemes_of(lsv[li as int]);
            proof {
                assert(lines@[li as int]@ == lsv[li as int]);
                assert(gs@.map_values(|g: String| g@) == gsv);
            }
            let ghost buf0 = buffer@;
            let mut gi: usize = 0;
            let mut col: usize = 0;
            while gi < gs.len()
                invariant
                    buffer.wf(),
                    gi <= gs@.len(),
                    place_row(buffer@, li as int, gsv, gi as int, col as nat) == place_row(
                        buf0,
                        li as int,
                        gsv,
                        0,
                        0,
                    ),
                decreases gs@.len() - gi,
            {
                let g = &gs[gi];
                proof {
                    assert(g@ == gsv[gi as int]);
                }
                let w = grapheme_width(g.as_str());
                let span = if w == 0 {
                    1
                } else {
                    w
                };
                if col > usize::MAX - span {
                    // the cluster's columns would pass the machine's index
                    // range: placement of this line stops here
                    proof {
                        assert(place_row(buffer@, li as int, gsv, gi as int, col as nat)
                            == buffer@);
                    }
                    gi = gs.len();
                } else {
                    buffer.set_grapheme(li, col, g.as_str());
                    col += w;
                    gi += 1;
                }
            }
            proof {
                assert(place_row(buffer@, li as int, gsv, gs@.len() as int, col as nat)
                    == buffer@);
                assert(place_lines(buf0, lsv, li as int) == place_lines(buffer@, lsv, li + 1));
            }
            li += 1;
        }
        proof {
            assert(place_lines(buffer@, lsv, lsv.len() as int) == buffer@);
        }
        buffer
    }

    /// The flat textual form: row by row, each glyph's text at its anchor,
    /// one space per empty cell, nothing at continuation cells (the anchor's
    /// text covers their columns), and a terminator after every row.
    #[verifier::loop_isolation(false)]
    pub fn render(&self) -> (out: String)
        ensures
            out@ == render_spec(self@),
    {
        let mut out = String::new();
        let mut r: usize = 0;
        while r < self.lines.len()
            invariant
                r <= self.lines@.len(),
                out@ == render_rows(self@, r as int),
            decreases self.lines@.len() - r,
        {
            let row = &self.lines[r];
            let ghost rowv = self@[r as int];
            let mut c: usize = 0;
            while c < row.len()
                invariant
                    c <= row@.len(),
                    rowv == self@[r as int],
                    rv(row@) == rowv,
                    rowv.len() == row@.len(),
                    r < self.lines@.len(),
                    out@ == render_rows(self@, r as int) + render_range(rowv, 0, c as int),
                decreases row@.len() - c,
            {
                proof {
                    assert(rv(row@)[c as int] == row@[c as int]@);
                    lemma_render_split(rowv, 0, c as int, c + 1);
                    assert(render_range(rowv, c + 1, c + 1) =~= Seq::<char>::empty());
                    assert(render_range(rowv, c as int, c + 1) == render_cell(rowv[c as int])
                        + render_range(rowv, c + 1, c + 1));
                    assert(render_range(rowv, c as int, c + 1) =~= render_cell(rowv[c as int]));
                }
                match &row[c] {
                    PrintLocation::Transparent => {
                        out.append(" ");
                        proof {
                            reveal_strlit(" ");
                            assert(" "@ =~= seq![' ']);
                        }
                    },
                    PrintLocation::Grapheme(g) => {
                        out.append(g.as_str());
                    },
                    PrintLocation::GraphemeBefore => {
                        proof {
                            assert(render_cell(rowv[c as int]) =~= Seq::<char>::empty());
                        }
                    },
                }
                proof {
                    assert(out@ =~= render_rows(self@, r as int) + render_range(rowv, 0, c + 1));
                }
                c += 1;
            }
            out.append("\n");
            proof {
                reveal_strlit("\n");
                assert("\n"@ =~= seq!['\n']);
                assert(render_rows(self@, r + 1) == render_rows(self@, r as int) + render_row(
                    rowv,
                ));
                assert(out@ =~= render_rows(self@, r + 1));
            }
            r += 1;
        }
        out
    }

    /// Erases whatever glyph occupies `(line_index, column_index)`: the whole
    /// glyph goes, whichever of its columns was named; a no-op outside the
    /// stored cells or on an empty cell.
    pub fn clear_location(&mut self, line_index: usize, column_index: usize)
        requires
            old(self).wf(),
        ensures
            final(self).wf(),
            final(self)@ == clear_grid(old(self)@, line_index as int, column_index as int),
    {
        proof {
            lemma_clear_grid(old(self)@, line_index as int, column_index as int);
        }
        if line_index >= self.lines.len() {
            return;
        }
        let mut row = self.lines.remove(line_index);
        Self::clear_in_row(&mut row, column_index);
        self.lines.insert(line_index, row);
        proof {
            assert(self.lines@ =~= old(self).lines@.update(line_index as int, self.lines@[line_index as int]));
            assert(self@ =~= clear_grid(old(self)@, line_index as int, column_index as int));
        }
    }
}

impl Default for PrintBuffer {
    /// The same as [`PrintBuffer::new`]: an empty buffer.
    fn default() -> (r: Self)
        ensures
            r@ == Seq::<Seq<CellView>>::empty(),
            r.wf(),
    {
        PrintBuffer::new()
    }
}

} // verus!

//! The mathematical model of the grid: cells, the structural invariant, and
//! the transforms that `set`, `clear` and rendering are specified against.

use vstd::prelude::*;
use crate::unicode::display_width;

verus! {

/// The mathematical value of one grid position.
pub enum CellView {
    /// Nothing here: transparent for compositing, a space when rendered.
    Empty,
    /// A trailing column of a wide glyph anchored at an earlier column.
    Continuation,
    /// The anchor column of a glyph; carries the glyph's text.
    Glyph(Seq<char>),
}

/// The columns a glyph of display width `w` owns: a zero-width glyph still
/// owns its anchor column.
pub open spec fn owned_cols(w: nat) -> nat {
    if w == 0 {
        1nat
    } else {
        w
    }
}

/// The display width of the glyph anchored at `a` (meaningful only when
/// `row[a]` is a glyph).
pub open spec fn glyph_width(row: Seq<CellView>, a: int) -> nat {
    display_width(row[a]->Glyph_0)
}

/// The number of columns the glyph anchored at `a` owns.
pub open spec fn glyph_owned(row: Seq<CellView>, a: int) -> nat {
    owned_cols(glyph_width(row, a))
}

/// The structural invariant at one position: a glyph of width `w >= 1` is
/// followed by exactly `w - 1` continuation cells and its span is closed (the
/// cell after the span is no continuation); a continuation cell always has a
/// continuation or a wide glyph directly to its left, so walking backward
/// from any continuation reaches an anchor.
pub open spec fn wf_cell(row: Seq<CellView>, c: int) -> bool {
    match row[c] {
        CellView::Empty => true,
        CellView::Glyph(g) => {
            let w = display_width(g) as int;
            let o = owned_cols(display_width(g)) as int;
            &&& (w >= 1 ==> c + w <= row.len())
            &&& (forall|j: int| c < j < c + w ==> (#[trigger] row[j]) is Continuation)
            &&& (c + o < row.len() ==> !(row[c + o] is Continuation))
        },
        CellView::Continuation => {
            &&& c >= 1
            &&& (row[c - 1] is Continuation || (row[c - 1] is Glyph && display_width(
                row[c - 1]->Glyph_0,
            ) >= 2))
        },
    }
}

pub open spec fn wf_row(row: Seq<CellView>) -> bool {
    forall|c: int| 0 <= c < row.len() ==> #[trigger] wf_cell(row, c)
}

pub open spec fn wf_grid(grid: Seq<Seq<CellView>>) -> bool {
    forall|r: int| 0 <= r < grid.len() ==> wf_row(#[trigger] grid[r])
}

/// The anchor column reached from `c` by walking left over continuation
/// cells; `c` itself if `c` holds a glyph.
pub open spec fn anchor_of(row: Seq<CellView>, c: int) -> int
    decreases c,
{
    if c <= 0 || row[c] is Glyph {
        c
    } else {
        anchor_of(row, c - 1)
    }
}

/// The first position at or after `j` that holds no continuation cell.
pub open spec fn run_end(row: Seq<CellView>, j: int) -> int
    decreases row.len() - j,
{
    if j < 0 || j >= row.len() || !(row[j] is Continuation) {
        j
    } else {
        run_end(row, j + 1)
    }
}

/// `row` with the positions in `[lo, hi)` made empty.
pub open spec fn erase(row: Seq<CellView>, lo: int, hi: int) -> Seq<CellView> {
    Seq::new(row.len(), |j: int| if lo <= j < hi {
        CellView::Empty
    } else {
        row[j]
    })
}

/// Clearing one position: a no-op outside the row or on an empty cell;
/// otherwise the whole glyph that owns the position is erased, anchor and
/// every continuation cell of its run.
pub open spec fn clear_at(row: Seq<CellView>, c: int) -> Seq<CellView> {
    if 0 <= c < row.len() && !(row[c] is Empty) {
        let a = anchor_of(row, c);
        erase(row, a, run_end(row, a + 1))
    } else {
        row
    }
}

/// Clearing every position of `[lo, hi)` in turn, left to right.
pub open spec fn clear_range(row: Seq<CellView>, lo: int, hi: int) -> Seq<CellView>
    decreases hi - lo,
{
    if lo >= hi {
        row
    } else {
        clear_range(clear_at(row, lo), lo + 1, hi)
    }
}

/// `row` grown with empty cells to length at least `n`.
pub open spec fn pad_row(row: Seq<CellView>, n: int) -> Seq<CellView> {
    if n <= row.len() {
        row
    } else {
        row + Seq::new((n - row.len()) as nat, |j: int| CellView::Empty)
    }
}

/// The glyph `g` written with its anchor at `c` and continuation cells over
/// the rest of its width.
pub open spec fn write_glyph(row: Seq<CellView>, c: int, g: Seq<char>) -> Seq<CellView> {
    Seq::new(row.len(), |j: int| if j == c {
        CellView::Glyph(g)
    } else if c < j < c + display_width(g) {
        CellView::Continuation
    } else {
        row[j]
    })
}

/// The full effect of placing `g` at column `c`: grow the row to hold the
/// glyph's columns, fully erase every glyph that overlaps them, then write
/// the anchor and its continuation cells.
pub open spec fn set_row(row: Seq<CellView>, c: int, g: Seq<char>) -> Seq<CellView> {
    let s = owned_cols(display_width(g)) as int;
    write_glyph(clear_range(pad_row(row, c + s), c, c + s), c, g)
}

/// The grid grown with empty rows to hold at least `n` rows.
pub open spec fn pad_grid(grid: Seq<Seq<CellView>>, n: int) -> Seq<Seq<CellView>> {
    if n <= grid.len() {
        grid
    } else {
        grid + Seq::new((n - grid.len()) as nat, |r: int| Seq::<CellView>::empty())
    }
}

/// Placing `g` at `(r, c)` of the grid.
pub open spec fn set_grid(grid: Seq<Seq<CellView>>, r: int, c: int, g: Seq<char>) -> Seq<
    Seq<CellView>,
> {
    let gg = pad_grid(grid, r + 1);
    gg.update(r, set_row(gg[r], c, g))
}

/// Clearing position `(r, c)` of the grid: a no-op outside the stored rows.
pub open spec fn clear_grid(grid: Seq<Seq<CellView>>, r: int, c: int) -> Seq<Seq<CellView>> {
    if 0 <= r < grid.len() {
        grid.update(r, clear_at(grid[r], c))
    } else {
        grid
    }
}

/// Whether position `j` of the row holds part of a glyph (anchor or
/// continuation) whose owned columns meet the range `[lo, hi)`.
pub open spec fn span_hits(row: Seq<CellView>, j: int, lo: int, hi: int) -> bool {
    &&& 0 <= j < row.len()
    &&& !(row[j] is Empty)
    &&& {
        let a = anchor_of(row, j);
        let e = a + glyph_owned(row, a);
        lo < hi && a < hi && lo < e
    }
}

/// The widest stored row of the grid.
pub open spec fn max_cols(grid: Seq<Seq<CellView>>) -> nat
    decreases grid.len(),
{
    if grid.len() == 0 {
        0
    } else {
        let rest = max_cols(grid.drop_last());
        if grid.last().len() > rest {
            grid.last().len()
        } else {
            rest
        }
    }
}

/// No stored row is wider than `max_cols`.
pub proof fn lemma_max_cols_bound(grid: Seq<Seq<CellView>>)
    ensures
        forall|i: int| 0 <= i < grid.len() ==> (#[trigger] grid[i]).len() <= max_cols(grid),
    decreases grid.len(),
{
    if grid.len() > 0 {
        lemma_max_cols_bound(grid.drop_last());
        assert forall|i: int| 0 <= i < grid.len() implies (#[trigger] grid[i]).len() <= max_cols(
            grid,
        ) by {
            if i < grid.len() - 1 {
                assert(grid.drop_last()[i] == grid[i]);
            }
        }
    }
}

/// What one cell contributes to the rendered text: a space for an empty
/// cell, the glyph's own text at its anchor, nothing at a continuation (the
/// anchor's text covers those columns on screen).
pub open spec fn render_cell(cell: CellView) -> Seq<char> {
    match cell {
        CellView::Empty => seq![' '],
        CellView::Continuation => Seq::empty(),
        CellView::Glyph(g) => g,
    }
}

/// The text of the cells `[lo, hi)` of a row, in order.
pub open spec fn render_range(row: Seq<CellView>, lo: int, hi: int) -> Seq<char>
    decreases hi - lo,
{
    if lo >= hi {
        Seq::empty()
    } else {
        render_cell(row[lo]) + render_range(row, lo + 1, hi)
    }
}

/// One rendered row: its cells' text, then the row terminator.
pub open spec fn render_row(row: Seq<CellView>) -> Seq<char> {
    render_range(row, 0, row.len() as int) + seq!['\n']
}

/// The first `r` rows of the grid, rendered and concatenated.
pub open spec fn render_rows(grid: Seq<Seq<CellView>>, r: int) -> Seq<char>
    decreases r,
{
    if r <= 0 {
        Seq::empty()
    } else {
        render_rows(grid, r - 1) + render_row(grid[r - 1])
    }
}

/// The whole grid as flat text.
pub open spec fn render_spec(grid: Seq<Seq<CellView>>) -> Seq<char> {
    render_rows(grid, grid.len() as int)
}

/// Rendering a row splits at any position.
pub proof fn lemma_render_split(row: Seq<CellView>, lo: int, mid: int, hi: int)
    requires
        lo <= mid <= hi,
    ensures
        render_range(row, lo, hi) == render_range(row, lo, mid) + render_range(row, mid, hi),
    decreases mid - lo,
{
    if lo >= mid {
        assert(render_range(row, lo, mid) + render_range(row, mid, hi) =~= render_range(
            row,
            mid,
            hi,
        ));
    } else {
        lemma_render_split(row, lo + 1, mid, hi);
        assert(render_cell(row[lo]) + (render_range(row, lo + 1, mid) + render_range(
            row,
            mid,
            hi,
        )) =~= (render_cell(row[lo]) + render_range(row, lo + 1, mid)) + render_range(
            row,
            mid,
            hi,
        ));
    }
}

/// Clearing a range one position further clears the range, then that
/// position.
pub proof fn lemma_clear_range_snoc(row: Seq<CellView>, lo: int, hi: int)
    requires
        lo <= hi,
    ensures
        clear_range(row, lo, hi + 1) == clear_at(clear_range(row, lo, hi), hi),
    decreases hi - lo,
{
    if lo < hi {
        lemma_clear_range_snoc(clear_at(row, lo), lo + 1, hi);
    } else {
        assert(clear_range(row, lo, lo + 1) == clear_range(clear_at(row, lo), lo + 1, lo + 1));
        assert(clear_range(row, lo, lo) == row);
    }
}

/// Every continuation cell reaches a glyph by the backward walk: the anchor
/// lies strictly left, every cell between them is a continuation, and the
/// glyph's width covers the continuation's column.
pub proof fn lemma_anchor(row: Seq<CellView>, c: int)
    requires
        wf_row(row),
        0 <= c < row.len(),
        row[c] is Continuation,
    ensures
        ({
            let a = anchor_of(row, c);
            &&& 0 <= a < c
            &&& row[a] is Glyph
            &&& c < a + glyph_width(row, a)
            &&& glyph_width(row, a) >= 2
            &&& forall|j: int| a < j <= c ==> (#[trigger] row[j]) is Continuation
        }),
    decreases c,
{
    assert(wf_cell(row, c));
    if row[c - 1] is Glyph {
        assert(anchor_of(row, c) == anchor_of(row, c - 1));
        assert(anchor_of(row, c - 1) == c - 1);
        assert(wf_cell(row, c - 1));
    } else {
        lemma_anchor(row, c - 1);
        let a = anchor_of(row, c - 1);
        assert(anchor_of(row, c) == a);
        let w = glyph_width(row, a);
        assert(wf_cell(row, a));
        // The chain of continuations from a + 1 through c cannot pass the
        // closed end of the glyph's span.
        if c >= a + owned_cols(w) {
            assert(row[a + owned_cols(w)] is Continuation);
            assert(false);
        }
    }
}

/// The owned column ranges of two distinct glyph anchors never overlap.
pub proof fn lemma_spans_disjoint(row: Seq<CellView>, a: int, b: int)
    requires
        wf_row(row),
        0 <= a < row.len(),
        0 <= b < row.len(),
        a < b,
        row[a] is Glyph,
        row[b] is Glyph,
    ensures
        a + glyph_owned(row, a) <= b,
{
    if b < a + glyph_owned(row, a) {
        assert(wf_cell(row, a));
        let w = glyph_width(row, a);
        if w == 0 {
            assert(b < a + 1);
        } else {
            assert(row[b] is Continuation);
        }
        assert(false);
    }
}

/// Within a glyph's owned columns the backward walk always returns that
/// glyph's anchor.
pub proof fn lemma_anchor_in_span(row: Seq<CellView>, a: int, x: int)
    requires
        wf_row(row),
        0 <= a < row.len(),
        row[a] is Glyph,
        a <= x < a + glyph_owned(row, a),
    ensures
        x < row.len(),
        anchor_of(row, x) == a,
        !(row[x] is Empty),
{
    assert(wf_cell(row, a));
    if x == a {
        assert(anchor_of(row, x) == a);
    } else {
        let w = glyph_width(row, a);
        assert(w >= 1 && glyph_owned(row, a) == w);
        assert(row[x] is Continuation);
        lemma_anchor(row, x);
        let a2 = anchor_of(row, x);
        if a2 < a {
            assert(row[a] is Continuation);
            assert(false);
        } else if a2 > a {
            assert(a < a2 < a + w);
            assert(row[a2] is Continuation);
            assert(false);
        }
    }
}

/// `run_end` finds exactly the end of a block of continuation cells.
pub proof fn lemma_run_end_exact(row: Seq<CellView>, lo: int, hi: int)
    requires
        0 <= lo <= hi <= row.len(),
        forall|j: int| lo <= j < hi ==> (#[trigger] row[j]) is Continuation,
        hi == row.len() || !(row[hi] is Continuation),
    ensures
        run_end(row, lo) == hi,
    decreases hi - lo,
{
    if lo < hi {
        lemma_run_end_exact(row, lo + 1, hi);
    }
}

/// After a glyph's anchor, the continuation run ends exactly at the end of
/// the glyph's owned columns, which lie inside the row.
pub proof fn lemma_run_end_glyph(row: Seq<CellView>, a: int)
    requires
        wf_row(row),
        0 <= a < row.len(),
        row[a] is Glyph,
    ensures
        a + glyph_owned(row, a) <= row.len(),
        run_end(row, a + 1) == a + glyph_owned(row, a),
{
    assert(wf_cell(row, a));
    let w = glyph_width(row, a);
    let o = glyph_owned(row, a) as int;
    assert(forall|j: int| a + 1 <= j < a + o ==> (#[trigger] row[j]) is Continuation);
    lemma_run_end_exact(row, a + 1, a + o);
}

/// Erasing exactly the owned columns of one glyph keeps the row well formed.
pub proof fn lemma_erase_span_wf(row: Seq<CellView>, a: int)
    requires
        wf_row(row),
        0 <= a < row.len(),
        row[a] is Glyph,
    ensures
        wf_row(erase(row, a, a + glyph_owned(row, a))),
{
    let e = a + glyph_owned(row, a);
    let row2 = erase(row, a, e);
    lemma_run_end_glyph(row, a);
    assert forall|c2: int| 0 <= c2 < row2.len() implies #[trigger] wf_cell(row2, c2) by {
        assert(wf_cell(row, c2));
        if a <= c2 < e {
            assert(row2[c2] is Empty);
        } else {
            assert(row2[c2] == row[c2]);
            match row[c2] {
                CellView::Empty => {},
                CellView::Glyph(g) => {
                    let w = display_width(g) as int;
                    let o = owned_cols(display_width(g)) as int;
                    lemma_spans_disjoint_any(row, a, c2);
                    assert forall|j: int| c2 < j < c2 + w implies (#[trigger] row2[j])
                        is Continuation by {
                        assert(row[j] is Continuation);
                        assert(!(a <= j < e));
                    }
                    if c2 + o < row2.len() {
                        assert(!(row2[c2 + o] is Continuation));
                    }
                },
                CellView::Continuation => {
                    if a <= c2 - 1 < e {
                        // then c2 == e, but the cell after a glyph's owned
                        // columns is never a continuation
                        assert(c2 == e);
                        assert(wf_cell(row, a));
                        assert(!(row[e] is Continuation));
                        assert(false);
                    } else {
                        assert(row2[c2 - 1] == row[c2 - 1]);
                    }
                },
            }
        }
    }
}

/// The owned ranges of two glyph anchors, in either order, do not overlap.
pub proof fn lemma_spans_disjoint_any(row: Seq<CellView>, a: int, b: int)
    requires
        wf_row(row),
        0 <= a < row.len(),
        0 <= b < row.len(),
        a != b,
        row[a] is Glyph,
        row[b] is Glyph,
    ensures
        a + glyph_owned(row, a) <= b || b + glyph_owned(row, b) <= a,
{
    if a < b {
        lemma_spans_disjoint(row, a, b);
    } else {
        lemma_spans_disjoint(row, b, a);
    }
}

/// The backward walk only reads the cells between the anchor and the start,
/// so it is unmoved by changes outside that range.
pub proof fn lemma_anchor_frame(row: Seq<CellView>, row2: Seq<CellView>, c: int)
    requires
        wf_row(row),
        0 <= c < row.len(),
        !(row[c] is Empty),
        forall|k: int| anchor_of(row, c) <= k <= c ==> row2[k] == row[k],
    ensures
        anchor_of(row2, c) == anchor_of(row, c),
    decreases c,
{
    if row[c] is Glyph {
        assert(anchor_of(row2, c) == c);
    } else {
        lemma_anchor(row, c);
        assert(anchor_of(row, c) == anchor_of(row, c - 1));
        lemma_anchor_frame(row, row2, c - 1);
    }
}

/// The anchor of the glyph that owns position `j` (that glyph's own column
/// for an anchor cell).
pub open spec fn owner_of(row: Seq<CellView>, j: int) -> int {
    anchor_of(row, j)
}

/// Every occupied position is owned by a glyph whose columns contain it.
pub proof fn lemma_owner(row: Seq<CellView>, j: int)
    requires
        wf_row(row),
        0 <= j < row.len(),
        !(row[j] is Empty),
    ensures
        ({
            let a = owner_of(row, j);
            &&& 0 <= a <= j < a + glyph_owned(row, a)
            &&& a + glyph_owned(row, a) <= row.len()
            &&& row[a] is Glyph
        }),
{
    if row[j] is Glyph {
        assert(owner_of(row, j) == j);
        lemma_run_end_glyph(row, j);
    } else {
        lemma_anchor(row, j);
        let a = owner_of(row, j);
        lemma_run_end_glyph(row, a);
    }
}

/// Erasing one glyph's owned columns does not move any other cell's owner.
pub proof fn lemma_erase_span_owner(row: Seq<CellView>, a: int, j: int)
    requires
        wf_row(row),
        0 <= a < row.len(),
        row[a] is Glyph,
        0 <= j < row.len(),
        !(row[j] is Empty),
        !(a <= j < a + glyph_owned(row, a)),
    ensures
        ({
            let row2 = erase(row, a, a + glyph_owned(row, a));
            let aj = owner_of(row, j);
            &&& !(row2[j] is Empty)
            &&& owner_of(row2, j) == aj
            &&& row2[aj] == row[aj]
            &&& glyph_owned(row2, aj) == glyph_owned(row, aj)
        }),
{
    let e = a + glyph_owned(row, a);
    let row2 = erase(row, a, e);
    let aj = owner_of(row, j);
    lemma_owner(row, j);
    if aj == a {
        assert(a <= j < a + glyph_owned(row, a));
        assert(false);
    }
    lemma_spans_disjoint_any(row, a, aj);
    assert forall|k: int| aj <= k <= j implies row2[k] == row[k] by {
        assert(!(a <= k < e));
    }
    lemma_anchor_frame(row, row2, j);
}

/// Clearing one position: a no-op outside the row or on an empty cell, and
/// otherwise exactly the owning glyph's columns are erased. The invariant is
/// preserved either way.
pub proof fn lemma_clear_at(row: Seq<CellView>, c: int)
    requires
        wf_row(row),
    ensures
        clear_at(row, c).len() == row.len(),
        wf_row(clear_at(row, c)),
        0 <= c < row.len() && !(row[c] is Empty) ==> {
            let a = owner_of(row, c);
            &&& row[a] is Glyph
            &&& 0 <= a <= c < a + glyph_owned(row, a)
            &&& a + glyph_owned(row, a) <= row.len()
            &&& clear_at(row, c) == erase(row, a, a + glyph_owned(row, a))
        },
        !(0 <= c < row.len() && !(row[c] is Empty)) ==> clear_at(row, c) == row,
{
    if 0 <= c < row.len() && !(row[c] is Empty) {
        lemma_owner(row, c);
        let a = owner_of(row, c);
        lemma_run_end_glyph(row, a);
        lemma_erase_span_wf(row, a);
    }
}

/// Clearing every position of `[lo, hi)`: afterwards those positions are
/// empty, every glyph whose owned columns met the range is gone whole, and
/// every other cell is untouched.
pub proof fn lemma_clear_range(row: Seq<CellView>, lo: int, hi: int)
    requires
        wf_row(row),
        0 <= lo <= hi <= row.len(),
    ensures
        clear_range(row, lo, hi).len() == row.len(),
        wf_row(clear_range(row, lo, hi)),
        forall|j: int| lo <= j < hi ==> (#[trigger] clear_range(row, lo, hi)[j]) is Empty,
        forall|j: int|
            0 <= j < row.len() && span_hits(row, j, lo, hi) ==> (#[trigger] clear_range(
                row,
                lo,
                hi,
            )[j]) is Empty,
        forall|j: int|
            0 <= j < row.len() && !span_hits(row, j, lo, hi) && !(lo <= j < hi)
                ==> #[trigger] clear_range(row, lo, hi)[j] == row[j],
    decreases hi - lo,
{
    if lo >= hi {
    } else {
        let row1 = clear_at(row, lo);
        let res = clear_range(row, lo, hi);
        assert(res == clear_range(row1, lo + 1, hi));
        lemma_clear_at(row, lo);
        lemma_clear_range(row1, lo + 1, hi);
        if !(row[lo] is Empty) {
            let a0 = owner_of(row, lo);
            let e0 = a0 + glyph_owned(row, a0);
            assert(row1 == erase(row, a0, e0));
            assert forall|j: int| 0 <= j < row.len() implies ({
                &&& (span_hits(row, j, lo, hi) ==> (#[trigger] res[j]) is Empty)
                &&& (!span_hits(row, j, lo, hi) && !(lo <= j < hi) ==> res[j] == row[j])
                &&& (lo <= j < hi ==> res[j] is Empty)
            }) by {
                if a0 <= j < e0 {
                    assert(row1[j] is Empty);
                    if lo + 1 <= j < hi {
                        assert(res[j] is Empty);
                    } else {
                        assert(!span_hits(row1, j, lo + 1, hi));
                        assert(res[j] == row1[j]);
                    }
                    // the whole owning glyph met the range, so the claims
                    // agree on these positions
                    lemma_anchor_in_span(row, a0, j);
                    assert(owner_of(row, j) == a0);
                    assert(span_hits(row, j, lo, hi));
                } else {
                    if row[j] is Empty {
                        assert(row1[j] == row[j]);
                        assert(!span_hits(row, j, lo, hi));
                        assert(!span_hits(row1, j, lo + 1, hi));
                        if lo + 1 <= j < hi {
                            assert(res[j] is Empty);
                            assert(row[j] is Empty);
                        } else {
                            assert(res[j] == row1[j]);
                            assert(j != lo);
                        }
                    } else {
                        lemma_owner(row, j);
                        lemma_erase_span_owner(row, a0, j);
                        let aj = owner_of(row, j);
                        let ej = aj + glyph_owned(row, aj);
                        assert(row1[j] == row[j]);
                        // the owner's columns cannot contain lo: lo is owned
                        // by a0, and owners are unique
                        if aj <= lo < ej {
                            lemma_anchor_in_span(row, aj, lo);
                            lemma_anchor_in_span(row, a0, lo);
                            assert(aj == a0);
                            assert(false);
                        }
                        assert(span_hits(row, j, lo, hi) == span_hits(row1, j, lo + 1, hi));
                        if span_hits(row, j, lo, hi) {
                            assert(res[j] is Empty);
                        } else {
                            if lo + 1 <= j < hi {
                                assert(res[j] is Empty);
                            } else {
                                assert(res[j] == row1[j]);
                                assert(j != lo);
                            }
                        }
                    }
                }
            }
        } else {
            assert(row1 == row);
            assert forall|j: int| 0 <= j < row.len() implies ({
                &&& (span_hits(row, j, lo, hi) ==> (#[trigger] res[j]) is Empty)
                &&& (!span_hits(row, j, lo, hi) && !(lo <= j < hi) ==> res[j] == row[j])
                &&& (lo <= j < hi ==> res[j] is Empty)
            }) by {
                if span_hits(row, j, lo, hi) {
                    let aj = owner_of(row, j);
                    lemma_owner(row, j);
                    if aj <= lo < aj + glyph_owned(row, aj) {
                        lemma_anchor_in_span(row, aj, lo);
                        assert(!(row[lo] is Empty));
                        assert(false);
                    }
                    assert(span_hits(row, j, lo + 1, hi));
                    assert(res[j] is Empty);
                } else {
                    if lo + 1 <= j < hi {
                        assert(res[j] is Empty);
                    } else if j == lo {
                        assert(row[lo] is Empty);
                        assert(!span_hits(row, lo, lo + 1, hi));
                        assert(res[j] == row[j]);
                    } else {
                        assert(!span_hits(row, j, lo + 1, hi));
                        assert(res[j] == row[j]);
                    }
                }
            }
        }
    }
}

/// Growing a row with empty cells keeps it well formed and its owners where
/// they were.
pub proof fn lemma_pad_row(row: Seq<CellView>, n: int)
    requires
        wf_row(row),
    ensures
        pad_row(row, n).len() == if n <= row.len() {
            row.len() as int
        } else {
            n
        },
        wf_row(pad_row(row, n)),
        forall|j: int| 0 <= j < row.len() ==> #[trigger] pad_row(row, n)[j] == row[j],
        forall|j: int| row.len() <= j < n ==> (#[trigger] pad_row(row, n)[j]) is Empty,
{
    let p = pad_row(row, n);
    assert forall|c: int| 0 <= c < p.len() implies #[trigger] wf_cell(p, c) by {
        if c < row.len() {
            assert(wf_cell(row, c));
            match row[c] {
                CellView::Empty => {},
                CellView::Glyph(g) => {
                    let w = display_width(g) as int;
                    let o = owned_cols(display_width(g)) as int;
                    assert forall|j: int| c < j < c + w implies (#[trigger] p[j])
                        is Continuation by {
                        assert(row[j] is Continuation);
                    }
                    if c + o < p.len() {
                        if c + o < row.len() {
                            assert(!(p[c + o] is Continuation));
                        } else {
                            assert(p[c + o] is Empty);
                        }
                    }
                },
                CellView::Continuation => {
                    assert(p[c - 1] == row[c - 1]);
                },
            }
        } else {
            assert(p[c] is Empty);
        }
    }
}

/// The full point-wise description of placing glyph `g` at column `c`: the
/// anchor and its continuation cells stand where they were written, every
/// glyph whose columns the write met is gone whole, and every other cell of
/// the row is exactly what it was.
pub proof fn lemma_set_row(row: Seq<CellView>, c: int, g: Seq<char>)
    requires
        wf_row(row),
        0 <= c,
    ensures
        ({
            let w = display_width(g) as int;
            let s = owned_cols(display_width(g)) as int;
            let row2 = set_row(row, c, g);
            &&& row2.len() == if c + s <= row.len() {
                row.len() as int
            } else {
                c + s
            }
            &&& wf_row(row2)
            &&& row2[c] == CellView::Glyph(g)
            &&& (forall|j: int| c < j < c + w ==> (#[trigger] row2[j]) is Continuation)
            &&& (forall|j: int|
                0 <= j < row.len() && !(c <= j < c + s) && span_hits(row, j, c, c + s) ==> (
                #[trigger] row2[j]) is Empty)
            &&& (forall|j: int|
                0 <= j < row.len() && !(c <= j < c + s) && !span_hits(row, j, c, c + s)
                    ==> #[trigger] row2[j] == row[j])
            &&& (forall|j: int|
                row.len() <= j < row2.len() && !(c <= j < c + s) ==> (#[trigger] row2[j]) is Empty)
        }),
{
    let w = display_width(g) as int;
    let s = owned_cols(display_width(g)) as int;
    let p = pad_row(row, c + s);
    let r1 = clear_range(p, c, c + s);
    let row2 = set_row(row, c, g);
    lemma_pad_row(row, c + s);
    lemma_clear_range(p, c, c + s);
    assert(row2 == write_glyph(r1, c, g));
    // positions outside the written range keep their cleared value
    assert forall|j: int| 0 <= j < row2.len() && !(c <= j < c + s) implies #[trigger] row2[j]
        == r1[j] by {}
    assert forall|j: int|
        0 <= j < row.len() && !(c <= j < c + s) && span_hits(row, j, c, c + s) implies (
    #[trigger] row2[j]) is Empty by {
        lemma_owner(row, j);
        assert forall|k: int| anchor_of(row, j) <= k <= j implies p[k] == row[k] by {}
        lemma_anchor_frame(row, p, j);
        assert(p[anchor_of(row, j)] == row[anchor_of(row, j)]);
        assert(span_hits(p, j, c, c + s));
        assert(r1[j] is Empty);
    }
    assert forall|j: int|
        0 <= j < row.len() && !(c <= j < c + s) && !span_hits(row, j, c, c + s)
            implies #[trigger] row2[j] == row[j] by {
        if !(row[j] is Empty) {
            lemma_owner(row, j);
            assert forall|k: int| anchor_of(row, j) <= k <= j implies p[k] == row[k] by {}
            lemma_anchor_frame(row, p, j);
            assert(p[anchor_of(row, j)] == row[anchor_of(row, j)]);
            assert(!span_hits(p, j, c, c + s));
        }
        assert(r1[j] == p[j]);
    }
    // well-formedness of the final row
    assert forall|c2: int| 0 <= c2 < row2.len() implies #[trigger] wf_cell(row2, c2) by {
        if c2 == c {
            assert(row2[c2] == CellView::Glyph(g));
            if c + s < row2.len() && row2[c + s] is Continuation {
                assert(r1[c + s] is Continuation);
                assert(wf_cell(r1, c + s));
                assert(r1[c + s - 1] is Empty);
                assert(false);
            }
        } else if c < c2 < c + w {
            assert(row2[c2] is Continuation);
            assert(row2[c2 - 1] is Continuation || row2[c2 - 1] is Glyph);
            if c2 - 1 == c {
                assert(display_width(row2[c]->Glyph_0) == w);
            }
        } else {
            assert(row2[c2] == r1[c2]);
            assert(wf_cell(r1, c2));
            match r1[c2] {
                CellView::Empty => {},
                CellView::Glyph(g2) => {
                    let w2 = display_width(g2) as int;
                    let o2 = owned_cols(display_width(g2)) as int;
                    assert forall|j: int| c2 < j < c2 + w2 implies (#[trigger] row2[j])
                        is Continuation by {
                        assert(r1[j] is Continuation);
                        assert(!(c <= j < c + s));
                    }
                    if c2 + o2 < row2.len() {
                        if c2 + o2 == c {
                            assert(!(row2[c2 + o2] is Continuation));
                        } else if c < c2 + o2 < c + w {
                            // then the cleared cell at c would sit inside
                            // this glyph's owned columns
                            assert(c2 < c < c2 + o2);
                            assert(r1[c] is Continuation);
                            assert(false);
                        } else {
                            assert(row2[c2 + o2] == r1[c2 + o2]);
                        }
                    }
                },
                CellView::Continuation => {
                    if c <= c2 - 1 < c + s {
                        assert(c2 == c + s);
                        assert(r1[c2 - 1] is Empty);
                        assert(false);
                    } else {
                        assert(row2[c2 - 1] == r1[c2 - 1]);
                    }
                },
            }
        }
    }
}

/// Placing a glyph on the grid: the touched row is `set_row` of what stood
/// there (or of an empty row), any rows created to reach it are empty, and
/// every other row is untouched.
pub proof fn lemma_set_grid(grid: Seq<Seq<CellView>>, r: int, c: int, g: Seq<char>)
    requires
        wf_grid(grid),
        0 <= r,
        0 <= c,
    ensures
        ({
            let grid2 = set_grid(grid, r, c, g);
            let old_row: Seq<CellView> = if r < grid.len() {
                grid[r]
            } else {
                Seq::empty()
            };
            &&& grid2.len() == if r + 1 <= grid.len() {
                grid.len() as int
            } else {
                r + 1
            }
            &&& wf_grid(grid2)
            &&& grid2[r] == set_row(old_row, c, g)
            &&& (forall|i: int| 0 <= i < grid.len() && i != r ==> #[trigger] grid2[i] == grid[i])
            &&& (forall|i: int|
                grid.len() <= i < grid2.len() && i != r ==> (#[trigger] grid2[i]).len() == 0)
        }),
{
    let gg = pad_grid(grid, r + 1);
    let grid2 = set_grid(grid, r, c, g);
    let old_row: Seq<CellView> = if r < grid.len() {
        grid[r]
    } else {
        Seq::empty()
    };
    assert(gg[r] == old_row);
    assert(wf_row(old_row));
    lemma_set_row(old_row, c, g);
    assert forall|i: int| 0 <= i < grid2.len() implies wf_row(#[trigger] grid2[i]) by {
        if i != r {
            if i < grid.len() {
                assert(grid2[i] == grid[i]);
            } else {
                assert(grid2[i] == Seq::<CellView>::empty());
            }
        }
    }
}

/// Clearing a grid position: the touched row is `clear_at` of what stood
/// there, every other row is untouched, and nothing happens outside the
/// stored rows.
pub proof fn lemma_clear_grid(grid: Seq<Seq<CellView>>, r: int, c: int)
    requires
        wf_grid(grid),
    ensures
        ({
            let grid2 = clear_grid(grid, r, c);
            &&& grid2.len() == grid.len()
            &&& wf_grid(grid2)
            &&& (0 <= r < grid.len() ==> grid2[r] == clear_at(grid[r], c) && (forall|i: int|
                0 <= i < grid.len() && i != r ==> #[trigger] grid2[i] == grid[i]))
            &&& (!(0 <= r < grid.len()) ==> grid2 == grid)
        }),
{
    if 0 <= r < grid.len() {
        lemma_clear_at(grid[r], c);
        let grid2 = clear_grid(grid, r, c);
        assert forall|i: int| 0 <= i < grid2.len() implies wf_row(#[trigger] grid2[i]) by {
            if i != r {
                assert(grid2[i] == grid[i]);
            }
        }
    }
}

} // verus!

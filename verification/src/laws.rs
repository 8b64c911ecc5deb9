//! The library's stated laws: what placing, clearing and compositing
//! guarantee, proved once and for all over the grid model.

use vstd::prelude::*;
use crate::buffer_mixer::MixerLayer;
use crate::buffer_mixer::blit;
use crate::buffer_mixer::blit_row;
use crate::buffer_mixer::mix_from;
use crate::buffer_mixer::mix_spec;
use crate::grid_model::lemma_spans_disjoint;
use crate::buffer_mixer::box_bottom;
use crate::buffer_mixer::box_left;
use crate::buffer_mixer::box_right;
use crate::buffer_mixer::box_top;
use crate::grid_model::CellView;
use crate::grid_model::lemma_set_grid;
use crate::grid_model::set_grid;
use crate::grid_model::wf_grid;
use crate::grid_model::render_spec;
use crate::grid_model::render_rows;
use crate::grid_model::render_row;
use crate::print_buffer::from_text;
use crate::print_buffer::place_lines;
use crate::print_buffer::place_row;
use crate::unicode::graphemes_of;
use crate::unicode::lines_spec;
use crate::grid_model::anchor_of;
use crate::grid_model::clear_at;
use crate::grid_model::glyph_owned;
use crate::grid_model::lemma_anchor_in_span;
use crate::grid_model::lemma_clear_at;
use crate::grid_model::lemma_render_split;
use crate::grid_model::lemma_set_row;
use crate::grid_model::owned_cols;
use crate::grid_model::render_cell;
use crate::grid_model::render_range;
use crate::grid_model::set_row;
use crate::grid_model::span_hits;
use crate::grid_model::wf_row;
use crate::unicode::display_width;

verus! {

/// A range of continuation cells contributes nothing to the rendered text.
proof fn lemma_render_continuations(row: Seq<CellView>, lo: int, hi: int)
    requires
        forall|j: int| lo <= j < hi ==> (#[trigger] row[j]) is Continuation,
    ensures
        render_range(row, lo, hi) == Seq::<char>::empty(),
    decreases hi - lo,
{
    if lo < hi {
        lemma_render_continuations(row, lo + 1, hi);
        assert(render_range(row, lo, hi) =~= Seq::<char>::empty());
    }
}

/// Writing a glyph of width `w >= 1` at column `c` puts its text there and
/// nothing else in its trailing columns: the rendered row is the rendering
/// of the cells before `c`, then exactly the glyph's text, then the
/// rendering of the cells from `c + w` on.
pub proof fn lemma_write_then_render(row: Seq<CellView>, c: int, g: Seq<char>)
    requires
        wf_row(row),
        0 <= c,
    ensures
        set_row(row, c, g)[c] == CellView::Glyph(g),
        forall|j: int|
            c < j < c + display_width(g) ==> (#[trigger] set_row(row, c, g)[j]) is Continuation
                && render_cell(set_row(row, c, g)[j]) == Seq::<char>::empty(),
        display_width(g) >= 1 ==> render_range(set_row(row, c, g), 0, set_row(row, c, g).len() as int)
            == render_range(set_row(row, c, g), 0, c) + g + render_range(
            set_row(row, c, g),
            c + display_width(g),
            set_row(row, c, g).len() as int,
        ),
{
    lemma_set_row(row, c, g);
    let row2 = set_row(row, c, g);
    let w = display_width(g) as int;
    if display_width(g) >= 1 {
        let n = row2.len() as int;
        lemma_render_split(row2, 0, c, n);
        lemma_render_split(row2, c, c + w, n);
        lemma_render_split(row2, c, c + 1, c + w);
        lemma_render_continuations(row2, c + 1, c + w);
        assert(render_range(row2, c + 1, c + 1) =~= Seq::<char>::empty());
        assert(render_range(row2, c, c + 1) =~= g);
        assert(render_range(row2, c, c + w) =~= g);
        assert(render_range(row2, 0, c) + (render_range(row2, c, c + w) + render_range(
            row2,
            c + w,
            n,
        )) =~= render_range(row2, 0, c) + g + render_range(row2, c + w, n));
    }
}

/// Overwrite completeness: after a width-2 glyph is written at column `c`
/// and a width-1 glyph is later written at column `c + 1`, the wide glyph is
/// gone whole — column `c` is empty, not a dangling anchor.
pub proof fn lemma_overwrite_removes_whole_glyph(
    row: Seq<CellView>,
    c: int,
    g1: Seq<char>,
    g2: Seq<char>,
)
    requires
        wf_row(row),
        0 <= c,
    ensures
        display_width(g1) == 2 && display_width(g2) == 1 ==> {
            let row2 = set_row(set_row(row, c, g1), c + 1, g2);
            &&& row2[c] is Empty
            &&& row2[c + 1] == CellView::Glyph(g2)
        },
{
    if display_width(g1) == 2 && display_width(g2) == 1 {
        lemma_set_row(row, c, g1);
        let row1 = set_row(row, c, g1);
        lemma_set_row(row1, c + 1, g2);
        assert(anchor_of(row1, c) == c);
        assert(glyph_owned(row1, c) == 2);
        assert(span_hits(row1, c, c + 1, c + 2));
    }
}

/// Clearing any column within a glyph's owned span removes the whole glyph,
/// whichever column of the span was targeted: the result is the same as
/// clearing the anchor itself, the span's columns are empty, and everything
/// else is untouched.
pub proof fn lemma_clear_any_span_column(row: Seq<CellView>, a: int, x: int)
    requires
        wf_row(row),
        0 <= a < row.len(),
        row[a] is Glyph,
        a <= x < a + glyph_owned(row, a),
    ensures
        clear_at(row, x) == clear_at(row, a),
        forall|j: int| a <= j < a + glyph_owned(row, a) ==> (#[trigger] clear_at(row, x)[j]) is Empty,
        forall|j: int|
            0 <= j < row.len() && !(a <= j < a + glyph_owned(row, a)) ==> #[trigger] clear_at(
                row,
                x,
            )[j] == row[j],
{
    lemma_anchor_in_span(row, a, x);
    lemma_clear_at(row, x);
    lemma_clear_at(row, a);
    assert(anchor_of(row, a) == a);
}

/// Each edge of a bounding box is attained: it is 0 or some layer's own
/// edge.
proof fn lemma_box_attained(ls: Seq<MixerLayer>)
    ensures
        box_top(ls) == 0 || exists|i: int|
            0 <= i < ls.len() && box_top(ls) == (#[trigger] ls[i]).line_offset,
        box_left(ls) == 0 || exists|i: int|
            0 <= i < ls.len() && box_left(ls) == (#[trigger] ls[i]).column_offset,
        box_bottom(ls) == 0 || exists|i: int|
            0 <= i < ls.len() && box_bottom(ls) == (#[trigger] ls[i]).line_offset
                + ls[i].buffer@.len(),
        box_right(ls) == 0 || exists|i: int|
            0 <= i < ls.len() && box_right(ls) == (#[trigger] ls[i]).column_offset
                + crate::grid_model::max_cols(ls[i].buffer@),
    decreases ls.len(),
{
    if ls.len() > 0 {
        lemma_box_attained(ls.drop_last());
        let n = ls.len() - 1;
        assert(ls[n] == ls.last());
        assert(forall|i: int| 0 <= i < n ==> #[trigger] ls.drop_last()[i] == ls[i]);
    }
}

/// The bounding box is order independent: two layer sequences holding the
/// same layers, in any order, derive the same box (the visual result of
/// mixing may still differ, the box does not).
pub proof fn lemma_box_order_independent(ls1: Seq<MixerLayer>, ls2: Seq<MixerLayer>)
    requires
        ls1.to_multiset() == ls2.to_multiset(),
    ensures
        box_top(ls1) == box_top(ls2),
        box_left(ls1) == box_left(ls2),
        box_bottom(ls1) == box_bottom(ls2),
        box_right(ls1) == box_right(ls2),
{
    broadcast use vstd::seq_lib::group_to_multiset_ensures;

    crate::buffer_mixer::lemma_box_bounds(ls1);
    crate::buffer_mixer::lemma_box_bounds(ls2);
    lemma_box_attained(ls1);
    lemma_box_attained(ls2);
    assert forall|x: MixerLayer| ls1.contains(x) implies ls2.contains(x) by {
        assert(ls1.to_multiset().count(x) > 0);
    }
    assert forall|x: MixerLayer| ls2.contains(x) implies ls1.contains(x) by {
        assert(ls2.to_multiset().count(x) > 0);
    }
    if box_top(ls1) != 0 {
        let i = choose|i: int| 0 <= i < ls1.len() && box_top(ls1) == (#[trigger] ls1[i]).line_offset;
        assert(ls1.contains(ls1[i]));
        let j = choose|j: int| 0 <= j < ls2.len() && ls2[j] == ls1[i];
        assert(box_top(ls2) <= box_top(ls1));
    }
    if box_top(ls2) != 0 {
        let i = choose|i: int| 0 <= i < ls2.len() && box_top(ls2) == (#[trigger] ls2[i]).line_offset;
        assert(ls2.contains(ls2[i]));
        let j = choose|j: int| 0 <= j < ls1.len() && ls1[j] == ls2[i];
        assert(box_top(ls1) <= box_top(ls2));
    }
    if box_left(ls1) != 0 {
        let i = choose|i: int|
            0 <= i < ls1.len() && box_left(ls1) == (#[trigger] ls1[i]).column_offset;
        assert(ls1.contains(ls1[i]));
        let j = choose|j: int| 0 <= j < ls2.len() && ls2[j] == ls1[i];
        assert(box_left(ls2) <= box_left(ls1));
    }
    if box_left(ls2) != 0 {
        let i = choose|i: int|
            0 <= i < ls2.len() && box_left(ls2) == (#[trigger] ls2[i]).column_offset;
        assert(ls2.contains(ls2[i]));
        let j = choose|j: int| 0 <= j < ls1.len() && ls1[j] == ls2[i];
        assert(box_left(ls1) <= box_left(ls2));
    }
    if box_bottom(ls1) != 0 {
        let i = choose|i: int|
            0 <= i < ls1.len() && box_bottom(ls1) == (#[trigger] ls1[i]).line_offset
                + ls1[i].buffer@.len();
        assert(ls1.contains(ls1[i]));
        let j = choose|j: int| 0 <= j < ls2.len() && ls2[j] == ls1[i];
        assert(box_bottom(ls2) >= box_bottom(ls1));
    }
    if box_bottom(ls2) != 0 {
        let i = choose|i: int|
            0 <= i < ls2.len() && box_bottom(ls2) == (#[trigger] ls2[i]).line_offset
                + ls2[i].buffer@.len();
        assert(ls2.contains(ls2[i]));
        let j = choose|j: int| 0 <= j < ls1.len() && ls1[j] == ls2[i];
        assert(box_bottom(ls1) >= box_bottom(ls2));
    }
    if box_right(ls1) != 0 {
        let i = choose|i: int|
            0 <= i < ls1.len() && box_right(ls1) == (#[trigger] ls1[i]).column_offset
                + crate::grid_model::max_cols(ls1[i].buffer@);
        assert(ls1.contains(ls1[i]));
        let j = choose|j: int| 0 <= j < ls2.len() && ls2[j] == ls1[i];
        assert(box_right(ls2) >= box_right(ls1));
    }
    if box_right(ls2) != 0 {
        let i = choose|i: int|
            0 <= i < ls2.len() && box_right(ls2) == (#[trigger] ls2[i]).column_offset
                + crate::grid_model::max_cols(ls2[i].buffer@);
        assert(ls2.contains(ls2[i]));
        let j = choose|j: int| 0 <= j < ls1.len() && ls1[j] == ls2[i];
        assert(box_right(ls1) >= box_right(ls2));
    }
}

/// Blitting part of a row onto a target keeps the target well formed and
/// never shrinks it.
proof fn lemma_blit_row_grows(
    acc: Seq<Seq<CellView>>,
    row: Seq<CellView>,
    tr: int,
    bc: int,
    c: int,
)
    requires
        wf_grid(acc),
        wf_row(row),
        tr >= 0,
        bc >= 0,
        0 <= c,
    ensures
        ({
            let out = blit_row(acc, row, tr, bc, c);
            &&& wf_grid(out)
            &&& out.len() >= acc.len()
            &&& forall|q: int| 0 <= q < acc.len() ==> (#[trigger] out[q]).len() >= acc[q].len()
        }),
    decreases row.len() - c,
{
    if c < row.len() {
        if row[c] is Glyph {
            let acc2 = set_grid(acc, tr, bc + c, row[c]->Glyph_0);
            lemma_set_grid(acc, tr, bc + c, row[c]->Glyph_0);
            let old_row: Seq<CellView> = if tr < acc.len() {
                acc[tr]
            } else {
                Seq::empty()
            };
            lemma_set_row(old_row, bc + c, row[c]->Glyph_0);
            lemma_blit_row_grows(acc2, row, tr, bc, c + 1);
        } else {
            lemma_blit_row_grows(acc, row, tr, bc, c + 1);
        }
    }
}

/// A glyph standing in the target survives blitting a row none of whose
/// glyphs land on its columns.
proof fn lemma_blit_row_preserves(
    acc: Seq<Seq<CellView>>,
    row: Seq<CellView>,
    tr: int,
    bc: int,
    c: int,
    tgt_r: int,
    tgt_a: int,
)
    requires
        wf_grid(acc),
        wf_row(row),
        tr >= 0,
        bc >= 0,
        0 <= c,
        0 <= tgt_r < acc.len(),
        0 <= tgt_a < acc[tgt_r].len(),
        acc[tgt_r][tgt_a] is Glyph,
        forall|j: int|
            c <= j < row.len() && (#[trigger] row[j]) is Glyph ==> tgt_r != tr || bc + j
                + owned_cols(display_width(row[j]->Glyph_0)) <= tgt_a || tgt_a + glyph_owned(
                acc[tgt_r],
                tgt_a,
            ) <= bc + j,
    ensures
        ({
            let out = blit_row(acc, row, tr, bc, c);
            &&& out.len() >= acc.len()
            &&& out[tgt_r].len() >= acc[tgt_r].len()
            &&& forall|k: int|
                tgt_a <= k < tgt_a + glyph_owned(acc[tgt_r], tgt_a) ==> #[trigger] out[tgt_r][k]
                    == acc[tgt_r][k]
        }),
    decreases row.len() - c,
{
    lemma_blit_row_grows(acc, row, tr, bc, c);
    if c < row.len() {
        if row[c] is Glyph {
            let g = row[c]->Glyph_0;
            let acc2 = set_grid(acc, tr, bc + c, g);
            lemma_set_grid(acc, tr, bc + c, g);
            let old_row: Seq<CellView> = if tr < acc.len() {
                acc[tr]
            } else {
                Seq::empty()
            };
            lemma_set_row(old_row, bc + c, g);
            assert forall|k: int|
                tgt_a <= k < tgt_a + glyph_owned(acc[tgt_r], tgt_a) implies #[trigger] acc2[tgt_r][k]
                == acc[tgt_r][k] by {
                if tgt_r == tr {
                    crate::grid_model::lemma_owner(acc[tgt_r], tgt_a);
                    lemma_anchor_in_span(acc[tgt_r], tgt_a, k);
                    assert(anchor_of(acc[tgt_r], k) == tgt_a);
                    assert(!span_hits(
                        acc[tgt_r],
                        k,
                        bc + c,
                        bc + c + owned_cols(display_width(g)),
                    ));
                    assert(!(bc + c <= k < bc + c + owned_cols(display_width(g))));
                }
            }
            assert(acc2[tgt_r][tgt_a] == acc[tgt_r][tgt_a]);
            assert(glyph_owned(acc2[tgt_r], tgt_a) == glyph_owned(acc[tgt_r], tgt_a));
            lemma_blit_row_preserves(acc2, row, tr, bc, c + 1, tgt_r, tgt_a);
        } else {
            lemma_blit_row_preserves(acc, row, tr, bc, c + 1, tgt_r, tgt_a);
        }
    }
}

/// Blitting a row writes each of its glyphs, anchor and continuation cells,
/// at the glyph's target columns.
proof fn lemma_blit_row_writes(
    acc: Seq<Seq<CellView>>,
    row: Seq<CellView>,
    tr: int,
    bc: int,
    c: int,
    cc: int,
)
    requires
        wf_grid(acc),
        wf_row(row),
        tr >= 0,
        bc >= 0,
        0 <= c <= cc < row.len(),
        row[cc] is Glyph,
    ensures
        ({
            let out = blit_row(acc, row, tr, bc, c);
            &&& tr < out.len()
            &&& out[tr][bc + cc] == row[cc]
            &&& bc + cc + glyph_owned(row, cc) <= out[tr].len()
            &&& forall|k: int|
                cc < k < cc + display_width(row[cc]->Glyph_0) ==> (#[trigger] out[tr][bc + k])
                    is Continuation
        }),
    decreases row.len() - c,
{
    let g = row[cc]->Glyph_0;
    if c == cc {
        let acc2 = set_grid(acc, tr, bc + c, g);
        lemma_set_grid(acc, tr, bc + c, g);
        let old_row: Seq<CellView> = if tr < acc.len() {
            acc[tr]
        } else {
            Seq::empty()
        };
        lemma_set_row(old_row, bc + c, g);
        assert(acc2[tr][bc + cc] == row[cc]);
        assert forall|j: int|
            c + 1 <= j < row.len() && (#[trigger] row[j]) is Glyph implies bc + j + owned_cols(
            display_width(row[j]->Glyph_0),
        ) <= bc + cc || bc + cc + glyph_owned(acc2[tr], bc + cc) <= bc + j by {
            lemma_spans_disjoint(row, cc, j);
        }
        lemma_blit_row_preserves(acc2, row, tr, bc, c + 1, tr, bc + cc);
    } else {
        if row[c] is Glyph {
            let acc2 = set_grid(acc, tr, bc + c, row[c]->Glyph_0);
            lemma_set_grid(acc, tr, bc + c, row[c]->Glyph_0);
            let old_row: Seq<CellView> = if tr < acc.len() {
                acc[tr]
            } else {
                Seq::empty()
            };
            lemma_set_row(old_row, bc + c, row[c]->Glyph_0);
            lemma_blit_row_writes(acc2, row, tr, bc, c + 1, cc);
        } else {
            lemma_blit_row_writes(acc, row, tr, bc, c + 1, cc);
        }
    }
}

/// Blitting a whole buffer keeps the target well formed and never shrinks
/// it.
proof fn lemma_blit_grows(
    acc: Seq<Seq<CellView>>,
    src: Seq<Seq<CellView>>,
    br: int,
    bc: int,
    r: int,
)
    requires
        wf_grid(acc),
        wf_grid(src),
        br >= 0,
        bc >= 0,
        0 <= r,
    ensures
        ({
            let out = blit(acc, src, br, bc, r);
            &&& wf_grid(out)
            &&& out.len() >= acc.len()
            &&& forall|q: int| 0 <= q < acc.len() ==> (#[trigger] out[q]).len() >= acc[q].len()
        }),
    decreases src.len() - r,
{
    if r < src.len() {
        lemma_blit_row_grows(acc, src[r], br + r, bc, 0);
        lemma_blit_grows(blit_row(acc, src[r], br + r, bc, 0), src, br, bc, r + 1);
    }
}

/// A glyph standing in the target survives blitting a buffer none of whose
/// glyphs land on its columns.
proof fn lemma_blit_preserves(
    acc: Seq<Seq<CellView>>,
    src: Seq<Seq<CellView>>,
    br: int,
    bc: int,
    r: int,
    tgt_r: int,
    tgt_a: int,
)
    requires
        wf_grid(acc),
        wf_grid(src),
        br >= 0,
        bc >= 0,
        0 <= r,
        0 <= tgt_r < acc.len(),
        0 <= tgt_a < acc[tgt_r].len(),
        acc[tgt_r][tgt_a] is Glyph,
        forall|r2: int, j: int|
            r <= r2 < src.len() && 0 <= j < src[r2].len() && (#[trigger] src[r2][j]) is Glyph
                ==> tgt_r != br + r2 || bc + j + owned_cols(display_width(src[r2][j]->Glyph_0))
                <= tgt_a || tgt_a + glyph_owned(acc[tgt_r], tgt_a) <= bc + j,
    ensures
        ({
            let out = blit(acc, src, br, bc, r);
            &&& out.len() >= acc.len()
            &&& out[tgt_r].len() >= acc[tgt_r].len()
            &&& forall|k: int|
                tgt_a <= k < tgt_a + glyph_owned(acc[tgt_r], tgt_a) ==> #[trigger] out[tgt_r][k]
                    == acc[tgt_r][k]
        }),
    decreases src.len() - r,
{
    lemma_blit_grows(acc, src, br, bc, r);
    if r < src.len() {
        lemma_blit_row_grows(acc, src[r], br + r, bc, 0);
        lemma_blit_row_preserves(acc, src[r], br + r, bc, 0, tgt_r, tgt_a);
        let acc2 = blit_row(acc, src[r], br + r, bc, 0);
        assert(acc2[tgt_r][tgt_a] == acc[tgt_r][tgt_a]);
        assert(glyph_owned(acc2[tgt_r], tgt_a) == glyph_owned(acc[tgt_r], tgt_a));
        lemma_blit_preserves(acc2, src, br, bc, r + 1, tgt_r, tgt_a);
    }
}

/// Every glyph of a blitted buffer stands, anchor and continuation cells, at
/// its target coordinates in the result.
proof fn lemma_blit_writes(
    acc: Seq<Seq<CellView>>,
    src: Seq<Seq<CellView>>,
    br: int,
    bc: int,
    rr: int,
    cc: int,
)
    requires
        wf_grid(acc),
        wf_grid(src),
        br >= 0,
        bc >= 0,
        0 <= rr < src.len(),
        0 <= cc < src[rr].len(),
        src[rr][cc] is Glyph,
    ensures
        ({
            let out = blit(acc, src, br, bc, 0);
            &&& br + rr < out.len()
            &&& bc + cc < out[br + rr].len()
            &&& out[br + rr][bc + cc] == src[rr][cc]
            &&& forall|k: int|
                cc < k < cc + display_width(src[rr][cc]->Glyph_0) ==> (#[trigger] out[br + rr][bc
                    + k]) is Continuation
        }),
{
    lemma_blit_writes_from(acc, src, br, bc, 0, rr, cc);
}

proof fn lemma_blit_writes_from(
    acc: Seq<Seq<CellView>>,
    src: Seq<Seq<CellView>>,
    br: int,
    bc: int,
    r: int,
    rr: int,
    cc: int,
)
    requires
        wf_grid(acc),
        wf_grid(src),
        br >= 0,
        bc >= 0,
        0 <= r <= rr < src.len(),
        0 <= cc < src[rr].len(),
        src[rr][cc] is Glyph,
    ensures
        ({
            let out = blit(acc, src, br, bc, r);
            &&& br + rr < out.len()
            &&& bc + cc < out[br + rr].len()
            &&& out[br + rr][bc + cc] == src[rr][cc]
            &&& forall|k: int|
                cc < k < cc + display_width(src[rr][cc]->Glyph_0) ==> (#[trigger] out[br + rr][bc
                    + k]) is Continuation
        }),
    decreases src.len() - r,
{
    if r == rr {
        lemma_blit_row_writes(acc, src[rr], br + rr, bc, 0, cc);
        let acc2 = blit_row(acc, src[rr], br + rr, bc, 0);
        lemma_blit_row_grows(acc, src[rr], br + rr, bc, 0);
        // the rows after rr land below and leave this row alone
        assert forall|r2: int, j: int|
            r + 1 <= r2 < src.len() && 0 <= j < src[r2].len() && (#[trigger] src[r2][j]) is Glyph
                implies br + rr != br + r2 || bc + j + owned_cols(
            display_width(src[r2][j]->Glyph_0),
        ) <= bc + cc || bc + cc + glyph_owned(acc2[br + rr], bc + cc) <= bc + j by {}
        lemma_blit_preserves(acc2, src, br, bc, r + 1, br + rr, bc + cc);
        // the preserved columns cover the anchor and its continuation cells
        assert(glyph_owned(acc2[br + rr], bc + cc) == glyph_owned(src[rr], cc));
        assert forall|k: int|
            cc < k < cc + display_width(src[rr][cc]->Glyph_0) implies (#[trigger] blit(
            acc,
            src,
            br,
            bc,
            r,
        )[br + rr][bc + k]) is Continuation by {
            assert(blit(acc, src, br, bc, r)[br + rr][bc + k] == acc2[br + rr][bc + k]);
        }
    } else {
        lemma_blit_row_grows(acc, src[r], br + r, bc, 0);
        lemma_blit_writes_from(blit_row(acc, src[r], br + r, bc, 0), src, br, bc, r + 1, rr, cc);
    }
}

/// Occlusion, two layers: where the top layer holds a glyph, the mixed
/// buffer holds that glyph at its shifted coordinates; a glyph of the bottom
/// layer whose columns no glyph of the top layer touches stands untouched in
/// the mixed buffer, anchor and continuation cells alike.
pub proof fn lemma_two_layer_occlusion(
    a: MixerLayer,
    b: MixerLayer,
    top: int,
    left: int,
    rr: int,
    cc: int,
)
    requires
        wf_grid(a.buffer@),
        wf_grid(b.buffer@),
        top <= a.line_offset,
        top <= b.line_offset,
        left <= a.column_offset,
        left <= b.column_offset,
    ensures
        0 <= rr < b.buffer@.len() && 0 <= cc < b.buffer@[rr].len() && b.buffer@[rr][cc] is Glyph
            ==> mix_spec(seq![a, b], top, left)[b.line_offset - top + rr][b.column_offset - left
            + cc] == b.buffer@[rr][cc],
        (0 <= rr < a.buffer@.len() && 0 <= cc < a.buffer@[rr].len() && a.buffer@[rr][cc] is Glyph
            && (forall|r2: int, j: int|
            0 <= r2 < b.buffer@.len() && 0 <= j < b.buffer@[r2].len() && (
            #[trigger] b.buffer@[r2][j]) is Glyph ==> b.line_offset + r2 != a.line_offset + rr || (
            b.column_offset - left) + j + owned_cols(display_width(b.buffer@[r2][j]->Glyph_0)) <= (
            a.column_offset - left) + cc || (a.column_offset - left) + cc + glyph_owned(
                a.buffer@[rr],
                cc,
            ) <= (b.column_offset - left) + j)) ==> mix_spec(seq![a, b], top, left)[a.line_offset
            - top + rr][a.column_offset - left + cc] == a.buffer@[rr][cc],
{
    let ls = seq![a, b];
    assert(ls[0] == a);
    assert(ls[1] == b);
    let acc1 = blit(
        Seq::<Seq<CellView>>::empty(),
        a.buffer@,
        a.line_offset - top,
        a.column_offset - left,
        0,
    );
    let out = blit(acc1, b.buffer@, b.line_offset - top, b.column_offset - left, 0);
    assert(mix_from(Seq::<Seq<CellView>>::empty(), ls, top, left, 0) == mix_from(
        acc1,
        ls,
        top,
        left,
        1,
    ));
    assert(mix_from(acc1, ls, top, left, 1) == mix_from(out, ls, top, left, 2));
    assert(mix_spec(ls, top, left) == out);
    lemma_blit_grows(
        Seq::<Seq<CellView>>::empty(),
        a.buffer@,
        a.line_offset - top,
        a.column_offset - left,
        0,
    );
    if 0 <= rr < b.buffer@.len() && 0 <= cc < b.buffer@[rr].len() && b.buffer@[rr][cc] is Glyph {
        lemma_blit_writes(
            acc1,
            b.buffer@,
            b.line_offset - top,
            b.column_offset - left,
            rr,
            cc,
        );
    }
    if 0 <= rr < a.buffer@.len() && 0 <= cc < a.buffer@[rr].len() && a.buffer@[rr][cc] is Glyph
        && (forall|r2: int, j: int|
        0 <= r2 < b.buffer@.len() && 0 <= j < b.buffer@[r2].len() && (
        #[trigger] b.buffer@[r2][j]) is Glyph ==> b.line_offset + r2 != a.line_offset + rr || (
        b.column_offset - left) + j + owned_cols(display_width(b.buffer@[r2][j]->Glyph_0)) <= (
        a.column_offset - left) + cc || (a.column_offset - left) + cc + glyph_owned(
            a.buffer@[rr],
            cc,
        ) <= (b.column_offset - left) + j) {
        let tgt_r = a.line_offset - top + rr;
        let tgt_a = a.column_offset - left + cc;
        lemma_blit_writes(
            Seq::<Seq<CellView>>::empty(),
            a.buffer@,
            a.line_offset - top,
            a.column_offset - left,
            rr,
            cc,
        );
        assert(acc1[tgt_r][tgt_a] == a.buffer@[rr][cc]);
        assert(glyph_owned(acc1[tgt_r], tgt_a) == glyph_owned(a.buffer@[rr], cc));
        assert forall|r2: int, j: int|
            0 <= r2 < b.buffer@.len() && 0 <= j < b.buffer@[r2].len() && (
            #[trigger] b.buffer@[r2][j]) is Glyph implies tgt_r != (b.line_offset - top) + r2 || (
        b.column_offset - left) + j + owned_cols(display_width(b.buffer@[r2][j]->Glyph_0))
            <= tgt_a || tgt_a + glyph_owned(acc1[tgt_r], tgt_a) <= (b.column_offset - left)
            + j by {}
        lemma_blit_preserves(
            acc1,
            b.buffer@,
            b.line_offset - top,
            b.column_offset - left,
            0,
            tgt_r,
            tgt_a,
        );
    }
}

/// The row that width-1 clusters lay out: cluster `k` anchored at column `k`.
pub open spec fn glyph_row(gs: Seq<Seq<char>>, n: int) -> Seq<CellView> {
    Seq::new(n as nat, |k: int| CellView::Glyph(gs[k]))
}

proof fn lemma_glyph_row_wf(gs: Seq<Seq<char>>, n: int)
    requires
        0 <= n <= gs.len(),
        forall|k: int| 0 <= k < gs.len() ==> display_width(#[trigger] gs[k]) == 1,
    ensures
        wf_row(glyph_row(gs, n)),
{
    let row = glyph_row(gs, n);
    assert forall|c: int| 0 <= c < row.len() implies #[trigger] crate::grid_model::wf_cell(
        row,
        c,
    ) by {
        assert(row[c] == CellView::Glyph(gs[c]));
    }
}

/// Placing width-1 clusters `gs[i..]` from column `i` onto a row that
/// already holds `gs[..i]` lays the whole sequence out, one column each,
/// touching nothing else.
proof fn lemma_place_row_width1(grid: Seq<Seq<CellView>>, r: int, gs: Seq<Seq<char>>, i: int)
    requires
        wf_grid(grid),
        0 <= r,
        0 <= i <= gs.len(),
        gs.len() <= usize::MAX,
        forall|k: int| 0 <= k < gs.len() ==> display_width(#[trigger] gs[k]) == 1,
        (r < grid.len() && grid[r] == glyph_row(gs, i)) || (i == 0 && r >= grid.len()),
    ensures
        ({
            let out = place_row(grid, r, gs, i, i as nat);
            &&& wf_grid(out)
            &&& (i == gs.len() ==> out == grid)
            &&& (i < gs.len() ==> {
                &&& out.len() == if r + 1 <= grid.len() {
                    grid.len() as int
                } else {
                    r + 1
                }
                &&& out[r] == glyph_row(gs, gs.len() as int)
                &&& (forall|q: int| 0 <= q < grid.len() && q != r ==> #[trigger] out[q] == grid[q])
                &&& (forall|q: int|
                    grid.len() <= q < out.len() && q != r ==> (#[trigger] out[q]).len() == 0)
            })
        }),
    decreases gs.len() - i,
{
    if i < gs.len() {
        assert(display_width(gs[i]) == 1);
        assert(owned_cols(display_width(gs[i])) == 1);
        let old_row: Seq<CellView> = if r < grid.len() {
            grid[r]
        } else {
            Seq::empty()
        };
        assert(old_row =~= glyph_row(gs, i));
        lemma_glyph_row_wf(gs, i);
        assert(wf_row(old_row));
        let grid2 = set_grid(grid, r, i, gs[i]);
        lemma_set_grid(grid, r, i, gs[i]);
        lemma_set_row(old_row, i, gs[i]);
        let row2 = set_row(old_row, i, gs[i]);
        assert forall|j: int| 0 <= j < row2.len() implies row2[j] == glyph_row(gs, i + 1)[j] by {
            if j < i {
                assert(old_row[j] == CellView::Glyph(gs[j]));
                assert(anchor_of(old_row, j) == j);
                assert(glyph_owned(old_row, j) == 1);
                assert(!span_hits(old_row, j, i, i + 1));
                assert(row2[j] == old_row[j]);
            }
        }
        assert(row2 =~= glyph_row(gs, i + 1));
        lemma_place_row_width1(grid2, r, gs, i + 1);
        assert(place_row(grid, r, gs, i, i as nat) == place_row(
            grid2,
            r,
            gs,
            i + 1,
            (i + 1) as nat,
        ));
    }
}

/// Placing every remaining line of width-1 clusters: each stored row is the
/// laid-out clusters of its line, and a line beyond the stored rows has no
/// clusters at all.
proof fn lemma_place_lines_width1(grid: Seq<Seq<CellView>>, ls: Seq<Seq<char>>, r: int)
    requires
        wf_grid(grid),
        0 <= r <= ls.len(),
        grid.len() <= r,
        forall|q: int| 0 <= q < ls.len() ==> graphemes_of(#[trigger] ls[q]).len() <= usize::MAX,
        forall|q: int, k: int|
            0 <= q < ls.len() && 0 <= k < graphemes_of(ls[q]).len() ==> display_width(
                #[trigger] graphemes_of(ls[q])[k],
            ) == 1,
        forall|q: int|
            0 <= q < grid.len() ==> #[trigger] grid[q] == glyph_row(
                graphemes_of(ls[q]),
                graphemes_of(ls[q]).len() as int,
            ),
        forall|q: int| grid.len() <= q < r ==> graphemes_of(#[trigger] ls[q]).len() == 0,
    ensures
        ({
            let out = place_lines(grid, ls, r);
            &&& wf_grid(out)
            &&& out.len() <= ls.len()
            &&& (forall|q: int|
                0 <= q < out.len() ==> #[trigger] out[q] == glyph_row(
                    graphemes_of(ls[q]),
                    graphemes_of(ls[q]).len() as int,
                ))
            &&& (forall|q: int| out.len() <= q < ls.len() ==> graphemes_of(#[trigger] ls[q]).len() == 0)
        }),
    decreases ls.len() - r,
{
    if r < ls.len() {
        let gs = graphemes_of(ls[r]);
        lemma_place_row_width1(grid, r, gs, 0);
        let grid2 = place_row(grid, r, gs, 0, 0);
        if gs.len() == 0 {
            lemma_place_lines_width1(grid, ls, r + 1);
        } else {
            assert forall|q: int| 0 <= q < grid2.len() implies #[trigger] grid2[q] == glyph_row(
                graphemes_of(ls[q]),
                graphemes_of(ls[q]).len() as int,
            ) by {
                if q != r {
                    if q < grid.len() {
                        assert(grid2[q] == grid[q]);
                    } else {
                        assert(grid2[q].len() == 0);
                        assert(graphemes_of(ls[q]).len() == 0);
                        assert(grid2[q] =~= glyph_row(
                            graphemes_of(ls[q]),
                            graphemes_of(ls[q]).len() as int,
                        ));
                    }
                }
            }
            lemma_place_lines_width1(grid2, ls, r + 1);
        }
    } else {
        assert forall|q: int|
            0 <= q < grid.len() implies #[trigger] grid[q] == glyph_row(
            graphemes_of(ls[q]),
            graphemes_of(ls[q]).len() as int,
        ) by {}
    }
}

/// A row of width-1 glyphs renders as the concatenation of their texts.
proof fn lemma_render_glyph_row(gs: Seq<Seq<char>>, i: int)
    requires
        0 <= i <= gs.len(),
    ensures
        render_range(glyph_row(gs, gs.len() as int), i, gs.len() as int) == gs.skip(i).flatten(),
    decreases gs.len() - i,
{
    let row = glyph_row(gs, gs.len() as int);
    if i < gs.len() {
        lemma_render_glyph_row(gs, i + 1);
        assert(gs.skip(i).first() == gs[i]);
        assert(gs.skip(i).drop_first() =~= gs.skip(i + 1));
        assert(render_cell(row[i]) == gs[i]);
        assert(gs.skip(i).flatten() == gs[i] + gs.skip(i + 1).flatten());
    } else {
        assert(gs.skip(i) =~= Seq::<Seq<char>>::empty());
        assert(Seq::<Seq<char>>::empty().flatten() =~= Seq::<char>::empty());
        assert(render_range(row, i, gs.len() as int) =~= Seq::<char>::empty());
    }
}

/// The lines of a text joined back together, a terminator after each row.
pub open spec fn join_lines(ls: Seq<Seq<char>>) -> Seq<char>
    decreases ls.len(),
{
    if ls.len() == 0 {
        Seq::empty()
    } else {
        join_lines(ls.drop_last()) + ls.last() + seq!['\n']
    }
}

proof fn lemma_render_rows_glyph(grid: Seq<Seq<CellView>>, ls: Seq<Seq<char>>, r: int)
    requires
        0 <= r <= grid.len(),
        grid.len() == ls.len(),
        forall|q: int|
            0 <= q < grid.len() ==> #[trigger] grid[q] == glyph_row(
                graphemes_of(ls[q]),
                graphemes_of(ls[q]).len() as int,
            ),
        forall|q: int|
            0 <= q < ls.len() ==> graphemes_of(#[trigger] ls[q]).flatten() == ls[q],
    ensures
        render_rows(grid, r) == join_lines(ls.take(r)),
    decreases r,
{
    if r > 0 {
        lemma_render_rows_glyph(grid, ls, r - 1);
        let gs = graphemes_of(ls[r - 1]);
        lemma_render_glyph_row(gs, 0);
        assert(gs.skip(0) =~= gs);
        assert(grid[r - 1].len() == gs.len());
        assert(render_row(grid[r - 1]) == render_range(grid[r - 1], 0, gs.len() as int) + seq![
            '\n',
        ]);
        assert(render_row(grid[r - 1]) =~= ls[r - 1] + seq!['\n']);
        assert(ls.take(r).drop_last() =~= ls.take(r - 1));
        assert(ls.take(r).last() == ls[r - 1]);
        assert(join_lines(ls.take(r)) == join_lines(ls.take(r - 1)) + ls[r - 1] + seq!['\n']);
        assert(render_rows(grid, r - 1) + (ls[r - 1] + seq!['\n']) =~= render_rows(grid, r - 1)
            + ls[r - 1] + seq!['\n']);
    } else {
        assert(ls.take(0) =~= Seq::<Seq<char>>::empty());
    }
}

/// Round trip: a text whose lines split into clusters that give the line
/// back and are all one column wide builds a buffer that renders as exactly
/// those lines, each closed by a terminator. (A text whose last line has no
/// clusters stores fewer rows and renders without the final blank rows.)
pub proof fn lemma_from_text_render_round_trip(s: Seq<char>)
    requires
        forall|q: int|
            0 <= q < lines_spec(s).len() ==> graphemes_of(#[trigger] lines_spec(s)[q]).flatten()
                == lines_spec(s)[q],
        forall|q: int|
            0 <= q < lines_spec(s).len() ==> graphemes_of(#[trigger] lines_spec(s)[q]).len()
                <= usize::MAX,
        forall|q: int, k: int|
            0 <= q < lines_spec(s).len() && 0 <= k < graphemes_of(lines_spec(s)[q]).len()
                ==> display_width(#[trigger] graphemes_of(lines_spec(s)[q])[k]) == 1,
        lines_spec(s).len() == 0 || graphemes_of(lines_spec(s).last()).len() > 0,
    ensures
        render_spec(from_text(s)) == join_lines(lines_spec(s)),
{
    let ls = lines_spec(s);
    let out = from_text(s);
    assert(out == place_lines(Seq::<Seq<CellView>>::empty(), ls, 0));
    lemma_place_lines_width1(Seq::<Seq<CellView>>::empty(), ls, 0);
    if ls.len() > 0 && out.len() < ls.len() {
        assert(graphemes_of(ls[ls.len() - 1]).len() == 0);
        assert(false);
    }
    if ls.len() == 0 {
        assert(out.len() == 0);
        assert(ls.take(0) =~= ls);
        lemma_render_rows_glyph(out, ls, 0);
    } else {
        assert(out.len() == ls.len());
        lemma_render_rows_glyph(out, ls, ls.len() as int);
        assert(ls.take(ls.len() as int) =~= ls);
    }
}

} // verus!

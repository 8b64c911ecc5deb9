//! The layer compositor: offset-anchored buffers merged back to front into
//! one flat buffer, in a bounding box that always contains the origin.

use vstd::prelude::*;
use crate::grid_model::CellView;
use crate::grid_model::lemma_max_cols_bound;
use crate::grid_model::max_cols;
use crate::grid_model::owned_cols;
use crate::grid_model::set_grid;
use crate::grid_model::wf_cell;
use crate::grid_model::wf_grid;
use crate::grid_model::wf_row;
use crate::print_buffer::PrintBuffer;
use crate::print_buffer::PrintLocation;
use crate::print_buffer::rv;
use crate::unicode::display_width;

verus! {

/// A grid buffer anchored at an integer (row, column) offset in the shared
/// coordinate space.
#[derive(Debug, Clone)]
pub struct MixerLayer {
    pub line_offset: isize,
    pub column_offset: isize,
    pub buffer: PrintBuffer,
}

/// The back-to-front sequence of layers and its derived bounding box:
/// `top`/`left` inclusive, `bottom`/`right` exclusive.
#[derive(Debug, Clone)]
pub struct BufferMixer {
    pub top: isize,
    pub left: isize,
    pub bottom: isize,
    pub right: isize,
    pub layers: Vec<MixerLayer>,
}

/// The top edge of the bounding box: the least of 0 and every layer's row
/// offset.
pub open spec fn box_top(ls: Seq<MixerLayer>) -> int
    decreases ls.len(),
{
    if ls.len() == 0 {
        0
    } else {
        let prev = box_top(ls.drop_last());
        let t = ls.last().line_offset as int;
        if t < prev {
            t
        } else {
            prev
        }
    }
}

/// The left edge: the least of 0 and every layer's column offset.
pub open spec fn box_left(ls: Seq<MixerLayer>) -> int
    decreases ls.len(),
{
    if ls.len() == 0 {
        0
    } else {
        let prev = box_left(ls.drop_last());
        let l = ls.last().column_offset as int;
        if l < prev {
            l
        } else {
            prev
        }
    }
}

/// The bottom edge: the greatest of 0 and every layer's row offset plus its
/// row count.
pub open spec fn box_bottom(ls: Seq<MixerLayer>) -> int
    decreases ls.len(),
{
    if ls.len() == 0 {
        0
    } else {
        let prev = box_bottom(ls.drop_last());
        let b = ls.last().line_offset + ls.last().buffer@.len();
        if b > prev {
            b
        } else {
            prev
        }
    }
}

/// The right edge: the greatest of 0 and every layer's column offset plus its
/// widest row.
pub open spec fn box_right(ls: Seq<MixerLayer>) -> int
    decreases ls.len(),
{
    if ls.len() == 0 {
        0
    } else {
        let prev = box_right(ls.drop_last());
        let r = ls.last().column_offset + max_cols(ls.last().buffer@);
        if r > prev {
            r
        } else {
            prev
        }
    }
}

/// The box always contains the origin and covers every layer's extent.
pub proof fn lemma_box_bounds(ls: Seq<MixerLayer>)
    ensures
        box_top(ls) <= 0,
        box_left(ls) <= 0,
        box_bottom(ls) >= 0,
        box_right(ls) >= 0,
        forall|i: int| 0 <= i < ls.len() ==> box_top(ls) <= (#[trigger] ls[i]).line_offset,
        forall|i: int| 0 <= i < ls.len() ==> box_left(ls) <= (#[trigger] ls[i]).column_offset,
        forall|i: int|
            0 <= i < ls.len() ==> (#[trigger] ls[i]).line_offset + ls[i].buffer@.len()
                <= box_bottom(ls),
        forall|i: int|
            0 <= i < ls.len() ==> (#[trigger] ls[i]).column_offset + max_cols(ls[i].buffer@)
                <= box_right(ls),
    decreases ls.len(),
{
    if ls.len() > 0 {
        lemma_box_bounds(ls.drop_last());
        assert forall|i: int| 0 <= i < ls.len() implies box_top(ls) <= (
        #[trigger] ls[i]).line_offset && box_left(ls) <= ls[i].column_offset && ls[i].line_offset
            + ls[i].buffer@.len() <= box_bottom(ls) && ls[i].column_offset + max_cols(
            ls[i].buffer@,
        ) <= box_right(ls) by {
            if i < ls.len() - 1 {
                assert(ls.drop_last()[i] == ls[i]);
            }
        }
    }
}

/// One source row copied into the target: each glyph of `row[c..]` is placed
/// at target row `tr`, target column `bc + c`.
pub open spec fn blit_row(
    acc: Seq<Seq<CellView>>,
    row: Seq<CellView>,
    tr: int,
    bc: int,
    c: int,
) -> Seq<Seq<CellView>>
    decreases row.len() - c,
{
    if c < 0 || c >= row.len() {
        acc
    } else {
        let acc2 = if row[c] is Glyph {
            set_grid(acc, tr, bc + c, row[c]->Glyph_0)
        } else {
            acc
        };
        blit_row(acc2, row, tr, bc, c + 1)
    }
}

/// One source buffer copied into the target, rows `r..` in order, shifted
/// by `(br, bc)`.
pub open spec fn blit(
    acc: Seq<Seq<CellView>>,
    src: Seq<Seq<CellView>>,
    br: int,
    bc: int,
    r: int,
) -> Seq<Seq<CellView>>
    decreases src.len() - r,
{
    if r < 0 || r >= src.len() {
        acc
    } else {
        blit(blit_row(acc, src[r], br + r, bc, 0), src, br, bc, r + 1)
    }
}

/// The layers `ls[i..]` blitted in order onto `acc`, each shifted from
/// its own coordinates to box coordinates.
pub open spec fn mix_from(
    acc: Seq<Seq<CellView>>,
    ls: Seq<MixerLayer>,
    top: int,
    left: int,
    i: int,
) -> Seq<Seq<CellView>>
    decreases ls.len() - i,
{
    if i < 0 || i >= ls.len() {
        acc
    } else {
        mix_from(
            blit(acc, ls[i].buffer@, ls[i].line_offset - top, ls[i].column_offset - left, 0),
            ls,
            top,
            left,
            i + 1,
        )
    }
}

/// The merged grid: every layer blitted back to front onto an empty buffer.
pub open spec fn mix_spec(ls: Seq<MixerLayer>, top: int, left: int) -> Seq<Seq<CellView>> {
    mix_from(Seq::empty(), ls, top, left, 0)
}

impl BufferMixer {
    /// The mixer's invariant: the box is exactly the derived bounding box of
    /// the layers, and every layer's buffer is well formed.
    pub open spec fn wf(&self) -> bool {
        &&& self.top as int == box_top(self.layers@)
        &&& self.left as int == box_left(self.layers@)
        &&& self.bottom as int == box_bottom(self.layers@)
        &&& self.right as int == box_right(self.layers@)
        &&& forall|i: int|
            0 <= i < self.layers@.len() ==> wf_grid((#[trigger] self.layers@[i]).buffer@)
    }

    /// An empty mixer: no layers, a zero-sized box at the origin.
    pub fn new() -> (r: Self)
        ensures
            r.wf(),
            r.layers@ == Seq::<MixerLayer>::empty(),
            r.top == 0 && r.left == 0 && r.bottom == 0 && r.right == 0,
    {
        let r = BufferMixer { top: 0, left: 0, right: 0, bottom: 0, layers: Vec::new() };
        proof {
            assert(r.layers@ =~= Seq::<MixerLayer>::empty());
        }
        r
    }

    /// Appends a layer at the front of the painter's order and widens the
    /// bounding box to cover its extent. The machine-size bounds keep the
    /// layer's far edges representable.
    pub fn add_layer(&mut self, layer: MixerLayer)
        requires
            old(self).wf(),
            wf_grid(layer.buffer@),
            layer.buffer@.len() <= isize::MAX,
            max_cols(layer.buffer@) <= isize::MAX,
            layer.line_offset + layer.buffer@.len() <= isize::MAX,
            layer.column_offset + max_cols(layer.buffer@) <= isize::MAX,
        ensures
            final(self).wf(),
            final(self).layers@ == old(self).layers@.push(layer),
            final(self).top == if layer.line_offset < old(self).top {
                layer.line_offset
            } else {
                old(self).top
            },
            final(self).left == if layer.column_offset < old(self).left {
                layer.column_offset
            } else {
                old(self).left
            },
            final(self).bottom as int == if layer.line_offset + layer.buffer@.len() > old(
                self,
            ).bottom as int {
                layer.line_offset + layer.buffer@.len()
            } else {
                old(self).bottom as int
            },
            final(self).right as int == if layer.column_offset + max_cols(layer.buffer@) > old(
                self,
            ).right as int {
                layer.column_offset + max_cols(layer.buffer@)
            } else {
                old(self).right as int
            },
    {
        let ghost l = layer;
        let layer_height = layer.buffer.lines_len();
        let layer_width = layer.buffer.columns_len();
        let layer_top = layer.line_offset;
        let layer_left = layer.column_offset;
        let layer_bottom = layer_top + (layer_height as isize);
        let layer_right = layer_left + (layer_width as isize);
        if layer_top < self.top {
            self.top = layer_top;
        }
        if layer_left < self.left {
            self.left = layer_left;
        }
        if layer_bottom > self.bottom {
            self.bottom = layer_bottom;
        }
        if layer_right > self.right {
            self.right = layer_right;
        }
        self.layers.push(layer);
        proof {
            assert(self.layers@.drop_last() =~= old(self).layers@);
            assert(self.layers@.last() == l);
            assert forall|i: int| 0 <= i < self.layers@.len() implies wf_grid(
                (#[trigger] self.layers@[i]).buffer@,
            ) by {
                if i < self.layers@.len() - 1 {
                    assert(self.layers@[i] == old(self).layers@[i]);
                }
            }
        }
    }

    /// Merges the layers back to front into one layer anchored at the box's
    /// top-left corner: each glyph of each layer is placed, in painter's
    /// order, at its shifted coordinates, so later layers fully occlude
    /// earlier ones where they draw and leave them untouched where they do
    /// not. The machine-size bounds keep the box's extent representable.
    #[verifier::loop_isolation(false)]
    pub fn mix(&self) -> (r: MixerLayer)
        requires
            self.wf(),
            self.bottom - self.top <= isize::MAX,
            self.right - self.left <= isize::MAX,
        ensures
            r.line_offset == self.top,
            r.column_offset == self.left,
            wf_grid(r.buffer@),
            r.buffer@ == mix_spec(self.layers@, self.top as int, self.left as int),
    {
        let ghost top = self.top as int;
        let ghost left = self.left as int;
        let mut target = MixerLayer {
            line_offset: self.top,
            column_offset: self.left,
            buffer: PrintBuffer::new(),
        };
        proof {
            lemma_box_bounds(self.layers@);
        }
        let mut li: usize = 0;
        while li < self.layers.len()
            invariant
                li <= self.layers@.len(),
                target.line_offset == self.top,
                target.column_offset == self.left,
                wf_grid(target.buffer@),
                mix_from(target.buffer@, self.layers@, top, left, li as int) == mix_spec(
                    self.layers@,
                    top,
                    left,
                ),
            decreases self.layers@.len() - li,
        {
            let layer = &self.layers[li];
            let ghost src = layer.buffer@;
            proof {
                lemma_max_cols_bound(src);
            }
            let dr = layer.line_offset - self.top;
            let dc = layer.column_offset - self.left;
            let dru = dr as usize;
            let dcu = dc as usize;
            let ghost buf_layer0 = target.buffer@;
            let mut r: usize = 0;
            while r < layer.buffer.lines.len()
                invariant
                    r <= src.len(),
                    src.len() == layer.buffer.lines@.len(),
                    wf_grid(target.buffer@),
                    target.line_offset == self.top,
                    target.column_offset == self.left,
                    blit(target.buffer@, src, dru as int, dcu as int, r as int) == blit(
                        buf_layer0,
                        src,
                        dru as int,
                        dcu as int,
                        0,
                    ),
                decreases src.len() - r,
            {
                let row = &layer.buffer.lines[r];
                let ghost rowv = src[r as int];
                proof {
                    assert(rowv == rv(row@));
                    assert(wf_row(rowv));
                }
                let ghost buf_row0 = target.buffer@;
                let mut c: usize = 0;
                while c < row.len()
                    invariant
                        c <= rowv.len(),
                        rowv.len() == row@.len(),
                        wf_grid(target.buffer@),
                        target.line_offset == self.top,
                        target.column_offset == self.left,
                        blit_row(
                            target.buffer@,
                            rowv,
                            dru + r,
                            dcu as int,
                            c as int,
                        ) == blit_row(buf_row0, rowv, dru + r, dcu as int, 0),
                    decreases rowv.len() - c,
                {
                    proof {
                        assert(rv(row@)[c as int] == row@[c as int]@);
                        assert(wf_cell(rowv, c as int));
                    }
                    match &row[c] {
                        PrintLocation::Grapheme(g) => {
                            proof {
                                assert(rowv[c as int] == CellView::Glyph(g@));
                                if display_width(g@) >= 1 {
                                    assert(c + display_width(g@) <= rowv.len());
                                }
                                assert(dcu + c + owned_cols(display_width(g@)) <= dcu
                                    + rowv.len());
                            }
                            let tr = dru + r;
                            let tc = dcu + c;
                            target.buffer.set_grapheme(tr, tc, g.as_str());
                        },
                        _ => {},
                    }
                    c += 1;
                }
                proof {
                    assert(blit_row(target.buffer@, rowv, dru + r, dcu as int, rowv.len() as int)
                        == target.buffer@);
                    assert(blit(buf_row0, src, dru as int, dcu as int, r as int) == blit(
                        target.buffer@,
                        src,
                        dru as int,
                        dcu as int,
                        r + 1,
                    ));
                }
                r += 1;
            }
            proof {
                assert(blit(target.buffer@, src, dru as int, dcu as int, src.len() as int)
                    == target.buffer@);
                assert(mix_from(buf_layer0, self.layers@, top, left, li as int) == mix_from(
                    target.buffer@,
                    self.layers@,
                    top,
                    left,
                    li + 1,
                ));
            }
            li += 1;
        }
        proof {
            assert(mix_from(target.buffer@, self.layers@, top, left, self.layers@.len() as int)
                == target.buffer@);
        }
        target
    }
}

impl Default for BufferMixer {
    /// The same as [`BufferMixer::new`]: an empty mixer.
    fn default() -> (r: Self)
        ensures
            r.wf(),
            r.layers@ == Seq::<MixerLayer>::empty(),
            r.top == 0 && r.left == 0 && r.bottom == 0 && r.right == 0,
    {
        BufferMixer::new()
    }
}

} // verus!

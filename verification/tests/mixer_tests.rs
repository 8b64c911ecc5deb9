use glyph_grid::buffer_mixer::BufferMixer;
use glyph_grid::buffer_mixer::MixerLayer;
use glyph_grid::print_buffer::PrintBuffer;

fn layer(line_offset: isize, column_offset: isize, text: &str) -> MixerLayer {
    MixerLayer { line_offset, column_offset, buffer: PrintBuffer::from_str(text) }
}

#[test]
fn empty_mixer_box_contains_origin() {
    let m = BufferMixer::new();
    assert_eq!((m.top, m.left, m.bottom, m.right), (0, 0, 0, 0));
    let mixed = m.mix();
    assert_eq!(mixed.line_offset, 0);
    assert_eq!(mixed.column_offset, 0);
    assert_eq!(mixed.buffer.render(), "");
}

#[test]
fn bounding_box_is_union_of_extents() {
    let mut m = BufferMixer::new();
    m.add_layer(layer(-1, -2, "ab"));
    assert_eq!((m.top, m.left, m.bottom, m.right), (-1, -2, 0, 0));
    m.add_layer(layer(2, 1, "xy\nz"));
    assert_eq!((m.top, m.left, m.bottom, m.right), (-1, -2, 4, 3));
}

#[test]
fn bounding_box_is_order_independent() {
    let mut m1 = BufferMixer::new();
    m1.add_layer(layer(-1, -2, "ab"));
    m1.add_layer(layer(2, 1, "xy\nz"));
    let mut m2 = BufferMixer::new();
    m2.add_layer(layer(2, 1, "xy\nz"));
    m2.add_layer(layer(-1, -2, "ab"));
    assert_eq!((m1.top, m1.left, m1.bottom, m1.right), (m2.top, m2.left, m2.bottom, m2.right));
}

#[test]
fn later_layer_occludes_earlier_at_drawn_columns() {
    // buffer A = "AB" at offset (0,0); buffer B = "X" at offset (0,1),
    // added after A: B's glyph wins at column 1, A shows at column 0
    let mut m = BufferMixer::new();
    m.add_layer(layer(0, 0, "AB"));
    m.add_layer(layer(0, 1, "X"));
    let mixed = m.mix();
    assert_eq!(mixed.line_offset, 0);
    assert_eq!(mixed.column_offset, 0);
    assert_eq!(mixed.buffer.render(), "AX\n");
}

#[test]
fn empty_cells_of_later_layer_are_transparent() {
    // B draws only at column 2: columns 0 and 1 keep A's content
    let mut m = BufferMixer::new();
    m.add_layer(layer(0, 0, "abc"));
    m.add_layer(layer(0, 2, "Z"));
    let mixed = m.mix();
    assert_eq!(mixed.buffer.render(), "abZ\n");
}

#[test]
fn later_narrow_glyph_demolishes_earlier_wide_glyph() {
    // A's wide glyph covers columns 0 and 1; B draws at column 1 only, and
    // the wide glyph must vanish whole
    let mut m = BufferMixer::new();
    m.add_layer(layer(0, 0, "\u{3042}"));
    m.add_layer(layer(0, 1, "X"));
    let mixed = m.mix();
    assert_eq!(mixed.buffer.render(), " X\n");
}

#[test]
fn negative_offsets_shift_into_box_space() {
    let mut m = BufferMixer::new();
    m.add_layer(layer(-1, -2, "ab"));
    let mixed = m.mix();
    assert_eq!(mixed.line_offset, -1);
    assert_eq!(mixed.column_offset, -2);
    // the layer's cells land at the box origin, its own local (0,0)
    assert_eq!(mixed.buffer.render(), "ab\n");
}

#[test]
fn layers_at_different_rows_do_not_interact() {
    let mut m = BufferMixer::new();
    m.add_layer(layer(0, 0, "top"));
    m.add_layer(layer(1, 0, "low"));
    let mixed = m.mix();
    assert_eq!(mixed.buffer.render(), "top\nlow\n");
}

#[test]
fn default_mixer_is_empty() {
    let m = BufferMixer::default();
    assert_eq!((m.top, m.left, m.bottom, m.right), (0, 0, 0, 0));
    assert_eq!(m.layers.len(), 0);
}

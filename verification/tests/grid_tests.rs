use glyph_grid::print_buffer::PrintBuffer;

#[test]
fn write_single_width_glyph_then_render() {
    let mut b = PrintBuffer::new();
    b.set_grapheme(0, 2, "A");
    assert_eq!(b.render(), "  A\n");
    assert_eq!(b.lines_len(), 1);
    assert_eq!(b.columns_len(), 3);
}

#[test]
fn write_wide_glyph_then_render() {
    // a CJK glyph occupies two columns: anchor plus one continuation cell,
    // and rendering emits its text once with nothing for the trailing column
    let mut b = PrintBuffer::new();
    b.set_grapheme(0, 1, "\u{3042}");
    assert_eq!(b.render(), " \u{3042}\n");
    assert_eq!(b.columns_len(), 3);
}

#[test]
fn overwrite_wide_glyph_removes_it_whole() {
    // width-2 glyph at column 0, then width-1 at column 1: the wide glyph
    // must vanish whole, leaving column 0 empty rather than a dangling anchor
    let mut b = PrintBuffer::new();
    b.set_grapheme(0, 0, "\u{3042}");
    b.set_grapheme(0, 1, "X");
    assert_eq!(b.render(), " X\n");
    assert_eq!(b.find_grapheme(0, 0), None);
    assert_eq!(b.find_grapheme(0, 1), Some(1));
}

#[test]
fn overwrite_anchor_column_clears_continuation() {
    let mut b = PrintBuffer::new();
    b.set_grapheme(0, 0, "\u{3042}");
    b.set_grapheme(0, 0, "Y");
    assert_eq!(b.render(), "Y \n");
}

#[test]
fn clear_any_column_of_wide_glyph() {
    // clearing the continuation column removes the whole glyph
    let mut b = PrintBuffer::new();
    b.set_grapheme(0, 0, "\u{3042}");
    b.clear_location(0, 1);
    assert_eq!(b.render(), "  \n");
    assert_eq!(b.find_grapheme(0, 0), None);

    // clearing the anchor column gives the same result
    let mut b2 = PrintBuffer::new();
    b2.set_grapheme(0, 0, "\u{3042}");
    b2.clear_location(0, 0);
    assert_eq!(b2.render(), "  \n");
}

#[test]
fn clear_out_of_range_is_noop() {
    let mut b = PrintBuffer::new();
    b.set_grapheme(0, 0, "A");
    b.clear_location(5, 0);
    b.clear_location(0, 9);
    assert_eq!(b.render(), "A\n");
}

#[test]
fn find_grapheme_walks_back_to_anchor() {
    let mut b = PrintBuffer::new();
    b.set_grapheme(0, 3, "\u{3042}");
    assert_eq!(b.find_grapheme(0, 3), Some(3));
    assert_eq!(b.find_grapheme(0, 4), Some(3));
    assert_eq!(b.find_grapheme(0, 2), None);
    assert_eq!(b.find_grapheme(1, 0), None);
}

#[test]
fn from_str_render_round_trip() {
    let b = PrintBuffer::from_str("Hello\nWorld");
    assert_eq!(b.render(), "Hello\nWorld\n");
    assert_eq!(b.lines_len(), 2);
    assert_eq!(b.columns_len(), 5);
}

#[test]
fn from_str_empty_and_blank_lines() {
    let b = PrintBuffer::new();
    assert_eq!(b.render(), "");
    let e = PrintBuffer::from_str("");
    assert_eq!(e.render(), "");
    let mid = PrintBuffer::from_str("a\n\nb");
    assert_eq!(mid.render(), "a\n\nb\n");
    // a final line terminator adds no line, and a trailing blank line
    // stores no row, so neither survives the round trip
    assert_eq!(PrintBuffer::from_str("abc\n").render(), "abc\n");
    assert_eq!(PrintBuffer::from_str("a\n\n").render(), "a\n");
}

#[test]
fn from_str_splits_carriage_return_line_feed() {
    let b = PrintBuffer::from_str("a\r\nb");
    assert_eq!(b.lines_len(), 2);
    assert_eq!(b.render(), "a\nb\n");
}

#[test]
fn from_str_combining_mark_is_one_column() {
    // "a" followed by a combining acute accent is one grapheme cluster of
    // display width 1, so "b" lands in column 1
    let b = PrintBuffer::from_str("a\u{301}b");
    assert_eq!(b.columns_len(), 2);
    assert_eq!(b.render(), "a\u{301}b\n");
    assert_eq!(b.find_grapheme(0, 1), Some(1));
}

#[test]
fn from_str_wide_glyphs_advance_two_columns() {
    let b = PrintBuffer::from_str("\u{3042}\u{3044}");
    assert_eq!(b.columns_len(), 4);
    assert_eq!(b.find_grapheme(0, 2), Some(2));
    assert_eq!(b.render(), "\u{3042}\u{3044}\n");
}

#[test]
fn try_set_grapheme_places_like_set() {
    let mut b = PrintBuffer::new();
    assert!(b.try_set_grapheme(1, 1, "Z"));
    assert_eq!(b.render(), "\n Z\n");
    assert!(!b.try_set_grapheme(0, usize::MAX, "Z"));
    assert_eq!(b.render(), "\n Z\n");
}

#[test]
fn default_is_empty() {
    let b = PrintBuffer::default();
    assert_eq!(b.lines_len(), 0);
    assert_eq!(b.columns_len(), 0);
    assert_eq!(b.render(), "");
}

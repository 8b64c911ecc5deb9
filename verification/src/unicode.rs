//! The outside capabilities the grid depends on: grapheme segmentation,
//! display width, and line splitting. Each is reached through one trusted
//! wrapper; the verified code never recomputes what they return.

use vstd::prelude::*;

verus! {

/// The number of terminal columns a string occupies. The value is fixed by
/// the characters alone; nothing more is assumed of it here.
pub uninterp spec fn display_width(s: Seq<char>) -> nat;

/// The grapheme clusters of a string, in order. The split is fixed by the
/// characters alone.
pub uninterp spec fn graphemes_of(s: Seq<char>) -> Seq<Seq<char>>;

/// Relies on `unicode_width::UnicodeWidthStr::width`: the displayed width of
/// a string in columns, a pure table lookup over its characters.
#[verifier::external_body]
pub(crate) fn grapheme_width(g: &str) -> (w: usize)
    ensures
        w as nat == display_width(g@),
{
    unicode_width::UnicodeWidthStr::width(g)
}

/// Relies on `unicode_segmentation::UnicodeSegmentation::graphemes` (extended
/// grapheme clusters): the clusters depend on the characters alone, and they
/// partition the string, so their concatenation gives the string back.
#[verifier::external_body]
pub(crate) fn split_graphemes(s: &str) -> (r: Vec<String>)
    ensures
        r@.map_values(|g: String| g@) == graphemes_of(s@),
        r@.map_values(|g: String| g@).flatten() == s@,
{
    unicode_segmentation::UnicodeSegmentation::graphemes(s, true)
        .map(|g| g.to_owned())
        .collect()
}

/// The index of the first `'\n'` in `s`, or `s.len()` if there is none.
pub open spec fn first_newline(s: Seq<char>) -> nat
    decreases s.len(),
{
    if s.len() == 0 {
        0
    } else if s[0] == '\n' {
        0
    } else {
        1 + first_newline(s.skip(1))
    }
}

/// One line as `str::lines` yields it: a `'\r'` is dropped only when it stood
/// right before the `'\n'` that ended the line.
pub open spec fn strip_cr(l: Seq<char>) -> Seq<char> {
    if l.len() > 0 && l.last() == '\r' {
        l.drop_last()
    } else {
        l
    }
}

/// The lines of a string, split at `'\n'` or `"\r\n"`, terminators dropped;
/// a final terminator yields no extra empty line.
pub open spec fn lines_spec(s: Seq<char>) -> Seq<Seq<char>>
    decreases s.len(),
{
    if s.len() == 0 {
        Seq::empty()
    } else {
        let i = first_newline(s) as int;
        if i >= s.len() {
            seq![s]
        } else {
            seq![strip_cr(s.take(i))] + lines_spec(s.skip(i + 1))
        }
    }
}

/// Relies on `str::lines`: splits at `'\n'`, dropping one `'\r'` standing
/// right before each `'\n'`; a trailing terminator adds no empty line.
#[verifier::external_body]
pub(crate) fn split_lines(s: &str) -> (r: Vec<String>)
    ensures
        r@.map_values(|l: String| l@) == lines_spec(s@),
{
    s.lines().map(|l| l.to_owned()).collect()
}

} // verus!

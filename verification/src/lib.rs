//! A grapheme-addressed 2D text grid and a back-to-front layer compositor.
//!
//! A [`print_buffer::PrintBuffer`] stores grapheme clusters on a character
//! grid, tracking the columns that wide clusters cover; a
//! [`buffer_mixer::BufferMixer`] merges several offset buffers, painter's
//! order, into one flat buffer ready for textual rendering. The model the
//! contracts speak of lives in [`grid_model`], the laws the library
//! guarantees in [`laws`], and the trusted unicode boundary in [`unicode`].

pub mod buffer_mixer;
pub mod grid_model;
pub mod laws;
pub mod print_buffer;
pub mod unicode;

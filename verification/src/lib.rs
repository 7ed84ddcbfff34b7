//! Highlighting of literal patterns in lines of text.
//!
//! A table binds each pattern to a colour. An automaton built from the
//! table finds the patterns in a line, ASCII letters compared without
//! regard to case, leftmost match first and, among matches that start
//! together, the pattern registered first. The segmenter cuts the line at
//! the matches into plain and coloured segments that join back to the line.
//! Lines and patterns are sequences of bytes.

pub mod color;
pub mod matcher;
pub mod render;
pub mod segment;
pub mod table;

//! Word-piece segmentation of word forms against a fixed vocabulary, with the
//! rendering and the statistics that are computed from the segmentations.
//!
//! A [`vocabulary::Vocabulary`] is built once from a list of entries.
//! [`vocabulary::Vocabulary::split`] segments a word form into
//! [`piece::PieceResult`]s: greedily, from left to right, taking the longest
//! piece at each position and stopping at the first position without one.
//! [`print::PrintApp`] turns the segmentations of a sentence into a line of
//! tokens, [`stats::PieceStats`] counts them and reports on the counts.

pub mod piece;
pub mod print;
pub mod segment;
pub mod shape;
pub mod stats;
pub mod vocabulary;

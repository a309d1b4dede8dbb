//! An incrementally built model of a directory tree with size rollups, and the
//! space-filling layout and navigation used to browse it.
pub mod tree;
pub mod tiles;
pub mod board;
pub mod ui;
pub mod sequencer;

//! A glitch-art pixel-sorting filter.
//!
//! The engine reorders the pixels of an image inside contiguous "sortable"
//! runs, first down every column and then across every row, ordering each run
//! by ascending luminosity.  Pixels whose luminosity falls outside an open
//! interval are barriers: they never move, and they bound the runs.
//!
//! Luminosities are kept as exact scaled integers so that every comparison
//! and both thresholds are exact; decoding and encoding image files is left
//! to unverified callers, which hand the engine a plain RGBA grid.

pub mod pixel;
pub mod runs;
pub mod image;
pub mod engine;

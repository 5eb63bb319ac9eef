//! A verified engine for NxN twisty-cube scrambles.
//!
//! The crate turns a textual scramble algorithm (tokens such as `R`, `Rw2`,
//! `3Fw'`) into the resulting arrangement of facelets on a cube of a given
//! order, and renders the final grid as an SVG document.  The cube state, the
//! notation parser and the layer-permutation algorithms are verified: every
//! move is proved to act on the facelet grid exactly as its mathematical
//! specification says.

pub mod color;
pub mod conservation;
pub mod cube_puzzle;
pub mod element;
pub mod laws;
pub mod puzzles;
pub mod rotations;
pub mod svg;
pub mod utils;

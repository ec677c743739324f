//! Sharing of repeated path geometry.
//!
//! A renderer that turns text into outlines draws the same glyph again and
//! again, each time as a full path. Two paths that differ only by where
//! they stand on the page can be drawn once, as a shared definition, and
//! referred to from both places. The coordinates that the renderer prints
//! are rounded, so whether two paths are the same is decided up to a
//! tolerance `eps`, and a naive comparison of each path with each earlier
//! one is replaced by a lookup in a tree that branches on the elements of a
//! fingerprint.
//!
//! Coordinates in this module are fixed-point: whole millionths of a user
//! unit of the page.

pub mod classify;
pub mod fingerprint;
pub mod plan;
pub mod rewrite;
pub mod style;
pub mod tree;
pub mod xml;

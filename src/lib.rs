//! Screen-region segmentation: turns one RGB screenshot into the rectangles of
//! text fragments, text lines, link spans and large regions that a keyboard-only
//! pointer overlay offers for clicking.
//!
//! - `bitmap`: the input image and its pixel model.
//! - `geometry`: rectangles, overlap, merging to a fixpoint, containment filters.
//! - `edges`: single-colour runs, their edge types, and deduplication.
//! - `boxes`: the intersection graph, box construction and border validation.
//! - `trim`: removal of flat padding and splitting at wide flat gaps.
//! - `lines`: line assembly and link spans.
//! - `coarse`: the half-resolution edge map and region density.
//! - `segment`: the whole cascade, from image to classified boxes.
//! - `overlay`: hint codes, selection and click dispatch decisions.
//! - `wire`: the byte format of box lists.
//! - `draw`: box outlines drawn into a bitmap.
pub mod bitmap;
pub mod geometry;
pub mod edges;
pub mod boxes;
pub mod trim;
pub mod lines;
pub mod coarse;
pub mod segment;
pub mod overlay;
pub mod wire;
pub mod draw;

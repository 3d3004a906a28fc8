//! Arrangement rules for the canvas. Every machine is a body (its display rects in canvas
//! coordinates) that must touch a neighbour along a seam, never overlap another body, and
//! stay part of one connected cluster. Pure geometry; no platform or UI involvement.
//!
//! [`resolve`] finds the nearest position to a desired one where a body touches the fixed
//! bodies along a seam of at least [`Rules::min_seam`] and overlaps none of them. Sliding
//! along a seam, flipping around a corner and pushing through a neighbour all fall out of
//! "nearest valid position". [`drag_step`] builds a whole pointer step on top of it: the
//! dragged body is placed, then every cluster it stopped holding in place is settled.
//! [`normalize`] repairs any arrangement (a saved one, or one whose display geometry
//! changed) into a single connected, overlap-free cluster with the smallest moves.

pub mod area;
pub mod bounds;
pub mod cluster;
pub mod contact;
pub mod distance;
pub mod drag;
pub mod laws;
pub mod place;
pub mod settle;
pub mod unity;

pub use crate::arrange::area::Area;
pub use crate::arrange::bounds::{Body, Bounds, Rules, Span, MIN_SEAM};
pub use crate::arrange::cluster::{
    clusters, components, resting_side, seam_side, shared_edge, touching, SeamSegment,
};
pub use crate::arrange::drag::{drag_step, Step};
pub use crate::arrange::place::{attach, nearest_free, resolve, to_i32, Placement};
pub use crate::arrange::settle::{
    closes_gap, largest_cluster, normalize, seams, settle_clusters,
};

//! Spatial-query core of a point-cloud server: how a convex region is
//! compared with another solid, node addressing in a quadtree, view-driven
//! selection of the nodes to render, and the bookkeeping for a load-once
//! table of opened trees.
//!
//! Everything here works on integers and strings. Coordinates in space stay
//! with the caller: they enter only through the answers that the caller's
//! functions give for an axis, a corner or a grid rectangle.

pub mod error;
pub mod node_id;
pub mod region;
pub mod meta;
pub mod traversal;
pub mod state;

//! Core logic for an addressable LED strip whose pattern is an ordered set of
//! independently animated segments: the color/segment data model with its
//! time-based animation contract, the ordered segment registry that a render
//! loop and a configuration handler share, the JSON codec used both for the
//! network API and for the persisted snapshot, and the per-tick frame
//! composition.

pub mod color;
pub mod segment;
pub mod registry;
pub mod render;
pub mod codec;
pub mod handler;

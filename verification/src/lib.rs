//! Core of a 2D tile-map editor: an asset registry of atlases, maps and
//! component schemas, a typed property system with self-healing repair, and
//! a deterministic binary export pipeline.

use vstd::prelude::*;

pub mod atlas;
pub mod codec;
pub mod ids;
pub mod keyed;
pub mod mapfile;
pub mod errors;
pub mod export;
pub mod property;
pub mod registry;
pub mod sorting;
pub mod schema;
pub mod tilemap;
pub mod views;

verus! {

/// Alpha values strictly below this threshold are treated as fully
/// transparent, both by the export pipeline and by any renderer.
pub const ALPHA_OPAQUE_MIN: u8 = 128;

} // verus!

//! Forge's engine logic that runs on the CPU without floating point: cluster-page
//! residency, list sizing, hashes, table layouts and the drainage tree of a terrain.

use vstd::prelude::*;

pub mod aces2;
pub mod atmosphere;
pub mod display;
pub mod erosion;
pub mod field;
pub mod flow;
pub mod hydrology;
pub mod material;
pub mod meshlet;
pub mod placement;
pub mod probes;
pub mod text;
pub mod textures;
pub mod residency;
pub mod rivers;
pub mod scene;
pub mod streamer;
pub mod streaming;

verus! {

} // verus!

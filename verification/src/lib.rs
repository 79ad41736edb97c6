use vstd::prelude::*;

pub mod text;
pub mod scene;
pub mod diff;
pub mod patch;
pub mod laws;
pub mod recon;
pub mod keyed;
pub mod ids;
pub mod bridge;
pub mod actors;
pub mod backends;
pub mod version;

verus! {
} // verus!

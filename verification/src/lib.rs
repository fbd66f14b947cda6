//! Any-angle path finding on layered navigation meshes.
//!
//! The library is organised as in the following modules:
//! - [`layer`]: layer identifiers;
//! - [`math`]: small integer geometry helpers and the diagonal taxicab norm;
//! - [`funnel`]: the simple stupid funnel algorithm;
//! - [`flat`]: layer sets, tesselations, their refinement, and the A* search over them;
//! - [`navmesh`], [`delaunay`], [`mlfa`]: Delaunay based navigation meshes;
//! - [`complex`]: a navigation mesh made of one triangulation for all layers;
//! - [`spatial`]: a spatial index of boxes.
#![allow(unused_imports)]

use vstd::prelude::*;

pub mod layer;
pub mod math;
pub mod funnel;
pub mod flat;
pub mod navmesh;
pub mod delaunay;
pub mod mlfa;
pub mod complex;
pub mod spatial;

pub use layer::LayerId;

verus! {

} // verus!

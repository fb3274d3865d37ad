//! The deterministic core of a 2D platformer's level geometry.
//!
//! A tile grid becomes closed polygons whose edges are collision surfaces:
//! `level` emits the border edges of the tiles, `collinear` joins straight
//! runs of them, `assembly` chains the edges into rings, and `loader` reads a
//! grid from JSON text. All coordinates are exact integers; one grid cell spans
//! two units, so the level's centre lies on a lattice point. `control` holds
//! the discrete decisions of the movement and pursuit logic.
use vstd::prelude::*;

pub mod assembly;
pub mod collinear;
pub mod control;
pub mod geometry;
pub mod level;
pub mod loader;

verus! {

} // verus!

//! Core logic of the Starpressure game: tiles and their atlas layout,
//! tile grids that place and remove single and multi-cell tiles,
//! ship rooms and air masks, the editor's ordering rules and the
//! network protocol's plain data.
use vstd::prelude::*;

pub mod geom;
pub mod tiles;
pub mod parser;
pub mod tile_grid;
pub mod tilemap;
pub mod game_core;
pub mod objects;
pub mod handles;
pub mod networking;
pub mod ship;
pub mod constructor;
pub mod appstates;
pub mod collections;
pub mod editor;

verus! {

} // verus!

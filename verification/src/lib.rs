//! Procedural dungeon generation with verified connectivity.
//!
//! A [`map::TileMap`] is a rectangular grid of walls, floors and one
//! exit.  [`map_builder::MapBuilder`] carves a map with a seeded random
//! walk, then runs the flood fill of [`path`] from the start tile to
//! place the exit on the farthest reachable floor tile, retrying when a
//! carve leaves the start disconnected.  Every build is a function of
//! the seed, and a returned map is proved to hold exactly one exit,
//! reachable from the start and at maximal graph distance.

use vstd::prelude::*;

pub mod map;
pub mod map_builder;
pub mod path;
pub mod rng;

verus! {

/// The kind of a single grid cell: solid rock, carved floor, or the level exit.
#[derive(Clone, Copy, PartialEq, Eq, Structural, Debug)]
pub enum TileType {
    Wall,
    Floor,
    Exit,
}

/// A tile can be walked on unless it is a wall; the exit is traversable.
pub open spec fn is_traversable(t: TileType) -> bool {
    t != TileType::Wall
}

} // verus!

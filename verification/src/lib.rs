//! Grid pathfinding and tile queries with machine-checked contracts.
//!
//! A [`grid::Grid`] is a rectangle of tiles, each of one terrain class
//! ([`tiles`]). Around it stand
//!
//! - the enumeration of the cells next to a cell ([`neighbours`]),
//! - tile queries: the cells that meet a set of optional constraints, and
//!   a random draw from them ([`query`], [`distance`], [`random`]),
//! - the A* search for a cheapest walk between two cells ([`astar`],
//!   [`paths`], [`frontier`]).
//!
//! Distances and costs are whole numbers of tenths of a cell: a straight
//! step costs 10, a diagonal step 14.

pub mod astar;
pub mod chronos;
pub mod distance;
pub mod frontier;
pub mod grid;
pub mod lists;
pub mod neighbours;
pub mod paths;
pub mod pos;
pub mod query;
pub mod random;
pub mod render;
mod search_state;
pub mod tiles;
pub mod utils;

//! Navigation round islands: from the outlines of islands to a map cut
//! into triangles, its coast, a graph of the ways round it, and the
//! shortest route through that graph.
//!
//! Coordinates are whole numbers on a lattice whose resolution the caller
//! picks (see [`geometry::COORDINATE_MAX`] for its extent). Every test on
//! positions (on which side of a line, on a segment, inside a triangle,
//! nearer or farther) is decided exactly, with no tolerance; where a result
//! is a position that is not on the lattice, it is rounded to the nearest
//! point of the lattice, and the contract says so.
//!
//! - [`geometry`]: points, vectors, and arithmetic on them.
//! - [`map`]: the map, whether a point is on land, the coast and its
//!   corners, and the graph of a map with points added.
//! - [`sight`]: where a line first meets the coast.
//! - [`approach`]: the point of the coast nearest to a position, and the
//!   corner by which to round the coast.
//! - [`trapezoid`], [`decompose`], [`triangulate`]: from an outline to
//!   triangles.
//! - [`graph`], [`route`], [`search`], [`frontier`]: the graph, its routes
//!   and the search for the shortest.
//! - [`laws`], [`rounds`]: what holds of every map.
//! - [`components`], [`systems`]: the ships, and the decisions that move
//!   them.

pub mod approach;
pub mod components;
pub mod decompose;
pub mod frontier;
pub mod geometry;
pub mod graph;
pub mod laws;
pub mod map;
pub mod rounds;
pub mod route;
pub mod search;
pub mod sight;
pub mod systems;
pub mod trapezoid;
pub mod triangulate;

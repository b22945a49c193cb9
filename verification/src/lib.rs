//! Procedural generation of grids by constraint solving: models declare
//! sockets on their faces, the rules compile them into adjacency lists, and
//! the generator collapses a grid cell by cell while propagating the
//! constraints.
pub mod debug_plugin;
pub mod generator;
pub mod grid;

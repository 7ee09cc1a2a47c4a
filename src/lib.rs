//! Maze generation over rectangular grids: a grid graph builder, a disjoint-set
//! forest, randomized Kruskal extraction and the single-stroke construction, with
//! the counts of edges that Kruskal's pass uses.

pub mod grid;
pub mod kruskal;
pub mod maze;
pub mod random;
pub mod shape;
pub mod single_stroke;
pub mod spanning;
pub mod unionfind;

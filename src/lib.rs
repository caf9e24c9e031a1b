//! Perfect-maze generation over a rectangular grid of cells.
//!
//! A [`grid::Grid`] holds the fixed neighbour relation of every cell and the
//! mutable set of open passages (links), and renders them as wall bitmasks and
//! as text. The generators in [`binary_tree`] and [`sidewinder`] carve a
//! spanning tree (see [`tree`]) into that link state, drawing from a seedable
//! generator through [`random`]. [`maze`] is a small fixed-size variant that
//! stores wall bitmasks directly.
pub mod binary_tree;
pub mod grid;
pub mod maze;
pub mod random;
pub mod sidewinder;
pub mod tree;

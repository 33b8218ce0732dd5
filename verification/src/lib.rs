//! A solver for the pentacube puzzle: twenty-five five-block pieces that fill a
//! 5 x 5 x 5 cube.  The library holds the colour arithmetic, the block and
//! piece geometry, the enumeration of the cube's rotations, the placement of
//! pieces on the grid, and the backtracking search that packs them.
pub mod block;
pub mod checks;
pub mod color;
pub mod holes;
pub mod piece;
pub mod placement;
pub mod rotations;
pub mod solver;

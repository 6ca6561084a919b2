//! Permutation groups of twisty puzzles.
//!
//! A puzzle is a set of positions, each holding a facelet. A move is a
//! permutation of the positions; the moves made are composed into one
//! permutation, in the order in which they are made. The modules hold the
//! permutation algebra, the state of a puzzle and its turning, and two
//! puzzles: the cube of two by two by two and the inflated tetrahedron.

pub mod conversions;
pub mod cube;
pub mod cycles;
pub mod definition;
pub mod definition_cube_2x2;
pub mod errors;
pub mod export;
pub mod facelets;
pub mod laws;
pub mod move_table;
pub mod one_line;
pub mod permutations;
pub mod puzzle;
pub mod tetrahedron_inflated_3x3;
pub mod text;
pub mod utils;

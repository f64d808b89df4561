//! A library for manipulating and solving the 3x3 Rubik's cube with
//! Kociemba's two-phase algorithm. Cube states are represented on the cubie
//! level (corner and edge permutations and orientations); the solver drives
//! the state through the subgroup generated by U, D, R2, L2, F2, B2 and then
//! to the identity, using precomputed coordinate move tables and pruning
//! tables.

pub mod cubie;
pub mod error;
pub mod facelet;
pub mod generators;
pub mod index;
pub mod moves;
pub mod pruning;
pub mod scramble;
pub mod solver;
pub mod table;
pub mod tablefile;

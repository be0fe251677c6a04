//! Verified solvers for a set of grid, arithmetic and text puzzles.
//!
//! The heart of the crate is a sparse two-dimensional grid ([`grid`]) with
//! two engines built on it: extraction of same-label regions ([`regions`])
//! together with their perimeter and side counts ([`boundary`]), and a
//! warehouse simulator that propagates pushes through chains of movable
//! objects ([`warehouse`], read from text by [`warehouse_map`]).
//!
//! Around them stand the solvers of smaller puzzles, one module each, and
//! the handling of text that they share ([`text`]).

pub mod antenna;
pub mod boundary;
pub mod bridge;
pub mod ceres;
pub mod claw;
pub mod disk;
pub mod garden;
pub mod grid;
pub mod historian;
pub mod maze;
pub mod mull;
pub mod print_queue;
pub mod regions;
pub mod reports;
pub mod robots;
pub mod text;
pub mod warehouse;
pub mod warehouse_map;

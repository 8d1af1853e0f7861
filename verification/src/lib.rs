//! A constraint-propagation engine for generalized Sudoku: an N×N grid with
//! N = b², cut into b×b boxes, every row, column and box holding each of the
//! values 1..=N once.
//!
//! The board, its cells and the groups read from it live in [`model`], the
//! deduction rules in [`rules`], and the loop that drives them in [`solver`].
//! [`input`] reads a board from text and [`model`] writes one; [`roundtrip`]
//! proves that the two agree, and [`soundness`] that the standard solver
//! never leaves the way to a solution. [`sets`] and [`text`] hold the set
//! algebra and the string building that the rest is written with.

pub mod input;
pub mod model;
pub mod roundtrip;
pub mod rules;
pub mod sets;
pub mod solver;
pub mod soundness;
pub mod text;

pub use input::Input;
pub use model::{Board, Cell, Group};
pub use rules::Rule;
pub use solver::{make_solver, Solver};

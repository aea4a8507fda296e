//! A satisfiability solver for formulas in conjunctive normal form.
//!
//! A [`solver::Solver`] takes clauses, simplifies the formula by unit
//! propagation and searches for a satisfying assignment by deciding
//! variables and taking decisions back after conflicts. Its counters and
//! marks follow the propagated values step by step, forward and back.
//! The contracts say that a search answers rightly: it says yes exactly for
//! a satisfiable formula, and then leaves values that satisfy it.
//!
//! Besides the solver: the rules of Sudoku as clauses ([`mapper`]), puzzles
//! and grids ([`sudoku`]), clauses read from text ([`lines`]) and written as
//! text ([`render`]), and a judge by trying values ([`eval`]).

pub mod assignset;
pub mod clause;
pub mod count;
pub mod course;
pub mod cursor;
pub mod eval;
pub mod formula;
pub mod fresh;
pub mod ingest;
pub mod laws;
pub mod lines;
pub mod lit;
pub mod loose;
pub mod mapper;
pub mod order;
pub mod passes;
pub mod propagate;
pub mod record;
pub mod render;
pub mod search;
pub mod slack;
pub mod solver;
pub mod state;
pub mod sudoku;
pub mod text;
pub mod trail;

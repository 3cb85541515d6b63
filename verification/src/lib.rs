//! A rules engine and turn controller for Othello.
//!
//! `board` holds the grid and carries out placements; `rules` says in
//! mathematics what a placement captures; `othello` is the turn controller,
//! a state machine from inputs to states. `capture_lemmas`, `counting`,
//! `laws` and `symmetry` hold the proofs: the facts that the code rests on
//! and what follows for every board and every game.

pub mod board;
pub mod capture_lemmas;
pub mod counting;
pub mod laws;
pub mod othello;
pub mod rules;
pub mod symmetry;

//! An engine and tournament harness for Ultimate Tic-Tac-Toe: a 9x9
//! meta-board of nine 3x3 sub-boards with a move-constraint rule, together
//! with an alpha-beta search engine, a text-protocol parser for driving
//! external engines, and an Elo-rated tournament scheduler.

pub mod ai;
pub mod board;
pub mod elo;
pub mod human;
pub mod montecarlo;
pub mod referee;
pub mod search;
pub mod uti;

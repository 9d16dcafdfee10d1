use vstd::prelude::*;

pub mod board;
pub mod capture;
pub mod double_three;
pub mod zobrist;
pub mod hashing;
pub mod game_state;
pub mod evaluation;
pub mod search;
pub mod tt;
pub mod report;
pub mod ordering;
pub mod minimax;
pub mod text;
pub mod save_format;
pub mod save_roundtrip;
pub mod laws;
pub mod rule_laws;
pub mod interface;
pub mod session;
pub mod terminal;
pub mod classic;

verus! {
} // verus!

//! Game solving: a vectorised counterfactual-regret-minimisation engine for
//! small imperfect-information games, preflop hand classes and matchup
//! counts for heads-up hold'em, combination enumeration, and a tic-tac-toe
//! bitboard with a minimax solver.

pub mod tictactoe;
pub mod cfr;
pub mod utils;
pub mod hands;
pub mod matchups;

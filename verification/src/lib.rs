//! A generic adversarial game-tree search core: minimax evaluation with
//! alpha-beta pruning and a transposition cache, exercised by a 3x3
//! tic-tac-toe adapter.

pub mod game;
pub mod player;
pub mod search;

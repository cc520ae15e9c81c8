//! A rule engine for a simplified Go-like board game, together with a family
//! of move-selection agents that play it.  The board logic (groups, liberties,
//! captures, eyes, incremental position hashing) and the game controller
//! (turns, simple-Ko, scoring) are specified and verified; calls into outside
//! crates for randomness and wall-clock time sit behind small trusted
//! wrappers.

pub mod ai;
pub mod board;
pub mod clock;
pub mod game;
pub mod player;
pub mod rng;
pub mod stats;
pub mod zobrist;

//! The move-selection interface.  An agent is asked for a move against a
//! read-only board; `None` means pass, and any point it returns must be a
//! legal move for the colour it was asked about.

use vstd::prelude::*;

use crate::board::{valid_move, Board, Stone};

verus! {

pub trait Player {
    fn name(&self) -> &str;

    fn get_move(&self, board: &Board, stone: Stone) -> (r: Option<(usize, usize)>)
        requires
            board.wf(),
        ensures
            r matches Some(m) ==> valid_move(board.cells(), board.sz(), m.0, m.1, stone.to_u8()),
    ;
}

/// Relies on alloc's `format!` to render a numeric parameter into an agent's
/// display name.
#[verifier::external_body]
pub(crate) fn compose_name(prefix: &str, value: u64, suffix: &str) -> String {
    format!("{}{}{}", prefix, value, suffix)
}

/// A human at the console.  The interactive prompt that produces this
/// player's moves lives outside the verified library; the type itself only
/// carries the display name.
pub struct HumanPlayer {
    name: String,
}

impl HumanPlayer {
    pub fn new() -> (r: HumanPlayer)
    {
        HumanPlayer { name: "Human".to_owned() }
    }

    pub fn name(&self) -> &str {
        self.name.as_str()
    }
}

} // verus!

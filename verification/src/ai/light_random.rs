//! A lightweight random agent that keeps a reusable buffer of empty points
//! and samples from it, re-checking legality on the spot.

use vstd::prelude::*;

use crate::ai::all_valid_moves;
use crate::board::{valid_move, Board, Stone};
use crate::player::Player;
use crate::rng::{fresh_rng, gen_index};

verus! {

pub struct LightRandomAI {
    name: String,
    valid_moves_cache: Vec<(usize, usize)>,
}

impl LightRandomAI {
    pub fn new() -> (r: LightRandomAI) {
        LightRandomAI { name: "Light Random AI".to_owned(), valid_moves_cache: Vec::new() }
    }

    /// A fast draw: sample random empty points a bounded number of times and
    /// return the first legal one, falling back to a scan of the rest.  Any
    /// returned point is a legal move.
    pub fn get_fast_move(&mut self, board: &Board, stone: Stone) -> (r: Option<(usize, usize)>)
        requires
            board.wf(),
        ensures
            r matches Some(m) ==> valid_move(board.cells(), board.sz(), m.0, m.1, stone.to_u8()),
            (forall|q: (usize, usize)|
                crate::board::in_bounds(board.sz(), q) ==> crate::board::cell_at(
                    board.cells(),
                    board.sz(),
                    q,
                ) != crate::board::EMPTY) ==> r is None,
    {
        self.valid_moves_cache.clear();
        let n = board.size();
        let mut y: usize = 0;
        while y < n
            invariant
                board.wf(),
                n == board.sz(),
                y <= n,
                forall|k: int|
                    0 <= k < self.valid_moves_cache@.len() ==> crate::board::in_bounds(
                        board.sz(),
                        #[trigger] self.valid_moves_cache@[k],
                    ) && crate::board::cell_at(
                        board.cells(),
                        board.sz(),
                        self.valid_moves_cache@[k],
                    ) == crate::board::EMPTY,
            decreases n - y,
        {
            let mut x: usize = 0;
            while x < n
                invariant
                    board.wf(),
                    n == board.sz(),
                    y < n,
                    x <= n,
                    forall|k: int|
                        0 <= k < self.valid_moves_cache@.len() ==> crate::board::in_bounds(
                            board.sz(),
                            #[trigger] self.valid_moves_cache@[k],
                        ) && crate::board::cell_at(
                            board.cells(),
                            board.sz(),
                            self.valid_moves_cache@[k],
                        ) == crate::board::EMPTY,
                decreases n - x,
            {
                if board.get(x, y).is_none() {
                    self.valid_moves_cache.push((x, y));
                }
                x = x + 1;
            }
            y = y + 1;
        }
        if self.valid_moves_cache.is_empty() {
            return None;
        }
        proof {
            assert(self.valid_moves_cache@[0] == self.valid_moves_cache@[0]);
        }
        let len = self.valid_moves_cache.len();
        let mut rng = fresh_rng();
        let mut attempts: usize = 0;
        let max_attempts: usize = if len < 20 {
            len
        } else {
            20
        };
        while attempts < max_attempts
            invariant
                board.wf(),
                max_attempts <= len,
                attempts <= max_attempts,
                self.valid_moves_cache@.len() == len,
                len >= 1,
            decreases max_attempts - attempts,
        {
            let idx = gen_index(&mut rng, len);
            let (x, y) = self.valid_moves_cache[idx];
            if board.is_valid_move(x, y, stone) {
                return Some((x, y));
            }
            let swap_to = len - attempts - 1;
            let a = self.valid_moves_cache[idx];
            let b = self.valid_moves_cache[swap_to];
            self.valid_moves_cache.set(idx, b);
            self.valid_moves_cache.set(swap_to, a);
            attempts = attempts + 1;
        }
        let remaining = len - attempts;
        let mut i: usize = 0;
        while i < remaining
            invariant
                board.wf(),
                remaining <= len,
                self.valid_moves_cache@.len() == len,
                i <= remaining,
            decreases remaining - i,
        {
            let (x, y) = self.valid_moves_cache[i];
            if board.is_valid_move(x, y, stone) {
                return Some((x, y));
            }
            i = i + 1;
        }
        None
    }
}

impl Player for LightRandomAI {
    fn name(&self) -> &str {
        self.name.as_str()
    }

    /// Pass exactly when no legal move exists; any returned move is legal.
    fn get_move(&self, board: &Board, stone: Stone) -> (r: Option<(usize, usize)>)
        ensures
            r is None <==> (forall|m: (usize, usize)|
                !valid_move(board.cells(), board.sz(), m.0, m.1, stone.to_u8())),
    {
        let moves = all_valid_moves(board, stone);
        if moves.is_empty() {
            proof {
                assert forall|m: (usize, usize)| !valid_move(
                    board.cells(),
                    board.sz(),
                    m.0,
                    m.1,
                    stone.to_u8(),
                ) by {
                    if valid_move(board.cells(), board.sz(), m.0, m.1, stone.to_u8()) {
                        assert(moves@.contains(m));
                    }
                }
            }
            return None;
        }
        let mut rng = fresh_rng();
        let idx = gen_index(&mut rng, moves.len());
        proof {
            assert(moves@.contains(moves@[idx as int]));
        }
        Some(moves[idx])
    }
}

} // verus!

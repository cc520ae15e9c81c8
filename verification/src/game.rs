//! The match controller: one live board, turn alternation, the consecutive
//! pass counter, and the ordered history of position hashes used for the
//! simple-Ko rule.  A move is committed only if it is legal on the live board
//! and its resulting hash differs from the position two plies back.

use vstd::prelude::*;

use crate::board::{
    count_color, flat, lemma_board_facts, no_dead_groups, place_result_grid, sat_add_usize,
    valid_move, xor_fold, Board, Stone, BLACK, EMPTY, WHITE,
};

verus! {

pub struct Game {
    pub board: Board,
    pub current_turn: Stone,
    pub consecutive_passes: usize,
    pub previous_board: Option<Board>,
    pub board_history: Vec<u64>,
}

impl Game {
    /// Well-formedness: the live board is well-formed and the hash history
    /// (one entry per realized position, starting with the empty board) ends
    /// with the live board's hash.
    pub open spec fn wf(&self) -> bool {
        &&& self.board.wf()
        &&& self.board_history@.len() >= 1
        &&& self.board_history@.last() == self.board.hash_val()
    }

    pub fn new(board_size: usize) -> (r: Game)
        requires
            board_size * board_size <= usize::MAX,
        ensures
            r.wf(),
            r.board.sz() == board_size,
            forall|j: int| 0 <= j < r.board.cells().len() ==> r.board.cells()[j] == EMPTY,
            r.board.cap_black() == 0,
            r.board.cap_white() == 0,
            r.board.hash_val() == 0,
            r.current_turn == Stone::Black,
            r.consecutive_passes == 0,
            r.previous_board is None,
            r.board_history@ =~= seq![0u64],
            no_dead_groups(r.board.cells(), r.board.sz()),
    {
        let board = Board::new(board_size);
        let initial_hash = board.get_hash();
        let mut board_history: Vec<u64> = Vec::new();
        board_history.push(initial_hash);
        Game {
            board,
            current_turn: Stone::Black,
            consecutive_passes: 0,
            previous_board: None,
            board_history,
        }
    }

    /// The game is over after two consecutive passes.
    pub fn is_finished(&self) -> (r: bool)
        ensures
            r == (self.consecutive_passes >= 2),
    {
        self.consecutive_passes >= 2
    }

    /// Whose turn it is.
    pub fn current_color(&self) -> (r: Stone)
        ensures
            r == self.current_turn,
    {
        self.current_turn
    }

    /// Score of one colour: stones on the board plus that colour's capture
    /// credit (no territory).
    pub fn score(&self, stone: Stone) -> (r: usize)
        requires
            self.board.wf(),
        ensures
            stone == Stone::Black ==> r == sat_add_usize(
                count_color(self.board.cells(), BLACK),
                self.board.cap_black(),
            ),
            stone == Stone::White ==> r == sat_add_usize(
                count_color(self.board.cells(), WHITE),
                self.board.cap_white(),
            ),
    {
        let (black_stones, white_stones) = self.board.count_stones();
        let (black_captured, white_captured) = self.board.get_captured();
        match stone {
            Stone::Black => black_stones.saturating_add(black_captured),
            Stone::White => white_stones.saturating_add(white_captured),
        }
    }

    /// A pass: one more consecutive pass, and the turn moves to the opponent
    /// unless that pass ended the game.  Nothing happens on a finished game.
    pub fn submit_pass(&mut self)
        requires
            old(self).wf(),
        ensures
            final(self).wf(),
            final(self).board == old(self).board,
            final(self).board_history@ == old(self).board_history@,
            final(self).previous_board == old(self).previous_board,
            old(self).consecutive_passes >= 2 ==> final(self).consecutive_passes == old(self).consecutive_passes && final(self).current_turn == old(self).current_turn,
            old(self).consecutive_passes < 2 ==> final(self).consecutive_passes == old(self).consecutive_passes + 1,
            old(self).consecutive_passes == 0 ==> final(self).current_turn == old(self).current_turn.flip(),
            old(self).consecutive_passes == 1 ==> final(self).current_turn == old(self).current_turn,
    {
        if self.consecutive_passes >= 2 {
            return ;
        }
        self.consecutive_passes = self.consecutive_passes + 1;
        if self.consecutive_passes < 2 {
            self.current_turn = self.current_turn.opposite();
        }
    }

    /// Submit a move for the colour to play.  The move is rejected — with no
    /// change to any state — if the game is finished, if it is illegal on the
    /// live board, or if the resulting position would repeat the position two
    /// plies back (simple Ko).  Otherwise it is committed: the board is
    /// updated, the new hash is appended to the history, the pass counter
    /// resets and the turn switches.
    pub fn submit_move(&mut self, x: usize, y: usize) -> (r: bool)
        requires
            old(self).wf(),
        ensures
            final(self).wf(),
            !r ==> final(self).board.cells() == old(self).board.cells() && final(self).board.cap_black() == old(self).board.cap_black() && final(self).board.cap_white()
                == old(self).board.cap_white() && final(self).board.hash_val() == old(self).board.hash_val(),
            !r ==> final(self).board_history@ == old(self).board_history@ && final(self).current_turn == old(self).current_turn && final(self).consecutive_passes == old(self).consecutive_passes && final(self).previous_board == old(self).previous_board,
            old(self).consecutive_passes >= 2 ==> !r,
            !valid_move(
                old(self).board.cells(),
                old(self).board.sz(),
                x,
                y,
                old(self).current_turn.to_u8(),
            ) ==> !r,
            // success is owed for a legal move unless the Ko history can object
            (old(self).consecutive_passes < 2 && old(self).board_history@.len() < 2 && valid_move(
                old(self).board.cells(),
                old(self).board.sz(),
                x,
                y,
                old(self).current_turn.to_u8(),
            )) ==> r,
            r ==> valid_move(
                old(self).board.cells(),
                old(self).board.sz(),
                x,
                y,
                old(self).current_turn.to_u8(),
            ),
            r ==> final(self).board_history@ == old(self).board_history@.push(
                final(self).board.hash_val(),
            ),
            r ==> final(self).current_turn == old(self).current_turn.flip(),
            r ==> final(self).consecutive_passes == 0,
            // simple Ko: the committed position never repeats the position two
            // plies back
            (r && old(self).board_history@.len() >= 2) ==> final(self).board.hash_val() != old(self).board_history@[old(self).board_history@.len() - 2],
            r ==> (final(self).previous_board matches Some(b) && b.cells() == old(self).board.cells() && b.hash_val() == old(self).board.hash_val()),
            r ==> final(self).board.sz() == old(self).board.sz(),
            // the committed board is the result of placing on the live board:
            // the mover's stone lands on (x, y) unless self-captured, every
            // other change is a removal, and the mover is credited with the
            // opposing stones that disappeared
            r ==> (cell_at_committed(final(self).board, old(self).board.sz(), x, y) == old(self).current_turn.to_u8() || cell_at_committed(final(self).board, old(self).board.sz(), x, y)
                == EMPTY),
            r ==> forall|q: (usize, usize)|
                crate::board::in_bounds(old(self).board.sz(), q) && q != ((x, y)) ==> (
                cell_at_committed(final(self).board, old(self).board.sz(), q.0, q.1)
                    == cell_at_committed(old(self).board, old(self).board.sz(), q.0, q.1)
                    || cell_at_committed(final(self).board, old(self).board.sz(), q.0, q.1)
                    == EMPTY),
            (r && old(self).current_turn == Stone::Black) ==> final(self).board.cap_black()
                == sat_add_usize(
                old(self).board.cap_black(),
                count_color(old(self).board.cells(), WHITE) - count_color(
                    final(self).board.cells(),
                    WHITE,
                ),
            ) && final(self).board.cap_white() == old(self).board.cap_white(),
            // every group on the committed board keeps a liberty, as long as
            // that held of the live board
            (r && no_dead_groups(old(self).board.cells(), old(self).board.sz()))
                ==> no_dead_groups(final(self).board.cells(), old(self).board.sz()),
            // the committed board is exactly the placement outcome of the
            // submitted move on the live board
            r ==> final(self).board.cells() == place_result_grid(
                old(self).board.cells().update(
                    flat(old(self).board.sz(), (x, y)),
                    old(self).current_turn.to_u8(),
                ),
                old(self).board.sz(),
                old(self).current_turn.to_u8(),
                (x, y),
            ),
            // rejection happens only on a finished game, an illegal move, or
            // the simple-Ko repetition: the move's resulting position hashes
            // to the history entry two plies back
            !r ==> (old(self).consecutive_passes >= 2 || !valid_move(
                old(self).board.cells(),
                old(self).board.sz(),
                x,
                y,
                old(self).current_turn.to_u8(),
            ) || (old(self).board_history@.len() >= 2 && old(self).board_history@[old(
                self,
            ).board_history@.len() - 2] == xor_fold(
                place_result_grid(
                    old(self).board.cells().update(
                        flat(old(self).board.sz(), (x, y)),
                        old(self).current_turn.to_u8(),
                    ),
                    old(self).board.sz(),
                    old(self).current_turn.to_u8(),
                    (x, y),
                ),
                old(self).board.kb(),
                old(self).board.kw(),
                old(self).board.cells().len() as int,
            ))),
            (r && old(self).current_turn == Stone::White) ==> final(self).board.cap_white()
                == sat_add_usize(
                old(self).board.cap_white(),
                count_color(old(self).board.cells(), BLACK) - count_color(
                    final(self).board.cells(),
                    BLACK,
                ),
            ) && final(self).board.cap_black() == old(self).board.cap_black(),
    {
        if self.consecutive_passes >= 2 {
            return false;
        }
        if !self.board.is_valid_move(x, y, self.current_turn) {
            return false;
        }
        let mut test_board = self.board.clone();
        match test_board.place_stone(x, y, self.current_turn) {
            Ok(_) => {},
            Err(_) => {
                proof {
                    assert(false);
                }
                return false;
            },
        }
        let new_hash = test_board.get_hash();
        proof {
            lemma_board_facts(&test_board);
            assert(test_board.cells() == place_result_grid(
                self.board.cells().update(
                    flat(self.board.sz(), (x, y)),
                    self.current_turn.to_u8(),
                ),
                self.board.sz(),
                self.current_turn.to_u8(),
                (x, y),
            ));
            assert(new_hash == xor_fold(
                test_board.cells(),
                self.board.kb(),
                self.board.kw(),
                self.board.cells().len() as int,
            ));
        }
        let history_len = self.board_history.len();
        if history_len >= 2 && self.board_history[history_len - 2] == new_hash {
            return false;
        }
        self.previous_board = Some(self.board.clone());
        self.board = test_board;
        self.board_history.push(new_hash);
        self.consecutive_passes = 0;
        self.current_turn = self.current_turn.opposite();
        true
    }
}

/// The cell the committed board holds at `(x, y)` (a convenience for stating
/// `submit_move`'s contract).
pub open spec fn cell_at_committed(b: Board, size: int, x: usize, y: usize) -> u8 {
    crate::board::cell_at(b.cells(), size, (x, y))
}

} // verus!

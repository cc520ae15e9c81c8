//! Aggregated outcomes across many games, and a silent random-vs-random game
//! runner used by statistics drivers.

use vstd::prelude::*;

use crate::ai::RandomAI;
use crate::clock::duration_from_millis;
use crate::game::Game;
use crate::player::Player;
use crate::board::Stone;

verus! {

pub struct GameStats {
    pub black_wins: u32,
    pub white_wins: u32,
    pub draws: u32,
    pub total_black_score: i32,
    pub total_white_score: i32,
    pub total_moves: u32,
    pub total_duration: std::time::Duration,
}

impl GameStats {
    pub fn new() -> (r: GameStats)
        ensures
            r.black_wins == 0,
            r.white_wins == 0,
            r.draws == 0,
            r.total_black_score == 0,
            r.total_white_score == 0,
            r.total_moves == 0,
    {
        GameStats {
            black_wins: 0,
            white_wins: 0,
            draws: 0,
            total_black_score: 0,
            total_white_score: 0,
            total_moves: 0,
            total_duration: duration_from_millis(0),
        }
    }
}

/// A score clamped into the `i32` range.
fn score_as_i32(s: usize) -> (r: i32)
    ensures
        r as int == if s > i32::MAX {
            i32::MAX as int
        } else {
            s as int
        },
{
    if s > 0x7fff_ffffusize {
        i32::MAX
    } else {
        s as i32
    }
}

/// One silent game of two random players on a fresh board, with the
/// controller enforcing the simple-Ko rule; returns the final Black and White
/// scores and the number of committed moves.  A rejected move forfeits the
/// turn, as a pass would, without touching the pass counter.
pub fn run_game_silent(board_size: usize) -> (r: (i32, i32, u32))
    requires
        board_size * board_size <= usize::MAX,
    ensures
        r.0 >= 0,
        r.1 >= 0,
{
    let mut game = Game::new(board_size);
    let player1 = RandomAI::new();
    let player2 = RandomAI::new();
    let mut move_count: u32 = 0;
    let n_cells = board_size * board_size;
    let max_steps = crate::ai::sat_mul_usize(n_cells, 8).saturating_add(256);
    let mut steps: usize = 0;
    while steps < max_steps
        invariant
            game.wf(),
        decreases max_steps - steps,
    {
        let mover = game.current_color();
        let chosen = if mover == Stone::Black {
            player1.get_move(&game.board, mover)
        } else {
            player2.get_move(&game.board, mover)
        };
        match chosen {
            Some((x, y)) => {
                if game.submit_move(x, y) {
                    move_count = move_count.saturating_add(1);
                } else {
                    game.current_turn = game.current_turn.opposite();
                }
            },
            None => {
                game.submit_pass();
                if game.is_finished() {
                    break ;
                }
            },
        }
        steps = steps + 1;
    }
    let black_score = game.score(Stone::Black);
    let white_score = game.score(Stone::White);
    (score_as_i32(black_score), score_as_i32(white_score), move_count)
}

} // verus!

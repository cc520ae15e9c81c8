//! A flat Monte Carlo agent: for every candidate first move, play the move
//! and finish the game with uniform-random play for both sides, recording a
//! win or a loss; cycle across the candidates until the time budget runs out
//! and play the candidate with the best empirical win rate.

use vstd::prelude::*;

use crate::ai::{
    all_valid_moves, permitted_move, rate_better, sat_mul_u64, sat_mul_usize, split_by_eye,
    SEARCH_ROUND_CAP,
};
use crate::ai::RandomAI;
use crate::board::{eye_at, valid_move, Board, Stone};
use crate::clock::{elapsed_millis, instant_now};
use crate::player::{compose_name, Player};

verus! {

pub struct MonteCarloAI {
    name: String,
    time_limit_millis: u64,
}

impl MonteCarloAI {
    pub fn new(time_seconds: u64) -> (r: MonteCarloAI) {
        MonteCarloAI {
            name: compose_name("Monte Carlo AI (", time_seconds, "s)"),
            time_limit_millis: sat_mul_u64(time_seconds, 1000),
        }
    }

    /// One rollout: apply `first_move` for `stone`, then let two random
    /// players finish the game (bounded by a move cap), and report 1 if
    /// `stone` ends with the higher score, else 0.
    fn simulate_game(&self, board: &Board, stone: Stone, first_move: (usize, usize)) -> (r: u32)
        requires
            board.wf(),
        ensures
            r == 0 || r == 1,
    {
        let mut sim_board = board.clone();
        match sim_board.place_stone(first_move.0, first_move.1, stone) {
            Ok(_) => {},
            Err(_) => {
                return 0;
            },
        }
        let mut current_turn = stone.opposite();
        let mut consecutive_passes: usize = 0;
        let random1 = RandomAI::new();
        let random2 = RandomAI::new();
        let max_moves = sat_mul_usize(board.cell_count(), 2);
        let mut moves: usize = 0;
        while moves < max_moves
            invariant
                sim_board.wf(),
            decreases max_moves - moves,
        {
            let chosen = if current_turn == stone {
                random1.get_move(&sim_board, current_turn)
            } else {
                random2.get_move(&sim_board, current_turn)
            };
            match chosen {
                Some((x, y)) => {
                    match sim_board.place_stone(x, y, current_turn) {
                        Ok(_) => {
                            consecutive_passes = 0;
                        },
                        Err(_) => {},
                    }
                },
                None => {
                    consecutive_passes = consecutive_passes.saturating_add(1);
                    if consecutive_passes >= 2 {
                        break ;
                    }
                },
            }
            current_turn = current_turn.opposite();
            moves = moves + 1;
        }
        rollout_win(&sim_board, stone)
    }

    /// Candidate moves follow the eye-avoidance rules; rollouts are spread
    /// across them until the time budget runs out, and the candidate with the
    /// best win rate is played (ties keep the earlier candidate).  Pass
    /// exactly when no permitted move exists.
    fn select_move(&self, board: &Board, stone: Stone) -> (r: Option<(usize, usize)>)
        requires
            board.wf(),
        ensures
            r matches Some(m) ==> permitted_move(board.cells(), board.sz(), stone.to_u8(), m),
            r is None <==> (forall|m: (usize, usize)|
                !permitted_move(board.cells(), board.sz(), stone.to_u8(), m)),
    {
        let ghost g = board.cells();
        let ghost size = board.sz();
        let ghost su = stone.to_u8();
        let all_moves = all_valid_moves(board, stone);
        let (_eye_moves, non_eye_moves) = split_by_eye(board, stone, &all_moves);
        let total_eyes = board.count_eyes_for_color(stone);
        if total_eyes <= 2 && non_eye_moves.is_empty() {
            proof {
                assert forall|m: (usize, usize)| !permitted_move(g, size, su, m) by {
                    if valid_move(g, size, m.0, m.1, su) && !eye_at(g, size, m.0, m.1, su) {
                        assert(non_eye_moves@.contains(m));
                    }
                }
            }
            return None;
        }
        let ghost ne = non_eye_moves@;
        let ghost av = all_moves@;
        let use_non_eye = total_eyes <= 2;
        let candidates = if use_non_eye {
            non_eye_moves
        } else {
            all_moves
        };
        if candidates.is_empty() {
            proof {
                assert forall|m: (usize, usize)| !permitted_move(g, size, su, m) by {
                    if valid_move(g, size, m.0, m.1, su) {
                        if use_non_eye {
                            assert(ne.contains(m) || eye_at(g, size, m.0, m.1, su));
                        } else {
                            assert(av.contains(m));
                        }
                    }
                }
            }
            return None;
        }
        proof {
            assert forall|i: int| 0 <= i < candidates@.len() implies permitted_move(
                g,
                size,
                su,
                #[trigger] candidates@[i],
            ) by {
                if use_non_eye {
                    assert(candidates@ == ne);
                    assert(ne.contains(candidates@[i]));
                } else {
                    assert(candidates@ == av);
                    assert(av.contains(candidates@[i]));
                }
            }
        }
        let len = candidates.len();
        let mut move_wins: Vec<i64> = vec![0i64; len];
        let mut move_games: Vec<u64> = vec![0u64; len];
        let start_time = instant_now();
        let mut rounds: u64 = 0;
        while rounds < SEARCH_ROUND_CAP && elapsed_millis(&start_time) < self.time_limit_millis
            invariant
                board.wf(),
                len == candidates@.len(),
                len >= 1,
                move_wins@.len() == len,
                move_games@.len() == len,
            decreases SEARCH_ROUND_CAP - rounds,
        {
            let mut idx: usize = 0;
            while idx < len
                invariant
                    board.wf(),
                    len == candidates@.len(),
                    move_wins@.len() == len,
                    move_games@.len() == len,
                decreases len - idx,
            {
                if elapsed_millis(&start_time) >= self.time_limit_millis {
                    break ;
                }
                let (x, y) = candidates[idx];
                let result = self.simulate_game(board, stone, (x, y));
                move_games.set(idx, move_games[idx].saturating_add(1));
                if result == 1 {
                    move_wins.set(idx, crate::ai::clamp_add_i64(move_wins[idx], 1));
                }
                idx = idx + 1;
            }
            rounds = rounds + 1;
        }
        let mut best_idx: usize = 0;
        let mut best_wins: i64 = 0;
        let mut best_games: u64 = 1;
        let mut i: usize = 0;
        while i < len
            invariant
                len == candidates@.len(),
                move_wins@.len() == len,
                move_games@.len() == len,
                best_idx < len,
                best_games >= 1,
            decreases len - i,
        {
            if move_games[i] > 0 {
                if rate_better(move_wins[i], move_games[i], best_wins, best_games) {
                    best_wins = move_wins[i];
                    best_games = move_games[i];
                    best_idx = i;
                }
            }
            i = i + 1;
        }
        proof {
            assert(candidates@.contains(candidates@[best_idx as int]));
        }
        Some(candidates[best_idx])
    }
}

/// Win indicator of a finished rollout for `stone`: 1 exactly when
/// `stone`'s score (stones plus capture credit, saturating) strictly exceeds
/// the opponent's, else 0.
fn rollout_win(board: &Board, stone: Stone) -> (r: u32)
    requires
        board.wf(),
    ensures
        ({
            let bs = crate::board::sat_add_usize(
                crate::board::count_color(board.cells(), crate::board::BLACK),
                board.cap_black(),
            );
            let ws = crate::board::sat_add_usize(
                crate::board::count_color(board.cells(), crate::board::WHITE),
                board.cap_white(),
            );
            r == if (stone == Stone::Black && bs > ws) || (stone == Stone::White && ws > bs) {
                1int
            } else {
                0int
            }
        }),
{
    let (black_stones, white_stones) = board.count_stones();
    let (black_captured, white_captured) = board.get_captured();
    let black_score = black_stones.saturating_add(black_captured);
    let white_score = white_stones.saturating_add(white_captured);
    match stone {
        Stone::Black => if black_score > white_score {
            1
        } else {
            0
        },
        Stone::White => if white_score > black_score {
            1
        } else {
            0
        },
    }
}

impl Player for MonteCarloAI {
    fn name(&self) -> &str {
        self.name.as_str()
    }

    /// Pass exactly when no permitted move exists; any returned move is
    /// permitted (legal, and not an own eye while holding at most two eyes).
    fn get_move(&self, board: &Board, stone: Stone) -> (r: Option<(usize, usize)>)
        ensures
            r matches Some(m) ==> permitted_move(board.cells(), board.sz(), stone.to_u8(), m),
            r is None <==> (forall|m: (usize, usize)|
                !permitted_move(board.cells(), board.sz(), stone.to_u8(), m)),
    {
        self.select_move(board, stone)
    }
}

} // verus!

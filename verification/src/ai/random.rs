//! A uniform random agent.  It prefers moves that are not its own eyes; with
//! more than two eyes it occasionally fills one, with two or fewer it never
//! does, and it passes when nothing permitted remains.

use vstd::prelude::*;

use crate::ai::{all_valid_moves, permitted_move, split_by_eye};
use crate::board::{eye_at, valid_move, Board, Stone};
use crate::player::Player;
use crate::rng::{fresh_rng, gen_index};

verus! {

pub struct RandomAI {
    name: String,
}

impl RandomAI {
    pub fn new() -> (r: RandomAI) {
        RandomAI { name: "Random AI".to_owned() }
    }

    /// Pass exactly when no permitted move exists; otherwise pick a permitted
    /// move, mostly avoiding the mover's own eyes.
    fn select_move(board: &Board, stone: Stone) -> (r: Option<(usize, usize)>)
        requires
            board.wf(),
        ensures
            r matches Some(m) ==> permitted_move(board.cells(), board.sz(), stone.to_u8(), m),
            r is None <==> (forall|m: (usize, usize)|
                !permitted_move(board.cells(), board.sz(), stone.to_u8(), m)),
    {
        let ghost g = board.cells();
        let ghost size = board.sz();
        let ghost su = stone.to_u8();
        let valid_moves = all_valid_moves(board, stone);
        let (_eye_moves, non_eye_moves) = split_by_eye(board, stone, &valid_moves);
        if valid_moves.is_empty() {
            proof {
                assert forall|m: (usize, usize)| !permitted_move(g, size, su, m) by {
                    if valid_move(g, size, m.0, m.1, su) {
                        assert(valid_moves@.contains(m));
                    }
                }
            }
            return None;
        }
        let mut rng = fresh_rng();
        if non_eye_moves.len() > 0 {
            if non_eye_moves.len() < 3 {
                let total_eyes = board.count_eyes_for_color(stone);
                if total_eyes > 2 {
                    if gen_index(&mut rng, 10) < 8 {
                        let index = gen_index(&mut rng, non_eye_moves.len());
                        proof {
                            assert(non_eye_moves@.contains(non_eye_moves@[index as int]));
                            assert(permitted_move(g, size, su, non_eye_moves@[index as int]));
                        }
                        return Some(non_eye_moves[index]);
                    } else {
                        let index = gen_index(&mut rng, valid_moves.len());
                        proof {
                            assert(valid_moves@.contains(valid_moves@[index as int]));
                            assert(permitted_move(g, size, su, valid_moves@[index as int]));
                        }
                        return Some(valid_moves[index]);
                    }
                } else {
                    let index = gen_index(&mut rng, non_eye_moves.len());
                    proof {
                        assert(non_eye_moves@.contains(non_eye_moves@[index as int]));
                        assert(permitted_move(g, size, su, non_eye_moves@[index as int]));
                    }
                    return Some(non_eye_moves[index]);
                }
            } else {
                let index = gen_index(&mut rng, non_eye_moves.len());
                proof {
                    assert(non_eye_moves@.contains(non_eye_moves@[index as int]));
                    assert(permitted_move(g, size, su, non_eye_moves@[index as int]));
                }
                return Some(non_eye_moves[index]);
            }
        }
        let total_eyes = board.count_eyes_for_color(stone);
        if total_eyes > 2 {
            let index = gen_index(&mut rng, valid_moves.len());
            proof {
                assert(valid_moves@.contains(valid_moves@[index as int]));
                assert(permitted_move(g, size, su, valid_moves@[index as int]));
            }
            Some(valid_moves[index])
        } else {
            proof {
                assert forall|m: (usize, usize)| !permitted_move(g, size, su, m) by {
                    if valid_move(g, size, m.0, m.1, su) && !eye_at(g, size, m.0, m.1, su) {
                        assert(non_eye_moves@.contains(m));
                    }
                }
            }
            None
        }
    }
}

impl Player for RandomAI {
    fn name(&self) -> &str {
        self.name.as_str()
    }

    /// Pass exactly when no permitted move exists; any returned move is
    /// permitted (legal, and not an own eye while holding at most two eyes).
    fn get_move(&self, board: &Board, stone: Stone) -> (r: Option<(usize, usize)>)
        ensures
            r matches Some(m) ==> permitted_move(board.cells(), board.sz(), stone.to_u8(), m),
            r is None <==> (forall|m: (usize, usize)|
                !permitted_move(board.cells(), board.sz(), stone.to_u8(), m)),
    {
        Self::select_move(board, stone)
    }
}

} // verus!

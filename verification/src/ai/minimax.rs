//! A depth-limited minimax agent with alpha-beta pruning whose static
//! evaluation is pure material (stones plus capture credit, clamped) scaled
//! by a hundred, plus an eye-count bonus capped at two eyes per side.

use vstd::prelude::*;

use crate::ai::{all_valid_moves, clamped_len, scan_lt};
use crate::board::{
    count_color, eye_count, flat, place_result_grid, sat_add_usize, valid_move, Board, Stone,
    BLACK, WHITE,
};
use crate::player::{compose_name, Player};

verus! {

/// The smaller of two values.
pub open spec fn min_int(a: int, b: int) -> int {
    if a < b {
        a
    } else {
        b
    }
}

/// One side's material: stones on the board plus capture credit, saturating,
/// clamped to a million so evaluations stay in a fixed range.
pub open spec fn material_of(stones: int, caps: int) -> int {
    min_int(sat_add_usize(stones, caps), 1000000)
}

/// The static evaluation from `stone`'s perspective: the material difference
/// scaled by a hundred, plus twenty points per own eye (counting at most
/// two) minus twenty per opposing eye (likewise capped).
pub open spec fn static_eval(g: Seq<u8>, size: int, cap_b: int, cap_w: int, stone: Stone) -> int {
    let bsc = material_of(count_color(g, BLACK), cap_b);
    let wsc = material_of(count_color(g, WHITE), cap_w);
    let material = bsc - wsc;
    let base = if stone == Stone::Black {
        material
    } else {
        -material
    };
    let our = min_int(eye_count(g, size, stone.to_u8()), 2);
    let their = min_int(eye_count(g, size, stone.flip().to_u8()), 2);
    base * 100 + (our - their) * 20
}

/// The static evaluation of the position reached by playing `m` from the
/// given position: the placement-outcome grid, with the mover's capture
/// credit grown by the opposing stones that disappeared.
pub open spec fn successor_eval(
    g0: Seq<u8>,
    size: int,
    cap_b: int,
    cap_w: int,
    stone: Stone,
    m: (usize, usize),
) -> int {
    let su = stone.to_u8();
    let gf = place_result_grid(g0.update(flat(size, m), su), size, su, m);
    let cap_b2 = if stone == Stone::Black {
        sat_add_usize(cap_b, count_color(g0, WHITE) - count_color(gf, WHITE))
    } else {
        cap_b
    };
    let cap_w2 = if stone == Stone::White {
        sat_add_usize(cap_w, count_color(g0, BLACK) - count_color(gf, BLACK))
    } else {
        cap_w
    };
    static_eval(gf, size, cap_b2, cap_w2, stone)
}

pub struct MinimaxAI {
    name: String,
    max_depth: usize,
}

impl MinimaxAI {
    /// The configured search depth.
    pub closed spec fn depth(&self) -> int {
        self.max_depth as int
    }

    pub fn new(max_depth: usize) -> (r: MinimaxAI)
        ensures
            r.depth() == max_depth,
    {
        MinimaxAI { name: compose_name("Minimax AI (depth ", max_depth as u64, ")"), max_depth }
    }

    /// The static evaluation, exactly `static_eval` of the position.
    pub fn evaluate_board(&self, board: &Board, stone: Stone) -> (r: i64)
        requires
            board.wf(),
        ensures
            r as int == static_eval(
                board.cells(),
                board.sz(),
                board.cap_black(),
                board.cap_white(),
                stone,
            ),
    {
        let (black_stones, white_stones) = board.count_stones();
        let (black_captured, white_captured) = board.get_captured();
        let bsc = clamped_len(black_stones.saturating_add(black_captured));
        let wsc = clamped_len(white_stones.saturating_add(white_captured));
        let material: i64 = bsc - wsc;
        let base: i64 = match stone {
            Stone::Black => material,
            Stone::White => -material,
        };
        let our_eyes = board.count_eyes_for_color(stone);
        let their_eyes = board.count_eyes_for_color(stone.opposite());
        let oe: i64 = if our_eyes > 2 {
            2
        } else {
            our_eyes as i64
        };
        let te: i64 = if their_eyes > 2 {
            2
        } else {
            their_eyes as i64
        };
        base * 100 + (oe - te) * 20
    }

    /// Depth-limited alpha-beta search over the legal moves, with the hashes
    /// of the positions along the exploration path threaded through so a
    /// continuation recreating the position two plies back is skipped.
    fn minimax(
        &self,
        board: &Board,
        depth: usize,
        is_maximizing: bool,
        alpha0: i64,
        beta0: i64,
        stone: Stone,
        original_stone: Stone,
        history: &Vec<u64>,
    ) -> (r: i64)
        requires
            board.wf(),
        ensures
            // at the recursion floor — depth exhausted or no legal move for
            // the colour to play — the value is the static evaluation of the
            // position from the searching colour's perspective
            (depth == 0 || (forall|m: (usize, usize)|
                !valid_move(board.cells(), board.sz(), m.0, m.1, stone.to_u8()))) ==> r as int
                == static_eval(
                board.cells(),
                board.sz(),
                board.cap_black(),
                board.cap_white(),
                original_stone,
            ),
        decreases depth,
    {
        if depth == 0 {
            return self.evaluate_board(board, original_stone);
        }
        let valid_moves = all_valid_moves(board, stone);
        if valid_moves.is_empty() {
            proof {
                assert forall|m: (usize, usize)| !valid_move(
                    board.cells(),
                    board.sz(),
                    m.0,
                    m.1,
                    stone.to_u8(),
                ) by {
                    if valid_move(board.cells(), board.sz(), m.0, m.1, stone.to_u8()) {
                        assert(valid_moves@.contains(m));
                    }
                }
            }
            return self.evaluate_board(board, original_stone);
        }
        proof {
            assert(valid_moves@.contains(valid_moves@[0]));
        }
        let ghost ex_move = valid_moves@[0];
        let mut alpha = alpha0;
        let mut beta = beta0;
        if is_maximizing {
            let mut max_eval = i64::MIN;
            let mut i: usize = 0;
            while i < valid_moves.len()
                invariant
                    board.wf(),
                    depth >= 1,
                    valid_move(
                        board.cells(),
                        board.sz(),
                        ex_move.0,
                        ex_move.1,
                        stone.to_u8(),
                    ),
                decreases valid_moves@.len() - i,
            {
                let (x, y) = valid_moves[i];
                let mut new_board = board.clone();
                match new_board.place_stone(x, y, stone) {
                    Ok(_) => {
                        let h = new_board.get_hash();
                        let hl = history.len();
                        if !(hl >= 2 && history[hl - 2] == h) {
                            let mut child_history = history.clone();
                            child_history.push(h);
                            let eval = self.minimax(
                                &new_board,
                                depth - 1,
                                false,
                                alpha,
                                beta,
                                stone.opposite(),
                                original_stone,
                                &child_history,
                            );
                            if eval > max_eval {
                                max_eval = eval;
                            }
                            if eval > alpha {
                                alpha = eval;
                            }
                            if beta <= alpha {
                                return max_eval;
                            }
                        }
                    },
                    Err(_) => {},
                }
                i = i + 1;
            }
            max_eval
        } else {
            let mut min_eval = i64::MAX;
            let mut i: usize = 0;
            while i < valid_moves.len()
                invariant
                    board.wf(),
                    depth >= 1,
                    valid_move(
                        board.cells(),
                        board.sz(),
                        ex_move.0,
                        ex_move.1,
                        stone.to_u8(),
                    ),
                decreases valid_moves@.len() - i,
            {
                let (x, y) = valid_moves[i];
                let mut new_board = board.clone();
                match new_board.place_stone(x, y, stone) {
                    Ok(_) => {
                        let h = new_board.get_hash();
                        let hl = history.len();
                        if !(hl >= 2 && history[hl - 2] == h) {
                            let mut child_history = history.clone();
                            child_history.push(h);
                            let eval = self.minimax(
                                &new_board,
                                depth - 1,
                                true,
                                alpha,
                                beta,
                                stone.opposite(),
                                original_stone,
                                &child_history,
                            );
                            if eval < min_eval {
                                min_eval = eval;
                            }
                            if eval < beta {
                                beta = eval;
                            }
                            if beta <= alpha {
                                return min_eval;
                            }
                        }
                    },
                    Err(_) => {},
                }
                i = i + 1;
            }
            min_eval
        }
    }

    /// Top-level choice: the legal move whose value is best, ties broken by
    /// the first move in enumeration order; at depth one the value is the
    /// static evaluation of the successor position directly.  Pass exactly
    /// when no legal move exists.
    fn select_move(&self, board: &Board, stone: Stone) -> (r: Option<(usize, usize)>)
        requires
            board.wf(),
        ensures
            r matches Some(m) ==> valid_move(board.cells(), board.sz(), m.0, m.1, stone.to_u8()),
            r is None <==> (forall|m: (usize, usize)|
                !valid_move(board.cells(), board.sz(), m.0, m.1, stone.to_u8())),
            // at depth one the choice is exactly the first row-major argmax
            // of the successors' static evaluations
            self.depth() <= 1 ==> (r matches Some(m) ==> ((forall|m2: (usize, usize)|
                valid_move(board.cells(), board.sz(), m2.0, m2.1, stone.to_u8())
                    ==> successor_eval(
                    board.cells(),
                    board.sz(),
                    board.cap_black(),
                    board.cap_white(),
                    stone,
                    m2,
                ) <= successor_eval(
                    board.cells(),
                    board.sz(),
                    board.cap_black(),
                    board.cap_white(),
                    stone,
                    m,
                )) && (forall|m2: (usize, usize)|
                valid_move(board.cells(), board.sz(), m2.0, m2.1, stone.to_u8()) && scan_lt(m2, m)
                    ==> successor_eval(
                    board.cells(),
                    board.sz(),
                    board.cap_black(),
                    board.cap_white(),
                    stone,
                    m2,
                ) < successor_eval(
                    board.cells(),
                    board.sz(),
                    board.cap_black(),
                    board.cap_white(),
                    stone,
                    m,
                )))),
    {
        let valid_moves = all_valid_moves(board, stone);
        if valid_moves.is_empty() {
            proof {
                assert forall|m: (usize, usize)| !valid_move(
                    board.cells(),
                    board.sz(),
                    m.0,
                    m.1,
                    stone.to_u8(),
                ) by {
                    if valid_move(board.cells(), board.sz(), m.0, m.1, stone.to_u8()) {
                        assert(valid_moves@.contains(m));
                    }
                }
            }
            return None;
        }
        let root_hash = board.get_hash();
        let ghost g0 = board.cells();
        let ghost size = board.sz();
        let ghost cb = board.cap_black();
        let ghost cw = board.cap_white();
        let mut best_idx: usize = 0;
        let mut found = false;
        let mut best_score: i64 = 0;
        let mut i: usize = 0;
        while i < valid_moves.len()
            invariant
                board.wf(),
                g0 == board.cells(),
                size == board.sz(),
                cb == board.cap_black(),
                cw == board.cap_white(),
                best_idx < valid_moves@.len(),
                valid_moves@.len() >= 1,
                i >= 1 ==> found,
                found ==> best_idx < i,
                forall|m: (usize, usize)| #[trigger]
                    valid_moves@.contains(m) <==> valid_move(
                        board.cells(),
                        board.sz(),
                        m.0,
                        m.1,
                        stone.to_u8(),
                    ),
                forall|k1: int, k2: int|
                    0 <= k1 < k2 < valid_moves@.len() ==> scan_lt(
                        #[trigger] valid_moves@[k1],
                        #[trigger] valid_moves@[k2],
                    ),
                self.max_depth <= 1 && found ==> best_score as int == successor_eval(
                    g0,
                    size,
                    cb,
                    cw,
                    stone,
                    valid_moves@[best_idx as int],
                ),
                self.max_depth <= 1 && found ==> (forall|k: int|
                    0 <= k < i ==> successor_eval(g0, size, cb, cw, stone, #[trigger] valid_moves@[k])
                        <= best_score as int),
                self.max_depth <= 1 && found ==> (forall|k: int|
                    0 <= k < best_idx ==> successor_eval(
                        g0,
                        size,
                        cb,
                        cw,
                        stone,
                        #[trigger] valid_moves@[k],
                    ) < best_score as int),
            decreases valid_moves@.len() - i,
        {
            let (x, y) = valid_moves[i];
            proof {
                assert((x, y) == valid_moves@[i as int]);
                assert(valid_moves@.contains(valid_moves@[i as int]));
            }
            let mut test_board = board.clone();
            match test_board.place_stone(x, y, stone) {
                Ok(_) => {
                    let score = if self.max_depth <= 1 {
                        let sc = self.evaluate_board(&test_board, stone);
                        proof {
                            assert(test_board.cells() == place_result_grid(
                                g0.update(flat(size, (x, y)), stone.to_u8()),
                                size,
                                stone.to_u8(),
                                (x, y),
                            ));
                            assert(sc as int == successor_eval(g0, size, cb, cw, stone, (x, y)));
                        }
                        sc
                    } else {
                        let mut child_history: Vec<u64> = Vec::new();
                        child_history.push(root_hash);
                        child_history.push(test_board.get_hash());
                        self.minimax(
                            &test_board,
                            self.max_depth - 1,
                            false,
                            i64::MIN,
                            i64::MAX,
                            stone.opposite(),
                            stone,
                            &child_history,
                        )
                    };
                    if !found || score > best_score {
                        found = true;
                        best_score = score;
                        best_idx = i;
                    }
                },
                Err(_) => {
                    proof {
                        assert(false);
                    }
                },
            }
            i = i + 1;
        }
        proof {
            assert(valid_moves@.contains(valid_moves@[best_idx as int]));
            if self.max_depth <= 1 {
                let m = valid_moves@[best_idx as int];
                assert forall|m2: (usize, usize)|
                    valid_move(g0, size, m2.0, m2.1, stone.to_u8()) implies successor_eval(
                    g0,
                    size,
                    cb,
                    cw,
                    stone,
                    m2,
                ) <= successor_eval(g0, size, cb, cw, stone, m) by {
                    assert(valid_moves@.contains(m2));
                    let k = choose|k: int| 0 <= k < valid_moves@.len() && valid_moves@[k] == m2;
                    assert(successor_eval(g0, size, cb, cw, stone, valid_moves@[k]) <= best_score as int);
                }
                assert forall|m2: (usize, usize)|
                    valid_move(g0, size, m2.0, m2.1, stone.to_u8()) && scan_lt(m2, m) implies successor_eval(
                    g0,
                    size,
                    cb,
                    cw,
                    stone,
                    m2,
                ) < successor_eval(g0, size, cb, cw, stone, m) by {
                    assert(valid_moves@.contains(m2));
                    let k = choose|k: int| 0 <= k < valid_moves@.len() && valid_moves@[k] == m2;
                    if k > best_idx {
                        assert(scan_lt(valid_moves@[best_idx as int], valid_moves@[k]));
                        assert(false);
                    } else if k == best_idx {
                        assert(m2 == m);
                        assert(false);
                    }
                    assert(successor_eval(g0, size, cb, cw, stone, valid_moves@[k]) < best_score as int);
                }
            }
        }
        Some(valid_moves[best_idx])
    }
}

impl Player for MinimaxAI {
    fn name(&self) -> &str {
        self.name.as_str()
    }

    /// Pass exactly when no legal move exists; any returned move is legal.
    /// At depth one the choice is exactly the first row-major argmax of the
    /// successors' static evaluations.
    fn get_move(&self, board: &Board, stone: Stone) -> (r: Option<(usize, usize)>)
        ensures
            r is None <==> (forall|m: (usize, usize)|
                !valid_move(board.cells(), board.sz(), m.0, m.1, stone.to_u8())),
            self.depth() <= 1 ==> (r matches Some(m) ==> ((forall|m2: (usize, usize)|
                valid_move(board.cells(), board.sz(), m2.0, m2.1, stone.to_u8())
                    ==> successor_eval(
                    board.cells(),
                    board.sz(),
                    board.cap_black(),
                    board.cap_white(),
                    stone,
                    m2,
                ) <= successor_eval(
                    board.cells(),
                    board.sz(),
                    board.cap_black(),
                    board.cap_white(),
                    stone,
                    m,
                )) && (forall|m2: (usize, usize)|
                valid_move(board.cells(), board.sz(), m2.0, m2.1, stone.to_u8()) && scan_lt(m2, m)
                    ==> successor_eval(
                    board.cells(),
                    board.sz(),
                    board.cap_black(),
                    board.cap_white(),
                    stone,
                    m2,
                ) < successor_eval(
                    board.cells(),
                    board.sz(),
                    board.cap_black(),
                    board.cap_white(),
                    stone,
                    m,
                )))),
    {
        self.select_move(board, stone)
    }
}

} // verus!

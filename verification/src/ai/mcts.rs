//! Monte Carlo Tree Search with UCT selection.  The tree is an arena of
//! nodes addressed by index (children always have larger indices than their
//! parent, so selection strictly descends), and the traversal path is an
//! explicit list of indices, so backpropagation needs no back-pointers.
//! Each iteration selects by UCT, expands one untried move, plays a random
//! rollout and propagates the result; the move of the most-visited root
//! child is played.  Exploration terms are computed in fixed-point
//! milli-units (integer square root and base-two logarithm), keeping the
//! whole search in integer arithmetic.

use vstd::prelude::*;

use crate::ai::{all_valid_moves, sat_mul_u64, split_by_eye, SEARCH_ROUND_CAP};
use crate::board::{eye_at, eye_count, valid_move, Board, Stone};
use crate::clock::{elapsed_millis, instant_now};
use crate::player::{compose_name, Player};
use crate::rng::{fresh_rng, gen_index};

verus! {

/// A move the rollout policy may play from a position: legal, and avoiding
/// the mover's own eyes when the mover holds at most two eyes and has some
/// other legal move.
pub open spec fn rollout_candidate(g: Seq<u8>, size: int, su: u8, m: (usize, usize)) -> bool {
    &&& valid_move(g, size, m.0, m.1, su)
    &&& ((eye_count(g, size, su) <= 2 && (exists|q: (usize, usize)|
        valid_move(g, size, q.0, q.1, su) && !eye_at(g, size, q.0, q.1, su))) ==> !eye_at(
        g,
        size,
        m.0,
        m.1,
        su,
    ))
}

/// The legal moves the search and its rollouts consider: all legal moves,
/// except that a mover with at most two eyes keeps out of its own eyes
/// whenever any other legal move exists.
pub fn get_valid_moves(board: &Board, stone: Stone) -> (r: Vec<(usize, usize)>)
    requires
        board.wf(),
    ensures
        r@.no_duplicates(),
        forall|m: (usize, usize)| #[trigger]
            r@.contains(m) <==> rollout_candidate(board.cells(), board.sz(), stone.to_u8(), m),
{
    let ghost g = board.cells();
    let ghost size = board.sz();
    let ghost su = stone.to_u8();
    let all_moves = all_valid_moves(board, stone);
    let (_eye_moves, non_eye_moves) = split_by_eye(board, stone, &all_moves);
    let total_eyes = board.count_eyes_for_color(stone);
    let ghost ne = non_eye_moves@;
    let ghost av = all_moves@;
    let use_non_eye = total_eyes <= 2 && non_eye_moves.len() > 0;
    let r = if use_non_eye {
        non_eye_moves
    } else {
        all_moves
    };
    proof {
        assert forall|m: (usize, usize)| #[trigger] r@.contains(m) <==> rollout_candidate(
            g,
            size,
            su,
            m,
        ) by {
            if use_non_eye {
                assert(r@ == ne);
                assert(ne[0] == ne[0]);
                assert(ne.contains(ne[0]));
                assert(exists|q: (usize, usize)|
                    valid_move(g, size, q.0, q.1, su) && !eye_at(g, size, q.0, q.1, su));
            } else {
                assert(r@ == av);
                if total_eyes <= 2 {
                    assert forall|q: (usize, usize)|
                        !(valid_move(g, size, q.0, q.1, su) && !eye_at(g, size, q.0, q.1, su)) by {
                        if valid_move(g, size, q.0, q.1, su) && !eye_at(g, size, q.0, q.1, su) {
                            assert(ne.contains(q));
                        }
                    }
                }
            }
        }
    }
    r
}

/// A fresh vector with the same points.
fn copy_points(v: &Vec<(usize, usize)>) -> (r: Vec<(usize, usize)>)
    ensures
        r@ == v@,
{
    let mut r: Vec<(usize, usize)> = Vec::new();
    let mut i: usize = 0;
    while i < v.len()
        invariant
            i <= v@.len(),
            r@ == v@.take(i as int),
        decreases v@.len() - i,
    {
        r.push(v[i]);
        proof {
            assert(r@ =~= v@.take(i as int + 1));
        }
        i = i + 1;
    }
    proof {
        assert(r@ =~= v@);
    }
    r
}

/// A fresh vector with the same indices.
fn copy_indices(v: &Vec<usize>) -> (r: Vec<usize>)
    ensures
        r@ == v@,
{
    let mut r: Vec<usize> = Vec::new();
    let mut i: usize = 0;
    while i < v.len()
        invariant
            i <= v@.len(),
            r@ == v@.take(i as int),
        decreases v@.len() - i,
    {
        r.push(v[i]);
        proof {
            assert(r@ =~= v@.take(i as int + 1));
        }
        i = i + 1;
    }
    proof {
        assert(r@ =~= v@);
    }
    r
}

struct MctsNode {
    visits: u64,
    black_wins: u64,
    move_pos: Option<(usize, usize)>,
    player_to_move: Stone,
    children: Vec<usize>,
    untried_moves: Vec<(usize, usize)>,
}

/// Structural health of the node arena: child indices point strictly forward
/// (so the tree is acyclic) and stay inside the arena, and no node records
/// more wins than visits.
spec fn arena_wf(nodes: Seq<MctsNode>) -> bool {
    &&& forall|i: int, j: int|
        0 <= i < nodes.len() && 0 <= j < nodes[i].children@.len() ==> i < #[trigger] nodes[i].children@[j]
            < nodes.len()
    &&& forall|i: int| 0 <= i < nodes.len() ==> (#[trigger] nodes[i].black_wins) <= nodes[i].visits
}

/// The root's lists stay inside the root candidate set: every untried root
/// move and every root child's move is a rollout candidate of the root
/// position.
spec fn root_moves_ok(nodes: Seq<MctsNode>, g: Seq<u8>, size: int, su: u8) -> bool {
    &&& nodes.len() >= 1
    &&& forall|k: int|
        0 <= k < nodes[0].untried_moves@.len() ==> rollout_candidate(
            g,
            size,
            su,
            #[trigger] nodes[0].untried_moves@[k],
        )
    &&& forall|j: int|
        0 <= j < nodes[0].children@.len() ==> (nodes[#[trigger] nodes[0].children@[j] as int].move_pos
            matches Some(m) && rollout_candidate(g, size, su, m))
}

/// Floor of the base-two logarithm (zero for inputs below two).
fn ilog2_floor(n: u64) -> (r: u64)
    ensures
        r <= 64,
{
    let mut v = n;
    let mut r: u64 = 0;
    while v >= 2 && r < 64
        invariant
            r <= 64,
        decreases 64 - r,
    {
        v = v / 2;
        r = r + 1;
    }
    r
}

/// Integer square root by bisection (exact floor for inputs up to 2^64).
fn isqrt(x: u64) -> (r: u64)
    ensures
        r <= 0x1_0000_0000u64,
{
    let mut lo: u64 = 0;
    let mut hi: u64 = if x < 0x1_0000_0000u64 {
        x
    } else {
        0x1_0000_0000u64
    };
    while lo < hi
        invariant
            lo <= hi <= 0x1_0000_0000u64,
        decreases hi - lo,
    {
        let mid = lo + (hi - lo + 1) / 2;
        if mid <= x / mid {
            lo = mid;
        } else {
            hi = mid - 1;
        }
    }
    lo
}

/// UCT in milli-units, from the parent mover's perspective: the child's win
/// rate plus `exploration * sqrt(ln(parent visits) / child visits)`, every
/// term clamped into a fixed range.
fn uct_value_milli(
    visits: u64,
    black_wins: u64,
    parent_visits: u64,
    exploration_milli: u64,
    parent_is_black: bool,
) -> (r: u64)
    requires
        visits >= 1,
        black_wins <= visits,
{
    let q: u128 = ((black_wins as u128) * 1000) / (visits as u128);
    let black_rate: u64 = if q > 1000 {
        1000
    } else {
        q as u64
    };
    let win_rate: u64 = if parent_is_black {
        black_rate
    } else {
        1000 - black_rate
    };
    let pv = if parent_visits >= 1 {
        parent_visits
    } else {
        1
    };
    let ln_milli: u64 = ilog2_floor(pv) * 693;
    let ratio: u128 = ((ln_milli as u128) * 1000) / (visits as u128);
    let ratio64: u64 = if ratio > 100_000_000 {
        100_000_000
    } else {
        ratio as u64
    };
    let root = isqrt(ratio64 * 1000);
    let em: u64 = if exploration_milli > 1_000_000 {
        1_000_000
    } else {
        exploration_milli
    };
    proof {
        assert((em as int) * (root as int) <= 1000000int * 0x1_0000_0000int) by (nonlinear_arith)
            requires
                0 <= em <= 1000000 && 0 <= root <= 0x1_0000_0000,
        ;
    }
    let expl: u128 = ((em as u128) * (root as u128)) / 1000;
    let expl64: u64 = if expl > 1_000_000_000 {
        1_000_000_000
    } else {
        expl as u64
    };
    win_rate + expl64
}

/// The child of `idx` with the highest UCT value (an unvisited child has
/// infinite priority), or `None` when `idx` has no children.
fn select_child(nodes: &Vec<MctsNode>, idx: usize, exploration_milli: u64) -> (r: Option<usize>)
    requires
        arena_wf(nodes@),
        idx < nodes@.len(),
    ensures
        r matches Some(c) ==> idx < c < nodes@.len(),
        r is None <==> nodes@[idx as int].children@.len() == 0,
{
    let child_count = nodes[idx].children.len();
    if child_count == 0 {
        return None;
    }
    let parent_visits = nodes[idx].visits;
    let parent_is_black = nodes[idx].player_to_move == Stone::Black;
    let mut best_c = nodes[idx].children[0];
    proof {
        assert(idx < nodes@[idx as int].children@[0] < nodes@.len());
    }
    let first_visits = nodes[best_c].visits;
    if first_visits == 0 {
        return Some(best_c);
    }
    let mut best_val = uct_value_milli(
        first_visits,
        nodes[best_c].black_wins,
        parent_visits,
        exploration_milli,
        parent_is_black,
    );
    let mut j: usize = 1;
    while j < child_count
        invariant
            arena_wf(nodes@),
            idx < nodes@.len(),
            child_count == nodes@[idx as int].children@.len(),
            idx < best_c < nodes@.len(),
            j <= child_count,
        decreases child_count - j,
    {
        let c = nodes[idx].children[j];
        proof {
            assert(idx < nodes@[idx as int].children@[j as int] < nodes@.len());
        }
        let v = nodes[c].visits;
        if v == 0 {
            return Some(c);
        }
        let val = uct_value_milli(
            v,
            nodes[c].black_wins,
            parent_visits,
            exploration_milli,
            parent_is_black,
        );
        if val > best_val {
            best_val = val;
            best_c = c;
        }
        j = j + 1;
    }
    Some(best_c)
}

pub struct Mcts {
    name: String,
    time_limit_millis: u64,
    exploration_milli: u64,
}

impl Mcts {
    pub fn new(time_seconds: u64) -> (r: Mcts) {
        Mcts {
            name: compose_name("MCTS AI (", time_seconds, "s)"),
            time_limit_millis: sat_mul_u64(time_seconds, 1000),
            exploration_milli: 1400,
        }
    }

    pub fn new_with_millis(time_millis: u64) -> (r: Mcts) {
        Mcts {
            name: compose_name("MCTS AI (", time_millis, "ms)"),
            time_limit_millis: time_millis,
            exploration_milli: 1400,
        }
    }

    /// One random playout with `stone` to move, bounded by a move cap.
    /// Returns 2 for a clear win of `stone` (margin over two points, eye
    /// bonus included), 0 for a clear loss, 1 for a close game.
    fn simulate(&self, board: &Board, stone: Stone) -> (r: u32)
        requires
            board.wf(),
        ensures
            r <= 2,
    {
        let mut sim_board = board.clone();
        let mut current_turn = stone;
        let mut consecutive_passes: usize = 0;
        let mut rng = fresh_rng();
        let max_moves = board.cell_count();
        let mut moves: usize = 0;
        while moves < max_moves
            invariant
                sim_board.wf(),
            decreases max_moves - moves,
        {
            let valid_moves = get_valid_moves(&sim_board, current_turn);
            if valid_moves.is_empty() {
                consecutive_passes = consecutive_passes.saturating_add(1);
                if consecutive_passes >= 2 {
                    break ;
                }
            } else {
                let idx = gen_index(&mut rng, valid_moves.len());
                let (x, y) = valid_moves[idx];
                match sim_board.place_stone(x, y, current_turn) {
                    Ok(_) => {
                        consecutive_passes = 0;
                    },
                    Err(_) => {},
                }
            }
            current_turn = current_turn.opposite();
            moves = moves + 1;
        }
        self.rollout_margin(&sim_board, stone)
    }

    /// Margin classification of a finished rollout for `stone`.  Each side's
    /// total is its stones plus capture credit plus a five-point bonus for
    /// holding at least two eyes (all saturating); the result is 2 for a win
    /// by more than two points, 0 for a loss by more than two, 1 otherwise.
    fn rollout_margin(&self, board: &Board, stone: Stone) -> (r: u32)
        requires
            board.wf(),
        ensures
            ({
                let fb = crate::board::sat_add_usize(
                    crate::board::sat_add_usize(
                        crate::board::count_color(board.cells(), crate::board::BLACK),
                        board.cap_black(),
                    ),
                    if eye_count(board.cells(), board.sz(), crate::board::BLACK) >= 2 {
                        5int
                    } else {
                        0int
                    },
                );
                let fw = crate::board::sat_add_usize(
                    crate::board::sat_add_usize(
                        crate::board::count_color(board.cells(), crate::board::WHITE),
                        board.cap_white(),
                    ),
                    if eye_count(board.cells(), board.sz(), crate::board::WHITE) >= 2 {
                        5int
                    } else {
                        0int
                    },
                );
                let mine = if stone == Stone::Black {
                    fb
                } else {
                    fw
                };
                let theirs = if stone == Stone::Black {
                    fw
                } else {
                    fb
                };
                r == if mine > crate::board::sat_add_usize(theirs, 2) {
                    2int
                } else if theirs > crate::board::sat_add_usize(mine, 2) {
                    0int
                } else {
                    1int
                }
            }),
    {
        let (black_stones, white_stones) = board.count_stones();
        let (black_captured, white_captured) = board.get_captured();
        let black_eyes = board.count_eyes_for_color(Stone::Black);
        let white_eyes = board.count_eyes_for_color(Stone::White);
        let black_bonus: usize = if black_eyes >= 2 {
            5
        } else {
            0
        };
        let white_bonus: usize = if white_eyes >= 2 {
            5
        } else {
            0
        };
        let final_black = black_stones.saturating_add(black_captured).saturating_add(black_bonus);
        let final_white = white_stones.saturating_add(white_captured).saturating_add(white_bonus);
        let (mine, theirs) = match stone {
            Stone::Black => (final_black, final_white),
            Stone::White => (final_white, final_black),
        };
        if mine > theirs.saturating_add(2) {
            2
        } else if theirs > mine.saturating_add(2) {
            0
        } else {
            1
        }
    }

    /// One search iteration: selection down the tree, expansion of one
    /// untried move (with the per-path Ko check), a rollout, and
    /// backpropagation along the path.
    #[verifier::rlimit(100)]
    fn search_iteration(
        &self,
        board: &Board,
        stone: Stone,
        nodes: &mut Vec<MctsNode>,
        rng: &mut rand::rngs::ThreadRng,
    )
        requires
            board.wf(),
            old(nodes)@.len() >= 1,
            arena_wf(old(nodes)@),
            root_moves_ok(old(nodes)@, board.cells(), board.sz(), stone.to_u8()),
        ensures
            final(nodes)@.len() >= 1,
            arena_wf(final(nodes)@),
            root_moves_ok(final(nodes)@, board.cells(), board.sz(), stone.to_u8()),
    {
        let ghost g = board.cells();
        let ghost size = board.sz();
        let ghost su = stone.to_u8();
        let mut current_board = board.clone();
        let mut current: usize = 0;
        let mut path: Vec<usize> = Vec::new();
        path.push(0);
        let mut current_player = stone;
        let mut hash_path: Vec<u64> = Vec::new();
        hash_path.push(current_board.get_hash());
        // selection
        while nodes[current].untried_moves.len() == 0 && nodes[current].children.len() > 0
            invariant
                board.wf(),
                nodes@.len() >= 1,
                arena_wf(nodes@),
                current < nodes@.len(),
                current_board.wf(),
                hash_path@.len() >= 1,
                forall|k: int| 0 <= k < path@.len() ==> #[trigger] path@[k] < nodes@.len(),
            decreases nodes@.len() - current,
        {
            match select_child(&nodes, current, self.exploration_milli) {
                Some(child) => {
                    match nodes[child].move_pos {
                        Some((mx, my)) => {
                            let _ = current_board.place_stone(mx, my, current_player);
                        },
                        None => {},
                    }
                    current_player = current_player.opposite();
                    hash_path.push(current_board.get_hash());
                    current = child;
                    path.push(child);
                },
                None => {
                    break ;
                },
            }
        }
        // expansion
        if nodes[current].untried_moves.len() > 0 {
            let pick = gen_index(rng, nodes[current].untried_moves.len());
            let mut new_untried = copy_points(&nodes[current].untried_moves);
            let chosen = new_untried.remove(pick);
            proof {
                assert(chosen == nodes@[current as int].untried_moves@[pick as int]);
            }
            let updated = MctsNode {
                visits: nodes[current].visits,
                black_wins: nodes[current].black_wins,
                move_pos: nodes[current].move_pos,
                player_to_move: nodes[current].player_to_move,
                children: copy_indices(&nodes[current].children),
                untried_moves: new_untried,
            };
            let ghost pre_nodes = nodes@;
            let ghost old_untried = pre_nodes[current as int].untried_moves@;
            nodes.set(current, updated);
            proof {
                if current == 0 {
                    assert forall|k: int|
                        0 <= k < nodes@[0].untried_moves@.len() implies rollout_candidate(
                        g,
                        size,
                        su,
                        #[trigger] nodes@[0].untried_moves@[k],
                    ) by {
                        assert(nodes@[0].untried_moves@ == old_untried.remove(pick as int));
                        if k < pick {
                            assert(nodes@[0].untried_moves@[k] == old_untried[k]);
                        } else {
                            assert(nodes@[0].untried_moves@[k] == old_untried[k + 1]);
                        }
                    }
                }
                lemma_arena_set_preserves(pre_nodes, nodes@, current as int, g, size, su);
            }
            let mut child_board = current_board.clone();
            match child_board.place_stone(chosen.0, chosen.1, current_player) {
                Ok(_) => {
                    let h = child_board.get_hash();
                    let hp = hash_path.len();
                    if !(hp >= 2 && hash_path[hp - 2] == h) {
                        let child_moves = get_valid_moves(&child_board, current_player.opposite());
                        let new_idx = nodes.len();
                        let ghost pre_push = nodes@;
                        nodes.push(
                            MctsNode {
                                visits: 0,
                                black_wins: 0,
                                move_pos: Some(chosen),
                                player_to_move: current_player.opposite(),
                                children: Vec::new(),
                                untried_moves: child_moves,
                            },
                        );
                        proof {
                            lemma_arena_push_preserves(pre_push, nodes@, g, size, su);
                        }
                        let mut new_children = copy_indices(&nodes[current].children);
                        new_children.push(new_idx);
                        let updated2 = MctsNode {
                            visits: nodes[current].visits,
                            black_wins: nodes[current].black_wins,
                            move_pos: nodes[current].move_pos,
                            player_to_move: nodes[current].player_to_move,
                            children: new_children,
                            untried_moves: copy_points(&nodes[current].untried_moves),
                        };
                        let nl = nodes.len();
                        let ghost pre_link = nodes@;
                        nodes.set(current, updated2);
                        proof {
                            lemma_arena_link_preserves(
                                pre_link,
                                nodes@,
                                current as int,
                                new_idx,
                                g,
                                size,
                                su,
                            );
                        }
                        current_board = child_board;
                        current_player = current_player.opposite();
                        hash_path.push(h);
                        path.push(new_idx);
                        current = new_idx;
                    }
                },
                Err(_) => {},
            }
        }
        // simulation
        let sim = self.simulate(&current_board, current_player);
        let black_won = match current_player {
            Stone::Black => sim == 2,
            Stone::White => sim == 0,
        };
        // backpropagation
        let mut p: usize = 0;
        while p < path.len()
            invariant
                nodes@.len() >= 1,
                arena_wf(nodes@),
                root_moves_ok(nodes@, g, size, su),
                forall|k: int| 0 <= k < path@.len() ==> #[trigger] path@[k] < nodes@.len(),
                p <= path@.len(),
            decreases path@.len() - p,
        {
            let t = path[p];
            proof {
                assert(path@[p as int] < nodes@.len());
            }
            let nv = nodes[t].visits.saturating_add(1);
            let nw = if black_won {
                nodes[t].black_wins.saturating_add(1)
            } else {
                nodes[t].black_wins
            };
            let updated = MctsNode {
                visits: nv,
                black_wins: nw,
                move_pos: nodes[t].move_pos,
                player_to_move: nodes[t].player_to_move,
                children: copy_indices(&nodes[t].children),
                untried_moves: copy_points(&nodes[t].untried_moves),
            };
            let ghost pre_nodes = nodes@;
            nodes.set(t, updated);
            proof {
                lemma_arena_set_preserves(pre_nodes, nodes@, t as int, g, size, su);
            }
            p = p + 1;
        }
    }

    /// The full search: selection by UCT down the arena, expansion of one
    /// untried move (skipping one that would repeat the position two plies
    /// back on the current path), a random rollout, and backpropagation along
    /// the recorded path.  The most-visited root child's move is returned; a
    /// position with exactly one candidate returns it immediately.
    #[verifier::rlimit(100)]
    fn run_mcts(&self, board: &Board, stone: Stone) -> (r: Option<(usize, usize)>)
        requires
            board.wf(),
        ensures
            r matches Some(m) ==> rollout_candidate(
                board.cells(),
                board.sz(),
                stone.to_u8(),
                m,
            ),
            (forall|m: (usize, usize)|
                !rollout_candidate(board.cells(), board.sz(), stone.to_u8(), m)) ==> r is None,
            forall|m: (usize, usize)|
                (rollout_candidate(board.cells(), board.sz(), stone.to_u8(), m) && (forall|
                    m2: (usize, usize),
                |
                    rollout_candidate(board.cells(), board.sz(), stone.to_u8(), m2) ==> m2 == m))
                    ==> r == Some(m),
    {
        let ghost g = board.cells();
        let ghost size = board.sz();
        let ghost su = stone.to_u8();
        let candidates = get_valid_moves(board, stone);
        if candidates.is_empty() {
            proof {
                assert forall|m: (usize, usize)| !rollout_candidate(g, size, su, m) by {
                    if rollout_candidate(g, size, su, m) {
                        assert(candidates@.contains(m));
                    }
                }
            }
            return None;
        }
        if candidates.len() == 1 {
            proof {
                assert(candidates@.contains(candidates@[0]));
            }
            return Some(candidates[0]);
        }
        proof {
            assert(candidates@.contains(candidates@[0]));
            assert(candidates@.contains(candidates@[1]));
            assert(candidates@[0] != candidates@[1]);
            assert forall|m: (usize, usize)|
                !(rollout_candidate(g, size, su, m) && (forall|m2: (usize, usize)|
                    rollout_candidate(g, size, su, m2) ==> m2 == m)) by {
                if rollout_candidate(g, size, su, m) && (forall|m2: (usize, usize)|
                    rollout_candidate(g, size, su, m2) ==> m2 == m) {
                    assert(candidates@[0] == m && candidates@[1] == m);
                }
            }
        }
        let mut rng = fresh_rng();
        let ghost cand = candidates@;
        let mut nodes: Vec<MctsNode> = Vec::new();
        nodes.push(
            MctsNode {
                visits: 0,
                black_wins: 0,
                move_pos: None,
                player_to_move: stone,
                children: Vec::new(),
                untried_moves: candidates,
            },
        );
        proof {
            assert(nodes@[0].untried_moves@ == cand);
            assert forall|k: int| 0 <= k < nodes@[0].untried_moves@.len() implies rollout_candidate(
                g,
                size,
                su,
                #[trigger] nodes@[0].untried_moves@[k],
            ) by {
                assert(cand.contains(cand[k]));
            }
        }
        let start_time = instant_now();
        let mut iters: u64 = 0;
        while iters < SEARCH_ROUND_CAP && elapsed_millis(&start_time) < self.time_limit_millis
            invariant
                board.wf(),
                g == board.cells(),
                size == board.sz(),
                su == stone.to_u8(),
                nodes@.len() >= 1,
                arena_wf(nodes@),
                root_moves_ok(nodes@, g, size, su),
            decreases SEARCH_ROUND_CAP - iters,
        {
            self.search_iteration(board, stone, &mut nodes, &mut rng);
            iters = iters + 1;
        }
        // best root child by visit count
        let root_child_count = nodes[0].children.len();
        if root_child_count == 0 {
            return None;
        }
        let mut best_j: usize = 0;
        let mut best_visits: u64 = 0;
        let mut j: usize = 0;
        while j < root_child_count
            invariant
                nodes@.len() >= 1,
                arena_wf(nodes@),
                root_moves_ok(nodes@, g, size, su),
                g == board.cells(),
                size == board.sz(),
                su == stone.to_u8(),
                root_child_count == nodes@[0].children@.len(),
                best_j < root_child_count,
                j <= root_child_count,
            decreases root_child_count - j,
        {
            let c = nodes[0].children[j];
            proof {
                assert(0 < nodes@[0].children@[j as int] < nodes@.len());
            }
            if nodes[c].visits >= best_visits {
                best_visits = nodes[c].visits;
                best_j = j;
            }
            j = j + 1;
        }
        let best_c = nodes[0].children[best_j];
        proof {
            assert(0 < nodes@[0].children@[best_j as int] < nodes@.len());
        }
        match nodes[best_c].move_pos {
            Some(m) => Some(m),
            None => {
                proof {
                    assert(false);
                }
                None
            },
        }
    }
}

/// Replacing one node with a copy whose children and untried list have the
/// same views (and whose counters still satisfy wins <= visits) preserves the
/// arena invariants.
proof fn lemma_arena_set_preserves(
    pre: Seq<MctsNode>,
    post: Seq<MctsNode>,
    t: int,
    g: Seq<u8>,
    size: int,
    su: u8,
)
    requires
        0 <= t < pre.len(),
        post == pre.update(t, post[t]),
        post.len() == pre.len(),
        post[t].children@ == pre[t].children@,
        t == 0 ==> forall|k: int|
            0 <= k < post[0].untried_moves@.len() ==> rollout_candidate(
                g,
                size,
                su,
                #[trigger] post[0].untried_moves@[k],
            ),
        post[t].move_pos == pre[t].move_pos,
        post[t].black_wins <= post[t].visits,
        arena_wf(pre),
        root_moves_ok(pre, g, size, su),
    ensures
        arena_wf(post),
        root_moves_ok(post, g, size, su),
{
    assert forall|i: int, j: int|
        0 <= i < post.len() && 0 <= j < post[i].children@.len() implies i < #[trigger] post[i].children@[j]
        < post.len() by {
        if i == t {
            assert(pre[i].children@[j] == post[i].children@[j]);
        }
    }
    assert forall|i: int| 0 <= i < post.len() implies (#[trigger] post[i].black_wins)
        <= post[i].visits by {
        if i != t {
            assert(post[i] == pre[i]);
        }
    }
    assert forall|k: int| 0 <= k < post[0].untried_moves@.len() implies rollout_candidate(
        g,
        size,
        su,
        #[trigger] post[0].untried_moves@[k],
    ) by {
        if t != 0 {
            assert(post[0] == pre[0]);
            assert(post[0].untried_moves@[k] == pre[0].untried_moves@[k]);
        }
    }
    assert forall|j: int| 0 <= j < post[0].children@.len() implies (post[#[trigger] post[0].children@[j] as int].move_pos
        matches Some(m) && rollout_candidate(g, size, su, m)) by {
        if t == 0 {
            let c = post[0].children@[j];
            assert(pre[0].children@[j] == c);
            assert(0 < c < pre.len());
            assert(post[c as int].move_pos == pre[c as int].move_pos);
        } else {
            assert(post[0] == pre[0]);
            let c = post[0].children@[j];
            assert(pre[0].children@[j] == c);
            assert(0 < c < pre.len());
            if c != t {
                assert(post[c as int] == pre[c as int]);
            }
        }
    }
}

/// Appending a fresh leaf (no children) preserves the arena invariants; the
/// root's lists are untouched.
proof fn lemma_arena_push_preserves(
    pre: Seq<MctsNode>,
    post: Seq<MctsNode>,
    g: Seq<u8>,
    size: int,
    su: u8,
)
    requires
        pre.len() >= 1,
        post == pre.push(post.last()),
        post.last().children@.len() == 0,
        post.last().black_wins <= post.last().visits,
        arena_wf(pre),
        root_moves_ok(pre, g, size, su),
    ensures
        arena_wf(post),
        root_moves_ok(post, g, size, su),
{
    assert(post.len() == pre.len() + 1);
    assert forall|i: int, j: int|
        0 <= i < post.len() && 0 <= j < post[i].children@.len() implies i < #[trigger] post[i].children@[j]
        < post.len() by {
        if i < pre.len() {
            assert(post[i] == pre[i]);
        }
    }
    assert forall|i: int| 0 <= i < post.len() implies (#[trigger] post[i].black_wins)
        <= post[i].visits by {
        if i < pre.len() {
            assert(post[i] == pre[i]);
        }
    }
    assert(post[0] == pre[0]);
    assert forall|j: int| 0 <= j < post[0].children@.len() implies (post[#[trigger] post[0].children@[j] as int].move_pos
        matches Some(m) && rollout_candidate(g, size, su, m)) by {
        let c = post[0].children@[j];
        assert(pre[0].children@[j] == c);
        assert(0 < c < pre.len());
        assert(post[c as int] == pre[c as int]);
    }
}

/// Linking a fresh leaf as one more child of node `t` (whose move is a root
/// candidate when `t` is the root) preserves the arena invariants.
proof fn lemma_arena_link_preserves(
    pre: Seq<MctsNode>,
    post: Seq<MctsNode>,
    t: int,
    new_idx: usize,
    g: Seq<u8>,
    size: int,
    su: u8,
)
    requires
        0 <= t < pre.len(),
        t < new_idx < pre.len(),
        pre.len() <= usize::MAX,
        post == pre.update(t, post[t]),
        post.len() == pre.len(),
        post[t].children@ == pre[t].children@.push(new_idx),
        post[t].untried_moves@ == pre[t].untried_moves@,
        post[t].move_pos == pre[t].move_pos,
        post[t].black_wins == pre[t].black_wins,
        post[t].visits == pre[t].visits,
        t == 0 ==> (pre[new_idx as int].move_pos matches Some(m) && rollout_candidate(
            g,
            size,
            su,
            m,
        )),
        arena_wf(pre),
        root_moves_ok(pre, g, size, su),
    ensures
        arena_wf(post),
        root_moves_ok(post, g, size, su),
{
    assert forall|i: int, j: int|
        0 <= i < post.len() && 0 <= j < post[i].children@.len() implies i < #[trigger] post[i].children@[j]
        < post.len() by {
        if i == t {
            if j < pre[t].children@.len() {
                assert(post[i].children@[j] == pre[t].children@[j]);
            } else {
                assert(post[i].children@[j] == new_idx);
            }
        }
    }
    assert forall|i: int| 0 <= i < post.len() implies (#[trigger] post[i].black_wins)
        <= post[i].visits by {
        if i != t {
            assert(post[i] == pre[i]);
        }
    }
    assert forall|k: int| 0 <= k < post[0].untried_moves@.len() implies rollout_candidate(
        g,
        size,
        su,
        #[trigger] post[0].untried_moves@[k],
    ) by {
        if t == 0 {
            assert(post[0].untried_moves@[k] == pre[0].untried_moves@[k]);
        } else {
            assert(post[0] == pre[0]);
        }
    }
    assert forall|j: int| 0 <= j < post[0].children@.len() implies (post[#[trigger] post[0].children@[j] as int].move_pos
        matches Some(m) && rollout_candidate(g, size, su, m)) by {
        if t == 0 {
            let c = post[0].children@[j];
            if j < pre[0].children@.len() {
                assert(pre[0].children@[j] == c);
                assert(0 < c < pre.len());
                if c != t {
                    assert(post[c as int] == pre[c as int]);
                }
            } else {
                assert(c == new_idx);
                assert(post[c as int] == pre[c as int]);
            }
        } else {
            assert(post[0] == pre[0]);
            let c = post[0].children@[j];
            assert(pre[0].children@[j] == c);
            assert(0 < c < pre.len());
            if c != t {
                assert(post[c as int] == pre[c as int]);
            } else {
                assert(post[t].move_pos == pre[t].move_pos);
            }
        }
    }
}

impl Player for Mcts {
    fn name(&self) -> &str {
        self.name.as_str()
    }

    /// Any returned move is a rollout candidate of the position; with no
    /// candidate the agent passes, and with exactly one candidate it is
    /// returned immediately, without any simulation.
    fn get_move(&self, board: &Board, stone: Stone) -> (r: Option<(usize, usize)>)
        ensures
            r matches Some(m) ==> rollout_candidate(board.cells(), board.sz(), stone.to_u8(), m),
            (forall|m: (usize, usize)|
                !rollout_candidate(board.cells(), board.sz(), stone.to_u8(), m)) ==> r is None,
            forall|m: (usize, usize)|
                (rollout_candidate(board.cells(), board.sz(), stone.to_u8(), m) && (forall|
                    m2: (usize, usize),
                |
                    rollout_candidate(board.cells(), board.sz(), stone.to_u8(), m2) ==> m2 == m))
                    ==> r == Some(m),
    {
        self.run_mcts(board, stone)
    }
}

} // verus!

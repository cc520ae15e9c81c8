//! Move-selection agents: a uniform random player with eye protection, a
//! depth-limited minimax player with alpha-beta pruning and positional
//! bonuses, and a flat Monte Carlo player that spreads rollouts over every
//! candidate move until its time budget runs out.

pub mod fast_random;
pub mod light_random;
pub mod mc;
pub mod mcts;
pub mod minimax;
pub mod random;

use vstd::prelude::*;

use crate::ai::minimax::material_of;
use crate::board::{
    count_color, eye_at, eye_count, lemma_contains_push_iff, lemma_no_dup_push, valid_move, Board,
    Stone, BLACK, WHITE,
};
use crate::clock::{elapsed_millis, instant_now};
use crate::player::{compose_name, Player};
use crate::rng::{fresh_rng, gen_index};

verus! {

/// Upper bound on outer search rounds, so that every time-budgeted loop is
/// also step-budgeted.
pub const SEARCH_ROUND_CAP: u64 = 1_000_000_000;

/// A move the random and Monte Carlo agents may play: legal, and not one of
/// the mover's own eyes unless the mover holds more than two eyes.
pub open spec fn permitted_move(g: Seq<u8>, size: int, su: u8, m: (usize, usize)) -> bool {
    valid_move(g, size, m.0, m.1, su) && (eye_count(g, size, su) > 2 || !eye_at(
        g,
        size,
        m.0,
        m.1,
        su,
    ))
}

/// `a` precedes `b` in row-major scan order.
pub open spec fn scan_lt(a: (usize, usize), b: (usize, usize)) -> bool {
    a.1 < b.1 || (a.1 == b.1 && a.0 < b.0)
}

/// Every legal move for `stone`, in row-major scan order, each exactly once.
pub(crate) fn all_valid_moves(board: &Board, stone: Stone) -> (r: Vec<(usize, usize)>)
    requires
        board.wf(),
    ensures
        r@.no_duplicates(),
        forall|m: (usize, usize)| #[trigger]
            r@.contains(m) <==> valid_move(board.cells(), board.sz(), m.0, m.1, stone.to_u8()),
        forall|k1: int, k2: int| 0 <= k1 < k2 < r@.len() ==> scan_lt(#[trigger] r@[k1], #[trigger] r@[k2]),
{
    let ghost g = board.cells();
    let ghost size = board.sz();
    let ghost su = stone.to_u8();
    let n = board.size();
    let mut moves: Vec<(usize, usize)> = Vec::new();
    let mut y: usize = 0;
    while y < n
        invariant
            board.wf(),
            g == board.cells(),
            size == board.sz(),
            su == stone.to_u8(),
            n == size,
            y <= n,
            moves@.no_duplicates(),
            forall|m: (usize, usize)| #[trigger]
                moves@.contains(m) <==> (valid_move(g, size, m.0, m.1, su) && m.1 < y),
            forall|k1: int, k2: int|
                0 <= k1 < k2 < moves@.len() ==> scan_lt(
                    #[trigger] moves@[k1],
                    #[trigger] moves@[k2],
                ),
        decreases n - y,
    {
        let mut x: usize = 0;
        while x < n
            invariant
                board.wf(),
                g == board.cells(),
                size == board.sz(),
                su == stone.to_u8(),
                n == size,
                y < n,
                x <= n,
                moves@.no_duplicates(),
                forall|m: (usize, usize)| #[trigger]
                    moves@.contains(m) <==> (valid_move(g, size, m.0, m.1, su) && (m.1 < y || (m.1
                        == y && m.0 < x))),
                forall|k1: int, k2: int|
                    0 <= k1 < k2 < moves@.len() ==> scan_lt(
                        #[trigger] moves@[k1],
                        #[trigger] moves@[k2],
                    ),
            decreases n - x,
        {
            if board.is_valid_move(x, y, stone) {
                let ghost pre = moves@;
                proof {
                    assert(!moves@.contains((x, y)));
                    lemma_contains_push_iff(moves@, (x, y));
                    lemma_no_dup_push(moves@, (x, y));
                }
                moves.push((x, y));
                proof {
                    assert forall|k1: int, k2: int|
                        0 <= k1 < k2 < moves@.len() implies scan_lt(
                        #[trigger] moves@[k1],
                        #[trigger] moves@[k2],
                    ) by {
                        if k2 == moves@.len() - 1 {
                            assert(moves@[k1] == pre[k1]);
                            assert(pre.contains(pre[k1]));
                            assert(moves@[k2] == ((x, y)));
                        } else {
                            assert(moves@[k1] == pre[k1] && moves@[k2] == pre[k2]);
                        }
                    }
                }
            }
            x = x + 1;
        }
        y = y + 1;
    }
    proof {
        assert forall|m: (usize, usize)| #[trigger] moves@.contains(m) <==> valid_move(
            g,
            size,
            m.0,
            m.1,
            su,
        ) by {
            if valid_move(g, size, m.0, m.1, su) {
                assert(m.1 < size);
            }
        }
    }
    moves
}

// ---------------------------------------------------------------------------
// Random agent
// ---------------------------------------------------------------------------
pub struct RandomAI {
    name: String,
}

impl RandomAI {
    pub fn new() -> (r: RandomAI) {
        RandomAI { name: "Random AI".to_owned() }
    }

    /// The random policy: pass exactly when no permitted move exists; with
    /// more than two own eyes mostly prefer non-eye moves but sometimes fill
    /// an eye; with two or fewer eyes never fill one.
    fn select_move(board: &Board, stone: Stone) -> (r: Option<(usize, usize)>)
        requires
            board.wf(),
        ensures
            r matches Some(m) ==> permitted_move(board.cells(), board.sz(), stone.to_u8(), m),
            r is None <==> (forall|m: (usize, usize)|
                !permitted_move(board.cells(), board.sz(), stone.to_u8(), m)),
    {
        let ghost g = board.cells();
        let ghost size = board.sz();
        let ghost su = stone.to_u8();
        let valid_moves = all_valid_moves(board, stone);
        let (eye_moves, non_eye_moves) = split_by_eye(board, stone, &valid_moves);
        if valid_moves.is_empty() {
            proof {
                assert forall|m: (usize, usize)| !permitted_move(g, size, su, m) by {
                    if valid_move(g, size, m.0, m.1, su) {
                        assert(valid_moves@.contains(m));
                    }
                }
            }
            return None;
        }
        let total_eyes = board.count_eyes_for_color(stone);
        let mut rng = fresh_rng();
        if total_eyes > 2 && eye_moves.len() > 0 {
            if non_eye_moves.len() > 0 {
                if gen_index(&mut rng, 10) < 8 {
                    let index = gen_index(&mut rng, non_eye_moves.len());
                    proof {
                        assert(non_eye_moves@.contains(non_eye_moves@[index as int]));
                        assert(permitted_move(board.cells(), board.sz(), stone.to_u8(), non_eye_moves@[index as int]));
                    }
                    return Some(non_eye_moves[index]);
                } else {
                    let index = gen_index(&mut rng, eye_moves.len());
                    proof {
                        assert(eye_moves@.contains(eye_moves@[index as int]));
                        assert(permitted_move(board.cells(), board.sz(), stone.to_u8(), eye_moves@[index as int]));
                    }
                    return Some(eye_moves[index]);
                }
            } else {
                let index = gen_index(&mut rng, eye_moves.len());
                proof {
                    assert(eye_moves@.contains(eye_moves@[index as int]));
                    assert(permitted_move(board.cells(), board.sz(), stone.to_u8(), eye_moves@[index as int]));
                }
                return Some(eye_moves[index]);
            }
        }
        if non_eye_moves.is_empty() {
            proof {
                assert(valid_moves@.contains(valid_moves@[0]));
                let m0 = valid_moves@[0];
                if total_eyes > 2 {
                    assert(eye_moves@.contains(m0) || non_eye_moves@.contains(m0));
                    assert(false);
                }
                assert forall|m: (usize, usize)| !permitted_move(g, size, su, m) by {
                    if valid_move(g, size, m.0, m.1, su) && !eye_at(g, size, m.0, m.1, su) {
                        assert(non_eye_moves@.contains(m));
                    }
                }
            }
            return None;
        }
        let index = gen_index(&mut rng, non_eye_moves.len());
        proof {
            assert(non_eye_moves@.contains(non_eye_moves@[index as int]));
            assert(permitted_move(board.cells(), board.sz(), stone.to_u8(), non_eye_moves@[index as int]));
        }
        Some(non_eye_moves[index])
    }
}

/// Partition a list of legal moves into eye-moves and non-eye-moves for the
/// given colour.
pub(crate) fn split_by_eye(board: &Board, stone: Stone, valid_moves: &Vec<(usize, usize)>) -> (r: (
    Vec<(usize, usize)>,
    Vec<(usize, usize)>,
))
    requires
        board.wf(),
        valid_moves@.no_duplicates(),
        forall|m: (usize, usize)| #[trigger]
            valid_moves@.contains(m) <==> valid_move(
                board.cells(),
                board.sz(),
                m.0,
                m.1,
                stone.to_u8(),
            ),
    ensures
        r.0@.no_duplicates(),
        r.1@.no_duplicates(),
        forall|m: (usize, usize)| #[trigger]
            r.0@.contains(m) <==> (valid_move(board.cells(), board.sz(), m.0, m.1, stone.to_u8())
                && eye_at(board.cells(), board.sz(), m.0, m.1, stone.to_u8())),
        forall|m: (usize, usize)| #[trigger]
            r.1@.contains(m) <==> (valid_move(board.cells(), board.sz(), m.0, m.1, stone.to_u8())
                && !eye_at(board.cells(), board.sz(), m.0, m.1, stone.to_u8())),
{
    let ghost g = board.cells();
    let ghost size = board.sz();
    let ghost su = stone.to_u8();
    let mut eye_moves: Vec<(usize, usize)> = Vec::new();
    let mut non_eye_moves: Vec<(usize, usize)> = Vec::new();
    let mut i: usize = 0;
    while i < valid_moves.len()
        invariant
            board.wf(),
            g == board.cells(),
            size == board.sz(),
            su == stone.to_u8(),
            i <= valid_moves@.len(),
            valid_moves@.no_duplicates(),
            forall|m: (usize, usize)| #[trigger]
                valid_moves@.contains(m) <==> valid_move(g, size, m.0, m.1, su),
            eye_moves@.no_duplicates(),
            non_eye_moves@.no_duplicates(),
            forall|m: (usize, usize)| #[trigger]
                eye_moves@.contains(m) <==> (exists|k: int|
                    0 <= k < i && valid_moves@[k] == m) && eye_at(g, size, m.0, m.1, su),
            forall|m: (usize, usize)| #[trigger]
                non_eye_moves@.contains(m) <==> (exists|k: int|
                    0 <= k < i && valid_moves@[k] == m) && !eye_at(g, size, m.0, m.1, su),
        decreases valid_moves@.len() - i,
    {
        let (x, y) = valid_moves[i];
        proof {
            assert((x, y) == valid_moves@[i as int]);
            assert(valid_moves@.contains(valid_moves@[i as int]));
        }
        if board.is_eye(x, y, stone) {
            proof {
                if eye_moves@.contains((x, y)) {
                    let k = choose|k: int| 0 <= k < i && valid_moves@[k] == ((x, y));
                    assert(valid_moves@[k] == valid_moves@[i as int]);
                    assert(false);
                }
                lemma_contains_push_iff(eye_moves@, (x, y));
                lemma_no_dup_push(eye_moves@, (x, y));
            }
            eye_moves.push((x, y));
            proof {
                assert forall|m: (usize, usize)| #[trigger] eye_moves@.contains(m) <==> ((exists|
                    k: int,
                |
                    0 <= k < i + 1 && valid_moves@[k] == m) && eye_at(g, size, m.0, m.1, su)) by {
                    if m == ((x, y)) {
                        assert(valid_moves@[i as int] == m);
                    } else {
                        if exists|k: int| 0 <= k < i + 1 && valid_moves@[k] == m {
                            let k = choose|k: int| 0 <= k < i + 1 && valid_moves@[k] == m;
                            assert(k < i || valid_moves@[k] == ((x, y)));
                        }
                    }
                }
                assert forall|m: (usize, usize)| #[trigger] non_eye_moves@.contains(m) <==> ((
                exists|k: int| 0 <= k < i + 1 && valid_moves@[k] == m) && !eye_at(
                    g,
                    size,
                    m.0,
                    m.1,
                    su,
                )) by {
                    if m != ((x, y)) {
                        if exists|k: int| 0 <= k < i + 1 && valid_moves@[k] == m {
                            let k = choose|k: int| 0 <= k < i + 1 && valid_moves@[k] == m;
                            assert(k < i || valid_moves@[k] == ((x, y)));
                        }
                    }
                }
            }
        } else {
            proof {
                if non_eye_moves@.contains((x, y)) {
                    let k = choose|k: int| 0 <= k < i && valid_moves@[k] == ((x, y));
                    assert(valid_moves@[k] == valid_moves@[i as int]);
                    assert(false);
                }
                lemma_contains_push_iff(non_eye_moves@, (x, y));
                lemma_no_dup_push(non_eye_moves@, (x, y));
            }
            non_eye_moves.push((x, y));
            proof {
                assert forall|m: (usize, usize)| #[trigger] non_eye_moves@.contains(m) <==> ((
                exists|k: int| 0 <= k < i + 1 && valid_moves@[k] == m) && !eye_at(
                    g,
                    size,
                    m.0,
                    m.1,
                    su,
                )) by {
                    if m == ((x, y)) {
                        assert(valid_moves@[i as int] == m);
                    } else {
                        if exists|k: int| 0 <= k < i + 1 && valid_moves@[k] == m {
                            let k = choose|k: int| 0 <= k < i + 1 && valid_moves@[k] == m;
                            assert(k < i || valid_moves@[k] == ((x, y)));
                        }
                    }
                }
                assert forall|m: (usize, usize)| #[trigger] eye_moves@.contains(m) <==> ((exists|
                    k: int,
                |
                    0 <= k < i + 1 && valid_moves@[k] == m) && eye_at(g, size, m.0, m.1, su)) by {
                    if m != ((x, y)) {
                        if exists|k: int| 0 <= k < i + 1 && valid_moves@[k] == m {
                            let k = choose|k: int| 0 <= k < i + 1 && valid_moves@[k] == m;
                            assert(k < i || valid_moves@[k] == ((x, y)));
                        }
                    }
                }
            }
        }
        i = i + 1;
    }
    proof {
        assert forall|m: (usize, usize)| #[trigger] eye_moves@.contains(m) <==> (valid_move(
            g,
            size,
            m.0,
            m.1,
            su,
        ) && eye_at(g, size, m.0, m.1, su)) by {
            if valid_move(g, size, m.0, m.1, su) {
                assert(valid_moves@.contains(m));
                let k = choose|k: int| 0 <= k < valid_moves@.len() && valid_moves@[k] == m;
                assert(exists|k2: int| 0 <= k2 < i && valid_moves@[k2] == m);
            }
            if eye_moves@.contains(m) {
                let k = choose|k: int| 0 <= k < i && valid_moves@[k] == m;
                assert(valid_moves@.contains(valid_moves@[k]));
            }
        }
        assert forall|m: (usize, usize)| #[trigger] non_eye_moves@.contains(m) <==> (valid_move(
            g,
            size,
            m.0,
            m.1,
            su,
        ) && !eye_at(g, size, m.0, m.1, su)) by {
            if valid_move(g, size, m.0, m.1, su) {
                assert(valid_moves@.contains(m));
                let k = choose|k: int| 0 <= k < valid_moves@.len() && valid_moves@[k] == m;
                assert(exists|k2: int| 0 <= k2 < i && valid_moves@[k2] == m);
            }
            if non_eye_moves@.contains(m) {
                let k = choose|k: int| 0 <= k < i && valid_moves@[k] == m;
                assert(valid_moves@.contains(valid_moves@[k]));
            }
        }
    }
    (eye_moves, non_eye_moves)
}

impl Player for RandomAI {
    fn name(&self) -> &str {
        self.name.as_str()
    }

    /// Pass exactly when no permitted move exists; any returned move is
    /// permitted (legal, and not an own eye while holding at most two eyes).
    fn get_move(&self, board: &Board, stone: Stone) -> (r: Option<(usize, usize)>)
        ensures
            r matches Some(m) ==> permitted_move(board.cells(), board.sz(), stone.to_u8(), m),
            r is None <==> (forall|m: (usize, usize)|
                !permitted_move(board.cells(), board.sz(), stone.to_u8(), m)),
    {
        Self::select_move(board, stone)
    }
}

/// Multiplication on step budgets, saturating at the machine limit.
pub(crate) fn sat_mul_usize(a: usize, b: usize) -> (r: usize)
    ensures
        r as int == if a * b > usize::MAX {
            usize::MAX as int
        } else {
            a * b
        },
{
    proof {
        assert((a as int) * (b as int) <= u64::MAX as int * u64::MAX as int) by (nonlinear_arith)
            requires
                0 <= a <= u64::MAX && 0 <= b <= u64::MAX,
        ;
    }
    let p: u128 = (a as u128) * (b as u128);
    if p > usize::MAX as u128 {
        usize::MAX
    } else {
        p as usize
    }
}

/// Multiplication on millisecond budgets, saturating at the 64-bit limit.
pub(crate) fn sat_mul_u64(a: u64, b: u64) -> (r: u64)
    ensures
        r as int == if a * b > u64::MAX {
            u64::MAX as int
        } else {
            a * b
        },
{
    proof {
        assert((a as int) * (b as int) <= u64::MAX as int * u64::MAX as int) by (nonlinear_arith)
            requires
                0 <= a <= u64::MAX && 0 <= b <= u64::MAX,
        ;
    }
    let p: u128 = (a as u128) * (b as u128);
    if p > u64::MAX as u128 {
        u64::MAX
    } else {
        p as u64
    }
}

/// Is the empirical rate `s_new / c_new` strictly better than
/// `s_old / c_old`?  Compared exactly by cross-multiplication.
pub(crate) fn rate_better(s_new: i64, c_new: u64, s_old: i64, c_old: u64) -> (r: bool)
    requires
        c_new >= 1,
        c_old >= 1,
    ensures
        r == ((s_new as int) * (c_old as int) > (s_old as int) * (c_new as int)),
{
    proof {
        assert((s_new as int) * (c_old as int) < 0x8000_0000_0000_0000_0000_0000_0000_0000int
            && (s_new as int) * (c_old as int)
            >= -0x8000_0000_0000_0000_0000_0000_0000_0000int) by (nonlinear_arith)
            requires
                i64::MIN <= s_new <= i64::MAX && 1 <= c_old <= u64::MAX,
        ;
        assert((s_old as int) * (c_new as int) < 0x8000_0000_0000_0000_0000_0000_0000_0000int
            && (s_old as int) * (c_new as int)
            >= -0x8000_0000_0000_0000_0000_0000_0000_0000int) by (nonlinear_arith)
            requires
                i64::MIN <= s_old <= i64::MAX && 1 <= c_new <= u64::MAX,
        ;
    }
    (s_new as i128) * (c_old as i128) > (s_old as i128) * (c_new as i128)
}

/// Signed addition clamped to the `i64` range.
pub(crate) fn clamp_add_i64(a: i64, b: i64) -> (r: i64)
    ensures
        r as int == if a + b > i64::MAX {
            i64::MAX as int
        } else if a + b < i64::MIN {
            i64::MIN as int
        } else {
            a + b
        },
{
    let s: i128 = (a as i128) + (b as i128);
    if s > i64::MAX as i128 {
        i64::MAX
    } else if s < i64::MIN as i128 {
        i64::MIN
    } else {
        s as i64
    }
}

/// A sequence length clamped to a million, as a signed value: heuristic terms
/// scale with group sizes but stay in a fixed range.
pub(crate) fn clamped_len(n: usize) -> (r: i64)
    ensures
        0 <= r <= 1000000,
        r as int == if n > 1000000 {
            1000000int
        } else {
            n as int
        },
{
    if n > 1000000 {
        1000000
    } else {
        n as i64
    }
}

/// The clamped material difference from `stone`'s perspective: stones plus
/// capture credit per side, each saturating and capped at a million.
pub open spec fn material_base(g: Seq<u8>, cap_b: int, cap_w: int, stone: Stone) -> int {
    let bsc = material_of(count_color(g, BLACK), cap_b);
    let wsc = material_of(count_color(g, WHITE), cap_w);
    if stone == Stone::Black {
        bsc - wsc
    } else {
        wsc - bsc
    }
}

/// The sign of a finished rollout for `stone`: 1 exactly when `stone`'s
/// score (stones on the board plus capture credit, saturating) strictly
/// exceeds the opponent's, else -1.
pub(crate) fn rollout_sign(board: &Board, stone: Stone) -> (r: i64)
    requires
        board.wf(),
    ensures
        ({
            let bs = crate::board::sat_add_usize(count_color(board.cells(), BLACK), board.cap_black());
            let ws = crate::board::sat_add_usize(count_color(board.cells(), WHITE), board.cap_white());
            r == if (stone == Stone::Black && bs > ws) || (stone == Stone::White && ws > bs) {
                1int
            } else {
                -1int
            }
        }),
{
    let (black_stones, white_stones) = board.count_stones();
    let (black_captured, white_captured) = board.get_captured();
    let black_score = black_stones.saturating_add(black_captured);
    let white_score = white_stones.saturating_add(white_captured);
    match stone {
        Stone::Black => if black_score > white_score {
            1
        } else {
            -1
        },
        Stone::White => if white_score > black_score {
            1
        } else {
            -1
        },
    }
}

/// A heuristic bonus clamped into its fixed range (values inside the range
/// pass through unchanged; a full board never leaves it).
pub(crate) fn clamp_bonus(v: i64) -> (r: i64)
    ensures
        -1_000_000 <= r <= 1_000_000,
        -1_000_000 <= v <= 1_000_000 ==> r == v,
{
    if v > 1_000_000 {
        1_000_000
    } else if v < -1_000_000 {
        -1_000_000
    } else {
        v
    }
}

// ---------------------------------------------------------------------------
// Minimax agent with positional bonuses
// ---------------------------------------------------------------------------
pub struct MinimaxAI {
    name: String,
    max_depth: usize,
}

impl MinimaxAI {
    pub fn new(max_depth: usize) -> (r: MinimaxAI) {
        MinimaxAI { name: compose_name("Minimax AI (depth ", max_depth as u64, ")"), max_depth }
    }

    /// Static evaluation from `stone`'s perspective: the clamped material
    /// difference (stones plus capture credit) scaled by ten, plus the atari,
    /// group-safety and capture-potential bonuses, each held in a fixed
    /// range — so the value always stays within three million of the
    /// material part.
    fn evaluate_board(&self, board: &Board, stone: Stone) -> (r: i64)
        requires
            board.wf(),
        ensures
            material_base(board.cells(), board.cap_black(), board.cap_white(), stone) * 10
                - 3_000_000 <= r as int,
            r as int <= material_base(board.cells(), board.cap_black(), board.cap_white(), stone)
                * 10 + 3_000_000,
    {
        let (black_stones, white_stones) = board.count_stones();
        let (black_captured, white_captured) = board.get_captured();
        let black_score = clamped_len(black_stones.saturating_add(black_captured));
        let white_score = clamped_len(white_stones.saturating_add(white_captured));
        let basic_score: i64 = match stone {
            Stone::Black => black_score - white_score,
            Stone::White => white_score - black_score,
        };
        let mut bonus: i64 = 0;
        bonus = clamp_add_i64(bonus, self.evaluate_atari_situations(board, stone));
        bonus = clamp_add_i64(bonus, self.evaluate_group_safety(board, stone));
        bonus = clamp_add_i64(bonus, self.evaluate_capture_potential(board, stone));
        clamp_add_i64(basic_score * 10, bonus)
    }

    /// Bonus for opposing groups in atari, malus for own groups in atari.
    fn evaluate_atari_situations(&self, board: &Board, stone: Stone) -> (r: i64)
        requires
            board.wf(),
        ensures
            -1_000_000 <= r <= 1_000_000,
    {
        let mut atari_score: i64 = 0;
        let opponent = stone.opposite();
        let n = board.size();
        let mut y: usize = 0;
        while y < n
            invariant
                board.wf(),
                n == board.sz(),
            decreases n - y,
        {
            let mut x: usize = 0;
            while x < n
                invariant
                    board.wf(),
                    n == board.sz(),
                    y < n,
                decreases n - x,
            {
                let is_opp = match board.get(x, y) {
                    Some(s) => s == opponent,
                    None => false,
                };
                if is_opp {
                    let group = self.get_group(board, x, y);
                    let liberties = self.count_liberties(board, &group);
                    if liberties == 1 {
                        atari_score = clamp_add_i64(atari_score, clamped_len(group.len()) * 5);
                    }
                }
                x = x + 1;
            }
            y = y + 1;
        }
        let mut y2: usize = 0;
        while y2 < n
            invariant
                board.wf(),
                n == board.sz(),
            decreases n - y2,
        {
            let mut x2: usize = 0;
            while x2 < n
                invariant
                    board.wf(),
                    n == board.sz(),
                    y2 < n,
                decreases n - x2,
            {
                let is_own = match board.get(x2, y2) {
                    Some(s) => s == stone,
                    None => false,
                };
                if is_own {
                    let group = self.get_group(board, x2, y2);
                    let liberties = self.count_liberties(board, &group);
                    if liberties == 1 {
                        atari_score = clamp_add_i64(atari_score, -(clamped_len(group.len()) * 5));
                    }
                }
                x2 = x2 + 1;
            }
            y2 = y2 + 1;
        }
        clamp_bonus(atari_score)
    }

    /// Bonus graded by the liberty count of each of the mover's groups.
    fn evaluate_group_safety(&self, board: &Board, stone: Stone) -> (r: i64)
        requires
            board.wf(),
        ensures
            -1_000_000 <= r <= 1_000_000,
    {
        let mut safety_score: i64 = 0;
        let n = board.size();
        let n_cells = board.cell_count();
        let mut visited: Vec<bool> = vec![false; n_cells];
        let mut y: usize = 0;
        while y < n
            invariant
                board.wf(),
                n == board.sz(),
                n_cells == board.cells().len(),
                visited@.len() == n_cells,
            decreases n - y,
        {
            let mut x: usize = 0;
            while x < n
                invariant
                    board.wf(),
                    n == board.sz(),
                    n_cells == board.cells().len(),
                    visited@.len() == n_cells,
                    y < n,
                decreases n - x,
            {
                let idx = board.index(x, y);
                let is_own = match board.get(x, y) {
                    Some(s) => s == stone,
                    None => false,
                };
                if !visited[idx] && is_own {
                    let group = self.get_group(board, x, y);
                    let liberties = self.count_liberties(board, &group);
                    let mut k: usize = 0;
                    while k < group.len()
                        invariant
                            board.wf(),
                            n_cells == board.cells().len(),
                            visited@.len() == n_cells,
                            forall|i: int|
                                0 <= i < group@.len() ==> crate::board::in_bounds(
                                    board.sz(),
                                    #[trigger] group@[i],
                                ),
                        decreases group@.len() - k,
                    {
                        let (gx, gy) = group[k];
                        proof {
                            assert((gx, gy) == group@[k as int]);
                        }
                        let gidx = board.index(gx, gy);
                        visited.set(gidx, true);
                        k = k + 1;
                    }
                    let term: i64 = if liberties == 0 {
                        -100
                    } else if liberties == 1 {
                        -20
                    } else if liberties == 2 {
                        1
                    } else if liberties == 3 {
                        3
                    } else {
                        5
                    };
                    safety_score = clamp_add_i64(safety_score, term);
                }
                x = x + 1;
            }
            y = y + 1;
        }
        clamp_bonus(safety_score)
    }

    /// Bonus for opposing groups that are short of liberties.
    fn evaluate_capture_potential(&self, board: &Board, stone: Stone) -> (r: i64)
        requires
            board.wf(),
        ensures
            -1_000_000 <= r <= 1_000_000,
    {
        let mut potential_score: i64 = 0;
        let opponent = stone.opposite();
        let n = board.size();
        let n_cells = board.cell_count();
        let mut visited: Vec<bool> = vec![false; n_cells];
        let mut y: usize = 0;
        while y < n
            invariant
                board.wf(),
                n == board.sz(),
                n_cells == board.cells().len(),
                visited@.len() == n_cells,
            decreases n - y,
        {
            let mut x: usize = 0;
            while x < n
                invariant
                    board.wf(),
                    n == board.sz(),
                    n_cells == board.cells().len(),
                    visited@.len() == n_cells,
                    y < n,
                decreases n - x,
            {
                let idx = board.index(x, y);
                let is_opp = match board.get(x, y) {
                    Some(s) => s == opponent,
                    None => false,
                };
                if !visited[idx] && is_opp {
                    let group = self.get_group(board, x, y);
                    let liberties = self.count_liberties(board, &group);
                    let mut k: usize = 0;
                    while k < group.len()
                        invariant
                            board.wf(),
                            n_cells == board.cells().len(),
                            visited@.len() == n_cells,
                            forall|i: int|
                                0 <= i < group@.len() ==> crate::board::in_bounds(
                                    board.sz(),
                                    #[trigger] group@[i],
                                ),
                        decreases group@.len() - k,
                    {
                        let (gx, gy) = group[k];
                        proof {
                            assert((gx, gy) == group@[k as int]);
                        }
                        let gidx = board.index(gx, gy);
                        visited.set(gidx, true);
                        k = k + 1;
                    }
                    if liberties == 2 {
                        potential_score = clamp_add_i64(
                            potential_score,
                            clamped_len(group.len()) * 2,
                        );
                    } else if liberties == 3 {
                        potential_score = clamp_add_i64(potential_score, clamped_len(group.len()));
                    }
                }
                x = x + 1;
            }
            y = y + 1;
        }
        clamp_bonus(potential_score)
    }

    /// The group of `(x, y)`, empty when the cell is empty.
    fn get_group(&self, board: &Board, x: usize, y: usize) -> (r: Vec<(usize, usize)>)
        requires
            board.wf(),
            x < board.sz(),
            y < board.sz(),
        ensures
            forall|i: int|
                0 <= i < r@.len() ==> crate::board::in_bounds(board.sz(), #[trigger] r@[i]),
    {
        match board.get(x, y) {
            None => Vec::new(),
            Some(_) => {
                proof {
                    crate::zobrist::lemma_cell_index_in_range(board.sz(), x as int, y as int);
                }
                let g = board.get_group(x, y);
                g
            },
        }
    }

    /// Number of distinct empty cells adjacent to the group.
    fn count_liberties(&self, board: &Board, group: &Vec<(usize, usize)>) -> (r: usize)
        requires
            board.wf(),
            forall|i: int|
                0 <= i < group@.len() ==> crate::board::in_bounds(board.sz(), #[trigger] group@[i]),
    {
        let n_cells = board.cell_count();
        let mut marks: Vec<bool> = vec![false; n_cells];
        let mut liberties: usize = 0;
        let mut i: usize = 0;
        while i < group.len()
            invariant
                board.wf(),
                n_cells == board.cells().len(),
                marks@.len() == n_cells,
                forall|k: int|
                    0 <= k < group@.len() ==> crate::board::in_bounds(
                        board.sz(),
                        #[trigger] group@[k],
                    ),
            decreases group@.len() - i,
        {
            let (x, y) = group[i];
            proof {
                assert((x, y) == group@[i as int]);
            }
            let nbrs = self.get_neighbors(board, x, y);
            let mut j: usize = 0;
            while j < nbrs.len()
                invariant
                    board.wf(),
                    n_cells == board.cells().len(),
                    marks@.len() == n_cells,
                    forall|k: int|
                        0 <= k < nbrs@.len() ==> crate::board::in_bounds(
                            board.sz(),
                            #[trigger] nbrs@[k],
                        ),
                decreases nbrs@.len() - j,
            {
                let (nx, ny) = nbrs[j];
                proof {
                    assert((nx, ny) == nbrs@[j as int]);
                }
                if board.get(nx, ny).is_none() {
                    let nidx = board.index(nx, ny);
                    if !marks[nidx] {
                        marks.set(nidx, true);
                        liberties = liberties.saturating_add(1);
                    }
                }
                j = j + 1;
            }
            i = i + 1;
        }
        liberties
    }

    /// The on-board orthogonal neighbours of `(x, y)`.
    fn get_neighbors(&self, board: &Board, x: usize, y: usize) -> (r: Vec<(usize, usize)>)
        requires
            board.wf(),
            x < board.sz(),
            y < board.sz(),
        ensures
            forall|i: int|
                0 <= i < r@.len() ==> crate::board::in_bounds(board.sz(), #[trigger] r@[i]),
    {
        board.neighbors(x, y)
    }

    /// Depth-limited alpha-beta search.  The hashes along the current
    /// exploration path are threaded through so a continuation that would
    /// recreate the position two plies back is skipped (per-path simple Ko).
    fn minimax(
        &self,
        board: &Board,
        depth: usize,
        is_maximizing: bool,
        alpha0: i64,
        beta0: i64,
        stone: Stone,
        original_stone: Stone,
        history: &Vec<u64>,
    ) -> (r: i64)
        requires
            board.wf(),
        ensures
            // at the recursion floor the value is the static evaluation of
            // the position for the searching colour: the clamped material
            // difference scaled by ten, within the positional-bonus range
            (depth == 0 || (forall|m: (usize, usize)|
                !valid_move(board.cells(), board.sz(), m.0, m.1, stone.to_u8()))) ==> (
            material_base(board.cells(), board.cap_black(), board.cap_white(), original_stone) * 10
                - 3_000_000 <= r as int && r as int <= material_base(
                board.cells(),
                board.cap_black(),
                board.cap_white(),
                original_stone,
            ) * 10 + 3_000_000),
        decreases depth,
    {
        if depth == 0 {
            return self.evaluate_board(board, original_stone);
        }
        let valid_moves = all_valid_moves(board, stone);
        if valid_moves.is_empty() {
            proof {
                assert forall|m: (usize, usize)| !valid_move(
                    board.cells(),
                    board.sz(),
                    m.0,
                    m.1,
                    stone.to_u8(),
                ) by {
                    if valid_move(board.cells(), board.sz(), m.0, m.1, stone.to_u8()) {
                        assert(valid_moves@.contains(m));
                    }
                }
            }
            return self.evaluate_board(board, original_stone);
        }
        proof {
            assert(valid_moves@.contains(valid_moves@[0]));
        }
        let ghost ex_move = valid_moves@[0];
        let mut alpha = alpha0;
        let mut beta = beta0;
        if is_maximizing {
            let mut max_eval = i64::MIN;
            let mut i: usize = 0;
            while i < valid_moves.len()
                invariant
                    board.wf(),
                    depth >= 1,
                    valid_move(board.cells(), board.sz(), ex_move.0, ex_move.1, stone.to_u8()),
                decreases valid_moves@.len() - i,
            {
                let (x, y) = valid_moves[i];
                let mut new_board = board.clone();
                match new_board.place_stone(x, y, stone) {
                    Ok(_) => {
                        let h = new_board.get_hash();
                        let hl = history.len();
                        if !(hl >= 2 && history[hl - 2] == h) {
                            let mut child_history = history.clone();
                            child_history.push(h);
                            let eval = self.minimax(
                                &new_board,
                                depth - 1,
                                false,
                                alpha,
                                beta,
                                stone.opposite(),
                                original_stone,
                                &child_history,
                            );
                            if eval > max_eval {
                                max_eval = eval;
                            }
                            if eval > alpha {
                                alpha = eval;
                            }
                            if beta <= alpha {
                                return max_eval;
                            }
                        }
                    },
                    Err(_) => {},
                }
                i = i + 1;
            }
            max_eval
        } else {
            let mut min_eval = i64::MAX;
            let mut i: usize = 0;
            while i < valid_moves.len()
                invariant
                    board.wf(),
                    depth >= 1,
                    valid_move(board.cells(), board.sz(), ex_move.0, ex_move.1, stone.to_u8()),
                decreases valid_moves@.len() - i,
            {
                let (x, y) = valid_moves[i];
                let mut new_board = board.clone();
                match new_board.place_stone(x, y, stone) {
                    Ok(_) => {
                        let h = new_board.get_hash();
                        let hl = history.len();
                        if !(hl >= 2 && history[hl - 2] == h) {
                            let mut child_history = history.clone();
                            child_history.push(h);
                            let eval = self.minimax(
                                &new_board,
                                depth - 1,
                                true,
                                alpha,
                                beta,
                                stone.opposite(),
                                original_stone,
                                &child_history,
                            );
                            if eval < min_eval {
                                min_eval = eval;
                            }
                            if eval < beta {
                                beta = eval;
                            }
                            if beta <= alpha {
                                return min_eval;
                            }
                        }
                    },
                    Err(_) => {},
                }
                i = i + 1;
            }
            min_eval
        }
    }

    /// Top-level choice: the legal move whose search value is highest, ties
    /// broken by the first move in enumeration order; pass exactly when no
    /// legal move exists.
    fn select_move(&self, board: &Board, stone: Stone) -> (r: Option<(usize, usize)>)
        requires
            board.wf(),
        ensures
            r matches Some(m) ==> valid_move(board.cells(), board.sz(), m.0, m.1, stone.to_u8()),
            r is None <==> (forall|m: (usize, usize)|
                !valid_move(board.cells(), board.sz(), m.0, m.1, stone.to_u8())),
    {
        let valid_moves = all_valid_moves(board, stone);
        if valid_moves.is_empty() {
            proof {
                assert forall|m: (usize, usize)| !valid_move(
                    board.cells(),
                    board.sz(),
                    m.0,
                    m.1,
                    stone.to_u8(),
                ) by {
                    if valid_move(board.cells(), board.sz(), m.0, m.1, stone.to_u8()) {
                        assert(valid_moves@.contains(m));
                    }
                }
            }
            return None;
        }
        let root_hash = board.get_hash();
        let mut best_idx: usize = 0;
        let mut found = false;
        let mut best_score: i64 = 0;
        let mut i: usize = 0;
        while i < valid_moves.len()
            invariant
                board.wf(),
                best_idx < valid_moves@.len(),
                valid_moves@.len() >= 1,
                i >= 1 ==> found,
                forall|m: (usize, usize)| #[trigger]
                    valid_moves@.contains(m) <==> valid_move(
                        board.cells(),
                        board.sz(),
                        m.0,
                        m.1,
                        stone.to_u8(),
                    ),
            decreases valid_moves@.len() - i,
        {
            let (x, y) = valid_moves[i];
            proof {
                assert((x, y) == valid_moves@[i as int]);
                assert(valid_moves@.contains(valid_moves@[i as int]));
            }
            let mut test_board = board.clone();
            match test_board.place_stone(x, y, stone) {
                Ok(_) => {
                    let mut child_history: Vec<u64> = Vec::new();
                    child_history.push(root_hash);
                    child_history.push(test_board.get_hash());
                    let depth = if self.max_depth == 0 {
                        0
                    } else {
                        self.max_depth - 1
                    };
                    let score = self.minimax(
                        &test_board,
                        depth,
                        false,
                        i64::MIN,
                        i64::MAX,
                        stone.opposite(),
                        stone,
                        &child_history,
                    );
                    if !found || score > best_score {
                        found = true;
                        best_score = score;
                        best_idx = i;
                    }
                },
                Err(_) => {
                    proof {
                        assert(valid_moves@.contains(valid_moves@[i as int]));
                        assert(false);
                    }
                },
            }
            i = i + 1;
        }
        proof {
            assert(valid_moves@.contains(valid_moves@[best_idx as int]));
        }
        Some(valid_moves[best_idx])
    }
}

impl Player for MinimaxAI {
    fn name(&self) -> &str {
        self.name.as_str()
    }

    /// Pass exactly when no legal move exists; any returned move is legal.
    fn get_move(&self, board: &Board, stone: Stone) -> (r: Option<(usize, usize)>)
        ensures
            r is None <==> (forall|m: (usize, usize)|
                !valid_move(board.cells(), board.sz(), m.0, m.1, stone.to_u8())),
    {
        self.select_move(board, stone)
    }
}

// ---------------------------------------------------------------------------
// Flat Monte Carlo agent (every candidate gets rollouts in turn)
// ---------------------------------------------------------------------------
pub struct Mcts {
    name: String,
    time_limit_millis: u64,
}

impl Mcts {
    pub fn new(time_seconds: u64) -> (r: Mcts) {
        Mcts {
            name: compose_name("MCTS AI (", time_seconds, "s)"),
            time_limit_millis: sat_mul_u64(time_seconds, 1000),
        }
    }

    /// One random playout from `board` with `stone` to move: alternate
    /// uniform-random legal moves (with a small random pass chance, and a
    /// step cap so every rollout terminates), then compare final scores.
    /// Returns 1 when `stone` ends ahead, otherwise -1.
    fn simulate(&self, board: &Board, stone: Stone) -> (r: i64)
        requires
            board.wf(),
        ensures
            r == 1 || r == -1,
    {
        let mut sim_board = board.clone();
        let mut current_stone = stone;
        let mut rng = fresh_rng();
        let mut consecutive_passes: usize = 0;
        let n_cells = board.cell_count();
        let max_steps = sat_mul_usize(n_cells, 4).saturating_add(64);
        let mut steps: usize = 0;
        while steps < max_steps
            invariant
                sim_board.wf(),
            decreases max_steps - steps,
        {
            let valid_moves = all_valid_moves(&sim_board, current_stone);
            if valid_moves.is_empty() || (consecutive_passes < 2 && gen_index(&mut rng, 10) == 0) {
                consecutive_passes = consecutive_passes.saturating_add(1);
                if consecutive_passes >= 2 {
                    break ;
                }
            } else {
                consecutive_passes = 0;
                let idx = gen_index(&mut rng, valid_moves.len());
                let (x, y) = valid_moves[idx];
                let _ = sim_board.place_stone(x, y, current_stone);
            }
            current_stone = current_stone.opposite();
            steps = steps + 1;
        }
        rollout_sign(&sim_board, stone)
    }

    /// Spread rollouts across every legal move until the time budget (or the
    /// step budget) runs out, then play the move with the best empirical
    /// score rate; pass exactly when no legal move exists.
    fn select_move(&self, board: &Board, stone: Stone) -> (r: Option<(usize, usize)>)
        requires
            board.wf(),
        ensures
            r matches Some(m) ==> valid_move(board.cells(), board.sz(), m.0, m.1, stone.to_u8()),
            r is None <==> (forall|m: (usize, usize)|
                !valid_move(board.cells(), board.sz(), m.0, m.1, stone.to_u8())),
    {
        let valid_moves = all_valid_moves(board, stone);
        if valid_moves.is_empty() {
            proof {
                assert forall|m: (usize, usize)| !valid_move(
                    board.cells(),
                    board.sz(),
                    m.0,
                    m.1,
                    stone.to_u8(),
                ) by {
                    if valid_move(board.cells(), board.sz(), m.0, m.1, stone.to_u8()) {
                        assert(valid_moves@.contains(m));
                    }
                }
            }
            return None;
        }
        let len = valid_moves.len();
        let start_time = instant_now();
        let mut move_scores: Vec<i64> = vec![0i64; len];
        let mut move_counts: Vec<u64> = vec![0u64; len];
        let mut rounds: u64 = 0;
        while rounds < SEARCH_ROUND_CAP && elapsed_millis(&start_time) < self.time_limit_millis
            invariant
                board.wf(),
                len == valid_moves@.len(),
                len >= 1,
                move_scores@.len() == len,
                move_counts@.len() == len,
            decreases SEARCH_ROUND_CAP - rounds,
        {
            let mut idx: usize = 0;
            while idx < len
                invariant
                    board.wf(),
                    len == valid_moves@.len(),
                    move_scores@.len() == len,
                    move_counts@.len() == len,
                decreases len - idx,
            {
                let (x, y) = valid_moves[idx];
                let mut test_board = board.clone();
                match test_board.place_stone(x, y, stone) {
                    Ok(_) => {
                        let result = self.simulate(&test_board, stone);
                        move_scores.set(idx, clamp_add_i64(move_scores[idx], result));
                        move_counts.set(idx, move_counts[idx].saturating_add(1));
                    },
                    Err(_) => {},
                }
                idx = idx + 1;
            }
            rounds = rounds + 1;
        }
        let mut best_idx: usize = 0;
        let mut found = false;
        let mut best_score: i64 = 0;
        let mut best_count: u64 = 1;
        let mut idx2: usize = 0;
        while idx2 < len
            invariant
                len == valid_moves@.len(),
                move_scores@.len() == len,
                move_counts@.len() == len,
                best_idx < len,
                best_count >= 1,
            decreases len - idx2,
        {
            if move_counts[idx2] > 0 {
                let better = !found || rate_better(
                    move_scores[idx2],
                    move_counts[idx2],
                    best_score,
                    best_count,
                );
                if better {
                    found = true;
                    best_score = move_scores[idx2];
                    best_count = move_counts[idx2];
                    best_idx = idx2;
                }
            }
            idx2 = idx2 + 1;
        }
        proof {
            assert(valid_moves@.contains(valid_moves@[best_idx as int]));
        }
        Some(valid_moves[best_idx])
    }
}

impl Player for Mcts {
    fn name(&self) -> &str {
        self.name.as_str()
    }

    /// Pass exactly when no legal move exists; any returned move is legal.
    fn get_move(&self, board: &Board, stone: Stone) -> (r: Option<(usize, usize)>)
        ensures
            r is None <==> (forall|m: (usize, usize)|
                !valid_move(board.cells(), board.sz(), m.0, m.1, stone.to_u8())),
    {
        self.select_move(board, stone)
    }
}

} // verus!

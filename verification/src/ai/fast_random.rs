//! A fast random agent: shuffle the empty points once and play the first one
//! that is legal, with no eye protection.

use vstd::prelude::*;

use crate::board::{cell_at, in_bounds, valid_move, Board, Stone, EMPTY};
use crate::player::Player;
use crate::rng::{fresh_rng, shuffle_points};

verus! {

pub struct FastRandomAI {
    name: String,
}

impl FastRandomAI {
    pub fn new() -> (r: FastRandomAI) {
        FastRandomAI { name: "Fast Random AI".to_owned() }
    }

    /// Pass exactly when no legal move exists; otherwise a legal move drawn
    /// by shuffling the empty points.
    fn select_move(board: &Board, stone: Stone) -> (r: Option<(usize, usize)>)
        requires
            board.wf(),
        ensures
            r matches Some(m) ==> valid_move(board.cells(), board.sz(), m.0, m.1, stone.to_u8()),
            r is None <==> (forall|m: (usize, usize)|
                !valid_move(board.cells(), board.sz(), m.0, m.1, stone.to_u8())),
    {
        let ghost g = board.cells();
        let ghost size = board.sz();
        let ghost su = stone.to_u8();
        let n = board.size();
        let mut empty_positions: Vec<(usize, usize)> = Vec::new();
        let mut y: usize = 0;
        while y < n
            invariant
                board.wf(),
                g == board.cells(),
                size == board.sz(),
                n == size,
                y <= n,
                forall|m: (usize, usize)| #[trigger]
                    empty_positions@.contains(m) <==> (in_bounds(size, m) && cell_at(g, size, m)
                        == EMPTY && m.1 < y),
            decreases n - y,
        {
            let mut x: usize = 0;
            while x < n
                invariant
                    board.wf(),
                    g == board.cells(),
                    size == board.sz(),
                    n == size,
                    y < n,
                    x <= n,
                    forall|m: (usize, usize)| #[trigger]
                        empty_positions@.contains(m) <==> (in_bounds(size, m) && cell_at(g, size, m)
                            == EMPTY && (m.1 < y || (m.1 == y && m.0 < x))),
                decreases n - x,
            {
                let ghost pre = empty_positions@;
                if board.get(x, y).is_none() {
                    proof {
                        crate::zobrist::lemma_cell_index_in_range(size, x as int, y as int);
                        assert(cell_at(g, size, (x, y)) == EMPTY);
                        crate::board::lemma_contains_push_iff(empty_positions@, (x, y));
                    }
                    empty_positions.push((x, y));
                    proof {
                        assert forall|m: (usize, usize)| #[trigger] empty_positions@.contains(m)
                            <==> (in_bounds(size, m) && cell_at(g, size, m) == EMPTY && (m.1 < y || (
                        m.1 == y && m.0 < x + 1))) by {
                            assert(empty_positions@.contains(m) <==> (pre.contains(m) || m == ((
                            x,
                            y,
                            ))));
                            if m != ((x, y)) && m.1 == y {
                                assert(m == (m.0, m.1));
                                assert(m.0 == x ==> m == ((x, y)));
                            }
                        }
                    }
                } else {
                    proof {
                        assert(!(in_bounds(size, (x, y)) && cell_at(g, size, (x, y)) == EMPTY));
                        assert forall|m: (usize, usize)| #[trigger] empty_positions@.contains(m)
                            <==> (in_bounds(size, m) && cell_at(g, size, m) == EMPTY && (m.1 < y || (
                        m.1 == y && m.0 < x + 1))) by {
                            if m != ((x, y)) && m.1 == y {
                                assert(m == (m.0, m.1));
                                assert(m.0 == x ==> m == ((x, y)));
                            }
                        }
                    }
                }
                x = x + 1;
            }
            y = y + 1;
        }
        if empty_positions.is_empty() {
            proof {
                assert forall|m: (usize, usize)| !valid_move(g, size, m.0, m.1, su) by {
                    if valid_move(g, size, m.0, m.1, su) {
                        assert(empty_positions@.contains(m));
                    }
                }
            }
            return None;
        }
        let ghost before_shuffle = empty_positions@;
        let mut rng = fresh_rng();
        shuffle_points(&mut rng, &mut empty_positions);
        proof {
            assert forall|m: (usize, usize)|
                before_shuffle.contains(m) implies empty_positions@.contains(m) by {
                vstd::seq_lib::to_multiset_contains::<(usize, usize)>(before_shuffle, m);
                vstd::seq_lib::to_multiset_contains::<(usize, usize)>(empty_positions@, m);
            }
        }
        let mut i: usize = 0;
        while i < empty_positions.len()
            invariant
                board.wf(),
                g == board.cells(),
                size == board.sz(),
                su == stone.to_u8(),
                i <= empty_positions@.len(),
                forall|m: (usize, usize)|
                    #[trigger] before_shuffle.contains(m) ==> empty_positions@.contains(m),
                forall|m: (usize, usize)| #[trigger]
                    before_shuffle.contains(m) <==> (in_bounds(size, m) && cell_at(g, size, m)
                        == EMPTY),
                forall|k: int|
                    0 <= k < i ==> !valid_move(
                        g,
                        size,
                        (#[trigger] empty_positions@[k]).0,
                        empty_positions@[k].1,
                        su,
                    ),
            decreases empty_positions@.len() - i,
        {
            let (x, y) = empty_positions[i];
            proof {
                assert((x, y) == empty_positions@[i as int]);
            }
            if board.is_valid_move(x, y, stone) {
                return Some((x, y));
            }
            i = i + 1;
        }
        proof {
            assert forall|m: (usize, usize)| !valid_move(g, size, m.0, m.1, su) by {
                if valid_move(g, size, m.0, m.1, su) {
                    assert(before_shuffle.contains(m));
                    assert(empty_positions@.contains(m));
                    let k = choose|k: int|
                        0 <= k < empty_positions@.len() && empty_positions@[k] == m;
                    assert(!valid_move(
                        g,
                        size,
                        empty_positions@[k].0,
                        empty_positions@[k].1,
                        su,
                    ));
                }
            }
        }
        None
    }
}

impl Player for FastRandomAI {
    fn name(&self) -> &str {
        self.name.as_str()
    }

    /// Pass exactly when no legal move exists; any returned move is legal.
    fn get_move(&self, board: &Board, stone: Stone) -> (r: Option<(usize, usize)>)
        ensures
            r is None <==> (forall|m: (usize, usize)|
                !valid_move(board.cells(), board.sz(), m.0, m.1, stone.to_u8())),
    {
        Self::select_move(board, stone)
    }
}

} // verus!

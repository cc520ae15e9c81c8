//! Position hashing: one fixed random 64-bit key per (cell, colour) pair,
//! generated from a fixed seed at construction.  A board position is hashed
//! by XOR-ing the keys of the occupied cells, so single-stone changes update
//! the hash incrementally.

use vstd::prelude::*;

use crate::rng::{seeded_fill, seeded_keys};

verus! {

/// The fixed seed of the black key table.
pub const BLACK_KEY_SEED: u64 = 42;

/// The fixed seed of the white key table.
pub const WHITE_KEY_SEED: u64 = 43;

#[derive(Debug)]
pub struct ZobristTable {
    size: usize,
    black: Vec<u64>,
    white: Vec<u64>,
}

impl ZobristTable {
    /// Board side length the table was built for.
    pub closed spec fn sz(&self) -> int {
        self.size as int
    }

    /// Keys for black stones, one per cell in row-major order.
    pub closed spec fn keys_black(&self) -> Seq<u64> {
        self.black@
    }

    /// Keys for white stones, one per cell in row-major order.
    pub closed spec fn keys_white(&self) -> Seq<u64> {
        self.white@
    }

    pub closed spec fn wf(&self) -> bool {
        &&& self.black@.len() == self.size * self.size
        &&& self.white@.len() == self.size * self.size
    }

    pub fn new(board_size: usize) -> (r: ZobristTable)
        requires
            board_size * board_size <= usize::MAX,
        ensures
            r.wf(),
            r.sz() == board_size,
            // the keys are a function of the board size alone (fixed seeds),
            // so equally sized tables agree and hashes are reproducible
            r.keys_black() == seeded_keys(BLACK_KEY_SEED, (board_size * board_size) as int),
            r.keys_white() == seeded_keys(WHITE_KEY_SEED, (board_size * board_size) as int),
    {
        let n = board_size * board_size;
        let black = seeded_fill(BLACK_KEY_SEED, n);
        let white = seeded_fill(WHITE_KEY_SEED, n);
        ZobristTable { size: board_size, black, white }
    }

    pub fn get_stone_hash(&self, x: usize, y: usize, is_black: bool) -> (r: u64)
        requires
            self.wf(),
            x < self.sz(),
            y < self.sz(),
        ensures
            is_black ==> r == self.keys_black()[y * self.sz() + x],
            !is_black ==> r == self.keys_white()[y * self.sz() + x],
    {
        let n = self.black.len();
        proof {
            lemma_cell_index_in_range(self.size as int, x as int, y as int);
        }
        let idx = y * self.size + x;
        if is_black {
            self.black[idx]
        } else {
            self.white[idx]
        }
    }
}

impl Clone for ZobristTable {
    fn clone(&self) -> (r: Self)
        ensures
            r.sz() == self.sz(),
            r.keys_black() == self.keys_black(),
            r.keys_white() == self.keys_white(),
            r.wf() == self.wf(),
    {
        let r = ZobristTable { size: self.size, black: self.black.clone(), white: self.white.clone() };
        proof {
            assert(r.black@ =~= self.black@);
            assert(r.white@ =~= self.white@);
        }
        r
    }
}

/// A well-formed table holds one key per cell and colour.
pub proof fn lemma_table_sizes(t: &ZobristTable)
    requires
        t.wf(),
    ensures
        t.keys_black().len() == t.sz() * t.sz(),
        t.keys_white().len() == t.sz() * t.sz(),
{
}

/// Row-major cell indices stay inside a `size * size` grid.
pub proof fn lemma_cell_index_in_range(size: int, x: int, y: int) by (nonlinear_arith)
    requires
        0 <= x < size,
        0 <= y < size,
    ensures
        0 <= y * size + x < size * size,
{
}

} // verus!

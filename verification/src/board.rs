//! The board rule engine: grid state, group/liberty computation via flood
//! fill, capture and self-capture resolution, eye classification, and an
//! incrementally maintained position hash.
//!
//! The specification layer models the grid as a row-major `Seq<u8>` with one
//! byte per cell (`EMPTY`, `BLACK`, `WHITE`).  Groups are described through
//! explicit stone-coloured paths (`path_ok` / `connected`), liberties through
//! `has_liberty`, and the position hash through `xor_fold` over the key
//! tables of the `ZobristTable`.

use vstd::prelude::*;
use vstd::seq_lib::group_seq_properties;

use crate::zobrist::{lemma_cell_index_in_range, ZobristTable};

verus! {

pub const EMPTY: u8 = 0;

pub const BLACK: u8 = 1;

pub const WHITE: u8 = 2;

#[derive(Debug, Clone, Copy, PartialEq, Eq, Structural)]
pub enum Stone {
    Black,
    White,
}

impl Stone {
    /// The colour an executable `opposite` call returns.
    pub open spec fn flip(self) -> Stone {
        match self {
            Stone::Black => Stone::White,
            Stone::White => Stone::Black,
        }
    }

    /// Cell encoding of this colour.
    pub open spec fn to_u8(self) -> u8 {
        match self {
            Stone::Black => BLACK,
            Stone::White => WHITE,
        }
    }

    pub fn opposite(&self) -> (r: Stone)
        ensures
            r == self.flip(),
    {
        match self {
            Stone::Black => Stone::White,
            Stone::White => Stone::Black,
        }
    }
}

/// Cell encoding of the colour opposing `c` (`EMPTY` maps to `EMPTY`).
pub open spec fn opp_u8(c: u8) -> u8 {
    if c == BLACK {
        WHITE
    } else if c == WHITE {
        BLACK
    } else {
        EMPTY
    }
}

/// A coordinate pair lies on a board of side length `size`.
pub open spec fn in_bounds(size: int, p: (usize, usize)) -> bool {
    p.0 < size && p.1 < size
}

/// Row-major index of a coordinate pair.
pub open spec fn flat(size: int, p: (usize, usize)) -> int {
    p.1 * size + p.0
}

/// Contents of the cell at `p`.
pub open spec fn cell_at(g: Seq<u8>, size: int, p: (usize, usize)) -> u8 {
    g[flat(size, p)]
}

/// Orthogonal adjacency of two coordinate pairs.
pub open spec fn adjacent(a: (usize, usize), b: (usize, usize)) -> bool {
    ||| (a.0 == b.0 && (a.1 + 1 == b.1 || b.1 + 1 == a.1))
    ||| (a.1 == b.1 && (a.0 + 1 == b.0 || b.0 + 1 == a.0))
}

/// Number of cells holding `c` among the first `n` entries of `g`.
pub open spec fn count_color_upto(g: Seq<u8>, c: u8, n: int) -> int
    decreases n,
{
    if n <= 0 {
        0
    } else {
        count_color_upto(g, c, n - 1) + if g[n - 1] == c {
            1int
        } else {
            0int
        }
    }
}

/// Number of cells holding `c` in the whole grid.
pub open spec fn count_color(g: Seq<u8>, c: u8) -> int {
    count_color_upto(g, c, g.len() as int)
}

/// Key contributed by a cell holding `c`, given its black and white keys.
pub open spec fn key_of(c: u8, bk: u64, wk: u64) -> u64 {
    if c == BLACK {
        bk
    } else if c == WHITE {
        wk
    } else {
        0
    }
}

/// XOR of the keys of the occupied cells among the first `n` entries.
pub open spec fn xor_fold(g: Seq<u8>, kb: Seq<u64>, kw: Seq<u64>, n: int) -> u64
    decreases n,
{
    if n <= 0 {
        0
    } else {
        xor_fold(g, kb, kw, n - 1) ^ key_of(g[n - 1], kb[n - 1], kw[n - 1])
    }
}

// ---------------------------------------------------------------------------
// Counting and hashing lemmas
// ---------------------------------------------------------------------------
pub proof fn lemma_count_color_bounds(g: Seq<u8>, c: u8, n: int)
    requires
        0 <= n <= g.len(),
    ensures
        0 <= count_color_upto(g, c, n) <= n,
    decreases n,
{
    if n > 0 {
        lemma_count_color_bounds(g, c, n - 1);
    }
}

/// Grids that agree on their first `n` cells count alike there.
pub proof fn lemma_count_color_congruence(g1: Seq<u8>, g2: Seq<u8>, c: u8, n: int)
    requires
        forall|j: int| 0 <= j < n ==> g1[j] == g2[j],
    ensures
        count_color_upto(g1, c, n) == count_color_upto(g2, c, n),
    decreases n,
{
    if n > 0 {
        lemma_count_color_congruence(g1, g2, c, n - 1);
    }
}

/// Overwriting one cell changes the count by the two indicators.
pub proof fn lemma_count_color_update(g: Seq<u8>, c: u8, i: int, v: u8, n: int)
    requires
        0 <= i < n <= g.len(),
    ensures
        count_color_upto(g.update(i, v), c, n) == count_color_upto(g, c, n) - (if g[i] == c {
            1int
        } else {
            0int
        }) + (if v == c {
            1int
        } else {
            0int
        }),
    decreases n,
{
    let gu = g.update(i, v);
    if i == n - 1 {
        lemma_count_color_congruence(g, gu, c, n - 1);
    } else {
        lemma_count_color_update(g, c, i, v, n - 1);
    }
}

proof fn lemma_xor_cancel(x: u64, b: u64, c: u64) by (bit_vector)
    ensures
        ((x ^ b) ^ b) ^ c == x ^ c,
{
}

proof fn lemma_xor_shuffle(x: u64, b: u64, c: u64, d: u64) by (bit_vector)
    ensures
        ((x ^ b) ^ c) ^ d == ((x ^ d) ^ b) ^ c,
{
}

proof fn lemma_xor_zero(x: u64) by (bit_vector)
    ensures
        x ^ 0 == x,
        0 ^ x == x,
{
}

/// Grids that agree on their first `n` cells hash alike there.
pub proof fn lemma_xor_fold_congruence(g1: Seq<u8>, g2: Seq<u8>, kb: Seq<u64>, kw: Seq<u64>, n: int)
    requires
        forall|j: int| 0 <= j < n ==> g1[j] == g2[j],
    ensures
        xor_fold(g1, kb, kw, n) == xor_fold(g2, kb, kw, n),
    decreases n,
{
    if n > 0 {
        lemma_xor_fold_congruence(g1, g2, kb, kw, n - 1);
    }
}

/// Overwriting one cell XORs out its old key and XORs in its new one.
pub proof fn lemma_xor_fold_update(g: Seq<u8>, kb: Seq<u64>, kw: Seq<u64>, i: int, v: u8, n: int)
    requires
        0 <= i < n <= g.len(),
    ensures
        xor_fold(g.update(i, v), kb, kw, n) == (xor_fold(g, kb, kw, n) ^ key_of(
            g[i],
            kb[i],
            kw[i],
        )) ^ key_of(v, kb[i], kw[i]),
    decreases n,
{
    let gu = g.update(i, v);
    let ko = key_of(g[i], kb[i], kw[i]);
    let kn = key_of(v, kb[i], kw[i]);
    if i == n - 1 {
        lemma_xor_fold_congruence(g, gu, kb, kw, n - 1);
        let x = xor_fold(g, kb, kw, n - 1);
        lemma_xor_cancel(x, ko, kn);
        assert(xor_fold(gu, kb, kw, n) == x ^ kn);
        assert((xor_fold(g, kb, kw, n) ^ ko) ^ kn == ((x ^ ko) ^ ko) ^ kn);
    } else {
        lemma_xor_fold_update(g, kb, kw, i, v, n - 1);
        let x = xor_fold(g, kb, kw, n - 1);
        let k = key_of(g[n - 1], kb[n - 1], kw[n - 1]);
        assert(gu[n - 1] == g[n - 1]);
        lemma_xor_shuffle(x, ko, kn, k);
        assert(xor_fold(gu, kb, kw, n) == ((x ^ ko) ^ kn) ^ k);
        assert(((x ^ ko) ^ kn) ^ k == ((x ^ k) ^ ko) ^ kn);
    }
}

/// An all-empty prefix hashes to zero.
pub proof fn lemma_xor_fold_all_empty(g: Seq<u8>, kb: Seq<u64>, kw: Seq<u64>, n: int)
    requires
        forall|j: int| 0 <= j < n ==> g[j] == EMPTY,
    ensures
        xor_fold(g, kb, kw, n) == 0,
    decreases n,
{
    if n > 0 {
        lemma_xor_fold_all_empty(g, kb, kw, n - 1);
        lemma_xor_zero(0);
    }
}

/// A cell holding `c` inside the prefix makes its count positive.
pub proof fn lemma_count_color_positive(g: Seq<u8>, c: u8, k: int, n: int)
    requires
        0 <= k < n <= g.len(),
        g[k] == c,
    ensures
        count_color_upto(g, c, n) >= 1,
    decreases n,
{
    lemma_count_color_bounds(g, c, n - 1);
    if k < n - 1 {
        lemma_count_color_positive(g, c, k, n - 1);
    }
}

/// A colour absent from the prefix counts to zero there.
pub proof fn lemma_count_color_absent(g: Seq<u8>, c: u8, n: int)
    requires
        forall|j: int| 0 <= j < n ==> g[j] != c,
    ensures
        count_color_upto(g, c, n) == 0,
    decreases n,
{
    if n > 0 {
        lemma_count_color_absent(g, c, n - 1);
    }
}

// ---------------------------------------------------------------------------
// Groups, liberties and connectivity
// ---------------------------------------------------------------------------
/// `p` is a path of `color`-stones: nonempty, every cell on the board and of
/// that colour, consecutive cells orthogonally adjacent.
pub open spec fn path_ok(g: Seq<u8>, size: int, color: u8, p: Seq<(usize, usize)>) -> bool {
    &&& p.len() >= 1
    &&& forall|i: int|
        0 <= i < p.len() ==> in_bounds(size, #[trigger] p[i]) && cell_at(g, size, p[i]) == color
    &&& forall|i: int| 0 <= i < p.len() - 1 ==> adjacent(#[trigger] p[i], p[i + 1])
}

/// `b` belongs to the group of `a`: a path of stones of `a`'s colour joins
/// them.
pub open spec fn connected(g: Seq<u8>, size: int, a: (usize, usize), b: (usize, usize)) -> bool {
    exists|p: Seq<(usize, usize)>|
        path_ok(g, size, cell_at(g, size, a), p) && p.first() == a && p.last() == b
}

/// The cell `c` touches at least one empty board cell.
pub open spec fn has_liberty(g: Seq<u8>, size: int, c: (usize, usize)) -> bool {
    exists|e: (usize, usize)|
        in_bounds(size, e) && #[trigger] adjacent(c, e) && cell_at(g, size, e) == EMPTY
}

/// The cell `c` touches an empty cell other than `ex`.
pub open spec fn liberty_other_than(
    g: Seq<u8>,
    size: int,
    c: (usize, usize),
    ex: (usize, usize),
) -> bool {
    exists|e: (usize, usize)|
        in_bounds(size, e) && #[trigger] adjacent(c, e) && cell_at(g, size, e) == EMPTY && e != ex
}

/// The group of `s` has at least one liberty.
pub open spec fn group_alive(g: Seq<u8>, size: int, s: (usize, usize)) -> bool {
    exists|c: (usize, usize)| #[trigger] connected(g, size, s, c) && has_liberty(g, size, c)
}

/// The group of `s` has a liberty other than the cell `ex`.
pub open spec fn group_alive_except(
    g: Seq<u8>,
    size: int,
    s: (usize, usize),
    ex: (usize, usize),
) -> bool {
    exists|c: (usize, usize)|
        #[trigger] connected(g, size, s, c) && liberty_other_than(g, size, c, ex)
}

/// Every stone on the board belongs to a group with at least one liberty.
pub open spec fn no_dead_groups(g: Seq<u8>, size: int) -> bool {
    forall|s: (usize, usize)|
        in_bounds(size, s) && cell_at(g, size, s) != EMPTY ==> #[trigger] group_alive(g, size, s)
}

/// Legality of placing `su` on `(x, y)`: the point is on the board and empty,
/// and the move either captures an adjacent opposing group (strips its last
/// liberty), keeps a liberty of its own, or joins a friendly group that
/// retains a liberty besides `(x, y)` itself.
pub open spec fn valid_move(g: Seq<u8>, size: int, x: usize, y: usize, su: u8) -> bool {
    &&& in_bounds(size, (x, y))
    &&& cell_at(g, size, (x, y)) == EMPTY
    &&& {
        ||| (exists|q: (usize, usize)|
            in_bounds(size, q) && #[trigger] adjacent((x, y), q) && cell_at(g, size, q) == opp_u8(
                su,
            ) && !group_alive_except(g, size, q, (x, y)))
        ||| (exists|q: (usize, usize)|
            in_bounds(size, q) && #[trigger] adjacent((x, y), q) && cell_at(g, size, q) == EMPTY)
        ||| (exists|q: (usize, usize)|
            in_bounds(size, q) && #[trigger] adjacent((x, y), q) && cell_at(g, size, q) == su
                && group_alive_except(g, size, q, (x, y)))
    }
}

/// Marker-array lookup for a coordinate pair.
pub open spec fn marked(ms: Seq<bool>, size: int, q: (usize, usize)) -> bool {
    ms[flat(size, q)]
}

/// Number of unset entries among the first `n` marks.
pub open spec fn count_false_upto(ms: Seq<bool>, n: int) -> int
    decreases n,
{
    if n <= 0 {
        0
    } else {
        count_false_upto(ms, n - 1) + if !ms[n - 1] {
            1int
        } else {
            0int
        }
    }
}

pub(crate) proof fn lemma_count_false_bounds(ms: Seq<bool>, n: int)
    requires
        0 <= n <= ms.len(),
    ensures
        0 <= count_false_upto(ms, n) <= n,
    decreases n,
{
    if n > 0 {
        lemma_count_false_bounds(ms, n - 1);
    }
}

pub(crate) proof fn lemma_count_false_set_true(ms: Seq<bool>, i: int, n: int)
    requires
        0 <= i < n <= ms.len(),
        !ms[i],
    ensures
        count_false_upto(ms.update(i, true), n) == count_false_upto(ms, n) - 1,
    decreases n,
{
    if i == n - 1 {
        lemma_count_false_congruence(ms, ms.update(i, true), n - 1);
    } else {
        lemma_count_false_set_true(ms, i, n - 1);
    }
}

proof fn lemma_count_false_congruence(m1: Seq<bool>, m2: Seq<bool>, n: int)
    requires
        forall|j: int| 0 <= j < n ==> m1[j] == m2[j],
    ensures
        count_false_upto(m1, n) == count_false_upto(m2, n),
    decreases n,
{
    if n > 0 {
        lemma_count_false_congruence(m1, m2, n - 1);
    }
}

pub(crate) proof fn lemma_contains_after_push(s: Seq<(usize, usize)>, e: (usize, usize), w: (usize, usize))
    requires
        s.contains(w) || w == e,
    ensures
        s.push(e).contains(w),
{
    if s.contains(w) {
        let k = choose|k: int| 0 <= k < s.len() && s[k] == w;
        assert(s.push(e)[k] == w);
    } else {
        assert(s.push(e)[s.len() as int] == e);
    }
}

proof fn lemma_contains_after_pop(s: Seq<(usize, usize)>, w: (usize, usize))
    requires
        s.len() > 0,
        s.contains(w),
    ensures
        s.drop_last().contains(w) || w == s[s.len() - 1],
{
    let k = choose|k: int| 0 <= k < s.len() && s[k] == w;
    if k < s.len() - 1 {
        assert(s.drop_last()[k] == w);
    }
}

/// Membership in a sequence extended by one element.
pub(crate) proof fn lemma_contains_push_iff(s: Seq<(usize, usize)>, e: (usize, usize))
    ensures
        forall|m: (usize, usize)| #[trigger] s.push(e).contains(m) <==> (s.contains(m) || m == e),
{
    assert forall|m: (usize, usize)| #[trigger] s.push(e).contains(m) implies (s.contains(m) || m
        == e) by {
        let k = choose|k: int| 0 <= k < s.push(e).len() && s.push(e)[k] == m;
        if k < s.len() {
            assert(s[k] == m);
        }
    }
    assert forall|m: (usize, usize)| s.contains(m) || m == e implies #[trigger] s.push(e).contains(
        m,
    ) by {
        lemma_contains_after_push(s, e, m);
    }
}

/// Pushing a fresh element keeps a sequence duplicate-free.
pub(crate) proof fn lemma_no_dup_push(s: Seq<(usize, usize)>, e: (usize, usize))
    requires
        s.no_duplicates(),
        !s.contains(e),
    ensures
        s.push(e).no_duplicates(),
{
    assert forall|i: int, j: int|
        0 <= i < s.push(e).len() && 0 <= j < s.push(e).len() && i != j implies s.push(e)[i]
        != s.push(e)[j] by {
        if i < s.len() && j < s.len() {
        } else if i < s.len() {
            assert(s.push(e)[i] == s[i]);
            assert(s.contains(s[i]));
        } else if j < s.len() {
            assert(s.push(e)[j] == s[j]);
            assert(s.contains(s[j]));
        }
    }
}

/// A one-cell path shows every on-board cell connected to itself.
pub proof fn lemma_connected_refl(g: Seq<u8>, size: int, a: (usize, usize))
    requires
        in_bounds(size, a),
    ensures
        connected(g, size, a, a),
{
    let p: Seq<(usize, usize)> = seq![a];
    assert(p.first() == a && p.last() == a);
    assert(path_ok(g, size, cell_at(g, size, a), p));
}

/// Extending a path by one adjacent same-coloured cell keeps it connected.
pub proof fn lemma_connected_extend(
    g: Seq<u8>,
    size: int,
    a: (usize, usize),
    b: (usize, usize),
    w: (usize, usize),
)
    requires
        connected(g, size, a, b),
        in_bounds(size, w),
        adjacent(b, w),
        cell_at(g, size, w) == cell_at(g, size, a),
    ensures
        connected(g, size, a, w),
{
    let p = choose|p: Seq<(usize, usize)>|
        path_ok(g, size, cell_at(g, size, a), p) && p.first() == a && p.last() == b;
    let p2 = p.push(w);
    assert forall|i: int| 0 <= i < p2.len() - 1 implies adjacent(#[trigger] p2[i], p2[i + 1]) by {
        if i < p.len() - 1 {
            assert(p2[i] == p[i] && p2[i + 1] == p[i + 1]);
        } else {
            assert(p2[i] == p.last() && p2[i + 1] == w);
        }
    }
    assert(path_ok(g, size, cell_at(g, size, a), p2));
    assert(p2.first() == a && p2.last() == w);
}

/// Both endpoints of a connection are on the board and share a colour.
pub proof fn lemma_connected_endpoints(g: Seq<u8>, size: int, a: (usize, usize), b: (usize, usize))
    requires
        connected(g, size, a, b),
    ensures
        in_bounds(size, a),
        in_bounds(size, b),
        cell_at(g, size, b) == cell_at(g, size, a),
{
    let p = choose|p: Seq<(usize, usize)>|
        path_ok(g, size, cell_at(g, size, a), p) && p.first() == a && p.last() == b;
    assert(in_bounds(size, p[0]) && cell_at(g, size, p[0]) == cell_at(g, size, a));
    assert(in_bounds(size, p[p.len() - 1]));
}

/// Connectivity runs backwards along the reversed path.
pub proof fn lemma_connected_sym(g: Seq<u8>, size: int, a: (usize, usize), b: (usize, usize))
    requires
        connected(g, size, a, b),
    ensures
        connected(g, size, b, a),
{
    let color = cell_at(g, size, a);
    let p = choose|p: Seq<(usize, usize)>|
        path_ok(g, size, color, p) && p.first() == a && p.last() == b;
    let n = p.len() as int;
    let q = Seq::new(p.len(), |i: int| p[n - 1 - i]);
    assert forall|i: int| 0 <= i < q.len() - 1 implies adjacent(#[trigger] q[i], q[i + 1]) by {
        assert(adjacent(p[n - 2 - i], p[n - 1 - i]));
        assert(q[i] == p[n - 1 - i] && q[i + 1] == p[n - 2 - i]);
    }
    lemma_connected_endpoints(g, size, a, b);
    assert(path_ok(g, size, cell_at(g, size, b), q));
    assert(q.first() == b && q.last() == a);
}

/// Connectivity composes along concatenated paths.
pub proof fn lemma_connected_trans(
    g: Seq<u8>,
    size: int,
    a: (usize, usize),
    b: (usize, usize),
    c: (usize, usize),
)
    requires
        connected(g, size, a, b),
        connected(g, size, b, c),
    ensures
        connected(g, size, a, c),
{
    lemma_connected_endpoints(g, size, a, b);
    let color = cell_at(g, size, a);
    let p1 = choose|p: Seq<(usize, usize)>|
        path_ok(g, size, color, p) && p.first() == a && p.last() == b;
    let p2 = choose|p: Seq<(usize, usize)>|
        path_ok(g, size, cell_at(g, size, b), p) && p.first() == b && p.last() == c;
    let q = p1 + p2.subrange(1, p2.len() as int);
    assert forall|i: int|
        0 <= i < q.len() implies in_bounds(size, #[trigger] q[i]) && cell_at(g, size, q[i])
        == color by {
        if i < p1.len() {
            assert(q[i] == p1[i]);
        } else {
            assert(q[i] == p2[i - p1.len() + 1]);
        }
    }
    assert forall|i: int| 0 <= i < q.len() - 1 implies adjacent(#[trigger] q[i], q[i + 1]) by {
        if i + 1 < p1.len() {
            assert(q[i] == p1[i] && q[i + 1] == p1[i + 1]);
        } else if i + 1 == p1.len() {
            assert(q[i] == p1[i] && q[i + 1] == p2[1]);
            assert(adjacent(p2[0], p2[1]));
        } else {
            assert(q[i] == p2[i - p1.len() + 1] && q[i + 1] == p2[i - p1.len() + 2]);
        }
    }
    if p2.len() == 1 {
        assert(q =~= p1);
        assert(q.last() == c);
    } else {
        assert(q.last() == p2.last());
    }
    assert(path_ok(g, size, color, q));
    assert(q.first() == a && q.last() == c);
}

/// Two grids with the same cells of one colour connect that colour alike.
pub proof fn lemma_connected_transfer(
    g1: Seq<u8>,
    g2: Seq<u8>,
    size: int,
    a: (usize, usize),
    b: (usize, usize),
)
    requires
        forall|q: (usize, usize)|
            in_bounds(size, q) ==> ((cell_at(g1, size, q) == cell_at(g1, size, a)) <==> (cell_at(
                g2,
                size,
                q,
            ) == cell_at(g1, size, a))),
        connected(g1, size, a, b),
    ensures
        connected(g2, size, a, b),
{
    let color = cell_at(g1, size, a);
    let p = choose|p: Seq<(usize, usize)>|
        path_ok(g1, size, color, p) && p.first() == a && p.last() == b;
    lemma_connected_endpoints(g1, size, a, b);
    assert forall|i: int|
        0 <= i < p.len() implies in_bounds(size, #[trigger] p[i]) && cell_at(g2, size, p[i])
        == color by {
        assert(cell_at(g1, size, p[i]) == color);
    }
    assert(cell_at(g2, size, a) == color);
    assert(path_ok(g2, size, cell_at(g2, size, a), p));
}

/// A group keeps a liberty in a second grid if its whole component is
/// unchanged there and no empty cell got filled.
pub proof fn lemma_component_alive_transfer(g1: Seq<u8>, g2: Seq<u8>, size: int, s: (usize, usize))
    requires
        in_bounds(size, s),
        cell_at(g1, size, s) != EMPTY,
        forall|c: (usize, usize)| #[trigger]
            connected(g1, size, s, c) ==> cell_at(g2, size, c) == cell_at(g1, size, c),
        forall|e: (usize, usize)|
            in_bounds(size, e) && cell_at(g1, size, e) == EMPTY ==> cell_at(g2, size, e) == EMPTY,
        group_alive(g1, size, s),
    ensures
        group_alive(g2, size, s),
{
    lemma_connected_refl(g1, size, s);
    assert(cell_at(g2, size, s) == cell_at(g1, size, s));
    let color = cell_at(g1, size, s);
    let c = choose|c: (usize, usize)|
        #[trigger] connected(g1, size, s, c) && has_liberty(g1, size, c);
    let p = choose|p: Seq<(usize, usize)>|
        path_ok(g1, size, color, p) && p.first() == s && p.last() == c;
    assert forall|i: int| 0 <= i < p.len() implies cell_at(g2, size, #[trigger] p[i]) == color by {
        let pre = p.subrange(0, i + 1);
        assert forall|j: int| 0 <= j < pre.len() - 1 implies adjacent(
            #[trigger] pre[j],
            pre[j + 1],
        ) by {
            assert(pre[j] == p[j] && pre[j + 1] == p[j + 1]);
        }
        assert(path_ok(g1, size, color, pre));
        assert(pre.first() == s && pre.last() == p[i]);
        assert(connected(g1, size, s, p[i]));
        assert(cell_at(g1, size, p[i]) == color);
    }
    assert(path_ok(g2, size, cell_at(g2, size, s), p));
    assert(connected(g2, size, s, c));
    let e = choose|e: (usize, usize)|
        in_bounds(size, e) && #[trigger] adjacent(c, e) && cell_at(g1, size, e) == EMPTY;
    assert(cell_at(g2, size, e) == EMPTY);
    assert(has_liberty(g2, size, c));
}

/// After a stone lands on an empty point, a group that was alive before is
/// either still alive or touches the placed point through its own component.
pub proof fn lemma_dead_after_place_touches(
    g0: Seq<u8>,
    g1: Seq<u8>,
    size: int,
    p: (usize, usize),
    su: u8,
    q: (usize, usize),
)
    requires
        in_bounds(size, p),
        cell_at(g0, size, p) == EMPTY,
        su != EMPTY,
        g1 == g0.update(flat(size, p), su),
        g0.len() == size * size,
        in_bounds(size, q),
        q != p,
        cell_at(g1, size, q) != EMPTY,
        group_alive(g0, size, q),
    ensures
        group_alive(g1, size, q) || (exists|c: (usize, usize)|
            #[trigger] connected(g1, size, q, c) && adjacent(c, p)),
{
    lemma_cell_index_in_range(size, p.0 as int, p.1 as int);
    lemma_cell_index_in_range(size, q.0 as int, q.1 as int);
    lemma_flat_injective_converse(size, q, p);
    assert(cell_at(g0, size, q) == cell_at(g1, size, q));
    let color = cell_at(g0, size, q);
    let c = choose|c: (usize, usize)|
        #[trigger] connected(g0, size, q, c) && has_liberty(g0, size, c);
    let pth = choose|pp: Seq<(usize, usize)>|
        path_ok(g0, size, color, pp) && pp.first() == q && pp.last() == c;
    assert forall|i: int|
        0 <= i < pth.len() implies cell_at(g1, size, #[trigger] pth[i]) == color by {
        assert(cell_at(g0, size, pth[i]) == color);
        lemma_cell_index_in_range(size, pth[i].0 as int, pth[i].1 as int);
        if pth[i] != p {
            lemma_flat_injective_converse(size, pth[i], p);
        }
    }
    assert(path_ok(g1, size, cell_at(g1, size, q), pth));
    assert(connected(g1, size, q, c));
    let e = choose|e: (usize, usize)|
        in_bounds(size, e) && #[trigger] adjacent(c, e) && cell_at(g0, size, e) == EMPTY;
    if e == p {
        assert(adjacent(c, p));
    } else {
        lemma_cell_index_in_range(size, e.0 as int, e.1 as int);
        lemma_flat_injective_converse(size, e, p);
        assert(cell_at(g1, size, e) == EMPTY);
        assert(has_liberty(g1, size, c));
    }
}

/// Distinct in-bounds coordinates read distinct grid cells.
pub proof fn lemma_flat_injective_converse(size: int, a: (usize, usize), b: (usize, usize))
    requires
        in_bounds(size, a),
        in_bounds(size, b),
        a != b,
    ensures
        flat(size, a) != flat(size, b),
{
    if flat(size, a) == flat(size, b) {
        lemma_flat_injective(size, a, b);
    }
}

/// A connection carries over to a grid that holds at least the same stones
/// of the start's colour.
pub proof fn lemma_connected_mono(cur: Seq<u8>, g1: Seq<u8>, size: int, a: (usize, usize), b: (
    usize,
    usize,
))
    requires
        forall|q: (usize, usize)|
            in_bounds(size, q) && #[trigger] cell_at(cur, size, q) == cell_at(cur, size, a)
                ==> cell_at(g1, size, q) == cell_at(cur, size, a),
        connected(cur, size, a, b),
    ensures
        connected(g1, size, a, b),
{
    let color = cell_at(cur, size, a);
    let p = choose|p: Seq<(usize, usize)>|
        path_ok(cur, size, color, p) && p.first() == a && p.last() == b;
    lemma_connected_endpoints(cur, size, a, b);
    assert forall|i: int|
        0 <= i < p.len() implies in_bounds(size, #[trigger] p[i]) && cell_at(g1, size, p[i])
        == color by {
        assert(cell_at(cur, size, p[i]) == color);
    }
    assert(cell_at(g1, size, a) == color);
    assert(path_ok(g1, size, cell_at(g1, size, a), p));
}

/// A connection carries over to a grid in which the start's whole component
/// is unchanged.
pub proof fn lemma_connected_under_intact(g1: Seq<u8>, cur: Seq<u8>, size: int, a: (usize, usize), b: (
    usize,
    usize,
))
    requires
        connected(g1, size, a, b),
        forall|c: (usize, usize)| #[trigger]
            connected(g1, size, a, c) ==> cell_at(cur, size, c) == cell_at(g1, size, c),
    ensures
        connected(cur, size, a, b),
{
    lemma_connected_refl_of(g1, size, a);
    let color = cell_at(g1, size, a);
    let p = choose|p: Seq<(usize, usize)>|
        path_ok(g1, size, color, p) && p.first() == a && p.last() == b;
    assert forall|i: int| 0 <= i < p.len() implies cell_at(cur, size, #[trigger] p[i]) == color by {
        let pre = p.subrange(0, i + 1);
        assert forall|j: int| 0 <= j < pre.len() - 1 implies adjacent(
            #[trigger] pre[j],
            pre[j + 1],
        ) by {
            assert(pre[j] == p[j] && pre[j + 1] == p[j + 1]);
        }
        assert(path_ok(g1, size, color, pre));
        assert(pre.first() == a && pre.last() == p[i]);
        assert(connected(g1, size, a, p[i]));
        assert(cell_at(g1, size, p[i]) == color);
    }
    assert(cell_at(cur, size, a) == color);
    assert(path_ok(cur, size, cell_at(cur, size, a), p));
}

proof fn lemma_connected_refl_of(g: Seq<u8>, size: int, a: (usize, usize))
    requires
        connected(g, size, a, a) || (exists|b: (usize, usize)| connected(g, size, a, b)),
    ensures
        connected(g, size, a, a),
{
    let b = choose|b: (usize, usize)| connected(g, size, a, b);
    lemma_connected_endpoints(g, size, a, b);
    lemma_connected_refl(g, size, a);
}

/// A cell connected to a live group is itself part of a live group.
pub proof fn lemma_alive_via_connected(g: Seq<u8>, size: int, a: (usize, usize), b: (usize, usize))
    requires
        connected(g, size, a, b),
        group_alive(g, size, b),
    ensures
        group_alive(g, size, a),
{
    let c = choose|c: (usize, usize)|
        #[trigger] connected(g, size, b, c) && has_liberty(g, size, c);
    lemma_connected_trans(g, size, a, b, c);
}

/// A mark set that contains a path's start and is closed under same-coloured
/// adjacency contains the path's end.
proof fn lemma_closed_covers_path(
    g: Seq<u8>,
    size: int,
    color: u8,
    ms: Seq<bool>,
    p: Seq<(usize, usize)>,
)
    requires
        path_ok(g, size, color, p),
        marked(ms, size, p.first()),
        forall|v: (usize, usize), w: (usize, usize)|
            in_bounds(size, v) && marked(ms, size, v) && in_bounds(size, w) && #[trigger] adjacent(
                v,
                w,
            ) && cell_at(g, size, w) == color ==> marked(ms, size, w),
    ensures
        marked(ms, size, p.last()),
    decreases p.len(),
{
    if p.len() > 1 {
        assert(adjacent(p[0], p[1]));
        assert(marked(ms, size, p[1]));
        let p2 = p.subrange(1, p.len() as int);
        assert forall|i: int| 0 <= i < p2.len() - 1 implies adjacent(#[trigger] p2[i], p2[i + 1]) by {
            assert(p2[i] == p[i + 1] && p2[i + 1] == p[i + 2]);
        }
        assert(path_ok(g, size, color, p2));
        lemma_closed_covers_path(g, size, color, ms, p2);
        assert(p2.last() == p.last());
    }
}

// ---------------------------------------------------------------------------
// Eye classification specification
// ---------------------------------------------------------------------------
/// Which of the four diagonal corners of `(x, y)` exist on the board.
pub open spec fn diag_nw(size: int, x: usize, y: usize) -> bool {
    x >= 1 && y >= 1
}

pub open spec fn diag_ne(size: int, x: usize, y: usize) -> bool {
    x + 1 < size && y >= 1
}

pub open spec fn diag_sw(size: int, x: usize, y: usize) -> bool {
    x >= 1 && y + 1 < size
}

pub open spec fn diag_se(size: int, x: usize, y: usize) -> bool {
    x + 1 < size && y + 1 < size
}

/// Number of diagonal corners of `(x, y)` that lie on the board.
pub open spec fn diag_count(size: int, x: usize, y: usize) -> int {
    (if diag_nw(size, x, y) {
        1int
    } else {
        0int
    }) + (if diag_ne(size, x, y) {
        1int
    } else {
        0int
    }) + (if diag_sw(size, x, y) {
        1int
    } else {
        0int
    }) + (if diag_se(size, x, y) {
        1int
    } else {
        0int
    })
}

pub open spec fn diag_ind(g: Seq<u8>, size: int, present: bool, p: (usize, usize), want_friend: bool, su: u8) -> int {
    if present && (if want_friend {
        cell_at(g, size, p) == su
    } else {
        cell_at(g, size, p) != EMPTY && cell_at(g, size, p) != su
    }) {
        1int
    } else {
        0int
    }
}

/// Number of existing diagonal corners holding an opposing stone.
pub open spec fn diag_opp_count(g: Seq<u8>, size: int, x: usize, y: usize, su: u8) -> int {
    diag_ind(g, size, diag_nw(size, x, y), (((x - 1) as usize), ((y - 1) as usize)), false, su)
        + diag_ind(g, size, diag_ne(size, x, y), (((x + 1) as usize), ((y - 1) as usize)), false, su)
        + diag_ind(g, size, diag_sw(size, x, y), (((x - 1) as usize), ((y + 1) as usize)), false, su)
        + diag_ind(g, size, diag_se(size, x, y), (((x + 1) as usize), ((y + 1) as usize)), false, su)
}

/// Number of existing diagonal corners holding a friendly stone.
pub open spec fn diag_friend_count(g: Seq<u8>, size: int, x: usize, y: usize, su: u8) -> int {
    diag_ind(g, size, diag_nw(size, x, y), (((x - 1) as usize), ((y - 1) as usize)), true, su)
        + diag_ind(g, size, diag_ne(size, x, y), (((x + 1) as usize), ((y - 1) as usize)), true, su)
        + diag_ind(g, size, diag_sw(size, x, y), (((x - 1) as usize), ((y + 1) as usize)), true, su)
        + diag_ind(g, size, diag_se(size, x, y), (((x + 1) as usize), ((y + 1) as usize)), true, su)
}

/// Eye for the colour encoded `su` at `(x, y)`: the point is empty, every
/// orthogonal neighbour holds `su`, and the diagonal tolerance holds — a
/// corner point's single diagonal must be friendly, an edge point must have
/// no opposing diagonal, an interior point at most one.
pub open spec fn eye_at(g: Seq<u8>, size: int, x: usize, y: usize, su: u8) -> bool {
    &&& in_bounds(size, (x, y))
    &&& cell_at(g, size, (x, y)) == EMPTY
    &&& (forall|q: (usize, usize)|
        in_bounds(size, q) && adjacent((x, y), q) ==> cell_at(g, size, q) == su)
    &&& {
        let dc = diag_count(size, x, y);
        if dc == 1 {
            diag_friend_count(g, size, x, y, su) == 1
        } else if dc == 2 {
            diag_opp_count(g, size, x, y, su) == 0
        } else if dc == 4 {
            diag_opp_count(g, size, x, y, su) <= 1
        } else {
            false
        }
    }
}

/// Number of eyes for `su` among the cells that precede `(y, x)` in
/// row-major scan order.
pub open spec fn eye_count_upto(g: Seq<u8>, size: int, su: u8, y: int, x: int) -> int
    decreases y, x,
{
    if y < 0 || x < 0 {
        0
    } else if x == 0 {
        if y == 0 {
            0
        } else {
            eye_count_upto(g, size, su, y - 1, size)
        }
    } else {
        eye_count_upto(g, size, su, y, x - 1) + if 0 <= x - 1 < size && 0 <= y < size && eye_at(
            g,
            size,
            ((x - 1) as usize),
            (y as usize),
            su,
        ) {
            1int
        } else {
            0int
        }
    }
}

/// Number of eyes for `su` on the whole board.
pub open spec fn eye_count(g: Seq<u8>, size: int, su: u8) -> int {
    eye_count_upto(g, size, su, size, 0)
}

proof fn lemma_eye_count_upto_bounds(g: Seq<u8>, size: int, su: u8, y: int, x: int)
    requires
        0 <= x <= size,
        0 <= y,
    ensures
        0 <= eye_count_upto(g, size, su, y, x) <= y * size + x,
    decreases y, x,
{
    if x == 0 {
        if y > 0 {
            lemma_eye_count_upto_bounds(g, size, su, y - 1, size);
            assert((y - 1) * size + size == y * size) by (nonlinear_arith);
        }
    } else {
        lemma_eye_count_upto_bounds(g, size, su, y, x - 1);
    }
}

/// On a board with no eyes anywhere, every scan prefix counts zero.
proof fn lemma_eye_count_upto_zero(g: Seq<u8>, size: int, su: u8, y: int, x: int)
    requires
        forall|xx: usize, yy: usize|
            in_bounds(size, (xx, yy)) ==> !eye_at(g, size, xx, yy, su),
    ensures
        eye_count_upto(g, size, su, y, x) == 0,
    decreases y, x,
{
    if y < 0 || x < 0 {
    } else if x == 0 {
        if y > 0 {
            lemma_eye_count_upto_zero(g, size, su, y - 1, size);
        }
    } else {
        lemma_eye_count_upto_zero(g, size, su, y, x - 1);
    }
}

/// A fresh (all-empty) board has no eyes for any stone colour.
pub proof fn lemma_empty_grid_has_no_eyes(g: Seq<u8>, size: int, su: u8)
    requires
        forall|j: int| 0 <= j < g.len() ==> g[j] == EMPTY,
        g.len() == size * size,
        0 <= size <= usize::MAX,
        su == BLACK || su == WHITE,
    ensures
        eye_count(g, size, su) == 0,
{
    assert forall|xx: usize, yy: usize|
        in_bounds(size, (xx, yy)) implies !eye_at(g, size, xx, yy, su) by {
        lemma_cell_index_in_range(size, xx as int, yy as int);
        if size >= 2 {
            let q: (usize, usize) = if xx + 1 < size {
                (((xx + 1) as usize), yy)
            } else {
                (((xx - 1) as usize), yy)
            };
            if xx + 1 < size {
                assert(q.0 == xx + 1);
            } else {
                assert(xx >= 1);
                assert(q.0 + 1 == xx);
            }
            assert(in_bounds(size, q) && adjacent((xx, yy), q));
            lemma_cell_index_in_range(size, q.0 as int, q.1 as int);
            assert(cell_at(g, size, q) == EMPTY);
        } else {
            assert(diag_count(size, xx, yy) == 0);
        }
    }
    lemma_eye_count_upto_zero(g, size, su, size, 0);
}

// ---------------------------------------------------------------------------
// The board itself
// ---------------------------------------------------------------------------
#[derive(Debug)]
pub struct Board {
    size: usize,
    grid: Vec<u8>,
    captured: (usize, usize),
    zobrist_table: ZobristTable,
    current_hash: u64,
}

impl Board {
    /// Side length of the board.
    pub closed spec fn sz(&self) -> int {
        self.size as int
    }

    /// The grid contents, row-major.
    pub closed spec fn cells(&self) -> Seq<u8> {
        self.grid@
    }

    /// Stones captured so far by Black.
    pub closed spec fn cap_black(&self) -> int {
        self.captured.0 as int
    }

    /// Stones captured so far by White.
    pub closed spec fn cap_white(&self) -> int {
        self.captured.1 as int
    }

    /// The current position hash.
    pub closed spec fn hash_val(&self) -> u64 {
        self.current_hash
    }

    /// The per-cell black keys of the hasher.
    pub closed spec fn kb(&self) -> Seq<u64> {
        self.zobrist_table.keys_black()
    }

    /// The per-cell white keys of the hasher.
    pub closed spec fn kw(&self) -> Seq<u64> {
        self.zobrist_table.keys_white()
    }

    /// Well-formedness: grid and key tables sized to the board, each cell one
    /// of the three states, and the hash equal to the XOR of the keys of the
    /// occupied cells.
    pub closed spec fn wf(&self) -> bool {
        &&& self.grid@.len() == self.size * self.size
        &&& forall|j: int|
            0 <= j < self.grid@.len() ==> (self.grid@[j] == EMPTY || self.grid@[j] == BLACK
                || self.grid@[j] == WHITE)
        &&& self.zobrist_table.wf()
        &&& self.zobrist_table.sz() == self.size
        &&& self.current_hash == xor_fold(self.grid@, self.kb(), self.kw(), self.grid@.len() as int)
    }

    pub fn new(size: usize) -> (r: Board)
        requires
            size * size <= usize::MAX,
        ensures
            r.wf(),
            r.sz() == size,
            r.cells().len() == size * size,
            forall|j: int| 0 <= j < r.cells().len() ==> r.cells()[j] == EMPTY,
            r.cap_black() == 0,
            r.cap_white() == 0,
            r.hash_val() == 0,
            count_color(r.cells(), BLACK) == 0,
            count_color(r.cells(), WHITE) == 0,
            eye_count(r.cells(), r.sz(), BLACK) == 0,
            eye_count(r.cells(), r.sz(), WHITE) == 0,
            no_dead_groups(r.cells(), r.sz()),
            // the key tables are a function of the board size alone, so
            // boards of one size hash alike
            r.kb() == crate::rng::seeded_keys(
                crate::zobrist::BLACK_KEY_SEED,
                (size * size) as int,
            ),
            r.kw() == crate::rng::seeded_keys(
                crate::zobrist::WHITE_KEY_SEED,
                (size * size) as int,
            ),
    {
        let n = size * size;
        let grid: Vec<u8> = vec![EMPTY; n];
        let zobrist_table = ZobristTable::new(size);
        let r = Board { size, grid, captured: (0, 0), zobrist_table, current_hash: 0 };
        proof {
            lemma_xor_fold_all_empty(r.cells(), r.kb(), r.kw(), n as int);
            lemma_count_color_absent(r.cells(), BLACK, n as int);
            lemma_count_color_absent(r.cells(), WHITE, n as int);
            lemma_empty_grid_has_no_eyes(r.cells(), size as int, BLACK);
            lemma_empty_grid_has_no_eyes(r.cells(), size as int, WHITE);
            assert forall|s: (usize, usize)|
                in_bounds(size as int, s) && cell_at(r.cells(), size as int, s) != EMPTY implies #[trigger] group_alive(
                r.cells(),
                size as int,
                s,
            ) by {
                lemma_cell_index_in_range(size as int, s.0 as int, s.1 as int);
            }
        }
        r
    }

    /// Row-major index of an in-bounds coordinate pair.
    pub(crate) fn index(&self, x: usize, y: usize) -> (r: usize)
        requires
            self.wf(),
            x < self.sz(),
            y < self.sz(),
        ensures
            r == flat(self.sz(), (x, y)),
            r < self.cells().len(),
    {
        let n = self.grid.len();
        proof {
            lemma_cell_index_in_range(self.size as int, x as int, y as int);
        }
        y * self.size + x
    }

    pub fn size(&self) -> (r: usize)
        ensures
            r == self.sz(),
    {
        self.size
    }

    /// Number of cells of the grid.
    pub(crate) fn cell_count(&self) -> (r: usize)
        ensures
            r == self.cells().len(),
    {
        self.grid.len()
    }

    fn get_raw(&self, x: usize, y: usize) -> (r: u8)
        requires
            self.wf(),
            x < self.sz(),
            y < self.sz(),
        ensures
            r == cell_at(self.cells(), self.sz(), (x, y)),
            r == EMPTY || r == BLACK || r == WHITE,
    {
        let idx = self.index(x, y);
        self.grid[idx]
    }

    pub fn get(&self, x: usize, y: usize) -> (r: Option<Stone>)
        requires
            self.wf(),
            x < self.sz(),
            y < self.sz(),
        ensures
            r == (match cell_at(self.cells(), self.sz(), (x, y)) {
                1u8 => Some(Stone::Black),
                2u8 => Some(Stone::White),
                _ => None::<Stone>,
            }),
            r is None ==> cell_at(self.cells(), self.sz(), (x, y)) == EMPTY,
            r == Some(Stone::Black) ==> cell_at(self.cells(), self.sz(), (x, y)) == BLACK,
            r == Some(Stone::White) ==> cell_at(self.cells(), self.sz(), (x, y)) == WHITE,
    {
        proof {
            lemma_cell_index_in_range(self.sz(), x as int, y as int);
        }
        match self.get_raw(x, y) {
            1u8 => Some(Stone::Black),
            2u8 => Some(Stone::White),
            _ => None,
        }
    }

    fn stone_to_u8(stone: Stone) -> (r: u8)
        ensures
            r == stone.to_u8(),
    {
        match stone {
            Stone::Black => BLACK,
            Stone::White => WHITE,
        }
    }

    fn opposite_u8(stone_u8: u8) -> (r: u8)
        ensures
            r == opp_u8(stone_u8),
    {
        match stone_u8 {
            1u8 => WHITE,
            2u8 => BLACK,
            _ => EMPTY,
        }
    }

    /// The orthogonal neighbours of `(x, y)` that lie on the board, without
    /// duplicates; exactly the in-bounds cells adjacent to `(x, y)`.
    pub(crate) fn neighbors(&self, x: usize, y: usize) -> (r: Vec<(usize, usize)>)
        requires
            self.wf(),
            x < self.sz(),
            y < self.sz(),
        ensures
            r@.no_duplicates(),
            forall|q: (usize, usize)|
                #[trigger] r@.contains(q) <==> (in_bounds(self.sz(), q) && adjacent((x, y), q)),
            forall|i: int|
                0 <= i < r@.len() ==> in_bounds(self.sz(), #[trigger] r@[i]) && adjacent(
                    (x, y),
                    r@[i],
                ),
    {
        let mut r: Vec<(usize, usize)> = Vec::new();
        if x > 0 {
            r.push((x - 1, y));
        }
        if x + 1 < self.size {
            r.push((x + 1, y));
        }
        if y > 0 {
            r.push((x, y - 1));
        }
        if y + 1 < self.size {
            r.push((x, y + 1));
        }
        proof {
            broadcast use group_seq_properties;

            assert forall|q: (usize, usize)|
                in_bounds(self.sz(), q) && adjacent((x, y), q) implies #[trigger] r@.contains(
                q,
            ) by {
                if q.1 == y && q.0 + 1 == x {
                    assert(q == (((x - 1) as usize), y));
                } else if q.1 == y && x + 1 == q.0 {
                    assert(q == (((x + 1) as usize), y));
                } else if q.0 == x && q.1 + 1 == y {
                    assert(q == (x, ((y - 1) as usize)));
                } else {
                    assert(q.0 == x && y + 1 == q.1);
                    assert(q == (x, ((y + 1) as usize)));
                }
            }
        }
        r
    }

    pub fn is_eye(&self, x: usize, y: usize, stone: Stone) -> (r: bool)
        requires
            self.wf(),
            x < self.sz(),
            y < self.sz(),
        ensures
            r == eye_at(self.cells(), self.sz(), x, y, stone.to_u8()),
    {
        if self.get_raw(x, y) != EMPTY {
            return false;
        }
        let su = Self::stone_to_u8(stone);
        let nbrs = self.neighbors(x, y);
        let mut i: usize = 0;
        while i < nbrs.len()
            invariant
                self.wf(),
                x < self.sz(),
                y < self.sz(),
                su == stone.to_u8(),
                i <= nbrs.len(),
                nbrs@.no_duplicates(),
                forall|q: (usize, usize)|
                    #[trigger] nbrs@.contains(q) <==> (in_bounds(self.sz(), q) && adjacent(
                        (x, y),
                        q,
                    )),
                forall|j: int|
                    0 <= j < nbrs@.len() ==> in_bounds(self.sz(), #[trigger] nbrs@[j]) && adjacent(
                        (x, y),
                        nbrs@[j],
                    ),
                forall|j: int|
                    0 <= j < i ==> cell_at(self.cells(), self.sz(), #[trigger] nbrs@[j]) == su,
            decreases nbrs.len() - i,
        {
            let (nx, ny) = nbrs[i];
            proof {
                assert((nx, ny) == nbrs@[i as int]);
            }
            if self.get_raw(nx, ny) != su {
                proof {
                    assert(cell_at(self.cells(), self.sz(), nbrs@[i as int]) != su);
                    assert(!eye_at(self.cells(), self.sz(), x, y, su));
                }
                return false;
            }
            i = i + 1;
        }
        proof {
            assert forall|q: (usize, usize)|
                in_bounds(self.sz(), q) && adjacent((x, y), q) implies cell_at(
                self.cells(),
                self.sz(),
                q,
            ) == su by {
                assert(nbrs@.contains(q));
                let j = choose|j: int| 0 <= j < nbrs@.len() && nbrs@[j] == q;
                assert(cell_at(self.cells(), self.sz(), nbrs@[j]) == su);
            }
        }
        let mut dcount: usize = 0;
        let mut dopp: usize = 0;
        let mut dfriend: usize = 0;
        if x >= 1 && y >= 1 {
            dcount = dcount + 1;
            let c = self.get_raw(x - 1, y - 1);
            if c == su {
                dfriend = dfriend + 1;
            } else if c != EMPTY {
                dopp = dopp + 1;
            }
        }
        if x + 1 < self.size && y >= 1 {
            dcount = dcount + 1;
            let c = self.get_raw(x + 1, y - 1);
            if c == su {
                dfriend = dfriend + 1;
            } else if c != EMPTY {
                dopp = dopp + 1;
            }
        }
        if x >= 1 && y + 1 < self.size {
            dcount = dcount + 1;
            let c = self.get_raw(x - 1, y + 1);
            if c == su {
                dfriend = dfriend + 1;
            } else if c != EMPTY {
                dopp = dopp + 1;
            }
        }
        if x + 1 < self.size && y + 1 < self.size {
            dcount = dcount + 1;
            let c = self.get_raw(x + 1, y + 1);
            if c == su {
                dfriend = dfriend + 1;
            } else if c != EMPTY {
                dopp = dopp + 1;
            }
        }
        proof {
            assert(dcount as int == diag_count(self.sz(), x, y));
            assert(dopp as int == diag_opp_count(self.cells(), self.sz(), x, y, su));
            assert(dfriend as int == diag_friend_count(self.cells(), self.sz(), x, y, su));
        }
        if dcount == 1 {
            dfriend == 1
        } else if dcount == 2 {
            dopp == 0
        } else if dcount == 4 {
            dopp <= 1
        } else {
            false
        }
    }

    pub fn count_eyes_for_color(&self, stone: Stone) -> (r: usize)
        requires
            self.wf(),
        ensures
            r == eye_count(self.cells(), self.sz(), stone.to_u8()),
    {
        let n = self.grid.len();
        let mut eye_cnt: usize = 0;
        let mut y: usize = 0;
        while y < self.size
            invariant
                self.wf(),
                n == self.cells().len(),
                y <= self.sz(),
                eye_cnt as int == eye_count_upto(self.cells(), self.sz(), stone.to_u8(), y as int, 0),
                eye_cnt as int <= y * self.sz(),
            decreases self.sz() - y,
        {
            let mut x: usize = 0;
            while x < self.size
                invariant
                    self.wf(),
                    n == self.cells().len(),
                    y < self.sz(),
                    x <= self.sz(),
                    eye_cnt as int == eye_count_upto(
                        self.cells(),
                        self.sz(),
                        stone.to_u8(),
                        y as int,
                        x as int,
                    ),
                    eye_cnt as int <= y * self.sz() + x,
                decreases self.sz() - x,
            {
                proof {
                    lemma_cell_index_in_range(self.sz(), x as int, y as int);
                }
                if self.is_eye(x, y, stone) {
                    eye_cnt = eye_cnt + 1;
                }
                x = x + 1;
            }
            proof {
                assert(eye_count_upto(self.cells(), self.sz(), stone.to_u8(), y as int + 1, 0)
                    == eye_count_upto(self.cells(), self.sz(), stone.to_u8(), y as int, self.sz()));
                assert((y + 1) * self.sz() == y * self.sz() + self.sz()) by (nonlinear_arith);
            }
            y = y + 1;
        }
        eye_cnt
    }

    pub fn get_captured(&self) -> (r: (usize, usize))
        ensures
            r.0 == self.cap_black(),
            r.1 == self.cap_white(),
    {
        self.captured
    }

    pub fn get_hash(&self) -> (r: u64)
        ensures
            r == self.hash_val(),
            self.wf() ==> r == xor_fold(self.cells(), self.kb(), self.kw(), self.cells().len() as int),
    {
        self.current_hash
    }

    pub fn is_empty(&self) -> (r: bool)
        requires
            self.wf(),
        ensures
            r == (forall|j: int| 0 <= j < self.cells().len() ==> self.cells()[j] == EMPTY),
            r == (count_color(self.cells(), BLACK) == 0 && count_color(self.cells(), WHITE) == 0),
    {
        let mut i: usize = 0;
        let n = self.grid.len();
        while i < n
            invariant
                self.wf(),
                n == self.cells().len(),
                i <= n,
                forall|j: int| 0 <= j < i ==> self.cells()[j] == EMPTY,
            decreases n - i,
        {
            if self.grid[i] != EMPTY {
                proof {
                    if self.cells()[i as int] == BLACK {
                        lemma_count_color_positive(self.cells(), BLACK, i as int, n as int);
                    } else {
                        lemma_count_color_positive(self.cells(), WHITE, i as int, n as int);
                    }
                }
                return false;
            }
            i = i + 1;
        }
        proof {
            lemma_count_color_absent(self.cells(), BLACK, self.cells().len() as int);
            lemma_count_color_absent(self.cells(), WHITE, self.cells().len() as int);
        }
        true
    }

    pub fn count_stones(&self) -> (r: (usize, usize))
        requires
            self.wf(),
        ensures
            r.0 == count_color(self.cells(), BLACK),
            r.1 == count_color(self.cells(), WHITE),
    {
        let mut black_count: usize = 0;
        let mut white_count: usize = 0;
        let mut i: usize = 0;
        let n = self.grid.len();
        while i < n
            invariant
                self.wf(),
                n == self.cells().len(),
                i <= n,
                black_count as int == count_color_upto(self.cells(), BLACK, i as int),
                white_count as int == count_color_upto(self.cells(), WHITE, i as int),
                black_count <= i,
                white_count <= i,
            decreases n - i,
        {
            let c = self.grid[i];
            if c == BLACK {
                black_count = black_count + 1;
            } else if c == WHITE {
                white_count = white_count + 1;
            }
            i = i + 1;
        }
        (black_count, white_count)
    }

    /// Flood fill: all cells of the group containing `(x, y)`, each exactly
    /// once — the cells connected to `(x, y)` through its own colour.
    #[verifier::rlimit(60)]
    pub(crate) fn get_group(&self, x: usize, y: usize) -> (group: Vec<(usize, usize)>)
        requires
            self.wf(),
            x < self.sz(),
            y < self.sz(),
            cell_at(self.cells(), self.sz(), (x, y)) != EMPTY,
        ensures
            group@.no_duplicates(),
            forall|q: (usize, usize)|
                #[trigger] group@.contains(q) <==> connected(self.cells(), self.sz(), (x, y), q),
            forall|i: int|
                0 <= i < group@.len() ==> in_bounds(self.sz(), #[trigger] group@[i]) && cell_at(
                    self.cells(),
                    self.sz(),
                    group@[i],
                ) == cell_at(self.cells(), self.sz(), (x, y)),
            group@.len() >= 1,
    {
        broadcast use group_seq_properties;

        let ghost g = self.cells();
        let ghost size = self.sz();
        let ghost start: (usize, usize) = (x, y);
        let col = self.get_raw(x, y);
        let ghost color = cell_at(g, size, start);
        let n = self.grid.len();
        let mut visited: Vec<bool> = vec![false; n];
        let mut group: Vec<(usize, usize)> = Vec::new();
        let mut stack: Vec<(usize, usize)> = Vec::new();
        stack.push((x, y));
        proof {
            lemma_connected_refl(g, size, start);
            lemma_count_false_bounds(visited@, n as int);
            assert forall|q: (usize, usize)| in_bounds(size, q) implies !marked(
                visited@,
                size,
                q,
            ) by {
                lemma_cell_index_in_range(size, q.0 as int, q.1 as int);
            }
            assert(stack@.len() == 1 && stack@[0] == start);
            assert(stack@.contains(start));
        }
        while stack.len() > 0
            invariant
                self.wf(),
                g == self.cells(),
                size == self.sz(),
                start == ((x, y)),
                in_bounds(size, start),
                color == cell_at(g, size, start),
                col == color,
                color != EMPTY,
                n == g.len(),
                visited@.len() == n,
                forall|q: (usize, usize)|
                    in_bounds(size, q) && #[trigger] marked(visited@, size, q) ==> connected(
                        g,
                        size,
                        start,
                        q,
                    ),
                forall|i: int|
                    0 <= i < stack@.len() ==> in_bounds(size, #[trigger] stack@[i]) && connected(
                        g,
                        size,
                        start,
                        stack@[i],
                    ),
                forall|v: (usize, usize), w: (usize, usize)|
                    in_bounds(size, v) && marked(visited@, size, v) && in_bounds(size, w)
                        && #[trigger] adjacent(v, w) && cell_at(g, size, w) == color ==> marked(
                        visited@,
                        size,
                        w,
                    ) || stack@.contains(w),
                marked(visited@, size, start) || stack@.contains(start),
                forall|q: (usize, usize)|
                    #[trigger] group@.contains(q) <==> (in_bounds(size, q) && marked(
                        visited@,
                        size,
                        q,
                    )),
                group@.no_duplicates(),
            decreases count_false_upto(visited@, n as int), stack@.len(),
        {
            let ghost pre_stack = stack@;
            let qo = stack[stack.len() - 1];
            stack.pop();
            let (cx, cy) = qo;
            proof {
                assert((cx, cy) == qo);
                assert(qo == pre_stack[pre_stack.len() - 1]);
                assert(stack@ == pre_stack.drop_last());
                assert forall|w: (usize, usize)| pre_stack.contains(w) implies stack@.contains(w)
                    || w == qo by {
                    lemma_contains_after_pop(pre_stack, w);
                }
                assert(pre_stack.contains(qo));
            }
            let idx = self.index(cx, cy);
            if !visited[idx] {
                let ghost pre_visited = visited@;
                let ghost pre_group = group@;
                visited.set(idx, true);
                group.push((cx, cy));
                proof {
                    lemma_count_false_set_true(pre_visited, idx as int, n as int);
                    lemma_count_false_bounds(visited@, n as int);
                    assert forall|q: (usize, usize)|
                        in_bounds(size, q) && #[trigger] marked(visited@, size, q) implies connected(
                        g,
                        size,
                        start,
                        q,
                    ) by {
                        lemma_cell_index_in_range(size, q.0 as int, q.1 as int);
                        if flat(size, q) != idx as int {
                            assert(marked(pre_visited, size, q));
                        } else {
                            lemma_flat_injective(size, q, qo);
                        }
                    }
                    assert(marked(visited@, size, qo));
                    assert forall|v: (usize, usize), w: (usize, usize)|
                        in_bounds(size, v) && marked(visited@, size, v) && v != qo && in_bounds(
                            size,
                            w,
                        ) && #[trigger] adjacent(v, w) && cell_at(g, size, w) == color implies marked(
                        visited@,
                        size,
                        w,
                    ) || stack@.contains(w) by {
                        lemma_cell_index_in_range(size, v.0 as int, v.1 as int);
                        lemma_cell_index_in_range(size, w.0 as int, w.1 as int);
                        if flat(size, v) == flat(size, qo) {
                            lemma_flat_injective(size, v, qo);
                        }
                        assert(marked(pre_visited, size, v));
                        assert(marked(pre_visited, size, w) || pre_stack.contains(w));
                        if !marked(pre_visited, size, w) {
                            assert(stack@.contains(w) || w == qo);
                        }
                    }
                    lemma_cell_index_in_range(size, x as int, y as int);
                    if marked(pre_visited, size, start) {
                        assert(marked(visited@, size, start));
                    } else {
                        assert(pre_stack.contains(start));
                        assert(stack@.contains(start) || start == qo);
                    }
                    assert(group@ == pre_group.push(qo));
                    assert forall|q: (usize, usize)| #[trigger] group@.contains(q) implies (
                    in_bounds(size, q) && marked(visited@, size, q)) by {
                        let k = choose|k: int| 0 <= k < group@.len() && group@[k] == q;
                        if k < pre_group.len() {
                            assert(pre_group[k] == q);
                            assert(pre_group.contains(q));
                            lemma_cell_index_in_range(size, q.0 as int, q.1 as int);
                        } else {
                            assert(q == qo);
                        }
                    }
                    assert forall|q: (usize, usize)|
                        in_bounds(size, q) && marked(visited@, size, q) implies group@.contains(
                        q,
                    ) by {
                        lemma_cell_index_in_range(size, q.0 as int, q.1 as int);
                        if q == qo {
                            lemma_contains_after_push(pre_group, qo, qo);
                        } else {
                            if flat(size, q) == flat(size, qo) {
                                lemma_flat_injective(size, q, qo);
                            }
                            assert(marked(pre_visited, size, q));
                            assert(pre_group.contains(q));
                            lemma_contains_after_push(pre_group, qo, q);
                        }
                    }
                    assert(!pre_group.contains(qo));
                    assert forall|i1: int, j1: int|
                        0 <= i1 < group@.len() && 0 <= j1 < group@.len() && i1 != j1 implies group@[i1]
                        != group@[j1] by {
                        if i1 < pre_group.len() && j1 < pre_group.len() {
                        } else if j1 == group@.len() - 1 && i1 < pre_group.len() {
                            assert(group@[i1] == pre_group[i1]);
                            assert(pre_group.contains(pre_group[i1]));
                        } else if i1 == group@.len() - 1 && j1 < pre_group.len() {
                            assert(group@[j1] == pre_group[j1]);
                            assert(pre_group.contains(pre_group[j1]));
                        }
                    }
                    assert(group@.no_duplicates());
                }
                let ghost vis_now = visited@;
                let nbrs = self.neighbors(cx, cy);
                let mut j: usize = 0;
                while j < nbrs.len()
                    invariant
                        self.wf(),
                        g == self.cells(),
                        size == self.sz(),
                        in_bounds(size, start),
                        start == ((x, y)),
                        color == cell_at(g, size, start),
                        color != EMPTY,
                        n == g.len(),
                        visited@.len() == n,
                        j <= nbrs@.len(),
                        qo == ((cx, cy)),
                        in_bounds(size, qo),
                        connected(g, size, start, qo),
                        marked(visited@, size, qo),
                        col == color,
                        nbrs@.no_duplicates(),
                        forall|q: (usize, usize)|
                            #[trigger] nbrs@.contains(q) <==> (in_bounds(size, q) && adjacent(
                                qo,
                                q,
                            )),
                        forall|i: int|
                            0 <= i < nbrs@.len() ==> in_bounds(size, #[trigger] nbrs@[i])
                                && adjacent(qo, nbrs@[i]),
                        forall|q: (usize, usize)|
                            in_bounds(size, q) && #[trigger] marked(visited@, size, q)
                                ==> connected(g, size, start, q),
                        forall|i: int|
                            0 <= i < stack@.len() ==> in_bounds(size, #[trigger] stack@[i])
                                && connected(g, size, start, stack@[i]),
                        forall|v: (usize, usize), w: (usize, usize)|
                            in_bounds(size, v) && marked(visited@, size, v) && v != qo && in_bounds(
                                size,
                                w,
                            ) && #[trigger] adjacent(v, w) && cell_at(g, size, w) == color
                                ==> marked(visited@, size, w) || stack@.contains(w),
                        forall|k: int|
                            0 <= k < j ==> (cell_at(g, size, #[trigger] nbrs@[k]) == color
                                ==> marked(visited@, size, nbrs@[k]) || stack@.contains(nbrs@[k])),
                        marked(visited@, size, start) || stack@.contains(start),
                        forall|q: (usize, usize)|
                            #[trigger] group@.contains(q) <==> (in_bounds(size, q) && marked(
                                visited@,
                                size,
                                q,
                            )),
                        group@.no_duplicates(),
                        visited@ == vis_now,
                        count_false_upto(visited@, n as int) < count_false_upto(
                            pre_visited,
                            n as int,
                        ),
                    decreases nbrs@.len() - j,
                {
                    let (nx, ny) = nbrs[j];
                    proof {
                        assert((nx, ny) == nbrs@[j as int]);
                    }
                    let nidx = self.index(nx, ny);
                    if self.get_raw(nx, ny) == col && !visited[nidx] {
                        let ghost pre_push = stack@;
                        stack.push((nx, ny));
                        proof {
                            lemma_connected_extend(g, size, start, qo, (nx, ny));
                            assert forall|w: (usize, usize)|
                                pre_push.contains(w) || w == ((nx, ny)) implies stack@.contains(
                                w,
                            ) by {
                                lemma_contains_after_push(pre_push, (nx, ny), w);
                            }
                            lemma_contains_after_push(pre_push, (nx, ny), (nx, ny));
                            assert(stack@ == pre_push.push((nx, ny)));
                            assert(stack@.contains((nx, ny)));
                        }
                    } else {
                        proof {
                            if cell_at(g, size, nbrs@[j as int]) == color {
                                assert(marked(visited@, size, nbrs@[j as int]));
                            }
                        }
                    }
                    j = j + 1;
                }
                proof {
                    assert forall|v: (usize, usize), w: (usize, usize)|
                        in_bounds(size, v) && marked(visited@, size, v) && in_bounds(size, w)
                            && #[trigger] adjacent(v, w) && cell_at(g, size, w) == color implies marked(
                        visited@,
                        size,
                        w,
                    ) || stack@.contains(w) by {
                        if v == qo {
                            assert(nbrs@.contains(w));
                            let k = choose|k: int| 0 <= k < nbrs@.len() && nbrs@[k] == w;
                            assert(cell_at(g, size, nbrs@[k]) == color);
                        }
                    }
                }
            } else {
                proof {
                    assert(marked(visited@, size, qo));
                    lemma_cell_index_in_range(size, x as int, y as int);
                    if !marked(visited@, size, start) {
                        assert(pre_stack.contains(start));
                        assert(stack@.contains(start) || start == qo);
                    }
                    assert forall|v: (usize, usize), w: (usize, usize)|
                        in_bounds(size, v) && marked(visited@, size, v) && in_bounds(size, w)
                            && #[trigger] adjacent(v, w) && cell_at(g, size, w) == color implies marked(
                        visited@,
                        size,
                        w,
                    ) || stack@.contains(w) by {
                        lemma_cell_index_in_range(size, v.0 as int, v.1 as int);
                        lemma_cell_index_in_range(size, w.0 as int, w.1 as int);
                        assert(marked(visited@, size, w) || pre_stack.contains(w));
                        if !marked(visited@, size, w) {
                            assert(stack@.contains(w) || w == qo);
                        }
                    }
                }
            }
        }
        proof {
            assert forall|q: (usize, usize)| connected(g, size, start, q) implies group@.contains(
                q,
            ) by {
                lemma_connected_endpoints(g, size, start, q);
                let p = choose|p: Seq<(usize, usize)>|
                    path_ok(g, size, cell_at(g, size, start), p) && p.first() == start && p.last()
                        == q;
                lemma_closed_covers_path(g, size, color, visited@, p);
            }
            assert forall|i: int| 0 <= i < group@.len() implies in_bounds(
                size,
                #[trigger] group@[i],
            ) && cell_at(g, size, group@[i]) == color by {
                assert(group@.contains(group@[i]));
                lemma_connected_endpoints(g, size, start, group@[i]);
            }
            lemma_connected_refl(g, size, start);
            assert(group@.contains(start));
        }
        group
    }

    /// Does the cell `(x, y)` itself touch an empty cell?
    pub(crate) fn cell_has_liberty(&self, x: usize, y: usize) -> (r: bool)
        requires
            self.wf(),
            x < self.sz(),
            y < self.sz(),
        ensures
            r == has_liberty(self.cells(), self.sz(), (x, y)),
    {
        let nbrs = self.neighbors(x, y);
        let mut j: usize = 0;
        while j < nbrs.len()
            invariant
                self.wf(),
                x < self.sz(),
                y < self.sz(),
                j <= nbrs@.len(),
                forall|q: (usize, usize)|
                    #[trigger] nbrs@.contains(q) <==> (in_bounds(self.sz(), q) && adjacent(
                        (x, y),
                        q,
                    )),
                forall|i: int|
                    0 <= i < nbrs@.len() ==> in_bounds(self.sz(), #[trigger] nbrs@[i]) && adjacent(
                        (x, y),
                        nbrs@[i],
                    ),
                forall|k: int|
                    0 <= k < j ==> cell_at(self.cells(), self.sz(), #[trigger] nbrs@[k]) != EMPTY,
            decreases nbrs@.len() - j,
        {
            let (nx, ny) = nbrs[j];
            proof {
                assert((nx, ny) == nbrs@[j as int]);
            }
            if self.get_raw(nx, ny) == EMPTY {
                return true;
            }
            j = j + 1;
        }
        proof {
            assert forall|e: (usize, usize)|
                in_bounds(self.sz(), e) && #[trigger] adjacent((x, y), e) implies cell_at(
                self.cells(),
                self.sz(),
                e,
            ) != EMPTY by {
                assert(nbrs@.contains(e));
                let k = choose|k: int| 0 <= k < nbrs@.len() && nbrs@[k] == e;
                assert(cell_at(self.cells(), self.sz(), nbrs@[k]) != EMPTY);
            }
        }
        false
    }

    /// Does no cell of `group` touch an empty cell?
    pub(crate) fn has_no_liberties(&self, group: &Vec<(usize, usize)>) -> (r: bool)
        requires
            self.wf(),
            forall|i: int| 0 <= i < group@.len() ==> in_bounds(self.sz(), #[trigger] group@[i]),
        ensures
            r == !(exists|i: int|
                0 <= i < group@.len() && has_liberty(self.cells(), self.sz(), #[trigger] group@[i])),
    {
        let mut i: usize = 0;
        while i < group.len()
            invariant
                self.wf(),
                i <= group@.len(),
                forall|k: int| 0 <= k < group@.len() ==> in_bounds(self.sz(), #[trigger] group@[k]),
                forall|k: int|
                    0 <= k < i ==> !has_liberty(self.cells(), self.sz(), #[trigger] group@[k]),
            decreases group@.len() - i,
        {
            let (gx, gy) = group[i];
            proof {
                assert((gx, gy) == group@[i as int]);
            }
            if self.cell_has_liberty(gx, gy) {
                return false;
            }
            i = i + 1;
        }
        true
    }

    /// Flood fill from `(x, y)` looking for a liberty of its group other than
    /// the cell `(except_x, except_y)`.
    #[verifier::rlimit(60)]
    fn group_has_liberty_except(
        &self,
        x: usize,
        y: usize,
        except_x: usize,
        except_y: usize,
    ) -> (r: bool)
        requires
            self.wf(),
            x < self.sz(),
            y < self.sz(),
            cell_at(self.cells(), self.sz(), (x, y)) != EMPTY,
        ensures
            r == group_alive_except(self.cells(), self.sz(), (x, y), (except_x, except_y)),
    {
        broadcast use group_seq_properties;

        let ghost g = self.cells();
        let ghost size = self.sz();
        let ghost start: (usize, usize) = (x, y);
        let col = self.get_raw(x, y);
        let ghost color = cell_at(g, size, start);
        let ghost ex: (usize, usize) = (except_x, except_y);
        let n = self.grid.len();
        let mut visited: Vec<bool> = vec![false; n];
        let mut stack: Vec<(usize, usize)> = Vec::new();
        stack.push((x, y));
        proof {
            lemma_connected_refl(g, size, start);
            lemma_count_false_bounds(visited@, n as int);
            assert forall|q: (usize, usize)| in_bounds(size, q) implies !marked(
                visited@,
                size,
                q,
            ) by {
                lemma_cell_index_in_range(size, q.0 as int, q.1 as int);
            }
            assert(stack@.len() == 1 && stack@[0] == start);
            assert(stack@.contains(start));
        }
        while stack.len() > 0
            invariant
                self.wf(),
                g == self.cells(),
                size == self.sz(),
                start == ((x, y)),
                ex == ((except_x, except_y)),
                in_bounds(size, start),
                color == cell_at(g, size, start),
                col == color,
                color != EMPTY,
                n == g.len(),
                visited@.len() == n,
                forall|q: (usize, usize)|
                    in_bounds(size, q) && #[trigger] marked(visited@, size, q) ==> connected(
                        g,
                        size,
                        start,
                        q,
                    ) && !liberty_other_than(g, size, q, ex),
                forall|i: int|
                    0 <= i < stack@.len() ==> in_bounds(size, #[trigger] stack@[i]) && connected(
                        g,
                        size,
                        start,
                        stack@[i],
                    ),
                forall|v: (usize, usize), w: (usize, usize)|
                    in_bounds(size, v) && marked(visited@, size, v) && in_bounds(size, w)
                        && #[trigger] adjacent(v, w) && cell_at(g, size, w) == color ==> marked(
                        visited@,
                        size,
                        w,
                    ) || stack@.contains(w),
                marked(visited@, size, start) || stack@.contains(start),
            decreases count_false_upto(visited@, n as int), stack@.len(),
        {
            let ghost pre_stack = stack@;
            let qo = stack[stack.len() - 1];
            stack.pop();
            let (cx, cy) = qo;
            proof {
                assert((cx, cy) == qo);
                assert(qo == pre_stack[pre_stack.len() - 1]);
                assert(stack@ == pre_stack.drop_last());
                assert forall|w: (usize, usize)| pre_stack.contains(w) implies stack@.contains(w)
                    || w == qo by {
                    lemma_contains_after_pop(pre_stack, w);
                }
                assert(pre_stack.contains(qo));
            }
            let idx = self.index(cx, cy);
            if !visited[idx] {
                let ghost pre_visited = visited@;
                visited.set(idx, true);
                proof {
                    lemma_count_false_set_true(pre_visited, idx as int, n as int);
                    lemma_count_false_bounds(visited@, n as int);
                    assert(marked(visited@, size, qo));
                    assert forall|q: (usize, usize)|
                        in_bounds(size, q) && #[trigger] marked(visited@, size, q) && q
                            != qo implies marked(pre_visited, size, q) by {
                        lemma_cell_index_in_range(size, q.0 as int, q.1 as int);
                        if flat(size, q) == flat(size, qo) {
                            lemma_flat_injective(size, q, qo);
                        }
                    }
                    assert forall|v: (usize, usize), w: (usize, usize)|
                        in_bounds(size, v) && marked(visited@, size, v) && v != qo && in_bounds(
                            size,
                            w,
                        ) && #[trigger] adjacent(v, w) && cell_at(g, size, w) == color implies marked(
                        visited@,
                        size,
                        w,
                    ) || stack@.contains(w) by {
                        lemma_cell_index_in_range(size, v.0 as int, v.1 as int);
                        lemma_cell_index_in_range(size, w.0 as int, w.1 as int);
                        if flat(size, v) == flat(size, qo) {
                            lemma_flat_injective(size, v, qo);
                        }
                        assert(marked(pre_visited, size, v));
                        assert(marked(pre_visited, size, w) || pre_stack.contains(w));
                        if !marked(pre_visited, size, w) {
                            assert(stack@.contains(w) || w == qo);
                        }
                    }
                    lemma_cell_index_in_range(size, x as int, y as int);
                    if marked(pre_visited, size, start) {
                        assert(marked(visited@, size, start));
                    } else {
                        assert(pre_stack.contains(start));
                        assert(stack@.contains(start) || start == qo);
                    }
                }
                let ghost vis_now = visited@;
                let nbrs = self.neighbors(cx, cy);
                let mut j: usize = 0;
                while j < nbrs.len()
                    invariant
                        self.wf(),
                        g == self.cells(),
                        size == self.sz(),
                        in_bounds(size, start),
                        start == ((x, y)),
                        ex == ((except_x, except_y)),
                        color == cell_at(g, size, start),
                        color != EMPTY,
                        n == g.len(),
                        visited@.len() == n,
                        j <= nbrs@.len(),
                        qo == ((cx, cy)),
                        in_bounds(size, qo),
                        connected(g, size, start, qo),
                        marked(visited@, size, qo),
                        col == color,
                        nbrs@.no_duplicates(),
                        forall|q: (usize, usize)|
                            #[trigger] nbrs@.contains(q) <==> (in_bounds(size, q) && adjacent(
                                qo,
                                q,
                            )),
                        forall|i: int|
                            0 <= i < nbrs@.len() ==> in_bounds(size, #[trigger] nbrs@[i])
                                && adjacent(qo, nbrs@[i]),
                        forall|q: (usize, usize)|
                            in_bounds(size, q) && #[trigger] marked(visited@, size, q) && q != qo
                                ==> connected(g, size, start, q) && !liberty_other_than(
                                g,
                                size,
                                q,
                                ex,
                            ),
                        forall|i: int|
                            0 <= i < stack@.len() ==> in_bounds(size, #[trigger] stack@[i])
                                && connected(g, size, start, stack@[i]),
                        forall|v: (usize, usize), w: (usize, usize)|
                            in_bounds(size, v) && marked(visited@, size, v) && v != qo && in_bounds(
                                size,
                                w,
                            ) && #[trigger] adjacent(v, w) && cell_at(g, size, w) == color
                                ==> marked(visited@, size, w) || stack@.contains(w),
                        forall|k: int|
                            0 <= k < j ==> (cell_at(g, size, #[trigger] nbrs@[k]) == color
                                ==> marked(visited@, size, nbrs@[k]) || stack@.contains(nbrs@[k])),
                        forall|k: int|
                            0 <= k < j ==> !(cell_at(g, size, #[trigger] nbrs@[k]) == EMPTY
                                && nbrs@[k] != ex),
                        marked(visited@, size, start) || stack@.contains(start),
                        visited@ == vis_now,
                        count_false_upto(visited@, n as int) < count_false_upto(
                            pre_visited,
                            n as int,
                        ),
                    decreases nbrs@.len() - j,
                {
                    let (nx, ny) = nbrs[j];
                    proof {
                        assert((nx, ny) == nbrs@[j as int]);
                    }
                    let c = self.get_raw(nx, ny);
                    if c == EMPTY {
                        if !(nx == except_x && ny == except_y) {
                            proof {
                                assert((nx, ny) != ex);
                                assert(liberty_other_than(g, size, qo, ex));
                                assert(group_alive_except(g, size, start, ex));
                            }
                            return true;
                        }
                    } else if c == col {
                        let nidx = self.index(nx, ny);
                        if !visited[nidx] {
                            let ghost pre_push = stack@;
                            stack.push((nx, ny));
                            proof {
                                lemma_connected_extend(g, size, start, qo, (nx, ny));
                                assert forall|w: (usize, usize)|
                                    pre_push.contains(w) || w == ((nx, ny)) implies stack@.contains(
                                    w,
                                ) by {
                                    lemma_contains_after_push(pre_push, (nx, ny), w);
                                }
                                lemma_contains_after_push(pre_push, (nx, ny), (nx, ny));
                                assert(stack@ == pre_push.push((nx, ny)));
                                assert(stack@.contains((nx, ny)));
                            }
                        } else {
                            proof {
                                assert(marked(visited@, size, nbrs@[j as int]));
                            }
                        }
                    }
                    j = j + 1;
                }
                proof {
                    assert forall|v: (usize, usize), w: (usize, usize)|
                        in_bounds(size, v) && marked(visited@, size, v) && in_bounds(size, w)
                            && #[trigger] adjacent(v, w) && cell_at(g, size, w) == color implies marked(
                        visited@,
                        size,
                        w,
                    ) || stack@.contains(w) by {
                        if v == qo {
                            assert(nbrs@.contains(w));
                            let k = choose|k: int| 0 <= k < nbrs@.len() && nbrs@[k] == w;
                            assert(cell_at(g, size, nbrs@[k]) == color);
                        }
                    }
                    assert forall|e: (usize, usize)|
                        in_bounds(size, e) && #[trigger] adjacent(qo, e) && cell_at(g, size, e)
                            == EMPTY implies e == ex by {
                        assert(nbrs@.contains(e));
                        let k = choose|k: int| 0 <= k < nbrs@.len() && nbrs@[k] == e;
                        assert(!(cell_at(g, size, nbrs@[k]) == EMPTY && nbrs@[k] != ex));
                    }
                    assert(!liberty_other_than(g, size, qo, ex));
                    assert forall|q: (usize, usize)|
                        in_bounds(size, q) && #[trigger] marked(visited@, size, q) implies connected(
                        g,
                        size,
                        start,
                        q,
                    ) && !liberty_other_than(g, size, q, ex) by {
                        lemma_cell_index_in_range(size, q.0 as int, q.1 as int);
                        if q != qo {
                            if flat(size, q) == flat(size, qo) {
                                lemma_flat_injective(size, q, qo);
                            }
                        }
                    }
                }
            } else {
                proof {
                    assert(marked(visited@, size, qo));
                    lemma_cell_index_in_range(size, x as int, y as int);
                    if !marked(visited@, size, start) {
                        assert(pre_stack.contains(start));
                        assert(stack@.contains(start) || start == qo);
                    }
                    assert forall|v: (usize, usize), w: (usize, usize)|
                        in_bounds(size, v) && marked(visited@, size, v) && in_bounds(size, w)
                            && #[trigger] adjacent(v, w) && cell_at(g, size, w) == color implies marked(
                        visited@,
                        size,
                        w,
                    ) || stack@.contains(w) by {
                        lemma_cell_index_in_range(size, v.0 as int, v.1 as int);
                        lemma_cell_index_in_range(size, w.0 as int, w.1 as int);
                        assert(marked(visited@, size, w) || pre_stack.contains(w));
                        if !marked(visited@, size, w) {
                            assert(stack@.contains(w) || w == qo);
                        }
                    }
                }
            }
        }
        proof {
            assert forall|c: (usize, usize)|
                #[trigger] connected(g, size, start, c) implies !liberty_other_than(
                g,
                size,
                c,
                ex,
            ) by {
                lemma_connected_endpoints(g, size, start, c);
                let p = choose|p: Seq<(usize, usize)>|
                    path_ok(g, size, cell_at(g, size, start), p) && p.first() == start && p.last()
                        == c;
                lemma_closed_covers_path(g, size, color, visited@, p);
            }
        }
        false
    }

    /// Would the group at `(group_x, group_y)` be captured once the empty
    /// cell `(block_x, block_y)` is filled by its opponent?
    fn would_capture_after_move(
        &self,
        group_x: usize,
        group_y: usize,
        block_x: usize,
        block_y: usize,
    ) -> (r: bool)
        requires
            self.wf(),
            group_x < self.sz(),
            group_y < self.sz(),
            cell_at(self.cells(), self.sz(), (group_x, group_y)) != EMPTY,
        ensures
            r == !group_alive_except(
                self.cells(),
                self.sz(),
                (group_x, group_y),
                (block_x, block_y),
            ),
    {
        !self.group_has_liberty_except(group_x, group_y, block_x, block_y)
    }

    /// Legality check, exactly the `valid_move` predicate: capturing moves
    /// first, then an own liberty, then a friendly group that keeps one.
    pub fn is_valid_move(&self, x: usize, y: usize, stone: Stone) -> (r: bool)
        requires
            self.wf(),
        ensures
            r == valid_move(self.cells(), self.sz(), x, y, stone.to_u8()),
    {
        if x >= self.size || y >= self.size {
            return false;
        }
        if self.get_raw(x, y) != EMPTY {
            return false;
        }
        let su = Self::stone_to_u8(stone);
        let opponent = Self::opposite_u8(su);
        let ghost g = self.cells();
        let ghost size = self.sz();
        let nbrs = self.neighbors(x, y);
        let mut j: usize = 0;
        while j < nbrs.len()
            invariant
                self.wf(),
                g == self.cells(),
                size == self.sz(),
                x < size,
                y < size,
                su == stone.to_u8(),
                opponent == opp_u8(su),
                cell_at(g, size, (x, y)) == EMPTY,
                j <= nbrs@.len(),
                forall|q: (usize, usize)|
                    #[trigger] nbrs@.contains(q) <==> (in_bounds(size, q) && adjacent((x, y), q)),
                forall|i: int|
                    0 <= i < nbrs@.len() ==> in_bounds(size, #[trigger] nbrs@[i]) && adjacent(
                        (x, y),
                        nbrs@[i],
                    ),
                forall|k: int|
                    0 <= k < j ==> !(cell_at(g, size, #[trigger] nbrs@[k]) == opp_u8(su)
                        && !group_alive_except(g, size, nbrs@[k], (x, y))),
            decreases nbrs@.len() - j,
        {
            let (nx, ny) = nbrs[j];
            proof {
                assert((nx, ny) == nbrs@[j as int]);
            }
            if self.get_raw(nx, ny) == opponent {
                if self.would_capture_after_move(nx, ny, x, y) {
                    return true;
                }
            }
            j = j + 1;
        }
        let mut j2: usize = 0;
        while j2 < nbrs.len()
            invariant
                self.wf(),
                g == self.cells(),
                size == self.sz(),
                x < size,
                y < size,
                su == stone.to_u8(),
                cell_at(g, size, (x, y)) == EMPTY,
                j2 <= nbrs@.len(),
                forall|q: (usize, usize)|
                    #[trigger] nbrs@.contains(q) <==> (in_bounds(size, q) && adjacent((x, y), q)),
                forall|i: int|
                    0 <= i < nbrs@.len() ==> in_bounds(size, #[trigger] nbrs@[i]) && adjacent(
                        (x, y),
                        nbrs@[i],
                    ),
                forall|k: int|
                    0 <= k < nbrs@.len() ==> !(cell_at(g, size, #[trigger] nbrs@[k]) == opp_u8(su)
                        && !group_alive_except(g, size, nbrs@[k], (x, y))),
                forall|k: int| 0 <= k < j2 ==> cell_at(g, size, #[trigger] nbrs@[k]) != EMPTY,
            decreases nbrs@.len() - j2,
        {
            let (nx, ny) = nbrs[j2];
            proof {
                assert((nx, ny) == nbrs@[j2 as int]);
            }
            if self.get_raw(nx, ny) == EMPTY {
                return true;
            }
            j2 = j2 + 1;
        }
        let mut j3: usize = 0;
        while j3 < nbrs.len()
            invariant
                self.wf(),
                g == self.cells(),
                size == self.sz(),
                x < size,
                y < size,
                su == stone.to_u8(),
                cell_at(g, size, (x, y)) == EMPTY,
                j3 <= nbrs@.len(),
                forall|q: (usize, usize)|
                    #[trigger] nbrs@.contains(q) <==> (in_bounds(size, q) && adjacent((x, y), q)),
                forall|i: int|
                    0 <= i < nbrs@.len() ==> in_bounds(size, #[trigger] nbrs@[i]) && adjacent(
                        (x, y),
                        nbrs@[i],
                    ),
                forall|k: int|
                    0 <= k < nbrs@.len() ==> !(cell_at(g, size, #[trigger] nbrs@[k]) == opp_u8(su)
                        && !group_alive_except(g, size, nbrs@[k], (x, y))),
                forall|k: int| 0 <= k < nbrs@.len() ==> cell_at(g, size, #[trigger] nbrs@[k]) != EMPTY,
                forall|k: int|
                    0 <= k < j3 ==> !(cell_at(g, size, #[trigger] nbrs@[k]) == su
                        && group_alive_except(g, size, nbrs@[k], (x, y))),
            decreases nbrs@.len() - j3,
        {
            let (nx, ny) = nbrs[j3];
            proof {
                assert((nx, ny) == nbrs@[j3 as int]);
            }
            if self.get_raw(nx, ny) == su {
                if self.group_has_liberty_except(nx, ny, x, y) {
                    return true;
                }
            }
            j3 = j3 + 1;
        }
        proof {
            assert forall|q: (usize, usize)|
                in_bounds(size, q) && #[trigger] adjacent((x, y), q) implies (cell_at(g, size, q)
                != EMPTY && !(cell_at(g, size, q) == opp_u8(su) && !group_alive_except(
                g,
                size,
                q,
                (x, y),
            )) && !(cell_at(g, size, q) == su && group_alive_except(g, size, q, (x, y)))) by {
                assert(nbrs@.contains(q));
                let k = choose|k: int| 0 <= k < nbrs@.len() && nbrs@[k] == q;
                assert(cell_at(g, size, nbrs@[k]) != EMPTY);
            }
        }
        false
    }
}

/// What `no_dead_groups` before a placement guarantees about the position
/// just after the stone was written: any group the placement left without a
/// liberty touches the placed point `p` through its own component (the stone
/// on `p` was its last liberty).
pub open spec fn dead_groups_touch(g1: Seq<u8>, size: int, su: u8, p: (usize, usize)) -> bool {
    &&& (forall|q: (usize, usize)|
        in_bounds(size, q) && cell_at(g1, size, q) == opp_u8(su) && !(#[trigger] group_alive(
            g1,
            size,
            q,
        )) ==> exists|c: (usize, usize)| #[trigger] connected(g1, size, q, c) && adjacent(c, p))
    &&& (forall|q: (usize, usize)|
        in_bounds(size, q) && cell_at(g1, size, q) == su && !(#[trigger] group_alive(g1, size, q))
            ==> connected(g1, size, q, p))
}

/// `q` holds an opposing stone that the placement at `p` captures: once the
/// stone is written its group has no liberty left, and the group touches `p`
/// (the placed stone took its last liberty).
pub open spec fn captured_cell(g1: Seq<u8>, size: int, su: u8, p: (usize, usize), q: (
    usize,
    usize,
)) -> bool {
    &&& in_bounds(size, q)
    &&& cell_at(g1, size, q) == opp_u8(su)
    &&& !group_alive(g1, size, q)
    &&& (exists|c: (usize, usize)| #[trigger] connected(g1, size, q, c) && adjacent(c, p))
}

/// The placement at `p` captures at least one opposing stone.
pub open spec fn capture_occurs(g1: Seq<u8>, size: int, su: u8, p: (usize, usize)) -> bool {
    exists|q: (usize, usize)| #[trigger] captured_cell(g1, size, su, p, q)
}

/// The placement at `p` is a self-capture: it captures nothing, and the
/// placed stone's own merged group has no liberty.
pub open spec fn self_capture_occurs(g1: Seq<u8>, size: int, su: u8, p: (usize, usize)) -> bool {
    !capture_occurs(g1, size, su, p) && !group_alive(g1, size, p)
}

/// The cell `q` after capture resolution of the placement at `p`, given the
/// grid `g1` with the stone already written: captured opposing stones are
/// emptied; on self-capture the placed stone's whole group is emptied; every
/// other cell keeps its value.
pub open spec fn place_result_cell(g1: Seq<u8>, size: int, su: u8, p: (usize, usize), q: (
    usize,
    usize,
)) -> u8 {
    if captured_cell(g1, size, su, p, q) {
        EMPTY
    } else if self_capture_occurs(g1, size, su, p) && connected(g1, size, p, q) {
        EMPTY
    } else {
        cell_at(g1, size, q)
    }
}

/// The whole grid after capture resolution, cell by cell.
pub open spec fn place_result_grid(g1: Seq<u8>, size: int, su: u8, p: (usize, usize)) -> Seq<u8> {
    Seq::new(
        g1.len(),
        |j: int|
            place_result_cell(g1, size, su, p, (((j % size) as usize), ((j / size) as usize))),
    )
}

/// Every grid index is the row-major index of exactly one on-board
/// coordinate pair.
pub proof fn lemma_index_coord(size: int, j: int)
    requires
        0 < size <= usize::MAX,
        0 <= j < size * size,
    ensures
        in_bounds(size, (((j % size) as usize), ((j / size) as usize))),
        flat(size, (((j % size) as usize), ((j / size) as usize))) == j,
{
    assert(0 <= j % size < size && 0 <= j / size < size && (j / size) * size + j % size == j)
        by (nonlinear_arith)
        requires
            0 < size && 0 <= j < size * size,
    ;
}

/// Row-major index and coordinates are inverse to one another.
pub proof fn lemma_flat_coord(size: int, q: (usize, usize))
    requires
        0 < size,
        in_bounds(size, q),
    ensures
        flat(size, q) % size == q.0,
        flat(size, q) / size == q.1,
{
    assert((q.1 * size + q.0) % size == q.0 && (q.1 * size + q.0) / size == q.1)
        by (nonlinear_arith)
        requires
            0 < size && 0 <= q.0 < size && 0 <= q.1,
    ;
}

/// Two grids sized to the board that agree on every on-board coordinate are
/// equal.
pub proof fn lemma_grid_from_cells(ga: Seq<u8>, gb: Seq<u8>, size: int)
    requires
        0 < size <= usize::MAX,
        ga.len() == size * size,
        gb.len() == size * size,
        forall|q: (usize, usize)|
            in_bounds(size, q) ==> #[trigger] cell_at(ga, size, q) == cell_at(gb, size, q),
    ensures
        ga == gb,
{
    assert forall|j: int| 0 <= j < ga.len() implies ga[j] == gb[j] by {
        lemma_index_coord(size, j);
        let q = (((j % size) as usize), ((j / size) as usize));
        assert(cell_at(ga, size, q) == cell_at(gb, size, q));
    }
    assert(ga =~= gb);
}

/// Coordinate form of the only-clearing fact.
pub proof fn lemma_only_clearing_coord(g0: Seq<u8>, cur: Seq<u8>, size: int, q: (usize, usize))
    requires
        g0.len() == size * size,
        cur.len() == g0.len(),
        in_bounds(size, q),
        forall|j: int| 0 <= j < g0.len() ==> cur[j] == g0[j] || cur[j] == EMPTY,
    ensures
        cell_at(cur, size, q) == cell_at(g0, size, q) || cell_at(cur, size, q) == EMPTY,
{
    lemma_cell_index_in_range(size, q.0 as int, q.1 as int);
}

/// Under the intact-components invariant of the capture loop, a group that
/// was connected (in the post-placement grid `g0`) to a stone that is both
/// still present and alive in the current grid was itself alive in `g0`.
proof fn lemma_witness_group_alive(
    g0: Seq<u8>,
    cur: Seq<u8>,
    size: int,
    su: u8,
    n: (usize, usize),
    q: (usize, usize),
)
    requires
        g0.len() == size * size,
        cur.len() == g0.len(),
        su == BLACK || su == WHITE,
        forall|j: int| 0 <= j < g0.len() ==> cur[j] == g0[j] || cur[j] == EMPTY,
        forall|j: int| 0 <= j < g0.len() ==> (g0[j] == EMPTY || g0[j] == BLACK || g0[j] == WHITE),
        forall|q2: (usize, usize)|
            in_bounds(size, q2) && cell_at(g0, size, q2) == su ==> #[trigger] cell_at(
                cur,
                size,
                q2,
            ) == su,
        forall|qq: (usize, usize), c: (usize, usize)|
            in_bounds(size, qq) && cell_at(cur, size, qq) == opp_u8(su) && #[trigger] connected(
                g0,
                size,
                qq,
                c,
            ) ==> cell_at(cur, size, c) == cell_at(g0, size, c),
        in_bounds(size, q),
        in_bounds(size, n),
        cell_at(cur, size, q) == opp_u8(su),
        connected(g0, size, q, n),
        group_alive(cur, size, n),
    ensures
        group_alive(g0, size, q),
{
    lemma_connected_refl(g0, size, q);
    assert(cell_at(g0, size, q) == opp_u8(su));
    lemma_connected_endpoints(g0, size, q, n);
    let c2 = choose|c: (usize, usize)|
        #[trigger] connected(cur, size, n, c) && has_liberty(cur, size, c);
    assert(cell_at(cur, size, n) == cell_at(g0, size, n));
    assert forall|q2: (usize, usize)|
        in_bounds(size, q2) && #[trigger] cell_at(cur, size, q2) == cell_at(
            cur,
            size,
            n,
        ) implies cell_at(g0, size, q2) == cell_at(cur, size, n) by {
        lemma_only_clearing_coord(g0, cur, size, q2);
    }
    lemma_connected_mono(cur, g0, size, n, c2);
    lemma_connected_trans(g0, size, q, n, c2);
    let e2 = choose|e: (usize, usize)|
        in_bounds(size, e) && #[trigger] adjacent(c2, e) && cell_at(cur, size, e) == EMPTY;
    lemma_cell_index_in_range(size, e2.0 as int, e2.1 as int);
    if cell_at(g0, size, e2) == EMPTY {
        assert(has_liberty(g0, size, c2));
    } else if cell_at(g0, size, e2) == su {
        assert(cell_at(cur, size, e2) == su);
        assert(false);
    } else {
        assert(cell_at(g0, size, e2) == opp_u8(su));
        lemma_connected_endpoints(g0, size, q, c2);
        let step: Seq<(usize, usize)> = seq![c2, e2];
        assert(step[0] == c2 && step[1] == e2);
        assert(path_ok(g0, size, opp_u8(su), step));
        assert(step.first() == c2 && step.last() == e2);
        assert(connected(g0, size, c2, e2));
        lemma_connected_trans(g0, size, q, c2, e2);
        assert(cell_at(cur, size, e2) == cell_at(g0, size, e2));
        assert(false);
    }
}

/// Under the intact-components invariant, a stone connected in `g0` to a
/// still-present stone `n` is in `n`'s current component.
proof fn lemma_connected_now(
    g0: Seq<u8>,
    cur: Seq<u8>,
    size: int,
    su: u8,
    n: (usize, usize),
    q: (usize, usize),
)
    requires
        forall|qq: (usize, usize), c: (usize, usize)|
            in_bounds(size, qq) && cell_at(cur, size, qq) == opp_u8(su) && #[trigger] connected(
                g0,
                size,
                qq,
                c,
            ) ==> cell_at(cur, size, c) == cell_at(g0, size, c),
        in_bounds(size, q),
        cell_at(cur, size, q) == opp_u8(su),
        connected(g0, size, q, n),
    ensures
        connected(cur, size, n, q),
{
    lemma_connected_under_intact(g0, cur, size, q, n);
    lemma_connected_sym(cur, size, q, n);
}

/// Under the intact-components invariant, a group alive in `g0` and still
/// present is alive in the current grid.
proof fn lemma_survivor_alive_now(g0: Seq<u8>, cur: Seq<u8>, size: int, su: u8, q: (usize, usize))
    requires
        g0.len() == size * size,
        cur.len() == g0.len(),
        forall|j: int| 0 <= j < g0.len() ==> cur[j] == g0[j] || cur[j] == EMPTY,
        forall|qq: (usize, usize), c: (usize, usize)|
            in_bounds(size, qq) && cell_at(cur, size, qq) == opp_u8(su) && #[trigger] connected(
                g0,
                size,
                qq,
                c,
            ) ==> cell_at(cur, size, c) == cell_at(g0, size, c),
        in_bounds(size, q),
        cell_at(cur, size, q) == opp_u8(su),
        opp_u8(su) != EMPTY,
        group_alive(g0, size, q),
    ensures
        group_alive(cur, size, q),
{
    lemma_connected_refl(g0, size, q);
    assert(cell_at(g0, size, q) == opp_u8(su));
    assert forall|e: (usize, usize)|
        in_bounds(size, e) && cell_at(g0, size, e) == EMPTY implies cell_at(cur, size, e)
        == EMPTY by {
        lemma_only_clearing_coord(g0, cur, size, e);
    }
    lemma_component_alive_transfer(g0, cur, size, q);
}

/// The capture loop's liveness bookkeeping, bundled: friendly stones are
/// untouched, surviving opposing components are intact, and every group the
/// placement killed that is still present has an unprocessed witness
/// neighbour.
#[verifier::opaque]
spec fn capture_inv(
    g0: Seq<u8>,
    cur: Seq<u8>,
    size: int,
    su: u8,
    nbrs: Seq<(usize, usize)>,
    p: (usize, usize),
    i: int,
) -> bool {
    &&& (forall|q2: (usize, usize)|
        in_bounds(size, q2) && cell_at(g0, size, q2) == su ==> #[trigger] cell_at(cur, size, q2)
            == su)
    &&& (forall|qq: (usize, usize), c: (usize, usize)|
        in_bounds(size, qq) && cell_at(cur, size, qq) == opp_u8(su) && #[trigger] connected(
            g0,
            size,
            qq,
            c,
        ) ==> cell_at(cur, size, c) == cell_at(g0, size, c))
    &&& (forall|q: (usize, usize)|
        in_bounds(size, q) && #[trigger] cell_at(cur, size, q) == opp_u8(su) && captured_cell(
            g0,
            size,
            su,
            p,
            q,
        ) ==> exists|j: int| i <= j < nbrs.len() && #[trigger] connected(g0, size, q, nbrs[j]))
    &&& (forall|q: (usize, usize)|
        in_bounds(size, q) && cell_at(g0, size, q) == opp_u8(su) && #[trigger] cell_at(
            cur,
            size,
            q,
        ) == EMPTY ==> captured_cell(g0, size, su, p, q))
}

/// The bookkeeping holds before the first neighbour is processed.
#[verifier::rlimit(100)]
proof fn lemma_capture_inv_init(
    g0: Seq<u8>,
    size: int,
    su: u8,
    nbrs: Seq<(usize, usize)>,
    p: (usize, usize),
)
    requires
        su == BLACK || su == WHITE,
        forall|q: (usize, usize)| #[trigger]
            nbrs.contains(q) <==> (in_bounds(size, q) && adjacent(p, q)),
    ensures
        capture_inv(g0, g0, size, su, nbrs, p, 0),
{
    reveal(capture_inv);
    assert forall|q: (usize, usize)|
        in_bounds(size, q) && #[trigger] cell_at(g0, size, q) == opp_u8(su) && captured_cell(
            g0,
            size,
            su,
            p,
            q,
        ) implies exists|j: int| 0 <= j < nbrs.len() && #[trigger] connected(g0, size, q, nbrs[j]) by {
        let c = choose|c: (usize, usize)| #[trigger] connected(g0, size, q, c) && adjacent(c, p);
        lemma_connected_endpoints(g0, size, q, c);
        assert(adjacent(p, c));
        assert(nbrs.contains(c));
        let j = choose|j: int| 0 <= j < nbrs.len() && nbrs[j] == c;
        assert(connected(g0, size, q, nbrs[j]));
    }
}

/// Processing a neighbour whose cell is not an opposing stone, or whose group
/// keeps a liberty, leaves the bookkeeping intact.
#[verifier::rlimit(100)]
proof fn lemma_capture_inv_skip(
    g0: Seq<u8>,
    cur: Seq<u8>,
    size: int,
    su: u8,
    nbrs: Seq<(usize, usize)>,
    p: (usize, usize),
    i: int,
)
    requires
        g0.len() == size * size,
        cur.len() == g0.len(),
        su == BLACK || su == WHITE,
        0 <= i < nbrs.len(),
        in_bounds(size, nbrs[i]),
        forall|j: int| 0 <= j < g0.len() ==> (g0[j] == EMPTY || g0[j] == BLACK || g0[j] == WHITE),
        forall|j: int| 0 <= j < g0.len() ==> cur[j] == g0[j] || cur[j] == EMPTY,
        capture_inv(g0, cur, size, su, nbrs, p, i),
        cell_at(cur, size, nbrs[i]) != opp_u8(su) || group_alive(cur, size, nbrs[i]),
    ensures
        capture_inv(g0, cur, size, su, nbrs, p, i + 1),
{
    reveal(capture_inv);
    let n = nbrs[i];
    assert forall|q: (usize, usize)|
        in_bounds(size, q) && #[trigger] cell_at(cur, size, q) == opp_u8(su) && captured_cell(
            g0,
            size,
            su,
            p,
            q,
        ) implies exists|j: int| i + 1 <= j < nbrs.len() && #[trigger] connected(g0, size, q, nbrs[j]) by {
        let j = choose|j: int| i <= j < nbrs.len() && #[trigger] connected(g0, size, q, nbrs[j]);
        if j == i {
            lemma_connected_refl(g0, size, q);
            assert(cell_at(g0, size, q) == cell_at(cur, size, q));
            lemma_connected_endpoints(g0, size, q, n);
            assert(cell_at(cur, size, n) == cell_at(g0, size, n));
            assert(cell_at(cur, size, n) == opp_u8(su));
            lemma_witness_group_alive(g0, cur, size, su, n, q);
            assert(false);
        }
    }
}

/// Once every neighbour is processed: captured opposing stones are gone and
/// every other one is untouched, friendly stones are untouched, and — when
/// every group the placement killed touches the placed point — every
/// opposing stone still on the board belongs to a live group.
proof fn lemma_capture_inv_consequences(
    g0: Seq<u8>,
    cur: Seq<u8>,
    size: int,
    su: u8,
    nbrs: Seq<(usize, usize)>,
    p: (usize, usize),
)
    requires
        g0.len() == size * size,
        cur.len() == g0.len(),
        su == BLACK || su == WHITE,
        forall|j: int| 0 <= j < g0.len() ==> cur[j] == g0[j] || cur[j] == EMPTY,
        capture_inv(g0, cur, size, su, nbrs, p, nbrs.len() as int),
    ensures
        forall|q: (usize, usize)|
            in_bounds(size, q) && cell_at(g0, size, q) == opp_u8(su) ==> #[trigger] cell_at(
                cur,
                size,
                q,
            ) == (if captured_cell(g0, size, su, p, q) {
                EMPTY
            } else {
                opp_u8(su)
            }),
        forall|q2: (usize, usize)|
            in_bounds(size, q2) && cell_at(g0, size, q2) == su ==> #[trigger] cell_at(
                cur,
                size,
                q2,
            ) == su,
        dead_groups_touch(g0, size, su, p) ==> (forall|q: (usize, usize)|
            in_bounds(size, q) && #[trigger] cell_at(cur, size, q) == opp_u8(su) ==> group_alive(
                cur,
                size,
                q,
            )),
{
    reveal(capture_inv);
    assert forall|q: (usize, usize)|
        in_bounds(size, q) && cell_at(g0, size, q) == opp_u8(su) implies #[trigger] cell_at(
        cur,
        size,
        q,
    ) == (if captured_cell(g0, size, su, p, q) {
        EMPTY
    } else {
        opp_u8(su)
    }) by {
        lemma_only_clearing_coord(g0, cur, size, q);
        if captured_cell(g0, size, su, p, q) {
            if cell_at(cur, size, q) == opp_u8(su) {
                let j = choose|j: int|
                    nbrs.len() <= j < nbrs.len() && #[trigger] connected(g0, size, q, nbrs[j]);
                assert(false);
            }
        } else {
            if cell_at(cur, size, q) == EMPTY {
                assert(captured_cell(g0, size, su, p, q));
                assert(false);
            }
        }
    }
    if dead_groups_touch(g0, size, su, p) {
        assert forall|q: (usize, usize)|
            in_bounds(size, q) && #[trigger] cell_at(cur, size, q) == opp_u8(su) implies group_alive(
            cur,
            size,
            q,
        ) by {
            lemma_only_clearing_coord(g0, cur, size, q);
            assert(cell_at(g0, size, q) == opp_u8(su));
            if !group_alive(g0, size, q) {
                let c = choose|c: (usize, usize)|
                    #[trigger] connected(g0, size, q, c) && adjacent(c, p);
                assert(captured_cell(g0, size, su, p, q));
                assert(false);
            }
            lemma_survivor_alive_now(g0, cur, size, su, q);
        }
    }
}

/// One capture-loop step: clearing the component `grp` of the opposing stone
/// `n` preserves the liveness bookkeeping — friendly stones stay, surviving
/// opposing components stay intact, and every dead group still present keeps
/// an unprocessed witness neighbour.
#[verifier::rlimit(100)]
proof fn lemma_capture_step_preserves(
    g0: Seq<u8>,
    g_pre: Seq<u8>,
    cur: Seq<u8>,
    size: int,
    su: u8,
    nbrs: Seq<(usize, usize)>,
    p: (usize, usize),
    i: int,
    n: (usize, usize),
    grp: Seq<(usize, usize)>,
)
    requires
        g0.len() == size * size,
        g_pre.len() == g0.len(),
        cur.len() == g0.len(),
        su == BLACK || su == WHITE,
        0 <= i < nbrs.len(),
        n == nbrs[i],
        in_bounds(size, n),
        adjacent(p, n),
        cell_at(g_pre, size, n) == opp_u8(su),
        !group_alive(g_pre, size, n),
        forall|q: (usize, usize)| #[trigger] grp.contains(q) <==> connected(g_pre, size, n, q),
        forall|q: (usize, usize)|
            in_bounds(size, q) ==> cell_at(cur, size, q) == (if grp.contains(q) {
                EMPTY
            } else {
                cell_at(g_pre, size, q)
            }),
        forall|j: int| 0 <= j < g0.len() ==> g_pre[j] == g0[j] || g_pre[j] == EMPTY,
        capture_inv(g0, g_pre, size, su, nbrs, p, i),
    ensures
        capture_inv(g0, cur, size, su, nbrs, p, i + 1),
{
    reveal(capture_inv);
    // the removed component was already without a liberty, and hence
    // captured, in the post-placement grid
    assert(cell_at(g0, size, n) == opp_u8(su)) by {
        lemma_connected_refl(g0, size, n);
        assert(connected(g0, size, n, n));
    }
    assert(!group_alive(g0, size, n)) by {
        if group_alive(g0, size, n) {
            assert forall|e: (usize, usize)|
                in_bounds(size, e) && cell_at(g0, size, e) == EMPTY implies cell_at(
                g_pre,
                size,
                e,
            ) == EMPTY by {
                lemma_only_clearing_coord(g0, g_pre, size, e);
            }
            lemma_component_alive_transfer(g0, g_pre, size, n);
        }
    }
    assert forall|q: (usize, usize)| #[trigger] grp.contains(q) implies captured_cell(
        g0,
        size,
        su,
        p,
        q,
    ) by {
        assert(connected(g_pre, size, n, q));
        lemma_connected_endpoints(g_pre, size, n, q);
        assert forall|q2: (usize, usize)|
            in_bounds(size, q2) && #[trigger] cell_at(g_pre, size, q2) == cell_at(
                g_pre,
                size,
                n,
            ) implies cell_at(g0, size, q2) == cell_at(g_pre, size, n) by {
            lemma_only_clearing_coord(g0, g_pre, size, q2);
        }
        lemma_connected_mono(g_pre, g0, size, n, q);
        if group_alive(g0, size, q) {
            lemma_connected_sym(g0, size, n, q);
            lemma_alive_via_connected(g0, size, n, q);
            assert(false);
        }
        lemma_connected_sym(g0, size, n, q);
        assert(connected(g0, size, q, n) && adjacent(n, p));
    }
    assert forall|q2: (usize, usize)|
        in_bounds(size, q2) && cell_at(g0, size, q2) == su implies #[trigger] cell_at(
        cur,
        size,
        q2,
    ) == su by {
        assert(cell_at(g_pre, size, q2) == su);
        if grp.contains(q2) {
            lemma_connected_endpoints(g_pre, size, n, q2);
            assert(false);
        }
    }
    assert forall|q: (usize, usize)|
        in_bounds(size, q) && cell_at(cur, size, q) == opp_u8(su) && #[trigger] connected(
        g0,
        size,
        q,
        n,
    ) implies false by {
        assert(!grp.contains(q));
        assert(cell_at(g_pre, size, q) == opp_u8(su));
        lemma_connected_now(g0, g_pre, size, su, n, q);
        assert(grp.contains(q));
    }
    assert forall|qq: (usize, usize), c: (usize, usize)|
        in_bounds(size, qq) && cell_at(cur, size, qq) == opp_u8(su) && #[trigger] connected(
        g0,
        size,
        qq,
        c,
    ) implies cell_at(cur, size, c) == cell_at(g0, size, c) by {
        assert(!grp.contains(qq));
        assert(cell_at(g_pre, size, qq) == opp_u8(su));
        lemma_connected_endpoints(g0, size, qq, c);
        assert(cell_at(g_pre, size, c) == cell_at(g0, size, c));
        if grp.contains(c) {
            assert(connected(g_pre, size, n, c));
            assert forall|q2: (usize, usize)|
                in_bounds(size, q2) && #[trigger] cell_at(g_pre, size, q2) == cell_at(
                    g_pre,
                    size,
                    n,
                ) implies cell_at(g0, size, q2) == cell_at(g_pre, size, n) by {
                lemma_only_clearing_coord(g0, g_pre, size, q2);
            }
            lemma_connected_mono(g_pre, g0, size, n, c);
            lemma_connected_sym(g0, size, n, c);
            lemma_connected_trans(g0, size, qq, c, n);
            assert(false);
        }
    }
    assert forall|q: (usize, usize)|
        in_bounds(size, q) && #[trigger] cell_at(cur, size, q) == opp_u8(su) && captured_cell(
            g0,
            size,
            su,
            p,
            q,
        ) implies exists|j: int|
        i + 1 <= j < nbrs.len() && #[trigger] connected(g0, size, q, nbrs[j]) by {
        assert(!grp.contains(q));
        assert(cell_at(g_pre, size, q) == opp_u8(su));
        let j = choose|j: int| i <= j < nbrs.len() && #[trigger] connected(g0, size, q, nbrs[j]);
        if j == i {
            assert(connected(g0, size, q, n));
            assert(false);
        }
    }
    assert forall|q: (usize, usize)|
        in_bounds(size, q) && cell_at(g0, size, q) == opp_u8(su) && #[trigger] cell_at(
            cur,
            size,
            q,
        ) == EMPTY implies captured_cell(g0, size, su, p, q) by {
        if !grp.contains(q) {
            assert(cell_at(g_pre, size, q) == EMPTY);
        }
    }
}

/// When no group was dead before a placement, any group the placement leaves
/// without a liberty touches the placed point through its own component.
proof fn lemma_placement_dead_groups_touch(
    g0: Seq<u8>,
    g1: Seq<u8>,
    size: int,
    p: (usize, usize),
    su: u8,
)
    requires
        g0.len() == size * size,
        g1 == g0.update(flat(size, p), su),
        in_bounds(size, p),
        cell_at(g0, size, p) == EMPTY,
        su == BLACK || su == WHITE,
        no_dead_groups(g0, size),
    ensures
        dead_groups_touch(g1, size, su, p),
{
    lemma_cell_index_in_range(size, p.0 as int, p.1 as int);
    assert forall|q: (usize, usize)|
        in_bounds(size, q) && cell_at(g1, size, q) == opp_u8(su) && !(#[trigger] group_alive(
            g1,
            size,
            q,
        )) implies exists|c: (usize, usize)| #[trigger] connected(g1, size, q, c) && adjacent(
        c,
        p,
    ) by {
        lemma_cell_index_in_range(size, q.0 as int, q.1 as int);
        assert(q != p);
        lemma_flat_injective_converse(size, q, p);
        assert(cell_at(g0, size, q) == cell_at(g1, size, q));
        assert(group_alive(g0, size, q));
        lemma_dead_after_place_touches(g0, g1, size, p, su, q);
    }
    assert forall|q: (usize, usize)|
        in_bounds(size, q) && cell_at(g1, size, q) == su && !(#[trigger] group_alive(g1, size, q))
            implies connected(g1, size, q, p) by {
        lemma_cell_index_in_range(size, q.0 as int, q.1 as int);
        if q == p {
            lemma_connected_refl(g1, size, p);
        } else {
            lemma_flat_injective_converse(size, q, p);
            assert(cell_at(g0, size, q) == cell_at(g1, size, q));
            assert(group_alive(g0, size, q));
            lemma_dead_after_place_touches(g0, g1, size, p, su, q);
            let c = choose|c: (usize, usize)|
                #[trigger] connected(g1, size, q, c) && adjacent(c, p);
            lemma_connected_endpoints(g1, size, q, c);
            assert(cell_at(g1, size, p) == su);
            let step: Seq<(usize, usize)> = seq![c, p];
            assert(step[0] == c && step[1] == p);
            assert(path_ok(g1, size, su, step));
            assert(step.first() == c && step.last() == p);
            assert(connected(g1, size, c, p));
            lemma_connected_trans(g1, size, q, c, p);
        }
    }
}

/// The self-capture check kept the placed group: the final grid is exactly
/// the placement outcome (captured opposing stones emptied, all else kept).
#[verifier::rlimit(100)]
proof fn lemma_place_outcome_kept(g0: Seq<u8>, g2: Seq<u8>, size: int, su: u8, p: (usize, usize))
    requires
        g0.len() == size * size,
        g2.len() == g0.len(),
        su == BLACK || su == WHITE,
        forall|j: int| 0 <= j < g0.len() ==> (g0[j] == EMPTY || g0[j] == BLACK || g0[j] == WHITE),
        forall|j: int| 0 <= j < g0.len() ==> g2[j] == g0[j] || g2[j] == EMPTY,
        forall|q2: (usize, usize)|
            in_bounds(size, q2) && cell_at(g0, size, q2) == su ==> #[trigger] cell_at(
                g2,
                size,
                q2,
            ) == su,
        forall|q: (usize, usize)|
            in_bounds(size, q) && cell_at(g0, size, q) == opp_u8(su) ==> #[trigger] cell_at(
                g2,
                size,
                q,
            ) == (if captured_cell(g0, size, su, p, q) {
                EMPTY
            } else {
                opp_u8(su)
            }),
        in_bounds(size, p),
        cell_at(g0, size, p) == su,
        group_alive(g2, size, p),
    ensures
        forall|q: (usize, usize)|
            in_bounds(size, q) ==> #[trigger] cell_at(g2, size, q) == place_result_cell(
                g0,
                size,
                su,
                p,
                q,
            ),
{
    if self_capture_occurs(g0, size, su, p) {
        assert forall|q: (usize, usize)| in_bounds(size, q) implies #[trigger] cell_at(
            g2,
            size,
            q,
        ) == cell_at(g0, size, q) by {
            lemma_cell_index_in_range(size, q.0 as int, q.1 as int);
            lemma_only_clearing_coord(g0, g2, size, q);
            assert(cell_at(g0, size, q) == EMPTY || cell_at(g0, size, q) == BLACK || cell_at(
                g0,
                size,
                q,
            ) == WHITE);
            if cell_at(g0, size, q) == opp_u8(su) {
                assert(!captured_cell(g0, size, su, p, q));
            }
        }
        assert forall|c: (usize, usize)| #[trigger] connected(g2, size, p, c) implies cell_at(
            g0,
            size,
            c,
        ) == cell_at(g2, size, c) by {
            lemma_connected_endpoints(g2, size, p, c);
        }
        assert forall|e: (usize, usize)|
            in_bounds(size, e) && cell_at(g2, size, e) == EMPTY implies cell_at(g0, size, e)
            == EMPTY by {
            lemma_only_clearing_coord(g0, g2, size, e);
        }
        lemma_component_alive_transfer(g2, g0, size, p);
        assert(false);
    }
    assert forall|q: (usize, usize)| in_bounds(size, q) implies #[trigger] cell_at(g2, size, q)
        == place_result_cell(g0, size, su, p, q) by {
        lemma_only_clearing_coord(g0, g2, size, q);
        let c0 = cell_at(g0, size, q);
        if c0 == opp_u8(su) {
        } else if c0 == su {
            if connected(g0, size, p, q) {
                lemma_connected_endpoints(g0, size, p, q);
            }
        } else {
            lemma_cell_index_in_range(size, q.0 as int, q.1 as int);
            assert(c0 == EMPTY);
            if connected(g0, size, p, q) {
                lemma_connected_endpoints(g0, size, p, q);
                assert(false);
            }
        }
    }
}

/// The self-capture check removed the placed group: the final grid is
/// exactly the placement outcome (the placed stone's whole component
/// emptied, all else kept; nothing was captured).
#[verifier::rlimit(100)]
proof fn lemma_place_outcome_removed(
    g0: Seq<u8>,
    g2: Seq<u8>,
    g3: Seq<u8>,
    size: int,
    su: u8,
    p: (usize, usize),
    self_grp: Seq<(usize, usize)>,
)
    requires
        g0.len() == size * size,
        g2.len() == g0.len(),
        g3.len() == g0.len(),
        su == BLACK || su == WHITE,
        forall|j: int| 0 <= j < g0.len() ==> (g0[j] == EMPTY || g0[j] == BLACK || g0[j] == WHITE),
        forall|j: int| 0 <= j < g0.len() ==> g2[j] == g0[j] || g2[j] == EMPTY,
        forall|q2: (usize, usize)|
            in_bounds(size, q2) && cell_at(g0, size, q2) == su ==> #[trigger] cell_at(
                g2,
                size,
                q2,
            ) == su,
        forall|q: (usize, usize)|
            in_bounds(size, q) && cell_at(g0, size, q) == opp_u8(su) ==> #[trigger] cell_at(
                g2,
                size,
                q,
            ) == (if captured_cell(g0, size, su, p, q) {
                EMPTY
            } else {
                opp_u8(su)
            }),
        in_bounds(size, p),
        cell_at(g0, size, p) == su,
        !group_alive(g2, size, p),
        forall|q: (usize, usize)| #[trigger] self_grp.contains(q) <==> connected(g2, size, p, q),
        forall|q: (usize, usize)|
            in_bounds(size, q) ==> cell_at(g3, size, q) == (if self_grp.contains(q) {
                EMPTY
            } else {
                cell_at(g2, size, q)
            }),
    ensures
        forall|q: (usize, usize)|
            in_bounds(size, q) ==> #[trigger] cell_at(g3, size, q) == place_result_cell(
                g0,
                size,
                su,
                p,
                q,
            ),
{
    assert(cell_at(g2, size, p) == su);
    if capture_occurs(g0, size, su, p) {
        let q0 = choose|q: (usize, usize)| #[trigger] captured_cell(g0, size, su, p, q);
        let c = choose|c: (usize, usize)| #[trigger] connected(g0, size, q0, c) && adjacent(c, p);
        lemma_connected_endpoints(g0, size, q0, c);
        assert(captured_cell(g0, size, su, p, c)) by {
            if group_alive(g0, size, c) {
                lemma_alive_via_connected(g0, size, q0, c);
                assert(false);
            }
            lemma_connected_refl(g0, size, c);
            assert(connected(g0, size, c, c) && adjacent(c, p));
        }
        assert(cell_at(g2, size, c) == EMPTY);
        assert(adjacent(p, c));
        lemma_connected_refl(g2, size, p);
        assert(has_liberty(g2, size, p));
        assert(group_alive(g2, size, p));
        assert(false);
    }
    assert forall|q: (usize, usize)| in_bounds(size, q) implies #[trigger] cell_at(g2, size, q)
        == cell_at(g0, size, q) by {
        lemma_cell_index_in_range(size, q.0 as int, q.1 as int);
        lemma_only_clearing_coord(g0, g2, size, q);
        assert(cell_at(g0, size, q) == EMPTY || cell_at(g0, size, q) == BLACK || cell_at(
            g0,
            size,
            q,
        ) == WHITE);
        if cell_at(g0, size, q) == opp_u8(su) {
            assert(!captured_cell(g0, size, su, p, q));
        }
    }
    assert(!group_alive(g0, size, p)) by {
        if group_alive(g0, size, p) {
            assert forall|c: (usize, usize)| #[trigger] connected(g0, size, p, c) implies cell_at(
                g2,
                size,
                c,
            ) == cell_at(g0, size, c) by {
                lemma_connected_endpoints(g0, size, p, c);
            }
            assert forall|e: (usize, usize)|
                in_bounds(size, e) && cell_at(g0, size, e) == EMPTY implies cell_at(g2, size, e)
                == EMPTY by {
                lemma_only_clearing_coord(g0, g2, size, e);
            }
            lemma_component_alive_transfer(g0, g2, size, p);
        }
    }
    assert(self_capture_occurs(g0, size, su, p));
    assert forall|q: (usize, usize)| in_bounds(size, q) implies (connected(g2, size, p, q)
        <==> connected(g0, size, p, q)) by {
        if connected(g2, size, p, q) {
            assert forall|q2: (usize, usize)|
                in_bounds(size, q2) implies ((cell_at(g2, size, q2) == cell_at(g2, size, p)) <==> (
                cell_at(g0, size, q2) == cell_at(g2, size, p))) by {}
            lemma_connected_transfer(g2, g0, size, p, q);
        }
        if connected(g0, size, p, q) {
            assert forall|q2: (usize, usize)|
                in_bounds(size, q2) implies ((cell_at(g0, size, q2) == cell_at(g0, size, p)) <==> (
                cell_at(g2, size, q2) == cell_at(g0, size, p))) by {}
            lemma_connected_transfer(g0, g2, size, p, q);
        }
    }
    assert forall|q: (usize, usize)| in_bounds(size, q) implies #[trigger] cell_at(g3, size, q)
        == place_result_cell(g0, size, su, p, q) by {
        assert(cell_at(g2, size, q) == cell_at(g0, size, q));
        assert(!captured_cell(g0, size, su, p, q));
        if self_grp.contains(q) {
            assert(connected(g2, size, p, q));
            assert(connected(g0, size, p, q));
        } else {
            if connected(g0, size, p, q) {
                assert(connected(g2, size, p, q));
                assert(false);
            }
        }
    }
}

/// Self-capture check kept the placed group: with the placed group alive and
/// every opposing group alive, no dead group remains.
proof fn lemma_no_dead_kept(g0: Seq<u8>, g2: Seq<u8>, size: int, su: u8, p: (usize, usize))
    requires
        g0.len() == size * size,
        g2.len() == g0.len(),
        su == BLACK || su == WHITE,
        forall|j: int| 0 <= j < g0.len() ==> (g0[j] == EMPTY || g0[j] == BLACK || g0[j] == WHITE),
        forall|j: int| 0 <= j < g0.len() ==> g2[j] == g0[j] || g2[j] == EMPTY,
        forall|q2: (usize, usize)|
            in_bounds(size, q2) && cell_at(g0, size, q2) == su ==> #[trigger] cell_at(
                g2,
                size,
                q2,
            ) == su,
        forall|q: (usize, usize)|
            in_bounds(size, q) && #[trigger] cell_at(g2, size, q) == opp_u8(su) ==> group_alive(
                g2,
                size,
                q,
            ),
        dead_groups_touch(g0, size, su, p),
        in_bounds(size, p),
        group_alive(g2, size, p),
    ensures
        no_dead_groups(g2, size),
{
    assert forall|q: (usize, usize)|
        in_bounds(size, q) && cell_at(g2, size, q) != EMPTY implies #[trigger] group_alive(
        g2,
        size,
        q,
    ) by {
        lemma_cell_index_in_range(size, q.0 as int, q.1 as int);
        let cq = cell_at(g2, size, q);
        assert(cq == cell_at(g0, size, q));
        if cq != opp_u8(su) {
            assert(cq == su);
            assert(cell_at(g0, size, q) == su);
            if group_alive(g0, size, q) {
                assert forall|c: (usize, usize)| #[trigger]
                    connected(g0, size, q, c) implies cell_at(g2, size, c) == cell_at(
                    g0,
                    size,
                    c,
                ) by {
                    lemma_connected_endpoints(g0, size, q, c);
                }
                assert forall|e: (usize, usize)|
                    in_bounds(size, e) && cell_at(g0, size, e) == EMPTY implies cell_at(
                    g2,
                    size,
                    e,
                ) == EMPTY by {
                    lemma_only_clearing_coord(g0, g2, size, e);
                }
                lemma_component_alive_transfer(g0, g2, size, q);
            } else {
                assert(connected(g0, size, q, p));
                assert forall|q2: (usize, usize)|
                    in_bounds(size, q2) implies ((cell_at(g0, size, q2) == cell_at(g0, size, q))
                    <==> (cell_at(g2, size, q2) == cell_at(g0, size, q))) by {
                    lemma_only_clearing_coord(g0, g2, size, q2);
                }
                lemma_connected_transfer(g0, g2, size, q, p);
                lemma_alive_via_connected(g2, size, q, p);
            }
        }
    }
}

/// Self-capture removed the placed group: everything left is a live group.
proof fn lemma_no_dead_removed(
    g0: Seq<u8>,
    g2: Seq<u8>,
    g3: Seq<u8>,
    size: int,
    su: u8,
    p: (usize, usize),
    self_grp: Seq<(usize, usize)>,
)
    requires
        g0.len() == size * size,
        g2.len() == g0.len(),
        g3.len() == g0.len(),
        su == BLACK || su == WHITE,
        forall|j: int| 0 <= j < g0.len() ==> (g0[j] == EMPTY || g0[j] == BLACK || g0[j] == WHITE),
        forall|j: int| 0 <= j < g0.len() ==> g2[j] == g0[j] || g2[j] == EMPTY,
        forall|j: int| 0 <= j < g0.len() ==> g3[j] == g2[j] || g3[j] == EMPTY,
        forall|q2: (usize, usize)|
            in_bounds(size, q2) && cell_at(g0, size, q2) == su ==> #[trigger] cell_at(
                g2,
                size,
                q2,
            ) == su,
        forall|q: (usize, usize)|
            in_bounds(size, q) && #[trigger] cell_at(g2, size, q) == opp_u8(su) ==> group_alive(
                g2,
                size,
                q,
            ),
        forall|q: (usize, usize)| #[trigger] self_grp.contains(q) <==> connected(g2, size, p, q),
        forall|q: (usize, usize)|
            in_bounds(size, q) ==> cell_at(g3, size, q) == (if self_grp.contains(q) {
                EMPTY
            } else {
                cell_at(g2, size, q)
            }),
        dead_groups_touch(g0, size, su, p),
        in_bounds(size, p),
        cell_at(g2, size, p) == su,
    ensures
        no_dead_groups(g3, size),
{
    assert forall|q: (usize, usize)|
        in_bounds(size, q) && cell_at(g3, size, q) != EMPTY implies #[trigger] group_alive(
        g3,
        size,
        q,
    ) by {
        lemma_cell_index_in_range(size, q.0 as int, q.1 as int);
        assert(!self_grp.contains(q));
        let cq = cell_at(g3, size, q);
        assert(cq == cell_at(g2, size, q));
        assert(cq == cell_at(g0, size, q));
        if cq == opp_u8(su) {
            assert(group_alive(g2, size, q));
            assert forall|c: (usize, usize)| #[trigger]
                connected(g2, size, q, c) implies cell_at(g3, size, c) == cell_at(g2, size, c) by {
                lemma_connected_endpoints(g2, size, q, c);
                if self_grp.contains(c) {
                    lemma_connected_endpoints(g2, size, p, c);
                    assert(false);
                }
            }
            assert forall|e: (usize, usize)|
                in_bounds(size, e) && cell_at(g2, size, e) == EMPTY implies cell_at(g3, size, e)
                == EMPTY by {
                lemma_only_clearing_coord(g2, g3, size, e);
            }
            lemma_component_alive_transfer(g2, g3, size, q);
        } else {
            assert(cq == su);
            if connected(g0, size, q, p) {
                assert forall|q2: (usize, usize)|
                    in_bounds(size, q2) implies ((cell_at(g0, size, q2) == cell_at(g0, size, q))
                    <==> (cell_at(g2, size, q2) == cell_at(g0, size, q))) by {
                    lemma_only_clearing_coord(g0, g2, size, q2);
                }
                lemma_connected_transfer(g0, g2, size, q, p);
                lemma_connected_sym(g2, size, q, p);
                assert(self_grp.contains(q));
                assert(false);
            }
            assert(group_alive(g0, size, q));
            assert forall|c: (usize, usize)| #[trigger]
                connected(g0, size, q, c) implies cell_at(g2, size, c) == cell_at(g0, size, c) by {
                lemma_connected_endpoints(g0, size, q, c);
            }
            assert forall|e: (usize, usize)|
                in_bounds(size, e) && cell_at(g0, size, e) == EMPTY implies cell_at(g2, size, e)
                == EMPTY by {
                lemma_only_clearing_coord(g0, g2, size, e);
            }
            lemma_component_alive_transfer(g0, g2, size, q);
            assert forall|c: (usize, usize)| #[trigger]
                connected(g2, size, q, c) implies cell_at(g3, size, c) == cell_at(g2, size, c) by {
                if self_grp.contains(c) {
                    lemma_connected_sym(g2, size, q, c);
                    lemma_connected_trans(g2, size, p, c, q);
                    assert(self_grp.contains(q));
                    assert(false);
                }
            }
            assert forall|e: (usize, usize)|
                in_bounds(size, e) && cell_at(g2, size, e) == EMPTY implies cell_at(g3, size, e)
                == EMPTY by {
                lemma_only_clearing_coord(g2, g3, size, e);
            }
            lemma_component_alive_transfer(g2, g3, size, q);
        }
    }
}

/// Addition on capture counters, saturating at the machine limit.


pub open spec fn sat_add_usize(a: int, b: int) -> int {
    if a + b > usize::MAX {
        usize::MAX as int
    } else {
        a + b
    }
}

impl Board {
    /// Overwrite one cell and keep the position hash in step: XOR out the old
    /// stone's key (if any), XOR in the new one's (if any).
    fn write_cell(&mut self, x: usize, y: usize, v: u8)
        requires
            old(self).wf(),
            x < old(self).sz(),
            y < old(self).sz(),
            v == EMPTY || v == BLACK || v == WHITE,
        ensures
            final(self).wf(),
            final(self).sz() == old(self).sz(),
            final(self).kb() == old(self).kb(),
            final(self).kw() == old(self).kw(),
            final(self).cap_black() == old(self).cap_black(),
            final(self).cap_white() == old(self).cap_white(),
            final(self).cells() == old(self).cells().update(
                flat(old(self).sz(), (x, y)),
                v,
            ),
    {
        let idx = self.index(x, y);
        let oldc = self.grid[idx];
        let ghost g_old = self.grid@;
        let ghost h_old = self.current_hash;
        let ghost fi = flat(self.sz(), (x, y));
        let ghost kold = key_of(oldc, self.kb()[fi], self.kw()[fi]);
        let ghost knew = key_of(v, self.kb()[fi], self.kw()[fi]);
        self.grid.set(idx, v);
        if oldc == BLACK {
            let k = self.zobrist_table.get_stone_hash(x, y, true);
            self.current_hash = self.current_hash ^ k;
        } else if oldc == WHITE {
            let k = self.zobrist_table.get_stone_hash(x, y, false);
            self.current_hash = self.current_hash ^ k;
        } else {
            proof {
                lemma_xor_zero(h_old);
            }
        }
        proof {
            assert(self.current_hash == h_old ^ kold);
        }
        let ghost h_mid = self.current_hash;
        if v == BLACK {
            let k = self.zobrist_table.get_stone_hash(x, y, true);
            self.current_hash = self.current_hash ^ k;
        } else if v == WHITE {
            let k = self.zobrist_table.get_stone_hash(x, y, false);
            self.current_hash = self.current_hash ^ k;
        } else {
            proof {
                lemma_xor_zero(h_mid);
            }
        }
        proof {
            assert(self.current_hash == (h_old ^ kold) ^ knew);
            lemma_xor_fold_update(g_old, self.kb(), self.kw(), fi, v, g_old.len() as int);
        }
    }

    /// Clear every cell of `group` (a set of same-coloured stones), XOR-ing
    /// their keys out of the hash.  Capture counters are untouched.
    fn remove_group_cells(&mut self, group: &Vec<(usize, usize)>)
        requires
            old(self).wf(),
            group@.len() >= 1,
            group@.no_duplicates(),
            forall|i: int|
                0 <= i < group@.len() ==> in_bounds(old(self).sz(), #[trigger] group@[i]),
            forall|i: int|
                0 <= i < group@.len() ==> cell_at(
                    old(self).cells(),
                    old(self).sz(),
                    #[trigger] group@[i],
                ) == cell_at(old(self).cells(), old(self).sz(), group@[0]),
            cell_at(old(self).cells(), old(self).sz(), group@[0]) != EMPTY,
        ensures
            final(self).wf(),
            final(self).sz() == old(self).sz(),
            final(self).kb() == old(self).kb(),
            final(self).kw() == old(self).kw(),
            final(self).cap_black() == old(self).cap_black(),
            final(self).cap_white() == old(self).cap_white(),
            final(self).cells().len() == old(self).cells().len(),
            forall|j: int|
                0 <= j < old(self).cells().len() ==> (final(self).cells()[j]
                    == old(self).cells()[j] || final(self).cells()[j] == EMPTY),
            forall|q: (usize, usize)|
                in_bounds(old(self).sz(), q) ==> cell_at(
                    final(self).cells(),
                    old(self).sz(),
                    q,
                ) == (if group@.contains(q) {
                    EMPTY
                } else {
                    cell_at(old(self).cells(), old(self).sz(), q)
                }),
            count_color(final(self).cells(), cell_at(old(self).cells(), old(self).sz(), group@[0]))
                == count_color(old(self).cells(), cell_at(old(self).cells(), old(self).sz(), group@[0]))
                - group@.len(),
            forall|c2: u8|
                c2 != cell_at(old(self).cells(), old(self).sz(), group@[0]) && c2 != EMPTY
                    ==> #[trigger] count_color(final(self).cells(), c2) == count_color(
                    old(self).cells(),
                    c2,
                ),
    {
        let ghost g0 = self.cells();
        let ghost size = self.sz();
        let ghost col = cell_at(g0, size, group@[0]);
        let mut i: usize = 0;
        while i < group.len()
            invariant
                self.wf(),
                size == self.sz(),
                self.kb() == old(self).kb(),
                self.kw() == old(self).kw(),
                self.cap_black() == old(self).cap_black(),
                self.cap_white() == old(self).cap_white(),
                g0 == old(self).cells(),
                g0.len() == self.cells().len(),
                col == cell_at(g0, size, group@[0]),
                col != EMPTY,
                i <= group@.len(),
                group@.no_duplicates(),
                forall|k: int| 0 <= k < group@.len() ==> in_bounds(size, #[trigger] group@[k]),
                forall|k: int|
                    0 <= k < group@.len() ==> cell_at(g0, size, #[trigger] group@[k]) == col,
                forall|j: int|
                    0 <= j < g0.len() ==> self.cells()[j] == g0[j] || self.cells()[j] == EMPTY,
                forall|q: (usize, usize)|
                    in_bounds(size, q) ==> cell_at(self.cells(), size, q) == (
                    if (exists|k: int| 0 <= k < i && group@[k] == q) {
                        EMPTY
                    } else {
                        cell_at(g0, size, q)
                    }),
                count_color(self.cells(), col) == count_color(g0, col) - i,
                forall|c2: u8|
                    c2 != col && c2 != EMPTY ==> #[trigger] count_color(self.cells(), c2)
                        == count_color(g0, c2),
            decreases group@.len() - i,
        {
            let (gx, gy) = group[i];
            proof {
                assert((gx, gy) == group@[i as int]);
                assert(!(exists|k: int| 0 <= k < i && group@[k] == group@[i as int]));
                assert(cell_at(self.cells(), size, (gx, gy)) == col);
                lemma_cell_index_in_range(size, gx as int, gy as int);
            }
            let ghost g_pre = self.cells();
            self.write_cell(gx, gy, EMPTY);
            proof {
                let fi = flat(size, (gx, gy));
                lemma_count_color_update(g_pre, col, fi, EMPTY, g_pre.len() as int);
                assert forall|c2: u8| c2 != col && c2 != EMPTY implies #[trigger] count_color(
                    self.cells(),
                    c2,
                ) == count_color(g0, c2) by {
                    lemma_count_color_update(g_pre, c2, fi, EMPTY, g_pre.len() as int);
                    assert(count_color(g_pre, c2) == count_color(g0, c2));
                    assert(count_color(self.cells(), c2) == count_color(g_pre, c2));
                }
                assert forall|q: (usize, usize)| in_bounds(size, q) implies cell_at(
                    self.cells(),
                    size,
                    q,
                ) == (if (exists|k: int| 0 <= k < i + 1 && group@[k] == q) {
                    EMPTY
                } else {
                    cell_at(g0, size, q)
                }) by {
                    lemma_cell_index_in_range(size, q.0 as int, q.1 as int);
                    if flat(size, q) == fi {
                        lemma_flat_injective(size, q, (gx, gy));
                        assert(group@[i as int] == q);
                    } else {
                        assert(cell_at(self.cells(), size, q) == cell_at(g_pre, size, q));
                        if exists|k: int| 0 <= k < i + 1 && group@[k] == q {
                            let k = choose|k: int| 0 <= k < i + 1 && group@[k] == q;
                            assert(k < i) by {
                                if k == i {
                                    assert(group@[k] == (gx, gy));
                                }
                            }
                        }
                    }
                }
            }
            i = i + 1;
        }
        proof {
            assert forall|q: (usize, usize)| in_bounds(size, q) implies cell_at(
                self.cells(),
                size,
                q,
            ) == (if group@.contains(q) {
                EMPTY
            } else {
                cell_at(g0, size, q)
            }) by {
                if group@.contains(q) {
                    let k = choose|k: int| 0 <= k < group@.len() && group@[k] == q;
                    assert(exists|k2: int| 0 <= k2 < i && group@[k2] == q);
                }
            }
        }
    }
}

impl Board {
    /// Capture resolution after a stone of `stone` was written to `(x, y)`:
    /// every adjacent opposing group without a liberty is removed (its size is
    /// returned as the mover's capture credit), then the placed stone's own
    /// group is removed without credit if it ends up with no liberty.
    #[verifier::rlimit(100)]
    fn check_captures(&mut self, x: usize, y: usize, stone: Stone) -> (captured: usize)
        requires
            old(self).wf(),
            x < old(self).sz(),
            y < old(self).sz(),
            cell_at(old(self).cells(), old(self).sz(), (x, y)) == stone.to_u8(),
        ensures
            final(self).wf(),
            final(self).sz() == old(self).sz(),
            final(self).kb() == old(self).kb(),
            final(self).kw() == old(self).kw(),
            final(self).cap_black() == old(self).cap_black(),
            final(self).cap_white() == old(self).cap_white(),
            final(self).cells().len() == old(self).cells().len(),
            forall|j: int|
                0 <= j < old(self).cells().len() ==> (final(self).cells()[j]
                    == old(self).cells()[j] || final(self).cells()[j] == EMPTY),
            captured as int == count_color(old(self).cells(), opp_u8(stone.to_u8())) - count_color(
                final(self).cells(),
                opp_u8(stone.to_u8()),
            ),
            cell_at(final(self).cells(), old(self).sz(), (x, y)) == stone.to_u8() || cell_at(
                final(self).cells(),
                old(self).sz(),
                (x, y),
            ) == EMPTY,
            count_color(final(self).cells(), opp_u8(stone.to_u8())) == count_color(
                old(self).cells(),
                opp_u8(stone.to_u8()),
            ) ==> (cell_at(final(self).cells(), old(self).sz(), (x, y)) == EMPTY
                <==> !group_alive(old(self).cells(), old(self).sz(), (x, y))),
            cell_at(final(self).cells(), old(self).sz(), (x, y)) != EMPTY ==> group_alive(
                final(self).cells(),
                old(self).sz(),
                (x, y),
            ),
            dead_groups_touch(old(self).cells(), old(self).sz(), stone.to_u8(), (x, y))
                ==> no_dead_groups(final(self).cells(), old(self).sz()),
            forall|q: (usize, usize)|
                in_bounds(old(self).sz(), q) ==> #[trigger] cell_at(
                    final(self).cells(),
                    old(self).sz(),
                    q,
                ) == place_result_cell(
                    old(self).cells(),
                    old(self).sz(),
                    stone.to_u8(),
                    (x, y),
                    q,
                ),
    {
        let su = Self::stone_to_u8(stone);
        let opponent = Self::opposite_u8(su);
        let ghost g0 = self.cells();
        let ghost h: bool = dead_groups_touch(g0, self.sz(), stone.to_u8(), (x, y));
        let ghost size = self.sz();
        let mut total: usize = 0;
        let n_cells = self.grid.len();
        let nbrs = self.neighbors(x, y);
        proof {
            lemma_count_color_bounds(g0, opp_u8(su), g0.len() as int);
        }
        proof {
            lemma_capture_inv_init(g0, size, su, nbrs@, (x, y));
        }
        let mut i: usize = 0;
        while i < nbrs.len()
            invariant
                self.wf(),
                size == self.sz(),
                x < size,
                y < size,
                su == stone.to_u8(),
                opponent == opp_u8(su),
                self.kb() == old(self).kb(),
                self.kw() == old(self).kw(),
                self.cap_black() == old(self).cap_black(),
                self.cap_white() == old(self).cap_white(),
                g0 == old(self).cells(),
                g0.len() == self.cells().len(),
                i <= nbrs@.len(),
                forall|k: int|
                    0 <= k < nbrs@.len() ==> in_bounds(size, #[trigger] nbrs@[k]) && adjacent(
                        (x, y),
                        nbrs@[k],
                    ),
                forall|j: int|
                    0 <= j < g0.len() ==> self.cells()[j] == g0[j] || self.cells()[j] == EMPTY,
                cell_at(self.cells(), size, (x, y)) == su,
                total as int == count_color(g0, opp_u8(su)) - count_color(
                    self.cells(),
                    opp_u8(su),
                ),
                self.cells() == g0 || count_color(self.cells(), opp_u8(su)) < count_color(
                    g0,
                    opp_u8(su),
                ),
                count_color(g0, opp_u8(su)) <= g0.len(),
                n_cells == g0.len(),
                total <= n_cells,
                g0.len() == size * size,
                forall|j: int|
                    0 <= j < g0.len() ==> (g0[j] == EMPTY || g0[j] == BLACK || g0[j] == WHITE),
                h == dead_groups_touch(g0, size, su, (x, y)),
                capture_inv(g0, self.cells(), size, su, nbrs@, (x, y), i as int),
            decreases nbrs@.len() - i,
        {
            let (nx, ny) = nbrs[i];
            proof {
                assert((nx, ny) == nbrs@[i as int]);
                lemma_cell_index_in_range(size, x as int, y as int);
            }
            if self.get_raw(nx, ny) == opponent {
                let grp = self.get_group(nx, ny);
                let dead = self.has_no_liberties(&grp);
                proof {
                    if group_alive(self.cells(), size, (nx, ny)) {
                        let c = choose|c: (usize, usize)|
                            #[trigger] connected(self.cells(), size, (nx, ny), c) && has_liberty(
                                self.cells(),
                                size,
                                c,
                            );
                        assert(grp@.contains(c));
                        let k = choose|k: int| 0 <= k < grp@.len() && grp@[k] == c;
                        assert(has_liberty(self.cells(), size, grp@[k]));
                    }
                    if exists|k: int|
                        0 <= k < grp@.len() && has_liberty(self.cells(), size, #[trigger] grp@[k]) {
                        let k = choose|k: int|
                            0 <= k < grp@.len() && has_liberty(self.cells(), size, #[trigger] grp@[k]);
                        assert(grp@.contains(grp@[k]));
                        assert(group_alive(self.cells(), size, (nx, ny)));
                    }
                    assert(dead <==> !group_alive(self.cells(), size, (nx, ny)));
                }
                if dead {
                    let ghost g_pre = self.cells();
                    proof {
                        lemma_connected_refl(g_pre, size, (nx, ny));
                        assert(grp@.contains((nx, ny)));
                        assert(grp@.contains(grp@[0]));
                        assert(cell_at(g_pre, size, grp@[0]) == opp_u8(su));
                        if grp@.contains((x, y)) {
                            let k = choose|k: int| 0 <= k < grp@.len() && grp@[k] == ((x, y));
                            assert(cell_at(g_pre, size, grp@[k]) == opp_u8(su));
                        }
                        assert(!grp@.contains((x, y)));
                        lemma_cell_index_in_range(size, x as int, y as int);
                    }
                    self.remove_group_cells(&grp);
                    proof {
                        assert(in_bounds(size, (x, y)));
                        assert(cell_at(self.cells(), size, (x, y)) == (if grp@.contains((x, y)) {
                            EMPTY
                        } else {
                            cell_at(g_pre, size, (x, y))
                        }));
                        assert(cell_at(self.cells(), size, (x, y)) == su);
                        assert(count_color(self.cells(), opp_u8(su)) == count_color(
                            g_pre,
                            opp_u8(su),
                        ) - grp@.len());
                        lemma_count_color_bounds(self.cells(), opp_u8(su), self.cells().len() as int);
                        lemma_capture_step_preserves(
                            g0,
                            g_pre,
                            self.cells(),
                            size,
                            su,
                            nbrs@,
                            (x, y),
                            i as int,
                            (nx, ny),
                            grp@,
                        );
                    }
                    total = total + grp.len();
                } else {
                    proof {
                        assert(group_alive(self.cells(), size, (nx, ny)));
                        lemma_capture_inv_skip(g0, self.cells(), size, su, nbrs@, (x, y), i as int);
                    }
                }
            } else {
                proof {
                    lemma_capture_inv_skip(g0, self.cells(), size, su, nbrs@, (x, y), i as int);
                }
            }
            i = i + 1;
        }
        let ghost g_mid = self.cells();
        proof {
            lemma_capture_inv_consequences(g0, g_mid, size, su, nbrs@, (x, y));
        }
        let self_grp = self.get_group(x, y);
        let dead = self.has_no_liberties(&self_grp);
        proof {
            if group_alive(g_mid, size, (x, y)) {
                let c = choose|c: (usize, usize)|
                    #[trigger] connected(g_mid, size, (x, y), c) && has_liberty(g_mid, size, c);
                assert(self_grp@.contains(c));
                let k = choose|k: int| 0 <= k < self_grp@.len() && self_grp@[k] == c;
                assert(has_liberty(g_mid, size, self_grp@[k]));
            }
            if exists|k: int|
                0 <= k < self_grp@.len() && has_liberty(g_mid, size, #[trigger] self_grp@[k]) {
                let k = choose|k: int|
                    0 <= k < self_grp@.len() && has_liberty(g_mid, size, #[trigger] self_grp@[k]);
                assert(self_grp@.contains(self_grp@[k]));
                assert(group_alive(g_mid, size, (x, y)));
            }
            assert(dead <==> !group_alive(g_mid, size, (x, y)));
        }
        if dead {
            proof {
                lemma_connected_refl(g_mid, size, (x, y));
                assert(self_grp@.contains((x, y)));
                assert(self_grp@.contains(self_grp@[0]));
                assert(cell_at(g_mid, size, self_grp@[0]) == su);
                lemma_cell_index_in_range(size, x as int, y as int);
            }
            self.remove_group_cells(&self_grp);
            proof {
                assert(cell_at(self.cells(), size, (x, y)) == EMPTY);
                assert(count_color(self.cells(), opp_u8(su)) == count_color(g_mid, opp_u8(su)));
                lemma_place_outcome_removed(g0, g_mid, self.cells(), size, su, (x, y), self_grp@);
                if h {
                    lemma_no_dead_removed(g0, g_mid, self.cells(), size, su, (x, y), self_grp@);
                    assert(no_dead_groups(self.cells(), size));
                }
            }
        } else {
            proof {
                assert(group_alive(g_mid, size, (x, y)));
                lemma_place_outcome_kept(g0, g_mid, size, su, (x, y));
                if h {
                    lemma_no_dead_kept(g0, g_mid, size, su, (x, y));
                    assert(no_dead_groups(self.cells(), size));
                }
            }
        }
        total
    }

    /// Place a stone: reject out-of-bounds or occupied points with no state
    /// change; otherwise write the stone, update the hash, resolve captures
    /// and self-capture, and credit the mover with the removed opponents.
    pub fn place_stone(&mut self, x: usize, y: usize, stone: Stone) -> (r: Result<
        (),
        &'static str,
    >)
        requires
            old(self).wf(),
        ensures
            final(self).wf(),
            final(self).sz() == old(self).sz(),
            final(self).kb() == old(self).kb(),
            final(self).kw() == old(self).kw(),
            r is Ok <==> (x < old(self).sz() && y < old(self).sz() && cell_at(
                old(self).cells(),
                old(self).sz(),
                (x, y),
            ) == EMPTY),
            r is Err ==> final(self).cells() == old(self).cells(),
            r is Err ==> final(self).cap_black() == old(self).cap_black(),
            r is Err ==> final(self).cap_white() == old(self).cap_white(),
            r is Err ==> final(self).hash_val() == old(self).hash_val(),
            (x >= old(self).sz() || y >= old(self).sz()) ==> (r matches Err(m) && m@
                == "Position out of bounds"@),
            (x < old(self).sz() && y < old(self).sz() && cell_at(
                old(self).cells(),
                old(self).sz(),
                (x, y),
            ) != EMPTY) ==> (r matches Err(m) && m@ == "Position already occupied"@),
            r is Ok ==> final(self).cells().len() == old(self).cells().len(),
            r is Ok ==> (cell_at(final(self).cells(), old(self).sz(), (x, y)) == stone.to_u8()
                || cell_at(final(self).cells(), old(self).sz(), (x, y)) == EMPTY),
            r is Ok ==> forall|q: (usize, usize)|
                in_bounds(old(self).sz(), q) && q != ((x, y)) ==> (cell_at(
                    final(self).cells(),
                    old(self).sz(),
                    q,
                ) == cell_at(old(self).cells(), old(self).sz(), q) || cell_at(
                    final(self).cells(),
                    old(self).sz(),
                    q,
                ) == EMPTY),
            r is Ok ==> count_color(final(self).cells(), opp_u8(stone.to_u8())) <= count_color(
                old(self).cells(),
                opp_u8(stone.to_u8()),
            ),
            r is Ok && stone == Stone::Black ==> final(self).cap_black() == sat_add_usize(
                old(self).cap_black(),
                count_color(old(self).cells(), WHITE) - count_color(final(self).cells(), WHITE),
            ) && final(self).cap_white() == old(self).cap_white(),
            r is Ok && stone == Stone::White ==> final(self).cap_white() == sat_add_usize(
                old(self).cap_white(),
                count_color(old(self).cells(), BLACK) - count_color(final(self).cells(), BLACK),
            ) && final(self).cap_black() == old(self).cap_black(),
            (r is Ok && count_color(final(self).cells(), opp_u8(stone.to_u8())) == count_color(
                old(self).cells(),
                opp_u8(stone.to_u8()),
            )) ==> (cell_at(final(self).cells(), old(self).sz(), (x, y)) == EMPTY
                <==> !group_alive(
                old(self).cells().update(flat(old(self).sz(), (x, y)), stone.to_u8()),
                old(self).sz(),
                (x, y),
            )),
            (r is Ok && cell_at(final(self).cells(), old(self).sz(), (x, y)) != EMPTY)
                ==> group_alive(final(self).cells(), old(self).sz(), (x, y)),
            (r is Ok && no_dead_groups(old(self).cells(), old(self).sz())) ==> no_dead_groups(
                final(self).cells(),
                old(self).sz(),
            ),
            // the committed grid is exactly the placement outcome: captured
            // opposing groups emptied, the placed group emptied on
            // self-capture, every other cell kept
            r is Ok ==> final(self).cells() == place_result_grid(
                old(self).cells().update(flat(old(self).sz(), (x, y)), stone.to_u8()),
                old(self).sz(),
                stone.to_u8(),
                (x, y),
            ),
    {
        if x >= self.size || y >= self.size {
            return Err("Position out of bounds");
        }
        if self.get_raw(x, y) != EMPTY {
            return Err("Position already occupied");
        }
        let su = Self::stone_to_u8(stone);
        let ghost g0 = self.cells();
        let ghost size = self.sz();
        proof {
            lemma_cell_index_in_range(size, x as int, y as int);
        }
        self.write_cell(x, y, su);
        proof {
            lemma_count_color_update(g0, opp_u8(su), flat(size, (x, y)), su, g0.len() as int);
            assert(count_color(self.cells(), opp_u8(su)) == count_color(g0, opp_u8(su)));
            assert(cell_at(self.cells(), size, (x, y)) == su);
            if no_dead_groups(g0, size) {
                lemma_placement_dead_groups_touch(g0, self.cells(), size, (x, y), su);
            }
        }
        let ghost g1 = self.cells();
        let captured = self.check_captures(x, y, stone);
        proof {
            assert forall|q: (usize, usize)| in_bounds(size, q) && q != ((x, y)) implies (cell_at(
                self.cells(),
                size,
                q,
            ) == cell_at(g0, size, q) || cell_at(self.cells(), size, q) == EMPTY) by {
                lemma_cell_index_in_range(size, q.0 as int, q.1 as int);
                if flat(size, q) == flat(size, (x, y)) {
                    lemma_flat_injective(size, q, (x, y));
                }
            }
            let ghost outcome = place_result_grid(g1, size, su, (x, y));
            assert(outcome.len() == g1.len());
            assert forall|q: (usize, usize)| in_bounds(size, q) implies #[trigger] cell_at(
                self.cells(),
                size,
                q,
            ) == cell_at(outcome, size, q) by {
                lemma_cell_index_in_range(size, q.0 as int, q.1 as int);
                lemma_flat_coord(size, q);
                assert(outcome[flat(size, q)] == place_result_cell(g1, size, su, (x, y), q));
            }
            lemma_grid_from_cells(self.cells(), outcome, size);
        }
        match stone {
            Stone::Black => {
                self.captured = (self.captured.0.saturating_add(captured), self.captured.1);
            },
            Stone::White => {
                self.captured = (self.captured.0, self.captured.1.saturating_add(captured));
            },
        }
        Ok(())
    }
}

impl Board {
    /// The hash the position would have after a legal placement at `(x, y)`;
    /// `None` exactly when the move is illegal.
    pub fn would_result_in_hash(&self, x: usize, y: usize, stone: Stone) -> (r: Option<u64>)
        requires
            self.wf(),
        ensures
            r is Some <==> valid_move(self.cells(), self.sz(), x, y, stone.to_u8()),
            r matches Some(h) ==> h == xor_fold(
                place_result_grid(
                    self.cells().update(flat(self.sz(), (x, y)), stone.to_u8()),
                    self.sz(),
                    stone.to_u8(),
                    (x, y),
                ),
                self.kb(),
                self.kw(),
                self.cells().len() as int,
            ),
    {
        if !self.is_valid_move(x, y, stone) {
            return None;
        }
        let mut test_board = self.clone();
        match test_board.place_stone(x, y, stone) {
            Ok(_) => Some(test_board.get_hash()),
            Err(_) => {
                proof {
                    assert(false);
                }
                None
            },
        }
    }
}

impl Clone for Board {
    /// An independent value copy: every observable part of the board state is
    /// preserved.
    fn clone(&self) -> (r: Self)
        ensures
            r.sz() == self.sz(),
            r.cells() == self.cells(),
            r.cap_black() == self.cap_black(),
            r.cap_white() == self.cap_white(),
            r.hash_val() == self.hash_val(),
            r.kb() == self.kb(),
            r.kw() == self.kw(),
            r.wf() == self.wf(),
    {
        let r = Board {
            size: self.size,
            grid: self.grid.clone(),
            captured: self.captured,
            zobrist_table: self.zobrist_table.clone(),
            current_hash: self.current_hash,
        };
        proof {
            assert(r.grid@ =~= self.grid@);
        }
        r
    }
}

/// What well-formedness gives every caller: the grid is sized to the board,
/// every cell holds one of the three states, the key tables are sized alike,
/// and the position hash is the XOR of the keys of the occupied cells.
pub proof fn lemma_board_facts(b: &Board)
    requires
        b.wf(),
    ensures
        b.cells().len() == b.sz() * b.sz(),
        b.kb().len() == b.sz() * b.sz(),
        b.kw().len() == b.sz() * b.sz(),
        forall|j: int|
            0 <= j < b.cells().len() ==> (b.cells()[j] == EMPTY || b.cells()[j] == BLACK
                || b.cells()[j] == WHITE),
        b.hash_val() == xor_fold(b.cells(), b.kb(), b.kw(), b.cells().len() as int),
{
    crate::zobrist::lemma_table_sizes(&b.zobrist_table);
}

/// Distinct in-bounds coordinates have distinct row-major indices.
pub proof fn lemma_flat_injective(size: int, a: (usize, usize), b: (usize, usize))
    requires
        in_bounds(size, a),
        in_bounds(size, b),
        flat(size, a) == flat(size, b),
    ensures
        a == b,
{
    assert(a.1 == b.1 && a.0 == b.0) by (nonlinear_arith)
        requires
            a.0 < size && a.1 < size && b.0 < size && b.1 < size && a.1 * size + a.0 == b.1 * size
                + b.0,
    ;
    assert(a == (a.0, a.1));
    assert(b == (b.0, b.1));
}

} // verus!

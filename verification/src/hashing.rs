//! Zobrist hash of a whole board, and how it changes when cells change.
use vstd::prelude::*;
use crate::board::{Board, Grid, at, dx8, dy8, grid, grid_wf, in_board, opponent_of, set_at};
use crate::capture::{
    capture_dir, capture_list, captured_by, captures_of, lemma_not_captured_earlier, remove_captures,
    remove_first,
};
use crate::zobrist::Zobrist;

verus! {

/// Every cell is empty or holds a stone of player 1 or 2.
pub open spec fn cells_wf(g: Grid) -> bool {
    forall|y: int, x: int| 0 <= y < 19 && 0 <= x < 19 ==> #[trigger] at(g, y, x) <= 2
}

/// Whether every cell of the board is empty or holds a stone.
pub fn board_cells_ok(board: &Board) -> (r: bool)
    ensures r == cells_wf(grid(*board)),
{
    let ghost g = grid(*board);
    for y in 0..19usize
        invariant
            g == grid(*board),
            forall|yy: int, xx: int| 0 <= yy < y && 0 <= xx < 19 ==> #[trigger] at(g, yy, xx) <= 2,
    {
        for x in 0..19usize
            invariant
                g == grid(*board),
                y < 19,
                forall|yy: int, xx: int| 0 <= yy < y && 0 <= xx < 19 ==> #[trigger] at(g, yy, xx) <= 2,
                forall|xx: int| 0 <= xx < x ==> #[trigger] at(g, y as int, xx) <= 2,
        {
            if board[y][x] > 2 {
                assert(at(g, y as int, x as int) > 2);
                return false;
            }
        }
    }
    true
}

/// Key contributed by the cell of index `i` (row-major): 0 when empty.
pub open spec fn cell_key(z: Zobrist, g: Grid, i: int) -> u64 {
    let y = i / 19;
    let x = i % 19;
    let v = at(g, y, x);
    if v == 1 || v == 2 { z.key(x, y, v as int) } else { 0 }
}

/// Exclusive or of the keys of the first `n` cells.
pub open spec fn hash_prefix(z: Zobrist, g: Grid, n: int) -> u64
    decreases n,
{
    if n <= 0 { 0 } else { hash_prefix(z, g, n - 1) ^ cell_key(z, g, n - 1) }
}

/// The Zobrist hash of a board: the exclusive or of the keys of its stones.
pub open spec fn board_hash(z: Zobrist, g: Grid) -> u64 {
    hash_prefix(z, g, 361)
}

/// Exclusive or of the keys of player `p` on the listed cells `(x, y)`.
pub open spec fn xor_keys(z: Zobrist, cells: Seq<(usize, usize)>, p: u8) -> u64
    decreases cells.len(),
{
    if cells.len() == 0 {
        0
    } else {
        xor_keys(z, cells.drop_last(), p) ^ z.key(
            cells.last().0 as int,
            cells.last().1 as int,
            p as int,
        )
    }
}

/// Exclusive or is associative and commutative, with 0 as identity and each value its own inverse.
pub proof fn lemma_xor_facts(a: u64, b: u64, c: u64)
    ensures
        (a ^ b) ^ c == a ^ (b ^ c),
        a ^ b == b ^ a,
        a ^ 0 == a,
        a ^ a == 0,
{
    assert((a ^ b) ^ c == a ^ (b ^ c)) by (bit_vector);
    assert(a ^ b == b ^ a) by (bit_vector);
    assert(a ^ 0 == a) by (bit_vector);
    assert(a ^ a == 0) by (bit_vector);
}

/// Two grids that differ in one cell only: their hash prefixes differ by that
/// cell's two keys.
pub proof fn lemma_hash_one_cell(z: Zobrist, g1: Grid, g2: Grid, k: int, n: int)
    requires
        0 <= k < 361,
        0 <= n <= 361,
        forall|i: int| 0 <= i < 361 && i != k ==> cell_key(z, g1, i) == cell_key(z, g2, i),
    ensures
        hash_prefix(z, g2, n) == hash_prefix(z, g1, n) ^ (if k < n {
            cell_key(z, g1, k) ^ cell_key(z, g2, k)
        } else {
            0
        }),
    decreases n,
{
    if n > 0 {
        lemma_hash_one_cell(z, g1, g2, k, n - 1);
        let a = hash_prefix(z, g1, n - 1);
        let c1 = cell_key(z, g1, n - 1);
        let c2 = cell_key(z, g2, n - 1);
        let d = cell_key(z, g1, k) ^ cell_key(z, g2, k);
        if k < n - 1 {
            assert(c1 == c2);
            assert((a ^ d) ^ c1 == (a ^ c1) ^ d) by (bit_vector);
        } else if k == n - 1 {
            assert((a ^ 0) ^ c2 == (a ^ c1) ^ (c1 ^ c2)) by (bit_vector);
        } else {
            assert(c1 == c2);
            assert((a ^ 0) ^ c1 == (a ^ c1) ^ 0) by (bit_vector);
        }
    } else {
        assert(0u64 ^ 0u64 == 0u64) by (bit_vector);
    }
}

/// Setting one cell changes the hash by that cell's old and new keys.
pub proof fn lemma_hash_set_cell(z: Zobrist, g: Grid, y: int, x: int, v: u8)
    requires
        grid_wf(g),
        0 <= y < 19,
        0 <= x < 19,
    ensures
        board_hash(z, set_at(g, y, x, v)) == board_hash(z, g) ^ (cell_key(z, g, y * 19 + x)
            ^ cell_key(z, set_at(g, y, x, v), y * 19 + x)),
{
    let g2 = set_at(g, y, x, v);
    let k = y * 19 + x;
    assert forall|i: int| 0 <= i < 361 && i != k implies cell_key(z, g, i) == cell_key(z, g2, i) by {
        assert(i / 19 != y || i % 19 != x);
    }
    lemma_hash_one_cell(z, g, g2, k, 361);
}

/// Row-major index arithmetic.
pub proof fn lemma_index(y: int, x: int)
    requires 0 <= y < 19, 0 <= x < 19,
    ensures (y * 19 + x) / 19 == y, (y * 19 + x) % 19 == x, 0 <= y * 19 + x < 361,
{
}

/// Removing the stones captured in the first `n` directions toggles their keys in the hash.
proof fn lemma_hash_remove_first(z: Zobrist, g: Grid, y: int, x: int, n: int)
    requires
        grid_wf(g),
        in_board(y, x),
        0 <= n <= 8,
    ensures
        board_hash(z, remove_first(g, y, x, n)) == board_hash(z, g) ^ xor_keys(
            z,
            capture_list(g, y, x, n),
            opponent_of(at(g, y, x)),
        ),
    decreases n,
{
    let o = opponent_of(at(g, y, x));
    if n == 0 {
        assert(remove_first(g, y, x, 0) =~= g) by {
            assert forall|r: int| 0 <= r < 19 implies #[trigger] remove_first(g, y, x, 0)[r] =~= g[r] by {}
        }
        lemma_xor_facts(board_hash(z, g), 0, 0);
    } else {
        let k = n - 1;
        lemma_hash_remove_first(z, g, y, x, k);
        let rf = remove_first(g, y, x, k);
        if !capture_dir(g, y, x, k) {
            assert(remove_first(g, y, x, n) =~= rf) by {
                assert forall|r: int| 0 <= r < 19 implies #[trigger] remove_first(g, y, x, n)[r] =~= rf[r] by {}
            }
        } else {
            let y1 = y + dy8(k);
            let x1 = x + dx8(k);
            let y2 = y + 2 * dy8(k);
            let x2 = x + 2 * dx8(k);
            lemma_not_captured_earlier(g, y, x, k, 1, k);
            lemma_not_captured_earlier(g, y, x, k, 2, k);
            let rf1 = set_at(rf, y1, x1, 0);
            let rf2 = set_at(rf1, y2, x2, 0);
            assert(remove_first(g, y, x, n) =~= rf2) by {
                assert forall|r: int| 0 <= r < 19 implies #[trigger] remove_first(g, y, x, n)[r] =~= rf2[r] by {}
            }
            lemma_index(y1, x1);
            lemma_index(y2, x2);
            lemma_hash_set_cell(z, rf, y1, x1, 0);
            lemma_hash_set_cell(z, rf1, y2, x2, 0);
            let k1 = z.key(x1, y1, o as int);
            let k2 = z.key(x2, y2, o as int);
            assert(cell_key(z, rf, y1 * 19 + x1) == k1);
            assert(cell_key(z, rf1, y1 * 19 + x1) == 0);
            assert(cell_key(z, rf1, y2 * 19 + x2) == k2);
            assert(cell_key(z, rf2, y2 * 19 + x2) == 0);
            let l = capture_list(g, y, x, n);
            assert(l.drop_last().drop_last() =~= capture_list(g, y, x, k));
            assert(l.drop_last() =~= capture_list(g, y, x, k).push((x1 as usize, y1 as usize)));
            assert(in_board(y + 3 * dy8(k), x + 3 * dx8(k)));
            assert(l.last() == (x2 as usize, y2 as usize));
            assert(l.drop_last().last() == (x1 as usize, y1 as usize));
            assert(xor_keys(z, l, o) == xor_keys(z, l.drop_last(), o) ^ k2);
            assert(xor_keys(z, l.drop_last(), o) == xor_keys(z, capture_list(g, y, x, k), o) ^ k1);
            let h = board_hash(z, g);
            let xk = xor_keys(z, capture_list(g, y, x, k), o);
            assert(((h ^ xk) ^ (k1 ^ 0)) ^ (k2 ^ 0) == h ^ ((xk ^ k1) ^ k2)) by (bit_vector);
        }
    }
}

/// Removing the stones that the stone at `(y, x)` captures toggles their keys
/// (as stones of the opponent) in the hash.
pub proof fn lemma_hash_remove_captures(z: Zobrist, g: Grid, y: int, x: int)
    requires
        grid_wf(g),
        in_board(y, x),
    ensures
        board_hash(z, remove_captures(g, y, x)) == board_hash(z, g) ^ xor_keys(
            z,
            captures_of(g, y, x),
            opponent_of(at(g, y, x)),
        ),
{
    lemma_hash_remove_first(z, g, y, x, 8);
    assert(remove_first(g, y, x, 8) =~= remove_captures(g, y, x)) by {
        assert forall|r: int| 0 <= r < 19 implies #[trigger] remove_first(g, y, x, 8)[r]
            =~= remove_captures(g, y, x)[r] by {}
    }
}

/// The Zobrist hash of a board.
pub fn compute_hash(board: &Board, zobrist: &Zobrist) -> (h: u64)
    requires cells_wf(grid(*board)),
    ensures h == board_hash(*zobrist, grid(*board)),
{
    let mut hash: u64 = 0;
    for i in 0..361
        invariant
            cells_wf(grid(*board)),
            hash == hash_prefix(*zobrist, grid(*board), i as int),
    {
        let y = i / 19;
        let x = i % 19;
        let cell = board[y][x];
        if cell != 0 {
            assert(at(grid(*board), y as int, x as int) <= 2);
            hash = hash ^ zobrist.get_value(x, y, cell);
        } else {
            proof {
                lemma_xor_facts(hash, 0, 0);
            }
        }
    }
    hash
}

} // verus!

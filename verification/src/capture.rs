//! Captures: a stone placed so that it encloses exactly two enemy stones on a
//! line, with a stone of its own on the far side, removes the two enemy stones.
use vstd::prelude::*;
use crate::board::{
    Board, Grid, at, dir8, dx8, dy8, grid, in_board, is_in_board, opponent, opponent_of, put,
};

verus! {

/// Whether the stone at `(y, x)` captures in direction `k`: the next two cells hold
/// the opponent's stones and the third holds a stone of the same player.
pub open spec fn capture_dir(g: Grid, y: int, x: int, k: int) -> bool {
    let p = at(g, y, x);
    let o = opponent_of(p);
    let dy = dy8(k);
    let dx = dx8(k);
    &&& in_board(y + 3 * dy, x + 3 * dx)
    &&& at(g, y + dy, x + dx) == o
    &&& at(g, y + 2 * dy, x + 2 * dx) == o
    &&& at(g, y + 3 * dy, x + 3 * dx) == p
}

/// Whether `(r, c)` is among the stones captured in the first `n` directions.
pub open spec fn captured_by(g: Grid, y: int, x: int, r: int, c: int, n: int) -> bool
    decreases n,
{
    if n <= 0 {
        false
    } else {
        ||| captured_by(g, y, x, r, c, n - 1)
        ||| (capture_dir(g, y, x, n - 1) && ((r == y + dy8(n - 1) && c == x + dx8(n - 1)) || (r
            == y + 2 * dy8(n - 1) && c == x + 2 * dx8(n - 1))))
    }
}

/// Whether `(r, c)` is captured by the stone at `(y, x)`.
pub open spec fn is_captured(g: Grid, y: int, x: int, r: int, c: int) -> bool {
    captured_by(g, y, x, r, c, 8)
}

/// The coordinates `(x, y)` of the stones captured in the first `n` directions,
/// direction by direction, the nearer stone first.
pub open spec fn capture_list(g: Grid, y: int, x: int, n: int) -> Seq<(usize, usize)>
    decreases n,
{
    if n <= 0 {
        Seq::empty()
    } else if capture_dir(g, y, x, n - 1) {
        capture_list(g, y, x, n - 1).push(
            ((x + dx8(n - 1)) as usize, (y + dy8(n - 1)) as usize),
        ).push(((x + 2 * dx8(n - 1)) as usize, (y + 2 * dy8(n - 1)) as usize))
    } else {
        capture_list(g, y, x, n - 1)
    }
}

/// The stones captured by the stone at `(y, x)`.
pub open spec fn captures_of(g: Grid, y: int, x: int) -> Seq<(usize, usize)> {
    capture_list(g, y, x, 8)
}

/// The grid once the stones captured by the stone at `(y, x)` are removed.
pub open spec fn remove_captures(g: Grid, y: int, x: int) -> Grid {
    Seq::new(19, |r: int| Seq::new(19, |c: int| if is_captured(g, y, x, r, c) { 0u8 } else { g[r][c] }))
}

/// Partial removal: the stones captured in the first `n` directions are removed.
pub open spec fn remove_first(g: Grid, y: int, x: int, n: int) -> Grid {
    Seq::new(19, |r: int| Seq::new(19, |c: int| if captured_by(g, y, x, r, c, n) { 0u8 } else { g[r][c] }))
}

/// The cells one and two steps away along two different directions differ.
pub proof fn lemma_rays_disjoint(k1: int, k2: int)
    requires 0 <= k1 < 8, 0 <= k2 < 8, k1 != k2,
    ensures
        !(dy8(k1) == dy8(k2) && dx8(k1) == dx8(k2)),
        !(dy8(k1) == 2 * dy8(k2) && dx8(k1) == 2 * dx8(k2)),
        !(2 * dy8(k1) == dy8(k2) && 2 * dx8(k1) == dx8(k2)),
        !(2 * dy8(k1) == 2 * dy8(k2) && 2 * dx8(k1) == 2 * dx8(k2)),
{
}

/// A cell one or two steps away along direction `m` is not captured along the
/// directions before `n <= m`.
pub proof fn lemma_not_captured_earlier(g: Grid, y: int, x: int, m: int, j: int, n: int)
    requires 0 <= n <= m < 8, j == 1 || j == 2,
    ensures !captured_by(g, y, x, y + j * dy8(m), x + j * dx8(m), n),
    decreases n,
{
    if n > 0 {
        lemma_not_captured_earlier(g, y, x, m, j, n - 1);
        lemma_rays_disjoint(n - 1, m);
    }
}

/// The captured stones lie on the board, at distinct cells, each holding a stone
/// of the opponent of the stone at `(y, x)`, and they are exactly the cells
/// `captured_by` names.
pub proof fn lemma_capture_list(g: Grid, y: int, x: int, n: int)
    requires 0 <= n <= 8, in_board(y, x),
    ensures
        forall|i: int| 0 <= i < capture_list(g, y, x, n).len() ==> {
            let c = #[trigger] capture_list(g, y, x, n)[i];
            &&& in_board(c.1 as int, c.0 as int)
            &&& at(g, c.1 as int, c.0 as int) == opponent_of(at(g, y, x))
            &&& captured_by(g, y, x, c.1 as int, c.0 as int, n)
        },
        forall|i: int, j: int|
            0 <= i < j < capture_list(g, y, x, n).len() ==> capture_list(g, y, x, n)[i]
                != capture_list(g, y, x, n)[j],
    decreases n,
{
    if n > 0 {
        lemma_capture_list(g, y, x, n - 1);
        let l = capture_list(g, y, x, n - 1);
        let k = n - 1;
        if capture_dir(g, y, x, k) {
            let l2 = capture_list(g, y, x, n);
            lemma_not_captured_earlier(g, y, x, k, 1, k);
            lemma_not_captured_earlier(g, y, x, k, 2, k);
            assert forall|i: int| 0 <= i < l2.len() implies {
                let c = #[trigger] l2[i];
                &&& in_board(c.1 as int, c.0 as int)
                &&& at(g, c.1 as int, c.0 as int) == opponent_of(at(g, y, x))
                &&& captured_by(g, y, x, c.1 as int, c.0 as int, n)
            } by {
                if i < l.len() {
                    assert(l2[i] == l[i]);
                }
            }
            assert forall|i: int, j: int| 0 <= i < j < l2.len() implies l2[i] != l2[j] by {
                if j < l.len() {
                    assert(l2[i] == l[i] && l2[j] == l[j]);
                } else if i < l.len() {
                    assert(l2[i] == l[i]);
                    assert(captured_by(g, y, x, l[i].1 as int, l[i].0 as int, k));
                }
            }
        }
    }
}

/// At most two stones are captured per direction.
pub proof fn lemma_capture_list_len(g: Grid, y: int, x: int, n: int)
    requires 0 <= n,
    ensures capture_list(g, y, x, n).len() <= 2 * n,
    decreases n,
{
    if n > 0 {
        lemma_capture_list_len(g, y, x, n - 1);
    }
}

/// Whether the stone at `(y, x)` captures in direction `k`.
pub fn captures_in_direction(board: &Board, y: usize, x: usize, k: usize) -> (r: bool)
    requires y < 19, x < 19, k < 8,
    ensures r == capture_dir(grid(*board), y as int, x as int, k as int),
{
    let (dy, dx) = dir8(k);
    let p = board[y][x];
    let o = opponent(p);
    let y3 = y as i32 + 3 * dy;
    let x3 = x as i32 + 3 * dx;
    if !is_in_board(y3, x3) {
        return false;
    }
    let y1 = (y as i32 + dy) as usize;
    let x1 = (x as i32 + dx) as usize;
    let y2 = (y as i32 + 2 * dy) as usize;
    let x2 = (x as i32 + 2 * dx) as usize;
    board[y1][x1] == o && board[y2][x2] == o && board[y3 as usize][x3 as usize] == p
}

/// Removes the stones that the stone at `(y, x)` captures, and returns their
/// coordinates `(x, y)`.
pub fn apply_captures(board: &mut Board, y: usize, x: usize) -> (captured: Vec<(usize, usize)>)
    requires y < 19, x < 19,
    ensures
        grid(*final(board)) == remove_captures(grid(*old(board)), y as int, x as int),
        captured@ == captures_of(grid(*old(board)), y as int, x as int),
{
    let ghost g0 = grid(*board);
    let mut flags: Vec<bool> = Vec::new();
    for k in 0..8
        invariant
            grid(*board) == g0,
            y < 19, x < 19,
            flags@.len() == k,
            forall|j: int| 0 <= j < k ==> flags@[j] == capture_dir(g0, y as int, x as int, j),
    {
        let f = captures_in_direction(board, y, x, k);
        flags.push(f);
    }
    let mut captured: Vec<(usize, usize)> = Vec::new();
    assert(grid(*board) =~= remove_first(g0, y as int, x as int, 0)) by {
        assert forall|r: int| 0 <= r < 19 implies #[trigger] grid(*board)[r] =~= remove_first(
            g0,
            y as int,
            x as int,
            0,
        )[r] by {}
    }
    for k in 0..8
        invariant
            y < 19, x < 19,
            flags@.len() == 8,
            forall|j: int| 0 <= j < 8 ==> flags@[j] == capture_dir(g0, y as int, x as int, j),
            grid(*board) == remove_first(g0, y as int, x as int, k as int),
            captured@ == capture_list(g0, y as int, x as int, k as int),
    {
        if flags[k] {
            let (dy, dx) = dir8(k);
            let y1 = (y as i32 + dy) as usize;
            let x1 = (x as i32 + dx) as usize;
            let y2 = (y as i32 + 2 * dy) as usize;
            let x2 = (x as i32 + 2 * dx) as usize;
            put(board, y1, x1, 0);
            put(board, y2, x2, 0);
            captured.push((x1, y1));
            captured.push((x2, y2));
        }
        assert(grid(*board) =~= remove_first(g0, y as int, x as int, k + 1)) by {
            assert forall|r: int| 0 <= r < 19 implies #[trigger] grid(*board)[r] =~= remove_first(
                g0,
                y as int,
                x as int,
                k + 1,
            )[r] by {}
        }
    }
    assert(remove_first(g0, y as int, x as int, 8) =~= remove_captures(g0, y as int, x as int)) by {
        assert forall|r: int| 0 <= r < 19 implies #[trigger] remove_first(g0, y as int, x as int, 8)[r]
            =~= remove_captures(g0, y as int, x as int)[r] by {}
    }
    captured
}

} // verus!

//! The double-three rule: a move may not create two free threes at once.
//!
//! A free three through the new stone is, on one of the four axes, a window of
//! the line that reads `_XXX_`, `_XX_X_` or `_X_XX_` (`X` a stone of the player,
//! `_` an empty cell) once the stone is placed, with the new stone among the `X`.
use vstd::prelude::*;
use crate::board::{Board, Grid, at, dir8, dx8, dy8, grid, in_board, is_in_board, steps};

verus! {

/// What stands `t` steps from `(y, x)` along axis `a` once `p` is placed at
/// `(y, x)`: a cell's content, or 3 beyond the edge.
pub open spec fn virt(g: Grid, y: int, x: int, p: u8, a: int, t: int) -> int {
    let cy = y + steps(t, dy8(a));
    let cx = x + steps(t, dx8(a));
    if t == 0 {
        p as int
    } else if in_board(cy, cx) {
        at(g, cy, cx) as int
    } else {
        3
    }
}

/// Length of pattern `q`.
pub open spec fn pattern_len(q: int) -> int {
    if q == 0 { 5 } else { 6 }
}

/// Cell `i` of pattern `q`: 1 for a stone, 0 for an empty cell.
pub open spec fn pattern_cell(q: int, i: int) -> int {
    if q == 0 {
        if i == 0 || i == 4 { 0 } else { 1 }
    } else if q == 1 {
        if i == 0 || i == 3 || i == 5 { 0 } else { 1 }
    } else {
        if i == 0 || i == 2 || i == 5 { 0 } else { 1 }
    }
}

/// The window starting `s` steps from `(y, x)` along axis `a` reads pattern `q`,
/// and `(y, x)` is one of its stones.
pub open spec fn window_matches(g: Grid, y: int, x: int, p: u8, a: int, s: int, q: int) -> bool {
    &&& 0 <= -s < pattern_len(q)
    &&& pattern_cell(q, -s) == 1
    &&& forall|i: int|
        0 <= i < pattern_len(q) ==> #[trigger] virt(g, y, x, p, a, s + i) == (if pattern_cell(q, i)
            == 1 {
            p as int
        } else {
            0
        })
}

/// Placing `p` at `(y, x)` makes a free three along axis `a`.
pub open spec fn free_three(g: Grid, y: int, x: int, p: u8, a: int) -> bool {
    exists|s: int, q: int| 0 <= q < 3 && #[trigger] window_matches(g, y, x, p, a, s, q)
}

/// Number of the first `n` axes along which placing `p` at `(y, x)` makes a free three.
pub open spec fn free_three_count(g: Grid, y: int, x: int, p: u8, n: int) -> int
    decreases n,
{
    if n <= 0 {
        0
    } else {
        free_three_count(g, y, x, p, n - 1) + if free_three(g, y, x, p, n - 1) { 1int } else { 0 }
    }
}

/// Placing `p` at `(y, x)` makes two free threes or more.
pub open spec fn double_three(g: Grid, y: int, x: int, p: u8) -> bool {
    free_three_count(g, y, x, p, 4) >= 2
}

/// What stands `t` steps from `(y, x)` along axis `a` once `p` is placed there.
fn virt_cell(board: &Board, y: usize, x: usize, p: u8, a: usize, t: i32) -> (r: u8)
    requires y < 19, x < 19, a < 4, -6 <= t <= 6,
    ensures r as int == virt(grid(*board), y as int, x as int, p, a as int, t as int),
{
    let (dy, dx) = dir8(a);
    let sy = if dy == 1 { t } else if dy == -1 { -t } else { 0 };
    let sx = if dx == 1 { t } else if dx == -1 { -t } else { 0 };
    let cy = y as i32 + sy;
    let cx = x as i32 + sx;
    if t == 0 {
        p
    } else if is_in_board(cy, cx) {
        board[cy as usize][cx as usize]
    } else {
        3
    }
}

/// Whether the window starting `s` steps from `(y, x)` along axis `a` reads
/// pattern `q`, with `(y, x)` among its stones.
fn window_reads(board: &Board, y: usize, x: usize, p: u8, a: usize, s: i32, q: usize) -> (r: bool)
    requires y < 19, x < 19, a < 4, -5 <= s <= 0, q < 3,
    ensures r == window_matches(grid(*board), y as int, x as int, p, a as int, s as int, q as int),
{
    let len: i32 = if q == 0 { 5 } else { 6 };
    if -s >= len {
        return false;
    }
    let own = -s;
    let own_is_stone = if q == 0 {
        !(own == 0 || own == 4)
    } else if q == 1 {
        !(own == 0 || own == 3 || own == 5)
    } else {
        !(own == 0 || own == 2 || own == 5)
    };
    if !own_is_stone {
        return false;
    }
    let mut i: i32 = 0;
    while i < len
        invariant
            0 <= i <= len,
            len == pattern_len(q as int),
            y < 19, x < 19, a < 4, -5 <= s <= 0, q < 3,
            forall|j: int|
                0 <= j < i ==> #[trigger] virt(grid(*board), y as int, x as int, p, a as int, s + j)
                    == (if pattern_cell(q as int, j) == 1 {
                    p as int
                } else {
                    0
                }),
        decreases len - i,
    {
        let stone = if q == 0 {
            !(i == 0 || i == 4)
        } else if q == 1 {
            !(i == 0 || i == 3 || i == 5)
        } else {
            !(i == 0 || i == 2 || i == 5)
        };
        let want: u8 = if stone { p } else { 0 };
        let v = virt_cell(board, y, x, p, a, s + i);
        if v != want {
            return false;
        }
        i = i + 1;
    }
    true
}

/// Whether placing `p` at `(y, x)` makes a free three along axis `a`.
pub fn free_three_on_axis(board: &Board, y: usize, x: usize, p: u8, a: usize) -> (r: bool)
    requires y < 19, x < 19, a < 4,
    ensures r == free_three(grid(*board), y as int, x as int, p, a as int),
{
    let ghost g = grid(*board);
    for back in 0..6usize
        invariant
            y < 19, x < 19, a < 4,
            g == grid(*board),
            forall|s: int, q: int|
                -back < s <= 0 && 0 <= q < 3 ==> !#[trigger] window_matches(g, y as int, x as int, p, a as int, s, q),
    {
        for q in 0..3usize
            invariant
                y < 19, x < 19, a < 4, back < 6,
                g == grid(*board),
                forall|s: int, q2: int|
                    -back < s <= 0 && 0 <= q2 < 3 ==> !#[trigger] window_matches(g, y as int, x as int, p, a as int, s, q2),
                forall|q2: int|
                    0 <= q2 < q ==> !#[trigger] window_matches(g, y as int, x as int, p, a as int, -back, q2),
        {
            if window_reads(board, y, x, p, a, -(back as i32), q) {
                return true;
            }
        }
    }
    assert forall|s: int, q: int| 0 <= q < 3 implies !#[trigger] window_matches(g, y as int, x as int, p, a as int, s, q) by {
        if s < -5 || s > 0 {
            assert(!(0 <= -s < pattern_len(q)));
        }
    }
    false
}

/// Whether placing `player` at `(y, x)` makes two free threes or more.
pub fn is_double_three(board: &Board, y: usize, x: usize, player: u8) -> (r: bool)
    requires y < 19, x < 19,
    ensures r == double_three(grid(*board), y as int, x as int, player),
{
    let mut count: u32 = 0;
    for a in 0..4
        invariant
            y < 19, x < 19,
            count as int == free_three_count(grid(*board), y as int, x as int, player, a as int),
            count <= a,
    {
        if free_three_on_axis(board, y, x, player, a) {
            count = count + 1;
        }
    }
    count >= 2
}

} // verus!

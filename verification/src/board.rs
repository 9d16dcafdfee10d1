//! The 19x19 board, its mathematical view and the geometry shared by the rules.
use vstd::prelude::*;

verus! {

/// Side length of the board.
pub const SIZE: usize = 19;

/// A board: `board[y][x]` is 0 for an empty cell, or the number of the player
/// whose stone stands there.
pub type Board = [[u8; 19]; 19];

/// The board as a grid of rows.
pub type Grid = Seq<Seq<u8>>;

/// Mathematical view of a board.
pub open spec fn grid(b: Board) -> Grid {
    Seq::new(19, |y: int| b[y]@)
}

/// The cell `(y, x)` of a grid.
pub open spec fn at(g: Grid, y: int, x: int) -> u8 {
    g[y][x]
}

/// A grid of 19 rows of 19 cells.
pub open spec fn grid_wf(g: Grid) -> bool {
    &&& g.len() == 19
    &&& forall|y: int| 0 <= y < 19 ==> #[trigger] g[y].len() == 19
}

/// The grid in which cell `(y, x)` holds `v`.
pub open spec fn set_at(g: Grid, y: int, x: int, v: u8) -> Grid {
    g.update(y, g[y].update(x, v))
}

/// The empty grid.
pub open spec fn empty_grid() -> Grid {
    Seq::new(19, |y: int| Seq::new(19, |x: int| 0u8))
}

/// Whether `(y, x)` lies on the board.
pub open spec fn in_board(y: int, x: int) -> bool {
    0 <= y < 19 && 0 <= x < 19
}

/// The other player: 2 for player 1, and 1 otherwise.
pub open spec fn opponent_of(p: u8) -> u8 {
    if p == 1 { 2 } else { 1 }
}

/// The grid of a board has 19 rows of 19 cells.
pub proof fn lemma_grid_wf(b: Board)
    ensures grid_wf(grid(b)),
{
}

/// Row step of the `k`-th of the eight directions; the first four are the four
/// axes of the board.
pub open spec fn dy8(k: int) -> int {
    if k == 0 { 0 } else if k == 1 { 1 } else if k == 2 { 1 } else if k == 3 { 1 }
    else if k == 4 { 0 } else if k == 5 { -1 } else if k == 6 { -1 } else { -1 }
}

/// Column step of the `k`-th of the eight directions.
pub open spec fn dx8(k: int) -> int {
    if k == 0 { 1 } else if k == 1 { 0 } else if k == 2 { 1 } else if k == 3 { -1 }
    else if k == 4 { -1 } else if k == 5 { 0 } else if k == 6 { -1 } else { 1 }
}

/// The `k`-th of the eight directions, as `(dy, dx)`.
pub fn dir8(k: usize) -> (r: (i32, i32))
    requires k < 8,
    ensures r.0 == dy8(k as int), r.1 == dx8(k as int),
{
    if k == 0 { (0, 1) } else if k == 1 { (1, 0) } else if k == 2 { (1, 1) } else if k == 3 { (1, -1) }
    else if k == 4 { (0, -1) } else if k == 5 { (-1, 0) } else if k == 6 { (-1, -1) } else { (-1, 1) }
}

/// `t` steps of size `d` (`d` is -1, 0 or 1).
pub open spec fn steps(t: int, d: int) -> int {
    if d == 1 { t } else if d == -1 { -t } else { 0 }
}

/// Whether `(y, x)` lies on the board.
pub fn is_in_board(y: i32, x: i32) -> (r: bool)
    ensures r == in_board(y as int, x as int),
{
    y >= 0 && y < 19 && x >= 0 && x < 19
}

/// The other player.
pub fn opponent(p: u8) -> (r: u8)
    ensures r == opponent_of(p),
{
    if p == 1 { 2 } else { 1 }
}

/// Reads the cell `(y, x)`.
pub fn cell(board: &Board, y: usize, x: usize) -> (r: u8)
    requires y < 19, x < 19,
    ensures r == at(grid(*board), y as int, x as int),
{
    board[y][x]
}

/// Writes `v` into the cell `(y, x)`.
pub fn put(board: &mut Board, y: usize, x: usize, v: u8)
    requires y < 19, x < 19,
    ensures grid(*final(board)) == set_at(grid(*old(board)), y as int, x as int, v),
{
    board[y][x] = v;
    assert(grid(*board) =~= set_at(grid(*old(board)), y as int, x as int, v));
}

/// An empty board.
pub fn new_board() -> (b: Board)
    ensures grid(b) == empty_grid(),
{
    let b = [[0u8; 19]; 19];
    assert(grid(b) =~= empty_grid()) by {
        assert forall|y: int| 0 <= y < 19 implies #[trigger] grid(b)[y] =~= empty_grid()[y] by {}
    }
    b
}

} // verus!

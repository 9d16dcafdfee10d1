//! Static evaluation of positions: line patterns, capture progress and capture
//! threats, scored from black's (player 1's) point of view.
use vstd::prelude::*;
use crate::board::{Board, Grid, at, grid, in_board, is_in_board, opponent_of};
use crate::game_state::GameState;

verus! {

/// Value of a pair of enemy stones that a stone of ours could capture.
pub const CAPTURE_THREAT: i32 = 6_000_000;
/// Penalty for a stone that leaves a pair of ours open to capture.
pub const VULNERABLE_PENALTY: i32 = 4_000_000;

/// Five in a row.
pub const FIVE: i32 = 99_000_000;
/// Four with both ends open.
pub const OPEN_FOUR: i32 = 55_000_000;
/// Four with one end open, or a broken four.
pub const FOUR: i32 = 14_000_000;
/// Three with both ends open.
pub const OPEN_THREE: i32 = 3_000_000;
/// Three with one end open.
pub const THREE: i32 = 600_000;
/// Two with both ends open.
pub const OPEN_TWO: i32 = 40_000;
/// Two with one end open.
pub const TWO: i32 = 15_000;

/// How a cell reads for player `p`: 1 for its stone, 0 for empty, 2 for anything else.
pub open spec fn code_spec(cell: u8, p: u8) -> u8 {
    if cell == p { 1 } else if cell == 0 { 0 } else { 2 }
}

/// How a cell reads for player `p`: 1 for its stone, 0 for empty, 2 for anything else.
pub fn code_of(cell: u8, p: u8) -> (r: u8)
    ensures r == code_spec(cell, p),
{
    if cell == p {
        1
    } else if cell == 0 {
        0
    } else {
        2
    }
}

/// Number of consecutive 1s in `line` from index `j` on.
pub open spec fn ones_from(line: Seq<u8>, j: int) -> int
    decreases line.len() - j,
{
    if 0 <= j < line.len() && line[j] == 1 { 1 + ones_from(line, j + 1) } else { 0 }
}

/// Number of consecutive 1s in `line` just before index `z`.
pub open spec fn ones_before(line: Seq<u8>, z: int) -> int
    decreases z,
{
    if 0 < z <= line.len() && line[z - 1] == 1 { 1 + ones_before(line, z - 1) } else { 0 }
}

/// Value of the run of stones that starts at index 1, from its length and
/// what bounds it (0 open, 2 blocked; the end of the line blocks).
pub open spec fn run_value(line: Seq<u8>) -> int {
    let run = ones_from(line, 1);
    let pre = line[0];
    let post = if 1 + run < line.len() { line[1 + run] } else { 2u8 };
    if run == 4 {
        if pre == 0 && post == 0 { OPEN_FOUR as int } else if pre == 2 && post == 2 { THREE as int } else { FOUR as int }
    } else if run == 3 {
        if pre == 0 && post == 0 { OPEN_THREE as int } else if pre == 2 && post == 2 { TWO as int } else { THREE as int }
    } else if run == 2 {
        if pre == 0 && post == 0 { OPEN_TWO as int } else { TWO as int }
    } else {
        0
    }
}

/// Value of filling the empty cell `z`: five or more joined stones count as a
/// four, four joined stones as a three, open if both ends are empty.
pub open spec fn gap_value(line: Seq<u8>, z: int) -> int {
    if line[z] != 0 {
        0
    } else {
        let left = ones_before(line, z);
        let right = ones_from(line, z + 1);
        let total = left + 1 + right;
        if total >= 5 {
            FOUR as int
        } else if total == 4 {
            let start = z - left;
            let end = z + right;
            let left_open = start > 0 && line[start - 1] == 0;
            let right_open = end + 1 < line.len() && line[end + 1] == 0;
            if left_open && right_open { OPEN_THREE as int } else { THREE as int }
        } else {
            0
        }
    }
}

/// Best gap value among indices `1..k`, and 0.
pub open spec fn gaps_best(line: Seq<u8>, k: int) -> int
    decreases k,
{
    if k <= 1 {
        0
    } else {
        let a = gaps_best(line, k - 1);
        let b = gap_value(line, k - 1);
        if a >= b { a } else { b }
    }
}

/// Value of a line of cell codes whose index 0 is the cell before a run of
/// stones starting at index 1: nothing if there is no such run; a five if the run
/// has five stones or more; otherwise the best of the run's value and the gaps'.
pub open spec fn line_value(line: Seq<u8>) -> int {
    if line.len() < 2 || line[1] != 1 {
        0
    } else if ones_from(line, 1) >= 5 {
        FIVE as int
    } else {
        let a = run_value(line);
        let b = gaps_best(line, line.len() as int);
        if a >= b { a } else { b }
    }
}

/// A run counted from `j` is non-negative and stays inside the line.
pub proof fn lemma_ones_from_bound(line: Seq<u8>, j: int)
    requires 0 <= j,
    ensures 0 <= ones_from(line, j), j + ones_from(line, j) <= line.len() || ones_from(line, j) == 0,
    decreases line.len() - j,
{
    if 0 <= j < line.len() && line[j] == 1 {
        lemma_ones_from_bound(line, j + 1);
    }
}

/// A run counted back from `z` is non-negative and starts inside the line.
pub proof fn lemma_ones_before_bound(line: Seq<u8>, z: int)
    ensures 0 <= ones_before(line, z), ones_before(line, z) <= z || ones_before(line, z) == 0,
    decreases z,
{
    if 0 < z <= line.len() && line[z - 1] == 1 {
        lemma_ones_before_bound(line, z - 1);
    }
}

/// The best gap value lies between 0 and a four's.
pub proof fn lemma_gaps_best_bound(line: Seq<u8>, k: int)
    ensures 0 <= gaps_best(line, k) <= FOUR,
    decreases k,
{
    if k > 1 {
        lemma_gaps_best_bound(line, k - 1);
    }
}

/// A line's value lies between 0 and a five's.
pub proof fn lemma_line_value_bound(line: Seq<u8>)
    ensures 0 <= line_value(line) <= FIVE,
{
    lemma_gaps_best_bound(line, line.len() as int);
}

/// Value of a line of cell codes (see `line_value`).
pub fn classify_line(line: &[u8]) -> (r: i32)
    ensures r == line_value(line@),
{
    let n = line.len();
    if n < 2 || line[1] != 1 {
        return 0;
    }
    let mut run: usize = 0;
    while 1 + run < n && line[1 + run] == 1
        invariant
            n == line@.len(),
            2 <= n,
            1 + run <= n,
            ones_from(line@, 1) == run + ones_from(line@, 1 + run),
        decreases n - run,
    {
        run = run + 1;
    }
    proof {
        lemma_ones_from_bound(line@, 1);
    }
    if run >= 5 {
        return FIVE;
    }
    let pre = line[0];
    let post = if 1 + run < n { line[1 + run] } else { 2 };
    let mut best: i32 = 0;
    if run == 4 {
        best = if pre == 0 && post == 0 { OPEN_FOUR } else if pre == 2 && post == 2 { THREE } else { FOUR };
    } else if run == 3 {
        best = if pre == 0 && post == 0 { OPEN_THREE } else if pre == 2 && post == 2 { TWO } else { THREE };
    } else if run == 2 {
        best = if pre == 0 && post == 0 { OPEN_TWO } else { TWO };
    }
    assert(best == run_value(line@));
    let ghost base = best as int;
    for z in 1..n
        invariant
            n == line@.len(),
            base == run_value(line@),
            0 <= base,
            best == (if base >= gaps_best(line@, z as int) { base } else { gaps_best(line@, z as int) }),
    {
        if line[z] == 0 {
            let mut left: usize = 0;
            let mut i = z;
            while i > 0 && line[i - 1] == 1
                invariant
                    n == line@.len(),
                    1 <= z < n,
                    i <= z,
                    left == z - i,
                    ones_before(line@, z as int) == left + ones_before(line@, i as int),
                decreases i,
            {
                left = left + 1;
                i = i - 1;
            }
            let mut right: usize = 0;
            let mut j = z + 1;
            while j < n && line[j] == 1
                invariant
                    n == line@.len(),
                    1 <= z < n,
                    z + 1 <= j <= n,
                    right == j - (z + 1),
                    ones_from(line@, z + 1) == right + ones_from(line@, j as int),
                decreases n - j,
            {
                right = right + 1;
                j = j + 1;
            }
            let total = left + 1 + right;
            let v = if total >= 5 {
                FOUR
            } else if total == 4 {
                let start = z - left;
                let end = z + right;
                let left_open = start > 0 && line[start - 1] == 0;
                let right_open = end + 1 < n && line[end + 1] == 0;
                if left_open && right_open { OPEN_THREE } else { THREE }
            } else {
                0
            };
            assert(v == gap_value(line@, z as int));
            if v > best {
                best = v;
            }
        }
        assert(gaps_best(line@, z + 1) == if gaps_best(line@, z as int) >= gap_value(line@, z as int) {
            gaps_best(line@, z as int)
        } else {
            gap_value(line@, z as int)
        });
    }
    best
}

/// Score for a capture count: grows with the square of the count, up to ten.
pub open spec fn capture_progress_value(caps: u32) -> int {
    let c = if caps < 10 { caps as int } else { 10 };
    let v = c * (1_500_000 + c * 400_000);
    if v < FIVE { v } else { FIVE as int }
}

/// Score for a capture count.
pub fn capture_progress(caps: u32) -> (r: i32)
    ensures r == capture_progress_value(caps), 0 <= r <= 55_000_000,
{
    let c: i32 = if caps < 10 { caps as i32 } else { 10 };
    assert(0 <= c * (1_500_000 + c * 400_000) <= 55_000_000) by (nonlinear_arith)
        requires 0 <= c <= 10;
    let v = c * (1_500_000 + c * 400_000);
    if v < FIVE { v } else { FIVE }
}

/// Column step of the `k`-th of the four evaluation directions.
pub open spec fn edx(k: int) -> int {
    if k == 1 { 0 } else { 1 }
}

/// Row step of the `k`-th of the four evaluation directions.
pub open spec fn edy(k: int) -> int {
    if k == 0 { 0 } else if k == 3 { -1 } else { 1 }
}

/// The `k`-th of the four evaluation directions, as `(dx, dy)`: right, down,
/// down-right, up-right.
pub fn edir(k: usize) -> (r: (i32, i32))
    requires k < 4,
    ensures r.0 == edx(k as int), r.1 == edy(k as int),
{
    if k == 0 { (1, 0) } else if k == 1 { (0, 1) } else if k == 2 { (1, 1) } else { (1, -1) }
}

/// How the cell `(cy, cx)` reads for `p`, the edge reading as blocked.
pub open spec fn edge_code(g: Grid, cx: int, cy: int, p: u8) -> u8 {
    if in_board(cy, cx) { code_spec(at(g, cy, cx), p) } else { 2u8 }
}

/// The codes of up to `k` cells from `(cy, cx)` on, stepping `(dy, dx)`, up to and
/// including the first blocked one.
pub open spec fn run_walk(g: Grid, cx: int, cy: int, dx: int, dy: int, p: u8, k: nat) -> Seq<u8>
    decreases k,
{
    if k == 0 {
        Seq::empty()
    } else {
        let c = edge_code(g, cx, cy, p);
        if c == 2 {
            seq![2u8]
        } else {
            seq![c] + run_walk(g, cx + dx, cy + dy, dx, dy, p, (k - 1) as nat)
        }
    }
}

/// The line read from `(y, x)` in direction `(dx, dy)`: the cell before it, then
/// up to nine cells from it on.
pub open spec fn run_line(g: Grid, x: int, y: int, dx: int, dy: int, p: u8) -> Seq<u8> {
    seq![edge_code(g, x - dx, y - dy, p)] + run_walk(g, x, y, dx, dy, p, 9)
}

/// A walk of `k` steps reads at most `k` cells.
pub proof fn lemma_run_walk_len(g: Grid, cx: int, cy: int, dx: int, dy: int, p: u8, k: nat)
    ensures run_walk(g, cx, cy, dx, dy, p, k).len() <= k,
    decreases k,
{
    if k > 0 {
        lemma_run_walk_len(g, cx + dx, cy + dy, dx, dy, p, (k - 1) as nat);
    }
}

/// Value of the line of `p`'s stones read from `(y, x)` in direction `(dx, dy)`.
pub fn classify_run(board: &Board, x: usize, y: usize, dx: i32, dy: i32, p: u8) -> (r: i32)
    requires x < 19, y < 19, step_fits(dx), step_fits(dy),
    ensures
        r == line_value(run_line(grid(*board), x as int, y as int, dx as int, dy as int, p)),
        at(grid(*board), y as int, x as int) != p ==> r == 0,
{
    let ghost g = grid(*board);
    let ghost full = run_line(g, x as int, y as int, dx as int, dy as int, p);
    let mut line: Vec<u8> = Vec::new();
    let px = x as i32 - dx;
    let py = y as i32 - dy;
    let pre = if is_in_board(py, px) { code_of(board[py as usize][px as usize], p) } else { 2 };
    line.push(pre);
    let mut cx = x as i32;
    let mut cy = y as i32;
    let mut i: i32 = 0;
    let mut done = false;
    assert(line@ + run_walk(g, cx as int, cy as int, dx as int, dy as int, p, 9) =~= full);
    while i < 9 && !done
        invariant
            0 <= i <= 9,
            g == grid(*board),
            step_fits(dx), step_fits(dy),
            !done ==> line@ + run_walk(g, cx as int, cy as int, dx as int, dy as int, p, (9 - i) as nat) == full,
            done ==> line@ == full,
        decreases 2 * (9 - i) + if done { 0int } else { 1int },
    {
        let code = if is_in_board(cy, cx) { code_of(board[cy as usize][cx as usize], p) } else { 2 };
        line.push(code);
        if code == 2 {
            assert(line@ =~= full) by {
                assert(run_walk(g, cx as int, cy as int, dx as int, dy as int, p, (9 - i) as nat) =~= seq![2u8]);
            }
            done = true;
        } else {
            assert(line@ + run_walk(g, cx + dx, cy + dy, dx as int, dy as int, p, (9 - i - 1) as nat) =~= full);
            cx = cx + dx;
            cy = cy + dy;
            i = i + 1;
        }
    }
    if !done {
        assert(line@ =~= full);
    }
    classify_line(line.as_slice())
}

/// What stands at `(cy, cx)` once `p` is placed at `(py, px)`: 3 beyond the edge.
pub open spec fn placed_cell(g: Grid, px: int, py: int, p: u8, cx: int, cy: int) -> u8 {
    if cx == px && cy == py { p } else if in_board(cy, cx) { at(g, cy, cx) } else { 3u8 }
}

/// The codes of up to `k` cells from `(cy, cx)` on, once `p` is placed at
/// `(py, px)`, up to and including the first blocked one.
pub open spec fn placed_walk(g: Grid, px: int, py: int, p: u8, cx: int, cy: int, dx: int, dy: int, k: nat) -> Seq<u8>
    decreases k,
{
    if k == 0 {
        Seq::empty()
    } else {
        let c = code_spec(placed_cell(g, px, py, p, cx, cy), p);
        if c == 2 {
            seq![2u8]
        } else {
            seq![c] + placed_walk(g, px, py, p, cx + dx, cy + dy, dx, dy, (k - 1) as nat)
        }
    }
}

/// How many stones of `p` stand in a row behind `(sy, sx)`, stepping back by `(dy, dx)`.
pub open spec fn back_count(g: Grid, sx: int, sy: int, dx: int, dy: int, p: u8, fuel: nat) -> int
    decreases fuel,
{
    if fuel == 0 {
        0
    } else if in_board(sy - dy, sx - dx) && at(g, sy - dy, sx - dx) == p {
        1 + back_count(g, sx - dx, sy - dy, dx, dy, p, (fuel - 1) as nat)
    } else {
        0
    }
}

/// A count of stones is never negative.
pub proof fn lemma_back_count_nonneg(g: Grid, sx: int, sy: int, dx: int, dy: int, p: u8, fuel: nat)
    ensures back_count(g, sx, sy, dx, dy, p, fuel) >= 0,
    decreases fuel,
{
    if fuel > 0 {
        lemma_back_count_nonneg(g, sx - dx, sy - dy, dx, dy, p, (fuel - 1) as nat);
    }
}

/// The line through `(y, x)` in direction `(dx, dy)` once `p` is placed there: it
/// starts at the first of `p`'s stones joined to `(y, x)` from behind.
pub open spec fn placed_line(g: Grid, x: int, y: int, dx: int, dy: int, p: u8) -> Seq<u8> {
    let b = back_count(g, x, y, dx, dy, p, 20);
    let sx = x - b * dx;
    let sy = y - b * dy;
    seq![edge_code(g, sx - dx, sy - dy, p)] + placed_walk(g, x, y, p, sx, sy, dx, dy, 9)
}

/// A value of `i32`.
pub open spec fn fits_i32(v: int) -> bool {
    i32::MIN <= v <= i32::MAX
}

/// A step that can be added to, or taken from, a coordinate of the board
/// without leaving `i32`.
pub open spec fn step_fits(d: i32) -> bool {
    -(i32::MAX - 18) <= d <= i32::MAX - 18
}

/// The arithmetic of the walk along `(dy, dx)` through the stone placed at
/// `(y, x)` (coordinates read as `i32`) stays within `i32`: one step each way from
/// the placed cell, and steps from cells of the board; a player numbered 3,
/// which the edge reads as, may walk nine steps past the edge.
pub open spec fn walk_fits(x: int, y: int, dx: i32, dy: i32, p: u8) -> bool {
    &&& step_fits(dx)
    &&& step_fits(dy)
    &&& fits_i32(x - dx) && fits_i32(x + dx)
    &&& fits_i32(y - dy) && fits_i32(y + dy)
    &&& p == 3 ==> {
        &&& -(i32::MAX - 18) / 9 <= dx <= (i32::MAX - 18) / 9
        &&& -(i32::MAX - 18) / 9 <= dy <= (i32::MAX - 18) / 9
        &&& fits_i32(x + 9 * dx) && fits_i32(y + 9 * dy)
    }
}

/// Value, for `p`, of the line through `(y, x)` in direction `(dx, dy)` once `p`
/// is placed at `(y, x)`.
pub fn pattern_value_after_place(board: &[[u8; 19]; 19], x: usize, y: usize, dx: i32, dy: i32, p: u8) -> (r: i32)
    requires
        walk_fits((x as i32) as int, (y as i32) as int, dx, dy, p),
        !(dx == 0 && dy == 0 && in_board((y as i32) as int, (x as i32) as int) && at(grid(*board), (y as i32) as int, (x as i32) as int) == p),
    ensures
        r == line_value(placed_line(grid(*board), (x as i32) as int, (y as i32) as int, dx as int, dy as int, p)),
{
    let ghost g = grid(*board);
    let xi = x as i32;
    let yi = y as i32;
    let ghost gx = xi as int;
    let ghost gy = yi as int;
    let mut sx = xi;
    let mut sy = yi;
    let ghost mut b: int = 0;
    loop
        invariant_except_break
            g == grid(*board),
            walk_fits(gx, gy, dx, dy, p),
            !(dx == 0 && dy == 0 && in_board(gy, gx) && at(g, gy, gx) == p),
            0 <= b <= 19,
            sx == gx - b * dx,
            sy == gy - b * dy,
            b >= 1 ==> in_board(sy as int, sx as int) && in_board(gy - dy, gx - dx),
            back_count(g, gx, gy, dx as int, dy as int, p, 20) == b + back_count(
                g,
                sx as int,
                sy as int,
                dx as int,
                dy as int,
                p,
                (20 - b) as nat,
            ),
        ensures
            0 <= b <= 19,
            sx == gx - b * dx,
            sy == gy - b * dy,
            back_count(g, gx, gy, dx as int, dy as int, p, 20) == b,
            (b == 0 && sx == gx && sy == gy) || in_board(sy as int, sx as int),
        decreases (if dx > 0 { sx as int } else if dx < 0 { 18 - sx } else if dy > 0 { sy as int } else if dy < 0 { 18 - sy } else { 0 }),
    {
        let px = sx - dx;
        let py = sy - dy;
        if is_in_board(py, px) && board[py as usize][px as usize] == p {
            proof {
                assert(gx - (b + 1) * dx == gx - b * dx - dx) by (nonlinear_arith);
                assert(gy - (b + 1) * dy == gy - b * dy - dy) by (nonlinear_arith);
                if b == 0 {
                    assert(b * dx == 0 && b * dy == 0) by (nonlinear_arith) requires b == 0;
                }
                let nb = b + 1;
                if dx != 0 {
                    assert(nb <= 19) by (nonlinear_arith)
                        requires
                            dx != 0,
                            nb >= 1,
                            nb == 1 || (0 <= gx - dx <= 18 && 0 <= gx - nb * dx <= 18),
                            gx - nb * dx == (gx - dx) - (nb - 1) * dx;
                } else {
                    assert(nb <= 19) by (nonlinear_arith)
                        requires
                            dy != 0,
                            nb >= 1,
                            nb == 1 || (0 <= gy - dy <= 18 && 0 <= gy - nb * dy <= 18),
                            gy - nb * dy == (gy - dy) - (nb - 1) * dy;
                }
            }
            sx = px;
            sy = py;
            proof {
                b = b + 1;
            }
        } else {
            break;
        }
    }
    let ghost full = placed_line(g, gx, gy, dx as int, dy as int, p);
    let mut line: Vec<u8> = Vec::new();
    let px = sx - dx;
    let py = sy - dy;
    let pre = if is_in_board(py, px) { code_of(board[py as usize][px as usize], p) } else { 2 };
    line.push(pre);
    let mut cx = sx;
    let mut cy = sy;
    let mut i: i32 = 0;
    let mut done = false;
    assert(line@ + placed_walk(g, gx, gy, p, cx as int, cy as int, dx as int, dy as int, 9) =~= full);
    while i < 9 && !done
        invariant
            0 <= i <= 9,
            g == grid(*board),
            walk_fits(gx, gy, dx, dy, p),
            xi as int == gx, yi as int == gy,
            (sx == gx && sy == gy) || in_board(sy as int, sx as int),
            cx == sx + i * dx,
            cy == sy + i * dy,
            !done ==> line@ + placed_walk(g, gx, gy, p, cx as int, cy as int, dx as int, dy as int, (9 - i) as nat) == full,
            done ==> line@ == full,
        decreases 2 * (9 - i) + if done { 0int } else { 1int },
    {
        let cell = if cx == xi && cy == yi {
            p
        } else if is_in_board(cy, cx) {
            board[cy as usize][cx as usize]
        } else {
            3
        };
        let code = code_of(cell, p);
        line.push(code);
        if code == 2 {
            assert(line@ =~= full) by {
                assert(placed_walk(g, gx, gy, p, cx as int, cy as int, dx as int, dy as int, (9 - i) as nat) =~= seq![2u8]);
            }
            done = true;
        } else {
            proof {
                assert(cx + dx == sx + (i + 1) * dx && cy + dy == sy + (i + 1) * dy) by (nonlinear_arith)
                    requires cx == sx + i * dx, cy == sy + i * dy;
                if p == 3 && !(cx == gx && cy == gy) && !in_board(cy as int, cx as int) {
                    lemma_walk_within(sx as int, gx, dx as int, i + 1);
                    lemma_walk_within(sy as int, gy, dy as int, i + 1);
                }
            }
            assert(line@ + placed_walk(g, gx, gy, p, cx + dx, cy + dy, dx as int, dy as int, (9 - i - 1) as nat) =~= full);
            cx = cx + dx;
            cy = cy + dy;
            i = i + 1;
        }
    }
    if !done {
        assert(line@ =~= full);
    }
    classify_line(line.as_slice())
}

/// Up to nine steps of `d` from `s`, which is `x` or a coordinate of the board,
/// stay within `i32` when nine steps from `x` do and `d` is small.
proof fn lemma_walk_within(s: int, x: int, d: int, k: int)
    requires
        1 <= k <= 9,
        s == x || 0 <= s <= 18,
        -(i32::MAX - 18) / 9 <= d <= (i32::MAX - 18) / 9,
        fits_i32(x + 9 * d),
        fits_i32(x),
    ensures
        fits_i32(s + k * d),
{
    if s == x {
        assert(fits_i32(x + k * d)) by (nonlinear_arith)
            requires 1 <= k <= 9, fits_i32(x + 9 * d), fits_i32(x);
    } else {
        assert(fits_i32(s + k * d)) by (nonlinear_arith)
            requires 1 <= k <= 9, 0 <= s <= 18, -(i32::MAX - 18) / 9 <= d <= (i32::MAX - 18) / 9;
    }
}

/// Closeness to the centre: 2 at a corner, 20 at the centre.
pub open spec fn centrality(x: int, y: int) -> int {
    (10 - if 9 - x >= 0 { 9 - x } else { x - 9 }) + (10 - if 9 - y >= 0 { 9 - y } else { y - 9 })
}

/// Value of the run of `p` that starts at `(y, x)` in direction `k`: nothing when
/// `(y, x)` is inside a run (a stone of `p` stands just behind it).
pub open spec fn direction_value(g: Grid, p: u8, y: int, x: int, k: int) -> int {
    let dx = edx(k);
    let dy = edy(k);
    if in_board(y - dy, x - dx) && at(g, y - dy, x - dx) == p {
        0
    } else {
        line_value(run_line(g, x, y, dx, dy, p))
    }
}

/// Sum of `direction_value` over the first `n` directions.
pub open spec fn directions_value(g: Grid, p: u8, y: int, x: int, n: int) -> int
    decreases n,
{
    if n <= 0 { 0 } else { directions_value(g, p, y, x, n - 1) + direction_value(g, p, y, x, n - 1) }
}

/// Pattern value of cell `i` (row-major) for `p`: for a stone of `p`, thirty times
/// its centrality plus the value of the runs that start there.
pub open spec fn cell_pattern_value(g: Grid, p: u8, i: int) -> int {
    let y = i / 19;
    let x = i % 19;
    if at(g, y, x) != p { 0 } else { centrality(x, y) * 30 + directions_value(g, p, y, x, 4) }
}

/// Sum of `cell_pattern_value` over the first `n` cells.
pub open spec fn pattern_total(g: Grid, p: u8, n: int) -> int
    decreases n,
{
    if n <= 0 { 0 } else { pattern_total(g, p, n - 1) + cell_pattern_value(g, p, n - 1) }
}

/// `v` clamped into the range of `i32`.
pub open spec fn clamp_i32(v: int) -> int {
    if v < i32::MIN { i32::MIN as int } else if v > i32::MAX { i32::MAX as int } else { v }
}

/// Clamps into the range of `i32`.
pub fn clamp_to_i32(v: i64) -> (r: i32)
    ensures r == clamp_i32(v as int),
{
    if v < i32::MIN as i64 {
        i32::MIN
    } else if v > i32::MAX as i64 {
        i32::MAX
    } else {
        v as i32
    }
}

/// Largest `cell_pattern_value`.
pub open spec fn max_cell_value() -> int {
    600 + 4 * FIVE
}

/// The runs of `n` directions are worth between 0 and `n` fives.
pub proof fn lemma_directions_value_bound(g: Grid, p: u8, y: int, x: int, n: int)
    requires 0 <= n <= 4,
    ensures 0 <= directions_value(g, p, y, x, n) <= n * FIVE,
    decreases n,
{
    if n > 0 {
        lemma_directions_value_bound(g, p, y, x, n - 1);
        lemma_line_value_bound(run_line(g, x, y, edx(n - 1), edy(n - 1), p));
    }
}

/// Pattern score of player `p`: the sum of its cells' pattern values, clamped.
pub fn pattern_score(state: &GameState, p: u8) -> (r: i32)
    ensures r == clamp_i32(pattern_total(grid(state.board), p, 361)),
{
    let board = &state.board;
    let ghost g = grid(*board);
    let mut total: i64 = 0;
    for i in 0..361usize
        invariant
            g == grid(*board),
            board == &state.board,
            total == pattern_total(g, p, i as int),
            0 <= total <= i * max_cell_value(),
    {
        let y = i / 19;
        let x = i % 19;
        if board[y][x] == p {
            let c: i64 = ((10 - if 9 - (x as i32) >= 0 { 9 - x as i32 } else { x as i32 - 9 })
                + (10 - if 9 - (y as i32) >= 0 { 9 - y as i32 } else { y as i32 - 9 })) as i64;
            let mut cell_total: i64 = c * 30;
            for k in 0..4usize
                invariant
                    g == grid(*board),
                    y < 19, x < 19,
                    0 <= c <= 20,
                    cell_total == c * 30 + directions_value(g, p, y as int, x as int, k as int),
                    0 <= directions_value(g, p, y as int, x as int, k as int) <= k * FIVE,
            {
                let (dx, dy) = edir(k);
                let bx = x as i32 - dx;
                let by = y as i32 - dy;
                proof {
                    lemma_line_value_bound(run_line(g, x as int, y as int, dx as int, dy as int, p));
                }
                if !(is_in_board(by, bx) && board[by as usize][bx as usize] == p) {
                    let v = classify_run(board, x, y, dx, dy, p);
                    cell_total = cell_total + v as i64;
                }
            }
            assert(cell_total == cell_pattern_value(g, p, i as int));
            assert(0 <= cell_total <= max_cell_value());
            assert((i + 1) * max_cell_value() == i * max_cell_value() + max_cell_value()
                && (i + 1) * max_cell_value() <= 361 * max_cell_value()) by (nonlinear_arith)
                requires i < 361;
            total = total + cell_total;
        }
        assert(total == pattern_total(g, p, i + 1));
        assert(i * max_cell_value() <= (i + 1) * max_cell_value()) by (nonlinear_arith);
    }
    clamp_to_i32(total)
}

/// Number of capture threats on `(y, x)` in direction `k`, side `s` (1 or -1): a
/// stone of `p` followed by two enemy stones and an empty cell.
pub open spec fn threat_at(g: Grid, p: u8, y: int, x: int, k: int, s: int) -> int {
    let o = opponent_of(p);
    let dx = if s == 1 { edx(k) } else { -edx(k) };
    let dy = if s == 1 { edy(k) } else { -edy(k) };
    if in_board(y + 3 * dy, x + 3 * dx) && at(g, y + dy, x + dx) == o && at(g, y + 2 * dy, x + 2
        * dx) == o && at(g, y + 3 * dy, x + 3 * dx) == 0 {
        1
    } else {
        0
    }
}

/// Capture threats from `(y, x)` along the first `n` directions, both ways.
pub open spec fn threats_dirs(g: Grid, p: u8, y: int, x: int, n: int) -> int
    decreases n,
{
    if n <= 0 {
        0
    } else {
        threats_dirs(g, p, y, x, n - 1) + threat_at(g, p, y, x, n - 1, 1) + threat_at(
            g,
            p,
            y,
            x,
            n - 1,
            -1,
        )
    }
}

/// Capture threats of `p` from cell `i` (row-major).
pub open spec fn cell_threats(g: Grid, p: u8, i: int) -> int {
    let y = i / 19;
    let x = i % 19;
    if at(g, y, x) != p { 0 } else { threats_dirs(g, p, y, x, 4) }
}

/// Capture threats of `p` from the first `n` cells.
pub open spec fn threats_total(g: Grid, p: u8, n: int) -> int
    decreases n,
{
    if n <= 0 { 0 } else { threats_total(g, p, n - 1) + cell_threats(g, p, n - 1) }
}

/// Number of ways in which a stone of `p` could capture a pair of enemy stones
/// by playing on the empty cell beyond them.
pub fn count_capture_threats(board: &[[u8; 19]; 19], p: u8) -> (r: i32)
    ensures r == threats_total(grid(*board), p, 361), 0 <= r <= 361 * 8,
{
    let ghost g = grid(*board);
    let opp = if p == 1 { 2 } else { 1 };
    let mut count: i32 = 0;
    for i in 0..361usize
        invariant
            g == grid(*board),
            opp == opponent_of(p),
            count == threats_total(g, p, i as int),
            0 <= count <= i * 8,
    {
        let y = i / 19;
        let x = i % 19;
        if board[y][x] == p {
            let mut here: i32 = 0;
            for k in 0..4usize
                invariant
                    g == grid(*board),
                    opp == opponent_of(p),
                    y < 19, x < 19,
                    here == threats_dirs(g, p, y as int, x as int, k as int),
                    0 <= here <= 2 * k,
            {
                let (dx, dy) = edir(k);
                let mut sign: i32 = 1;
                while sign >= -1
                    invariant
                        g == grid(*board),
                        opp == opponent_of(p),
                        y < 19, x < 19, k < 4,
                        dx == edx(k as int), dy == edy(k as int),
                        sign == 1 || sign == -1 || sign == -3,
                        sign == 1 ==> here == threats_dirs(g, p, y as int, x as int, k as int),
                        sign == -1 ==> here == threats_dirs(g, p, y as int, x as int, k as int) + threat_at(g, p, y as int, x as int, k as int, 1),
                        sign == -3 ==> here == threats_dirs(g, p, y as int, x as int, k + 1),
                        0 <= here <= 2 * k + (if sign == 1 { 0int } else if sign == -1 { 1 } else { 2 }),
                    decreases sign + 3,
                {
                    let sdx = if sign == 1 { dx } else { -dx };
                    let sdy = if sign == 1 { dy } else { -dy };
                    let x1 = x as i32 + sdx;
                    let y1 = y as i32 + sdy;
                    let x2 = x as i32 + 2 * sdx;
                    let y2 = y as i32 + 2 * sdy;
                    let x3 = x as i32 + 3 * sdx;
                    let y3 = y as i32 + 3 * sdy;
                    if is_in_board(y3, x3) && board[y1 as usize][x1 as usize] == opp
                        && board[y2 as usize][x2 as usize] == opp
                        && board[y3 as usize][x3 as usize] == 0 {
                        here = here + 1;
                    }
                    sign = sign - 2;
                }
            }
            count = count + here;
        }
        assert(count == threats_total(g, p, i + 1));
    }
    count
}

/// The value of a position for black: a win by captures is worth a five; else
/// capture progress, pattern scores and capture threats, black's counting for
/// and white's against, clamped.
pub open spec fn evaluation_value(s: GameState) -> int {
    let g = grid(s.board);
    if s.captures[0] >= 10 {
        FIVE as int
    } else if s.captures[1] >= 10 {
        -FIVE
    } else {
        clamp_i32(
            capture_progress_value(s.captures[0]) - capture_progress_value(s.captures[1])
                + clamp_i32(pattern_total(g, 1, 361)) - clamp_i32(pattern_total(g, 2, 361))
                + threats_total(g, 1, 361) * CAPTURE_THREAT - threats_total(g, 2, 361) * CAPTURE_THREAT,
        )
    }
}

/// The value of a position for black.
pub fn evaluate_board(state: &GameState) -> (r: i32)
    ensures r == evaluation_value(*state),
{
    if state.captures[0] >= 10 {
        return FIVE;
    }
    if state.captures[1] >= 10 {
        return -FIVE;
    }
    let mut score: i64 = 0;
    score = score + capture_progress(state.captures[0]) as i64;
    score = score - capture_progress(state.captures[1]) as i64;
    score = score + pattern_score(state, 1) as i64;
    score = score - pattern_score(state, 2) as i64;
    let t1 = count_capture_threats(&state.board, 1) as i64;
    let t2 = count_capture_threats(&state.board, 2) as i64;
    assert(0 <= t1 * 6_000_000 <= 361 * 8 * 6_000_000) by (nonlinear_arith)
        requires 0 <= t1 <= 361 * 8;
    assert(0 <= t2 * 6_000_000 <= 361 * 8 * 6_000_000) by (nonlinear_arith)
        requires 0 <= t2 <= 361 * 8;
    score = score + t1 * CAPTURE_THREAT as i64;
    score = score - t2 * CAPTURE_THREAT as i64;
    clamp_to_i32(score)
}

} // verus!

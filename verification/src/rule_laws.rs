//! The rules of a move and the AI's scoring, stated cell by cell: fives on every
//! axis, captures in every direction, the double-three rule on every pair of
//! axes, what a run of four is worth, and the price of a pair left open.
use vstd::prelude::*;
use crate::board::{Grid, at, dx8, dy8, grid, in_board, lemma_grid_wf, opponent_of, set_at, steps};
use crate::evaluation::{
    FOUR, OPEN_FOUR, OPEN_THREE, OPEN_TWO, THREE, TWO, gap_value, gaps_best, lemma_gaps_best_bound, line_value, ones_before, ones_from,
};
use crate::evaluation::{CAPTURE_THREAT, VULNERABLE_PENALTY, centrality, clamp_i32};
use crate::search::{
    capture_gain, heuristic_value, lines_after, sdx, sdy, vulnerable_at, vulnerable_count,
};
use crate::double_three::{
    double_three, free_three, free_three_count, pattern_cell, pattern_len, virt, window_matches,
};
use crate::capture::{capture_dir, capture_list, captured_by, captures_of, is_captured, remove_captures};
use crate::game_state::{
    GameState, captured_by_move, captures_after, five_from, grid_after, has_five, legal_move, line_holds,
    stone_grid,
};

verus! {

/// One of the four axes of the board: a row, a column, or either diagonal.
pub open spec fn axis(dy: int, dx: int) -> bool {
    ||| dy == 0 && dx == 1
    ||| dy == 1 && dx == 0
    ||| dy == 1 && dx == 1
    ||| dy == 1 && dx == -1
}

/// One of the eight directions from a cell.
pub open spec fn direction(dy: int, dx: int) -> bool {
    -1 <= dy <= 1 && -1 <= dx <= 1 && !(dy == 0 && dx == 0)
}

/// The five cells from `(y, x)` along `(dy, dx)` lie on the board and hold `p`.
pub open spec fn five_cells(g: Grid, p: u8, y: int, x: int, dy: int, dx: int) -> bool {
    &&& in_board(y, x) && at(g, y, x) == p
    &&& in_board(y + dy, x + dx) && at(g, y + dy, x + dx) == p
    &&& in_board(y + 2 * dy, x + 2 * dx) && at(g, y + 2 * dy, x + 2 * dx) == p
    &&& in_board(y + 3 * dy, x + 3 * dx) && at(g, y + 3 * dy, x + 3 * dx) == p
    &&& in_board(y + 4 * dy, x + 4 * dx) && at(g, y + 4 * dy, x + 4 * dx) == p
}

/// A step count along a unit step.
proof fn lemma_steps(t: int, d: int)
    requires -1 <= d <= 1,
    ensures steps(t, d) == t * d,
{
    if d == 1 {
        assert(t * d == t) by (nonlinear_arith) requires d == 1;
    } else if d == -1 {
        assert(t * d == -t) by (nonlinear_arith) requires d == -1;
    } else {
        assert(t * d == 0) by (nonlinear_arith) requires d == 0;
    }
}

/// The index among the eight directions of the step `(dy, dx)`.
pub open spec fn dir_index(dy: int, dx: int) -> int {
    if dy == 0 && dx == 1 { 0 }
    else if dy == 1 && dx == 0 { 1 }
    else if dy == 1 && dx == 1 { 2 }
    else if dy == 1 && dx == -1 { 3 }
    else if dy == 0 && dx == -1 { 4 }
    else if dy == -1 && dx == 0 { 5 }
    else if dy == -1 && dx == -1 { 6 }
    else { 7 }
}

/// Every direction has its index, and the axes come first.
proof fn lemma_dir_index(dy: int, dx: int)
    requires direction(dy, dx),
    ensures
        0 <= dir_index(dy, dx) < 8,
        dy8(dir_index(dy, dx)) == dy,
        dx8(dir_index(dy, dx)) == dx,
        axis(dy, dx) ==> dir_index(dy, dx) < 4,
{
}

/// Five stones of `p` in a row, a column or either diagonal: `p` has five aligned,
/// whichever axis they lie on.
pub proof fn lemma_five_on_any_axis(g: Grid, p: u8, y: int, x: int, dy: int, dx: int)
    requires
        axis(dy, dx),
        five_cells(g, p, y, x, dy, dx),
    ensures
        has_five(g, p),
{
    let a = dir_index(dy, dx);
    lemma_dir_index(dy, dx);
    assert forall|i: int| 0 <= i < 5 implies #[trigger] line_holds(g, p, y, x, a, i) by {
        lemma_steps(i, dy);
        lemma_steps(i, dx);
        if i == 1 {
            assert(i * dy == dy && i * dx == dx) by (nonlinear_arith) requires i == 1;
        } else if i == 2 {
            assert(i * dy == 2 * dy && i * dx == 2 * dx) by (nonlinear_arith) requires i == 2;
        } else if i == 3 {
            assert(i * dy == 3 * dy && i * dx == 3 * dx) by (nonlinear_arith) requires i == 3;
        } else if i == 4 {
            assert(i * dy == 4 * dy && i * dx == 4 * dx) by (nonlinear_arith) requires i == 4;
        } else {
            assert(i * dy == 0 && i * dx == 0) by (nonlinear_arith) requires i == 0;
        }
    }
    assert(five_from(g, p, y, x, a));
}

/// Five aligned means five stones on one of the four axes, cell by cell.
pub proof fn lemma_five_lies_on_an_axis(g: Grid, p: u8)
    requires
        has_five(g, p),
    ensures
        exists|y: int, x: int, dy: int, dx: int| axis(dy, dx) && #[trigger] five_cells(g, p, y, x, dy, dx),
{
    let (y, x, a) = choose|y: int, x: int, a: int|
        0 <= y < 19 && 0 <= x < 19 && 0 <= a < 4 && #[trigger] five_from(g, p, y, x, a);
    let dy = dy8(a);
    let dx = dx8(a);
    assert(line_holds(g, p, y, x, a, 0));
    assert(line_holds(g, p, y, x, a, 1));
    assert(line_holds(g, p, y, x, a, 2));
    assert(line_holds(g, p, y, x, a, 3));
    assert(line_holds(g, p, y, x, a, 4));
    assert(five_cells(g, p, y, x, dy, dx));
}

/// A capture in direction `k` takes the two cells next to the stone in that
/// direction, whatever the directions after it.
proof fn lemma_captured_in_direction(g: Grid, y: int, x: int, k: int, j: int, n: int)
    requires
        0 <= k < n,
        j == 1 || j == 2,
        capture_dir(g, y, x, k),
    ensures
        captured_by(g, y, x, y + j * dy8(k), x + j * dx8(k), n),
    decreases n,
{
    if n - 1 > k {
        lemma_captured_in_direction(g, y, x, k, j, n - 1);
    }
}

/// A capture in direction `k` adds its two stones to the list of captures.
proof fn lemma_capture_list_grows(g: Grid, y: int, x: int, k: int, n: int)
    requires
        0 <= k < n,
        capture_dir(g, y, x, k),
    ensures
        capture_list(g, y, x, n).len() >= 2,
    decreases n,
{
    if n - 1 > k {
        lemma_capture_list_grows(g, y, x, k, n - 1);
    }
}

/// A stone placed so that, in any of the eight directions, the next two cells hold
/// the opponent's stones and the third one of its own removes those two stones and
/// adds at least two to the mover's capture count.
pub proof fn lemma_capture_in_every_direction(s: GameState, x: int, y: int, dy: int, dx: int)
    requires
        s.winner is None,
        in_board(y, x),
        direction(dy, dx),
        in_board(y + 3 * dy, x + 3 * dx),
        at(grid(s.board), y + dy, x + dx) == opponent_of(s.player()),
        at(grid(s.board), y + 2 * dy, x + 2 * dx) == opponent_of(s.player()),
        at(grid(s.board), y + 3 * dy, x + 3 * dx) == s.player(),
    ensures
        at(grid_after(s, x, y), y + dy, x + dx) == 0,
        at(grid_after(s, x, y), y + 2 * dy, x + 2 * dx) == 0,
        captures_after(s, x, y, s.player() - 1) >= s.captures[s.player() - 1] + 2,
{
    let p = s.player();
    let g = grid(s.board);
    lemma_grid_wf(s.board);
    let g2 = stone_grid(s, x, y);
    assert(g2 == set_at(g, y, x, p));
    let k = dir_index(dy, dx);
    lemma_dir_index(dy, dx);
    assert(at(g2, y, x) == p);
    assert(at(g2, y + dy, x + dx) == at(g, y + dy, x + dx));
    assert(at(g2, y + 2 * dy, x + 2 * dx) == at(g, y + 2 * dy, x + 2 * dx));
    assert(at(g2, y + 3 * dy, x + 3 * dx) == at(g, y + 3 * dy, x + 3 * dx));
    assert(capture_dir(g2, y, x, k));
    lemma_captured_in_direction(g2, y, x, k, 1, 8);
    lemma_captured_in_direction(g2, y, x, k, 2, 8);
    assert(1 * dy == dy && 1 * dx == dx);
    assert(is_captured(g2, y, x, y + dy, x + dx));
    assert(is_captured(g2, y, x, y + 2 * dy, x + 2 * dx));
    assert(grid_after(s, x, y) == remove_captures(g2, y, x));
    lemma_capture_list_grows(g2, y, x, k, 8);
    assert(captured_by_move(s, x, y) == captures_of(g2, y, x));
}

/// A run of exactly four stones, read from index 1 of a line, is worth an open
/// four exactly when the cells at both of its ends are empty; otherwise it is
/// worth less.
pub proof fn lemma_open_four_needs_both_ends(line: Seq<u8>)
    requires
        line.len() >= 6,
        line[1] == 1 && line[2] == 1 && line[3] == 1 && line[4] == 1,
        line[5] != 1,
    ensures
        line_value(line) == OPEN_FOUR <==> (line[0] == 0 && line[5] == 0),
        line_value(line) <= OPEN_FOUR,
{
    assert(ones_from(line, 5) == 0);
    assert(ones_from(line, 4) == 1);
    assert(ones_from(line, 3) == 2);
    assert(ones_from(line, 2) == 3);
    assert(ones_from(line, 1) == 4);
    lemma_gaps_best_bound(line, line.len() as int);
}

/// The value of a four between the ends `a` and `b`.
proof fn lemma_four_between(a: u8, b: u8)
    requires
        a == 0 || a == 2,
        b == 0 || b == 2,
    ensures
        line_value(seq![a, 1u8, 1u8, 1u8, 1u8, b]) == if a == 0 && b == 0 {
            OPEN_FOUR as int
        } else if a == 2 && b == 2 {
            THREE as int
        } else {
            FOUR as int
        },
{
    let l = seq![a, 1u8, 1u8, 1u8, 1u8, b];
    assert(l.len() == 6 && l[0] == a && l[1] == 1 && l[2] == 1 && l[3] == 1 && l[4] == 1 && l[5] == b);
    assert(ones_from(l, 6) == 0);
    assert(ones_from(l, 5) == 0);
    assert(ones_from(l, 4) == 1);
    assert(ones_from(l, 3) == 2);
    assert(ones_from(l, 2) == 3);
    assert(ones_from(l, 1) == 4);
    assert(ones_before(l, 1) == 0);
    assert(ones_before(l, 2) == 1);
    assert(ones_before(l, 3) == 2);
    assert(ones_before(l, 4) == 3);
    assert(ones_before(l, 5) == 4);
    assert(gap_value(l, 1) == 0);
    assert(gap_value(l, 2) == 0);
    assert(gap_value(l, 3) == 0);
    assert(gap_value(l, 4) == 0);
    assert(gap_value(l, 5) == if b == 0 { FOUR as int } else { 0 });
    assert(gaps_best(l, 1) == 0);
    assert(gaps_best(l, 2) == 0);
    assert(gaps_best(l, 3) == 0);
    assert(gaps_best(l, 4) == 0);
    assert(gaps_best(l, 5) == 0);
    assert(gaps_best(l, 6) == if b == 0 { FOUR as int } else { 0 });
}

/// A four between two ends, each empty (0) or blocked (2), is worth the same read
/// either way: a four blocked on its right scores as one blocked on its left.
pub proof fn lemma_four_value_mirrors(a: u8, b: u8)
    requires
        a == 0 || a == 2,
        b == 0 || b == 2,
    ensures
        line_value(seq![a, 1u8, 1u8, 1u8, 1u8, b]) == line_value(seq![b, 1u8, 1u8, 1u8, 1u8, a]),
{
    lemma_four_between(a, b);
    lemma_four_between(b, a);
}

/// A stone of `p` at `(y, x)` would make a pair with its neighbour along
/// `(dy, dx)` that has an enemy stone at one end and an empty cell at the other,
/// so that the enemy could capture it.
pub open spec fn open_pair(g: Grid, p: u8, y: int, x: int, dy: int, dx: int) -> bool {
    let o = opponent_of(p);
    &&& in_board(y + dy, x + dx) && at(g, y + dy, x + dx) == p
    &&& in_board(y - dy, x - dx) && in_board(y + 2 * dy, x + 2 * dx)
    &&& {
        ||| at(g, y - dy, x - dx) == o && at(g, y + 2 * dy, x + 2 * dx) == 0
        ||| at(g, y - dy, x - dx) == 0 && at(g, y + 2 * dy, x + 2 * dx) == o
    }
}

/// The value of playing `(y, x)` for the player to move, counting captures (ten
/// in reach win), the lines through the stone and closeness to the centre, but not
/// the pairs the move leaves open.
pub open spec fn value_before_open_pairs(s: GameState, x: int, y: int) -> int {
    let g = grid(s.board);
    let p = s.player();
    let gain = capture_gain(g, p, y, x, 4);
    let bonus = if gain <= 0 {
        0
    } else if (s.captures[p - 1] as i32) + gain >= 10 {
        90_000_000 + gain * (CAPTURE_THREAT / 2)
    } else {
        gain * (CAPTURE_THREAT / 2)
    };
    bonus + lines_after(g, p, opponent_of(p), y, x, 4) + centrality(x, y) * 100
}

/// The side of an evaluation direction that is the step `(dy, dx)`.
proof fn lemma_side_of(dy: int, dx: int) -> (ks: (int, int))
    requires direction(dy, dx),
    ensures 0 <= ks.0 < 4, ks.1 == 1 || ks.1 == -1, sdy(ks.0, ks.1) == dy, sdx(ks.0, ks.1) == dx,
{
    if dy == 0 && dx == 1 { (0, 1) }
    else if dy == 0 && dx == -1 { (0, -1) }
    else if dy == 1 && dx == 0 { (1, 1) }
    else if dy == -1 && dx == 0 { (1, -1) }
    else if dy == 1 && dx == 1 { (2, 1) }
    else if dy == -1 && dx == -1 { (2, -1) }
    else if dy == -1 && dx == 1 { (3, 1) }
    else { (3, -1) }
}

/// Open pairs are counted from zero, and one found along a side of a direction
/// among the first `n` counts.
proof fn lemma_open_pair_counted(g: Grid, p: u8, y: int, x: int, k: int, sgn: int, n: int)
    requires 0 <= n,
    ensures
        vulnerable_count(g, p, y, x, n) >= 0,
        0 <= k < n && (sgn == 1 || sgn == -1) && vulnerable_at(g, p, y, x, k, sgn) ==> vulnerable_count(g, p, y, x, n) >= 1,
    decreases n,
{
    if n > 0 {
        lemma_open_pair_counted(g, p, y, x, k, sgn, n - 1);
    }
}

/// Leaving pairs open never raises the value of a move: it is at most its value
/// before open pairs are counted, and equal to it when the move leaves none.
pub proof fn lemma_open_pairs_never_help(s: GameState, x: int, y: int)
    ensures
        heuristic_value(s, x, y) <= clamp_i32(value_before_open_pairs(s, x, y)),
        (forall|dy: int, dx: int| direction(dy, dx) ==> !#[trigger] open_pair(grid(s.board), s.player(), y, x, dy, dx))
            ==> heuristic_value(s, x, y) == clamp_i32(value_before_open_pairs(s, x, y)),
{
    let g = grid(s.board);
    let p = s.player();
    lemma_open_pair_counted(g, p, y, x, 0, 1, 4);
    if forall|dy: int, dx: int| direction(dy, dx) ==> !#[trigger] open_pair(g, p, y, x, dy, dx) {
        assert forall|k: int, sgn: int| 0 <= k < 4 && (sgn == 1 || sgn == -1) implies !#[trigger] vulnerable_at(g, p, y, x, k, sgn) by {
            let dy = sdy(k, sgn);
            let dx = sdx(k, sgn);
            assert(direction(dy, dx));
            assert(!open_pair(g, p, y, x, dy, dx));
        }
        assert(!vulnerable_at(g, p, y, x, 0, 1) && !vulnerable_at(g, p, y, x, 0, -1));
        assert(!vulnerable_at(g, p, y, x, 1, 1) && !vulnerable_at(g, p, y, x, 1, -1));
        assert(!vulnerable_at(g, p, y, x, 2, 1) && !vulnerable_at(g, p, y, x, 2, -1));
        assert(!vulnerable_at(g, p, y, x, 3, 1) && !vulnerable_at(g, p, y, x, 3, -1));
        assert(vulnerable_count(g, p, y, x, 0) == 0);
        assert(vulnerable_count(g, p, y, x, 1) == 0);
        assert(vulnerable_count(g, p, y, x, 2) == 0);
        assert(vulnerable_count(g, p, y, x, 3) == 0);
        assert(vulnerable_count(g, p, y, x, 4) == 0);
    }
}

/// A move that leaves a pair open to capture, in any of the eight directions, is
/// worth at least one penalty less than before open pairs are counted.
pub proof fn lemma_open_pair_costs(s: GameState, x: int, y: int, dy: int, dx: int)
    requires
        direction(dy, dx),
        open_pair(grid(s.board), s.player(), y, x, dy, dx),
    ensures
        heuristic_value(s, x, y) <= clamp_i32(value_before_open_pairs(s, x, y) - VULNERABLE_PENALTY),
{
    let g = grid(s.board);
    let p = s.player();
    let (k, sgn) = lemma_side_of(dy, dx);
    assert(vulnerable_at(g, p, y, x, k, sgn));
    lemma_open_pair_counted(g, p, y, x, k, sgn, 4);
}

/// What stands `t` steps from `(y, x)` along `(dy, dx)` once `p` is placed at
/// `(y, x)`: `p` itself for `t == 0`, else the cell's content, or 3 off the board.
pub open spec fn seen_after_placing(g: Grid, y: int, x: int, p: u8, dy: int, dx: int, t: int) -> int {
    if t == 0 {
        p as int
    } else if in_board(y + t * dy, x + t * dx) {
        at(g, y + t * dy, x + t * dx) as int
    } else {
        3
    }
}

/// The shapes of a free three, 1 for a stone and 0 for an empty cell: `_XXX_`,
/// `_XX_X_` and `_X_XX_`.
pub open spec fn free_three_shape(w: Seq<int>) -> bool {
    ||| w == seq![0int, 1, 1, 1, 0]
    ||| w == seq![0int, 1, 1, 0, 1, 0]
    ||| w == seq![0int, 1, 0, 1, 1, 0]
}

/// The cells from `s` steps from `(y, x)` along `(dy, dx)` on read `w` once `p` is
/// placed at `(y, x)`, the new stone being one of its stones.
pub open spec fn reads_shape(g: Grid, y: int, x: int, p: u8, dy: int, dx: int, s: int, w: Seq<int>) -> bool {
    &&& 0 <= -s < w.len()
    &&& w[-s] == 1
    &&& forall|i: int| 0 <= i < w.len() ==> seen_after_placing(g, y, x, p, dy, dx, s + i) == (if #[trigger] w[i] == 1 {
        p as int
    } else {
        0
    })
}

/// Placing `p` at `(y, x)` makes a free three along `(dy, dx)`, read on the cells.
pub open spec fn free_three_on_cells(g: Grid, y: int, x: int, p: u8, dy: int, dx: int) -> bool {
    exists|s: int, w: Seq<int>| free_three_shape(w) && #[trigger] reads_shape(g, y, x, p, dy, dx, s, w)
}

/// The shape of pattern `q`.
spec fn shape_of(q: int) -> Seq<int> {
    if q == 0 {
        seq![0int, 1, 1, 1, 0]
    } else if q == 1 {
        seq![0int, 1, 1, 0, 1, 0]
    } else {
        seq![0int, 1, 0, 1, 1, 0]
    }
}

/// The shape of pattern `q` has its length and its cells.
proof fn lemma_shape_of(q: int, i: int)
    requires 0 <= q < 3,
    ensures
        free_three_shape(shape_of(q)),
        shape_of(q).len() == pattern_len(q),
        0 <= i < pattern_len(q) ==> shape_of(q)[i] == pattern_cell(q, i),
{
    if i == 0 {} else if i == 1 {} else if i == 2 {} else if i == 3 {} else if i == 4 {} else if i == 5 {}
}

/// Each shape of a free three is the shape of one pattern.
proof fn lemma_shape_pattern(w: Seq<int>) -> (q: int)
    requires free_three_shape(w),
    ensures 0 <= q < 3, shape_of(q) == w,
{
    if w == seq![0int, 1, 1, 1, 0] { 0 } else if w == seq![0int, 1, 1, 0, 1, 0] { 1 } else { 2 }
}

/// Reading along an axis agrees with reading along its index.
proof fn lemma_seen_is_virt(g: Grid, y: int, x: int, p: u8, dy: int, dx: int, t: int)
    requires axis(dy, dx),
    ensures seen_after_placing(g, y, x, p, dy, dx, t) == virt(g, y, x, p, dir_index(dy, dx), t),
{
    lemma_dir_index(dy, dx);
    lemma_steps(t, dy);
    lemma_steps(t, dx);
}

/// A free three read on the cells of an axis is one on that axis's index, and
/// back.
proof fn lemma_free_three_axis(g: Grid, y: int, x: int, p: u8, dy: int, dx: int)
    requires axis(dy, dx),
    ensures free_three_on_cells(g, y, x, p, dy, dx) <==> free_three(g, y, x, p, dir_index(dy, dx)),
{
    let a = dir_index(dy, dx);
    lemma_dir_index(dy, dx);
    if free_three_on_cells(g, y, x, p, dy, dx) {
        let (s, w) = choose|s: int, w: Seq<int>| free_three_shape(w) && #[trigger] reads_shape(g, y, x, p, dy, dx, s, w);
        let q = lemma_shape_pattern(w);
        lemma_shape_of(q, -s);
        assert forall|i: int| 0 <= i < pattern_len(q) implies #[trigger] virt(g, y, x, p, a, s + i) == (if pattern_cell(q, i) == 1 {
            p as int
        } else {
            0
        }) by {
            lemma_shape_of(q, i);
            lemma_seen_is_virt(g, y, x, p, dy, dx, s + i);
            assert(w[i] == pattern_cell(q, i));
        }
        assert(window_matches(g, y, x, p, a, s, q));
    }
    if free_three(g, y, x, p, a) {
        let (s, q) = choose|s: int, q: int| 0 <= q < 3 && #[trigger] window_matches(g, y, x, p, a, s, q);
        let w = shape_of(q);
        lemma_shape_of(q, -s);
        assert forall|i: int| 0 <= i < w.len() implies seen_after_placing(g, y, x, p, dy, dx, s + i) == (if #[trigger] w[i] == 1 {
            p as int
        } else {
            0
        }) by {
            lemma_shape_of(q, i);
            lemma_seen_is_virt(g, y, x, p, dy, dx, s + i);
            assert(virt(g, y, x, p, a, s + i) == (if pattern_cell(q, i) == 1 { p as int } else { 0 }));
        }
        assert(reads_shape(g, y, x, p, dy, dx, s, w));
    }
}

/// Free threes on two different axes among the first `n` are both counted.
proof fn lemma_count_two(g: Grid, y: int, x: int, p: u8, a1: int, a2: int, n: int)
    requires
        0 <= n,
        a1 != a2,
        free_three(g, y, x, p, a1),
        free_three(g, y, x, p, a2),
    ensures
        free_three_count(g, y, x, p, n) >= (if 0 <= a1 < n { 1int } else { 0 }) + (if 0 <= a2 < n { 1int } else { 0 }),
    decreases n,
{
    if n > 0 {
        lemma_count_two(g, y, x, p, a1, a2, n - 1);
    }
}

/// A count of `c` free threes among the first `n` axes comes from `c` of them.
proof fn lemma_count_witness(g: Grid, y: int, x: int, p: u8, n: int)
    requires 0 <= n,
    ensures
        free_three_count(g, y, x, p, n) >= 1 ==> exists|a: int| 0 <= a < n && #[trigger] free_three(g, y, x, p, a),
        free_three_count(g, y, x, p, n) >= 2 ==> exists|a1: int, a2: int|
            0 <= a1 < a2 < n && #[trigger] free_three(g, y, x, p, a1) && #[trigger] free_three(g, y, x, p, a2),
    decreases n,
{
    if n > 0 {
        lemma_count_witness(g, y, x, p, n - 1);
        if free_three_count(g, y, x, p, n) >= 2 && free_three_count(g, y, x, p, n - 1) < 2 {
            assert(free_three(g, y, x, p, n - 1));
            let a = choose|a: int| 0 <= a < n - 1 && #[trigger] free_three(g, y, x, p, a);
            assert(free_three(g, y, x, p, a) && free_three(g, y, x, p, n - 1));
        }
    }
}

/// The axis with a given index.
proof fn lemma_axis_of(a: int) -> (d: (int, int))
    requires 0 <= a < 4,
    ensures axis(d.0, d.1), dir_index(d.0, d.1) == a,
{
    (dy8(a), dx8(a))
}

/// Placing a stone that makes free threes on two different axes, read on the cells
/// (a row, a column or either diagonal, in any pair), is a double three.
pub proof fn lemma_two_free_threes_forbidden(g: Grid, y: int, x: int, p: u8, dy1: int, dx1: int, dy2: int, dx2: int)
    requires
        axis(dy1, dx1),
        axis(dy2, dx2),
        !(dy1 == dy2 && dx1 == dx2),
        free_three_on_cells(g, y, x, p, dy1, dx1),
        free_three_on_cells(g, y, x, p, dy2, dx2),
    ensures
        double_three(g, y, x, p),
{
    lemma_free_three_axis(g, y, x, p, dy1, dx1);
    lemma_free_three_axis(g, y, x, p, dy2, dx2);
    lemma_dir_index(dy1, dx1);
    lemma_dir_index(dy2, dx2);
    lemma_count_two(g, y, x, p, dir_index(dy1, dx1), dir_index(dy2, dx2), 4);
}

/// A double three is two free threes, read on the cells, on two different axes.
pub proof fn lemma_double_three_is_two_axes(g: Grid, y: int, x: int, p: u8)
    requires
        double_three(g, y, x, p),
    ensures
        exists|dy1: int, dx1: int, dy2: int, dx2: int|
            axis(dy1, dx1) && axis(dy2, dx2) && !(dy1 == dy2 && dx1 == dx2)
                && #[trigger] free_three_on_cells(g, y, x, p, dy1, dx1) && #[trigger] free_three_on_cells(g, y, x, p, dy2, dx2),
{
    lemma_count_witness(g, y, x, p, 4);
    let (a1, a2) = choose|a1: int, a2: int|
        0 <= a1 < a2 < 4 && #[trigger] free_three(g, y, x, p, a1) && #[trigger] free_three(g, y, x, p, a2);
    let d1 = lemma_axis_of(a1);
    let d2 = lemma_axis_of(a2);
    lemma_free_three_axis(g, y, x, p, d1.0, d1.1);
    lemma_free_three_axis(g, y, x, p, d2.0, d2.1);
    assert(free_three_on_cells(g, y, x, p, d1.0, d1.1) && free_three_on_cells(g, y, x, p, d2.0, d2.1));
}

/// The player to move may not play a cell where its stone makes free threes on two
/// different axes: the move is refused.
pub proof fn lemma_double_three_refused(s: GameState, x: int, y: int, dy1: int, dx1: int, dy2: int, dx2: int)
    requires
        axis(dy1, dx1),
        axis(dy2, dx2),
        !(dy1 == dy2 && dx1 == dx2),
        free_three_on_cells(grid(s.board), y, x, s.player(), dy1, dx1),
        free_three_on_cells(grid(s.board), y, x, s.player(), dy2, dx2),
    ensures
        !legal_move(s, x, y),
{
    lemma_two_free_threes_forbidden(grid(s.board), y, x, s.player(), dy1, dx1, dy2, dx2);
}

/// Along `(dy, dx)` from `(y, x)`, two stones of the opponent of `p`, then one of
/// `p`: a stone of `p` placed at `(y, x)` encloses the pair.
pub open spec fn encloses(g: Grid, p: u8, y: int, x: int, dy: int, dx: int) -> bool {
    &&& in_board(y + 3 * dy, x + 3 * dx)
    &&& at(g, y + dy, x + dx) == opponent_of(p)
    &&& at(g, y + 2 * dy, x + 2 * dx) == opponent_of(p)
    &&& at(g, y + 3 * dy, x + 3 * dx) == p
}

/// A cell captured in the first `n` directions lies one or two steps along one of
/// them, in which the stone captures.
proof fn lemma_captured_witness(g: Grid, y: int, x: int, r: int, c: int, n: int) -> (kj: (int, int))
    requires
        0 <= n <= 8,
        captured_by(g, y, x, r, c, n),
    ensures
        0 <= kj.0 < n,
        kj.1 == 1 || kj.1 == 2,
        capture_dir(g, y, x, kj.0),
        r == y + kj.1 * dy8(kj.0),
        c == x + kj.1 * dx8(kj.0),
    decreases n,
{
    if captured_by(g, y, x, r, c, n - 1) {
        lemma_captured_witness(g, y, x, r, c, n - 1)
    } else if r == y + dy8(n - 1) && c == x + dx8(n - 1) {
        (n - 1, 1)
    } else {
        (n - 1, 2)
    }
}

/// A move changes no cell but its own and those of the pairs it encloses: any other
/// cell that changes is emptied, and was one of two enemy stones enclosed along
/// one of the eight directions.
pub proof fn lemma_capture_only_enclosed(s: GameState, x: int, y: int, r: int, c: int)
    requires
        s.winner is None,
        in_board(y, x),
        in_board(r, c),
        !(r == y && c == x),
        at(grid_after(s, x, y), r, c) != at(grid(s.board), r, c),
    ensures
        at(grid_after(s, x, y), r, c) == 0,
        exists|dy: int, dx: int|
            direction(dy, dx) && #[trigger] encloses(grid(s.board), s.player(), y, x, dy, dx)
                && ((r == y + dy && c == x + dx) || (r == y + 2 * dy && c == x + 2 * dx)),
{
    let p = s.player();
    let g = grid(s.board);
    lemma_grid_wf(s.board);
    let g2 = stone_grid(s, x, y);
    assert(grid_after(s, x, y) == remove_captures(g2, y, x));
    assert(at(g2, r, c) == at(g, r, c));
    assert(is_captured(g2, y, x, r, c));
    let (k, j) = lemma_captured_witness(g2, y, x, r, c, 8);
    let dy = dy8(k);
    let dx = dx8(k);
    assert(direction(dy, dx));
    assert(at(g2, y, x) == p);
    assert(in_board(y + dy, x + dx) && in_board(y + 2 * dy, x + 2 * dx));
    assert(at(g2, y + dy, x + dx) == at(g, y + dy, x + dx));
    assert(at(g2, y + 2 * dy, x + 2 * dx) == at(g, y + 2 * dy, x + 2 * dx));
    assert(at(g2, y + 3 * dy, x + 3 * dx) == at(g, y + 3 * dy, x + 3 * dx));
    assert(encloses(g, p, y, x, dy, dx));
    if j == 1 {
        assert(r == y + dy && c == x + dx);
    } else {
        assert(r == y + 2 * dy && c == x + 2 * dx);
    }
}

/// The value of a three between the ends `a` and `b`.
proof fn lemma_three_between(a: u8, b: u8)
    requires
        a == 0 || a == 2,
        b == 0 || b == 2,
    ensures
        line_value(seq![a, 1u8, 1u8, 1u8, b]) == if a == 0 && b == 0 {
            OPEN_THREE as int
        } else if a == 2 && b == 2 {
            TWO as int
        } else {
            THREE as int
        },
{
    let l = seq![a, 1u8, 1u8, 1u8, b];
    assert(l.len() == 5 && l[0] == a && l[1] == 1 && l[2] == 1 && l[3] == 1 && l[4] == b);
    assert(ones_from(l, 5) == 0);
    assert(ones_from(l, 4) == 0);
    assert(ones_from(l, 3) == 1);
    assert(ones_from(l, 2) == 2);
    assert(ones_from(l, 1) == 3);
    assert(ones_before(l, 1) == 0);
    assert(ones_before(l, 2) == 1);
    assert(ones_before(l, 3) == 2);
    assert(ones_before(l, 4) == 3);
    assert(gap_value(l, 1) == 0);
    assert(gap_value(l, 2) == 0);
    assert(gap_value(l, 3) == 0);
    assert(gap_value(l, 4) == if b == 0 { THREE as int } else { 0 });
    assert(gaps_best(l, 1) == 0);
    assert(gaps_best(l, 2) == 0);
    assert(gaps_best(l, 3) == 0);
    assert(gaps_best(l, 4) == 0);
    assert(gaps_best(l, 5) == if b == 0 { THREE as int } else { 0 });
}

/// The value of a two between the ends `a` and `b`.
proof fn lemma_two_between(a: u8, b: u8)
    requires
        a == 0 || a == 2,
        b == 0 || b == 2,
    ensures
        line_value(seq![a, 1u8, 1u8, b]) == if a == 0 && b == 0 { OPEN_TWO as int } else { TWO as int },
{
    let l = seq![a, 1u8, 1u8, b];
    assert(l.len() == 4 && l[0] == a && l[1] == 1 && l[2] == 1 && l[3] == b);
    assert(ones_from(l, 4) == 0);
    assert(ones_from(l, 3) == 0);
    assert(ones_from(l, 2) == 1);
    assert(ones_from(l, 1) == 2);
    assert(ones_before(l, 1) == 0);
    assert(ones_before(l, 2) == 1);
    assert(ones_before(l, 3) == 2);
    assert(gap_value(l, 1) == 0);
    assert(gap_value(l, 2) == 0);
    assert(gap_value(l, 3) == 0);
    assert(gaps_best(l, 1) == 0);
    assert(gaps_best(l, 2) == 0);
    assert(gaps_best(l, 3) == 0);
    assert(gaps_best(l, 4) == 0);
}

/// A three or a two between two ends, each empty (0) or blocked (2), is worth the
/// same read either way; and it is worth its open value only with both ends empty.
pub proof fn lemma_short_runs_mirror(a: u8, b: u8)
    requires
        a == 0 || a == 2,
        b == 0 || b == 2,
    ensures
        line_value(seq![a, 1u8, 1u8, 1u8, b]) == line_value(seq![b, 1u8, 1u8, 1u8, a]),
        line_value(seq![a, 1u8, 1u8, b]) == line_value(seq![b, 1u8, 1u8, a]),
        line_value(seq![a, 1u8, 1u8, 1u8, b]) == OPEN_THREE <==> a == 0 && b == 0,
        line_value(seq![a, 1u8, 1u8, b]) == OPEN_TWO <==> a == 0 && b == 0,
        line_value(seq![a, 1u8, 1u8, 1u8, 1u8, b]) == OPEN_FOUR <==> a == 0 && b == 0,
{
    lemma_three_between(a, b);
    lemma_three_between(b, a);
    lemma_two_between(a, b);
    lemma_two_between(b, a);
    lemma_four_between(a, b);
}

/// The stone a move puts stays on its cell: captures never take it.
pub proof fn lemma_stone_is_put(s: GameState, x: int, y: int)
    requires
        s.winner is None,
        in_board(y, x),
    ensures
        at(grid_after(s, x, y), y, x) == s.player(),
{
    lemma_grid_wf(s.board);
    let g2 = stone_grid(s, x, y);
    assert(grid_after(s, x, y) == remove_captures(g2, y, x));
    if is_captured(g2, y, x, y, x) {
        let (k, j) = lemma_captured_witness(g2, y, x, y, x, 8);
        assert(j * dy8(k) == 0 && j * dx8(k) == 0);
        assert(false);
    }
    assert(at(g2, y, x) == s.player());
}

/// 1 when `b` holds, else 0.
pub open spec fn one_if(b: bool) -> int {
    if b { 1 } else { 0 }
}

/// The number of the eight directions in which a stone of `p` at `(y, x)` would
/// leave a pair open to capture.
pub open spec fn open_pairs(g: Grid, p: u8, y: int, x: int) -> int {
    one_if(open_pair(g, p, y, x, 0, 1)) + one_if(open_pair(g, p, y, x, 0, -1))
        + one_if(open_pair(g, p, y, x, 1, 0)) + one_if(open_pair(g, p, y, x, -1, 0))
        + one_if(open_pair(g, p, y, x, 1, 1)) + one_if(open_pair(g, p, y, x, -1, -1))
        + one_if(open_pair(g, p, y, x, -1, 1)) + one_if(open_pair(g, p, y, x, 1, -1))
}

/// Each pair a move leaves open costs it exactly one penalty: the value of the move
/// is its value before open pairs are counted, less one penalty per open pair,
/// clamped into `i32`.
pub proof fn lemma_open_pairs_priced(s: GameState, x: int, y: int)
    ensures
        heuristic_value(s, x, y) == clamp_i32(value_before_open_pairs(s, x, y) - VULNERABLE_PENALTY * open_pairs(grid(s.board), s.player(), y, x)),
{
    let g = grid(s.board);
    let p = s.player();
    assert(vulnerable_at(g, p, y, x, 0, 1) == open_pair(g, p, y, x, 0, 1));
    assert(vulnerable_at(g, p, y, x, 0, -1) == open_pair(g, p, y, x, 0, -1));
    assert(vulnerable_at(g, p, y, x, 1, 1) == open_pair(g, p, y, x, 1, 0));
    assert(vulnerable_at(g, p, y, x, 1, -1) == open_pair(g, p, y, x, -1, 0));
    assert(vulnerable_at(g, p, y, x, 2, 1) == open_pair(g, p, y, x, 1, 1));
    assert(vulnerable_at(g, p, y, x, 2, -1) == open_pair(g, p, y, x, -1, -1));
    assert(vulnerable_at(g, p, y, x, 3, 1) == open_pair(g, p, y, x, -1, 1));
    assert(vulnerable_at(g, p, y, x, 3, -1) == open_pair(g, p, y, x, 1, -1));
    assert(vulnerable_count(g, p, y, x, 0) == 0);
    assert(vulnerable_count(g, p, y, x, 1) == one_if(open_pair(g, p, y, x, 0, 1)) + one_if(open_pair(g, p, y, x, 0, -1)));
    assert(vulnerable_count(g, p, y, x, 2) == vulnerable_count(g, p, y, x, 1) + one_if(open_pair(g, p, y, x, 1, 0))
        + one_if(open_pair(g, p, y, x, -1, 0)));
    assert(vulnerable_count(g, p, y, x, 3) == vulnerable_count(g, p, y, x, 2) + one_if(open_pair(g, p, y, x, 1, 1))
        + one_if(open_pair(g, p, y, x, -1, -1)));
    assert(vulnerable_count(g, p, y, x, 4) == vulnerable_count(g, p, y, x, 3) + one_if(open_pair(g, p, y, x, -1, 1))
        + one_if(open_pair(g, p, y, x, 1, -1)));
    assert(vulnerable_count(g, p, y, x, 4) == open_pairs(g, p, y, x));
}

} // verus!

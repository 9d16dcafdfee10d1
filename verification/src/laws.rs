//! Properties of a game that span several operations: undo after a move, the
//! limit on undos in a row, hashes that follow the boards, captures counted in
//! pairs, turns that alternate, a finished game that no longer changes, what
//! the transposition table gives back, the value of a line through a new
//! stone, whatever its cell held, a whole run of the plain terminal game, and
//! the value of a position with its colours swapped.
use vstd::prelude::*;
use crate::board::{Grid, at, grid, in_board, opponent_of};
use crate::evaluation::{
    back_count, cell_pattern_value, cell_threats, direction_value, directions_value, edge_code, edx, edy,
    evaluation_value, line_value, pattern_total, placed_line, placed_walk, run_line, run_walk, threat_at,
    threats_dirs, threats_total,
};
use crate::capture::{capture_list, captures_of};
use crate::classic::{after_turns, lemma_after_turn, lemma_blank_board, lemma_stones_bound, square, stone_count};
use crate::game_state::{
    GameState, captured_by_move, placed, pushed, snapshot_of, undone, MAX_UNDOS,
};
use crate::hashing::board_hash;
use crate::tt::{TTEntry, TranspositionTable};
use crate::zobrist::Zobrist;

verus! {

/// A move played after its position was recorded can be undone: the undo goes
/// through and brings back the position and the history from before the move.
pub proof fn lemma_undo_after_move(
    s0: GameState,
    s1: GameState,
    s2: GameState,
    s3: GameState,
    x: int,
    y: int,
    z: Zobrist,
    done: bool,
)
    requires
        pushed(s0, s1),
        placed(s1, s2, x, y, z),
        undone(s2, s3, done),
    ensures
        done,
        snapshot_of(s3) == snapshot_of(s0),
        s3.history@ == s0.history@,
        s3.mode == s0.mode,
        s3.undos_since_last_move == 1,
{
    assert(s2.history@ == s1.history@);
    assert(s1.history@.drop_last() =~= s0.history@);
}

/// At most `MAX_UNDOS` undos in a row go through: counting from a recorded move,
/// a fourth undo in a row is refused when the three before it went through.
pub proof fn lemma_undo_limit(
    s0: GameState,
    s1: GameState,
    s2: GameState,
    s3: GameState,
    s4: GameState,
    d1: bool,
    d2: bool,
    d3: bool,
    d4: bool,
)
    requires
        s0.undos_since_last_move == 0,
        undone(s0, s1, d1),
        undone(s1, s2, d2),
        undone(s2, s3, d3),
        undone(s3, s4, d4),
    ensures
        !(d1 && d2 && d3 && d4),
        s4.undos_since_last_move <= MAX_UNDOS,
{
}

/// The current position and every recorded one carry the Zobrist hash of their board.
pub open spec fn hashes_consistent(s: GameState, z: Zobrist) -> bool {
    &&& s.hash_consistent(z)
    &&& forall|k: int|
        0 <= k < s.history@.len() ==> #[trigger] s.history@[k].hash == board_hash(
            z,
            grid(s.history@[k].board),
        )
}

/// Recording the position keeps every hash equal to the hash of its board.
pub proof fn lemma_push_keeps_hashes(s: GameState, t: GameState, z: Zobrist)
    requires
        hashes_consistent(s, z),
        pushed(s, t),
    ensures
        hashes_consistent(t, z),
{
    assert forall|k: int| 0 <= k < t.history@.len() implies #[trigger] t.history@[k].hash
        == board_hash(z, grid(t.history@[k].board)) by {
        if k < s.history@.len() {
            assert(t.history@[k] == s.history@[k]);
        } else {
            assert(t.history@[k] == snapshot_of(s));
        }
    }
}

/// A stone put on an empty cell keeps every hash equal to the hash of its board.
pub proof fn lemma_place_keeps_hashes(s: GameState, t: GameState, x: int, y: int, z: Zobrist)
    requires
        hashes_consistent(s, z),
        placed(s, t, x, y, z),
        at(grid(s.board), y, x) == 0,
    ensures
        hashes_consistent(t, z),
{
}

/// An undo keeps every hash equal to the hash of its board.
pub proof fn lemma_undo_keeps_hashes(s: GameState, t: GameState, done: bool, z: Zobrist)
    requires
        hashes_consistent(s, z),
        undone(s, t, done),
    ensures
        hashes_consistent(t, z),
{
    if done {
        let n = s.history@.len() - 1;
        assert(s.history@.last() == s.history@[n]);
        assert(t.hash == s.history@[n].hash);
        assert(t.board == s.history@[n].board);
        assert forall|k: int| 0 <= k < t.history@.len() implies #[trigger] t.history@[k].hash
            == board_hash(z, grid(t.history@[k].board)) by {
            assert(t.history@[k] == s.history@[k]);
        }
    }
}

/// The stones captured in the first `n` directions come in pairs.
pub proof fn lemma_capture_list_even(g: Seq<Seq<u8>>, y: int, x: int, n: int)
    ensures
        capture_list(g, y, x, n).len() % 2 == 0,
    decreases n,
{
    if n > 0 {
        lemma_capture_list_even(g, y, x, n - 1);
    }
}

/// A move never lowers a capture count, and it raises the mover's by the number
/// of stones it captures, which come in pairs.
pub proof fn lemma_captures_in_pairs(s: GameState, t: GameState, x: int, y: int, z: Zobrist, q: int)
    requires
        placed(s, t, x, y, z),
        q == 0 || q == 1,
    ensures
        t.captures[q] >= s.captures[q],
        (t.captures[q] - s.captures[q]) % 2 == 0,
{
    lemma_capture_list_even(crate::game_state::stone_grid(s, x, y), y, x, 8);
    assert(captured_by_move(s, x, y) == captures_of(crate::game_state::stone_grid(s, x, y), y, x));
}

/// The players alternate: a move that leaves the game open hands the turn to
/// the opponent.
pub proof fn lemma_turns_alternate(s: GameState, t: GameState, x: int, y: int, z: Zobrist)
    requires
        placed(s, t, x, y, z),
        s.winner is None,
        t.winner is None,
    ensures
        t.turn_count == s.turn_count + 1,
        t.player() == opponent_of(s.player()),
{
}

/// Once the game is won, a move changes nothing.
pub proof fn lemma_won_game_frozen(s: GameState, t: GameState, x: int, y: int, z: Zobrist)
    requires
        placed(s, t, x, y, z),
        s.winner is Some,
    ensures
        grid(t.board) == grid(s.board),
        t.hash == s.hash,
        t.captures == s.captures,
        t.turn_count == s.turn_count,
        t.winner == s.winner,
        t.five_aligned_winner == s.five_aligned_winner,
{
    assert(t.captures =~= s.captures);
}

/// A result saved in the transposition table is what a lookup of its hash then
/// gives back, and a lookup of a hash kept in another slot is unchanged.
pub proof fn lemma_table_read_after_write(
    t: TranspositionTable,
    u: TranspositionTable,
    hash: u64,
    entry: TTEntry,
    other: u64,
)
    requires
        t.wf(),
        entry.hash == hash,
        u@ == t@.update(t.slot_of(hash), Some(entry)),
    ensures
        u.wf(),
        u.lookup(hash) == Some(entry),
        t.slot_of(other) != t.slot_of(hash) ==> u.lookup(other) == t.lookup(other),
{
    assert(u.slot_of(hash) == t.slot_of(hash));
    assert(u.slot_of(other) == t.slot_of(other));
}

/// Two grids that agree on every cell of the board but `(y, x)`.
pub open spec fn same_but(g1: Grid, g2: Grid, y: int, x: int) -> bool {
    forall|r: int, c: int| in_board(r, c) && !(r == y && c == x) ==> #[trigger] at(g1, r, c) == at(g2, r, c)
}

/// Walking back from `k` steps behind `(y, x)` never reads `(y, x)` itself.
proof fn lemma_back_count_same(g1: Grid, g2: Grid, x: int, y: int, dx: int, dy: int, p: u8, k: int, fuel: nat)
    requires
        same_but(g1, g2, y, x),
        !(dx == 0 && dy == 0),
        k >= 0,
    ensures
        back_count(g1, x - k * dx, y - k * dy, dx, dy, p, fuel) == back_count(g2, x - k * dx, y - k * dy, dx, dy, p, fuel),
    decreases fuel,
{
    if fuel > 0 {
        let sx = x - k * dx;
        let sy = y - k * dy;
        assert(sx - dx == x - (k + 1) * dx && sy - dy == y - (k + 1) * dy) by (nonlinear_arith)
            requires sx == x - k * dx, sy == y - k * dy;
        assert(!(sy - dy == y && sx - dx == x)) by (nonlinear_arith)
            requires
                sx - dx == x - (k + 1) * dx,
                sy - dy == y - (k + 1) * dy,
                !(dx == 0 && dy == 0),
                k >= 0;
        if in_board(sy - dy, sx - dx) {
            assert(at(g1, sy - dy, sx - dx) == at(g2, sy - dy, sx - dx));
        }
        lemma_back_count_same(g1, g2, x, y, dx, dy, p, k + 1, (fuel - 1) as nat);
    }
}

/// A walk that reads the placed cell as the placed stone reads the same on both grids.
proof fn lemma_placed_walk_same(g1: Grid, g2: Grid, x: int, y: int, p: u8, cx: int, cy: int, dx: int, dy: int, k: nat)
    requires
        same_but(g1, g2, y, x),
    ensures
        placed_walk(g1, x, y, p, cx, cy, dx, dy, k) == placed_walk(g2, x, y, p, cx, cy, dx, dy, k),
    decreases k,
{
    if k > 0 {
        if !(cx == x && cy == y) && in_board(cy, cx) {
            assert(at(g1, cy, cx) == at(g2, cy, cx));
        }
        lemma_placed_walk_same(g1, g2, x, y, p, cx + dx, cy + dy, dx, dy, (k - 1) as nat);
    }
}

/// The value of a line through a newly placed stone does not depend on what the
/// board held at the stone's cell, for any step other than `(0, 0)`.
pub proof fn lemma_placed_line_ignores_cell(g1: Grid, g2: Grid, x: int, y: int, dx: int, dy: int, p: u8)
    requires
        same_but(g1, g2, y, x),
        !(dx == 0 && dy == 0),
    ensures
        placed_line(g1, x, y, dx, dy, p) == placed_line(g2, x, y, dx, dy, p),
        line_value(placed_line(g1, x, y, dx, dy, p)) == line_value(placed_line(g2, x, y, dx, dy, p)),
{
    lemma_back_count_same(g1, g2, x, y, dx, dy, p, 0, 20);
    assert(x - 0 * dx == x && y - 0 * dy == y) by (nonlinear_arith);
    let b = back_count(g1, x, y, dx, dy, p, 20);
    crate::evaluation::lemma_back_count_nonneg(g1, x, y, dx, dy, p, 20);
    let sx = x - b * dx;
    let sy = y - b * dy;
    assert(sx - dx == x - (b + 1) * dx && sy - dy == y - (b + 1) * dy) by (nonlinear_arith)
        requires sx == x - b * dx, sy == y - b * dy;
    assert(!(sy - dy == y && sx - dx == x)) by (nonlinear_arith)
        requires
            sx - dx == x - (b + 1) * dx,
            sy - dy == y - (b + 1) * dy,
            !(dx == 0 && dy == 0),
            b >= 0;
    if in_board(sy - dy, sx - dx) {
        assert(at(g1, sy - dy, sx - dx) == at(g2, sy - dy, sx - dx));
    }
    lemma_placed_walk_same(g1, g2, x, y, p, sx, sy, dx, dy, 9);
}

/// In the plain terminal game, whatever lines are typed, the turn counter stays
/// the number of stones on the board, so it never goes past 361, and no stone is
/// ever replaced. A game starts that way: on a blank board, at turn 0.
pub proof fn lemma_classic_run(c: Seq<Seq<char>>, t: int, inputs: Seq<Seq<u8>>)
    requires
        square(c),
        t == stone_count(c),
    ensures ({
        let (c2, t2) = after_turns(c, t, inputs);
        &&& square(c2)
        &&& t2 == stone_count(c2)
        &&& 0 <= t2 <= 361
        &&& forall|y: int, x: int| 0 <= y < 19 && 0 <= x < 19 && c[y][x] != ' ' ==> #[trigger] c2[y][x] == c[y][x]
    }),
    decreases inputs.len(),
{
    if inputs.len() == 0 {
        lemma_stones_bound(c, 19);
    } else {
        lemma_after_turn(c, t, inputs[0]);
        let (c1, t1) = crate::classic::after_turn(c, t, inputs[0]);
        lemma_classic_run(c1, t1, inputs.drop_first());
        let (c2, t2) = after_turns(c1, t1, inputs.drop_first());
        assert forall|y: int, x: int| 0 <= y < 19 && 0 <= x < 19 && c[y][x] != ' ' implies #[trigger] c2[y][x] == c[y][x] by {
            assert(c1[y][x] == c[y][x]);
        }
    }
}

/// A blank board has no stones, so a game of the plain terminal game starts
/// with the turn counter equal to the number of stones.
pub proof fn lemma_classic_start(c: Seq<Seq<char>>)
    requires
        square(c),
        forall|y: int, x: int| 0 <= y < 19 && 0 <= x < 19 ==> #[trigger] c[y][x] == ' ',
    ensures
        stone_count(c) == 0,
{
    lemma_blank_board(c, 19);
}

/// A cell with its colour swapped: black for white and white for black.
pub open spec fn swap_cell(c: u8) -> u8 {
    if c == 1 { 2 } else if c == 2 { 1 } else { c }
}

/// Every cell of the board is empty, black or white.
pub open spec fn stones_only(g: Grid) -> bool {
    forall|y: int, x: int| in_board(y, x) ==> #[trigger] at(g, y, x) <= 2
}

/// `h` is `g` with the colours of its stones swapped.
pub open spec fn colours_swapped(g: Grid, h: Grid) -> bool {
    forall|y: int, x: int| in_board(y, x) ==> #[trigger] at(h, y, x) == swap_cell(at(g, y, x))
}

/// A cell reads for one player on the swapped board as it reads for the other
/// player on the board itself.
proof fn lemma_swap_edge(g: Grid, h: Grid, cx: int, cy: int, p: u8)
    requires
        stones_only(g),
        colours_swapped(g, h),
        p == 1 || p == 2,
    ensures
        edge_code(h, cx, cy, opponent_of(p)) == edge_code(g, cx, cy, p),
        in_board(cy, cx) ==> (at(h, cy, cx) == opponent_of(p) <==> at(g, cy, cx) == p),
        in_board(cy, cx) ==> (at(h, cy, cx) == p <==> at(g, cy, cx) == opponent_of(p)),
        in_board(cy, cx) ==> (at(h, cy, cx) == 0 <==> at(g, cy, cx) == 0),
{
    if in_board(cy, cx) {
        assert(at(g, cy, cx) <= 2);
        assert(at(h, cy, cx) == swap_cell(at(g, cy, cx)));
    }
}

/// A walk reads the same for one player on the swapped board as for the other on
/// the board.
proof fn lemma_swap_walk(g: Grid, h: Grid, cx: int, cy: int, dx: int, dy: int, p: u8, k: nat)
    requires
        stones_only(g),
        colours_swapped(g, h),
        p == 1 || p == 2,
    ensures
        run_walk(h, cx, cy, dx, dy, opponent_of(p), k) == run_walk(g, cx, cy, dx, dy, p, k),
    decreases k,
{
    lemma_swap_edge(g, h, cx, cy, p);
    if k > 0 {
        lemma_swap_walk(g, h, cx + dx, cy + dy, dx, dy, p, (k - 1) as nat);
    }
}

/// The runs of the first `n` directions from a cell are worth the same for one
/// player on the swapped board as for the other on the board.
proof fn lemma_swap_directions(g: Grid, h: Grid, p: u8, y: int, x: int, n: int)
    requires
        stones_only(g),
        colours_swapped(g, h),
        p == 1 || p == 2,
    ensures
        directions_value(h, opponent_of(p), y, x, n) == directions_value(g, p, y, x, n),
    decreases n,
{
    if n > 0 {
        lemma_swap_directions(g, h, p, y, x, n - 1);
        let k = n - 1;
        lemma_swap_edge(g, h, x - edx(k), y - edy(k), p);
        lemma_swap_edge(g, h, x - edx(k), y - edy(k), p);
        lemma_swap_walk(g, h, x, y, edx(k), edy(k), p, 9);
        assert(run_line(h, x, y, edx(k), edy(k), opponent_of(p)) == run_line(g, x, y, edx(k), edy(k), p));
        assert(direction_value(h, opponent_of(p), y, x, k) == direction_value(g, p, y, x, k));
    }
}

/// The pattern totals of the first `n` cells swap with the colours.
proof fn lemma_swap_patterns(g: Grid, h: Grid, p: u8, n: int)
    requires
        stones_only(g),
        colours_swapped(g, h),
        p == 1 || p == 2,
        n <= 361,
    ensures
        pattern_total(h, opponent_of(p), n) == pattern_total(g, p, n),
    decreases n,
{
    if n > 0 {
        lemma_swap_patterns(g, h, p, n - 1);
        let i = n - 1;
        assert(0 <= i / 19 < 19 && 0 <= i % 19 < 19) by (nonlinear_arith)
            requires 0 <= i < 361;
        lemma_swap_edge(g, h, i % 19, i / 19, p);
        lemma_swap_directions(g, h, p, i / 19, i % 19, 4);
        assert(cell_pattern_value(h, opponent_of(p), i) == cell_pattern_value(g, p, i));
    }
}

/// The capture threats of the first `n` directions from a cell swap with the
/// colours.
proof fn lemma_swap_threat_dirs(g: Grid, h: Grid, p: u8, y: int, x: int, n: int)
    requires
        stones_only(g),
        colours_swapped(g, h),
        p == 1 || p == 2,
        in_board(y, x),
    ensures
        threats_dirs(h, opponent_of(p), y, x, n) == threats_dirs(g, p, y, x, n),
    decreases n,
{
    if n > 0 {
        lemma_swap_threat_dirs(g, h, p, y, x, n - 1);
        let k = n - 1;
        let (dx, dy) = (edx(k), edy(k));
        lemma_swap_edge(g, h, x + dx, y + dy, p);
        lemma_swap_edge(g, h, x + 2 * dx, y + 2 * dy, p);
        lemma_swap_edge(g, h, x + 3 * dx, y + 3 * dy, p);
        lemma_swap_edge(g, h, x - dx, y - dy, p);
        lemma_swap_edge(g, h, x - 2 * dx, y - 2 * dy, p);
        lemma_swap_edge(g, h, x - 3 * dx, y - 3 * dy, p);
        assert(threat_at(h, opponent_of(p), y, x, k, 1) == threat_at(g, p, y, x, k, 1));
        assert(threat_at(h, opponent_of(p), y, x, k, -1) == threat_at(g, p, y, x, k, -1));
    }
}

/// The capture threats of the first `n` cells swap with the colours.
proof fn lemma_swap_threats(g: Grid, h: Grid, p: u8, n: int)
    requires
        stones_only(g),
        colours_swapped(g, h),
        p == 1 || p == 2,
        n <= 361,
    ensures
        threats_total(h, opponent_of(p), n) == threats_total(g, p, n),
    decreases n,
{
    if n > 0 {
        lemma_swap_threats(g, h, p, n - 1);
        let i = n - 1;
        assert(0 <= i / 19 < 19 && 0 <= i % 19 < 19) by (nonlinear_arith)
            requires 0 <= i < 361;
        lemma_swap_edge(g, h, i % 19, i / 19, p);
        lemma_swap_threat_dirs(g, h, p, i / 19, i % 19, 4);
        assert(cell_threats(h, opponent_of(p), i) == cell_threats(g, p, i));
    }
}

/// Swapping the colours of every stone and the two capture counts negates the
/// value of the position, unless both sides already have ten captures, or the
/// value sits at a limit of `i32`, where the clamp is lopsided.
pub proof fn lemma_evaluation_colour_swap(s: GameState, t: GameState)
    requires
        stones_only(grid(s.board)),
        colours_swapped(grid(s.board), grid(t.board)),
        t.captures[0] == s.captures[1],
        t.captures[1] == s.captures[0],
        !(s.captures[0] >= 10 && s.captures[1] >= 10),
        -i32::MAX < evaluation_value(s) < i32::MAX,
    ensures
        evaluation_value(t) == -evaluation_value(s),
{
    let g = grid(s.board);
    let h = grid(t.board);
    lemma_swap_patterns(g, h, 1, 361);
    lemma_swap_patterns(g, h, 2, 361);
    lemma_swap_threats(g, h, 1, 361);
    lemma_swap_threats(g, h, 2, 361);
}

} // verus!

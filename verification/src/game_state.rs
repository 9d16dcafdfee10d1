//! The state of a game: board, captures, turn, winner, and the history that
//! undo and the move list are built on.
use vstd::prelude::*;
use crate::board::{
    Board, Grid, at, dir8, dx8, dy8, grid, in_board, is_in_board, new_board, opponent, opponent_of,
    put, set_at, steps, empty_grid,
};
use crate::capture::{apply_captures, captures_of, lemma_capture_list, remove_captures};
use crate::double_three::{double_three, is_double_three};
use crate::hashing::{
    board_cells_ok, board_hash, cell_key, cells_wf, compute_hash, lemma_hash_remove_captures, lemma_hash_set_cell,
    lemma_index, lemma_xor_facts, xor_keys,
};
use crate::zobrist::Zobrist;

verus! {

/// Who plays: two humans, a human (player 1) against the AI, or the AI against itself.
#[derive(PartialEq, Eq, Structural, Clone, Copy, Debug)]
pub enum GameMode {
    PVP,
    PVA,
    AVA,
}

/// The part of a game state that undo restores.
#[derive(Clone, Copy)]
pub struct GameStateSnapshot {
    pub board: Board,
    pub hash: u64,
    pub captures: [u32; 2],
    pub turn_count: u32,
    pub winner: Option<u8>,
    pub five_aligned_winner: Option<u8>,
}

/// One move of the game, as the move list shows it.
#[derive(Clone, Copy)]
pub struct MoveInfo {
    pub number: u32,
    pub player: u8,
    pub x: usize,
    pub y: usize,
    pub captures: u32,
}

/// A game in progress.
pub struct GameState {
    pub board: Board,
    pub hash: u64,
    pub captures: [u32; 2],
    pub turn_count: u32,
    pub winner: Option<u8>,
    pub five_aligned_winner: Option<u8>,
    pub mode: GameMode,
    pub hint_move: Option<(usize, usize)>,
    pub history: Vec<GameStateSnapshot>,
    pub undos_since_last_move: u32,
}

/// How many moves may be undone in a row.
pub const MAX_UNDOS: u32 = 3;

/// The player to move at turn `turn`: 1 on even turns, 2 on odd ones.
pub open spec fn player_at(turn: u32) -> u8 {
    ((turn % 2) + 1) as u8
}

/// The cell `i` steps from `(y, x)` along axis `a` is on the board and holds `t`.
pub open spec fn line_holds(g: Grid, t: u8, y: int, x: int, a: int, i: int) -> bool {
    let cy = y + steps(i, dy8(a));
    let cx = x + steps(i, dx8(a));
    in_board(cy, cx) && at(g, cy, cx) == t
}

/// Five cells from `(y, x)` along axis `a` hold `t`.
pub open spec fn five_from(g: Grid, t: u8, y: int, x: int, a: int) -> bool {
    forall|i: int| 0 <= i < 5 ==> #[trigger] line_holds(g, t, y, x, a, i)
}

/// Five cells in a row, column or diagonal hold `t`.
pub open spec fn has_five(g: Grid, t: u8) -> bool {
    exists|y: int, x: int, a: int|
        0 <= y < 19 && 0 <= x < 19 && 0 <= a < 4 && #[trigger] five_from(g, t, y, x, a)
}

/// Whether the player to move may play `(y, x)`.
pub open spec fn legal_move(s: GameState, x: int, y: int) -> bool {
    &&& in_board(y, x)
    &&& at(grid(s.board), y, x) == 0
    &&& !double_three(grid(s.board), y, x, s.player())
}

/// The grid once the player to move has put a stone at `(y, x)`, before captures.
pub open spec fn stone_grid(s: GameState, x: int, y: int) -> Grid {
    set_at(grid(s.board), y, x, s.player())
}

/// The stones `(x, y)` that a stone of the player to move at `(y, x)` captures.
pub open spec fn captured_by_move(s: GameState, x: int, y: int) -> Seq<(usize, usize)> {
    captures_of(stone_grid(s, x, y), y, x)
}

/// The board after the player to move plays `(y, x)` (unchanged once the game is won).
pub open spec fn grid_after(s: GameState, x: int, y: int) -> Grid {
    if s.winner is Some {
        grid(s.board)
    } else {
        remove_captures(stone_grid(s, x, y), y, x)
    }
}

/// Player `q`'s capture count after the player to move plays `(y, x)`.
pub open spec fn captures_after(s: GameState, x: int, y: int, q: int) -> int {
    if s.winner is None && q == s.player() - 1 {
        s.captures[q] + captured_by_move(s, x, y).len()
    } else {
        s.captures[q] as int
    }
}

/// The mover reaches ten captures.
pub open spec fn wins_by_captures(s: GameState, x: int, y: int) -> bool {
    captures_after(s, x, y, s.player() - 1) >= 10
}

/// The opponent's pending five survives the move.
pub open spec fn pending_five_stands(s: GameState, x: int, y: int) -> bool {
    let o = opponent_of(s.player());
    s.five_aligned_winner == Some(o) && has_five(grid_after(s, x, y), o)
}

/// The winner after the player to move plays `(y, x)`.
pub open spec fn winner_after(s: GameState, x: int, y: int) -> Option<u8> {
    if s.winner is Some {
        s.winner
    } else if wins_by_captures(s, x, y) {
        Some(s.player())
    } else if pending_five_stands(s, x, y) {
        Some(opponent_of(s.player()))
    } else {
        None
    }
}

/// The pending five after the player to move plays `(y, x)`: a broken five of the
/// opponent is dropped, and a five of the mover becomes pending.
pub open spec fn five_after(s: GameState, x: int, y: int) -> Option<u8> {
    if s.winner is Some || wins_by_captures(s, x, y) || pending_five_stands(s, x, y) {
        s.five_aligned_winner
    } else if has_five(grid_after(s, x, y), s.player()) {
        Some(s.player())
    } else if s.five_aligned_winner == Some(opponent_of(s.player())) {
        None
    } else {
        s.five_aligned_winner
    }
}

/// The turn after the player to move plays `(y, x)`: it advances unless the game
/// is, or becomes, won.
pub open spec fn turn_after(s: GameState, x: int, y: int) -> int {
    if s.winner is Some || wins_by_captures(s, x, y) || pending_five_stands(s, x, y) {
        s.turn_count as int
    } else {
        s.turn_count + 1
    }
}

/// The hash after the player to move plays `(y, x)`: the key of the new stone and
/// those of the captured stones are toggled.
pub open spec fn hash_after(s: GameState, x: int, y: int, z: Zobrist) -> u64 {
    if s.winner is Some {
        s.hash
    } else {
        (s.hash ^ z.key(x, y, s.player() as int)) ^ xor_keys(
            z,
            captured_by_move(s, x, y),
            opponent_of(s.player()),
        )
    }
}

/// The snapshot that `push_history` records.
pub open spec fn snapshot_of(s: GameState) -> GameStateSnapshot {
    GameStateSnapshot {
        board: s.board,
        hash: s.hash,
        captures: s.captures,
        turn_count: s.turn_count,
        winner: s.winner,
        five_aligned_winner: s.five_aligned_winner,
    }
}

/// What `push_history` does: the position is recorded and the count of undos in a
/// row is reset; the position itself is unchanged.
pub open spec fn pushed(before: GameState, after: GameState) -> bool {
    &&& after.history@ == before.history@.push(snapshot_of(before))
    &&& after.undos_since_last_move == 0
    &&& snapshot_of(after) == snapshot_of(before)
    &&& after.mode == before.mode
    &&& after.hint_move == before.hint_move
}

/// What `undo_last_move` does: with a recorded position and fewer than
/// `MAX_UNDOS` undos in a row, the last recorded position comes back and leaves
/// the history; otherwise nothing changes.
pub open spec fn undone(before: GameState, after: GameState, done: bool) -> bool {
    &&& done <==> (before.history@.len() > 0 && before.undos_since_last_move < MAX_UNDOS)
    &&& !done ==> after == before
    &&& done ==> {
        &&& snapshot_of(after) == before.history@.last()
        &&& after.history@ == before.history@.drop_last()
        &&& after.hint_move is None
        &&& after.undos_since_last_move == before.undos_since_last_move + 1
        &&& after.mode == before.mode
    }
}

/// What `place_piece` does with the move `(y, x)` of the player to move.
pub open spec fn placed(before: GameState, after: GameState, x: int, y: int, z: Zobrist) -> bool {
    &&& grid(after.board) == grid_after(before, x, y)
    &&& after.captures[0] == captures_after(before, x, y, 0)
    &&& after.captures[1] == captures_after(before, x, y, 1)
    &&& after.winner == winner_after(before, x, y)
    &&& after.five_aligned_winner == five_after(before, x, y)
    &&& after.turn_count == turn_after(before, x, y)
    &&& after.hash == hash_after(before, x, y, z)
    &&& after.mode == before.mode
    &&& after.hint_move == before.hint_move
    &&& after.history == before.history
    &&& after.undos_since_last_move == before.undos_since_last_move
    &&& before.hash_consistent(z) && at(grid(before.board), y, x) == 0 ==> after.hash_consistent(z)
}

/// Whether cell `i` (row-major) differs between the two grids.
pub open spec fn changed(before: Grid, after: Grid, i: int) -> bool {
    at(before, i / 19, i % 19) != at(after, i / 19, i % 19)
}

/// The last cell (row-major) among the first `n` that changed and is occupied
/// after; -1 if there is none.
pub open spec fn last_placed(before: Grid, after: Grid, n: int) -> int
    decreases n,
{
    if n <= 0 {
        -1
    } else if changed(before, after, n - 1) && at(after, (n - 1) / 19, (n - 1) % 19) != 0 {
        n - 1
    } else {
        last_placed(before, after, n - 1)
    }
}

/// How many of the first `n` cells changed and are empty after.
pub open spec fn emptied_count(before: Grid, after: Grid, n: int) -> int
    decreases n,
{
    if n <= 0 {
        0
    } else {
        emptied_count(before, after, n - 1) + if changed(before, after, n - 1) && at(
            after,
            (n - 1) / 19,
            (n - 1) % 19,
        ) == 0 {
            1int
        } else {
            0
        }
    }
}

/// Move number `number`, read from the boards before and after it: the stone is
/// the last new stone, the captures are the cells that were emptied, and the
/// player alternates, black first.
pub open spec fn move_between(before: Grid, after: Grid, number: u32) -> MoveInfo {
    let i = last_placed(before, after, 361);
    MoveInfo {
        number,
        player: ((number - 1) % 2 + 1) as u8,
        x: (i % 19) as usize,
        y: (i / 19) as usize,
        captures: emptied_count(before, after, 361) as u32,
    }
}

/// The boards of the game: the recorded ones, then the current one.
pub open spec fn boards_of(s: GameState) -> Seq<Grid> {
    s.history@.map_values(|snap: GameStateSnapshot| grid(snap.board)).push(grid(s.board))
}

/// Each recorded board is followed by a board with a new stone.
pub open spec fn history_derivable(s: GameState) -> bool {
    forall|i: int| 0 <= i < s.history@.len() ==> #[trigger] last_placed(boards_of(s)[i], boards_of(s)[i + 1], 361) >= 0
}

/// The moves of the game, one per recorded board.
pub open spec fn moves_of(s: GameState) -> Seq<MoveInfo> {
    Seq::new(s.history@.len(), |i: int| move_between(boards_of(s)[i], boards_of(s)[i + 1], (i + 1) as u32))
}

/// Reads the move that leads from `before` to `after`, numbered `number`.
pub fn derive_move(before: &Board, after: &Board, number: u32) -> (m: MoveInfo)
    requires
        number >= 1,
        last_placed(grid(*before), grid(*after), 361) >= 0,
    ensures
        m == move_between(grid(*before), grid(*after), number),
{
    let ghost gb = grid(*before);
    let ghost ga = grid(*after);
    let mut placed: Option<(usize, usize)> = None;
    let mut captures: u32 = 0;
    for i in 0..361usize
        invariant
            gb == grid(*before),
            ga == grid(*after),
            captures as int == emptied_count(gb, ga, i as int),
            captures <= i,
            match placed {
                None => last_placed(gb, ga, i as int) == -1,
                Some((px, py)) => {
                    let k = last_placed(gb, ga, i as int);
                    k >= 0 && px as int == k % 19 && py as int == k / 19
                },
            },
    {
        let y = i / 19;
        let x = i % 19;
        if before[y][x] != after[y][x] {
            if after[y][x] != 0 {
                placed = Some((x, y));
            } else {
                captures = captures + 1;
            }
        }
    }
    let (x, y) = placed.unwrap();
    MoveInfo { number, player: ((number - 1) % 2 + 1) as u8, x, y, captures }
}

/// Whether some cell changed between the boards and is occupied after.
pub fn has_new_stone(before: &Board, after: &Board) -> (r: bool)
    ensures r == (last_placed(grid(*before), grid(*after), 361) >= 0),
{
    let ghost gb = grid(*before);
    let ghost ga = grid(*after);
    let mut found = false;
    for i in 0..361usize
        invariant
            gb == grid(*before),
            ga == grid(*after),
            found == (last_placed(gb, ga, i as int) >= 0),
    {
        let y = i / 19;
        let x = i % 19;
        if before[y][x] != after[y][x] && after[y][x] != 0 {
            found = true;
        }
    }
    found
}

/// The numeric code of a mode in a save file.
pub open spec fn mode_code(mode: GameMode) -> u8 {
    match mode {
        GameMode::PVP => 1,
        GameMode::PVA => 2,
        GameMode::AVA => 3,
    }
}

/// The numeric code of a mode in a save file.
pub fn mode_to_int(mode: GameMode) -> (r: u8)
    ensures r == mode_code(mode),
{
    match mode {
        GameMode::PVP => 1,
        GameMode::PVA => 2,
        GameMode::AVA => 3,
    }
}

/// The mode of a numeric code, if it is one.
pub fn int_to_mode(value: u8) -> (r: Option<GameMode>)
    ensures
        r matches Some(m) ==> mode_code(m) == value,
        r is None <==> !(1 <= value <= 3),
{
    match value {
        1 => Some(GameMode::PVP),
        2 => Some(GameMode::PVA),
        3 => Some(GameMode::AVA),
        _ => None,
    }
}

impl Clone for GameState {
    /// A copy of the position, without the history.
    fn clone(&self) -> (r: Self)
        ensures
            r.board == self.board,
            r.hash == self.hash,
            r.captures == self.captures,
            r.turn_count == self.turn_count,
            r.winner == self.winner,
            r.five_aligned_winner == self.five_aligned_winner,
            r.mode == self.mode,
            r.hint_move == self.hint_move,
            r.history@.len() == 0,
            r.undos_since_last_move == 0,
    {
        GameState {
            board: self.board,
            hash: self.hash,
            captures: self.captures,
            turn_count: self.turn_count,
            winner: self.winner,
            five_aligned_winner: self.five_aligned_winner,
            mode: self.mode,
            hint_move: self.hint_move,
            history: Vec::new(),
            undos_since_last_move: 0,
        }
    }
}

impl GameState {
    /// The player to move.
    pub open spec fn player(self) -> u8 {
        player_at(self.turn_count)
    }

    /// The stored hash is the Zobrist hash of the board.
    pub open spec fn hash_consistent(self, z: Zobrist) -> bool {
        self.hash == board_hash(z, grid(self.board))
    }

    /// A new game in the given mode: empty board, black (player 1) to move.
    pub fn new(mode: GameMode) -> (s: GameState)
        ensures
            grid(s.board) == empty_grid(),
            s.hash == 0,
            s.captures[0] == 0 && s.captures[1] == 0,
            s.turn_count == 0,
            s.winner is None,
            s.five_aligned_winner is None,
            s.mode == mode,
            s.hint_move is None,
            s.history@.len() == 0,
            s.undos_since_last_move == 0,
    {
        GameState {
            board: new_board(),
            hash: 0,
            captures: [0, 0],
            turn_count: 0,
            winner: None,
            five_aligned_winner: None,
            mode,
            hint_move: None,
            history: Vec::new(),
            undos_since_last_move: 0,
        }
    }

    /// The player to move: 1 (black) on even turns, 2 (white) on odd ones.
    pub fn current_player(&self) -> (p: u8)
        ensures
            p == self.player(),
            p == 1 || p == 2,
            p == 1 <==> self.turn_count % 2 == 0,
    {
        ((self.turn_count % 2) + 1) as u8
    }

    /// Records the current position, so that the next move can be undone; resets
    /// the count of undos in a row.
    pub fn push_history(&mut self)
        ensures
            pushed(*old(self), *final(self)),
    {
        let snap = GameStateSnapshot {
            board: self.board,
            hash: self.hash,
            captures: self.captures,
            turn_count: self.turn_count,
            winner: self.winner,
            five_aligned_winner: self.five_aligned_winner,
        };
        self.history.push(snap);
        self.undos_since_last_move = 0;
    }

    /// Goes back to the last recorded position. Refused (false, nothing changes)
    /// when there is none, or after `MAX_UNDOS` undos in a row.
    pub fn undo_last_move(&mut self) -> (done: bool)
        ensures
            undone(*old(self), *final(self), done),
    {
        if self.history.len() == 0 || self.undos_since_last_move >= MAX_UNDOS {
            return false;
        }
        let prev = self.history.pop().unwrap();
        self.board = prev.board;
        self.hash = prev.hash;
        self.captures = prev.captures;
        self.turn_count = prev.turn_count;
        self.winner = prev.winner;
        self.five_aligned_winner = prev.five_aligned_winner;
        self.hint_move = None;
        self.undos_since_last_move = self.undos_since_last_move + 1;
        true
    }

    /// Whether the stones from `(y, x)` along axis `a` make five of `t`.
    fn five_from_cell(&self, t: u8, y: usize, x: usize, a: usize) -> (r: bool)
        requires y < 19, x < 19, a < 4,
        ensures r == five_from(grid(self.board), t, y as int, x as int, a as int),
    {
        let ghost g = grid(self.board);
        if self.board[y][x] != t {
            assert(!line_holds(g, t, y as int, x as int, a as int, 0));
            return false;
        }
        assert(line_holds(g, t, y as int, x as int, a as int, 0));
        let (dy, dx) = dir8(a);
        let mut count: i32 = 1;
        while count < 5
            invariant
                1 <= count <= 5,
                y < 19, x < 19, a < 4,
                dy == dy8(a as int), dx == dx8(a as int),
                g == grid(self.board),
                forall|j: int| 0 <= j < count ==> #[trigger] line_holds(g, t, y as int, x as int, a as int, j),
            decreases 5 - count,
        {
            let sy = if dy == 1 { count } else if dy == -1 { -count } else { 0 };
            let sx = if dx == 1 { count } else if dx == -1 { -count } else { 0 };
            let ny = y as i32 + sy;
            let nx = x as i32 + sx;
            if ny >= 0 && ny < 19 && nx >= 0 && nx < 19 && self.board[ny as usize][nx as usize] == t {
                count = count + 1;
            } else {
                assert(!line_holds(g, t, y as int, x as int, a as int, count as int));
                return false;
            }
        }
        true
    }

    /// Whether player `target_player` has five stones in a row, column or diagonal.
    pub fn has_five_aligned(&self, target_player: u8) -> (r: bool)
        ensures r == has_five(grid(self.board), target_player),
    {
        let ghost g = grid(self.board);
        for i in 0..361usize
            invariant
                g == grid(self.board),
                forall|yy: int, xx: int, a: int|
                    0 <= yy < 19 && 0 <= xx < 19 && 0 <= a < 4 && yy * 19 + xx < i
                        ==> !#[trigger] five_from(g, target_player, yy, xx, a),
        {
            let y = i / 19;
            let x = i % 19;
            for a in 0..4
                invariant
                    g == grid(self.board),
                    y < 19, x < 19, (y * 19 + x) as int == i as int,
                    forall|yy: int, xx: int, a2: int|
                        0 <= yy < 19 && 0 <= xx < 19 && 0 <= a2 < 4 && yy * 19 + xx < i
                            ==> !#[trigger] five_from(g, target_player, yy, xx, a2),
                    forall|a2: int| 0 <= a2 < a ==> !#[trigger] five_from(g, target_player, y as int, x as int, a2),
            {
                if self.five_from_cell(target_player, y, x, a) {
                    return true;
                }
            }
            assert forall|yy: int, xx: int, a2: int|
                0 <= yy < 19 && 0 <= xx < 19 && 0 <= a2 < 4 && yy * 19 + xx < i + 1
                    implies !#[trigger] five_from(g, target_player, yy, xx, a2) by {
                if yy * 19 + xx == i {
                    assert(yy == y && xx == x) by (nonlinear_arith)
                        requires yy * 19 + xx == y * 19 + x, 0 <= xx < 19, 0 <= x < 19;
                }
            }
        }
        false
    }

    /// Toggles the key of `player` on `(y, x)` in the hash; an empty cell (player 0)
    /// has no key.
    pub fn update_hash(&mut self, x: usize, y: usize, player: u8, zobrist: &Zobrist)
        requires x < 19, y < 19, player <= 2,
        ensures
            final(self).hash == if player == 0 {
                old(self).hash
            } else {
                old(self).hash ^ zobrist.key(x as int, y as int, player as int)
            },
            final(self).board == old(self).board,
            final(self).captures == old(self).captures,
            final(self).turn_count == old(self).turn_count,
            final(self).winner == old(self).winner,
            final(self).five_aligned_winner == old(self).five_aligned_winner,
            final(self).mode == old(self).mode,
            final(self).hint_move == old(self).hint_move,
            final(self).history == old(self).history,
            final(self).undos_since_last_move == old(self).undos_since_last_move,
    {
        if player == 0 {
            return;
        }
        self.hash = self.hash ^ zobrist.get_value(x, y, player);
    }

    /// Whether every cell of the board, and of every recorded board, is empty or
    /// holds a stone: the condition for the hashes to be recomputed.
    pub fn cells_valid(&self) -> (r: bool)
        ensures
            r == (cells_wf(grid(self.board))
                && forall|i: int| 0 <= i < self.history@.len() ==> cells_wf(grid(#[trigger] self.history@[i].board))),
    {
        if !board_cells_ok(&self.board) {
            return false;
        }
        let n = self.history.len();
        for i in 0..n
            invariant
                n == self.history@.len(),
                forall|k: int| 0 <= k < i ==> cells_wf(grid(#[trigger] self.history@[k].board)),
        {
            if !board_cells_ok(&self.history[i].board) {
                return false;
            }
        }
        true
    }

    /// Sets the hash of the position and of every recorded position to the
    /// Zobrist hash of its board.
    pub fn recompute_hash(&mut self, zobrist: &Zobrist)
        requires
            cells_wf(grid(old(self).board)),
            forall|i: int| 0 <= i < old(self).history@.len() ==> cells_wf(grid(#[trigger] old(self).history@[i].board)),
        ensures
            final(self).hash == board_hash(*zobrist, grid(final(self).board)),
            final(self).history@.len() == old(self).history@.len(),
            forall|i: int| 0 <= i < final(self).history@.len() ==> {
                let (a, b) = (#[trigger] final(self).history@[i], old(self).history@[i]);
                &&& a.hash == board_hash(*zobrist, grid(a.board))
                &&& a.board == b.board
                &&& a.captures == b.captures
                &&& a.turn_count == b.turn_count
                &&& a.winner == b.winner
                &&& a.five_aligned_winner == b.five_aligned_winner
            },
            final(self).board == old(self).board,
            final(self).captures == old(self).captures,
            final(self).turn_count == old(self).turn_count,
            final(self).winner == old(self).winner,
            final(self).five_aligned_winner == old(self).five_aligned_winner,
            final(self).mode == old(self).mode,
            final(self).hint_move == old(self).hint_move,
            final(self).undos_since_last_move == old(self).undos_since_last_move,
    {
        self.hash = compute_hash(&self.board, zobrist);
        let n = self.history.len();
        for i in 0..n
            invariant
                n == self.history@.len(),
                self.hash == board_hash(*zobrist, grid(self.board)),
                self.board == old(self).board,
                self.captures == old(self).captures,
                self.turn_count == old(self).turn_count,
                self.winner == old(self).winner,
                self.five_aligned_winner == old(self).five_aligned_winner,
                self.mode == old(self).mode,
                self.hint_move == old(self).hint_move,
                self.undos_since_last_move == old(self).undos_since_last_move,
                self.history@.len() == old(self).history@.len(),
                forall|j: int| 0 <= j < n ==> cells_wf(grid(#[trigger] old(self).history@[j].board)),
                forall|j: int| 0 <= j < n ==> {
                    let (a, b) = (#[trigger] self.history@[j], old(self).history@[j]);
                    &&& j < i ==> a.hash == board_hash(*zobrist, grid(a.board))
                    &&& j >= i ==> a.hash == b.hash
                    &&& a.board == b.board
                    &&& a.captures == b.captures
                    &&& a.turn_count == b.turn_count
                    &&& a.winner == b.winner
                    &&& a.five_aligned_winner == b.five_aligned_winner
                },
        {
            let mut snap = self.history[i];
            snap.hash = compute_hash(&snap.board, zobrist);
            self.history.set(i, snap);
        }
    }

    /// The player to move puts a stone at `(y, x)`: the stones it captures are
    /// removed and counted; ten captures win; a five of the opponent left standing
    /// wins for the opponent, a broken one is dropped; a five of the mover becomes
    /// pending; otherwise the turn passes. Nothing happens once the game is won.
    /// The hash follows the board: if it was the board's Zobrist hash and the cell
    /// was empty, it still is.
    pub fn place_piece(&mut self, x: usize, y: usize, zobrist: &Zobrist)
        requires
            old(self).winner is None ==> x < 19 && y < 19,
            old(self).winner is None ==> captures_after(*old(self), x as int, y as int, old(self).player() - 1) <= u32::MAX,
            old(self).winner is None ==> old(self).turn_count < u32::MAX,
        ensures
            placed(*old(self), *final(self), x as int, y as int, *zobrist),
    {
        if self.winner.is_some() {
            return;
        }
        let ghost s0 = *self;
        let p_current = self.current_player();
        let opponent = if p_current == 1 { 2 } else { 1 };

        put(&mut self.board, y, x, p_current);
        self.update_hash(x, y, p_current, zobrist);
        let ghost g1 = grid(self.board);
        let ghost h1 = self.hash;
        assert(g1 == stone_grid(s0, x as int, y as int));
        let captured_coords = apply_captures(&mut self.board, y, x);
        proof {
            lemma_capture_list(g1, y as int, x as int, 8);
        }
        let n = captured_coords.len();
        proof {
            assert(captured_coords@.take(0) =~= Seq::<(usize, usize)>::empty());
            lemma_xor_facts(h1, 0, 0);
        }
        for i in 0..n
            invariant
                n == captured_coords@.len(),
                captured_coords@ == captures_of(g1, y as int, x as int),
                y < 19, x < 19, opponent == opponent_of(s0.player()),
                s0.player() == p_current, at(g1, y as int, x as int) == p_current,
                forall|j: int| 0 <= j < n ==> {
                    let c = #[trigger] captures_of(g1, y as int, x as int)[j];
                    c.0 < 19 && c.1 < 19
                },
                self.hash == h1 ^ xor_keys(*zobrist, captured_coords@.take(i as int), opponent),
                grid(self.board) == remove_captures(g1, y as int, x as int),
                self.captures == s0.captures,
                self.turn_count == s0.turn_count,
                self.winner == s0.winner,
                self.five_aligned_winner == s0.five_aligned_winner,
                self.mode == s0.mode,
                self.hint_move == s0.hint_move,
                self.history == s0.history,
                self.undos_since_last_move == s0.undos_since_last_move,
        {
            let (cx, cy) = captured_coords[i];
            proof {
                assert(captured_coords@.take(i + 1).drop_last() =~= captured_coords@.take(i as int));
                assert(captured_coords@.take(i + 1).last() == captured_coords@[i as int]);
            }
            self.update_hash(cx, cy, opponent, zobrist);
            proof {
                lemma_xor_facts(h1, xor_keys(*zobrist, captured_coords@.take(i as int), opponent),
                    zobrist.key(cx as int, cy as int, opponent as int));
            }
        }
        assert(captured_coords@.take(n as int) =~= captured_coords@);
        proof {
            if s0.hash_consistent(*zobrist) && at(grid(s0.board), y as int, x as int) == 0 {
                lemma_index(y as int, x as int);
                lemma_hash_set_cell(*zobrist, grid(s0.board), y as int, x as int, p_current);
                lemma_hash_remove_captures(*zobrist, g1, y as int, x as int);
                let hb = board_hash(*zobrist, grid(s0.board));
                let k = zobrist.key(x as int, y as int, p_current as int);
                let xk = xor_keys(*zobrist, captured_coords@, opponent);
                assert(cell_key(*zobrist, grid(s0.board), y * 19 + x) == 0);
                assert(cell_key(*zobrist, g1, y * 19 + x) == k);
                assert((hb ^ (0 ^ k)) ^ xk == (hb ^ k) ^ xk) by (bit_vector);
            }
        }

        let idx = (p_current - 1) as usize;
        self.captures[idx] = self.captures[idx] + n as u32;
        if self.captures[idx] >= 10 {
            self.winner = Some(p_current);
            return;
        }

        if let Some(pending) = self.five_aligned_winner {
            if pending == opponent {
                if self.has_five_aligned(opponent) {
                    self.winner = Some(opponent);
                    return;
                } else {
                    self.five_aligned_winner = None;
                }
            }
        }

        if self.has_five_aligned(p_current) {
            self.five_aligned_winner = Some(p_current);
        }

        self.turn_count = self.turn_count + 1;
    }

    /// Whether every recorded board is followed by a board with a new stone, so
    /// that the move list can be read from the history.
    pub fn history_is_derivable(&self) -> (r: bool)
        ensures r == history_derivable(*self),
    {
        let n = self.history.len();
        let ghost bs = boards_of(*self);
        for i in 0..n
            invariant
                n == self.history@.len(),
                bs == boards_of(*self),
                forall|j: int| 0 <= j < i ==> #[trigger] last_placed(bs[j], bs[j + 1], 361) >= 0,
        {
            let ok = if i + 1 < n {
                has_new_stone(&self.history[i].board, &self.history[i + 1].board)
            } else {
                has_new_stone(&self.history[i].board, &self.board)
            };
            if !ok {
                assert(bs[i as int] == grid(self.history@[i as int].board));
                assert(i + 1 < n ==> bs[i + 1] == grid(self.history@[i + 1].board));
                assert(!(last_placed(bs[i as int], bs[i + 1], 361) >= 0));
                return false;
            }
        }
        true
    }

    /// The moves of the game, read from consecutive recorded boards and the
    /// current one.
    pub fn move_history(&self) -> (moves: Vec<MoveInfo>)
        requires
            history_derivable(*self),
            self.history@.len() < u32::MAX,
        ensures
            moves@ == moves_of(*self),
    {
        let n = self.history.len();
        let ghost bs = boards_of(*self);
        let mut moves: Vec<MoveInfo> = Vec::new();
        for i in 0..n
            invariant
                n == self.history@.len(),
                n < u32::MAX,
                bs == boards_of(*self),
                history_derivable(*self),
                moves@.len() == i,
                forall|j: int| 0 <= j < i ==> #[trigger] moves@[j] == moves_of(*self)[j],
        {
            assert(last_placed(bs[i as int], bs[i + 1], 361) >= 0);
            let m = if i + 1 < n {
                derive_move(&self.history[i].board, &self.history[i + 1].board, (i + 1) as u32)
            } else {
                derive_move(&self.history[i].board, &self.board, (i + 1) as u32)
            };
            moves.push(m);
        }
        assert(moves@ =~= moves_of(*self));
        moves
    }

    /// Whether the player to move may play `(y, x)`; the error says why not.
    pub fn can_place_piece(&self, x: usize, y: usize) -> (r: Result<(), String>)
        ensures
            r is Ok <==> legal_move(*self, x as int, y as int),
            r matches Err(e) ==> e@ == if !in_board(y as int, x as int) {
                "Outside the board"@
            } else if at(grid(self.board), y as int, x as int) != 0 {
                "Already occupied"@
            } else {
                "Forbidden: Double Three"@
            },
    {
        if !(x < 19 && y < 19) {
            return Err("Outside the board".to_owned());
        }
        if self.board[y][x] != 0 {
            return Err("Already occupied".to_owned());
        }
        let player = self.current_player();
        if is_double_three(&self.board, y, x, player) {
            return Err("Forbidden: Double Three".to_owned());
        }
        Ok(())
    }
}

} // verus!

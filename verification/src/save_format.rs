//! The save file: a line-based text format, written and read byte by byte.
//!
//! ```text
//! gomoku_save
//! <mode: 1 PVP, 2 PVA, 3 AVA>
//! <turn count>
//! <black captures> <white captures>
//! <winner, 0 for none>
//! <pending five, 0 for none>
//! <19 lines of 19 cells separated by spaces>
//! <number of recorded positions>
//! then for each recorded position: captures, turn count, winner, pending five, board
//! ```
use vstd::prelude::*;
use crate::board::{Board, Grid, grid, new_board, put};
use crate::game_state::{GameMode, GameState, GameStateSnapshot, int_to_mode, mode_code, mode_to_int};
use crate::text::{
    decimal, lines, next_line_bounds, next_word, parse_number, parse_unsigned, push_decimal, trim,
    trim_bounds, words,
};

verus! {

/// The first line of a save file.
pub open spec fn header_text() -> Seq<u8> {
    seq![103u8, 111, 109, 111, 107, 117, 95, 115, 97, 118, 101]
}

/// The number an optional player is saved as: 0 for none.
pub open spec fn opt_code(o: Option<u8>) -> nat {
    match o {
        Some(v) => v as nat,
        None => 0,
    }
}

/// The first `n` cells of a row, in decimal, separated by spaces.
pub open spec fn row_text(row: Seq<u8>, n: int) -> Seq<u8>
    decreases n,
{
    if n <= 0 {
        Seq::empty()
    } else if n == 1 {
        decimal(row[0] as nat)
    } else {
        row_text(row, n - 1).push(32u8) + decimal(row[n - 1] as nat)
    }
}

/// The first `n` rows of a board, one line each.
pub open spec fn board_text(g: Grid, n: int) -> Seq<u8>
    decreases n,
{
    if n <= 0 { Seq::empty() } else { board_text(g, n - 1) + row_text(g[n - 1], 19).push(10u8) }
}

/// The lines of a recorded position.
pub open spec fn snapshot_text(snap: GameStateSnapshot) -> Seq<u8> {
    (decimal(snap.captures[0] as nat).push(32u8) + decimal(snap.captures[1] as nat)).push(10u8)
        + decimal(snap.turn_count as nat).push(10u8)
        + decimal(opt_code(snap.winner)).push(10u8)
        + decimal(opt_code(snap.five_aligned_winner)).push(10u8)
        + board_text(grid(snap.board), 19)
}

/// The lines of the first `n` recorded positions.
pub open spec fn history_text(h: Seq<GameStateSnapshot>, n: int) -> Seq<u8>
    decreases n,
{
    if n <= 0 { Seq::empty() } else { history_text(h, n - 1) + snapshot_text(h[n - 1]) }
}

/// The save file of a game.
pub open spec fn save_text(s: GameState) -> Seq<u8> {
    header_text().push(10u8)
        + decimal(mode_code(s.mode) as nat).push(10u8)
        + decimal(s.turn_count as nat).push(10u8)
        + (decimal(s.captures[0] as nat).push(32u8) + decimal(s.captures[1] as nat)).push(10u8)
        + decimal(opt_code(s.winner)).push(10u8)
        + decimal(opt_code(s.five_aligned_winner)).push(10u8)
        + board_text(grid(s.board), 19)
        + decimal(s.history@.len()).push(10u8)
        + history_text(s.history@, s.history@.len() as int)
}

/// Appends a number and a line feed.
fn push_number_line(out: &mut Vec<u8>, n: u64)
    ensures final(out)@ == old(out)@ + decimal(n as nat).push(10u8),
{
    push_decimal(out, n);
    out.push(10);
    assert(final(out)@ =~= old(out)@ + decimal(n as nat).push(10u8));
}

/// Appends two numbers on one line.
fn push_pair_line(out: &mut Vec<u8>, a: u32, b: u32)
    ensures final(out)@ == old(out)@ + (decimal(a as nat).push(32u8) + decimal(b as nat)).push(10u8),
{
    push_decimal(out, a as u64);
    out.push(32);
    push_decimal(out, b as u64);
    out.push(10);
    assert(final(out)@ =~= old(out)@ + (decimal(a as nat).push(32u8) + decimal(b as nat)).push(10u8));
}

/// Appends an optional player (0 for none) and a line feed.
fn push_optional_line(out: &mut Vec<u8>, o: Option<u8>)
    ensures final(out)@ == old(out)@ + decimal(opt_code(o)).push(10u8),
{
    let v: u64 = match o {
        Some(v) => v as u64,
        None => 0,
    };
    push_number_line(out, v);
}

/// Appends a board, one line per row.
pub fn write_board(out: &mut Vec<u8>, board: &Board)
    ensures final(out)@ == old(out)@ + board_text(grid(*board), 19),
{
    let ghost g = grid(*board);
    let ghost start = out@;
    for y in 0..19usize
        invariant
            g == grid(*board),
            out@ == start + board_text(g, y as int),
    {
        let ghost before = out@;
        for x in 0..19usize
            invariant
                g == grid(*board),
                y < 19,
                out@ == before + row_text(g[y as int], x as int),
        {
            if x > 0 {
                out.push(32);
            }
            push_decimal(out, board[y][x] as u64);
            assert(out@ =~= before + row_text(g[y as int], x + 1));
        }
        out.push(10);
        assert(out@ =~= start + board_text(g, y + 1));
    }
}

impl GameState {
    /// The save file of the game (see the module documentation).
    pub fn save_bytes(&self) -> (out: Vec<u8>)
        ensures out@ == save_text(*self),
    {
        let mut out: Vec<u8> = Vec::new();
        let header: [u8; 11] = [103, 111, 109, 111, 107, 117, 95, 115, 97, 118, 101];
        for i in 0..11usize
            invariant
                out@ == header@.take(i as int),
        {
            out.push(header[i]);
            assert(out@ =~= header@.take(i + 1));
        }
        assert(header@ =~= header_text());
        out.push(10);
        push_number_line(&mut out, mode_to_int(self.mode) as u64);
        push_number_line(&mut out, self.turn_count as u64);
        push_pair_line(&mut out, self.captures[0], self.captures[1]);
        push_optional_line(&mut out, self.winner);
        push_optional_line(&mut out, self.five_aligned_winner);
        write_board(&mut out, &self.board);
        push_number_line(&mut out, self.history.len() as u64);
        let ghost before = out@;
        let n = self.history.len();
        for i in 0..n
            invariant
                n == self.history@.len(),
                out@ == before + history_text(self.history@, i as int),
        {
            let snap = &self.history[i];
            push_pair_line(&mut out, snap.captures[0], snap.captures[1]);
            push_number_line(&mut out, snap.turn_count as u64);
            push_optional_line(&mut out, snap.winner);
            push_optional_line(&mut out, snap.five_aligned_winner);
            write_board(&mut out, &snap.board);
            assert(out@ =~= before + history_text(self.history@, i + 1));
        }
        assert(out@ =~= save_text(*self));
        out
    }
}

/// Why a save file could not be read.
#[derive(PartialEq, Eq, Structural, Clone, Copy, Debug)]
pub enum LoadError {
    /// The file does not follow the save format.
    Corrupted,
}

/// The error for a file that does not follow the save format.
pub fn corrupted_file() -> (e: LoadError)
    ensures e == LoadError::Corrupted,
{
    LoadError::Corrupted
}

/// The lines of `data` from byte `pos` on.
pub open spec fn rest_lines(data: Seq<u8>, pos: int) -> Seq<Seq<u8>> {
    lines(data.skip(pos))
}

/// The number no greater than `max` that line `i` holds, whitespace around it allowed.
pub open spec fn number_at(l: Seq<Seq<u8>>, i: int, max: nat) -> Option<nat> {
    if 0 <= i < l.len() { parse_unsigned(trim(l[i]), max) } else { None }
}

/// The two numbers (at most `u32::MAX`) that start line `i`.
pub open spec fn pair_at(l: Seq<Seq<u8>>, i: int) -> Option<(nat, nat)> {
    if 0 <= i < l.len() {
        let w = words(l[i]);
        if w.len() >= 2 && parse_unsigned(w[0], u32::MAX as nat) is Some && parse_unsigned(w[1], u32::MAX as nat) is Some {
            Some((parse_unsigned(w[0], u32::MAX as nat).unwrap(), parse_unsigned(w[1], u32::MAX as nat).unwrap()))
        } else {
            None
        }
    } else {
        None
    }
}

/// The nineteen cells (each at most 255) that start line `i`.
pub open spec fn row_at(l: Seq<Seq<u8>>, i: int) -> Option<Seq<u8>> {
    if 0 <= i < l.len() {
        let w = words(l[i]);
        if w.len() >= 19 && forall|j: int| 0 <= j < 19 ==> #[trigger] parse_unsigned(w[j], 255) is Some {
            Some(Seq::new(19, |j: int| parse_unsigned(w[j], 255).unwrap() as u8))
        } else {
            None
        }
    } else {
        None
    }
}

/// The board that lines `i` to `i + 18` hold.
pub open spec fn board_at(l: Seq<Seq<u8>>, i: int) -> Option<Grid> {
    if forall|r: int| 0 <= r < 19 ==> #[trigger] row_at(l, i + r) is Some {
        Some(Seq::new(19, |r: int| row_at(l, i + r).unwrap()))
    } else {
        None
    }
}

/// An optional player saved as a number: 0 for none.
pub open spec fn opt_player(v: nat) -> Option<u8> {
    if v == 0 { None } else { Some(v as u8) }
}

/// Line of the `k`-th recorded position.
pub open spec fn snapshot_line(k: int) -> int {
    26 + 23 * k
}

/// Lines `i` to `i + 22` hold a recorded position.
pub open spec fn snapshot_ok(l: Seq<Seq<u8>>, i: int) -> bool {
    &&& pair_at(l, i) is Some
    &&& number_at(l, i + 1, u32::MAX as nat) is Some
    &&& number_at(l, i + 2, 255) is Some
    &&& number_at(l, i + 3, 255) is Some
    &&& board_at(l, i + 4) is Some
}

/// The lines follow the save format.
pub open spec fn save_ok(l: Seq<Seq<u8>>) -> bool {
    &&& l.len() > 0 && l[0] == header_text()
    &&& number_at(l, 1, 255) matches Some(m) && 1 <= m <= 3
    &&& number_at(l, 2, u32::MAX as nat) is Some
    &&& pair_at(l, 3) is Some
    &&& number_at(l, 4, 255) is Some
    &&& number_at(l, 5, 255) is Some
    &&& board_at(l, 6) is Some
    &&& number_at(l, 25, u32::MAX as nat) is Some
    &&& forall|k: int| 0 <= k < number_at(l, 25, u32::MAX as nat).unwrap() ==> #[trigger] snapshot_ok(l, snapshot_line(k))
}

/// The snapshot recorded at line `i` matches `snap` (its hash aside).
pub open spec fn snapshot_read(l: Seq<Seq<u8>>, i: int, snap: GameStateSnapshot) -> bool {
    &&& snap.captures[0] == pair_at(l, i).unwrap().0
    &&& snap.captures[1] == pair_at(l, i).unwrap().1
    &&& snap.turn_count == number_at(l, i + 1, u32::MAX as nat).unwrap()
    &&& snap.winner == opt_player(number_at(l, i + 2, 255).unwrap())
    &&& snap.five_aligned_winner == opt_player(number_at(l, i + 3, 255).unwrap())
    &&& grid(snap.board) == board_at(l, i + 4).unwrap()
}

/// Reads the next line.
pub fn next_line(data: &[u8], pos: &mut usize) -> (r: Result<(usize, usize), LoadError>)
    requires *old(pos) <= data@.len(),
    ensures
        *final(pos) <= data@.len(),
        r is Ok <==> rest_lines(data@, *old(pos) as int).len() > 0,
        r matches Ok((a, b)) ==> {
            &&& a <= b <= data@.len()
            &&& data@.subrange(a as int, b as int) == rest_lines(data@, *old(pos) as int)[0]
            &&& rest_lines(data@, *final(pos) as int) == rest_lines(data@, *old(pos) as int).drop_first()
        },
        r matches Err(e) ==> e == LoadError::Corrupted,
{
    match next_line_bounds(data, pos) {
        Some(bounds) => Ok(bounds),
        None => Err(corrupted_file()),
    }
}

/// Reads a line holding one number no greater than `max`.
fn read_number(data: &[u8], pos: &mut usize, max: u32) -> (r: Result<u32, LoadError>)
    requires *old(pos) <= data@.len(),
    ensures
        *final(pos) <= data@.len(),
        r is Ok <==> number_at(rest_lines(data@, *old(pos) as int), 0, max as nat) is Some,
        r matches Ok(v) ==> {
            &&& v == number_at(rest_lines(data@, *old(pos) as int), 0, max as nat).unwrap()
            &&& rest_lines(data@, *final(pos) as int) == rest_lines(data@, *old(pos) as int).drop_first()
        },
        r matches Err(e) ==> e == LoadError::Corrupted,
{
    let (a, b) = next_line(data, pos)?;
    let (ta, tb) = trim_bounds(data, a, b);
    match parse_number(data, ta, tb, max) {
        Some(v) => Ok(v),
        None => Err(corrupted_file()),
    }
}

/// Reads a line holding a number no greater than 255.
pub fn read_u8(data: &[u8], pos: &mut usize) -> (r: Result<u8, LoadError>)
    requires *old(pos) <= data@.len(),
    ensures
        *final(pos) <= data@.len(),
        r is Ok <==> number_at(rest_lines(data@, *old(pos) as int), 0, 255) is Some,
        r matches Ok(v) ==> {
            &&& v == number_at(rest_lines(data@, *old(pos) as int), 0, 255).unwrap()
            &&& rest_lines(data@, *final(pos) as int) == rest_lines(data@, *old(pos) as int).drop_first()
        },
        r matches Err(e) ==> e == LoadError::Corrupted,
{
    let v = read_number(data, pos, 255)?;
    Ok(v as u8)
}

/// Reads a line holding a number no greater than `u32::MAX`.
pub fn read_u32(data: &[u8], pos: &mut usize) -> (r: Result<u32, LoadError>)
    requires *old(pos) <= data@.len(),
    ensures
        *final(pos) <= data@.len(),
        r is Ok <==> number_at(rest_lines(data@, *old(pos) as int), 0, u32::MAX as nat) is Some,
        r matches Ok(v) ==> {
            &&& v == number_at(rest_lines(data@, *old(pos) as int), 0, u32::MAX as nat).unwrap()
            &&& rest_lines(data@, *final(pos) as int) == rest_lines(data@, *old(pos) as int).drop_first()
        },
        r matches Err(e) ==> e == LoadError::Corrupted,
{
    read_number(data, pos, u32::MAX)
}

/// Reads an optional player: 0 for none.
pub fn read_optional_u8(data: &[u8], pos: &mut usize) -> (r: Result<Option<u8>, LoadError>)
    requires *old(pos) <= data@.len(),
    ensures
        *final(pos) <= data@.len(),
        r is Ok <==> number_at(rest_lines(data@, *old(pos) as int), 0, 255) is Some,
        r matches Ok(v) ==> {
            &&& v == opt_player(number_at(rest_lines(data@, *old(pos) as int), 0, 255).unwrap())
            &&& rest_lines(data@, *final(pos) as int) == rest_lines(data@, *old(pos) as int).drop_first()
        },
        r matches Err(e) ==> e == LoadError::Corrupted,
{
    let value = read_u8(data, pos)?;
    Ok(if value == 0 { None } else { Some(value) })
}

/// Reads a line starting with the two capture counts.
pub fn read_captures(data: &[u8], pos: &mut usize) -> (r: Result<[u32; 2], LoadError>)
    requires *old(pos) <= data@.len(),
    ensures
        *final(pos) <= data@.len(),
        r is Ok <==> pair_at(rest_lines(data@, *old(pos) as int), 0) is Some,
        r matches Ok(v) ==> {
            &&& v[0] == pair_at(rest_lines(data@, *old(pos) as int), 0).unwrap().0
            &&& v[1] == pair_at(rest_lines(data@, *old(pos) as int), 0).unwrap().1
            &&& rest_lines(data@, *final(pos) as int) == rest_lines(data@, *old(pos) as int).drop_first()
        },
        r matches Err(e) ==> e == LoadError::Corrupted,
{
    let ghost l = rest_lines(data@, *pos as int);
    let (a, b) = next_line(data, pos)?;
    let ghost w = words(data@.subrange(a as int, b as int));
    let mut wp = a;
    let first = match next_word(data, b, &mut wp) {
        Some(bounds) => bounds,
        None => return Err(corrupted_file()),
    };
    let c0 = match parse_number(data, first.0, first.1, u32::MAX) {
        Some(v) => v,
        None => return Err(corrupted_file()),
    };
    let second = match next_word(data, b, &mut wp) {
        Some(bounds) => bounds,
        None => return Err(corrupted_file()),
    };
    let c1 = match parse_number(data, second.0, second.1, u32::MAX) {
        Some(v) => v,
        None => return Err(corrupted_file()),
    };
    Ok([c0, c1])
}

/// Reads a line starting with nineteen cells.
fn read_row(data: &[u8], pos: &mut usize) -> (r: Result<Vec<u8>, LoadError>)
    requires *old(pos) <= data@.len(),
    ensures
        *final(pos) <= data@.len(),
        r is Ok <==> row_at(rest_lines(data@, *old(pos) as int), 0) is Some,
        r matches Ok(v) ==> {
            &&& v@ == row_at(rest_lines(data@, *old(pos) as int), 0).unwrap()
            &&& rest_lines(data@, *final(pos) as int) == rest_lines(data@, *old(pos) as int).drop_first()
        },
        r matches Err(e) ==> e == LoadError::Corrupted,
{
    let ghost l = rest_lines(data@, *pos as int);
    let (a, b) = next_line(data, pos)?;
    let ghost w = words(data@.subrange(a as int, b as int));
    let mut wp = a;
    let mut row: Vec<u8> = Vec::new();
    for c in 0..19usize
        invariant
            a <= wp <= b <= data@.len(),
            *pos <= data@.len(),
            l.len() > 0,
            l == rest_lines(data@, *old(pos) as int),
            l[0] == data@.subrange(a as int, b as int),
            w == words(data@.subrange(a as int, b as int)),
            words(data@.subrange(wp as int, b as int)) == w.skip(c as int),
            row@.len() == c,
            c <= w.len(),
            forall|j: int| 0 <= j < c ==> #[trigger] parse_unsigned(w[j], 255) is Some && row@[j] == parse_unsigned(w[j], 255).unwrap() as u8,
    {
        let ghost wp0 = wp;
        let cell = match next_word(data, b, &mut wp) {
            Some(bounds) => bounds,
            None => {
                assert(w.len() < 19);
                return Err(corrupted_file());
            },
        };
        assert(w.skip(c as int)[0] == w[c as int]);
        let v = match parse_number(data, cell.0, cell.1, 255) {
            Some(v) => v,
            None => {
                assert(!(parse_unsigned(w[c as int], 255) is Some));
                return Err(corrupted_file());
            },
        };
        row.push(v as u8);
        assert(w.skip(c as int).drop_first() =~= w.skip(c + 1));
    }
    assert(row@ =~= row_at(l, 0).unwrap());
    Ok(row)
}

/// Reads the nineteen lines of a board.
pub fn read_board(data: &[u8], pos: &mut usize) -> (r: Result<Board, LoadError>)
    requires *old(pos) <= data@.len(),
    ensures
        *final(pos) <= data@.len(),
        r is Ok <==> board_at(rest_lines(data@, *old(pos) as int), 0) is Some,
        r matches Ok(b) ==> {
            &&& grid(b) == board_at(rest_lines(data@, *old(pos) as int), 0).unwrap()
            &&& rest_lines(data@, *final(pos) as int) == rest_lines(data@, *old(pos) as int).skip(19)
        },
        r matches Err(e) ==> e == LoadError::Corrupted,
{
    let ghost l = rest_lines(data@, *pos as int);
    let mut board = new_board();
    for y in 0..19usize
        invariant
            *pos <= data@.len(),
            y <= l.len(),
            l == rest_lines(data@, *old(pos) as int),
            rest_lines(data@, *pos as int) == l.skip(y as int),
            forall|r: int| 0 <= r < y ==> #[trigger] row_at(l, r) is Some && grid(board)[r] == row_at(l, r).unwrap(),
    {
        let ghost l_here = rest_lines(data@, *pos as int);
        proof {
            if y < l.len() {
                assert(l_here[0] == l[y as int]);
            } else {
                assert(l_here.len() == 0);
            }
        }
        let row = match read_row(data, pos) {
            Ok(row) => row,
            Err(e) => {
                assert(row_at(l_here, 0) == row_at(l, y as int));
                assert(!(row_at(l, y as int) is Some));
                assert(!(row_at(l, 0 + y) is Some));
                return Err(e);
            },
        };
        assert(row_at(l_here, 0) == row_at(l, y as int));
        let ghost g0 = grid(board);
        for x in 0..19usize
            invariant
                y < 19,
                row@.len() == 19,
                forall|r: int| 0 <= r < 19 && r != y ==> #[trigger] grid(board)[r] == g0[r],
                forall|c: int| 0 <= c < x ==> #[trigger] grid(board)[y as int][c] == row@[c],
                forall|c: int| x <= c < 19 ==> #[trigger] grid(board)[y as int][c] == g0[y as int][c],
                grid(board)[y as int].len() == 19,
        {
            put(&mut board, y, x, row[x]);
        }
        assert(grid(board)[y as int] =~= row@);
        assert(l.skip(y as int).drop_first() =~= l.skip(y + 1));
    }
    assert(grid(board) =~= board_at(l, 0).unwrap());
    Ok(board)
}

/// Reading from line `i` on is reading line `i + j` for line `j`.
proof fn lemma_skip_lines(l: Seq<Seq<u8>>, i: int)
    requires 0 <= i <= l.len(),
    ensures
        forall|m: nat| #[trigger] number_at(l.skip(i), 0, m) == number_at(l, i, m),
        pair_at(l.skip(i), 0) == pair_at(l, i),
        board_at(l.skip(i), 0) == board_at(l, i),
        l.skip(i).drop_first() == l.skip(i + 1) || i == l.len(),
        i + 19 <= l.len() ==> l.skip(i).skip(19) == l.skip(i + 19),
{
    let t = l.skip(i);
    assert forall|r: int| 0 <= r implies #[trigger] row_at(t, 0 + r) == row_at(l, i + r) by {
        if 0 <= r && i + r < l.len() {
            assert(t[r] == l[i + r]);
        }
    }
    if i < l.len() {
        assert(t.drop_first() =~= l.skip(i + 1));
    }
    if i + 19 <= l.len() {
        assert(t.skip(19) =~= l.skip(i + 19));
    }
    assert(board_at(t, 0) == board_at(l, i)) by {
        if forall|r: int| 0 <= r < 19 ==> #[trigger] row_at(t, 0 + r) is Some {
            assert forall|r: int| 0 <= r < 19 implies #[trigger] row_at(l, i + r) is Some by {
                assert(row_at(t, 0 + r) is Some);
            }
            assert(board_at(t, 0).unwrap() =~= board_at(l, i).unwrap());
        } else {
            let r = choose|r: int| 0 <= r < 19 && !(#[trigger] row_at(t, 0 + r) is Some);
            assert(!(row_at(l, i + r) is Some));
        }
    }
}

/// Whether `data[a..b]` is the header line.
fn is_header(data: &[u8], a: usize, b: usize) -> (r: bool)
    requires a <= b <= data@.len(),
    ensures r == (data@.subrange(a as int, b as int) == header_text()),
{
    let header: [u8; 11] = [103, 111, 109, 111, 107, 117, 95, 115, 97, 118, 101];
    assert(header@ =~= header_text());
    if b - a != 11 {
        return false;
    }
    for i in 0..11usize
        invariant
            b - a == 11,
            b <= data@.len(),
            header@ == header_text(),
            forall|j: int| 0 <= j < i ==> data@[a + j] == header@[j],
    {
        if data[a + i] != header[i] {
            assert(data@.subrange(a as int, b as int)[i as int] != header_text()[i as int]);
            return false;
        }
    }
    assert(data@.subrange(a as int, b as int) =~= header_text());
    true
}

/// What a successful read of `data` gives.
pub open spec fn loaded_from(l: Seq<Seq<u8>>, s: GameState) -> bool {
    &&& mode_code(s.mode) == number_at(l, 1, 255).unwrap()
    &&& s.turn_count == number_at(l, 2, u32::MAX as nat).unwrap()
    &&& s.captures[0] == pair_at(l, 3).unwrap().0
    &&& s.captures[1] == pair_at(l, 3).unwrap().1
    &&& s.winner == opt_player(number_at(l, 4, 255).unwrap())
    &&& s.five_aligned_winner == opt_player(number_at(l, 5, 255).unwrap())
    &&& grid(s.board) == board_at(l, 6).unwrap()
    &&& s.history@.len() == number_at(l, 25, u32::MAX as nat).unwrap()
    &&& forall|k: int| 0 <= k < s.history@.len() ==> snapshot_read(l, snapshot_line(k), #[trigger] s.history@[k])
        && s.history@[k].hash == 0
    &&& s.hash == 0
    &&& s.hint_move is None
    &&& s.undos_since_last_move == 0
}

/// Reads a recorded position.
fn read_snapshot(data: &[u8], pos: &mut usize) -> (r: Result<GameStateSnapshot, LoadError>)
    requires *old(pos) <= data@.len(),
    ensures
        *final(pos) <= data@.len(),
        r is Ok <==> snapshot_ok(rest_lines(data@, *old(pos) as int), 0),
        r matches Ok(snap) ==> {
            &&& snapshot_read(rest_lines(data@, *old(pos) as int), 0, snap)
            &&& snap.hash == 0
            &&& rest_lines(data@, *final(pos) as int) == rest_lines(data@, *old(pos) as int).skip(23)
        },
        r matches Err(e) ==> e == LoadError::Corrupted,
{
    let ghost l = rest_lines(data@, *pos as int);
    proof {
        lemma_skip_lines(l, 0);
    }
    let captures = read_captures(data, pos)?;
    proof {
        lemma_skip_lines(l, 1);
    }
    let turn_count = read_u32(data, pos)?;
    proof {
        lemma_skip_lines(l, 2);
    }
    let winner = read_optional_u8(data, pos)?;
    proof {
        lemma_skip_lines(l, 3);
    }
    let five_aligned_winner = read_optional_u8(data, pos)?;
    proof {
        lemma_skip_lines(l, 4);
    }
    let board = read_board(data, pos)?;
    proof {
        assert(row_at(l.skip(4), 0int + 18) is Some);
        assert(l.skip(4).skip(19) =~= l.skip(23));
    }
    Ok(GameStateSnapshot { board, hash: 0, captures, turn_count, winner, five_aligned_winner })
}

impl GameState {
    /// Reads a game from its save file (see the module documentation); every
    /// departure from the format is `LoadError::Corrupted`. The hashes are left at
    /// 0, to be recomputed.
    pub fn load_from_bytes(data: &[u8]) -> (r: Result<GameState, LoadError>)
        ensures
            r is Ok <==> save_ok(lines(data@)),
            r matches Ok(s) ==> loaded_from(lines(data@), s),
            r matches Err(e) ==> e == LoadError::Corrupted,
    {
        let ghost l = lines(data@);
        let mut pos: usize = 0;
        assert(data@.skip(0) =~= data@);
        let (a, b) = next_line(data, &mut pos)?;
        if !is_header(data, a, b) {
            return Err(corrupted_file());
        }
        proof {
            lemma_skip_lines(l, 1);
        }
        let code = read_u8(data, &mut pos)?;
        let mode = match int_to_mode(code) {
            Some(m) => m,
            None => return Err(corrupted_file()),
        };
        proof {
            lemma_skip_lines(l, 2);
        }
        let turn_count = read_u32(data, &mut pos)?;
        proof {
            lemma_skip_lines(l, 3);
        }
        let captures = read_captures(data, &mut pos)?;
        proof {
            lemma_skip_lines(l, 4);
        }
        let winner = read_optional_u8(data, &mut pos)?;
        proof {
            lemma_skip_lines(l, 5);
        }
        let five_aligned_winner = read_optional_u8(data, &mut pos)?;
        proof {
            lemma_skip_lines(l, 6);
        }
        let board = read_board(data, &mut pos)?;
        proof {
            assert(row_at(l.skip(6), 0int + 18) is Some);
            lemma_skip_lines(l, 6);
            lemma_skip_lines(l, 25);
        }
        let history_len = read_u32(data, &mut pos)?;
        let mut history: Vec<GameStateSnapshot> = Vec::new();
        let mut k: u32 = 0;
        while k < history_len
            invariant
                pos <= data@.len(),
                l == lines(data@),
                26 <= l.len(),
                history_len == number_at(l, 25, u32::MAX as nat).unwrap(),
                k <= history_len,
                snapshot_line(k as int) <= l.len(),
                rest_lines(data@, pos as int) == l.skip(snapshot_line(k as int)),
                history@.len() == k,
                forall|j: int| 0 <= j < k ==> #[trigger] snapshot_ok(l, snapshot_line(j)),
                forall|j: int| 0 <= j < k ==> snapshot_read(l, snapshot_line(j), #[trigger] history@[j]) && history@[j].hash == 0,
            decreases history_len - k,
        {
            let ghost i = snapshot_line(k as int);
            proof {
                lemma_skip_lines_snapshot(l, i);
            }
            let snap = match read_snapshot(data, &mut pos) {
                Ok(snap) => snap,
                Err(e) => {
                    assert(!snapshot_ok(l, snapshot_line(k as int)));
                    return Err(e);
                },
            };
            history.push(snap);
            proof {
                assert(l.skip(i).skip(23) =~= l.skip(snapshot_line(k + 1)));
            }
            k = k + 1;
        }
        let mut state = GameState::new(mode);
        state.board = board;
        state.captures = captures;
        state.turn_count = turn_count;
        state.winner = winner;
        state.five_aligned_winner = five_aligned_winner;
        state.history = history;
        Ok(state)
    }
}

/// A recorded position read from line `i` on is one read from line 0 of the rest.
proof fn lemma_skip_lines_snapshot(l: Seq<Seq<u8>>, i: int)
    requires 0 <= i <= l.len(),
    ensures
        snapshot_ok(l.skip(i), 0) == snapshot_ok(l, i),
        forall|snap: GameStateSnapshot| snapshot_read(l.skip(i), 0, snap) == #[trigger] snapshot_read(l, i, snap),
        snapshot_ok(l, i) ==> i + 23 <= l.len(),
{
    let t = l.skip(i);
    lemma_skip_lines(l, i);
    assert forall|j: int| 0 <= j < 4 implies #[trigger] number_at(t, j, 255) == number_at(l, i + j, 255)
        && number_at(t, j, u32::MAX as nat) == number_at(l, i + j, u32::MAX as nat) by {
        if i + j < l.len() {
            assert(t[j] == l[i + j]);
        }
    }
    assert forall|r: int| 0 <= r implies #[trigger] row_at(t, 4 + r) == row_at(l, i + 4 + r) by {
        if 0 <= 4 + r && i + 4 + r < l.len() {
            assert(t[4 + r] == l[i + 4 + r]);
        }
    }
    assert(board_at(t, 4) == board_at(l, i + 4)) by {
        if forall|r: int| 0 <= r < 19 ==> #[trigger] row_at(t, 4 + r) is Some {
            assert forall|r: int| 0 <= r < 19 implies #[trigger] row_at(l, i + 4 + r) is Some by {
                assert(row_at(t, 4 + r) is Some);
            }
            assert(board_at(t, 4).unwrap() =~= board_at(l, i + 4).unwrap());
        } else {
            let r = choose|r: int| 0 <= r < 19 && !(#[trigger] row_at(t, 4 + r) is Some);
            assert(!(row_at(l, i + 4 + r) is Some));
        }
    }
    if snapshot_ok(l, i) {
        assert(row_at(l, i + 4 + 18) is Some);
    }
}

} // verus!

//! The plain terminal game: two players take turns putting `X` and `O` on a
//! board of characters drawn with box-drawing lines, with no other rule.
use vstd::prelude::*;
use crate::text::{next_word, parse_size, parse_unsigned, words};

verus! {

/// A board of the plain game: one character per cell, a space when empty.
pub type CharBoard = [[char; 19]; 19];

/// The rows of the board, each as a sequence of characters.
pub open spec fn cells(b: CharBoard) -> Seq<Seq<char>> {
    b@.map_values(|r: [char; 19]| r@)
}

/// What a line typed by the player did.
#[derive(PartialEq, Eq, Structural, Clone, Copy, Debug)]
pub enum TurnResult {
    /// Not two numbers on the board: ask again without a word.
    Retry,
    /// The cell is taken: ask again.
    Occupied,
    /// The stone was put and the turn passed.
    Played,
}

/// The number `n < 100` centred in four columns, as `{:^4}` writes it.
pub open spec fn centred4(n: int) -> Seq<char> {
    if n < 10 {
        seq![' ', (n + 48) as char, ' ', ' ']
    } else {
        seq![' ', (n / 10 + 48) as char, (n % 10 + 48) as char, ' ']
    }
}

/// The number `n < 100` right-aligned in two columns, as `{:2}` writes it.
pub open spec fn right2(n: int) -> Seq<char> {
    if n < 10 {
        seq![' ', (n + 48) as char]
    } else {
        seq![(n / 10 + 48) as char, (n % 10 + 48) as char]
    }
}

/// The first `k` column labels.
pub open spec fn labels(k: int) -> Seq<char>
    decreases k,
{
    if k <= 0 {
        Seq::empty()
    } else {
        labels(k - 1) + centred4(k - 1)
    }
}

/// A rule line of 19 cells: `left`, then three `─` and `mid` per cell, the last
/// cell closed by `right` in place of `mid`, for the first `k` cells.
pub open spec fn rule_cells(k: int, mid: char, right: char) -> Seq<char>
    decreases k,
{
    if k <= 0 {
        Seq::empty()
    } else {
        rule_cells(k - 1, mid, right) + seq!['─', '─', '─', if k == 19 { right } else { mid }]
    }
}

/// A full rule line, with its margin and line break.
pub open spec fn rule_line(left: char, mid: char, right: char) -> Seq<char> {
    seq![' ', ' ', ' ', left] + rule_cells(19, mid, right) + seq!['\n']
}

/// The first `k` cells of row `y`, each centred in three columns and followed by
/// `│` except the last.
pub open spec fn row_chars(b: CharBoard, y: int, k: int) -> Seq<char>
    decreases k,
{
    if k <= 0 {
        Seq::empty()
    } else {
        row_chars(b, y, k - 1) + seq![' ', b[y][k - 1], ' '] + if k < 19 {
            seq!['│']
        } else {
            Seq::empty()
        }
    }
}

/// Row `y` with its label, its borders, and the rule below it but for the last row.
pub open spec fn row_block(b: CharBoard, y: int) -> Seq<char> {
    right2(y) + seq![' ', '│'] + row_chars(b, y, 19) + seq!['│', '\n'] + if y + 1 < 19 {
        rule_line('├', '┼', '┤')
    } else {
        Seq::empty()
    }
}

/// The first `k` rows.
pub open spec fn row_blocks(b: CharBoard, k: int) -> Seq<char>
    decreases k,
{
    if k <= 0 {
        Seq::empty()
    } else {
        row_blocks(b, k - 1) + row_block(b, k - 1)
    }
}

/// The whole drawing: labels, top rule, rows, bottom rule.
pub open spec fn framed(b: CharBoard) -> Seq<char> {
    seq![' ', ' ', ' ', ' '] + labels(19) + seq!['\n'] + rule_line('┌', '┬', '┐') + row_blocks(b, 19)
        + rule_line('└', '┴', '┘')
}

/// What a typed line does to the board at turn `turn`: two words that read as
/// numbers `x y` on the board put `X` (even turn) or `O` (odd turn) on an empty
/// cell; a taken cell is reported; anything else is asked again.
pub open spec fn turn_outcome(b: CharBoard, input: Seq<u8>) -> TurnResult {
    let w = words(input);
    if w.len() != 2 {
        TurnResult::Retry
    } else {
        match (parse_unsigned(w[0], usize::MAX as nat), parse_unsigned(w[1], usize::MAX as nat)) {
            (Some(x), Some(y)) => if x >= 19 || y >= 19 {
                TurnResult::Retry
            } else if b[y as int][x as int] == ' ' {
                TurnResult::Played
            } else {
                TurnResult::Occupied
            },
            _ => TurnResult::Retry,
        }
    }
}

/// The cell `(x, y)` that a typed line names: two words that read as numbers
/// below 19.
pub open spec fn placement(input: Seq<u8>) -> Option<(int, int)> {
    let w = words(input);
    if w.len() != 2 {
        None
    } else {
        match (parse_unsigned(w[0], usize::MAX as nat), parse_unsigned(w[1], usize::MAX as nat)) {
            (Some(x), Some(y)) => if x < 19 && y < 19 {
                Some((x as int, y as int))
            } else {
                None
            },
            _ => None,
        }
    }
}

/// The mark put at turn `t`: `X` on even turns, `O` on odd ones.
pub open spec fn mark(t: int) -> char {
    if t % 2 == 0 { 'X' } else { 'O' }
}

/// The cells and the turn after the line `input` is typed at turn `t`: a named
/// empty cell gets the turn's mark and the turn passes; nothing else changes.
pub open spec fn after_turn(c: Seq<Seq<char>>, t: int, input: Seq<u8>) -> (Seq<Seq<char>>, int) {
    match placement(input) {
        Some((x, y)) => if c[y][x] == ' ' {
            (c.update(y, c[y].update(x, mark(t))), t + 1)
        } else {
            (c, t)
        },
        None => (c, t),
    }
}

/// The cells and the turn after the lines `inputs` are typed in order.
pub open spec fn after_turns(c: Seq<Seq<char>>, t: int, inputs: Seq<Seq<u8>>) -> (Seq<Seq<char>>, int)
    decreases inputs.len(),
{
    if inputs.len() == 0 {
        (c, t)
    } else {
        let (c1, t1) = after_turn(c, t, inputs[0]);
        after_turns(c1, t1, inputs.drop_first())
    }
}

/// Nineteen rows of nineteen cells.
pub open spec fn square(c: Seq<Seq<char>>) -> bool {
    c.len() == 19 && forall|i: int| 0 <= i < 19 ==> (#[trigger] c[i]).len() == 19
}

/// The taken cells among the first `k` of a row.
pub open spec fn row_stones(r: Seq<char>, k: int) -> int
    decreases k,
{
    if k <= 0 {
        0
    } else {
        row_stones(r, k - 1) + if r[k - 1] != ' ' { 1int } else { 0int }
    }
}

/// The taken cells among the first `k` rows.
pub open spec fn stones(c: Seq<Seq<char>>, k: int) -> int
    decreases k,
{
    if k <= 0 {
        0
    } else {
        stones(c, k - 1) + row_stones(c[k - 1], 19)
    }
}

/// The number of taken cells on the board.
pub open spec fn stone_count(c: Seq<Seq<char>>) -> int {
    stones(c, 19)
}

/// A row holds at most one stone per cell.
pub proof fn lemma_row_stones_bound(r: Seq<char>, k: int)
    requires 0 <= k,
    ensures 0 <= row_stones(r, k) <= k,
    decreases k,
{
    if k > 0 {
        lemma_row_stones_bound(r, k - 1);
    }
}

/// The board holds at most nineteen stones per row.
pub proof fn lemma_stones_bound(c: Seq<Seq<char>>, k: int)
    requires 0 <= k,
    ensures 0 <= stones(c, k) <= 19 * k,
    decreases k,
{
    if k > 0 {
        lemma_stones_bound(c, k - 1);
        lemma_row_stones_bound(c[k - 1], 19);
    }
}

/// Marking an empty cell of a row adds one stone to the prefixes that hold it.
proof fn lemma_row_stones_mark(r: Seq<char>, k: int, x: int, ch: char)
    requires
        0 <= x < r.len(),
        k <= r.len(),
        r[x] == ' ',
        ch != ' ',
    ensures
        row_stones(r.update(x, ch), k) == row_stones(r, k) + if x < k { 1int } else { 0int },
    decreases k,
{
    if k > 0 {
        lemma_row_stones_mark(r, k - 1, x, ch);
    }
}

/// Replacing row `y` changes the count of the prefixes that hold it by the
/// difference of the two rows.
proof fn lemma_stones_replace(c: Seq<Seq<char>>, k: int, y: int, row: Seq<char>)
    requires
        0 <= y < c.len(),
        k <= c.len(),
    ensures
        stones(c.update(y, row), k) == stones(c, k) + if y < k { row_stones(row, 19) - row_stones(c[y], 19) } else { 0int },
    decreases k,
{
    if k > 0 {
        lemma_stones_replace(c, k - 1, y, row);
    }
}

/// One typed line keeps the board square, keeps the turn equal to the number of
/// stones, and replaces no stone.
pub proof fn lemma_after_turn(c: Seq<Seq<char>>, t: int, input: Seq<u8>)
    requires
        square(c),
        t == stone_count(c),
    ensures ({
        let (c2, t2) = after_turn(c, t, input);
        &&& square(c2)
        &&& t2 == stone_count(c2)
        &&& forall|y: int, x: int| 0 <= y < 19 && 0 <= x < 19 && c[y][x] != ' ' ==> #[trigger] c2[y][x] == c[y][x]
    }),
{
    match placement(input) {
        Some((x, y)) => {
            if c[y][x] == ' ' {
                let row = c[y].update(x, mark(t));
                lemma_row_stones_mark(c[y], 19, x, mark(t));
                lemma_stones_replace(c, 19, y, row);
                let c2 = c.update(y, row);
                assert forall|i: int| 0 <= i < 19 implies (#[trigger] c2[i]).len() == 19 by {
                    if i != y {
                        assert(c2[i] == c[i]);
                    }
                }
            }
        },
        None => {},
    }
}

/// A blank row prefix holds no stone.
proof fn lemma_blank_row(r: Seq<char>, k: int)
    requires
        k <= r.len(),
        forall|i: int| 0 <= i < r.len() ==> r[i] == ' ',
    ensures row_stones(r, k) == 0,
    decreases k,
{
    if k > 0 {
        lemma_blank_row(r, k - 1);
    }
}

/// A blank board holds no stone.
pub proof fn lemma_blank_board(c: Seq<Seq<char>>, k: int)
    requires
        square(c),
        k <= 19,
        forall|y: int, x: int| 0 <= y < 19 && 0 <= x < 19 ==> #[trigger] c[y][x] == ' ',
    ensures stones(c, k) == 0,
    decreases k,
{
    if k > 0 {
        lemma_blank_board(c, k - 1);
        assert forall|i: int| 0 <= i < c[k - 1].len() implies #[trigger] c[k - 1][i] == ' ' by {
            assert(c[k - 1][i] == ' ');
        }
        lemma_blank_row(c[k - 1], 19);
    }
}

/// Appends the characters of a rule line.
fn push_rule(out: &mut Vec<char>, left: char, mid: char, right: char)
    ensures
        final(out)@ == old(out)@ + rule_line(left, mid, right),
{
    let ghost start = out@;
    out.push(' ');
    out.push(' ');
    out.push(' ');
    out.push(left);
    let ghost cells = out@;
    assert(cells =~= start + seq![' ', ' ', ' ', left]);
    for x in 0..19usize
        invariant
            out@ == cells + rule_cells(x as int, mid, right),
    {
        out.push('─');
        out.push('─');
        out.push('─');
        if x + 1 == 19 {
            out.push(right);
        } else {
            out.push(mid);
        }
        assert(out@ =~= cells + rule_cells(x + 1, mid, right));
    }
    out.push('\n');
    assert(out@ =~= start + rule_line(left, mid, right));
}

/// Appends a row with its label, borders and the rule below it.
fn push_row(out: &mut Vec<char>, board: &CharBoard, y: usize)
    requires
        y < 19,
    ensures
        final(out)@ == old(out)@ + row_block(*board, y as int),
{
    let ghost start = out@;
    if y < 10 {
        out.push(' ');
        out.push(((y as u8) + 48) as char);
    } else {
        out.push((((y / 10) as u8) + 48) as char);
        out.push((((y % 10) as u8) + 48) as char);
    }
    out.push(' ');
    out.push('│');
    let ghost cells = out@;
    assert(cells =~= start + right2(y as int) + seq![' ', '│']);
    for x in 0..19usize
        invariant
            y < 19,
            out@ == cells + row_chars(*board, y as int, x as int),
    {
        out.push(' ');
        out.push(board[y][x]);
        out.push(' ');
        if x + 1 < 19 {
            out.push('│');
        }
        assert(out@ =~= cells + row_chars(*board, y as int, x + 1));
    }
    out.push('│');
    out.push('\n');
    let ghost closed = out@;
    if y + 1 < 19 {
        push_rule(out, '├', '┼', '┤');
    }
    assert(out@ =~= closed + if y + 1 < 19 {
        rule_line('├', '┼', '┤')
    } else {
        Seq::<char>::empty()
    });
    assert(out@ =~= start + row_block(*board, y as int));
}

/// The board drawn with its coordinates and box-drawing lines.
pub fn print_board(board: &CharBoard) -> (out: Vec<char>)
    ensures
        out@ == framed(*board),
{
    let mut out: Vec<char> = Vec::new();
    out.push(' ');
    out.push(' ');
    out.push(' ');
    out.push(' ');
    let ghost start = out@;
    for x in 0..19usize
        invariant
            out@ == start + labels(x as int),
    {
        out.push(' ');
        if x < 10 {
            out.push(((x as u8) + 48) as char);
            out.push(' ');
        } else {
            out.push((((x / 10) as u8) + 48) as char);
            out.push((((x % 10) as u8) + 48) as char);
        }
        out.push(' ');
        assert(out@ =~= start + labels(x + 1));
    }
    out.push('\n');
    push_rule(&mut out, '┌', '┬', '┐');
    let ghost top = out@;
    for y in 0..19usize
        invariant
            out@ == top + row_blocks(*board, y as int),
    {
        push_row(&mut out, board, y);
        assert(out@ =~= top + row_blocks(*board, y + 1));
    }
    push_rule(&mut out, '└', '┴', '┘');
    assert(out@ =~= framed(*board));
    out
}

/// Plays the line the player typed at turn `*turn`: on `Played` the stone is on
/// the board and the turn has passed; otherwise nothing changes.
pub fn play_turn(board: &mut CharBoard, turn: &mut i32, input: &[u8]) -> (r: TurnResult)
    requires
        0 <= *old(turn) < i32::MAX,
    ensures
        r == turn_outcome(*old(board), input@),
        (cells(*final(board)), *final(turn) as int) == after_turn(cells(*old(board)), *old(turn) as int, input@),
        r != TurnResult::Played ==> *final(board) == *old(board) && *final(turn) == *old(turn),
        r == TurnResult::Played ==> {
            let w = words(input@);
            let x = parse_unsigned(w[0], usize::MAX as nat).unwrap();
            let y = parse_unsigned(w[1], usize::MAX as nat).unwrap();
            &&& cells(*final(board)) == cells(*old(board)).update(
                y as int,
                cells(*old(board))[y as int].update(x as int, if *old(turn) % 2 == 0 { 'X' } else { 'O' }),
            )
            &&& *final(turn) == *old(turn) + 1
        },
{
    let ghost w = words(input@);
    let mut pos: usize = 0;
    assert(input@.subrange(0, input@.len() as int) =~= input@);
    let first = next_word(input, input.len(), &mut pos);
    let (a1, b1) = match first {
        Some(r) => r,
        None => {
            return TurnResult::Retry;
        },
    };
    let second = next_word(input, input.len(), &mut pos);
    let (a2, b2) = match second {
        Some(r) => r,
        None => {
            return TurnResult::Retry;
        },
    };
    assert(input@.subrange(a2 as int, b2 as int) == w[1]);
    if next_word(input, input.len(), &mut pos).is_some() {
        return TurnResult::Retry;
    }
    assert(w.drop_first().drop_first().len() == 0);
    let (x, y) = match (parse_size(input, a1, b1), parse_size(input, a2, b2)) {
        (Some(x), Some(y)) => (x, y),
        _ => {
            return TurnResult::Retry;
        },
    };
    if x >= 19 || y >= 19 {
        return TurnResult::Retry;
    }
    if board[y][x] != ' ' {
        return TurnResult::Occupied;
    }
    let c = if *turn % 2 == 0 { 'X' } else { 'O' };
    board[y][x] = c;
    assert(cells(*board) =~= cells(*old(board)).update(y as int, cells(*old(board))[y as int].update(x as int, c)));
    *turn = *turn + 1;
    TurnResult::Played
}

} // verus!

//! The text that the terminal front end prints for a game: the board with its
//! coordinates and the hint, the capture counts, the move list and the result.
use vstd::prelude::*;
use vstd::string::StringSliceAdditionalSpecFns;
use crate::board::{at, grid};
use crate::game_state::{GameState, MoveInfo};
use crate::interface::CliInterface;
use crate::text::{decimal, push_decimal};

verus! {

/// A number below 100 on two digits, with a leading zero.
pub open spec fn two_digits(n: int) -> Seq<u8> {
    seq![(n / 10 + 48) as u8, (n % 10 + 48) as u8]
}

/// The three characters that show cell `(y, x)`: `H` for the hint, `.` for an
/// empty cell, `X` and `O` for the stones of black and white, `?` otherwise.
pub open spec fn cell_text(s: GameState, x: int, y: int) -> Seq<u8> {
    if s.hint_move == Some((x as usize, y as usize)) {
        " H ".spec_bytes()
    } else {
        let v = at(grid(s.board), y, x);
        if v == 0 {
            " . ".spec_bytes()
        } else if v == 1 {
            " X ".spec_bytes()
        } else if v == 2 {
            " O ".spec_bytes()
        } else {
            " ? ".spec_bytes()
        }
    }
}

/// The first `k` cells of row `y`.
pub open spec fn row_cells(s: GameState, y: int, k: int) -> Seq<u8>
    decreases k,
{
    if k <= 0 {
        Seq::empty()
    } else {
        row_cells(s, y, k - 1) + cell_text(s, k - 1, y)
    }
}

/// The labels of the first `k` columns.
pub open spec fn column_labels(k: int) -> Seq<u8>
    decreases k,
{
    if k <= 0 {
        Seq::empty()
    } else {
        column_labels(k - 1) + two_digits(k - 1) + " ".spec_bytes()
    }
}

/// The first `k` rows, each after its label.
pub open spec fn board_rows(s: GameState, k: int) -> Seq<u8>
    decreases k,
{
    if k <= 0 {
        Seq::empty()
    } else {
        board_rows(s, k - 1) + two_digits(k - 1) + " ".spec_bytes() + row_cells(s, k - 1, 19)
            + "\n".spec_bytes()
    }
}

/// The board and the capture counts.
pub open spec fn board_view(s: GameState) -> Seq<u8> {
    "   ".spec_bytes() + column_labels(19) + "\n".spec_bytes() + board_rows(s, 19)
        + "\n--- Score ---\n".spec_bytes() + "Black (X) Captures: ".spec_bytes() + decimal(
        s.captures[0] as nat,
    ) + "\n".spec_bytes() + "White (O) Captures: ".spec_bytes() + decimal(s.captures[1] as nat)
        + "\n".spec_bytes()
}

/// One line of the move list: number, player, coordinates, and the stones
/// captured when there are any.
pub open spec fn move_line(m: MoveInfo) -> Seq<u8> {
    decimal(m.number as nat) + ". ".spec_bytes() + (if m.player == 1 {
        "B".spec_bytes()
    } else {
        "W".spec_bytes()
    }) + " (".spec_bytes() + decimal(m.x as nat) + ", ".spec_bytes() + decimal(m.y as nat)
        + ")".spec_bytes() + (if m.captures > 0 {
        " +".spec_bytes() + decimal(m.captures as nat)
    } else {
        Seq::empty()
    }) + "\n".spec_bytes()
}

/// The lines of the first `k` moves.
pub open spec fn move_lines(moves: Seq<MoveInfo>, k: int) -> Seq<u8>
    decreases k,
{
    if k <= 0 {
        Seq::empty()
    } else {
        move_lines(moves, k - 1) + move_line(moves[k - 1])
    }
}

/// The banner that names the winner, if there is one.
pub open spec fn winner_banner(winner: Option<u8>) -> Seq<u8> {
    match winner {
        Some(p) => "\n====================================\n".spec_bytes()
            + "      GAME OVER! Winner: ".spec_bytes() + (if p == 1 {
            "BLACK (X)".spec_bytes()
        } else {
            "WHITE (O)".spec_bytes()
        }) + "\n".spec_bytes() + "====================================\n".spec_bytes(),
        None => Seq::empty(),
    }
}

/// The move list, the result and the closing rule.
pub open spec fn moves_view(moves: Seq<MoveInfo>, winner: Option<u8>) -> Seq<u8> {
    "\n--- Moves ---\n".spec_bytes() + move_lines(moves, moves.len() as int) + winner_banner(winner)
        + "----------------\n\n".spec_bytes()
}

/// Appends the UTF-8 bytes of `s`.
fn push_text(out: &mut Vec<u8>, s: &str)
    ensures
        final(out)@ == old(out)@ + s.spec_bytes(),
{
    let b = s.as_bytes();
    let ghost before = out@;
    out.extend_from_slice(b);
    proof {
        assert forall|i: int| 0 <= i < final(out)@.len() implies #[trigger] final(out)@[i] == (before
            + b@)[i] by {
            if i >= before.len() {
                assert(cloned::<u8>(b@[i - before.len()], final(out)@[i]));
            }
        }
        assert(final(out)@ =~= before + b@);
    }
}

/// Appends `n < 100` on two digits.
fn push_two_digits(out: &mut Vec<u8>, n: usize)
    requires
        n < 100,
    ensures
        final(out)@ == old(out)@ + two_digits(n as int),
{
    let ghost before = out@;
    out.push((n / 10 + 48) as u8);
    out.push((n % 10 + 48) as u8);
    assert(out@ =~= before + two_digits(n as int));
}

/// Appends the line of move `m`.
fn push_move_line(out: &mut Vec<u8>, m: MoveInfo)
    ensures
        final(out)@ == old(out)@ + move_line(m),
{
    let ghost before = out@;
    push_decimal(out, m.number as u64);
    push_text(out, ". ");
    if m.player == 1 {
        push_text(out, "B");
    } else {
        push_text(out, "W");
    }
    push_text(out, " (");
    push_decimal(out, m.x as u64);
    push_text(out, ", ");
    push_decimal(out, m.y as u64);
    push_text(out, ")");
    let ghost mid = out@;
    if m.captures > 0 {
        push_text(out, " +");
        push_decimal(out, m.captures as u64);
    }
    assert(out@ =~= mid + (if m.captures > 0 {
        " +".spec_bytes() + decimal(m.captures as nat)
    } else {
        Seq::empty()
    }));
    push_text(out, "\n");
    assert(out@ =~= before + move_line(m));
}

impl CliInterface {
    /// The three characters of cell `(y, x)`.
    fn cell_chars(state: &GameState, x: usize, y: usize) -> (r: &'static str)
        requires
            x < 19,
            y < 19,
        ensures
            r.spec_bytes() == cell_text(*state, x as int, y as int),
    {
        if state.hint_move == Some((x, y)) {
            " H "
        } else {
            let v = state.board[y][x];
            if v == 0 {
                " . "
            } else if v == 1 {
                " X "
            } else if v == 2 {
                " O "
            } else {
                " ? "
            }
        }
    }

    /// The board with its coordinates and the hint, then the capture counts.
    pub fn board_text(state: &GameState) -> (out: Vec<u8>)
        ensures
            out@ == board_view(*state),
    {
        let mut out: Vec<u8> = Vec::new();
        push_text(&mut out, "   ");
        let ghost start = out@;
        for x in 0..19usize
            invariant
                out@ == start + column_labels(x as int),
        {
            push_two_digits(&mut out, x);
            push_text(&mut out, " ");
            assert(out@ =~= start + column_labels(x + 1));
        }
        push_text(&mut out, "\n");
        let ghost top = out@;
        for y in 0..19usize
            invariant
                out@ == top + board_rows(*state, y as int),
        {
            push_two_digits(&mut out, y);
            push_text(&mut out, " ");
            let ghost row_start = out@;
            for x in 0..19usize
                invariant
                    y < 19,
                    out@ == row_start + row_cells(*state, y as int, x as int),
            {
                let c = Self::cell_chars(state, x, y);
                push_text(&mut out, c);
                assert(out@ =~= row_start + row_cells(*state, y as int, x + 1));
            }
            push_text(&mut out, "\n");
            assert(out@ =~= top + board_rows(*state, y + 1));
        }
        push_text(&mut out, "\n--- Score ---\n");
        push_text(&mut out, "Black (X) Captures: ");
        push_decimal(&mut out, state.captures[0] as u64);
        push_text(&mut out, "\n");
        push_text(&mut out, "White (O) Captures: ");
        push_decimal(&mut out, state.captures[1] as u64);
        push_text(&mut out, "\n");
        assert(out@ =~= board_view(*state));
        out
    }

    /// The move list, the banner that names the winner, and the closing rule.
    pub fn moves_text(moves: &Vec<MoveInfo>, winner: Option<u8>) -> (out: Vec<u8>)
        ensures
            out@ == moves_view(moves@, winner),
    {
        let mut out: Vec<u8> = Vec::new();
        push_text(&mut out, "\n--- Moves ---\n");
        let ghost start = out@;
        for i in 0..moves.len()
            invariant
                out@ == start + move_lines(moves@, i as int),
        {
            let m = moves[i];
            push_move_line(&mut out, m);
            assert(out@ =~= start + move_lines(moves@, i + 1));
        }
        let ghost listed = out@;
        if let Some(p) = winner {
            push_text(&mut out, "\n====================================\n");
            push_text(&mut out, "      GAME OVER! Winner: ");
            if p == 1 {
                push_text(&mut out, "BLACK (X)");
            } else {
                push_text(&mut out, "WHITE (O)");
            }
            push_text(&mut out, "\n");
            push_text(&mut out, "====================================\n");
        }
        assert(out@ =~= listed + winner_banner(winner));
        push_text(&mut out, "----------------\n\n");
        assert(out@ =~= moves_view(moves@, winner));
        out
    }
}

} // verus!

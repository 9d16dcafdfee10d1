//! What a player asks for, and how the terminal front end reads it from a line.
use vstd::prelude::*;
use crate::text::{next_word, parse_size, parse_unsigned, trim, trim_bounds, words};

verus! {

/// What a player asks for: a stone at `(x, y)`, an undo, a save, or to quit.
#[derive(Clone, Copy, Debug)]
pub enum PlayerAction {
    Place((usize, usize)),
    Undo,
    Save,
    Quit,
}

/// The terminal front end.
pub struct CliInterface;

/// The command that a trimmed line names by itself: `z` or `undo`, `s` or
/// `save`, `q` or `quit`.
pub open spec fn command_of(t: Seq<u8>) -> Option<PlayerAction> {
    if t == seq![122u8] || t == seq![117u8, 110u8, 100u8, 111u8] {
        Some(PlayerAction::Undo)
    } else if t == seq![115u8] || t == seq![115u8, 97u8, 118u8, 101u8] {
        Some(PlayerAction::Save)
    } else if t == seq![113u8] || t == seq![113u8, 117u8, 105u8, 116u8] {
        Some(PlayerAction::Quit)
    } else {
        None
    }
}

/// The action a typed line asks for: once trimmed, a command, or exactly two
/// words that read as unsigned numbers `x y`; `None` for anything else.
pub open spec fn action_of(input: Seq<u8>) -> Option<PlayerAction> {
    let t = trim(input);
    if command_of(t) is Some {
        command_of(t)
    } else {
        let w = words(t);
        if w.len() != 2 {
            None
        } else {
            match (parse_unsigned(w[0], usize::MAX as nat), parse_unsigned(w[1], usize::MAX as nat)) {
                (Some(x), Some(y)) => Some(PlayerAction::Place((x as usize, y as usize))),
                _ => None,
            }
        }
    }
}

/// Whether `data[a..b]` is the one-byte word `c` or the four-byte word `w`.
fn is_command(data: &[u8], a: usize, b: usize, c: u8, w: [u8; 4]) -> (r: bool)
    requires a <= b <= data@.len(),
    ensures
        r == (data@.subrange(a as int, b as int) == seq![c] || data@.subrange(a as int, b as int)
            == seq![w[0], w[1], w[2], w[3]]),
{
    let ghost t = data@.subrange(a as int, b as int);
    let n = b - a;
    if n == 1 {
        if data[a] == c {
            assert(t =~= seq![c]);
            return true;
        }
        assert(seq![c][0] == c);
        assert(seq![w[0], w[1], w[2], w[3]].len() == 4);
        assert(t != seq![c]);
        return false;
    }
    if n == 4 {
        if data[a] == w[0] && data[a + 1] == w[1] && data[a + 2] == w[2] && data[a + 3] == w[3] {
            assert(t =~= seq![w[0], w[1], w[2], w[3]]);
            return true;
        }
        let ghost u = seq![w[0], w[1], w[2], w[3]];
        assert(u[0] == w[0] && u[1] == w[1] && u[2] == w[2] && u[3] == w[3]);
        assert(!(t[0] == w[0] && t[1] == w[1] && t[2] == w[2] && t[3] == w[3]));
        assert(t != u);
        assert(seq![c].len() == 1);
        return false;
    }
    assert(t.len() != 1 && t.len() != 4);
    assert(seq![c].len() == 1);
    assert(seq![w[0], w[1], w[2], w[3]].len() == 4);
    false
}

impl CliInterface {
    /// Reads what the player typed: `z`/`undo`, `s`/`save`, `q`/`quit`, or two
    /// numbers `x y`, with whitespace around them; `None` for anything else.
    pub fn parse_action(input: &[u8]) -> (r: Option<PlayerAction>)
        ensures
            r == action_of(input@),
    {
        let (a, b) = trim_bounds(input, 0, input.len());
        let ghost t = trim(input@.subrange(0, input@.len() as int));
        assert(input@.subrange(0, input@.len() as int) =~= input@);
        assert(input@.subrange(a as int, b as int) == t);
        if is_command(input, a, b, 122, [117, 110, 100, 111]) {
            return Some(PlayerAction::Undo);
        }
        if is_command(input, a, b, 115, [115, 97, 118, 101]) {
            return Some(PlayerAction::Save);
        }
        if is_command(input, a, b, 113, [113, 117, 105, 116]) {
            return Some(PlayerAction::Quit);
        }
        assert(command_of(t) is None);
        let ghost w = words(t);
        let mut pos = a;
        let first = next_word(input, b, &mut pos);
        let (a1, b1) = match first {
            Some(r) => r,
            None => {
                return None;
            },
        };
        let second = next_word(input, b, &mut pos);
        let (a2, b2) = match second {
            Some(r) => r,
            None => {
                return None;
            },
        };
        assert(input@.subrange(a2 as int, b2 as int) == w[1]);
        let third = next_word(input, b, &mut pos);
        if third.is_some() {
            return None;
        }
        assert(w.drop_first().drop_first().len() == 0);
        assert(w.len() == 2);
        let x = parse_size(input, a1, b1);
        let y = parse_size(input, a2, b2);
        match (x, y) {
            (Some(x), Some(y)) => Some(PlayerAction::Place((x, y))),
            _ => None,
        }
    }
}

} // verus!

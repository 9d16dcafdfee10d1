//! The decisions of the game loop: who supplies the next action, and what an
//! action does to the game. Reading input, drawing and searching are left to the
//! front end, which hands each action in and acts on the outcome.
use vstd::prelude::*;
use crate::board::{at, grid, in_board, opponent_of, put};
use crate::capture::apply_captures;
use crate::double_three::double_three;
use crate::game_state::{
    GameMode, GameState, captures_after, five_after, grid_after, hash_after, legal_move,
    snapshot_of, stone_grid, turn_after, undone, winner_after,
};
use crate::interface::PlayerAction;
use crate::zobrist::Zobrist;

verus! {

/// Who supplies the next action.
#[derive(PartialEq, Eq, Structural, Clone, Copy, Debug)]
pub enum ActionSource {
    /// The front end asks the player.
    Player,
    /// The AI searches for a move.
    Ai,
}

/// What an action did, for the front end to report.
#[derive(Clone, Debug)]
pub enum LoopOutcome {
    /// The stone was put and the move recorded.
    Placed,
    /// The move was refused for the reason given; in a game of AI against AI
    /// the side that tried it loses.
    Refused(String),
    /// The last recorded position came back.
    Undone,
    /// There was nothing to undo, or too many undos in a row.
    NothingToUndo,
    /// The player asks to save.
    SaveRequested,
    /// The player asks to quit.
    Quit,
    /// Nothing to do: no action, or a move once the game is won.
    Ignored,
}

/// The command keys pressed during one pass of the game loop.
#[derive(PartialEq, Eq, Structural, Clone, Copy, Debug)]
pub struct LoopKeys {
    /// Take back the last move.
    pub undo: bool,
    /// Save the game and leave.
    pub save: bool,
    /// Ask the AI for a hint.
    pub hint: bool,
}

/// What the command keys of one pass ask of the front end, once the undo is done.
#[derive(PartialEq, Eq, Structural, Clone, Copy, Debug)]
pub struct KeyRequests {
    /// The game must be saved.
    pub save: bool,
    /// A hint must be searched for the position.
    pub hint: bool,
}

/// Handles the command keys of one pass of the game loop, in the loop's order:
/// the undo key takes back the last move (when the undo rules allow it); then the
/// save key asks for a save, and the hint key asks for a hint while nobody has
/// won the game as it stands after the undo.
pub fn handle_keys(state: &mut GameState, keys: LoopKeys) -> (r: KeyRequests)
    ensures
        keys.undo ==> exists|done: bool| undone(*old(state), *final(state), done),
        !keys.undo ==> *final(state) == *old(state),
        r.save == keys.save,
        r.hint == (keys.hint && final(state).winner is None),
{
    if keys.undo {
        let done = state.undo_last_move();
        assert(undone(*old(state), *state, done));
    }
    KeyRequests { save: keys.save, hint: keys.hint && state.winner.is_none() }
}

/// Who supplies the next action: the player once the game is over, in a game
/// between humans, and as black against the AI; the AI otherwise.
pub open spec fn source_of(s: GameState) -> ActionSource {
    if s.winner is Some {
        ActionSource::Player
    } else {
        match s.mode {
            GameMode::PVP => ActionSource::Player,
            GameMode::PVA => if s.player() == 1 {
                ActionSource::Player
            } else {
                ActionSource::Ai
            },
            GameMode::AVA => ActionSource::Ai,
        }
    }
}

/// The reason a move of the player to move at `(x, y)` is refused.
pub open spec fn refusal(s: GameState, x: int, y: int) -> Seq<char> {
    if !in_board(y, x) {
        "Outside the board"@
    } else if at(grid(s.board), y, x) != 0 {
        "Already occupied"@
    } else {
        "Forbidden: Double Three"@
    }
}

/// A legal move played: the position is recorded, the stone put with its
/// captures, and the hint dropped.
pub open spec fn played(before: GameState, after: GameState, x: int, y: int, z: Zobrist) -> bool {
    &&& after.history@ == before.history@.push(snapshot_of(before))
    &&& after.undos_since_last_move == 0
    &&& grid(after.board) == grid_after(before, x, y)
    &&& after.captures[0] == captures_after(before, x, y, 0)
    &&& after.captures[1] == captures_after(before, x, y, 1)
    &&& after.winner == winner_after(before, x, y)
    &&& after.five_aligned_winner == five_after(before, x, y)
    &&& after.turn_count == turn_after(before, x, y)
    &&& after.hash == hash_after(before, x, y, z)
    &&& after.mode == before.mode
    &&& after.hint_move is None
    &&& before.hash_consistent(z) ==> after.hash_consistent(z)
}

/// A move that `apply_action` would play keeps the mover's capture count and
/// the turn counter within `u32`.
pub open spec fn action_fits(s: GameState, action: Option<PlayerAction>) -> bool {
    match action {
        Some(PlayerAction::Place((x, y))) => s.winner is None && legal_move(s, x as int, y as int) ==> {
            &&& captures_after(s, x as int, y as int, s.player() - 1) <= u32::MAX
            &&& s.turn_count < u32::MAX
        },
        _ => true,
    }
}

/// Whether `apply_action` may be called with `action`: see `action_fits`.
pub fn action_fits_counters(state: &GameState, action: Option<PlayerAction>) -> (r: bool)
    ensures
        r == action_fits(*state, action),
{
    match action {
        Some(PlayerAction::Place((x, y))) => {
            if state.winner.is_some() || state.can_place_piece(x, y).is_err() {
                return true;
            }
            let p = state.current_player();
            let mut b = state.board;
            put(&mut b, y, x, p);
            assert(grid(b) == stone_grid(*state, x as int, y as int));
            let captured = apply_captures(&mut b, y, x);
            proof {
                crate::capture::lemma_capture_list_len(stone_grid(*state, x as int, y as int), y as int, x as int, 8);
            }
            let before = state.captures[(p - 1) as usize] as u64;
            before + (captured.len() as u64) <= u32::MAX as u64 && state.turn_count < u32::MAX
        },
        _ => true,
    }
}

/// Who supplies the next action.
pub fn action_source(state: &GameState) -> (r: ActionSource)
    ensures
        r == source_of(*state),
{
    if state.winner.is_some() {
        return ActionSource::Player;
    }
    match state.mode {
        GameMode::PVP => ActionSource::Player,
        GameMode::PVA => if state.current_player() == 1 {
            ActionSource::Player
        } else {
            ActionSource::Ai
        },
        GameMode::AVA => ActionSource::Ai,
    }
}

/// Carries out an action of the game loop. A move is played when the game is
/// open and the move legal; an illegal one is refused, and in a game of AI
/// against AI its side loses. An undo goes back one move when it may. Saving and
/// quitting are left to the caller; no action, or a move once the game is won,
/// does nothing.
pub fn apply_action(state: &mut GameState, action: Option<PlayerAction>, zobrist: &Zobrist) -> (r:
    LoopOutcome)
    requires
        action_fits(*old(state), action),
    ensures
        match action {
            Some(PlayerAction::Place((x, y))) => if old(state).winner is Some {
                r is Ignored && *final(state) == *old(state)
            } else if legal_move(*old(state), x as int, y as int) {
                r is Placed && played(*old(state), *final(state), x as int, y as int, *zobrist)
            } else {
                &&& r matches LoopOutcome::Refused(e) && e@ == refusal(*old(state), x as int, y as int)
                &&& old(state).mode == GameMode::AVA ==> *final(state) == (GameState {
                    winner: Some(opponent_of(old(state).player())),
                    ..*old(state)
                })
                &&& old(state).mode != GameMode::AVA ==> *final(state) == *old(state)
            },
            Some(PlayerAction::Undo) => {
                &&& (r is Undone || r is NothingToUndo)
                &&& undone(*old(state), *final(state), r is Undone)
            },
            Some(PlayerAction::Save) => r is SaveRequested && *final(state) == *old(state),
            Some(PlayerAction::Quit) => r is Quit && *final(state) == *old(state),
            None => r is Ignored && *final(state) == *old(state),
        },
{
    match action {
        Some(PlayerAction::Place((x, y))) => {
            if state.winner.is_some() {
                return LoopOutcome::Ignored;
            }
            match state.can_place_piece(x, y) {
                Ok(()) => {
                    let ghost s0 = *state;
                    state.push_history();
                    let ghost s1 = *state;
                    state.place_piece(x, y, zobrist);
                    state.hint_move = None;
                    assert(grid_after(s1, x as int, y as int) == grid_after(s0, x as int, y as int));
                    LoopOutcome::Placed
                },
                Err(e) => {
                    if state.mode == GameMode::AVA {
                        let p = state.current_player();
                        state.winner = Some(if p == 1 { 2 } else { 1 });
                    }
                    LoopOutcome::Refused(e)
                },
            }
        },
        Some(PlayerAction::Undo) => {
            if state.undo_last_move() {
                LoopOutcome::Undone
            } else {
                LoopOutcome::NothingToUndo
            }
        },
        Some(PlayerAction::Save) => LoopOutcome::SaveRequested,
        Some(PlayerAction::Quit) => LoopOutcome::Quit,
        None => LoopOutcome::Ignored,
    }
}

} // verus!

use gomoku::classic::{play_turn, print_board, TurnResult};
use gomoku::game_state::{GameMode, GameState};
use gomoku::interface::{CliInterface, PlayerAction};
use gomoku::session::{action_source, apply_action, handle_keys, ActionSource, LoopKeys, LoopOutcome};
use gomoku::text::{format_thousands, parse_number, parse_size, push_decimal};
use gomoku::zobrist::Zobrist;

fn place_of(a: Option<PlayerAction>) -> Option<(usize, usize)> {
    match a {
        Some(PlayerAction::Place(p)) => Some(p),
        _ => None,
    }
}

#[test]
fn parse_commands() {
    assert!(matches!(CliInterface::parse_action(b"z"), Some(PlayerAction::Undo)));
    assert!(matches!(CliInterface::parse_action(b"  undo \n"), Some(PlayerAction::Undo)));
    assert!(matches!(CliInterface::parse_action(b"s\n"), Some(PlayerAction::Save)));
    assert!(matches!(CliInterface::parse_action(b"save"), Some(PlayerAction::Save)));
    assert!(matches!(CliInterface::parse_action(b"q"), Some(PlayerAction::Quit)));
    assert!(matches!(CliInterface::parse_action(b"\tquit\r\n"), Some(PlayerAction::Quit)));
    assert!(CliInterface::parse_action(b"Z").is_none());
    assert!(CliInterface::parse_action(b"undo now").is_none());
}

#[test]
fn parse_coordinates() {
    assert_eq!(place_of(CliInterface::parse_action(b"3 4\n")), Some((3, 4)));
    assert_eq!(place_of(CliInterface::parse_action(b"  10   12 ")), Some((10, 12)));
    assert_eq!(place_of(CliInterface::parse_action(b"+3 4")), Some((3, 4)));
    assert_eq!(place_of(CliInterface::parse_action(b"20 30")), Some((20, 30)));
    assert!(CliInterface::parse_action(b"3").is_none());
    assert!(CliInterface::parse_action(b"3 4 5").is_none());
    assert!(CliInterface::parse_action(b"a b").is_none());
    assert!(CliInterface::parse_action(b"-1 2").is_none());
    assert!(CliInterface::parse_action(b"").is_none());
    assert!(CliInterface::parse_action(b"99999999999999999999999 1").is_none());
}

#[test]
fn number_parsing() {
    let d = b"x+42y";
    assert_eq!(parse_number(d, 1, 4, 100), Some(42));
    assert_eq!(parse_number(d, 1, 4, 41), None);
    assert_eq!(parse_number(d, 1, 2, 100), None);
    assert_eq!(parse_size(b"0018", 0, 4), Some(18));
    assert_eq!(parse_size(b"18446744073709551616", 0, 20), None);
    let mut out = Vec::new();
    push_decimal(&mut out, 9_050);
    assert_eq!(out, b"9050".to_vec());
}

#[test]
fn thousands_grouping() {
    assert_eq!(format_thousands(0), b"0".to_vec());
    assert_eq!(format_thousands(999), b"999".to_vec());
    assert_eq!(format_thousands(1000), b"1,000".to_vec());
    assert_eq!(format_thousands(1_234_567), b"1,234,567".to_vec());
}

#[test]
fn who_acts() {
    let mut s = GameState::new(GameMode::PVA);
    assert_eq!(action_source(&s), ActionSource::Player);
    s.turn_count = 1;
    assert_eq!(action_source(&s), ActionSource::Ai);
    s.mode = GameMode::PVP;
    assert_eq!(action_source(&s), ActionSource::Player);
    s.mode = GameMode::AVA;
    assert_eq!(action_source(&s), ActionSource::Ai);
    s.winner = Some(1);
    assert_eq!(action_source(&s), ActionSource::Player);
}

#[test]
fn apply_legal_move() {
    let z = Zobrist::new();
    let mut s = GameState::new(GameMode::PVP);
    s.hint_move = Some((1, 1));
    let out = apply_action(&mut s, Some(PlayerAction::Place((9, 9))), &z);
    assert!(matches!(out, LoopOutcome::Placed));
    assert_eq!(s.board[9][9], 1);
    assert_eq!(s.history.len(), 1);
    assert_eq!(s.hint_move, None);
    assert_eq!(s.turn_count, 1);
    let out = apply_action(&mut s, Some(PlayerAction::Undo), &z);
    assert!(matches!(out, LoopOutcome::Undone));
    assert_eq!(s.board[9][9], 0);
    let out = apply_action(&mut s, Some(PlayerAction::Undo), &z);
    assert!(matches!(out, LoopOutcome::NothingToUndo));
}

#[test]
fn apply_refused_move() {
    let z = Zobrist::new();
    let mut s = GameState::new(GameMode::PVP);
    s.board[2][2] = 2;
    let out = apply_action(&mut s, Some(PlayerAction::Place((2, 2))), &z);
    match out {
        LoopOutcome::Refused(e) => assert_eq!(e, "Already occupied"),
        _ => panic!("expected a refusal"),
    }
    assert_eq!(s.winner, None);
    assert_eq!(s.turn_count, 0);

    let mut a = GameState::new(GameMode::AVA);
    let out = apply_action(&mut a, Some(PlayerAction::Place((19, 0))), &z);
    match out {
        LoopOutcome::Refused(e) => assert_eq!(e, "Outside the board"),
        _ => panic!("expected a refusal"),
    }
    assert_eq!(a.winner, Some(2));
}

#[test]
fn apply_other_actions() {
    let z = Zobrist::new();
    let mut s = GameState::new(GameMode::PVP);
    assert!(matches!(apply_action(&mut s, Some(PlayerAction::Save), &z), LoopOutcome::SaveRequested));
    assert!(matches!(apply_action(&mut s, Some(PlayerAction::Quit), &z), LoopOutcome::Quit));
    assert!(matches!(apply_action(&mut s, None, &z), LoopOutcome::Ignored));
    s.winner = Some(1);
    assert!(matches!(apply_action(&mut s, Some(PlayerAction::Place((0, 0))), &z), LoopOutcome::Ignored));
    assert_eq!(s.board[0][0], 0);
}

#[test]
fn terminal_board_text() {
    let mut s = GameState::new(GameMode::PVP);
    s.board[0][1] = 1;
    s.board[0][2] = 2;
    s.hint_move = Some((3, 0));
    s.captures = [4, 12];
    let text = String::from_utf8(CliInterface::board_text(&s)).unwrap();
    let lines: Vec<&str> = text.split('\n').collect();
    let header: String = (0..19).map(|x| format!("{:02} ", x)).collect();
    assert_eq!(lines[0], format!("   {}", header));
    assert!(lines[1].starts_with("00  .  X  O  H  . "));
    assert!(lines[19].starts_with("18  . "));
    assert_eq!(lines[20], "");
    assert_eq!(lines[21], "--- Score ---");
    assert_eq!(lines[22], "Black (X) Captures: 4");
    assert_eq!(lines[23], "White (O) Captures: 12");
    assert_eq!(lines.len(), 25);
}

#[test]
fn terminal_moves_text() {
    let z = Zobrist::new();
    let mut s = GameState::new(GameMode::PVP);
    s.board[9][10] = 2;
    s.board[9][11] = 2;
    s.board[9][12] = 1;
    for &(x, y) in [(9, 9), (0, 0)].iter() {
        s.push_history();
        s.place_piece(x, y, &z);
    }
    let moves = s.move_history();
    let text = String::from_utf8(CliInterface::moves_text(&moves, None)).unwrap();
    assert_eq!(text, "\n--- Moves ---\n1. B (9, 9) +2\n2. W (0, 0)\n----------------\n\n");
    let won = String::from_utf8(CliInterface::moves_text(&Vec::new(), Some(2))).unwrap();
    assert_eq!(
        won,
        "\n--- Moves ---\n\n====================================\n      GAME OVER! Winner: WHITE (O)\n====================================\n----------------\n\n"
    );
}

#[test]
fn classic_board_drawing() {
    let mut b = [[' '; 19]; 19];
    b[0][0] = 'X';
    b[18][18] = 'O';
    let text: String = print_board(&b).into_iter().collect();
    let lines: Vec<&str> = text.split('\n').collect();
    let labels: String = (0..19).map(|x| format!("{:^4}", x)).collect();
    assert_eq!(lines[0], format!("    {}", labels));
    assert_eq!(lines[1], format!("   ┌{}───┐", "───┬".repeat(18)));
    assert_eq!(lines[2], format!(" 0 │ X │{}│", "   │".repeat(17) + "   "));
    assert_eq!(lines[3], format!("   ├{}───┤", "───┼".repeat(18)));
    assert_eq!(lines[38], format!("18 │{} O │", "   │".repeat(18)));
    assert_eq!(lines[39], format!("   └{}───┘", "───┴".repeat(18)));
    assert_eq!(lines.len(), 41);
}

#[test]
fn classic_turns() {
    let mut b = [[' '; 19]; 19];
    let mut turn = 0;
    assert_eq!(play_turn(&mut b, &mut turn, b"3 4\n"), TurnResult::Played);
    assert_eq!(b[4][3], 'X');
    assert_eq!(turn, 1);
    assert_eq!(play_turn(&mut b, &mut turn, b"3 4"), TurnResult::Occupied);
    assert_eq!(turn, 1);
    assert_eq!(play_turn(&mut b, &mut turn, b"30 4"), TurnResult::Retry);
    assert_eq!(play_turn(&mut b, &mut turn, b"x 4"), TurnResult::Retry);
    assert_eq!(play_turn(&mut b, &mut turn, b"5"), TurnResult::Retry);
    assert_eq!(play_turn(&mut b, &mut turn, b" 5  6 "), TurnResult::Played);
    assert_eq!(b[6][5], 'O');
    assert_eq!(turn, 2);
}

#[test]
fn unicode_whitespace_separates_words() {
    assert_eq!(place_of(CliInterface::parse_action("25\u{a0}30".as_bytes())), Some((25, 30)));
    assert_eq!(place_of(CliInterface::parse_action("\u{3000}7\u{2003}8\u{85}".as_bytes())), Some((7, 8)));
    assert!(matches!(CliInterface::parse_action("\u{a0}undo\u{202f}".as_bytes()), Some(PlayerAction::Undo)));
    assert!(CliInterface::parse_action("1\u{e9}2 3".as_bytes()).is_none());
    let mut b = [[' '; 19]; 19];
    let mut turn = 0;
    assert_eq!(play_turn(&mut b, &mut turn, "3\u{a0}4".as_bytes()), TurnResult::Played);
    assert_eq!(b[4][3], 'X');
}

#[test]
fn counters_must_fit_for_a_move() {
    let mut s = GameState::new(GameMode::PVP);
    assert!(gomoku::session::action_fits_counters(&s, Some(PlayerAction::Place((3, 3)))));
    s.captures = [u32::MAX - 1, 0];
    assert!(gomoku::session::action_fits_counters(&s, Some(PlayerAction::Place((3, 3)))));
    s.board[3][4] = 2;
    s.board[3][5] = 2;
    s.board[3][6] = 1;
    assert!(!gomoku::session::action_fits_counters(&s, Some(PlayerAction::Place((3, 3)))));
    assert!(gomoku::session::action_fits_counters(&s, Some(PlayerAction::Undo)));
}

#[test]
fn classic_turn_counts_the_stones() {
    let mut b = [[' '; 19]; 19];
    let mut turn: i32 = 0;
    let lines: [&[u8]; 6] = [b"1 1", b"1 1", b"2 2", b"hello", b"18 18", b"19 0"];
    for line in lines.iter() {
        play_turn(&mut b, &mut turn, line);
        let stones = b.iter().flatten().filter(|c| **c != ' ').count();
        assert_eq!(turn as usize, stones);
    }
    assert_eq!(turn, 3);
    assert_eq!(b[1][1], 'X');
    assert_eq!(b[2][2], 'O');
    assert_eq!(b[18][18], 'X');
}

#[test]
fn keys_undo_then_ask() {
    let z = Zobrist::new();
    let mut s = GameState::new(GameMode::PVP);
    s.push_history();
    s.place_piece(9, 9, &z);
    let none = LoopKeys { undo: false, save: false, hint: false };
    let r = handle_keys(&mut s, none);
    assert!(!r.save && !r.hint);
    assert_eq!(s.board[9][9], 1);
    let keys = LoopKeys { undo: true, save: true, hint: true };
    let r = handle_keys(&mut s, keys);
    assert_eq!(s.board[9][9], 0);
    assert_eq!(s.turn_count, 0);
    assert!(r.save);
    assert!(r.hint);
    s.winner = Some(1);
    let r = handle_keys(&mut s, LoopKeys { undo: false, save: false, hint: true });
    assert!(!r.hint);
}

use gomoku::board::{is_in_board, new_board, opponent};
use gomoku::capture::apply_captures;
use gomoku::double_three::is_double_three;
use gomoku::game_state::{derive_move, int_to_mode, mode_to_int, GameMode, GameState, MAX_UNDOS};
use gomoku::hashing::compute_hash;
use gomoku::zobrist::Zobrist;

fn recomputed(mut s: GameState, z: &Zobrist) -> GameState {
    s.recompute_hash(z);
    s
}

#[test]
fn board_edges_and_players() {
    assert!(is_in_board(0, 0));
    assert!(is_in_board(18, 18));
    assert!(!is_in_board(19, 0));
    assert!(!is_in_board(0, -1));
    assert_eq!(opponent(1), 2);
    assert_eq!(opponent(2), 1);
    let b = new_board();
    assert!(b.iter().all(|row| row.iter().all(|&c| c == 0)));
}

#[test]
fn mode_numbers_round_trip() {
    assert_eq!(mode_to_int(GameMode::PVP), 1);
    assert_eq!(mode_to_int(GameMode::PVA), 2);
    assert_eq!(mode_to_int(GameMode::AVA), 3);
    assert_eq!(int_to_mode(1), Some(GameMode::PVP));
    assert_eq!(int_to_mode(2), Some(GameMode::PVA));
    assert_eq!(int_to_mode(3), Some(GameMode::AVA));
    assert_eq!(int_to_mode(0), None);
    assert_eq!(int_to_mode(4), None);
}

#[test]
fn new_game_is_empty_and_black_moves() {
    let s = GameState::new(GameMode::PVP);
    assert_eq!(s.turn_count, 0);
    assert_eq!(s.current_player(), 1);
    assert_eq!(s.captures, [0, 0]);
    assert_eq!(s.winner, None);
    assert_eq!(s.hash, 0);
    assert!(s.history.is_empty());
}

#[test]
fn apply_captures_removes_enclosed_pair() {
    let mut b = new_board();
    b[9][9] = 1;
    b[9][10] = 2;
    b[9][11] = 2;
    b[9][12] = 1;
    let captured = apply_captures(&mut b, 9, 9);
    assert_eq!(captured, vec![(10, 9), (11, 9)]);
    assert_eq!(b[9][10], 0);
    assert_eq!(b[9][11], 0);
    assert_eq!(b[9][12], 1);
}

#[test]
fn no_capture_of_three_stones() {
    let mut b = new_board();
    b[9][9] = 1;
    b[9][10] = 2;
    b[9][11] = 2;
    b[9][12] = 2;
    b[9][13] = 1;
    let captured = apply_captures(&mut b, 9, 9);
    assert!(captured.is_empty());
    assert_eq!(b[9][10], 2);
}

#[test]
fn place_piece_captures_and_counts_stones() {
    let z = Zobrist::new();
    let mut s = GameState::new(GameMode::PVP);
    s.board[9][10] = 2;
    s.board[9][11] = 2;
    s.board[9][12] = 1;
    let mut s = recomputed(s, &z);
    s.place_piece(9, 9, &z);
    assert_eq!(s.board[9][9], 1);
    assert_eq!(s.board[9][10], 0);
    assert_eq!(s.board[9][11], 0);
    assert_eq!(s.captures, [2, 0]);
    assert_eq!(s.turn_count, 1);
    assert_eq!(s.current_player(), 2);
    assert_eq!(s.hash, compute_hash(&s.board, &z));
}

#[test]
fn ten_captures_win() {
    let z = Zobrist::new();
    let mut s = GameState::new(GameMode::PVP);
    s.captures = [8, 0];
    s.board[0][1] = 2;
    s.board[0][2] = 2;
    s.board[0][3] = 1;
    s.place_piece(0, 0, &z);
    assert_eq!(s.captures, [10, 0]);
    assert_eq!(s.winner, Some(1));
    assert_eq!(s.turn_count, 0);
}

#[test]
fn five_in_a_row_is_detected() {
    let mut s = GameState::new(GameMode::PVP);
    for x in 0..5 {
        s.board[3][x] = 1;
    }
    assert!(s.has_five_aligned(1));
    assert!(!s.has_five_aligned(2));
    s.board[3][2] = 2;
    assert!(!s.has_five_aligned(1));
}

#[test]
fn diagonal_five_is_detected() {
    let mut s = GameState::new(GameMode::PVP);
    for i in 0..5 {
        s.board[4 + i][10 - i] = 2;
    }
    assert!(s.has_five_aligned(2));
}

#[test]
fn pending_five_wins_when_not_broken() {
    let z = Zobrist::new();
    let mut s = GameState::new(GameMode::PVP);
    for x in 0..4 {
        s.board[5][x] = 1;
    }
    s.place_piece(4, 5, &z);
    assert_eq!(s.winner, None);
    assert_eq!(s.five_aligned_winner, Some(1));
    assert_eq!(s.current_player(), 2);
    s.place_piece(15, 15, &z);
    assert_eq!(s.winner, Some(1));
}

#[test]
fn pending_five_broken_by_capture() {
    let z = Zobrist::new();
    let mut s = GameState::new(GameMode::PVP);
    for x in 0..4 {
        s.board[5][x] = 1;
    }
    // A black pair below the line that white can take, one stone of it in the five.
    s.board[6][2] = 1;
    s.board[7][2] = 2;
    s.place_piece(4, 5, &z);
    assert_eq!(s.five_aligned_winner, Some(1));
    // White at (2, 4) encloses (2, 5) and (2, 6) with (2, 7).
    s.place_piece(2, 4, &z);
    assert_eq!(s.board[5][2], 0);
    assert_eq!(s.board[6][2], 0);
    assert_eq!(s.captures, [0, 2]);
    assert_eq!(s.winner, None);
    assert_eq!(s.five_aligned_winner, None);
}

#[test]
fn placing_does_nothing_once_won() {
    let z = Zobrist::new();
    let mut s = GameState::new(GameMode::PVP);
    s.winner = Some(2);
    s.place_piece(3, 3, &z);
    assert_eq!(s.board[3][3], 0);
    assert_eq!(s.turn_count, 0);
}

#[test]
fn can_place_piece_reasons() {
    let mut s = GameState::new(GameMode::PVP);
    s.board[9][9] = 2;
    assert_eq!(s.can_place_piece(19, 0), Err("Outside the board".to_string()));
    assert_eq!(s.can_place_piece(0, 25), Err("Outside the board".to_string()));
    assert_eq!(s.can_place_piece(9, 9), Err("Already occupied".to_string()));
    assert_eq!(s.can_place_piece(0, 0), Ok(()));
}

#[test]
fn double_three_is_forbidden() {
    let mut s = GameState::new(GameMode::PVP);
    s.board[9][10] = 1;
    s.board[9][11] = 1;
    s.board[10][9] = 1;
    s.board[11][9] = 1;
    assert!(is_double_three(&s.board, 9, 9, 1));
    assert_eq!(s.can_place_piece(9, 9), Err("Forbidden: Double Three".to_string()));
    // One free three alone is allowed.
    s.board[11][9] = 0;
    assert!(!is_double_three(&s.board, 9, 9, 1));
    assert_eq!(s.can_place_piece(9, 9), Ok(()));
}

#[test]
fn split_threes_count_for_double_three() {
    let mut b = new_board();
    // _XX_X_ across and _X_XX_ down, both through (9, 9).
    b[9][10] = 1;
    b[9][12] = 1;
    b[11][9] = 1;
    b[12][9] = 1;
    assert!(is_double_three(&b, 9, 9, 1));
    assert!(!is_double_three(&b, 9, 9, 2));
}

#[test]
fn undo_restores_position() {
    let z = Zobrist::new();
    let mut s = recomputed(GameState::new(GameMode::PVP), &z);
    s.push_history();
    s.place_piece(4, 7, &z);
    assert_eq!(s.board[7][4], 1);
    assert!(s.undo_last_move());
    assert_eq!(s.board[7][4], 0);
    assert_eq!(s.turn_count, 0);
    assert_eq!(s.hash, 0);
    assert!(s.history.is_empty());
    assert!(!s.undo_last_move());
}

#[test]
fn undo_limit_in_a_row() {
    let z = Zobrist::new();
    let mut s = GameState::new(GameMode::PVP);
    for i in 0..5 {
        s.push_history();
        s.place_piece(i, 0, &z);
    }
    assert_eq!(MAX_UNDOS, 3);
    assert!(s.undo_last_move());
    assert!(s.undo_last_move());
    assert!(s.undo_last_move());
    assert!(!s.undo_last_move());
    assert_eq!(s.history.len(), 2);
    assert_eq!(s.turn_count, 2);
    s.push_history();
    assert!(s.undo_last_move());
}

#[test]
fn hash_follows_board() {
    let z = Zobrist::new();
    let mut s = recomputed(GameState::new(GameMode::PVP), &z);
    let moves = [(9, 9), (10, 9), (9, 10), (11, 9), (9, 11)];
    for &(x, y) in moves.iter() {
        s.place_piece(x, y, &z);
        assert_eq!(s.hash, compute_hash(&s.board, &z));
    }
    let mut t = GameState::new(GameMode::PVP);
    t.board = s.board;
    t.recompute_hash(&z);
    assert_eq!(t.hash, s.hash);
    assert_ne!(s.hash, 0);
}

#[test]
fn update_hash_toggles() {
    let z = Zobrist::new();
    let mut s = GameState::new(GameMode::PVP);
    s.update_hash(3, 4, 1, &z);
    assert_eq!(s.hash, z.get_value(3, 4, 1));
    s.update_hash(3, 4, 1, &z);
    assert_eq!(s.hash, 0);
    assert_ne!(z.get_value(3, 4, 1), z.get_value(3, 4, 2));
}

#[test]
fn derive_move_reads_stone_and_captures() {
    let mut before = new_board();
    before[9][10] = 2;
    before[9][11] = 2;
    before[9][12] = 1;
    let mut after = before;
    after[9][9] = 1;
    after[9][10] = 0;
    after[9][11] = 0;
    let m = derive_move(&before, &after, 3);
    assert_eq!((m.number, m.player, m.x, m.y, m.captures), (3, 1, 9, 9, 2));
}

#[test]
fn move_history_lists_moves() {
    let z = Zobrist::new();
    let mut s = GameState::new(GameMode::PVP);
    let moves = [(9, 9), (10, 10), (3, 4)];
    for &(x, y) in moves.iter() {
        s.push_history();
        s.place_piece(x, y, &z);
    }
    assert!(s.history_is_derivable());
    let list = s.move_history();
    assert_eq!(list.len(), 3);
    assert_eq!((list[0].number, list[0].player, list[0].x, list[0].y), (1, 1, 9, 9));
    assert_eq!((list[1].number, list[1].player, list[1].x, list[1].y), (2, 2, 10, 10));
    assert_eq!((list[2].number, list[2].player, list[2].x, list[2].y), (3, 1, 3, 4));
    assert_eq!(list[2].captures, 0);
}

#[test]
fn cells_valid_finds_a_stray_value() {
    let mut s = GameState::new(GameMode::PVP);
    assert!(s.cells_valid());
    s.board[3][4] = 2;
    assert!(s.cells_valid());
    s.board[18][18] = 3;
    assert!(!s.cells_valid());
    s.board[18][18] = 0;
    s.push_history();
    assert!(s.cells_valid());
    s.history[0].board[0][0] = 7;
    assert!(!s.cells_valid());
}

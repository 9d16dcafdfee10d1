use gomoku::game_state::{GameMode, GameState};
use gomoku::save_format::{
    corrupted_file, next_line, read_board, read_captures, read_optional_u8, read_u32, read_u8,
    write_board, LoadError,
};
use gomoku::zobrist::Zobrist;

fn zero_rows(n: usize) -> String {
    let row = vec!["0"; 19].join(" ");
    let mut out = String::new();
    for _ in 0..n {
        out.push_str(&row);
        out.push('\n');
    }
    out
}

fn new_game_text(mode: u8) -> String {
    format!("gomoku_save\n{}\n0\n0 0\n0\n0\n{}0\n", mode, zero_rows(19))
}

#[test]
fn save_new_game_text() {
    let s = GameState::new(GameMode::PVA);
    let text = String::from_utf8(s.save_bytes()).unwrap();
    assert_eq!(text, new_game_text(2));
}

#[test]
fn write_board_rows() {
    let mut b = [[0u8; 19]; 19];
    b[0][0] = 1;
    b[0][18] = 2;
    let mut out = Vec::new();
    write_board(&mut out, &b);
    let text = String::from_utf8(out).unwrap();
    let first = text.lines().next().unwrap();
    assert!(first.starts_with("1 0 0"));
    assert!(first.ends_with("0 0 2"));
    assert_eq!(text.lines().count(), 19);
}

#[test]
fn load_new_game_text() {
    let s = GameState::load_from_bytes(new_game_text(3).as_bytes()).unwrap();
    assert_eq!(s.mode, GameMode::AVA);
    assert_eq!(s.turn_count, 0);
    assert_eq!(s.captures, [0, 0]);
    assert_eq!(s.winner, None);
    assert_eq!(s.five_aligned_winner, None);
    assert!(s.history.is_empty());
    assert_eq!(s.hash, 0);
}

#[test]
fn save_then_load_round_trip() {
    let z = Zobrist::new();
    let mut s = GameState::new(GameMode::PVP);
    s.board[9][10] = 2;
    s.board[9][11] = 2;
    s.board[9][12] = 1;
    s.recompute_hash(&z);
    let moves = [(9, 9), (3, 3), (4, 4), (5, 5)];
    for &(x, y) in moves.iter() {
        s.push_history();
        s.place_piece(x, y, &z);
    }
    s.winner = Some(2);
    let bytes = s.save_bytes();
    let r = GameState::load_from_bytes(&bytes).unwrap();
    assert_eq!(r.board, s.board);
    assert_eq!(r.mode, s.mode);
    assert_eq!(r.turn_count, s.turn_count);
    assert_eq!(r.captures, s.captures);
    assert_eq!(r.captures, [2, 0]);
    assert_eq!(r.winner, Some(2));
    assert_eq!(r.five_aligned_winner, s.five_aligned_winner);
    assert_eq!(r.history.len(), s.history.len());
    for (a, b) in r.history.iter().zip(s.history.iter()) {
        assert_eq!(a.board, b.board);
        assert_eq!(a.captures, b.captures);
        assert_eq!(a.turn_count, b.turn_count);
        assert_eq!(a.winner, b.winner);
        assert_eq!(a.five_aligned_winner, b.five_aligned_winner);
        assert_eq!(a.hash, 0);
    }
    assert_eq!(r.save_bytes(), bytes);
}

#[test]
fn load_accepts_crlf_and_spaces() {
    let text = new_game_text(1).replace('\n', "\r\n").replacen("0 0\r\n", " 0   0 \r\n", 1);
    let s = GameState::load_from_bytes(text.as_bytes()).unwrap();
    assert_eq!(s.mode, GameMode::PVP);
}

#[test]
fn load_rejects_bad_header() {
    let text = new_game_text(1).replacen("gomoku_save", "gomoku", 1);
    assert_eq!(GameState::load_from_bytes(text.as_bytes()).err(), Some(LoadError::Corrupted));
}

#[test]
fn load_rejects_bad_mode() {
    let text = format!("gomoku_save\n7\n0\n0 0\n0\n0\n{}0\n", zero_rows(19));
    assert_eq!(GameState::load_from_bytes(text.as_bytes()).err(), Some(LoadError::Corrupted));
}

#[test]
fn load_rejects_short_file() {
    let text = format!("gomoku_save\n1\n0\n0 0\n0\n0\n{}", zero_rows(18));
    assert_eq!(GameState::load_from_bytes(text.as_bytes()).err(), Some(LoadError::Corrupted));
    assert_eq!(GameState::load_from_bytes(b"").err(), Some(LoadError::Corrupted));
}

#[test]
fn load_rejects_bad_cell_and_count() {
    let bad_cell = new_game_text(1).replacen("0 0 0 0 0 0 0 0 0 0 0 0 0 0 0 0 0 0 0\n", "0 0 0 0 0 0 0 0 0 0 0 0 0 0 0 0 0 0 300\n", 1);
    assert_eq!(GameState::load_from_bytes(bad_cell.as_bytes()).err(), Some(LoadError::Corrupted));
    let missing_history = format!("gomoku_save\n1\n0\n0 0\n0\n0\n{}1\n", zero_rows(19));
    assert_eq!(GameState::load_from_bytes(missing_history.as_bytes()).err(), Some(LoadError::Corrupted));
    let not_a_number = format!("gomoku_save\n1\nten\n0 0\n0\n0\n{}0\n", zero_rows(19));
    assert_eq!(GameState::load_from_bytes(not_a_number.as_bytes()).err(), Some(LoadError::Corrupted));
}

#[test]
fn line_readers() {
    let data = b" 7 \n4000000000\n3 5\n0\n2\n";
    let mut pos = 0usize;
    assert_eq!(read_u8(data, &mut pos), Ok(7));
    assert_eq!(read_u32(data, &mut pos), Ok(4_000_000_000));
    assert_eq!(read_captures(data, &mut pos), Ok([3, 5]));
    assert_eq!(read_optional_u8(data, &mut pos), Ok(None));
    assert_eq!(read_optional_u8(data, &mut pos), Ok(Some(2)));
    assert_eq!(next_line(data, &mut pos), Err(LoadError::Corrupted));
    assert_eq!(corrupted_file(), LoadError::Corrupted);
}

#[test]
fn read_u8_rejects_large_number() {
    let mut pos = 0usize;
    assert_eq!(read_u8(b"256\n", &mut pos), Err(LoadError::Corrupted));
}

#[test]
fn read_board_needs_nineteen_rows() {
    let text = zero_rows(19);
    let mut pos = 0usize;
    let b = read_board(text.as_bytes(), &mut pos).unwrap();
    assert!(b.iter().all(|r| r.iter().all(|&c| c == 0)));
    let short = zero_rows(5);
    let mut pos = 0usize;
    assert_eq!(read_board(short.as_bytes(), &mut pos).err(), Some(LoadError::Corrupted));
}

#[test]
fn load_accepts_unicode_spaces() {
    let text = new_game_text(1).replacen("0 0\n", "0\u{a0}0\u{2028}\n", 1);
    let s = GameState::load_from_bytes(text.as_bytes()).unwrap();
    assert_eq!(s.captures, [0, 0]);
}

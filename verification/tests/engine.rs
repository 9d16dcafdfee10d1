use gomoku::board::new_board;
use gomoku::evaluation::{
    capture_progress, classify_line, classify_run, code_of, count_capture_threats, evaluate_board,
    pattern_score, pattern_value_after_place, FIVE, FOUR, OPEN_FOUR, OPEN_THREE, THREE,
};
use gomoku::game_state::{GameMode, GameState};
use gomoku::minimax::{find_best_move, flush_stats, search_fits, search_with_progress, MAX_SCORE, SEARCH_DEPTH};
use gomoku::ordering::best_moves;
use gomoku::report::{SearchProgress, SearchStats};
use gomoku::search::{get_candidates, move_heuristic, opponent_winning_move, winning_move};
use gomoku::tt::{NodeType, TranspositionTable};
use gomoku::zobrist::Zobrist;

#[test]
fn cell_codes() {
    assert_eq!(code_of(1, 1), 1);
    assert_eq!(code_of(0, 1), 0);
    assert_eq!(code_of(2, 1), 2);
    assert_eq!(code_of(3, 2), 2);
}

#[test]
fn classify_line_patterns() {
    assert_eq!(classify_line(&[0, 1, 1, 1, 1, 1]), FIVE);
    assert_eq!(classify_line(&[0, 1, 1, 1, 1, 0]), OPEN_FOUR);
    assert_eq!(classify_line(&[2, 1, 1, 1, 1, 0]), FOUR);
    assert_eq!(classify_line(&[2, 1, 1, 1, 0, 0]), THREE);
    assert_eq!(classify_line(&[0, 1, 0, 1, 1, 0, 0]), OPEN_THREE);
    assert_eq!(classify_line(&[0, 1, 1, 0, 0]), 40_000);
    assert_eq!(classify_line(&[1, 0]), 0);
    assert_eq!(classify_line(&[0]), 0);
}

#[test]
fn capture_progress_values() {
    assert_eq!(capture_progress(0), 0);
    assert_eq!(capture_progress(1), 1_900_000);
    assert_eq!(capture_progress(2), 4_600_000);
    assert_eq!(capture_progress(10), 55_000_000);
    assert_eq!(capture_progress(12), 55_000_000);
}

#[test]
fn evaluate_empty_and_won_boards() {
    let mut s = GameState::new(GameMode::PVP);
    assert_eq!(evaluate_board(&s), 0);
    s.captures = [10, 0];
    assert_eq!(evaluate_board(&s), 99_000_000);
    s.captures = [3, 11];
    assert_eq!(evaluate_board(&s), -99_000_000);
}

#[test]
fn evaluate_centre_stone() {
    let mut s = GameState::new(GameMode::PVP);
    s.board[9][9] = 1;
    assert_eq!(pattern_score(&s, 1), 600);
    assert_eq!(evaluate_board(&s), 600);
    s.board[9][9] = 2;
    assert_eq!(evaluate_board(&s), -600);
}

#[test]
fn evaluate_capture_threat() {
    let mut s = GameState::new(GameMode::PVP);
    s.board[9][9] = 1;
    s.board[9][10] = 2;
    s.board[9][11] = 2;
    assert_eq!(count_capture_threats(&s.board, 1), 1);
    assert_eq!(count_capture_threats(&s.board, 2), 0);
    assert_eq!(pattern_score(&s, 2), 570 + 540 + 15_000);
    assert_eq!(evaluate_board(&s), 600 - 16_110 + 6_000_000);
}

#[test]
fn pattern_after_place_open_four() {
    let mut b = new_board();
    b[9][10] = 1;
    b[9][11] = 1;
    b[9][12] = 1;
    assert_eq!(pattern_value_after_place(&b, 9, 9, 1, 0, 1), OPEN_FOUR);
    assert_eq!(pattern_value_after_place(&b, 9, 9, 0, 1, 1), 0);
    assert_eq!(pattern_value_after_place(&new_board(), 9, 9, 1, 1, 2), 0);
}

#[test]
fn move_heuristic_centrality() {
    let s = GameState::new(GameMode::PVP);
    assert_eq!(move_heuristic(&s, 9, 9), 2_000);
    assert_eq!(move_heuristic(&s, 0, 0), 200);
}

#[test]
fn candidates_around_single_stone() {
    let mut s = GameState::new(GameMode::PVP);
    s.board[9][9] = 1;
    s.turn_count = 1;
    let c = get_candidates(&s);
    assert_eq!(c, vec![(8, 8), (9, 8), (10, 8), (8, 9), (10, 9), (8, 10), (9, 10), (10, 10)]);
}

#[test]
fn candidates_on_empty_board() {
    let s = GameState::new(GameMode::PVP);
    let c = get_candidates(&s);
    assert_eq!(c.len(), 361);
    assert_eq!(c[0], (0, 0));
    assert_eq!(c[1], (1, 0));
    assert_eq!(c[360], (18, 18));
}

#[test]
fn winning_move_completes_five() {
    let z = Zobrist::new();
    let mut s = GameState::new(GameMode::PVP);
    for x in 5..9 {
        s.board[9][x] = 1;
    }
    assert_eq!(winning_move(&s, &z), Some((4, 9)));
    s.turn_count = 1;
    assert_eq!(opponent_winning_move(&s, &z), Some((4, 9)));
    assert_eq!(winning_move(&s, &z), None);
}

#[test]
fn best_moves_orders_by_value() {
    let l = vec![(5, 0, 0), (9, 1, 0), (5, 2, 0), (7, 3, 0)];
    assert_eq!(best_moves(&l, 3, None), vec![(9, 1, 0), (7, 3, 0), (5, 0, 0)]);
    assert_eq!(best_moves(&l, 10, Some(1)), vec![(7, 3, 0), (5, 0, 0), (5, 2, 0)]);
    assert!(best_moves(&l, 0, None).is_empty());
}

#[test]
fn transposition_table_get_after_save() {
    let mut t = TranspositionTable::new(8);
    assert!(t.get(42).is_none());
    t.save(42, 3, -17, NodeType::LowerBound, Some((4, 5)));
    let e = t.get(42).unwrap();
    assert_eq!((e.hash, e.depth, e.score, e.node_type, e.best_move), (42, 3, -17, NodeType::LowerBound, Some((4, 5))));
    // 50 lands in the same slot and replaces it.
    assert!(t.get(50).is_none());
    t.save(50, 1, 9, NodeType::Exact, None);
    assert!(t.get(42).is_none());
    assert_eq!(t.get(50).unwrap().score, 9);
}

#[test]
fn stats_and_progress_start_empty() {
    let st = SearchStats::new();
    assert_eq!((st.nodes, st.tt_hits), (0, 0));
    let p = SearchProgress::new(7);
    assert_eq!(p.depth, 7);
    assert!(!p.started);
    assert!(p.root_results.is_empty());
    assert_eq!(p.best_move_so_far, None);
}

#[test]
fn flush_stats_publishes_counts() {
    let mut p = SearchProgress::new(SEARCH_DEPTH);
    let st = SearchStats { nodes: 12, tt_hits: 5 };
    let seen = std::cell::Cell::new(0u64);
    flush_stats(&mut p, &st, &|q: &SearchProgress| seen.set(q.nodes));
    assert_eq!((p.nodes, p.tt_hits), (12, 5));
    assert_eq!(seen.get(), 12);
}

#[test]
fn first_move_is_the_centre() {
    let z = Zobrist::new();
    let s = GameState::new(GameMode::AVA);
    assert_eq!(find_best_move(&s, &z), Some((9, 9)));
}

#[test]
fn ai_takes_the_five() {
    let z = Zobrist::new();
    let mut s = GameState::new(GameMode::AVA);
    for x in 5..9 {
        s.board[9][x] = 1;
    }
    s.board[3][3] = 2;
    s.board[3][4] = 2;
    s.board[15][3] = 2;
    s.board[15][15] = 2;
    s.recompute_hash(&z);
    let mv = find_best_move(&s, &z).unwrap();
    assert!(mv == (4, 9) || mv == (9, 9));
}

#[test]
fn search_reports_its_choice() {
    let z = Zobrist::new();
    let mut s = GameState::new(GameMode::AVA);
    s.board[9][9] = 1;
    s.turn_count = 1;
    s.recompute_hash(&z);
    let mut p = SearchProgress::new(SEARCH_DEPTH);
    let (best, report) = search_with_progress(&s, &z, &mut p, &|_q: &SearchProgress| {});
    let mv = best.unwrap();
    assert_eq!(s.can_place_piece(mv.0, mv.1), Ok(()));
    assert_eq!(report.player, 2);
    assert_eq!(report.best_move, best);
    assert!(p.started);
    assert_eq!(report.candidates.len(), p.root_results.len());
}

#[test]
fn pattern_after_place_long_step() {
    let mut b = new_board();
    b[0][2] = 1;
    b[0][4] = 1;
    b[0][6] = 1;
    assert_eq!(pattern_value_after_place(&b, 0, 0, 2, 0, 1), FOUR);
    let mut c = b;
    c[0][0] = 2;
    assert_eq!(pattern_value_after_place(&c, 0, 0, 2, 0, 1), FOUR);
}

#[test]
fn move_heuristic_just_off_the_board() {
    let s = GameState::new(GameMode::PVP);
    assert_eq!(move_heuristic(&s, 19, 9), 1_000);
}

#[test]
fn pattern_after_place_huge_step() {
    let b = new_board();
    let mut c = new_board();
    c[9][9] = 2;
    assert_eq!(pattern_value_after_place(&b, 9, 9, 100_000, 0, 1), 0);
    assert_eq!(pattern_value_after_place(&c, 9, 9, 100_000, 0, 1), 0);
    assert_eq!(pattern_value_after_place(&b, 9, 9, -100_000, 100_000, 2), 0);
}

#[test]
fn run_with_long_step() {
    let mut b = new_board();
    b[0][0] = 1;
    b[0][2] = 1;
    b[0][4] = 1;
    b[0][6] = 1;
    assert_eq!(classify_run(&b, 0, 0, 2, 0, 1), FOUR);
    assert_eq!(classify_run(&b, 0, 0, 1, 0, 1), 0);
    b[0][0] = 2;
    assert_eq!(classify_run(&b, 0, 0, 2, 0, 1), 0);
}

#[test]
fn search_room_for_large_counts() {
    let mut s = GameState::new(GameMode::PVP);
    assert!(search_fits(&s));
    s.captures[0] = 0x8000_0000;
    assert!(search_fits(&s));
    s.captures[1] = 0x7FFF_FFFF - 100;
    assert!(!search_fits(&s));
    s.captures[1] = 0x7FFF_FFFF - 160;
    assert!(search_fits(&s));
    s.captures[0] = u32::MAX - 160;
    assert!(search_fits(&s));
    s.captures[0] = u32::MAX - 159;
    assert!(!search_fits(&s));
    s.captures[0] = 0;
    s.turn_count = u32::MAX - 10;
    assert!(!search_fits(&s));
}

#[test]
fn heuristic_with_a_count_past_i32() {
    let mut s = GameState::new(GameMode::PVP);
    s.board[9][10] = 2;
    s.board[9][11] = 2;
    s.board[9][12] = 1;
    s.captures[0] = 8;
    assert!(move_heuristic(&s, 9, 9) > 90_000_000);
    s.captures[0] = 0x8000_0000;
    assert!(move_heuristic(&s, 9, 9) < 90_000_000);
}

#[test]
fn search_with_a_count_past_i32() {
    let z = Zobrist::new();
    let mut s = GameState::new(GameMode::AVA);
    s.board[9][9] = 1;
    s.turn_count = 1;
    s.captures[0] = 0x8000_0000;
    s.captures[1] = 0x8000_0000;
    s.recompute_hash(&z);
    assert!(search_fits(&s));
    let mv = find_best_move(&s, &z).unwrap();
    assert_eq!(s.can_place_piece(mv.0, mv.1), Ok(()));
}

#[test]
fn search_progress_keeps_the_best_score() {
    let z = Zobrist::new();
    let mut s = GameState::new(GameMode::AVA);
    s.board[9][9] = 1;
    s.turn_count = 1;
    s.recompute_hash(&z);
    let mut p = SearchProgress::new(SEARCH_DEPTH);
    let (_best, report) = search_with_progress(&s, &z, &mut p, &|_q: &SearchProgress| {});
    if p.root_results.is_empty() {
        assert_eq!(p.best_score_so_far, MAX_SCORE);
    } else {
        let best = p.root_results.iter().map(|rc| rc.score).min().unwrap();
        assert_eq!(p.best_score_so_far, best);
    }
    assert_eq!(report.candidates.len(), p.root_results.len());
}

#[test]
fn colour_swap_negates_the_value() {
    let mut s = GameState::new(GameMode::PVP);
    s.board[9][9] = 1;
    s.board[9][10] = 1;
    s.board[9][11] = 1;
    s.board[10][10] = 2;
    s.board[3][4] = 2;
    s.board[10][12] = 2;
    s.board[11][13] = 1;
    s.captures = [2, 4];
    let mut t = s.clone();
    for y in 0..19 {
        for x in 0..19 {
            t.board[y][x] = match s.board[y][x] {
                1 => 2,
                2 => 1,
                c => c,
            };
        }
    }
    t.captures = [4, 2];
    assert_ne!(evaluate_board(&s), 0);
    assert_eq!(evaluate_board(&t), -evaluate_board(&s));
    assert_eq!(evaluate_board(&GameState::new(GameMode::PVP)), 0);
}

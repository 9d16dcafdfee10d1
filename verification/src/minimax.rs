//! Alpha-beta search with a transposition table, a time limit and live progress.
use vstd::prelude::*;
use std::time::Instant;
use crate::board::{grid, in_board, at};
use crate::capture::lemma_capture_list_len;
use crate::evaluation::{evaluate_board, evaluation_value};
use crate::game_state::{
    GameState, legal_move, stone_grid, captures_after, turn_after, grid_after, winner_after, five_after,
    hash_after,
};
use crate::ordering::{best_first, best_moves};
use crate::report::{RootCandidate, SearchProgress, SearchReport, SearchStats};
use crate::search::{
    candidate_list, candidates_ok, capture_gain, get_candidates, heuristic_value, lemma_candidates_legal,
    lemma_capture_gain_bound, move_heuristic, no_near_candidate, near_candidate,
};
use crate::tt::{NodeType, TTEntry, TranspositionTable};
use crate::zobrist::Zobrist;

verus! {

#[verifier::external_type_specification]
#[verifier::external_body]
pub struct ExInstant(Instant);

/// Time the search may take.
pub const TIME_LIMIT_MS: u64 = 900;
/// Depth of the search.
pub const SEARCH_DEPTH: u32 = 10;
/// Lowest score of a search.
pub const MIN_SCORE: i32 = -200_000_000;
/// Highest score of a search.
pub const MAX_SCORE: i32 = 200_000_000;
/// How often (in nodes) the counters are published.
pub const FLUSH_EVERY: u64 = 512;
/// The score a search returns when it runs out of time.
pub const TIMEOUT_SCORE: i32 = -999_999_999;
/// Slots of the transposition table.
pub const TT_SIZE: usize = 256;

/// The current time (`Instant::now`).
#[verifier::external_body]
fn clock_now() -> Instant {
    Instant::now()
}

/// Whole milliseconds elapsed since `start` (`Instant::elapsed`, read with
/// `Duration::as_millis`). Nothing is stated of the result: it depends on the clock.
#[verifier::external_body]
fn elapsed_ms(start: &Instant) -> u128 {
    start.elapsed().as_millis()
}

/// Hands the progress to whoever displays it.
fn publish_progress<F: Fn(&SearchProgress)>(publish: &F, progress: &SearchProgress)
    requires forall|p: &SearchProgress| publish.requires((p,)),
{
    publish(progress);
}

/// Copies the counters into the progress, and publishes it.
pub fn flush_stats<F: Fn(&SearchProgress)>(progress: &mut SearchProgress, stats: &SearchStats, publish: &F)
    requires forall|p: &SearchProgress| publish.requires((p,)),
    ensures
        final(progress).nodes == stats.nodes,
        final(progress).tt_hits == stats.tt_hits,
        progress_kept(*old(progress), *final(progress)),
        final(progress).timed_out == old(progress).timed_out,
{
    progress.nodes = stats.nodes;
    progress.tt_hits = stats.tt_hits;
    publish_progress(publish, progress);
}

/// The score of a won position, `depth` plies from the search's horizon: wins
/// found sooner score further from zero.
pub open spec fn win_score(w: u8, depth: u32) -> int {
    if w == 1 { 100_000_000 + depth } else { -100_000_000 - depth }
}

/// Most nodes a search of depth `d` visits: at most seven moves per node.
pub open spec fn node_budget(d: nat) -> nat
    decreases d,
{
    if d == 0 { 1 } else { 1 + 7 * node_budget((d - 1) as nat) }
}

/// Room in a capture count `c` for `n` more moves, each of which captures at most
/// sixteen stones: the count stays a `u32`, and it either stays a non-negative
/// `i32` or is one already too large for it (then it reads as negative there).
pub open spec fn captures_room(c: int, n: int) -> bool {
    &&& c + 16 * n <= u32::MAX
    &&& (c + 16 * n <= i32::MAX || c > i32::MAX)
}

/// Room for `depth` more moves: no capture count and no turn counter overflows.
pub open spec fn search_bounds(s: GameState, depth: int) -> bool {
    &&& captures_room(s.captures[0] as int, depth)
    &&& captures_room(s.captures[1] as int, depth)
    &&& s.turn_count + depth < u32::MAX
}

/// Whether the count `c` has room for `n` more moves.
fn captures_fit(c: u32, n: u32) -> (r: bool)
    requires n <= SEARCH_DEPTH,
    ensures r == captures_room(c as int, n as int),
{
    let total = c as u64 + 16 * n as u64;
    total <= 0xFFFF_FFFF && (total <= 0x7FFF_FFFF || c as u64 > 0x7FFF_FFFF)
}

/// Whether the counters of a game leave room for a search to its full depth: the
/// condition under which a search may be started on it.
pub fn search_fits(state: &GameState) -> (r: bool)
    ensures r == search_bounds(*state, SEARCH_DEPTH as int),
{
    captures_fit(state.captures[0], SEARCH_DEPTH) && captures_fit(state.captures[1], SEARCH_DEPTH)
        && (state.turn_count as u64) + (SEARCH_DEPTH as u64) < 0xFFFF_FFFF
}

/// A capture count read as an `i32`: itself below the `i32` limit, negative above.
proof fn lemma_count_as_i32(c: u32)
    ensures
        c <= 0x7FFF_FFFF ==> (c as i32) == c,
        c > 0x7FFF_FFFF ==> (c as i32) < 0,
{
    assert(c <= 0x7FFF_FFFF ==> (c as i32) == c) by (bit_vector);
    assert(c > 0x7FFF_FFFF ==> (c as i32) < 0) by (bit_vector);
}

/// The fields of the progress that only the root of the search sets are unchanged,
/// and a time-out stays recorded.
pub open spec fn progress_kept(a: SearchProgress, b: SearchProgress) -> bool {
    &&& b.started == a.started
    &&& b.current_candidate == a.current_candidate
    &&& b.candidates_done == a.candidates_done
    &&& b.total_candidates == a.total_candidates
    &&& b.depth == a.depth
    &&& b.root_results == a.root_results
    &&& b.best_move_so_far == a.best_move_so_far
    &&& b.best_score_so_far == a.best_score_so_far
    &&& a.timed_out ==> b.timed_out
}

/// The candidate moves with their heuristic values, in candidate order.
pub open spec fn scored_candidates(s: GameState) -> Seq<(i32, usize, usize)> {
    let cl = candidate_list(s);
    Seq::new(cl.len(), |i: int| (heuristic_value(s, cl[i].0 as int, cl[i].1 as int) as i32, cl[i].0, cl[i].1))
}

/// The candidate moves and their heuristic values.
fn score_candidates(state: &GameState) -> (r: Vec<(i32, usize, usize)>)
    requires
        captures_room(state.captures[0] as int, 1),
        captures_room(state.captures[1] as int, 1),
    ensures
        r@ == scored_candidates(*state),
        forall|i: int| 0 <= i < r@.len() ==> legal_move(*state, #[trigger] r@[i].1 as int, r@[i].2 as int),
        candidates_ok(*state, candidate_list(*state)),
{
    let cands = get_candidates(state);
    proof {
        lemma_candidates_legal(*state, cands@);
    }
    let mut r: Vec<(i32, usize, usize)> = Vec::new();
    let n = cands.len();
    for i in 0..n
        invariant
            n == cands@.len(),
            cands@ == candidate_list(*state),
            captures_room(state.captures[0] as int, 1),
            captures_room(state.captures[1] as int, 1),
            forall|k: int| 0 <= k < n ==> legal_move(*state, #[trigger] cands@[k].0 as int, cands@[k].1 as int),
            r@ == scored_candidates(*state).take(i as int),
    {
        let (x, y) = cands[i];
        assert(legal_move(*state, cands@[i as int].0 as int, cands@[i as int].1 as int));
        proof {
            lemma_capture_gain_bound(grid(state.board), state.player(), y as int, x as int, 4);
            lemma_count_as_i32(state.captures[0]);
            lemma_count_as_i32(state.captures[1]);
        }
        let h = move_heuristic(state, x, y);
        r.push((h, x, y));
        assert(r@ =~= scored_candidates(*state).take(i + 1));
    }
    assert(r@ =~= scored_candidates(*state));
    r
}

/// The first entry of `l` for the move `m`.
fn find_move(l: &Vec<(i32, usize, usize)>, m: (usize, usize)) -> (r: Option<usize>)
    ensures
        r matches Some(i) ==> i < l@.len() && l@[i as int].1 == m.0 && l@[i as int].2 == m.1
            && forall|j: int| 0 <= j < i ==> !(#[trigger] l@[j].1 == m.0 && l@[j].2 == m.1),
        r is None ==> forall|j: int| 0 <= j < l@.len() ==> !(#[trigger] l@[j].1 == m.0 && l@[j].2 == m.1),
{
    for i in 0..l.len()
        invariant
            forall|j: int| 0 <= j < i ==> !(#[trigger] l@[j].1 == m.0 && l@[j].2 == m.1),
    {
        if l[i].1 == m.0 && l[i].2 == m.1 {
            return Some(i);
        }
    }
    None
}

/// Playing a legal move keeps room for one move fewer.
proof fn lemma_child_bounds(s: GameState, x: int, y: int, depth: int)
    requires
        search_bounds(s, depth),
        depth >= 1,
        in_board(y, x),
    ensures
        captures_room(captures_after(s, x, y, 0), depth - 1),
        captures_room(captures_after(s, x, y, 1), depth - 1),
        turn_after(s, x, y) + depth - 1 < u32::MAX,
        captures_after(s, x, y, s.player() - 1) <= u32::MAX,
{
    lemma_capture_list_len(stone_grid(s, x, y), y, x, 8);
}

/// The entry of the table `t` in the slot of `hash`, if it holds that hash.
pub open spec fn tt_probe(t: Seq<Option<TTEntry>>, hash: u64) -> Option<TTEntry> {
    match t[hash as int % t.len() as int] {
        Some(e) => if e.hash == hash { Some(e) } else { None },
        None => None,
    }
}

/// The table `t` once a node's result is stored in the slot of its hash: an upper
/// bound when the score did not rise above the window's `alpha0`, a lower bound
/// when it reached `beta`, exact otherwise.
pub open spec fn tt_stored(
    t: Seq<Option<TTEntry>>,
    hash: u64,
    depth: u32,
    score: int,
    alpha0: int,
    beta: int,
    mv: Option<(usize, usize)>,
) -> Seq<Option<TTEntry>> {
    let nt = if score <= alpha0 {
        NodeType::UpperBound
    } else if score >= beta {
        NodeType::LowerBound
    } else {
        NodeType::Exact
    };
    t.update(
        hash as int % t.len() as int,
        Some(TTEntry { hash, depth, score: score as i32, node_type: nt, best_move: mv }),
    )
}

/// Moves searched at a node `d` plies above the horizon, below the root.
pub open spec fn node_branches(d: nat) -> int {
    if d >= 6 { 4 } else if d >= 3 { 7 } else { 5 }
}

/// `c` is the position after the player to move in `s` plays `(y, x)`.
pub open spec fn child_of(s: GameState, c: GameState, x: int, y: int, z: Zobrist) -> bool {
    &&& grid(c.board) == grid_after(s, x, y)
    &&& c.captures[0] == captures_after(s, x, y, 0)
    &&& c.captures[1] == captures_after(s, x, y, 1)
    &&& c.winner == winner_after(s, x, y)
    &&& c.five_aligned_winner == five_after(s, x, y)
    &&& c.turn_count == turn_after(s, x, y)
    &&& c.hash == hash_after(s, x, y, z)
}

/// The move an entry suggests searching first.
pub open spec fn probe_move(e: Option<TTEntry>) -> Option<(usize, usize)> {
    match e {
        Some(en) => en.best_move,
        None => None,
    }
}

/// The entry `e` was stored at least `d` plies deep.
pub open spec fn probe_deep(e: Option<TTEntry>, d: nat) -> bool {
    e is Some && e.unwrap().depth >= d
}

/// The window `(alpha, beta)` narrowed by a deep enough entry: a lower bound
/// raises `alpha`, an upper bound lowers `beta`.
pub open spec fn probe_window(e: Option<TTEntry>, d: nat, alpha: int, beta: int) -> (int, int) {
    let deep = probe_deep(e, d);
    let a = if deep && e.unwrap().node_type == NodeType::LowerBound && e.unwrap().score > alpha {
        e.unwrap().score as int
    } else {
        alpha
    };
    let b = if deep && e.unwrap().node_type == NodeType::UpperBound && e.unwrap().score < beta {
        e.unwrap().score as int
    } else {
        beta
    };
    (a, b)
}

/// A deep enough entry settles the score: it is exact, or it closes the window.
pub open spec fn probe_settles(e: Option<TTEntry>, d: nat, alpha: int, beta: int) -> bool {
    probe_deep(e, d) && (e.unwrap().node_type == NodeType::Exact || probe_window(e, d, alpha, beta).0
        >= probe_window(e, d, alpha, beta).1)
}

/// `r` is the alpha-beta value of `s` searched `d` plies deep within the window
/// `(alpha, beta)`, maximizing for black when `m`, starting with the table `t0`,
/// and `t1` the table after: a won position scores `win_score`, a position at
/// the horizon its evaluation; otherwise an entry for the position stored at
/// least as deep settles an exact score or narrows the window (and settles the
/// score if the window closes); else the moves are searched in the order of
/// `ordered_with_first` (the table's move first) and the result is stored.
pub open spec fn ab_result(
    s: GameState,
    d: nat,
    alpha: int,
    beta: int,
    m: bool,
    z: Zobrist,
    t0: Seq<Option<TTEntry>>,
    r: int,
    t1: Seq<Option<TTEntry>>,
) -> bool
    decreases d, 1int, 0int, 0int,
{
    match s.winner {
        Some(w) => r == win_score(w, d as u32) && t1 == t0,
        None => if d == 0 {
            r == evaluation_value(s) && t1 == t0
        } else {
            let e = tt_probe(t0, s.hash);
            if probe_settles(e, d, alpha, beta) {
                r == e.unwrap().score && t1 == t0
            } else {
                let a = probe_window(e, d, alpha, beta).0;
                let b = probe_window(e, d, alpha, beta).1;
                exists|o: Seq<(i32, usize, usize)>, mv: Option<(usize, usize)>, bf: int, tc: Seq<Option<TTEntry>>|
                    #![trigger ordered_with_first(scored_candidates(s), node_branches(d), probe_move(tt_probe(t0, s.hash)), o), searched(mv, bf, tc)]
                    children_result(s, d, o, 0, a, b, m, z, t0, worst_score(m), None, r, mv, bf, tc)
                    && ordered_with_first(scored_candidates(s), node_branches(d), probe_move(tt_probe(t0, s.hash)), o)
                    && t1 == tt_stored(tc, s.hash, d as u32, r, a, bf, mv)
            }
        }
    }
}

/// Searching the moves of `o` from index `i` on, with the window `(alpha, beta)`,
/// the table `t`, the best score `best` and move `mv` so far, ends with the best
/// score `rb`, move `rmv`, upper end of the window `rbeta` and table `rt`: an
/// illegal move is passed over; a legal one is searched one ply shallower for the
/// other side, may improve the best score and narrow the window, and once the
/// window closes the search stops.
pub open spec fn children_result(
    s: GameState,
    d: nat,
    o: Seq<(i32, usize, usize)>,
    i: int,
    alpha: int,
    beta: int,
    m: bool,
    z: Zobrist,
    t: Seq<Option<TTEntry>>,
    best: int,
    mv: Option<(usize, usize)>,
    rb: int,
    rmv: Option<(usize, usize)>,
    rbeta: int,
    rt: Seq<Option<TTEntry>>,
) -> bool
    decreases d, 0int, o.len() - i, 1int,
{
    if i < 0 || i >= o.len() || d == 0 {
        rb == best && rmv == mv && rbeta == beta && rt == t
    } else if !legal_move(s, o[i].1 as int, o[i].2 as int) {
        children_result(s, d, o, i + 1, alpha, beta, m, z, t, best, mv, rb, rmv, rbeta, rt)
    } else {
        exists|c: GameState, v: int, t2: Seq<Option<TTEntry>>|
            #![trigger child_of(s, c, o[i].1 as int, o[i].2 as int, z), scored(v, t2)]
            ab_result(c, (d - 1) as nat, alpha, beta, other_side(m), z, t, v, t2)
            && child_of(s, c, o[i].1 as int, o[i].2 as int, z)
            && child_step(s, d, o, i, alpha, beta, m, z, best, mv, v, t2, rb, rmv, rbeta, rt)
    }
}

/// The score a search starts from: the lowest for the maximizing side, the highest otherwise.
pub open spec fn worst_score(m: bool) -> int {
    if m { MIN_SCORE as int } else { MAX_SCORE as int }
}

/// The end of a search of the moves: best move, upper end of the window and
/// table (a name to match on).
pub open spec fn searched(mv: Option<(usize, usize)>, bf: int, tc: Seq<Option<TTEntry>>) -> bool {
    true
}

/// A score and a table (a name to match on).
pub open spec fn scored(v: int, t: Seq<Option<TTEntry>>) -> bool {
    true
}

/// The side to move after `m`.
pub open spec fn other_side(m: bool) -> bool {
    !m
}

/// The rest of the search once the move `o[i]` has scored `v`, leaving the table `t2`.
pub open spec fn child_step(
    s: GameState,
    d: nat,
    o: Seq<(i32, usize, usize)>,
    i: int,
    alpha: int,
    beta: int,
    m: bool,
    z: Zobrist,
    best: int,
    mv: Option<(usize, usize)>,
    v: int,
    t2: Seq<Option<TTEntry>>,
    rb: int,
    rmv: Option<(usize, usize)>,
    rbeta: int,
    rt: Seq<Option<TTEntry>>,
) -> bool
    decreases d, 0int, o.len() - i, 0int,
{
    let better = if m { v > best } else { v < best };
    let best2 = if better { v } else { best };
    let mv2 = if better { Some((o[i].1, o[i].2)) } else { mv };
    let alpha2 = if m && v > alpha { v } else { alpha };
    let beta2 = if !m && v < beta { v } else { beta };
    if beta2 <= alpha2 || i + 1 > o.len() || i < 0 {
        rb == best2 && rmv == mv2 && rbeta == beta2 && rt == t2
    } else {
        children_result(s, d, o, i + 1, alpha2, beta2, m, z, t2, best2, mv2, rb, rmv, rbeta, rt)
    }
}

/// After a searched move, what the search of the moves from `i` on ends with
/// follows from what the rest of the search ends with.
proof fn lemma_child_taken(
    s: GameState, d: nat, o: Seq<(i32, usize, usize)>, i: int, alpha: int, beta: int, m: bool, z: Zobrist,
    t: Seq<Option<TTEntry>>, best: int, mv: Option<(usize, usize)>, c: GameState, v: int, t2: Seq<Option<TTEntry>>,
    a0: int, b0: int, t0: Seq<Option<TTEntry>>,
)
    requires
        d >= 1,
        0 <= i < o.len(),
        legal_move(s, o[i].1 as int, o[i].2 as int),
        child_of(s, c, o[i].1 as int, o[i].2 as int, z),
        ab_result(c, (d - 1) as nat, alpha, beta, other_side(m), z, t, v, t2),
        forall|rb: int, rmv: Option<(usize, usize)>, rbeta: int, rt: Seq<Option<TTEntry>>|
            #[trigger] children_result(s, d, o, i, alpha, beta, m, z, t, best, mv, rb, rmv, rbeta, rt)
            ==> children_result(s, d, o, 0, a0, b0, m, z, t0, worst_score(m), None, rb, rmv, rbeta, rt),
    ensures
        forall|rb: int, rmv: Option<(usize, usize)>, rbeta: int, rt: Seq<Option<TTEntry>>|
            #[trigger] child_step(s, d, o, i, alpha, beta, m, z, best, mv, v, t2, rb, rmv, rbeta, rt)
            ==> children_result(s, d, o, 0, a0, b0, m, z, t0, worst_score(m), None, rb, rmv, rbeta, rt),
{
    assert forall|rb: int, rmv: Option<(usize, usize)>, rbeta: int, rt: Seq<Option<TTEntry>>|
        #[trigger] child_step(s, d, o, i, alpha, beta, m, z, best, mv, v, t2, rb, rmv, rbeta, rt)
        implies children_result(s, d, o, 0, a0, b0, m, z, t0, worst_score(m), None, rb, rmv, rbeta, rt) by {
        assert(ab_result(c, (d - 1) as nat, alpha, beta, other_side(m), z, t, v, t2)
            && child_of(s, c, o[i].1 as int, o[i].2 as int, z)
            && child_step(s, d, o, i, alpha, beta, m, z, best, mv, v, t2, rb, rmv, rbeta, rt));
        assert(scored(v, t2));
        assert(children_result(s, d, o, i, alpha, beta, m, z, t, best, mv, rb, rmv, rbeta, rt));
    }
}

/// When the window stays open after move `i`, the rest of the search is the
/// search from `i + 1` on.
proof fn lemma_child_next(
    s: GameState, d: nat, o: Seq<(i32, usize, usize)>, i: int, alpha: int, beta: int, m: bool, z: Zobrist,
    best: int, mv: Option<(usize, usize)>, v: int, t2: Seq<Option<TTEntry>>,
    alpha2: int, beta2: int, best2: int, mv2: Option<(usize, usize)>,
)
    requires
        0 <= i < o.len(),
        alpha2 == (if m && v > alpha { v } else { alpha }),
        beta2 == (if !m && v < beta { v } else { beta }),
        best2 == (if (if m { v > best } else { v < best }) { v } else { best }),
        mv2 == (if (if m { v > best } else { v < best }) { Some((o[i].1, o[i].2)) } else { mv }),
    ensures
        beta2 <= alpha2 ==> child_step(s, d, o, i, alpha, beta, m, z, best, mv, v, t2, best2, mv2, beta2, t2),
        !(beta2 <= alpha2) ==> forall|rb: int, rmv: Option<(usize, usize)>, rbeta: int, rt: Seq<Option<TTEntry>>|
            #[trigger] children_result(s, d, o, i + 1, alpha2, beta2, m, z, t2, best2, mv2, rb, rmv, rbeta, rt)
            ==> child_step(s, d, o, i, alpha, beta, m, z, best, mv, v, t2, rb, rmv, rbeta, rt),
{
}

/// An illegal move is passed over.
proof fn lemma_child_skipped(
    s: GameState, d: nat, o: Seq<(i32, usize, usize)>, i: int, alpha: int, beta: int, m: bool, z: Zobrist,
    t: Seq<Option<TTEntry>>, best: int, mv: Option<(usize, usize)>, a0: int, b0: int, t0: Seq<Option<TTEntry>>,
)
    requires
        d >= 1,
        0 <= i < o.len(),
        !legal_move(s, o[i].1 as int, o[i].2 as int),
        forall|rb: int, rmv: Option<(usize, usize)>, rbeta: int, rt: Seq<Option<TTEntry>>|
            #[trigger] children_result(s, d, o, i, alpha, beta, m, z, t, best, mv, rb, rmv, rbeta, rt)
            ==> children_result(s, d, o, 0, a0, b0, m, z, t0, worst_score(m), None, rb, rmv, rbeta, rt),
    ensures
        forall|rb: int, rmv: Option<(usize, usize)>, rbeta: int, rt: Seq<Option<TTEntry>>|
            #[trigger] children_result(s, d, o, i + 1, alpha, beta, m, z, t, best, mv, rb, rmv, rbeta, rt)
            ==> children_result(s, d, o, 0, a0, b0, m, z, t0, worst_score(m), None, rb, rmv, rbeta, rt),
{
    assert forall|rb: int, rmv: Option<(usize, usize)>, rbeta: int, rt: Seq<Option<TTEntry>>|
        #[trigger] children_result(s, d, o, i + 1, alpha, beta, m, z, t, best, mv, rb, rmv, rbeta, rt)
        implies children_result(s, d, o, 0, a0, b0, m, z, t0, worst_score(m), None, rb, rmv, rbeta, rt) by {
        assert(children_result(s, d, o, i, alpha, beta, m, z, t, best, mv, rb, rmv, rbeta, rt));
    }
}

/// A node whose moves were searched: its value is that of the search of its moves.
proof fn lemma_ab_searched(
    s: GameState, d: nat, alpha: int, beta: int, m: bool, z: Zobrist, t0: Seq<Option<TTEntry>>,
    r: int, o: Seq<(i32, usize, usize)>, mv: Option<(usize, usize)>, bf: int, tc: Seq<Option<TTEntry>>,
    t1: Seq<Option<TTEntry>>,
)
    requires
        s.winner is None,
        d > 0,
        !probe_settles(tt_probe(t0, s.hash), d, alpha, beta),
        children_result(s, d, o, 0, probe_window(tt_probe(t0, s.hash), d, alpha, beta).0,
            probe_window(tt_probe(t0, s.hash), d, alpha, beta).1, m, z, t0, worst_score(m), None, r, mv, bf, tc),
        ordered_with_first(scored_candidates(s), node_branches(d), probe_move(tt_probe(t0, s.hash)), o),
        t1 == tt_stored(tc, s.hash, d as u32, r, probe_window(tt_probe(t0, s.hash), d, alpha, beta).0, bf, mv),
    ensures
        ab_result(s, d, alpha, beta, m, z, t0, r, t1),
{
    assert(searched(mv, bf, tc));
}

/// Alpha-beta value of `state` searched `depth` plies deep, from black's point of
/// view (`is_maximizing` when black is to move), within the window
/// `(alpha, beta)`, with the transposition table; `TIMEOUT_SCORE` once the time
/// is up. A won position scores `win_score`, a position at the horizon its
/// static evaluation; when the time did not run out, the score and the table
/// after are those of `ab_result`.
#[verifier::rlimit(60)]
fn alpha_beta<F: Fn(&SearchProgress)>(
    state: &GameState,
    depth: u32,
    alpha: i32,
    beta: i32,
    is_maximizing: bool,
    zobrist: &Zobrist,
    tt: &mut TranspositionTable,
    start_time: &Instant,
    time_limit_ms: u128,
    stats: &mut SearchStats,
    progress: &mut SearchProgress,
    publish: &F,
) -> (r: i32)
    requires
        old(tt).wf(),
        depth <= SEARCH_DEPTH,
        search_bounds(*state, depth as int),
        old(stats).tt_hits <= old(stats).nodes,
        old(stats).nodes + node_budget(depth as nat) <= u64::MAX,
        forall|p: &SearchProgress| publish.requires((p,)),
    ensures
        final(tt).wf(),
        old(stats).nodes <= final(stats).nodes <= old(stats).nodes + node_budget(depth as nat),
        final(stats).tt_hits <= final(stats).nodes,
        progress_kept(*old(progress), *final(progress)),
        r == TIMEOUT_SCORE || {
            &&& (state.winner matches Some(w) ==> r == win_score(w, depth))
            &&& (state.winner is None && depth == 0 ==> r == evaluation_value(*state))
        },
        time_limit_ms == 0 ==> {
            &&& r == TIMEOUT_SCORE
            &&& final(progress).timed_out
            &&& final(stats).nodes == old(stats).nodes
            &&& final(stats).tt_hits == old(stats).tt_hits
            &&& final(tt)@ == old(tt)@
        },
        !final(progress).timed_out && (state.winner is Some || depth == 0) ==> {
            &&& r == match state.winner {
                Some(w) => win_score(w, depth),
                None => evaluation_value(*state),
            }
            &&& final(stats).nodes == old(stats).nodes + 1
            &&& final(stats).tt_hits == old(stats).tt_hits
            &&& final(tt)@ == old(tt)@
        },
        !final(progress).timed_out ==> ab_result(
            *state,
            depth as nat,
            alpha as int,
            beta as int,
            is_maximizing,
            *zobrist,
            old(tt)@,
            r as int,
            final(tt)@,
        ),
    decreases depth,
{
    if elapsed_ms(start_time) >= time_limit_ms {
        progress.timed_out = true;
        publish_progress(publish, progress);
        return TIMEOUT_SCORE;
    }
    stats.nodes = stats.nodes + 1;
    if stats.nodes % FLUSH_EVERY == 0 {
        flush_stats(progress, stats, publish);
    }
    if let Some(winner) = state.winner {
        return if winner == 1 { 100_000_000 + depth as i32 } else { -100_000_000 - depth as i32 };
    }
    if depth == 0 {
        return evaluate_board(state);
    }
    let ghost alpha_in = alpha as int;
    let ghost beta_in = beta as int;
    let mut alpha = alpha;
    let mut beta = beta;
    let mut tt_best_move: Option<(usize, usize)> = None;
    if let Some(entry) = tt.get(state.hash) {
        stats.tt_hits = stats.tt_hits + 1;
        tt_best_move = entry.best_move;
        if entry.depth >= depth {
            match entry.node_type {
                NodeType::Exact => {
                    return entry.score;
                },
                NodeType::LowerBound => {
                    if entry.score > alpha {
                        alpha = entry.score;
                    }
                },
                NodeType::UpperBound => {
                    if entry.score < beta {
                        beta = entry.score;
                    }
                },
            }
            if alpha >= beta {
                return entry.score;
            }
        }
    }
    assert(!probe_settles(tt_probe(old(tt)@, state.hash), depth as nat, alpha_in, beta_in));
    assert(probe_window(tt_probe(old(tt)@, state.hash), depth as nat, alpha_in, beta_in) == (alpha as int, beta as int));
    let alpha_orig = alpha;
    let ghost b0 = beta as int;
    let ghost t_start = tt@;
    let ghost m = is_maximizing;
    let mut best_val: i32 = if is_maximizing { MIN_SCORE } else { MAX_SCORE };
    let mut current_best_move: Option<(usize, usize)> = None;

    let scored = score_candidates(state);
    let max_branches: usize = if depth >= 6 { 4 } else if depth >= 3 { 7 } else { 5 };
    let ordered = order_with_first(&scored, max_branches, tt_best_move);

    let ghost b = node_budget((depth - 1) as nat);
    let ghost nodes0 = old(stats).nodes;
    let n = ordered.len();
    let mut i: usize = 0;
    loop
        invariant_except_break
            nodes0 < stats.nodes <= nodes0 + 1 + i * b,
            !progress.timed_out ==> forall|rb: int, rmv: Option<(usize, usize)>, rbeta: int, rt: Seq<Option<TTEntry>>|
                #[trigger] children_result(*state, depth as nat, ordered@, i as int, alpha as int, beta as int, m, *zobrist, tt@, best_val as int, current_best_move, rb, rmv, rbeta, rt)
                ==> children_result(*state, depth as nat, ordered@, 0, alpha_orig as int, b0, m, *zobrist, t_start, worst_score(m), None, rb, rmv, rbeta, rt),
        invariant
            n == ordered@.len(),
            n <= 7,
            i <= n,
            1 <= depth <= SEARCH_DEPTH,
            b == node_budget((depth - 1) as nat),
            node_budget(depth as nat) == 1 + 7 * b,
            search_bounds(*state, depth as int),
            state.winner is None,
            tt.wf(),
            stats.tt_hits <= stats.nodes,
            nodes0 + 1 + 7 * b <= u64::MAX,
            progress_kept(*old(progress), *progress),
            forall|p: &SearchProgress| publish.requires((p,)),
            ordered_with_first(scored@, max_branches as int, tt_best_move, ordered@),
            scored@ == scored_candidates(*state),
            m == is_maximizing,
        ensures
            nodes0 < stats.nodes <= nodes0 + 1 + n * b,
            !progress.timed_out ==> children_result(*state, depth as nat, ordered@, 0, alpha_orig as int, b0, m, *zobrist, t_start, worst_score(m), None, best_val as int, current_best_move, beta as int, tt@),
        decreases n - i,
    {
        if i >= n {
            proof {
                if !progress.timed_out {
                    assert(children_result(*state, depth as nat, ordered@, i as int, alpha as int, beta as int, m, *zobrist, tt@, best_val as int, current_best_move, best_val as int, current_best_move, beta as int, tt@));
                }
            }
            break;
        }
        let (_, x, y) = ordered[i];
        let ghost alpha_i = alpha as int;
        let ghost beta_i = beta as int;
        let ghost best_i = best_val as int;
        let ghost mv_i = current_best_move;
        let ghost tt_i = tt@;
        if state.can_place_piece(x, y).is_ok() {
            let mut next_state = state.clone();
            proof {
                lemma_child_bounds(*state, x as int, y as int, depth as int);
                assert(i * b + b <= 7 * b) by (nonlinear_arith)
                    requires i < 7;
            }
            next_state.place_piece(x, y, zobrist);
            assert(child_of(*state, next_state, x as int, y as int, *zobrist));
            let eval = alpha_beta(
                &next_state,
                depth - 1,
                alpha,
                beta,
                !is_maximizing,
                zobrist,
                tt,
                start_time,
                time_limit_ms,
                stats,
                progress,
                publish,
            );
            if is_maximizing {
                if eval > best_val {
                    best_val = eval;
                    current_best_move = Some((x, y));
                }
                if eval > alpha {
                    alpha = eval;
                }
            } else {
                if eval < best_val {
                    best_val = eval;
                    current_best_move = Some((x, y));
                }
                if eval < beta {
                    beta = eval;
                }
            }
            proof {
                if !progress.timed_out {
                    lemma_child_taken(*state, depth as nat, ordered@, i as int, alpha_i, beta_i, m, *zobrist, tt_i,
                        best_i, mv_i, next_state, eval as int, tt@, alpha_orig as int, b0, t_start);
                    lemma_child_next(*state, depth as nat, ordered@, i as int, alpha_i, beta_i, m, *zobrist,
                        best_i, mv_i, eval as int, tt@, alpha as int, beta as int, best_val as int, current_best_move);
                }
            }
            if beta <= alpha {
                proof {
                    assert(i * b + b <= n * b) by (nonlinear_arith)
                        requires i < n, b >= 0;
                }
                break;
            }
        } else {
            proof {
                if !progress.timed_out {
                    lemma_child_skipped(*state, depth as nat, ordered@, i as int, alpha as int, beta as int, m, *zobrist,
                        tt@, best_val as int, current_best_move, alpha_orig as int, b0, t_start);
                }
            }
        }
        proof {
            assert(i * b + b == (i + 1) * b) by (nonlinear_arith);
            assert(i * b <= (i + 1) * b) by (nonlinear_arith);
        }
        i = i + 1;
    }
    proof {
        assert(n * b <= 7 * b) by (nonlinear_arith)
            requires n <= 7;
    }
    let node_type = if best_val <= alpha_orig {
        NodeType::UpperBound
    } else if best_val >= beta {
        NodeType::LowerBound
    } else {
        NodeType::Exact
    };
    let ghost tc = tt@;
    tt.save(state.hash, depth, best_val, node_type, current_best_move);
    proof {
        if !progress.timed_out {
            assert(tt@ == tt_stored(tc, state.hash, depth, best_val as int, alpha_orig as int, beta as int, current_best_move));
            assert(children_result(*state, depth as nat, ordered@, 0, alpha_orig as int, b0, m, *zobrist, t_start, worst_score(m), None, best_val as int, current_best_move, beta as int, tc));
            let e = tt_probe(t_start, state.hash);
            assert(t_start == old(tt)@);
            assert(tt_best_move == match e { Some(en) => en.best_move, None => None });
            assert(ordered_with_first(scored_candidates(*state), node_branches(depth as nat), tt_best_move, ordered@));
            assert(state.winner is None && depth as nat != 0);
            assert(!probe_settles(e, depth as nat, alpha_in, beta_in));
            assert(probe_window(e, depth as nat, alpha_in, beta_in).0 == alpha_orig as int);
            assert(probe_window(e, depth as nat, alpha_in, beta_in).1 == b0);
            assert(children_result(*state, depth as nat, ordered@, 0, probe_window(e, depth as nat, alpha_in, beta_in).0, probe_window(e, depth as nat, alpha_in, beta_in).1, is_maximizing, *zobrist, old(tt)@, worst_score(is_maximizing), None, best_val as int, current_best_move, beta as int, tc));
            assert(tt@ == tt_stored(tc, state.hash, (depth as nat) as u32, best_val as int, probe_window(e, depth as nat, alpha_in, beta_in).0, beta as int, current_best_move));
            assert(tt_best_move == probe_move(e));
            lemma_ab_searched(*state, depth as nat, alpha_in, beta_in, is_maximizing, *zobrist, old(tt)@,
                best_val as int, ordered@, current_best_move, beta as int, tc, tt@);
        }
    }
    best_val
}

/// The first `k` candidates by decreasing heuristic value; when the move `first`
/// is among them, it comes first, followed by the `k - 1` best others.
pub open spec fn ordered_with_first(l: Seq<(i32, usize, usize)>, k: int, first: Option<(usize, usize)>, o: Seq<(i32, usize, usize)>) -> bool {
    match first {
        Some(m) => {
            if exists|j: int| 0 <= j < l.len() && #[trigger] l[j].1 == m.0 && l[j].2 == m.1 {
                let j = choose|j: int| 0 <= j < l.len() && #[trigger] l[j].1 == m.0 && l[j].2 == m.1
                    && forall|i: int| 0 <= i < j ==> !(#[trigger] l[i].1 == m.0 && l[i].2 == m.1);
                &&& o.len() >= 1
                &&& o[0] == l[j]
                &&& best_first(l, j, k - 1, o.drop_first())
            } else {
                best_first(l, -1, k, o)
            }
        },
        None => best_first(l, -1, k, o),
    }
}

/// The moves to search, in order (see `ordered_with_first`).
fn order_with_first(l: &Vec<(i32, usize, usize)>, k: usize, first: Option<(usize, usize)>) -> (o: Vec<(i32, usize, usize)>)
    requires 1 <= k,
    ensures
        ordered_with_first(l@, k as int, first, o@),
        o@.len() <= k,
{
    match first {
        Some(m) => {
            match find_move(l, m) {
                Some(pos) => {
                    let rest = best_moves(l, k - 1, Some(pos));
                    let mut o: Vec<(i32, usize, usize)> = Vec::new();
                    o.push(l[pos]);
                    for t in 0..rest.len()
                        invariant
                            o@ == seq![l@[pos as int]] + rest@.take(t as int),
                    {
                        o.push(rest[t]);
                        assert(o@ =~= seq![l@[pos as int]] + rest@.take(t + 1));
                    }
                    assert(o@ =~= seq![l@[pos as int]] + rest@);
                    assert(o@.drop_first() =~= rest@);
                    assert(0 <= pos < l@.len() && l@[pos as int].1 == m.0 && l@[pos as int].2 == m.1);
                    let ghost j = choose|j: int| 0 <= j < l@.len() && #[trigger] l@[j].1 == m.0 && l@[j].2 == m.1
                        && forall|i: int| 0 <= i < j ==> !(#[trigger] l@[i].1 == m.0 && l@[i].2 == m.1);
                    proof {
                        assert(exists|j: int| 0 <= j < l@.len() && #[trigger] l@[j].1 == m.0 && l@[j].2 == m.1
                            && forall|i: int| 0 <= i < j ==> !(#[trigger] l@[i].1 == m.0 && l@[i].2 == m.1));
                        if j < pos {
                            assert(!(l@[j].1 == m.0 && l@[j].2 == m.1));
                        }
                        if pos < j {
                            assert(!(l@[pos as int].1 == m.0 && l@[pos as int].2 == m.1));
                        }
                    }
                    o
                },
                None => best_moves(l, k, None),
            }
        },
        None => best_moves(l, k, None),
    }
}

/// No move is legal.
pub open spec fn no_legal_move(s: GameState) -> bool {
    forall|x: int, y: int| !#[trigger] legal_move(s, x, y)
}

/// The candidate list is empty exactly when no move is legal.
pub proof fn lemma_no_candidates(s: GameState, l: Seq<(usize, usize)>)
    requires candidates_ok(s, l),
    ensures l.len() == 0 <==> no_legal_move(s),
{
    lemma_candidates_legal(s, l);
    if l.len() > 0 {
        assert(legal_move(s, l[0].0 as int, l[0].1 as int));
    } else {
        assert forall|x: int, y: int| !#[trigger] legal_move(s, x, y) by {
            if legal_move(s, x, y) {
                if no_near_candidate(s) {
                    assert(l.contains((x as usize, y as usize)));
                } else {
                    let w = choose|a: int, b: int| near_candidate(s, a, b);
                    assert(l.contains((w.0 as usize, w.1 as usize)));
                }
            }
        }
    }
}

/// Branches searched at the root for a search of depth `depth`.
pub open spec fn root_branches(depth: u32) -> int {
    if 1 <= depth <= 3 { 12 } else if 4 <= depth <= 6 { 8 } else { 5 }
}

/// The move and score chosen after the first `n` root results: starting from
/// the first candidate and the worst score for the player to move, each result
/// that strictly improves the score becomes the choice.
pub open spec fn root_choice(rs: Seq<RootCandidate>, n: int, first: (usize, usize), is_max: bool) -> ((usize, usize), int)
    decreases n,
{
    if n <= 0 {
        (first, if is_max { MIN_SCORE as int } else { MAX_SCORE as int })
    } else {
        let prev = root_choice(rs, n - 1, first, is_max);
        let rc = rs[n - 1];
        if (is_max && rc.score > prev.1) || (!is_max && rc.score < prev.1) {
            ((rc.x, rc.y), rc.score as int)
        } else {
            prev
        }
    }
}

/// The best score of the root choice does not depend on the fallback move.
proof fn lemma_root_choice_score(rs: Seq<RootCandidate>, n: int, f1: (usize, usize), f2: (usize, usize), is_max: bool)
    ensures
        root_choice(rs, n, f1, is_max).1 == root_choice(rs, n, f2, is_max).1,
    decreases n,
{
    if n > 0 {
        lemma_root_choice_score(rs, n - 1, f1, f2, is_max);
    }
}

/// The root choice reads only the coordinates and scores of the results.
proof fn lemma_root_choice_fields(a: Seq<RootCandidate>, b: Seq<RootCandidate>, n: int, first: (usize, usize), is_max: bool)
    requires
        0 <= n <= a.len(),
        n <= b.len(),
        forall|k: int| 0 <= k < n ==> (#[trigger] a[k]).x == b[k].x && a[k].y == b[k].y && a[k].score == b[k].score,
    ensures
        root_choice(a, n, first, is_max) == root_choice(b, n, first, is_max),
    decreases n,
{
    if n > 0 {
        lemma_root_choice_fields(a, b, n - 1, first, is_max);
        assert(a[n - 1].x == b[n - 1].x);
    }
}

/// The root choice is the first candidate or one of the results.
proof fn lemma_root_choice_member(rs: Seq<RootCandidate>, n: int, first: (usize, usize), is_max: bool)
    requires 0 <= n <= rs.len(),
    ensures
        root_choice(rs, n, first, is_max).0 == first || exists|i: int| 0 <= i < n && (#[trigger] rs[i]).x == root_choice(rs, n, first, is_max).0.0 && rs[i].y == root_choice(rs, n, first, is_max).0.1,
    decreases n,
{
    if n > 0 {
        lemma_root_choice_member(rs, n - 1, first, is_max);
    }
}

/// A transposition table of `TT_SIZE` empty slots.
pub open spec fn empty_table() -> Seq<Option<TTEntry>> {
    Seq::new(TT_SIZE as nat, |i: int| None::<TTEntry>)
}

/// The player to move is black, who maximizes.
pub open spec fn maximizes(s: GameState) -> bool {
    s.player() == 1
}

/// Root move `k` scores `rs[k]` with its alpha-beta value one ply shallower for
/// the other side, searched from the window and table `ws[k]`, leaving the
/// table of `ws[k + 1]` and narrowing the window to that of `ws[k + 1]`.
pub open spec fn root_step(
    s: GameState,
    d: nat,
    o: Seq<(i32, usize, usize)>,
    rs: Seq<RootCandidate>,
    m: bool,
    z: Zobrist,
    ws: Seq<(int, int, Seq<Option<TTEntry>>)>,
    cs: Seq<GameState>,
    k: int,
) -> bool {
    let v = rs[k].score as int;
    let (pa, pb, pt) = ws[k];
    &&& child_of(s, cs[k], o[k].1 as int, o[k].2 as int, z)
    &&& ab_result(cs[k], (d - 1) as nat, pa, pb, other_side(m), z, pt, v, ws[k + 1].2)
    &&& ws[k + 1].0 == (if m && v > pa { v } else { pa })
    &&& ws[k + 1].1 == (if !m && v < pb { v } else { pb })
}

/// The first `n` root results `rs` score the moves `o[0..n]` with their
/// alpha-beta value one ply shallower for the other side, the first searched
/// within the window `(a0, b0)` with the table `t0`, each score narrowing the
/// window for the next; `ws` holds the windows and tables, and `cs` the
/// positions after the moves.
pub open spec fn root_scores(
    s: GameState,
    d: nat,
    o: Seq<(i32, usize, usize)>,
    rs: Seq<RootCandidate>,
    n: int,
    a0: int,
    b0: int,
    m: bool,
    z: Zobrist,
    t0: Seq<Option<TTEntry>>,
    ws: Seq<(int, int, Seq<Option<TTEntry>>)>,
    cs: Seq<GameState>,
) -> bool {
    &&& 0 <= n
    &&& ws.len() == n + 1
    &&& cs.len() == n
    &&& ws[0] == (a0, b0, t0)
    &&& forall|k: int| 0 <= k < n ==> #[trigger] root_step(s, d, o, rs, m, z, ws, cs, k)
}

/// The root results added by a search, in order, are the first of the ordered
/// candidates `o`, and the move chosen is the root choice over them.
pub open spec fn root_outcome(
    o: Seq<(i32, usize, usize)>,
    old_rs: Seq<RootCandidate>,
    new_rs: Seq<RootCandidate>,
    r: Option<(usize, usize)>,
    is_max: bool,
) -> bool {
    let t = new_rs.len() - old_rs.len();
    &&& old_rs.len() <= new_rs.len()
    &&& new_rs.take(old_rs.len() as int) == old_rs
    &&& t <= o.len()
    &&& forall|i: int| 0 <= i < t ==> {
        let rc = #[trigger] new_rs[old_rs.len() + i];
        &&& rc.x == o[i].1
        &&& rc.y == o[i].2
        &&& rc.heuristic == o[i].0
        &&& !rc.is_best
        &&& !rc.timed_out
    }
    &&& r == if o.len() == 0 {
        None
    } else {
        Some(root_choice(new_rs.skip(old_rs.len() as int), t, (o[0].1, o[0].2), is_max).0)
    }
}

/// Searches the candidate moves of `state` at the root, in order of decreasing
/// heuristic value, each `depth - 1` plies deeper, stopping when the time is up
/// or the window closes; returns the best move found (the first candidate if none
/// was searched), or none when no move is legal. Each searched move is recorded
/// in the progress.
fn search_at_depth<F: Fn(&SearchProgress)>(
    state: &GameState,
    depth: u32,
    alpha: i32,
    beta: i32,
    zobrist: &Zobrist,
    tt: &mut TranspositionTable,
    start_time: &Instant,
    time_limit_ms: u128,
    stats: &mut SearchStats,
    progress: &mut SearchProgress,
    publish: &F,
) -> (r: Option<(usize, usize)>)
    requires
        old(tt).wf(),
        1 <= depth <= SEARCH_DEPTH,
        search_bounds(*state, depth as int),
        old(stats).tt_hits <= old(stats).nodes,
        old(stats).nodes + 12 * node_budget((depth - 1) as nat) <= u64::MAX,
        forall|p: &SearchProgress| publish.requires((p,)),
    ensures
        final(tt).wf(),
        old(stats).nodes <= final(stats).nodes <= old(stats).nodes + 12 * node_budget((depth - 1) as nat),
        final(stats).tt_hits <= final(stats).nodes,
        r is None <==> no_legal_move(*state),
        r matches Some(m) ==> legal_move(*state, m.0 as int, m.1 as int),
        exists|o: Seq<(i32, usize, usize)>|
            #[trigger] best_first(scored_candidates(*state), -1, root_branches(depth), o) && root_outcome(
                o,
                old(progress).root_results@,
                final(progress).root_results@,
                r,
                state.player() == 1,
            ) && (!final(progress).timed_out ==> exists|ws: Seq<(int, int, Seq<Option<TTEntry>>)>, cs: Seq<GameState>|
                #[trigger] root_scores(
                    *state,
                    depth as nat,
                    o,
                    final(progress).root_results@.skip(old(progress).root_results@.len() as int),
                    final(progress).root_results@.len() - old(progress).root_results@.len(),
                    alpha as int,
                    beta as int,
                    maximizes(*state),
                    *zobrist,
                    old(tt)@,
                    ws,
                    cs,
                )),
        final(progress).total_candidates == scored_candidates(*state).len(),
        final(progress).started == old(progress).started,
        final(progress).depth == old(progress).depth,
        old(progress).timed_out ==> final(progress).timed_out,
        final(progress).root_results@.len() > old(progress).root_results@.len() ==> {
            &&& final(progress).candidates_done == final(progress).root_results@.len() - old(progress).root_results@.len()
            &&& final(progress).best_move_so_far == r
        },
        final(progress).root_results@.len() == old(progress).root_results@.len() ==> {
            &&& final(progress).best_move_so_far is None
            &&& final(progress).candidates_done == old(progress).candidates_done
        },
        final(progress).best_score_so_far == root_choice(
            final(progress).root_results@.skip(old(progress).root_results@.len() as int),
            final(progress).root_results@.len() - old(progress).root_results@.len(),
            (0, 0),
            state.player() == 1,
        ).1,
        forall|k: int|
            old(progress).root_results@.len() <= k < final(progress).root_results@.len() - 1
                ==> !(#[trigger] final(progress).root_results@[k]).cutoff,
        time_limit_ms == 0 ==> {
            &&& final(progress).root_results@ == old(progress).root_results@
            &&& scored_candidates(*state).len() > 0 ==> final(progress).timed_out
        },
{
    let is_maximizing = state.current_player() == 1;
    let scored = score_candidates(state);
    proof {
        lemma_no_candidates(*state, candidate_list(*state));
    }
    progress.total_candidates = scored.len();
    progress.best_move_so_far = None;
    progress.best_score_so_far = if is_maximizing { MIN_SCORE } else { MAX_SCORE };
    publish_progress(publish, progress);

    let max_branches: usize = if 1 <= depth && depth <= 3 {
        12
    } else if 4 <= depth && depth <= 6 {
        8
    } else {
        5
    };
    let ordered = best_moves(&scored, max_branches, None);
    let ghost idx = choose|idx: Seq<int>| #[trigger] crate::ordering::leading(scored@, -1, idx, ordered@);
    assert forall|i: int| 0 <= i < ordered@.len() implies legal_move(*state, #[trigger] ordered@[i].1 as int, ordered@[i].2 as int) by {
        assert(ordered@[i] == scored@[idx[i]]);
    }
    let mut best_move: Option<(usize, usize)> = if ordered.len() > 0 {
        Some((ordered[0].1, ordered[0].2))
    } else {
        None
    };
    let mut best_score: i32 = if is_maximizing { MIN_SCORE } else { MAX_SCORE };
    let ghost alpha_in = alpha as int;
    let ghost beta_in = beta as int;
    let ghost t0 = tt@;
    let ghost mut ws: Seq<(int, int, Seq<Option<TTEntry>>)> = seq![(alpha_in, beta_in, t0)];
    let ghost mut cs: Seq<GameState> = Seq::empty();
    let mut alpha = alpha;
    let mut beta = beta;
    let ghost old_rs = old(progress).root_results@;
    let ghost nodes0 = old(stats).nodes;
    let ghost b = node_budget((depth - 1) as nat);
    let n = ordered.len();
    assert(progress.root_results@.take(old_rs.len() as int) =~= old_rs);
    let mut i: usize = 0;
    while i < n
        invariant_except_break
            nodes0 <= stats.nodes <= nodes0 + i * b,
            forall|k: int| old_rs.len() <= k < progress.root_results@.len() ==> !(#[trigger] progress.root_results@[k]).cutoff,
        invariant
            n == ordered@.len(),
            n <= 12,
            i <= n,
            1 <= depth <= SEARCH_DEPTH,
            b == node_budget((depth - 1) as nat),
            search_bounds(*state, depth as int),
            is_maximizing == (state.player() == 1),
            tt.wf(),
            stats.tt_hits <= stats.nodes,
            nodes0 + 12 * b <= u64::MAX,
            forall|k: int| 0 <= k < n ==> legal_move(*state, #[trigger] ordered@[k].1 as int, ordered@[k].2 as int),
            progress.root_results@.len() == old_rs.len() + i,
            root_outcome(ordered@, old_rs, progress.root_results@, best_move, is_maximizing),
            best_score == root_choice(progress.root_results@.skip(old_rs.len() as int), i as int, (ordered@[0].1, ordered@[0].2), is_maximizing).1 || n == 0,
            progress.best_score_so_far == best_score,
            i == 0 ==> best_score == (if is_maximizing { MIN_SCORE } else { MAX_SCORE }),
            progress.total_candidates == scored@.len(),
            progress.started == old(progress).started,
            progress.depth == old(progress).depth,
            old(progress).timed_out ==> progress.timed_out,
            i > 0 ==> progress.candidates_done == i && progress.best_move_so_far == best_move,
            i == 0 ==> progress.best_move_so_far is None && progress.candidates_done == old(progress).candidates_done,
            time_limit_ms == 0 ==> i == 0,
            forall|p: &SearchProgress| publish.requires((p,)),
            !progress.timed_out ==> root_scores(*state, depth as nat, ordered@, progress.root_results@.skip(old_rs.len() as int), i as int, alpha_in, beta_in, is_maximizing, *zobrist, t0, ws, cs),
            !progress.timed_out ==> ws[i as int] == (alpha as int, beta as int, tt@),
        ensures
            nodes0 <= stats.nodes <= nodes0 + n * b,
            forall|k: int| old_rs.len() <= k < progress.root_results@.len() - 1 ==> !(#[trigger] progress.root_results@[k]).cutoff,
            time_limit_ms == 0 ==> progress.root_results@.len() == old_rs.len() && (n > 0 ==> progress.timed_out),
        decreases n - i,
    {
        if elapsed_ms(start_time) >= time_limit_ms {
            proof {
                assert(i * b <= n * b) by (nonlinear_arith)
                    requires i <= n, b >= 0;
            }
            progress.timed_out = true;
            publish_progress(publish, progress);
            break;
        }
        let (heuristic, x, y) = ordered[i];
        progress.current_candidate = Some((x, y));
        publish_progress(publish, progress);

        let mut next_state = state.clone();
        proof {
            lemma_child_bounds(*state, x as int, y as int, depth as int);
            assert(i * b + b <= 12 * b) by (nonlinear_arith)
                requires i < 12;
        }
        next_state.place_piece(x, y, zobrist);
        assert(child_of(*state, next_state, x as int, y as int, *zobrist));
        let ghost alpha_i = alpha as int;
        let ghost beta_i = beta as int;
        let ghost tt_i = tt@;
        let score = alpha_beta(
            &next_state,
            depth - 1,
            alpha,
            beta,
            !is_maximizing,
            zobrist,
            tt,
            start_time,
            time_limit_ms,
            stats,
            progress,
            publish,
        );
        let timed_out = elapsed_ms(start_time) >= time_limit_ms;
        if timed_out {
            progress.timed_out = true;
            publish_progress(publish, progress);
            proof {
                assert(i * b + b <= n * b) by (nonlinear_arith)
                    requires i < n, b >= 0;
            }
            break;
        }
        let ghost rs0 = progress.root_results@;
        let mut cutoff = false;
        if is_maximizing {
            if score > best_score {
                best_score = score;
                best_move = Some((x, y));
            }
            if score > alpha {
                alpha = score;
            }
        } else {
            if score < best_score {
                best_score = score;
                best_move = Some((x, y));
            }
            if score < beta {
                beta = score;
            }
        }
        if alpha >= beta {
            cutoff = true;
        }
        progress.candidates_done = i + 1;
        progress.current_candidate = None;
        progress.best_move_so_far = best_move;
        progress.best_score_so_far = best_score;
        let rc = RootCandidate { x, y, heuristic, score, is_best: false, timed_out, cutoff };
        progress.root_results.push(rc);
        proof {
            let rs = progress.root_results@;
            assert(rs.take(old_rs.len() as int) =~= old_rs) by {
                assert(rs0.take(old_rs.len() as int) == old_rs);
            }
            assert(rs.skip(old_rs.len() as int).take(i as int) =~= rs0.skip(old_rs.len() as int).take(i as int));
            lemma_root_choice_prefix(rs.skip(old_rs.len() as int), rs0.skip(old_rs.len() as int), i as int, (ordered@[0].1, ordered@[0].2), is_maximizing);
            assert(rs.skip(old_rs.len() as int)[i as int] == rc);
            assert forall|k: int| 0 <= k < i + 1 implies {
                let c = #[trigger] rs[old_rs.len() + k];
                &&& c.x == ordered@[k].1
                &&& c.y == ordered@[k].2
                &&& c.heuristic == ordered@[k].0
                &&& !c.is_best
                &&& !c.timed_out
            } by {
                if k < i {
                    assert(rs[old_rs.len() + k] == rs0[old_rs.len() + k]);
                }
            }
            assert((i + 1) * b == i * b + b) by (nonlinear_arith);
        }
        proof {
            if !progress.timed_out {
                let rs_old = rs0.skip(old_rs.len() as int);
                let rs_new = progress.root_results@.skip(old_rs.len() as int);
                assert(rs_new =~= rs_old.push(rc));
                let ws2 = ws.push((alpha as int, beta as int, tt@));
                let cs2 = cs.push(next_state);
                assert(ws2[i as int] == (alpha_i, beta_i, tt_i));
                assert(root_step(*state, depth as nat, ordered@, rs_new, is_maximizing, *zobrist, ws2, cs2, i as int));
                assert forall|k: int| 0 <= k < i implies #[trigger] root_step(*state, depth as nat, ordered@, rs_new, is_maximizing, *zobrist, ws2, cs2, k) by {
                    assert(root_step(*state, depth as nat, ordered@, rs_old, is_maximizing, *zobrist, ws, cs, k));
                    assert(rs_new[k] == rs_old[k]);
                    assert(ws2[k] == ws[k] && ws2[k + 1] == ws[k + 1] && cs2[k] == cs[k]);
                }
                ws = ws2;
                cs = cs2;
            }
        }
        publish_progress(publish, progress);
        i = i + 1;
        if cutoff {
            proof {
                assert(i * b <= n * b) by (nonlinear_arith)
                    requires i <= n, b >= 0;
            }
            break;
        }
    }
    proof {
        assert(n * b <= 12 * b) by (nonlinear_arith)
            requires n <= 12;
        assert(max_branches == root_branches(depth));
        if n > 0 {
            lemma_root_choice_score(progress.root_results@.skip(old_rs.len() as int), i as int, (ordered@[0].1, ordered@[0].2), (0, 0), is_maximizing);
        }
        if !progress.timed_out {
            assert(root_scores(*state, depth as nat, ordered@, progress.root_results@.skip(old_rs.len() as int),
                progress.root_results@.len() - old_rs.len(), alpha_in, beta_in, maximizes(*state), *zobrist, old(tt)@, ws, cs));
        }
        assert(best_first(scored_candidates(*state), -1, root_branches(depth), ordered@) && root_outcome(
            ordered@,
            old(progress).root_results@,
            progress.root_results@,
            best_move,
            state.player() == 1,
        ));
        if n > 0 {
            let rs = progress.root_results@.skip(old_rs.len() as int);
            lemma_root_choice_member(rs, i as int, (ordered@[0].1, ordered@[0].2), is_maximizing);
            if best_move != Some((ordered@[0].1, ordered@[0].2)) {
                let k = choose|k: int| 0 <= k < i && (#[trigger] rs[k]).x == best_move.unwrap().0 && rs[k].y == best_move.unwrap().1;
                assert(rs[k] == progress.root_results@[old_rs.len() + k]);
                assert(legal_move(*state, ordered@[k].1 as int, ordered@[k].2 as int));
            } else {
                assert(legal_move(*state, ordered@[0].1 as int, ordered@[0].2 as int));
            }
        }
    }
    best_move
}

/// The budget of a full search fits the counters.
proof fn lemma_root_budget()
    ensures 12 * node_budget(9) <= u64::MAX,
{
    assert(node_budget(0) == 1);
    assert(node_budget(1) == 8);
    assert(node_budget(2) == 57);
    assert(node_budget(3) == 400);
    assert(node_budget(4) == 2801);
    assert(node_budget(5) == 19608);
    assert(node_budget(6) == 137257);
    assert(node_budget(7) == 960800);
    assert(node_budget(8) == 6725601);
    assert(node_budget(9) == 47079208);
}

/// No stone is on the board.
pub open spec fn board_empty(s: GameState) -> bool {
    forall|y: int, x: int| 0 <= y < 19 && 0 <= x < 19 ==> #[trigger] at(grid(s.board), y, x) == 0
}

/// Score of the first result marked best, or 0.
pub open spec fn first_best_score(cands: Seq<RootCandidate>, i: int) -> int
    decreases cands.len() - i,
{
    if i < 0 || i >= cands.len() {
        0
    } else if cands[i].is_best {
        cands[i].score as int
    } else {
        first_best_score(cands, i + 1)
    }
}

/// Whether no stone is on the board.
fn is_board_empty(state: &GameState) -> (r: bool)
    ensures r == board_empty(*state),
{
    for i in 0..361usize
        invariant
            forall|y: int, x: int| 0 <= y < 19 && 0 <= x < 19 && y * 19 + x < i ==> #[trigger] at(grid(state.board), y, x) == 0,
    {
        let y = i / 19;
        let x = i % 19;
        if state.board[y][x] != 0 {
            assert(at(grid(state.board), y as int, x as int) != 0);
            return false;
        }
    }
    true
}

/// The first legal move in reading order.
fn first_legal_move(state: &GameState) -> (r: Option<(usize, usize)>)
    ensures
        r matches Some(m) ==> legal_move(*state, m.0 as int, m.1 as int),
        r is None ==> no_legal_move(*state),
{
    for y in 0..19usize
        invariant
            forall|yy: int, xx: int| 0 <= yy < y && 0 <= xx < 19 ==> !#[trigger] legal_move(*state, xx, yy),
    {
        for x in 0..19usize
            invariant
                y < 19,
                forall|yy: int, xx: int| 0 <= yy < y && 0 <= xx < 19 ==> !#[trigger] legal_move(*state, xx, yy),
                forall|xx: int| 0 <= xx < x ==> !#[trigger] legal_move(*state, xx, y as int),
        {
            if state.board[y][x] == 0 && state.can_place_piece(x, y).is_ok() {
                return Some((x, y));
            }
        }
    }
    assert forall|x: int, y: int| !#[trigger] legal_move(*state, x, y) by {
        if legal_move(*state, x, y) {
            assert(0 <= y < 19 && 0 <= x < 19);
        }
    }
    None
}

/// Searches the best move for the player to move, `SEARCH_DEPTH` plies deep,
/// within `TIME_LIMIT_MS`, publishing the progress as it goes. On an empty board
/// the move is the centre; otherwise it is a legal move, none when no move is
/// legal. The report gives the mover, the move, the root results (the best one
/// marked), the score of the move, the counters and whether time ran out.
pub fn search_with_progress<F: Fn(&SearchProgress)>(
    state: &GameState,
    zobrist: &Zobrist,
    progress: &mut SearchProgress,
    publish: &F,
) -> (res: (Option<(usize, usize)>, SearchReport))
    requires
        search_bounds(*state, SEARCH_DEPTH as int),
        forall|p: &SearchProgress| publish.requires((p,)),
    ensures ({
        let (best, report) = res;
        &&& board_empty(*state) ==> best == Some((9usize, 9usize))
        &&& !board_empty(*state) ==> (best is None <==> no_legal_move(*state))
        &&& !board_empty(*state) ==> (best matches Some(m) ==> legal_move(*state, m.0 as int, m.1 as int))
        &&& !board_empty(*state) ==> exists|o: Seq<(i32, usize, usize)>|
            #[trigger] best_first(scored_candidates(*state), -1, root_branches(SEARCH_DEPTH), o)
            && (final(progress).root_results@.len() >= old(progress).root_results@.len())
            && (final(progress).root_results@.len() - old(progress).root_results@.len() <= o.len())
            && forall|i: int| 0 <= i < final(progress).root_results@.len() - old(progress).root_results@.len() ==> {
                let rc = #[trigger] final(progress).root_results@[old(progress).root_results@.len() + i];
                rc.x == o[i].1 && rc.y == o[i].2 && rc.heuristic == o[i].0
            }
            && best == (if o.len() == 0 {
                None
            } else {
                Some(root_choice(
                    final(progress).root_results@.skip(old(progress).root_results@.len() as int),
                    final(progress).root_results@.len() - old(progress).root_results@.len(),
                    (o[0].1, o[0].2),
                    state.player() == 1,
                ).0)
            })
            && (!final(progress).timed_out ==> exists|ws: Seq<(int, int, Seq<Option<TTEntry>>)>, cs: Seq<GameState>|
                #[trigger] root_scores(
                    *state,
                    SEARCH_DEPTH as nat,
                    o,
                    final(progress).root_results@.skip(old(progress).root_results@.len() as int),
                    final(progress).root_results@.len() - old(progress).root_results@.len(),
                    MIN_SCORE as int,
                    MAX_SCORE as int,
                    maximizes(*state),
                    *zobrist,
                    empty_table(),
                    ws,
                    cs,
                ))
        &&& board_empty(*state) ==> final(progress).root_results@ == old(progress).root_results@.map_values(
            |rc: RootCandidate| RootCandidate { is_best: best == Some((rc.x, rc.y)), ..rc })
        &&& forall|i: int| 0 <= i < final(progress).root_results@.len() ==> (#[trigger] final(progress).root_results@[i]).is_best == (best == Some((final(progress).root_results@[i].x, final(progress).root_results@[i].y)))
        &&& !board_empty(*state) ==> final(progress).best_score_so_far == root_choice(
            final(progress).root_results@.skip(old(progress).root_results@.len() as int),
            final(progress).root_results@.len() - old(progress).root_results@.len(),
            (0, 0),
            state.player() == 1,
        ).1
        &&& report.player == state.player()
        &&& report.best_move == best
        &&& report.best_score == first_best_score(report.candidates@, 0)
        &&& report.depth == SEARCH_DEPTH
        &&& report.tt_hits <= report.nodes
        &&& report.timed_out == final(progress).timed_out
        &&& report.candidates@ == final(progress).root_results@
        &&& final(progress).depth == SEARCH_DEPTH
        &&& final(progress).started
        &&& !board_empty(*state) ==> (best matches Some(m) ==> exists|o: Seq<(i32, usize, usize)>|
            #[trigger] best_first(scored_candidates(*state), -1, root_branches(SEARCH_DEPTH), o)
            && exists|i: int| 0 <= i < o.len() && #[trigger] o[i].1 == m.0 && o[i].2 == m.1)
        &&& board_empty(*state) ==> {
            &&& report.nodes == 0
            &&& report.tt_hits == 0
            &&& final(progress).timed_out == old(progress).timed_out
        }
    }),
{
    let start_time = clock_now();
    let time_limit_ms = TIME_LIMIT_MS as u128;
    let player = state.current_player();
    let mut stats = SearchStats::new();
    let mut tt = TranspositionTable::new(TT_SIZE);
    assert(tt@ =~= empty_table());
    progress.depth = SEARCH_DEPTH;
    progress.started = true;
    publish_progress(publish, progress);
    let ghost rs0 = progress.root_results@;

    let ghost mut o_w: Seq<(i32, usize, usize)> = Seq::empty();
    let empty = is_board_empty(state);
    let best = if empty {
        Some((9, 9))
    } else {
        proof {
            lemma_root_budget();
        }
        let found = search_at_depth(
            state,
            SEARCH_DEPTH,
            MIN_SCORE,
            MAX_SCORE,
            zobrist,
            &mut tt,
            &start_time,
            time_limit_ms,
            &mut stats,
            progress,
            publish,
        );
        proof {
            o_w = choose|o: Seq<(i32, usize, usize)>|
                #[trigger] best_first(scored_candidates(*state), -1, root_branches(SEARCH_DEPTH), o)
                && root_outcome(o, rs0, progress.root_results@, found, state.player() == 1)
                && (!progress.timed_out ==> exists|ws: Seq<(int, int, Seq<Option<TTEntry>>)>, cs: Seq<GameState>|
                    #[trigger] root_scores(*state, SEARCH_DEPTH as nat, o, progress.root_results@.skip(rs0.len() as int),
                        progress.root_results@.len() - rs0.len(), MIN_SCORE as int, MAX_SCORE as int, maximizes(*state),
                        *zobrist, empty_table(), ws, cs));
        }
        match found {
            Some(m) => Some(m),
            None => first_legal_move(state),
        }
    };
    let ghost rs1 = progress.root_results@;
    let ghost bss = progress.best_score_so_far;
    assert(progress.started && progress.depth == SEARCH_DEPTH);

    let elapsed = elapsed_ms(&start_time);
    let timed_out = progress.timed_out;
    let n = progress.root_results.len();
    for i in 0..n
        invariant
            n == progress.root_results@.len(),
            n == rs1.len(),
            progress.started,
            progress.depth == SEARCH_DEPTH,
            progress.timed_out == timed_out,
            progress.best_score_so_far == bss,
            forall|k: int| 0 <= k < n ==> (#[trigger] progress.root_results@[k]) == if k < i {
                RootCandidate { is_best: best == Some((rs1[k].x, rs1[k].y)), ..rs1[k] }
            } else {
                rs1[k]
            },
    {
        let mut rc = progress.root_results[i];
        rc.is_best = match best {
            Some(m) => m.0 == rc.x && m.1 == rc.y,
            None => false,
        };
        progress.root_results.set(i, rc);
    }
    let mut candidates: Vec<RootCandidate> = Vec::new();
    for i in 0..n
        invariant
            n == progress.root_results@.len(),
            candidates@ == progress.root_results@.take(i as int),
    {
        candidates.push(progress.root_results[i]);
        assert(candidates@ =~= progress.root_results@.take(i + 1));
    }
    assert(candidates@ =~= progress.root_results@);
    let mut best_score: i32 = 0;
    let mut k: usize = n;
    while k > 0
        invariant
            k <= n,
            n == candidates@.len(),
            best_score == first_best_score(candidates@, k as int),
        decreases k,
    {
        k = k - 1;
        if candidates[k].is_best {
            best_score = candidates[k].score;
        }
    }
    proof {
        if board_empty(*state) {
            assert(progress.root_results@ =~= rs0.map_values(
                |rc: RootCandidate| RootCandidate { is_best: best == Some((rc.x, rc.y)), ..rc }));
        } else {
            let fr = progress.root_results@;
            assert forall|i: int| 0 <= i < fr.len() - rs0.len() implies {
                let rc = #[trigger] fr[rs0.len() + i];
                rc.x == o_w[i].1 && rc.y == o_w[i].2 && rc.heuristic == o_w[i].0
            } by {
                assert(fr[rs0.len() + i].x == rs1[rs0.len() + i].x);
            }
            assert(best_first(scored_candidates(*state), -1, root_branches(SEARCH_DEPTH), o_w));
            let t = fr.len() - rs0.len();
            if o_w.len() > 0 {
                lemma_root_choice_fields(fr.skip(rs0.len() as int), rs1.skip(rs0.len() as int), t, (o_w[0].1, o_w[0].2), state.player() == 1);
            }
            lemma_root_choice_fields(fr.skip(rs0.len() as int), rs1.skip(rs0.len() as int), t, (0, 0), state.player() == 1);
            if !progress.timed_out {
                let (ws, cs) = choose|ws: Seq<(int, int, Seq<Option<TTEntry>>)>, cs: Seq<GameState>|
                    #[trigger] root_scores(*state, SEARCH_DEPTH as nat, o_w, rs1.skip(rs0.len() as int),
                        rs1.len() - rs0.len(), MIN_SCORE as int, MAX_SCORE as int, maximizes(*state),
                        *zobrist, empty_table(), ws, cs);
                let a1 = rs1.skip(rs0.len() as int);
                let a2 = fr.skip(rs0.len() as int);
                assert forall|k: int| 0 <= k < t implies #[trigger] root_step(*state, SEARCH_DEPTH as nat, o_w, a2, maximizes(*state), *zobrist, ws, cs, k) by {
                    assert(root_step(*state, SEARCH_DEPTH as nat, o_w, a1, maximizes(*state), *zobrist, ws, cs, k));
                    assert(a2[k].score == a1[k].score);
                }
                assert(root_scores(*state, SEARCH_DEPTH as nat, o_w, a2, t, MIN_SCORE as int, MAX_SCORE as int,
                    maximizes(*state), *zobrist, empty_table(), ws, cs));
            }
            if best is Some {
                let m = best.unwrap();
                let rs = rs1.skip(rs0.len() as int);
                lemma_root_choice_member(rs, t, (o_w[0].1, o_w[0].2), state.player() == 1);
                if m == (o_w[0].1, o_w[0].2) {
                    assert(o_w[0].1 == m.0 && o_w[0].2 == m.1);
                } else {
                    let k = choose|k: int| 0 <= k < t && (#[trigger] rs[k]).x == m.0 && rs[k].y == m.1;
                    assert(rs[k] == rs1[rs0.len() + k]);
                    assert(o_w[k].1 == m.0 && o_w[k].2 == m.1);
                }
            }
        }
    }
    let report = SearchReport {
        player,
        best_move: best,
        best_score,
        elapsed_ms: elapsed,
        nodes: stats.nodes,
        tt_hits: stats.tt_hits,
        depth: SEARCH_DEPTH,
        timed_out,
        candidates,
    };
    (best, report)
}

/// The best move for the player to move (see `search_with_progress`).
pub fn find_best_move(state: &GameState, zobrist: &Zobrist) -> (r: Option<(usize, usize)>)
    requires
        search_bounds(*state, SEARCH_DEPTH as int),
    ensures
        board_empty(*state) ==> r == Some((9usize, 9usize)),
        !board_empty(*state) ==> (r is None <==> no_legal_move(*state)),
        !board_empty(*state) ==> (r matches Some(m) ==> legal_move(*state, m.0 as int, m.1 as int)),
        !board_empty(*state) ==> (r matches Some(m) ==> exists|o: Seq<(i32, usize, usize)>|
            #[trigger] best_first(scored_candidates(*state), -1, root_branches(SEARCH_DEPTH), o)
            && exists|i: int| 0 <= i < o.len() && #[trigger] o[i].1 == m.0 && o[i].2 == m.1),
{
    let mut progress = SearchProgress::new(SEARCH_DEPTH);
    let publish = |_p: &SearchProgress| {};
    let (best, _report) = search_with_progress(state, zobrist, &mut progress, &publish);
    best
}

/// The root choice depends on the first `n` results only.
proof fn lemma_root_choice_prefix(a: Seq<RootCandidate>, b: Seq<RootCandidate>, n: int, first: (usize, usize), is_max: bool)
    requires
        0 <= n,
        n <= a.len(),
        n <= b.len(),
        a.take(n) == b.take(n),
    ensures
        root_choice(a, n, first, is_max) == root_choice(b, n, first, is_max),
    decreases n,
{
    if n > 0 {
        assert(a.take(n - 1) =~= a.take(n).take(n - 1));
        assert(b.take(n - 1) =~= b.take(n).take(n - 1));
        lemma_root_choice_prefix(a, b, n - 1, first, is_max);
        assert(a[n - 1] == a.take(n)[n - 1]);
        assert(b[n - 1] == b.take(n)[n - 1]);
    }
}

} // verus!

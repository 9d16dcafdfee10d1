//! What the search reports while it runs and when it is done.
use vstd::prelude::*;

verus! {

/// A move considered at the root of the search, and what came of it.
#[derive(Clone, Copy)]
pub struct RootCandidate {
    pub x: usize,
    pub y: usize,
    pub heuristic: i32,
    pub score: i32,
    pub is_best: bool,
    pub timed_out: bool,
    pub cutoff: bool,
}

/// Counters of a search.
pub struct SearchStats {
    pub nodes: u64,
    pub tt_hits: u64,
}

impl SearchStats {
    /// Zeroed counters.
    pub fn new() -> (s: SearchStats)
        ensures s.nodes == 0, s.tt_hits == 0,
    {
        SearchStats { nodes: 0, tt_hits: 0 }
    }
}

/// The state of a running search.
#[derive(Clone)]
pub struct SearchProgress {
    pub started: bool,
    pub current_candidate: Option<(usize, usize)>,
    pub candidates_done: usize,
    pub total_candidates: usize,
    pub nodes: u64,
    pub tt_hits: u64,
    pub depth: u32,
    pub root_results: Vec<RootCandidate>,
    pub best_move_so_far: Option<(usize, usize)>,
    pub best_score_so_far: i32,
    pub timed_out: bool,
}

impl SearchProgress {
    /// A search of the given depth that has not started.
    pub fn new(depth: u32) -> (p: SearchProgress)
        ensures
            !p.started,
            p.current_candidate is None,
            p.candidates_done == 0,
            p.total_candidates == 0,
            p.nodes == 0,
            p.tt_hits == 0,
            p.depth == depth,
            p.root_results@.len() == 0,
            p.best_move_so_far is None,
            p.best_score_so_far == 0,
            !p.timed_out,
    {
        SearchProgress {
            started: false,
            current_candidate: None,
            candidates_done: 0,
            total_candidates: 0,
            nodes: 0,
            tt_hits: 0,
            depth,
            root_results: Vec::new(),
            best_move_so_far: None,
            best_score_so_far: 0,
            timed_out: false,
        }
    }
}

/// The outcome of a search.
#[derive(Clone)]
pub struct SearchReport {
    pub player: u8,
    pub best_move: Option<(usize, usize)>,
    pub best_score: i32,
    pub elapsed_ms: u128,
    pub nodes: u64,
    pub tt_hits: u64,
    pub depth: u32,
    pub timed_out: bool,
    pub candidates: Vec<RootCandidate>,
}

} // verus!

//! Move generation and move ordering for the search.
use vstd::prelude::*;
use crate::board::{Grid, at, grid, in_board, is_in_board, opponent_of};
use crate::hashing::lemma_index;
use crate::game_state::{GameState, grid_after, has_five, legal_move, winner_after};
use crate::evaluation::{
    CAPTURE_THREAT, VULNERABLE_PENALTY, centrality, clamp_i32, clamp_to_i32, edir, edx, edy, line_value,
    lemma_line_value_bound, pattern_value_after_place, placed_line,
};
use crate::zobrist::Zobrist;

verus! {

/// Row offset of the `m`-th cell of the 3x3 block around a cell, in reading order.
pub open spec fn nb_dy(m: int) -> int {
    m / 3 - 1
}

/// Column offset of the `m`-th cell of the 3x3 block around a cell, in reading order.
pub open spec fn nb_dx(m: int) -> int {
    m % 3 - 1
}

/// The cell `(y, x)` is on the board and holds a stone.
pub open spec fn occupied(g: Grid, y: int, x: int) -> bool {
    in_board(y, x) && at(g, y, x) != 0
}

/// The first `m' >= m` such that the `m'`-th cell of the block around `(y, x)`
/// holds a stone; 9 if none does.
pub open spec fn first_stone_from(g: Grid, y: int, x: int, m: int) -> int
    decreases 9 - m,
{
    if m >= 9 {
        9
    } else if occupied(g, y + nb_dy(m), x + nb_dx(m)) {
        m
    } else {
        first_stone_from(g, y, x, m + 1)
    }
}

/// The first stone, in reading order, of the 3x3 block around `(y, x)` (9 if none).
pub open spec fn first_stone(g: Grid, y: int, x: int) -> int {
    first_stone_from(g, y, x, 0)
}

/// A stone stands on or next to `(y, x)`.
pub open spec fn near_stone(g: Grid, y: int, x: int) -> bool {
    first_stone(g, y, x) < 9
}

/// When the scan over stones (in reading order), and around each stone over its
/// neighbours (in reading order), first reaches `(y, x)`.
pub open spec fn discovery_key(g: Grid, y: int, x: int) -> int {
    let m = first_stone(g, y, x);
    ((y + nb_dy(m)) * 19 + (x + nb_dx(m))) * 9 + (8 - m)
}

/// A legal move next to a stone.
pub open spec fn near_candidate(s: GameState, x: int, y: int) -> bool {
    legal_move(s, x, y) && near_stone(grid(s.board), y, x)
}

/// Each listed move is a legal move next to a stone, the list is in discovery
/// order without repetition, and it holds every such move.
pub open spec fn near_list(s: GameState, l: Seq<(usize, usize)>) -> bool {
    let g = grid(s.board);
    &&& forall|i: int| 0 <= i < l.len() ==> near_candidate(s, #[trigger] l[i].0 as int, l[i].1 as int)
    &&& forall|i: int, j: int|
        0 <= i < j < l.len() ==> discovery_key(g, #[trigger] l[i].1 as int, l[i].0 as int)
            < discovery_key(g, #[trigger] l[j].1 as int, l[j].0 as int)
    &&& forall|x: int, y: int| near_candidate(s, x, y) ==> #[trigger] l.contains((x as usize, y as usize))
}

/// Each listed move is legal, the list is in reading order, and it holds every
/// legal move.
pub open spec fn legal_list(s: GameState, l: Seq<(usize, usize)>) -> bool {
    &&& forall|i: int| 0 <= i < l.len() ==> legal_move(s, #[trigger] l[i].0 as int, l[i].1 as int)
    &&& forall|i: int, j: int|
        0 <= i < j < l.len() ==> #[trigger] l[i].1 * 19 + l[i].0 < #[trigger] l[j].1 * 19 + l[j].0
    &&& forall|x: int, y: int| legal_move(s, x, y) ==> #[trigger] l.contains((x as usize, y as usize))
}

/// No legal move is next to a stone.
pub open spec fn no_near_candidate(s: GameState) -> bool {
    forall|x: int, y: int| !#[trigger] near_candidate(s, x, y)
}

/// The candidate moves of a position: the legal moves next to a stone, in the
/// order the scan over the stones finds them; if there is none, every legal move
/// in reading order.
pub open spec fn candidates_ok(s: GameState, l: Seq<(usize, usize)>) -> bool {
    if no_near_candidate(s) { legal_list(s, l) } else { near_list(s, l) }
}

/// The list of candidate moves (which `candidates_ok` determines).
pub open spec fn candidate_list(s: GameState) -> Seq<(usize, usize)> {
    choose|l: Seq<(usize, usize)>| candidates_ok(s, l)
}

/// Two lists in strictly increasing order of the same key, with the same elements,
/// are equal.
pub proof fn lemma_sorted_unique(l1: Seq<(usize, usize)>, l2: Seq<(usize, usize)>, key: spec_fn((usize, usize)) -> int)
    requires
        forall|i: int, j: int| 0 <= i < j < l1.len() ==> key(#[trigger] l1[i]) < key(#[trigger] l1[j]),
        forall|i: int, j: int| 0 <= i < j < l2.len() ==> key(#[trigger] l2[i]) < key(#[trigger] l2[j]),
        forall|e: (usize, usize)| l1.contains(e) <==> l2.contains(e),
    ensures l1 == l2,
    decreases l1.len(),
{
    if l1.len() == 0 {
        if l2.len() > 0 {
            assert(l2.contains(l2[0]));
        }
        assert(l1 =~= l2);
    } else {
        assert(l1.contains(l1[0]));
        let j = choose|j: int| 0 <= j < l2.len() && l2[j] == l1[0];
        assert(l2.contains(l2[0]));
        let i = choose|i: int| 0 <= i < l1.len() && l1[i] == l2[0];
        if j > 0 {
            if i > 0 {
                assert(key(l1[0]) < key(l1[i]));
                assert(key(l2[0]) < key(l2[j]));
            }
            assert(false);
        }
        let t1 = l1.drop_first();
        let t2 = l2.drop_first();
        assert forall|e: (usize, usize)| t1.contains(e) <==> t2.contains(e) by {
            if t1.contains(e) {
                let a = choose|a: int| 0 <= a < t1.len() && t1[a] == e;
                assert(l1[a + 1] == e);
                assert(key(l1[0]) < key(l1[a + 1]));
                assert(l2.contains(e));
                let b = choose|b: int| 0 <= b < l2.len() && l2[b] == e;
                assert(b != 0);
                assert(t2[b - 1] == e);
            }
            if t2.contains(e) {
                let a = choose|a: int| 0 <= a < t2.len() && t2[a] == e;
                assert(l2[a + 1] == e);
                assert(key(l2[0]) < key(l2[a + 1]));
                assert(l1.contains(e));
                let b = choose|b: int| 0 <= b < l1.len() && l1[b] == e;
                assert(b != 0);
                assert(t1[b - 1] == e);
            }
        }
        lemma_sorted_unique(t1, t2, key);
        assert(l1 =~= t1.insert(0, l1[0]));
        assert(l2 =~= t2.insert(0, l2[0]));
    }
}

/// `candidates_ok` holds of one list at most.
pub proof fn lemma_candidates_unique(s: GameState, l: Seq<(usize, usize)>)
    requires candidates_ok(s, l),
    ensures candidate_list(s) == l,
{
    let c = candidate_list(s);
    assert(candidates_ok(s, c));
    let g = grid(s.board);
    if no_near_candidate(s) {
        let key = |e: (usize, usize)| e.1 * 19 + e.0;
        assert forall|e: (usize, usize)| l.contains(e) <==> c.contains(e) by {
            if l.contains(e) {
                let i = choose|i: int| 0 <= i < l.len() && l[i] == e;
                assert(legal_move(s, l[i].0 as int, l[i].1 as int));
                assert(c.contains((e.0 as int as usize, e.1 as int as usize)));
            }
            if c.contains(e) {
                let i = choose|i: int| 0 <= i < c.len() && c[i] == e;
                assert(legal_move(s, c[i].0 as int, c[i].1 as int));
                assert(l.contains((e.0 as int as usize, e.1 as int as usize)));
            }
        }
        lemma_sorted_unique(l, c, key);
    } else {
        let key = |e: (usize, usize)| discovery_key(g, e.1 as int, e.0 as int);
        assert forall|e: (usize, usize)| l.contains(e) <==> c.contains(e) by {
            if l.contains(e) {
                let i = choose|i: int| 0 <= i < l.len() && l[i] == e;
                assert(near_candidate(s, l[i].0 as int, l[i].1 as int));
                assert(c.contains((e.0 as int as usize, e.1 as int as usize)));
            }
            if c.contains(e) {
                let i = choose|i: int| 0 <= i < c.len() && c[i] == e;
                assert(near_candidate(s, c[i].0 as int, c[i].1 as int));
                assert(l.contains((e.0 as int as usize, e.1 as int as usize)));
            }
        }
        lemma_sorted_unique(l, c, key);
    }
}

/// The cells of the block around a cell come in reading order.
pub proof fn lemma_block_order(y: int, x: int, m1: int, m2: int)
    requires 0 <= m1 < m2 < 9,
    ensures
        (y + nb_dy(m1)) * 19 + (x + nb_dx(m1)) < (y + nb_dy(m2)) * 19 + (x + nb_dx(m2)),
{
}

/// The neighbour `8 - j` of a cell sits at offset `j` backwards.
pub proof fn lemma_offsets(j: int)
    requires 0 <= j < 9,
    ensures -nb_dy(8 - j) == j / 3 - 1, -nb_dx(8 - j) == j % 3 - 1,
{
    assert(j == 0 || j == 1 || j == 2 || j == 3 || j == 4 || j == 5 || j == 6 || j == 7 || j == 8);
}

/// The scan from neighbour `m` stops at the first occupied neighbour, or at 9.
pub proof fn lemma_first_stone_from(g: Grid, y: int, x: int, m: int)
    requires 0 <= m <= 9,
    ensures
        m <= first_stone_from(g, y, x, m) <= 9,
        first_stone_from(g, y, x, m) < 9 ==> occupied(g, y + nb_dy(first_stone_from(g, y, x, m)), x + nb_dx(first_stone_from(g, y, x, m))),
        forall|k: int| m <= k < first_stone_from(g, y, x, m) ==> !occupied(g, y + nb_dy(k), x + nb_dx(k)),
    decreases 9 - m,
{
    if m < 9 {
        lemma_first_stone_from(g, y, x, m + 1);
    }
}

/// A cell next to a stone is discovered at a key below `361 * 9`.
pub proof fn lemma_key_range(g: Grid, y: int, x: int)
    requires near_stone(g, y, x),
    ensures 0 <= discovery_key(g, y, x) < 361 * 9,
{
    lemma_first_stone_from(g, y, x, 0);
}

/// At step `(i, j)` of the scan (stone cell `i`, neighbour offset `j`), the cell
/// looked at is the only one that can be discovered at key `9 i + j`, and, if the
/// step looks at a stone's on-board neighbour, its key is at most `9 i + j`.
pub proof fn lemma_scan_step(g: Grid, i: int, j: int)
    requires 0 <= i < 361, 0 <= j < 9,
    ensures ({
        let oy = i / 19;
        let ox = i % 19;
        let cy = oy + j / 3 - 1;
        let cx = ox + j % 3 - 1;
        &&& forall|x: int, y: int|
            near_stone(g, y, x) && #[trigger] discovery_key(g, y, x) == 9 * i + j ==> occupied(g, oy, ox) && x == cx && y == cy
        &&& occupied(g, oy, ox) && in_board(cy, cx) ==> near_stone(g, cy, cx) && discovery_key(g, cy, cx) <= 9 * i + j
    }),
{
    let oy = i / 19;
    let ox = i % 19;
    let cy = oy + j / 3 - 1;
    let cx = ox + j % 3 - 1;
    lemma_offsets(j);
    lemma_index(oy, ox);
    assert forall|x: int, y: int|
        near_stone(g, y, x) && #[trigger] discovery_key(g, y, x) == 9 * i + j implies occupied(g, oy, ox) && x == cx && y == cy by {
        lemma_first_stone_from(g, y, x, 0);
        let m = first_stone(g, y, x);
        let ry = y + nb_dy(m);
        let rx = x + nb_dx(m);
        lemma_index(ry, rx);
        assert(ry * 19 + rx == i && 8 - m == j);
    }
    if occupied(g, oy, ox) && in_board(cy, cx) {
        assert(cy + nb_dy(8 - j) == oy && cx + nb_dx(8 - j) == ox);
        lemma_first_stone_from(g, cy, cx, 0);
        let m = first_stone(g, cy, cx);
        assert(m <= 8 - j);
        if m < 8 - j {
            lemma_block_order(cy, cx, m, 8 - j);
        }
    }
}

/// What holds of the near-candidate list after the scan reaches key `pos`.
pub open spec fn scan_inv(s: GameState, l: Seq<(usize, usize)>, visited: [[bool; 19]; 19], pos: int) -> bool {
    let g = grid(s.board);
    &&& forall|k: int| 0 <= k < l.len() ==> near_candidate(s, #[trigger] l[k].0 as int, l[k].1 as int)
        && discovery_key(g, l[k].1 as int, l[k].0 as int) < pos
        && l[k].0 < 19 && l[k].1 < 19
    &&& forall|a: int, b: int|
        0 <= a < b < l.len() ==> discovery_key(g, #[trigger] l[a].1 as int, l[a].0 as int)
            < discovery_key(g, #[trigger] l[b].1 as int, l[b].0 as int)
    &&& forall|x: int, y: int| near_candidate(s, x, y) && discovery_key(g, y, x) < pos ==> #[trigger] l.contains((x as usize, y as usize))
    &&& forall|y: int, x: int| 0 <= y < 19 && 0 <= x < 19 ==> (#[trigger] visited[y][x] <==> l.contains((x as usize, y as usize)))
}

/// No candidate is discovered at key `pos`: the invariant carries over.
pub proof fn lemma_scan_skip(s: GameState, l: Seq<(usize, usize)>, visited: [[bool; 19]; 19], pos: int)
    requires
        scan_inv(s, l, visited, pos),
        forall|x: int, y: int| near_candidate(s, x, y) ==> #[trigger] discovery_key(grid(s.board), y, x) != pos,
    ensures scan_inv(s, l, visited, pos + 1),
{
    let g = grid(s.board);
    assert forall|x: int, y: int| near_candidate(s, x, y) && discovery_key(g, y, x) < pos + 1
        implies #[trigger] l.contains((x as usize, y as usize)) by {
        assert(discovery_key(g, y, x) != pos);
    }
}

/// The candidate `(uy, ux)` is discovered at key `pos`: pushing it and marking it
/// visited keeps the invariant.
pub proof fn lemma_scan_push(
    s: GameState,
    l: Seq<(usize, usize)>,
    visited: [[bool; 19]; 19],
    visited2: [[bool; 19]; 19],
    pos: int,
    ux: usize,
    uy: usize,
)
    requires
        scan_inv(s, l, visited, pos),
        ux < 19, uy < 19,
        near_candidate(s, ux as int, uy as int),
        discovery_key(grid(s.board), uy as int, ux as int) == pos,
        forall|x: int, y: int| near_candidate(s, x, y) && #[trigger] discovery_key(grid(s.board), y, x) == pos
            ==> x == ux && y == uy,
        forall|y: int, x: int| 0 <= y < 19 && 0 <= x < 19 ==> #[trigger] visited2[y][x] == (if y == uy && x == ux {
            true
        } else {
            visited[y][x]
        }),
    ensures scan_inv(s, l.push((ux, uy)), visited2, pos + 1),
{
    let g = grid(s.board);
    let l2 = l.push((ux, uy));
    assert(!l.contains((ux, uy))) by {
        if l.contains((ux, uy)) {
            let k = choose|k: int| 0 <= k < l.len() && l[k] == (ux, uy);
            assert(near_candidate(s, l[k].0 as int, l[k].1 as int));
        }
    }
    assert forall|k: int| 0 <= k < l2.len() implies near_candidate(s, #[trigger] l2[k].0 as int, l2[k].1 as int)
        && discovery_key(g, l2[k].1 as int, l2[k].0 as int) < pos + 1
        && l2[k].0 < 19 && l2[k].1 < 19 by {
        if k < l.len() {
            assert(l2[k] == l[k]);
        }
    }
    assert forall|a: int, b: int| 0 <= a < b < l2.len() implies discovery_key(g, #[trigger] l2[a].1 as int, l2[a].0 as int)
        < discovery_key(g, #[trigger] l2[b].1 as int, l2[b].0 as int) by {
        assert(l2[a] == l[a]);
        assert(near_candidate(s, l[a].0 as int, l[a].1 as int));
        if b < l.len() {
            assert(l2[b] == l[b]);
        }
    }
    assert forall|x: int, y: int| near_candidate(s, x, y) && discovery_key(g, y, x) < pos + 1
        implies #[trigger] l2.contains((x as usize, y as usize)) by {
        if discovery_key(g, y, x) < pos {
            assert(l.contains((x as usize, y as usize)));
            let k = choose|k: int| 0 <= k < l.len() && l[k] == (x as usize, y as usize);
            assert(l2[k] == (x as usize, y as usize));
        } else {
            assert(l2[l.len() as int] == (ux, uy));
        }
    }
    assert forall|y: int, x: int| 0 <= y < 19 && 0 <= x < 19
        implies (#[trigger] visited2[y][x] <==> l2.contains((x as usize, y as usize))) by {
        if l2.contains((x as usize, y as usize)) {
            let k = choose|k: int| 0 <= k < l2.len() && l2[k] == (x as usize, y as usize);
            if k < l.len() {
                assert(l[k] == (x as usize, y as usize));
                assert(l.contains((x as usize, y as usize)));
            }
        }
        if l.contains((x as usize, y as usize)) {
            let k = choose|k: int| 0 <= k < l.len() && l[k] == (x as usize, y as usize);
            assert(l2[k] == (x as usize, y as usize));
        }
        if y == uy && x == ux {
            assert(l2[l.len() as int] == (ux, uy));
        }
    }
}

/// One step of the scan: neighbour `j` of stone cell `i`.
fn scan_step(
    state: &GameState,
    candidates: &mut Vec<(usize, usize)>,
    visited: &mut [[bool; 19]; 19],
    i: usize,
    j: usize,
)
    requires
        i < 361, j < 9,
        scan_inv(*state, old(candidates)@, *old(visited), 9 * i + j),
    ensures
        scan_inv(*state, final(candidates)@, *final(visited), 9 * i + j + 1),
{
    let ghost g = grid(state.board);
    proof {
        lemma_scan_step(g, i as int, j as int);
    }
    let oy = i / 19;
    let ox = i % 19;
    if state.board[oy][ox] != 0 {
        let cy = oy as i32 + (j / 3) as i32 - 1;
        let cx = ox as i32 + (j % 3) as i32 - 1;
        if is_in_board(cy, cx) {
            let uy = cy as usize;
            let ux = cx as usize;
            if state.board[uy][ux] == 0 && !visited[uy][ux] {
                if state.can_place_piece(ux, uy).is_ok() {
                    let ghost v0 = *visited;
                    let ghost l0 = candidates@;
                    assert(near_candidate(*state, ux as int, uy as int));
                    assert(discovery_key(g, uy as int, ux as int) == 9 * i + j) by {
                        if discovery_key(g, uy as int, ux as int) < 9 * i + j {
                            assert(l0.contains((ux, uy)));
                        }
                    }
                    visited[uy][ux] = true;
                    candidates.push((ux, uy));
                    proof {
                        lemma_scan_push(*state, l0, v0, *visited, 9 * i + j, ux, uy);
                    }
                    return;
                }
            }
            assert forall|x: int, y: int| near_candidate(*state, x, y) implies #[trigger] discovery_key(g, y, x) != 9 * i + j by {
                if discovery_key(g, y, x) == 9 * i + j {
                    assert(x == ux && y == uy);
                    if visited[uy as int][ux as int] {
                        assert(candidates@.contains((ux, uy)));
                        let k = choose|k: int| 0 <= k < candidates@.len() && candidates@[k] == (ux, uy);
                        assert(discovery_key(g, candidates@[k].1 as int, candidates@[k].0 as int) < 9 * i + j);
                    }
                }
            }
        }
    }
    proof {
        lemma_scan_skip(*state, candidates@, *visited, 9 * i + j);
    }
}

/// The candidate moves: the legal moves next to a stone, in the order a scan over
/// the stones in reading order, and over each stone's neighbours in reading
/// order, finds them; if there is none, every legal move in reading order.
pub fn get_candidates(state: &GameState) -> (r: Vec<(usize, usize)>)
    ensures
        candidates_ok(*state, r@),
        r@ == candidate_list(*state),
{
    let ghost g = grid(state.board);
    let mut candidates: Vec<(usize, usize)> = Vec::new();
    let mut visited = [[false; 19]; 19];
    assert forall|y: int, x: int| 0 <= y < 19 && 0 <= x < 19 implies !#[trigger] visited[y][x] by {
        assert(visited[y]@ == Seq::new(19, |k: int| false));
    }
    assert forall|x: int, y: int| near_candidate(*state, x, y) && discovery_key(g, y, x) < 0
        implies #[trigger] candidates@.contains((x as usize, y as usize)) by {
        lemma_key_range(g, y, x);
    }
    assert forall|y: int, x: int| 0 <= y < 19 && 0 <= x < 19
        implies (#[trigger] visited[y][x] <==> candidates@.contains((x as usize, y as usize))) by {
        assert(!candidates@.contains((x as usize, y as usize)));
    }
    for i in 0..361usize
        invariant
            g == grid(state.board),
            scan_inv(*state, candidates@, visited, 9 * i),
    {
        for j in 0..9usize
            invariant
                g == grid(state.board),
                i < 361,
                scan_inv(*state, candidates@, visited, 9 * i + j),
        {
            scan_step(state, &mut candidates, &mut visited, i, j);
        }
    }
    if candidates.len() == 0 {
        assert(no_near_candidate(*state)) by {
            assert forall|x: int, y: int| !#[trigger] near_candidate(*state, x, y) by {
                if near_candidate(*state, x, y) {
                    lemma_key_range(g, y, x);
                    assert(candidates@.contains((x as usize, y as usize)));
                }
            }
        }
        for i in 0..361usize
            invariant
                g == grid(state.board),
                no_near_candidate(*state),
                forall|k: int| 0 <= k < candidates@.len() ==> legal_move(*state, #[trigger] candidates@[k].0 as int, candidates@[k].1 as int)
                    && candidates@[k].1 * 19 + candidates@[k].0 < i,
                forall|a: int, b: int|
                    0 <= a < b < candidates@.len() ==> #[trigger] candidates@[a].1 * 19 + candidates@[a].0
                        < #[trigger] candidates@[b].1 * 19 + candidates@[b].0,
                forall|x: int, y: int| legal_move(*state, x, y) && y * 19 + x < i ==> #[trigger] candidates@.contains((x as usize, y as usize)),
        {
            let y = i / 19;
            let x = i % 19;
            let ghost before = candidates@;
            proof {
                lemma_index(y as int, x as int);
            }
            if state.board[y][x] == 0 && state.can_place_piece(x, y).is_ok() {
                candidates.push((x, y));
            }
            assert forall|xx: int, yy: int| legal_move(*state, xx, yy) && yy * 19 + xx < i + 1
                implies #[trigger] candidates@.contains((xx as usize, yy as usize)) by {
                if yy * 19 + xx < i {
                    assert(before.contains((xx as usize, yy as usize)));
                    let k = choose|k: int| 0 <= k < before.len() && before[k] == (xx as usize, yy as usize);
                    assert(candidates@[k] == (xx as usize, yy as usize));
                } else {
                    lemma_index(yy, xx);
                    assert(candidates@[candidates@.len() - 1] == (x, y));
                }
            }
        }
        assert(legal_list(*state, candidates@)) by {
            assert forall|xx: int, yy: int| legal_move(*state, xx, yy) implies #[trigger] candidates@.contains((xx as usize, yy as usize)) by {
                lemma_index(yy, xx);
            }
        }
    } else {
        assert(near_candidate(*state, candidates@[0].0 as int, candidates@[0].1 as int));
        assert(near_list(*state, candidates@)) by {
            assert forall|x: int, y: int| near_candidate(*state, x, y) implies #[trigger] candidates@.contains((x as usize, y as usize)) by {
                lemma_key_range(g, y, x);
            }
        }
    }
    proof {
        lemma_candidates_unique(*state, candidates@);
    }
    candidates
}

/// Every candidate move is legal.
pub proof fn lemma_candidates_legal(s: GameState, l: Seq<(usize, usize)>)
    requires candidates_ok(s, l),
    ensures forall|i: int| 0 <= i < l.len() ==> legal_move(s, #[trigger] l[i].0 as int, l[i].1 as int),
{
    assert forall|i: int| 0 <= i < l.len() implies legal_move(s, #[trigger] l[i].0 as int, l[i].1 as int) by {
        if !no_near_candidate(s) {
            assert(near_candidate(s, l[i].0 as int, l[i].1 as int));
        }
    }
}

/// Playing `(y, x)` makes the player to move win, or gives it a pending five.
pub open spec fn wins_with(s: GameState, x: int, y: int) -> bool {
    winner_after(s, x, y) == Some(s.player()) || has_five(grid_after(s, x, y), s.player())
}

/// The first move of `l` from index `i` on that `wins_with`.
pub open spec fn first_winning(s: GameState, l: Seq<(usize, usize)>, i: int) -> Option<(usize, usize)>
    decreases l.len() - i,
{
    if i < 0 || i >= l.len() {
        None
    } else if wins_with(s, l[i].0 as int, l[i].1 as int) {
        Some(l[i])
    } else {
        first_winning(s, l, i + 1)
    }
}

/// The first candidate move that wins for the player to move, or makes five.
pub fn winning_move(state: &GameState, zobrist: &Zobrist) -> (r: Option<(usize, usize)>)
    requires
        state.winner is None ==> state.captures[state.player() - 1] <= u32::MAX - 16,
        state.winner is None ==> state.turn_count < u32::MAX,
    ensures
        r == first_winning(*state, candidate_list(*state), 0),
        candidates_ok(*state, candidate_list(*state)),
{
    let p = state.current_player();
    let candidates = get_candidates(state);
    proof {
        lemma_candidates_legal(*state, candidates@);
    }
    let n = candidates.len();
    for i in 0..n
        invariant
            n == candidates@.len(),
            candidates@ == candidate_list(*state),
            p == state.player(),
            state.winner is None ==> state.captures[state.player() - 1] <= u32::MAX - 16,
            state.winner is None ==> state.turn_count < u32::MAX,
            forall|k: int| 0 <= k < n ==> legal_move(*state, #[trigger] candidates@[k].0 as int, candidates@[k].1 as int),
            candidates_ok(*state, candidates@),
            first_winning(*state, candidates@, 0) == first_winning(*state, candidates@, i as int),
    {
        let (x, y) = candidates[i];
        assert(legal_move(*state, candidates@[i as int].0 as int, candidates@[i as int].1 as int));
        let mut s = state.clone();
        proof {
            crate::capture::lemma_capture_list_len(crate::game_state::stone_grid(*state, x as int, y as int), y as int, x as int, 8);
        }
        s.place_piece(x, y, zobrist);
        let won = match s.winner {
            Some(w) => w == p,
            None => false,
        };
        if won || s.has_five_aligned(p) {
            return Some((x, y));
        }
    }
    None
}

/// The position with turn count `t`: the same stones, another player to move.
pub open spec fn with_turn(s: GameState, t: u32) -> GameState {
    GameState { turn_count: t, ..s }
}

/// The first candidate move with which the opponent of the player to move would
/// win, or make five, if it were its turn.
pub fn opponent_winning_move(state: &GameState, zobrist: &Zobrist) -> (r: Option<(usize, usize)>)
    requires
        state.winner is None ==> state.captures[opponent_of(state.player()) - 1] <= u32::MAX - 16,
    ensures ({
        let v = with_turn(*state, if opponent_of(state.player()) == 1 { 0 } else { 1 });
        r == first_winning(v, candidate_list(v), 0)
    }),
{
    let opp = if state.current_player() == 1 { 2 } else { 1 };
    let mut view = state.clone();
    view.turn_count = if opp == 1 { 0 } else { 1 };
    let ghost v = with_turn(*state, if opp == 1 { 0 } else { 1 });
    let r = winning_move(&view, zobrist);
    proof {
        lemma_same_position(view, v);
    }
    r
}

/// Two states with the same position have the same candidates and winning moves.
pub proof fn lemma_same_position(a: GameState, b: GameState)
    requires
        a.board == b.board,
        a.captures == b.captures,
        a.turn_count == b.turn_count,
        a.winner == b.winner,
        a.five_aligned_winner == b.five_aligned_winner,
        candidates_ok(a, candidate_list(a)),
    ensures
        candidate_list(a) == candidate_list(b),
        forall|l: Seq<(usize, usize)>, i: int| first_winning(a, l, i) == #[trigger] first_winning(b, l, i),
{
    let la = candidate_list(a);
    let g = grid(a.board);
    assert forall|x: int, y: int| #[trigger] legal_move(a, x, y) == legal_move(b, x, y) by {}
    assert forall|x: int, y: int| #[trigger] near_candidate(a, x, y) == near_candidate(b, x, y) by {}
    if no_near_candidate(a) {
        assert forall|x: int, y: int| !#[trigger] near_candidate(b, x, y) by {
            assert(!near_candidate(a, x, y));
        }
        assert forall|i: int| 0 <= i < la.len() implies legal_move(b, #[trigger] la[i].0 as int, la[i].1 as int) by {
            assert(legal_move(a, la[i].0 as int, la[i].1 as int));
        }
        assert forall|x: int, y: int| legal_move(b, x, y) implies #[trigger] la.contains((x as usize, y as usize)) by {
            assert(legal_move(a, x, y));
        }
        assert(legal_list(b, la));
    } else {
        let w = choose|x: int, y: int| near_candidate(a, x, y);
        assert(near_candidate(b, w.0, w.1));
        assert(!no_near_candidate(b));
        assert forall|i: int| 0 <= i < la.len() implies near_candidate(b, #[trigger] la[i].0 as int, la[i].1 as int) by {
            assert(near_candidate(a, la[i].0 as int, la[i].1 as int));
        }
        assert forall|x: int, y: int| near_candidate(b, x, y) implies #[trigger] la.contains((x as usize, y as usize)) by {
            assert(near_candidate(a, x, y));
        }
        assert(near_list(b, la));
    }
    assert(candidates_ok(b, la));
    lemma_candidates_unique(b, candidate_list(a));
    assert forall|l: Seq<(usize, usize)>, i: int| first_winning(a, l, i) == #[trigger] first_winning(b, l, i) by {
        lemma_first_winning_same(a, b, l, i);
    }
}

/// The first winning move depends only on the position, not on the history or the mode.
proof fn lemma_first_winning_same(a: GameState, b: GameState, l: Seq<(usize, usize)>, i: int)
    requires
        a.board == b.board,
        a.captures == b.captures,
        a.turn_count == b.turn_count,
        a.winner == b.winner,
        a.five_aligned_winner == b.five_aligned_winner,
    ensures first_winning(a, l, i) == first_winning(b, l, i),
    decreases l.len() - i,
{
    if 0 <= i < l.len() {
        lemma_first_winning_same(a, b, l, i + 1);
    }
}

/// Side `sgn` (1 or -1) of evaluation direction `k`: column step.
pub open spec fn sdx(k: int, sgn: int) -> int {
    if sgn == 1 { edx(k) } else { -edx(k) }
}

/// Side `sgn` (1 or -1) of evaluation direction `k`: row step.
pub open spec fn sdy(k: int, sgn: int) -> int {
    if sgn == 1 { edy(k) } else { -edy(k) }
}

/// Stones that `p` would capture at `(y, x)` along side `sgn` of direction `k`:
/// two enemy stones, then one of `p`.
pub open spec fn capture_gain_at(g: Grid, p: u8, y: int, x: int, k: int, sgn: int) -> int {
    let o = opponent_of(p);
    let dx = sdx(k, sgn);
    let dy = sdy(k, sgn);
    if in_board(y + 3 * dy, x + 3 * dx) && at(g, y + dy, x + dx) == o && at(g, y + 2 * dy, x + 2
        * dx) == o && at(g, y + 3 * dy, x + 3 * dx) == p {
        2
    } else {
        0
    }
}

/// Stones that `p` would capture at `(y, x)` along the first `n` directions.
pub open spec fn capture_gain(g: Grid, p: u8, y: int, x: int, n: int) -> int
    decreases n,
{
    if n <= 0 {
        0
    } else {
        capture_gain(g, p, y, x, n - 1) + capture_gain_at(g, p, y, x, n - 1, 1) + capture_gain_at(
            g,
            p,
            y,
            x,
            n - 1,
            -1,
        )
    }
}

/// A stone of `p` at `(y, x)` would join the neighbour on side `sgn` of direction
/// `k` into a pair with an enemy stone at one end and an empty cell at the other.
pub open spec fn vulnerable_at(g: Grid, p: u8, y: int, x: int, k: int, sgn: int) -> bool {
    let o = opponent_of(p);
    let dx = sdx(k, sgn);
    let dy = sdy(k, sgn);
    let ny = y + dy;
    let nx = x + dx;
    let by = y - dy;
    let bx = x - dx;
    let ay = ny + dy;
    let ax = nx + dx;
    let b_opp = in_board(by, bx) && at(g, by, bx) == o;
    let b_empty = in_board(by, bx) && at(g, by, bx) == 0;
    let a_opp = in_board(ay, ax) && at(g, ay, ax) == o;
    let a_empty = in_board(ay, ax) && at(g, ay, ax) == 0;
    in_board(ny, nx) && at(g, ny, nx) == p && ((b_opp && a_empty) || (b_empty && a_opp))
}

/// Number of pairs a stone of `p` at `(y, x)` would leave open to capture.
pub open spec fn vulnerable_count(g: Grid, p: u8, y: int, x: int, n: int) -> int
    decreases n,
{
    if n <= 0 {
        0
    } else {
        vulnerable_count(g, p, y, x, n - 1) + (if vulnerable_at(g, p, y, x, n - 1, 1) { 1int } else { 0 })
            + (if vulnerable_at(g, p, y, x, n - 1, -1) { 1int } else { 0 })
    }
}

/// Line values through `(y, x)` along the first `n` directions, once `p`, and once
/// `o`, is placed there.
pub open spec fn lines_after(g: Grid, p: u8, o: u8, y: int, x: int, n: int) -> int
    decreases n,
{
    if n <= 0 {
        0
    } else {
        lines_after(g, p, o, y, x, n - 1) + line_value(placed_line(g, x, y, edx(n - 1), edy(n - 1), p))
            + line_value(placed_line(g, x, y, edx(n - 1), edy(n - 1), o))
    }
}

/// The heuristic value of playing `(y, x)` for the player to move: captures
/// (ten captures in reach win), the lines the stone makes or blocks, pairs it
/// leaves open, and closeness to the centre.
pub open spec fn heuristic_value(s: GameState, x: int, y: int) -> int {
    let g = grid(s.board);
    let p = s.player();
    let o = opponent_of(p);
    let gain = capture_gain(g, p, y, x, 4);
    let capture_part = if gain > 0 {
        (if (s.captures[p - 1] as i32) + gain >= 10 { 90_000_000int } else { 0 }) + gain * (CAPTURE_THREAT / 2)
    } else {
        0
    };
    clamp_i32(capture_part + lines_after(g, p, o, y, x, 4) - VULNERABLE_PENALTY * vulnerable_count(g, p, y, x, 4)
        + centrality(x, y) * 100)
}

/// At most two stones per side and direction.
pub proof fn lemma_capture_gain_bound(g: Grid, p: u8, y: int, x: int, n: int)
    requires 0 <= n,
    ensures 0 <= capture_gain(g, p, y, x, n) <= 4 * n,
    decreases n,
{
    if n > 0 {
        lemma_capture_gain_bound(g, p, y, x, n - 1);
    }
}

/// Whether `p` would capture at `(y, x)` along side `sgn` of direction `(dx, dy)`.
fn captures_from(board: &[[u8; 19]; 19], p: u8, o: u8, x: i32, y: i32, dx: i32, dy: i32) -> (r: bool)
    requires heuristic_fits(x as int), heuristic_fits(y as int), -1 <= dx <= 1, -1 <= dy <= 1, line_reads_ok(x as int, y as int, dx as int, dy as int),
    ensures
        r == (in_board(y + 3 * dy, x + 3 * dx) && at(grid(*board), y + dy, x + dx) == o && at(
            grid(*board),
            y + 2 * dy,
            x + 2 * dx,
        ) == o && at(grid(*board), y + 3 * dy, x + 3 * dx) == p),
{
    let nx = x + dx;
    let ny = y + dy;
    let fx = x + 2 * dx;
    let fy = y + 2 * dy;
    let ax = x + 3 * dx;
    let ay = y + 3 * dy;
    is_in_board(ay, ax) && board[ny as usize][nx as usize] == o && board[fy as usize][fx as usize] == o
        && board[ay as usize][ax as usize] == p
}

/// A coordinate that three steps either way, and the distance to the centre,
/// keep within `i32`.
pub open spec fn heuristic_fits(v: int) -> bool {
    i32::MIN + 10 <= v <= i32::MAX - 3
}

/// When the cell three steps from `(y, x)` along `(dy, dx)` is on the board, so are
/// the two cells between.
pub open spec fn line_reads_ok(x: int, y: int, dx: int, dy: int) -> bool {
    in_board(y + 3 * dy, x + 3 * dx) ==> in_board(y + dy, x + dx) && in_board(y + 2 * dy, x + 2 * dx)
}

/// The capture test around `(y, x)` reads only cells of the board, in each of
/// the eight directions.
pub open spec fn heuristic_reads_ok(x: int, y: int) -> bool {
    &&& line_reads_ok(x, y, 1, 0)
    &&& line_reads_ok(x, y, -1, 0)
    &&& line_reads_ok(x, y, 0, 1)
    &&& line_reads_ok(x, y, 0, -1)
    &&& line_reads_ok(x, y, 1, 1)
    &&& line_reads_ok(x, y, -1, -1)
    &&& line_reads_ok(x, y, 1, -1)
    &&& line_reads_ok(x, y, -1, 1)
}

/// Whether a stone of `p` at `(y, x)` would leave the pair it makes with its
/// neighbour at `(dy, dx)` open to capture.
fn leaves_vulnerable(board: &[[u8; 19]; 19], p: u8, o: u8, x: i32, y: i32, dx: i32, dy: i32) -> (r: bool)
    requires heuristic_fits(x as int), heuristic_fits(y as int), -1 <= dx <= 1, -1 <= dy <= 1,
    ensures ({
        let g = grid(*board);
        let ny = y + dy;
        let nx = x + dx;
        let by = y - dy;
        let bx = x - dx;
        let ay = ny + dy;
        let ax = nx + dx;
        let b_opp = in_board(by, bx) && at(g, by, bx) == o;
        let b_empty = in_board(by, bx) && at(g, by, bx) == 0;
        let a_opp = in_board(ay, ax) && at(g, ay, ax) == o;
        let a_empty = in_board(ay, ax) && at(g, ay, ax) == 0;
        r == (in_board(ny, nx) && at(g, ny, nx) == p && ((b_opp && a_empty) || (b_empty && a_opp)))
    }),
{
    let nx = x + dx;
    let ny = y + dy;
    if is_in_board(ny, nx) && board[ny as usize][nx as usize] == p {
        let bx = x - dx;
        let by = y - dy;
        let ax = nx + dx;
        let ay = ny + dy;
        let b_opp = is_in_board(by, bx) && board[by as usize][bx as usize] == o;
        let b_empty = is_in_board(by, bx) && board[by as usize][bx as usize] == 0;
        let a_opp = is_in_board(ay, ax) && board[ay as usize][ax as usize] == o;
        let a_empty = is_in_board(ay, ax) && board[ay as usize][ax as usize] == 0;
        (b_opp && a_empty) || (b_empty && a_opp)
    } else {
        false
    }
}

/// The heuristic value of playing `(y, x)`, used to order moves in the search.
pub fn move_heuristic(state: &GameState, x: usize, y: usize) -> (r: i32)
    requires
        heuristic_fits((x as i32) as int),
        heuristic_fits((y as i32) as int),
        heuristic_reads_ok((x as i32) as int, (y as i32) as int),
        centrality((x as i32) as int, (y as i32) as int) >= i32::MIN,
        capture_gain(grid(state.board), state.player(), (y as i32) as int, (x as i32) as int, 4) > 0 ==> (state.captures[state.player() - 1] as i32) + capture_gain(grid(state.board), state.player(), (y as i32) as int, (x as i32) as int, 4) <= i32::MAX,
    ensures
        r == heuristic_value(*state, (x as i32) as int, (y as i32) as int),
{
    let xu = x;
    let yu = y;
    let x = xu as i32;
    let y = yu as i32;
    let p = state.current_player();
    let opp = if p == 1 { 2 } else { 1 };
    let board = &state.board;
    let ghost g = grid(*board);
    let mut score: i64 = 0;
    let mut captured: i32 = 0;
    for k in 0..4usize
        invariant
            board == &state.board, g == grid(*board),
            heuristic_fits(x as int), heuristic_fits(y as int), heuristic_reads_ok(x as int, y as int), p == state.player(), opp == opponent_of(p),
            captured == capture_gain(g, p, y as int, x as int, k as int),
            0 <= captured <= 4 * k,
    {
        let (dx, dy) = edir(k);
        if captures_from(board, p, opp, x, y, dx, dy) {
            captured = captured + 2;
        }
        if captures_from(board, p, opp, x, y, -dx, -dy) {
            captured = captured + 2;
        }
    }
    if captured > 0 {
        let after = state.captures[(p - 1) as usize] as i32 + captured;
        if after >= 10 {
            score = score + 90_000_000;
        }
        score = score + (captured as i64) * (CAPTURE_THREAT as i64 / 2);
    }
    let ghost cap_part = score as int;
    for k in 0..4usize
        invariant
            board == &state.board, g == grid(*board),
            heuristic_fits(x as int), heuristic_fits(y as int), heuristic_reads_ok(x as int, y as int), p == state.player(), opp == opponent_of(p),
            x == xu as i32, y == yu as i32,
            0 <= cap_part <= 90_000_000 + 16 * 3_000_000,
            score == cap_part + lines_after(g, p, opp, y as int, x as int, k as int),
            0 <= lines_after(g, p, opp, y as int, x as int, k as int) <= 2 * k * 99_000_000,
    {
        let (dx, dy) = edir(k);
        proof {
            lemma_line_value_bound(placed_line(g, x as int, y as int, dx as int, dy as int, p));
            lemma_line_value_bound(placed_line(g, x as int, y as int, dx as int, dy as int, opp));
        }
        let a = pattern_value_after_place(board, xu, yu, dx, dy, p);
        let b = pattern_value_after_place(board, xu, yu, dx, dy, opp);
        score = score + a as i64;
        score = score + b as i64;
    }
    let ghost before_vuln = score as int;
    let mut vulnerable: i64 = 0;
    for k in 0..4usize
        invariant
            board == &state.board, g == grid(*board),
            heuristic_fits(x as int), heuristic_fits(y as int), heuristic_reads_ok(x as int, y as int), p == state.player(), opp == opponent_of(p),
            vulnerable == vulnerable_count(g, p, y as int, x as int, k as int),
            0 <= vulnerable <= 2 * k,
            0 <= before_vuln <= 90_000_000 + 16 * 3_000_000 + 8 * 99_000_000,
            score == before_vuln - VULNERABLE_PENALTY * vulnerable,
    {
        let (dx, dy) = edir(k);
        if leaves_vulnerable(board, p, opp, x, y, dx, dy) {
            score = score - VULNERABLE_PENALTY as i64;
            vulnerable = vulnerable + 1;
        }
        if leaves_vulnerable(board, p, opp, x, y, -dx, -dy) {
            score = score - VULNERABLE_PENALTY as i64;
            vulnerable = vulnerable + 1;
        }
    }
    let cx: i32 = 10 - if 9 - x >= 0 { 9 - x } else { x - 9 };
    let cy: i32 = 10 - if 9 - y >= 0 { 9 - y } else { y - 9 };
    let c: i64 = cx as i64 + cy as i64;
    score = score + c * 100;
    clamp_to_i32(score)
}

} // verus!

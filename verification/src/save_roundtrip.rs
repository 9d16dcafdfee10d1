//! What a save file gives back: reading the file that `save_bytes` writes yields
//! the saved game.
use vstd::prelude::*;
use crate::board::{Grid, grid, grid_wf, lemma_grid_wf};
use crate::game_state::{GameState, GameStateSnapshot, mode_code};
use crate::save_format::{
    board_at, board_text, header_text, history_text, loaded_from, number_at, opt_code, opt_player,
    pair_at, row_at, row_text, save_ok, save_text, snapshot_line, snapshot_ok, snapshot_read,
    snapshot_text,
};
use crate::text::{
    all_digits, decimal, digits_value, is_digit, is_space, line_end, lines, parse_unsigned, plain, trim,
    trim_end, trim_start, word_len, words,
};

verus! {

/// The lines, each followed by a line feed.
pub open spec fn joined(ls: Seq<Seq<u8>>) -> Seq<u8>
    decreases ls.len(),
{
    if ls.len() == 0 { Seq::empty() } else { joined(ls.drop_last()) + ls.last().push(10u8) }
}

/// A line that `lines` gives back as it is: no line feed, and no carriage return at its end.
pub open spec fn clean_line(x: Seq<u8>) -> bool {
    &&& forall|i: int| 0 <= i < x.len() ==> #[trigger] x[i] != 10
    &&& x.len() > 0 ==> x.last() != 13
}

/// Joining lines distributes over concatenation.
proof fn lemma_joined_append(a: Seq<Seq<u8>>, b: Seq<Seq<u8>>)
    ensures joined(a + b) == joined(a) + joined(b),
    decreases b.len(),
{
    if b.len() == 0 {
        assert(a + b =~= a);
        assert(joined(a) + joined(b) =~= joined(a));
    } else {
        assert((a + b).drop_last() =~= a + b.drop_last());
        lemma_joined_append(a, b.drop_last());
        assert((a + b).last() == b.last());
        assert(joined(a + b) =~= joined(a) + joined(b));
    }
}

/// Joining a first line and the rest.
proof fn lemma_joined_cons(x: Seq<u8>, rest: Seq<Seq<u8>>)
    ensures joined(seq![x] + rest) == x.push(10u8) + joined(rest),
{
    lemma_joined_append(seq![x], rest);
    let one = seq![x];
    assert(one.drop_last() =~= Seq::<Seq<u8>>::empty());
    assert(joined(one.drop_last()) =~= Seq::<u8>::empty());
    assert(one.last() == x);
    assert(joined(one) =~= x.push(10u8));
}

/// The first line feed from `i` on is at `e`.
proof fn lemma_line_end_at(s: Seq<u8>, i: int, e: int)
    requires
        0 <= i <= e < s.len(),
        s[e] == 10,
        forall|j: int| i <= j < e ==> s[j] != 10,
    ensures line_end(s, i) == e,
    decreases e - i,
{
    if i < e {
        lemma_line_end_at(s, i + 1, e);
    }
}

/// Splitting joined clean lines gives them back.
proof fn lemma_lines_joined(ls: Seq<Seq<u8>>)
    requires forall|i: int| 0 <= i < ls.len() ==> clean_line(#[trigger] ls[i]),
    ensures lines(joined(ls)) == ls,
    decreases ls.len(),
{
    if ls.len() == 0 {
        assert(joined(ls).len() == 0);
        assert(lines(joined(ls)) =~= ls);
    } else {
        let x = ls[0];
        let rest = ls.drop_first();
        assert(ls =~= seq![x] + rest);
        lemma_joined_cons(x, rest);
        let s = joined(ls);
        assert(s =~= x.push(10u8) + joined(rest));
        assert(clean_line(x));
        assert(s[x.len() as int] == 10);
        assert forall|j: int| 0 <= j < x.len() implies s[j] != 10 by {
            assert(s[j] == x[j]);
        }
        lemma_line_end_at(s, 0, x.len() as int);
        assert(s.take(x.len() as int) =~= x);
        assert(s.skip(x.len() as int + 1) =~= joined(rest));
        assert forall|i: int| 0 <= i < rest.len() implies clean_line(#[trigger] rest[i]) by {
            assert(rest[i] == ls[i + 1]);
        }
        lemma_lines_joined(rest);
        assert(lines(s) =~= ls);
    }
}

/// The decimal form of `n`: digits only, not empty, of value `n`.
proof fn lemma_decimal(n: nat)
    ensures
        decimal(n).len() >= 1,
        all_digits(decimal(n)),
        digits_value(decimal(n)) == n,
    decreases n,
{
    if n < 10 {
        assert(decimal(n).drop_last() =~= Seq::<u8>::empty());
        assert(decimal(n).last() == (n + 48) as u8);
        assert(digits_value(decimal(n).drop_last()) == 0);
        assert(digits_value(decimal(n)) == digits_value(decimal(n).drop_last()) * 10 + (decimal(n).last() - 48) as nat);
    } else {
        lemma_decimal(n / 10);
        let d = decimal(n / 10);
        assert(decimal(n).drop_last() =~= d);
        assert(decimal(n).last() == (n % 10 + 48) as u8);
        assert(digits_value(decimal(n)) == digits_value(d) * 10 + (n % 10) as nat);
        assert((n / 10) * 10 + n % 10 == n);
        assert forall|i: int| 0 <= i < decimal(n).len() implies #[trigger] is_digit(decimal(n)[i]) by {
            if i < d.len() {
                assert(decimal(n)[i] == d[i]);
            }
        }
    }
}

/// A string of digits is a clean line without whitespace.
proof fn lemma_digits_clean(x: Seq<u8>)
    requires all_digits(x),
    ensures
        clean_line(x),
        forall|i: int| 0 <= i < x.len() ==> plain(#[trigger] x[i]),
{
    assert forall|i: int| 0 <= i < x.len() implies #[trigger] x[i] != 10 by {
        assert(is_digit(x[i]));
    }
    if x.len() > 0 {
        assert(is_digit(x[x.len() - 1]));
    }
    assert forall|i: int| 0 <= i < x.len() implies plain(#[trigger] x[i]) by {
        assert(is_digit(x[i]));
    }
}

/// A number's decimal form reads back as the number.
proof fn lemma_parse_decimal(n: nat, max: nat)
    requires n <= max,
    ensures
        parse_unsigned(decimal(n), max) == Some(n),
        trim(decimal(n)) == decimal(n),
        clean_line(decimal(n)),
{
    lemma_decimal(n);
    let d = decimal(n);
    lemma_digits_clean(d);
    assert(is_digit(d[0]));
    assert(is_digit(d[d.len() - 1]));
    if d.len() >= 2 {
        assert(is_digit(d[d.len() - 2]));
    }
    if d.len() >= 3 {
        assert(is_digit(d[d.len() - 3]));
    }
    assert(trim_start(d) == d);
    assert(trim_end(d) == d);
}

/// A word followed by whitespace ends where the whitespace starts.
proof fn lemma_word_len_prefix(x: Seq<u8>, y: Seq<u8>, i: int)
    requires
        0 <= i <= x.len(),
        forall|j: int| 0 <= j < x.len() ==> plain(#[trigger] x[j]),
        y.len() > 0 && is_space(y[0]),
    ensures word_len(x + y, i) == x.len() - i,
    decreases x.len() - i,
{
    if i < x.len() {
        assert((x + y)[i] == x[i]);
        assert(plain(x[i]));
        lemma_word_len_prefix(x, y, i + 1);
    } else {
        assert((x + y)[i] == y[0]);
    }
}

/// Without whitespace, the word runs to the end.
proof fn lemma_word_len_all(x: Seq<u8>, i: int)
    requires
        0 <= i <= x.len(),
        forall|j: int| 0 <= j < x.len() ==> plain(#[trigger] x[j]),
    ensures word_len(x, i) == x.len() - i,
    decreases x.len() - i,
{
    if i < x.len() {
        assert(plain(x[i]));
        lemma_word_len_all(x, i + 1);
    }
}

/// Words separated by a space.
proof fn lemma_words_space(x: Seq<u8>, y: Seq<u8>)
    requires
        forall|j: int| 0 <= j < x.len() ==> plain(#[trigger] x[j]) || x[j] == 32,
    ensures words(x + seq![32u8] + y) == words(x) + words(y),
    decreases x.len(),
{
    let s = x + seq![32u8] + y;
    if x.len() == 0 {
        assert(s[0] == 32);
        assert(s.skip(1) =~= y);
        assert(words(x) =~= Seq::<Seq<u8>>::empty());
        assert(words(x) + words(y) =~= words(y));
    } else if x[0] == 32 {
        assert(s[0] == 32);
        assert(s.skip(1) =~= x.skip(1) + seq![32u8] + y);
        assert forall|j: int| 0 <= j < x.skip(1).len() implies plain(#[trigger] x.skip(1)[j]) || x.skip(1)[j] == 32 by {
            assert(x.skip(1)[j] == x[j + 1]);
        }
        lemma_words_space(x.skip(1), y);
    } else {
        assert(plain(x[0]));
        assert(s[0] == x[0]);
        let w = word_len(x, 0);
        crate::text::lemma_word_len_bounds(x, 0);
        assert(w >= 1);
        // the word of `s` is the word of `x`
        lemma_word_len_same(x, seq![32u8] + y, 0);
        assert(s =~= x + (seq![32u8] + y));
        assert(s.take(w) =~= x.take(w));
        assert(s.skip(w) =~= x.skip(w) + seq![32u8] + y);
        assert forall|j: int| 0 <= j < x.skip(w).len() implies plain(#[trigger] x.skip(w)[j]) || x.skip(w)[j] == 32 by {
            assert(x.skip(w)[j] == x[j + w]);
        }
        lemma_words_space(x.skip(w), y);
    }
}

/// The word starting at `i` of `x` ends inside `x` or at its end, when what
/// follows `x` starts with whitespace.
proof fn lemma_word_len_same(x: Seq<u8>, y: Seq<u8>, i: int)
    requires
        0 <= i <= x.len(),
        forall|j: int| 0 <= j < x.len() ==> plain(#[trigger] x[j]) || x[j] == 32,
        y.len() > 0 && is_space(y[0]),
    ensures word_len(x + y, i) == word_len(x, i),
    decreases x.len() - i,
{
    if i < x.len() {
        assert((x + y)[i] == x[i]);
        if plain(x[i]) {
            lemma_word_len_same(x, y, i + 1);
        }
    } else {
        assert((x + y)[i] == y[0]);
    }
}

/// A word alone.
proof fn lemma_words_single(x: Seq<u8>)
    requires
        x.len() > 0,
        forall|j: int| 0 <= j < x.len() ==> plain(#[trigger] x[j]),
    ensures words(x) == seq![x],
{
    lemma_word_len_all(x, 0);
    assert(x.take(x.len() as int) =~= x);
    assert(x.skip(x.len() as int) =~= Seq::<u8>::empty());
    assert(words(x.skip(x.len() as int)) =~= Seq::<Seq<u8>>::empty());
    assert(words(x) =~= seq![x]);
}

/// The words of a row's text are the cells' decimal forms.
proof fn lemma_row_words(row: Seq<u8>, n: int)
    requires 1 <= n <= row.len(),
    ensures
        words(row_text(row, n)) == Seq::new(n as nat, |j: int| decimal(row[j] as nat)),
        clean_line(row_text(row, n)),
        forall|j: int| 0 <= j < row_text(row, n).len() ==> plain(#[trigger] row_text(row, n)[j]) || row_text(row, n)[j] == 32,
    decreases n,
{
    lemma_parse_decimal(row[n - 1] as nat, 255);
    lemma_decimal(row[n - 1] as nat);
    lemma_digits_clean(decimal(row[n - 1] as nat));
    lemma_words_single(decimal(row[n - 1] as nat));
    if n == 1 {
        assert(words(row_text(row, n)) =~= Seq::new(n as nat, |j: int| decimal(row[j] as nat)));
    } else {
        lemma_row_words(row, n - 1);
        let a = row_text(row, n - 1);
        let d = decimal(row[n - 1] as nat);
        assert(row_text(row, n) =~= a + seq![32u8] + d);
        lemma_words_space(a, d);
        assert(words(row_text(row, n)) =~= Seq::new(n as nat, |j: int| decimal(row[j] as nat)));
        let t = row_text(row, n);
        assert forall|i: int| 0 <= i < t.len() implies #[trigger] t[i] != 10 by {
            if i < a.len() {
                assert(t[i] == a[i]);
            } else if i > a.len() {
                assert(t[i] == d[i - a.len() - 1]);
                assert(is_digit(d[i - a.len() - 1]));
            }
        }
        assert(t.last() == d.last());
        assert(is_digit(d[d.len() - 1]));
        assert forall|j: int| 0 <= j < t.len() implies plain(#[trigger] t[j]) || t[j] == 32 by {
            if j < a.len() {
                assert(t[j] == a[j]);
            } else if j > a.len() {
                assert(t[j] == d[j - a.len() - 1]);
            }
        }
    }
}

/// The line of two numbers.
pub open spec fn pair_text(a: u32, b: u32) -> Seq<u8> {
    decimal(a as nat).push(32u8) + decimal(b as nat)
}

/// A line of two numbers reads as their two words, and it is clean.
proof fn lemma_pair(a: u32, b: u32)
    ensures
        words(pair_text(a, b)) == seq![decimal(a as nat), decimal(b as nat)],
        clean_line(pair_text(a, b)),
{
    lemma_decimal(a as nat);
    lemma_decimal(b as nat);
    lemma_digits_clean(decimal(a as nat));
    lemma_digits_clean(decimal(b as nat));
    lemma_words_single(decimal(a as nat));
    lemma_words_single(decimal(b as nat));
    let da = decimal(a as nat);
    let db = decimal(b as nat);
    assert(pair_text(a, b) =~= da + seq![32u8] + db);
    lemma_words_space(da, db);
    assert(words(pair_text(a, b)) =~= seq![da, db]);
    let t = pair_text(a, b);
    assert forall|i: int| 0 <= i < t.len() implies #[trigger] t[i] != 10 by {
        if i < da.len() {
            assert(t[i] == da[i]);
            assert(is_digit(da[i]));
        } else if i > da.len() {
            assert(t[i] == db[i - da.len() - 1]);
            assert(is_digit(db[i - da.len() - 1]));
        }
    }
    assert(is_digit(db[db.len() - 1]));
}

/// The lines of a board.
pub open spec fn board_lines(g: Grid) -> Seq<Seq<u8>> {
    Seq::new(19, |r: int| row_text(g[r], 19))
}

/// The lines of a recorded position.
pub open spec fn snapshot_lines(snap: GameStateSnapshot) -> Seq<Seq<u8>> {
    seq![
        pair_text(snap.captures[0], snap.captures[1]),
        decimal(snap.turn_count as nat),
        decimal(opt_code(snap.winner)),
        decimal(opt_code(snap.five_aligned_winner)),
    ] + board_lines(grid(snap.board))
}

/// The lines of the first `n` recorded positions.
pub open spec fn history_lines(h: Seq<GameStateSnapshot>, n: int) -> Seq<Seq<u8>>
    decreases n,
{
    if n <= 0 { Seq::empty() } else { history_lines(h, n - 1) + snapshot_lines(h[n - 1]) }
}

/// The lines of a save file.
pub open spec fn save_lines(s: GameState) -> Seq<Seq<u8>> {
    seq![
        header_text(),
        decimal(mode_code(s.mode) as nat),
        decimal(s.turn_count as nat),
        pair_text(s.captures[0], s.captures[1]),
        decimal(opt_code(s.winner)),
        decimal(opt_code(s.five_aligned_winner)),
    ] + board_lines(grid(s.board)) + seq![decimal(s.history@.len())] + history_lines(
        s.history@,
        s.history@.len() as int,
    )
}

/// Joining four lines.
proof fn lemma_joined_list4(h: Seq<Seq<u8>>)
    requires h.len() == 4,
    ensures joined(h) == h[0].push(10u8) + h[1].push(10u8) + h[2].push(10u8) + h[3].push(10u8),
{
    let e = Seq::<Seq<u8>>::empty();
    lemma_joined_cons(h[3], e);
    lemma_joined_cons(h[2], seq![h[3]] + e);
    lemma_joined_cons(h[1], seq![h[2]] + (seq![h[3]] + e));
    lemma_joined_cons(h[0], seq![h[1]] + (seq![h[2]] + (seq![h[3]] + e)));
    assert(h =~= seq![h[0]] + (seq![h[1]] + (seq![h[2]] + (seq![h[3]] + e))));
    assert(joined(e) =~= Seq::<u8>::empty());
    assert(joined(h) =~= h[0].push(10u8) + h[1].push(10u8) + h[2].push(10u8) + h[3].push(10u8));
}

/// Joining six lines.
proof fn lemma_joined_list6(h: Seq<Seq<u8>>)
    requires h.len() == 6,
    ensures joined(h) == h[0].push(10u8) + h[1].push(10u8) + h[2].push(10u8) + h[3].push(10u8) + h[4].push(10u8) + h[5].push(10u8),
{
    let t = h.skip(2);
    lemma_joined_list4(t);
    lemma_joined_cons(h[1], t);
    lemma_joined_cons(h[0], seq![h[1]] + t);
    assert(h =~= seq![h[0]] + (seq![h[1]] + t));
    assert(joined(h) =~= h[0].push(10u8) + h[1].push(10u8) + h[2].push(10u8) + h[3].push(10u8) + h[4].push(10u8) + h[5].push(10u8));
}

/// The text of the first `n` rows is the join of their lines.
proof fn lemma_board_text(g: Grid, n: int)
    requires 0 <= n <= 19,
    ensures board_text(g, n) == joined(board_lines(g).take(n)),
    decreases n,
{
    if n > 0 {
        lemma_board_text(g, n - 1);
        assert(board_lines(g).take(n).drop_last() =~= board_lines(g).take(n - 1));
    } else {
        assert(board_lines(g).take(0) =~= Seq::<Seq<u8>>::empty());
    }
}

/// The text of a recorded position is the join of its lines.
proof fn lemma_snapshot_text(snap: GameStateSnapshot)
    ensures snapshot_text(snap) == joined(snapshot_lines(snap)),
{
    let g = grid(snap.board);
    lemma_board_text(g, 19);
    assert(board_lines(g).take(19) =~= board_lines(g));
    let head = seq![
        pair_text(snap.captures[0], snap.captures[1]),
        decimal(snap.turn_count as nat),
        decimal(opt_code(snap.winner)),
        decimal(opt_code(snap.five_aligned_winner)),
    ];
    lemma_joined_append(head, board_lines(g));
    assert(joined(head) =~= pair_text(snap.captures[0], snap.captures[1]).push(10u8) + decimal(snap.turn_count as nat).push(10u8)
        + decimal(opt_code(snap.winner)).push(10u8) + decimal(opt_code(snap.five_aligned_winner)).push(10u8)) by {
        lemma_joined_list4(head);
    }
    assert(snapshot_text(snap) =~= joined(snapshot_lines(snap)));
}

/// The text of the first `n` recorded positions is the join of their lines.
proof fn lemma_history_text(h: Seq<GameStateSnapshot>, n: int)
    requires 0 <= n <= h.len(),
    ensures history_text(h, n) == joined(history_lines(h, n)),
    decreases n,
{
    if n > 0 {
        lemma_history_text(h, n - 1);
        lemma_snapshot_text(h[n - 1]);
        lemma_joined_append(history_lines(h, n - 1), snapshot_lines(h[n - 1]));
    }
}

/// The save file is the join of its lines.
proof fn lemma_save_text(s: GameState)
    ensures save_text(s) == joined(save_lines(s)),
{
    let g = grid(s.board);
    let n = s.history@.len() as int;
    lemma_board_text(g, 19);
    assert(board_lines(g).take(19) =~= board_lines(g));
    lemma_history_text(s.history@, n);
    let head = seq![
        header_text(),
        decimal(mode_code(s.mode) as nat),
        decimal(s.turn_count as nat),
        pair_text(s.captures[0], s.captures[1]),
        decimal(opt_code(s.winner)),
        decimal(opt_code(s.five_aligned_winner)),
    ];
    let mid = seq![decimal(s.history@.len())];
    lemma_joined_append(head, board_lines(g));
    lemma_joined_append(head + board_lines(g), mid);
    lemma_joined_append(head + board_lines(g) + mid, history_lines(s.history@, n));
    assert(joined(mid) =~= decimal(s.history@.len()).push(10u8)) by {
        lemma_joined_cons(mid[0], Seq::empty());
        assert(seq![mid[0]] + Seq::<Seq<u8>>::empty() =~= mid);
    }
    assert(joined(head) =~= header_text().push(10u8) + decimal(mode_code(s.mode) as nat).push(10u8)
        + decimal(s.turn_count as nat).push(10u8) + pair_text(s.captures[0], s.captures[1]).push(10u8)
        + decimal(opt_code(s.winner)).push(10u8) + decimal(opt_code(s.five_aligned_winner)).push(10u8)) by {
        lemma_joined_list6(head);
    }
    assert(save_text(s) =~= joined(save_lines(s)));
}

/// The header line is clean.
proof fn lemma_header_clean()
    ensures clean_line(header_text()),
{
    let h = header_text();
    assert forall|i: int| 0 <= i < h.len() implies #[trigger] h[i] != 10 by {}
}

/// Each recorded position takes 23 lines, in order.
proof fn lemma_history_lines(h: Seq<GameStateSnapshot>, n: int)
    requires 0 <= n <= h.len(),
    ensures
        history_lines(h, n).len() == 23 * n,
        forall|k: int, j: int| 0 <= k < n && 0 <= j < 23 ==> #[trigger] history_lines(h, n)[23 * k + j] == snapshot_lines(h[k])[j],
    decreases n,
{
    if n > 0 {
        lemma_history_lines(h, n - 1);
        let a = history_lines(h, n - 1);
        let b = snapshot_lines(h[n - 1]);
        assert(b.len() == 23);
        assert forall|k: int, j: int| 0 <= k < n && 0 <= j < 23 implies #[trigger] history_lines(h, n)[23 * k + j] == snapshot_lines(h[k])[j] by {
            if k < n - 1 {
                assert(23 * k + j < 23 * (n - 1)) by (nonlinear_arith)
                    requires k < n - 1, j < 23;
                assert(history_lines(h, n)[23 * k + j] == a[23 * k + j]);
            } else {
                assert(history_lines(h, n)[23 * k + j] == b[j]);
            }
        }
    }
}

/// Lines `i` to `i + 18` hold board `g`.
proof fn lemma_read_board_lines(l: Seq<Seq<u8>>, i: int, g: Grid)
    requires
        grid_wf(g),
        0 <= i,
        i + 19 <= l.len(),
        forall|r: int| 0 <= r < 19 ==> #[trigger] l[i + r] == row_text(g[r], 19),
    ensures board_at(l, i) == Some(g),
{
    assert forall|r: int| 0 <= r < 19 implies #[trigger] row_at(l, i + r) == Some(g[r]) by {
        let row = g[r];
        lemma_row_words(row, 19);
        let w = words(l[i + r]);
        assert forall|j: int| 0 <= j < 19 implies #[trigger] parse_unsigned(w[j], 255) == Some(row[j] as nat) by {
            lemma_parse_decimal(row[j] as nat, 255);
        }
        assert(Seq::new(19, |j: int| parse_unsigned(w[j], 255).unwrap() as u8) =~= row);
    }
    assert(board_at(l, i).unwrap() =~= g);
}

/// Every line of a save file is clean.
proof fn lemma_save_lines_clean(s: GameState)
    ensures forall|i: int| 0 <= i < save_lines(s).len() ==> clean_line(#[trigger] save_lines(s)[i]),
{
    let l = save_lines(s);
    let n = s.history@.len() as int;
    lemma_history_lines(s.history@, n);
    lemma_header_clean();
    lemma_pair(s.captures[0], s.captures[1]);
    lemma_parse_decimal(mode_code(s.mode) as nat, 255);
    lemma_parse_decimal(s.turn_count as nat, u32::MAX as nat);
    lemma_parse_decimal(opt_code(s.winner), 255);
    lemma_parse_decimal(opt_code(s.five_aligned_winner), 255);
    lemma_parse_decimal(s.history@.len(), s.history@.len());
    lemma_grid_wf(s.board);
    assert forall|i: int| 0 <= i < l.len() implies clean_line(#[trigger] l[i]) by {
        if 6 <= i < 25 {
            lemma_row_words(grid(s.board)[i - 6], 19);
        } else if i >= 26 {
            let k = (i - 26) / 23;
            let j = (i - 26) % 23;
            assert(0 <= k < n);
            assert(l[i] == history_lines(s.history@, n)[23 * k + j]);
            let snap = s.history@[k];
            lemma_pair(snap.captures[0], snap.captures[1]);
            lemma_parse_decimal(snap.turn_count as nat, u32::MAX as nat);
            lemma_parse_decimal(opt_code(snap.winner), 255);
            lemma_parse_decimal(opt_code(snap.five_aligned_winner), 255);
            lemma_grid_wf(snap.board);
            if j >= 4 {
                lemma_row_words(grid(snap.board)[j - 4], 19);
            }
        }
    }
}

/// No winner or pending five is recorded as player 0, which a save file cannot
/// tell apart from none.
pub open spec fn players_saveable(s: GameState) -> bool {
    &&& s.winner != Some(0u8)
    &&& s.five_aligned_winner != Some(0u8)
    &&& forall|k: int| 0 <= k < s.history@.len() ==> (#[trigger] s.history@[k]).winner != Some(0u8)
        && s.history@[k].five_aligned_winner != Some(0u8)
}

/// Two games hold the same saved content: board, mode, turn, captures, winner,
/// pending five, and the same recorded positions (hashes aside).
pub open spec fn same_saved_content(a: GameState, b: GameState) -> bool {
    &&& grid(a.board) == grid(b.board)
    &&& a.mode == b.mode
    &&& a.turn_count == b.turn_count
    &&& a.captures[0] == b.captures[0]
    &&& a.captures[1] == b.captures[1]
    &&& a.winner == b.winner
    &&& a.five_aligned_winner == b.five_aligned_winner
    &&& a.history@.len() == b.history@.len()
    &&& forall|k: int| 0 <= k < a.history@.len() ==> {
        let (x, y) = (#[trigger] a.history@[k], b.history@[k]);
        &&& grid(x.board) == grid(y.board)
        &&& x.captures[0] == y.captures[0]
        &&& x.captures[1] == y.captures[1]
        &&& x.turn_count == y.turn_count
        &&& x.winner == y.winner
        &&& x.five_aligned_winner == y.five_aligned_winner
    }
}

/// Reading back a saved game gives the game that was saved: the file follows the
/// format, and whatever reads it as `load_from_bytes` does holds the same
/// content.
pub proof fn lemma_save_load_roundtrip(s: GameState)
    requires
        players_saveable(s),
        s.history@.len() <= u32::MAX,
    ensures
        save_ok(lines(save_text(s))),
        forall|r: GameState| #[trigger] loaded_from(lines(save_text(s)), r) ==> same_saved_content(r, s),
{
    let l = save_lines(s);
    let n = s.history@.len() as int;
    lemma_save_text(s);
    lemma_save_lines_clean(s);
    lemma_lines_joined(l);
    assert(lines(save_text(s)) == l);
    lemma_history_lines(s.history@, n);
    assert(l.len() == 26 + 23 * n);
    lemma_pair(s.captures[0], s.captures[1]);
    lemma_parse_decimal(mode_code(s.mode) as nat, 255);
    lemma_parse_decimal(s.turn_count as nat, u32::MAX as nat);
    lemma_parse_decimal(s.captures[0] as nat, u32::MAX as nat);
    lemma_parse_decimal(s.captures[1] as nat, u32::MAX as nat);
    lemma_parse_decimal(opt_code(s.winner), 255);
    lemma_parse_decimal(opt_code(s.five_aligned_winner), 255);
    lemma_parse_decimal(s.history@.len(), u32::MAX as nat);
    lemma_grid_wf(s.board);
    assert(number_at(l, 1, 255) == Some(mode_code(s.mode) as nat));
    assert(number_at(l, 2, u32::MAX as nat) == Some(s.turn_count as nat));
    assert(pair_at(l, 3) == Some((s.captures[0] as nat, s.captures[1] as nat)));
    assert(number_at(l, 4, 255) == Some(opt_code(s.winner)));
    assert(number_at(l, 5, 255) == Some(opt_code(s.five_aligned_winner)));
    lemma_read_board_lines(l, 6, grid(s.board));
    assert(number_at(l, 25, u32::MAX as nat) == Some(s.history@.len()));
    assert forall|k: int| 0 <= k < n implies #[trigger] snapshot_ok(l, snapshot_line(k))
        && snapshot_fields(l, snapshot_line(k), s.history@[k]) by {
        let snap = s.history@[k];
        let p = snapshot_line(k);
        assert forall|j: int| 0 <= j < 23 implies #[trigger] l[p + j] == snapshot_lines(snap)[j] by {
            assert(l[p + j] == history_lines(s.history@, n)[23 * k + j]);
        }
        lemma_pair(snap.captures[0], snap.captures[1]);
        lemma_parse_decimal(snap.captures[0] as nat, u32::MAX as nat);
        lemma_parse_decimal(snap.captures[1] as nat, u32::MAX as nat);
        lemma_parse_decimal(snap.turn_count as nat, u32::MAX as nat);
        lemma_parse_decimal(opt_code(snap.winner), 255);
        lemma_parse_decimal(opt_code(snap.five_aligned_winner), 255);
        lemma_grid_wf(snap.board);
        assert(l[p + 0] == snapshot_lines(snap)[0]);
        assert(l[p + 1] == snapshot_lines(snap)[1]);
        assert(l[p + 2] == snapshot_lines(snap)[2]);
        assert(l[p + 3] == snapshot_lines(snap)[3]);
        assert forall|r: int| 0 <= r < 19 implies #[trigger] l[p + 4 + r] == row_text(grid(snap.board)[r], 19) by {
            assert(l[p + (4 + r)] == snapshot_lines(snap)[4 + r]);
        }
        lemma_read_board_lines(l, p + 4, grid(snap.board));
    }
    assert forall|r: GameState| #[trigger] loaded_from(lines(save_text(s)), r) implies same_saved_content(r, s) by {
        assert(mode_code(r.mode) == mode_code(s.mode));
        assert forall|k: int| 0 <= k < r.history@.len() implies {
            let (x, y) = (#[trigger] r.history@[k], s.history@[k]);
            &&& grid(x.board) == grid(y.board)
            &&& x.captures[0] == y.captures[0]
            &&& x.captures[1] == y.captures[1]
            &&& x.turn_count == y.turn_count
            &&& x.winner == y.winner
            &&& x.five_aligned_winner == y.five_aligned_winner
        } by {
            assert(r.history@.len() == n);
            assert(snapshot_ok(l, snapshot_line(k)));
            assert(snapshot_read(l, snapshot_line(k), r.history@[k]));
            assert(snapshot_fields(l, snapshot_line(k), s.history@[k]));
        }
    }
}

/// The fields of the recorded position read from line `p` are those of `snap`.
pub open spec fn snapshot_fields(l: Seq<Seq<u8>>, p: int, snap: GameStateSnapshot) -> bool {
    &&& pair_at(l, p) == Some((snap.captures[0] as nat, snap.captures[1] as nat))
    &&& number_at(l, p + 1, u32::MAX as nat) == Some(snap.turn_count as nat)
    &&& number_at(l, p + 2, 255) == Some(opt_code(snap.winner))
    &&& number_at(l, p + 3, 255) == Some(opt_code(snap.five_aligned_winner))
    &&& board_at(l, p + 4) == Some(grid(snap.board))
}

} // verus!

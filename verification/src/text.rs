//! Reading and writing the plain-text forms of numbers, words and lines.
use vstd::prelude::*;

verus! {

/// ASCII whitespace: tab, line feed, vertical tab, form feed, carriage return, space.
pub open spec fn is_space(b: u8) -> bool {
    b == 9 || b == 10 || b == 11 || b == 12 || b == 13 || b == 32
}

/// Length in bytes of the whitespace character that starts at index `i` of the
/// UTF-8 text `s`, 0 if none starts there. The whitespace characters are those of
/// `char::is_whitespace`: the ASCII ones, U+0085, U+00A0, U+1680, U+2000 to
/// U+200A, U+2028, U+2029, U+202F, U+205F and U+3000.
pub open spec fn space_len(s: Seq<u8>, i: int) -> int {
    if !(0 <= i < s.len()) {
        0
    } else if is_space(s[i]) {
        1
    } else if i + 1 < s.len() && s[i] == 0xC2 && (s[i + 1] == 0x85 || s[i + 1] == 0xA0) {
        2
    } else if i + 2 < s.len() && s[i] == 0xE1 && s[i + 1] == 0x9A && s[i + 2] == 0x80 {
        3
    } else if i + 2 < s.len() && s[i] == 0xE2 && s[i + 1] == 0x80 && ((0x80 <= s[i + 2] <= 0x8A)
        || s[i + 2] == 0xA8 || s[i + 2] == 0xA9 || s[i + 2] == 0xAF) {
        3
    } else if i + 2 < s.len() && s[i] == 0xE2 && s[i + 1] == 0x81 && s[i + 2] == 0x9F {
        3
    } else if i + 2 < s.len() && s[i] == 0xE3 && s[i + 1] == 0x80 && s[i + 2] == 0x80 {
        3
    } else {
        0
    }
}

/// Length in bytes of the whitespace character that ends just before index `j`
/// of `s`, 0 if none ends there.
pub open spec fn space_end(s: Seq<u8>, j: int) -> int {
    if 1 <= j <= s.len() && is_space(s[j - 1]) {
        1
    } else if 2 <= j <= s.len() && space_len(s, j - 2) == 2 {
        2
    } else if 3 <= j <= s.len() && space_len(s, j - 3) == 3 {
        3
    } else {
        0
    }
}

/// A printable ASCII byte other than the space.
pub open spec fn plain(b: u8) -> bool {
    33 <= b <= 126
}

/// An ASCII decimal digit.
pub open spec fn is_digit(b: u8) -> bool {
    48 <= b <= 57
}

/// Whether `b` is ASCII whitespace.
pub fn space(b: u8) -> (r: bool)
    ensures r == is_space(b),
{
    b == 9 || b == 10 || b == 11 || b == 12 || b == 13 || b == 32
}

/// Length of the whitespace character that starts at `data[i]`, within `data[..end]`.
pub fn space_at(data: &[u8], i: usize, end: usize) -> (r: usize)
    requires i < end <= data@.len(),
    ensures
        r as int == space_len(data@.subrange(i as int, end as int), 0),
        r <= end - i,
{
    let ghost t = data@.subrange(i as int, end as int);
    let c = data[i];
    assert(t[0] == c);
    if space(c) {
        return 1;
    }
    if i + 1 < end {
        let c1 = data[i + 1];
        assert(t[1] == c1);
        if c == 0xC2 && (c1 == 0x85 || c1 == 0xA0) {
            return 2;
        }
        if i + 2 < end {
            let c2 = data[i + 2];
            assert(t[2] == c2);
            if c == 0xE1 && c1 == 0x9A && c2 == 0x80 {
                return 3;
            }
            if c == 0xE2 && c1 == 0x80 && ((0x80 <= c2 && c2 <= 0x8A) || c2 == 0xA8 || c2 == 0xA9
                || c2 == 0xAF) {
                return 3;
            }
            if c == 0xE2 && c1 == 0x81 && c2 == 0x9F {
                return 3;
            }
            if c == 0xE3 && c1 == 0x80 && c2 == 0x80 {
                return 3;
            }
        }
    }
    0
}

/// Length of the whitespace character that ends just before `data[j]`, within `data[a..]`.
pub fn space_ending(data: &[u8], a: usize, j: usize) -> (r: usize)
    requires a <= j <= data@.len(),
    ensures
        r as int == space_end(data@.subrange(a as int, j as int), j - a),
        r <= j - a,
{
    let ghost t = data@.subrange(a as int, j as int);
    if j - a >= 1 && space(data[j - 1]) {
        assert(t[j - a - 1] == data@[j - 1]);
        return 1;
    }
    if j - a >= 1 {
        assert(t[j - a - 1] == data@[j - 1]);
    }
    if j - a >= 2 {
        let k = space_at(data, j - 2, j);
        assert(data@.subrange(j - 2, j as int) =~= t.skip(j - a - 2));
        proof {
            lemma_space_len_skip(t, j - a - 2);
        }
        if k == 2 {
            return 2;
        }
    }
    if j - a >= 3 {
        let k = space_at(data, j - 3, j);
        assert(data@.subrange(j - 3, j as int) =~= t.skip(j - a - 3));
        proof {
            lemma_space_len_skip(t, j - a - 3);
        }
        if k == 3 {
            return 3;
        }
    }
    0
}

/// The whitespace character at index `i` is the one at the start of `s.skip(i)`.
pub proof fn lemma_space_len_skip(s: Seq<u8>, i: int)
    requires 0 <= i <= s.len(),
    ensures space_len(s, i) == space_len(s.skip(i), 0),
{
    let t = s.skip(i);
    if i < s.len() {
        assert(t[0] == s[i]);
    }
    if i + 1 < s.len() {
        assert(t[1] == s[i + 1]);
    }
    if i + 2 < s.len() {
        assert(t[2] == s[i + 2]);
    }
}

/// `s` without its leading whitespace.
pub open spec fn trim_start(s: Seq<u8>) -> Seq<u8>
    decreases s.len(),
{
    if space_len(s, 0) > 0 { trim_start(s.skip(space_len(s, 0))) } else { s }
}

/// `s` without its trailing whitespace.
pub open spec fn trim_end(s: Seq<u8>) -> Seq<u8>
    decreases s.len(),
{
    if space_end(s, s.len() as int) > 0 {
        trim_end(s.take(s.len() - space_end(s, s.len() as int)))
    } else {
        s
    }
}

/// `s` without leading and trailing whitespace.
pub open spec fn trim(s: Seq<u8>) -> Seq<u8> {
    trim_end(trim_start(s))
}

/// Value of a string of decimal digits.
pub open spec fn digits_value(s: Seq<u8>) -> nat
    decreases s.len(),
{
    if s.len() == 0 { 0 } else { digits_value(s.drop_last()) * 10 + (s.last() - 48) as nat }
}

/// Every byte is a decimal digit.
pub open spec fn all_digits(s: Seq<u8>) -> bool {
    forall|i: int| 0 <= i < s.len() ==> #[trigger] is_digit(s[i])
}

/// An unsigned number no greater than `max`, written as an optional `+` and one
/// digit or more, as Rust's `str::parse` reads one; `None` otherwise.
pub open spec fn parse_unsigned(s: Seq<u8>, max: nat) -> Option<nat> {
    let t = if s.len() > 1 && s[0] == 43 { s.drop_first() } else { s };
    if t.len() == 0 || !all_digits(t) || digits_value(t) > max {
        None
    } else {
        Some(digits_value(t))
    }
}

/// The decimal form of `n`, without leading zeros.
pub open spec fn decimal(n: nat) -> Seq<u8>
    decreases n,
{
    if n < 10 { seq![(n + 48) as u8] } else { decimal(n / 10).push((n % 10 + 48) as u8) }
}

/// The words of `s`: its maximal runs of bytes that are not whitespace.
pub open spec fn words(s: Seq<u8>) -> Seq<Seq<u8>>
    decreases s.len(),
{
    if s.len() == 0 {
        Seq::empty()
    } else if space_len(s, 0) > 0 {
        words(s.skip(space_len(s, 0)))
    } else {
        let w = word_len(s, 0);
        proof {
            lemma_word_len_bounds(s, 0);
        }
        seq![s.take(w)] + words(s.skip(w))
    }
}

/// Length of the run of non-whitespace bytes of `s` from index `i` on.
pub open spec fn word_len(s: Seq<u8>, i: int) -> int
    decreases s.len() - i,
{
    if 0 <= i < s.len() && space_len(s, i) == 0 { 1 + word_len(s, i + 1) } else { 0 }
}

/// Index of the first line feed of `s` at or after `i`, or `s.len()`.
pub open spec fn line_end(s: Seq<u8>, i: int) -> int
    decreases s.len() - i,
{
    if i < 0 || i >= s.len() { s.len() as int } else if s[i] == 10 { i } else { line_end(s, i + 1) }
}

/// The lines of `s`, as Rust's `str::lines` splits them: at each line feed, a
/// carriage return just before it dropped; a last line without line feed counts
/// unless it is empty.
pub open spec fn lines(s: Seq<u8>) -> Seq<Seq<u8>>
    decreases s.len(),
{
    if s.len() == 0 {
        Seq::empty()
    } else {
        let e = line_end(s, 0);
        proof {
            lemma_line_end_bounds(s, 0);
        }
        if e == s.len() {
            seq![s]
        } else {
            let l = s.take(e);
            let l2 = if l.len() > 0 && l.last() == 13 { l.drop_last() } else { l };
            seq![l2] + lines(s.skip(e + 1))
        }
    }
}

/// The end of a line lies at its first line feed from `i` on, or at the end.
pub proof fn lemma_line_end_bounds(s: Seq<u8>, i: int)
    requires 0 <= i <= s.len(),
    ensures
        i <= line_end(s, i) <= s.len(),
        line_end(s, i) < s.len() ==> s[line_end(s, i)] == 10,
        forall|j: int| i <= j < line_end(s, i) ==> s[j] != 10,
    decreases s.len() - i,
{
    if i < s.len() && s[i] != 10 {
        lemma_line_end_bounds(s, i + 1);
    }
}

/// A word from `i` on holds no whitespace and ends at whitespace or at the end.
pub proof fn lemma_word_len_bounds(s: Seq<u8>, i: int)
    requires 0 <= i <= s.len(),
    ensures
        0 <= word_len(s, i) <= s.len() - i,
        forall|j: int| i <= j < i + word_len(s, i) ==> space_len(s, j) == 0,
        i + word_len(s, i) < s.len() ==> space_len(s, i + word_len(s, i)) > 0,
    decreases s.len() - i,
{
    if i < s.len() && space_len(s, i) == 0 {
        lemma_word_len_bounds(s, i + 1);
    }
}

/// Reads the next line of `data` from `*pos` on; returns its bounds and moves
/// `*pos` past it, or `None` when no line is left.
pub fn next_line_bounds(data: &[u8], pos: &mut usize) -> (r: Option<(usize, usize)>)
    requires *old(pos) <= data@.len(),
    ensures
        *final(pos) <= data@.len(),
        r is None <==> lines(data@.skip(*old(pos) as int)).len() == 0,
        r is None ==> *final(pos) == *old(pos),
        r matches Some((a, b)) ==> {
            &&& a <= b <= data@.len()
            &&& data@.subrange(a as int, b as int) == lines(data@.skip(*old(pos) as int))[0]
            &&& lines(data@.skip(*final(pos) as int)) == lines(data@.skip(*old(pos) as int)).drop_first()
        },
{
    let ghost rest = data@.skip(*pos as int);
    let start = *pos;
    let n = data.len();
    if start == n {
        assert(rest.len() == 0);
        return None;
    }
    let mut j = start;
    while j < n && data[j] != 10
        invariant
            start <= j <= n,
            n == data@.len(),
            rest == data@.skip(start as int),
            line_end(rest, 0) == line_end(rest, j - start),
        decreases n - j,
    {
        j = j + 1;
    }
    proof {
        lemma_line_end_bounds(rest, 0);
        assert(line_end(rest, j - start) == j - start);
    }
    if j == n {
        *pos = n;
        assert(lines(rest) == seq![rest]);
        assert(data@.subrange(start as int, n as int) =~= rest);
        assert(data@.skip(n as int) =~= Seq::<u8>::empty());
        assert(lines(data@.skip(n as int)) =~= lines(rest).drop_first());
        Some((start, n))
    } else {
        let b = if j > start && data[j - 1] == 13 { j - 1 } else { j };
        *pos = j + 1;
        proof {
            let e = j - start;
            let l = rest.take(e);
            assert(l =~= data@.subrange(start as int, j as int));
            if j > start && data@[j - 1] == 13 {
                assert(l.drop_last() =~= data@.subrange(start as int, b as int));
            }
            assert(rest.skip(e + 1) =~= data@.skip(j + 1));
            assert(lines(rest) =~= seq![if l.len() > 0 && l.last() == 13 { l.drop_last() } else { l }] + lines(data@.skip(j + 1)));
            assert(lines(rest).drop_first() =~= lines(data@.skip(j + 1)));
        }
        Some((start, b))
    }
}

/// Bounds of `data[a..b]` without its leading and trailing whitespace.
pub fn trim_bounds(data: &[u8], a: usize, b: usize) -> (r: (usize, usize))
    requires a <= b <= data@.len(),
    ensures
        a <= r.0 <= r.1 <= b,
        data@.subrange(r.0 as int, r.1 as int) == trim(data@.subrange(a as int, b as int)),
{
    let ghost s = data@.subrange(a as int, b as int);
    let mut i = a;
    loop
        invariant_except_break
            a <= i <= b,
            b <= data@.len(),
            trim_start(s) == trim_start(data@.subrange(i as int, b as int)),
        invariant
            s == data@.subrange(a as int, b as int),
        ensures
            a <= i <= b,
            b <= data@.len(),
            trim_start(s) == data@.subrange(i as int, b as int),
        decreases b - i,
    {
        if i == b {
            break;
        }
        let k = space_at(data, i, b);
        if k == 0 {
            break;
        }
        proof {
            let t = data@.subrange(i as int, b as int);
            assert(t.skip(k as int) =~= data@.subrange(i + k, b as int));
        }
        i = i + k;
    }
    let ghost t = data@.subrange(i as int, b as int);
    let mut j = b;
    loop
        invariant_except_break
            i <= j <= b,
            b <= data@.len(),
            trim_end(t) == trim_end(data@.subrange(i as int, j as int)),
        invariant
            t == data@.subrange(i as int, b as int),
        ensures
            i <= j <= b,
            b <= data@.len(),
            trim_end(t) == data@.subrange(i as int, j as int),
        decreases j,
    {
        let k = space_ending(data, i, j);
        if k == 0 {
            break;
        }
        proof {
            let u = data@.subrange(i as int, j as int);
            assert(u.take(u.len() - k) =~= data@.subrange(i as int, j - k));
        }
        j = j - k;
    }
    assert(t =~= data@.subrange(i as int, b as int));
    (i, j)
}

/// A prefix of digits is worth no more than the whole.
proof fn lemma_digits_value_grows(t: Seq<u8>, k: int)
    requires 0 <= k <= t.len(), all_digits(t),
    ensures digits_value(t.take(k)) <= digits_value(t),
    decreases t.len() - k,
{
    if k < t.len() {
        lemma_digits_value_grows(t, k + 1);
        assert(t.take(k + 1).drop_last() =~= t.take(k));
        assert(is_digit(t[k]));
        assert(digits_value(t.take(k + 1)) == digits_value(t.take(k)) * 10 + (t[k] - 48) as nat);
    } else {
        assert(t.take(k) =~= t);
    }
}

/// The number written in `data[a..b]` (see `parse_unsigned`), if it is at most `max`.
pub fn parse_number(data: &[u8], a: usize, b: usize, max: u32) -> (r: Option<u32>)
    requires a <= b <= data@.len(),
    ensures
        r == match parse_unsigned(data@.subrange(a as int, b as int), max as nat) {
            Some(v) => Some(v as u32),
            None => None,
        },
{
    let ghost s = data@.subrange(a as int, b as int);
    let start = if b - a > 1 && data[a] == 43 { a + 1 } else { a };
    let ghost t = data@.subrange(start as int, b as int);
    assert(t =~= if s.len() > 1 && s[0] == 43 { s.drop_first() } else { s });
    if start == b {
        return None;
    }
    let mut v: u64 = 0;
    let mut i = start;
    while i < b
        invariant
            start <= i <= b,
            b <= data@.len(),
            t == data@.subrange(start as int, b as int),
            s == data@.subrange(a as int, b as int),
            t == if s.len() > 1 && s[0] == 43 { s.drop_first() } else { s },
            all_digits(t.take(i - start)),
            v == digits_value(t.take(i - start)),
            v <= max,
        decreases b - i,
    {
        let c = data[i];
        if !(48 <= c && c <= 57) {
            assert(!is_digit(t[i - start]));
            assert(!all_digits(t));
            return None;
        }
        assert(t.take(i - start + 1).drop_last() =~= t.take(i - start));
        v = v * 10 + (c - 48) as u64;
        if v > max as u64 {
            proof {
                if all_digits(t) {
                    lemma_digits_value_grows(t, i - start + 1);
                    assert(digits_value(t.take(i - start + 1)) == v);
                }
            }
            return None;
        }
        i = i + 1;
    }
    assert(t.take(b - start) =~= t);
    Some(v as u32)
}

/// The number written in `data[a..b]` (see `parse_unsigned`), if it fits in a `usize`.
pub fn parse_size(data: &[u8], a: usize, b: usize) -> (r: Option<usize>)
    requires a <= b <= data@.len(),
    ensures
        r == match parse_unsigned(data@.subrange(a as int, b as int), usize::MAX as nat) {
            Some(v) => Some(v as usize),
            None => None,
        },
{
    let ghost s = data@.subrange(a as int, b as int);
    let start = if b - a > 1 && data[a] == 43 { a + 1 } else { a };
    let ghost t = data@.subrange(start as int, b as int);
    assert(t =~= if s.len() > 1 && s[0] == 43 { s.drop_first() } else { s });
    if start == b {
        return None;
    }
    let mut v: usize = 0;
    let mut i = start;
    while i < b
        invariant
            start <= i <= b,
            b <= data@.len(),
            t == data@.subrange(start as int, b as int),
            s == data@.subrange(a as int, b as int),
            t == if s.len() > 1 && s[0] == 43 { s.drop_first() } else { s },
            all_digits(t.take(i - start)),
            v == digits_value(t.take(i - start)),
        decreases b - i,
    {
        let c = data[i];
        if !(48 <= c && c <= 57) {
            assert(!is_digit(t[i - start]));
            assert(!all_digits(t));
            return None;
        }
        assert(t.take(i - start + 1).drop_last() =~= t.take(i - start));
        let d = (c - 48) as usize;
        let next = match v.checked_mul(10) {
            Some(m) => m.checked_add(d),
            None => None,
        };
        match next {
            Some(w) => {
                v = w;
            },
            None => {
                proof {
                    assert(digits_value(t.take(i - start + 1)) == v * 10 + d);
                    if all_digits(t) {
                        lemma_digits_value_grows(t, i - start + 1);
                    }
                }
                return None;
            },
        }
        i = i + 1;
    }
    assert(t.take(b - start) =~= t);
    Some(v)
}

/// Reads the next word of `data[*pos..end]`; returns its bounds and moves `*pos`
/// past it, or `None` when only whitespace is left.
pub fn next_word(data: &[u8], end: usize, pos: &mut usize) -> (r: Option<(usize, usize)>)
    requires *old(pos) <= end <= data@.len(),
    ensures
        *old(pos) <= *final(pos) <= end,
        r is None <==> words(data@.subrange(*old(pos) as int, end as int)).len() == 0,
        r matches Some((a, b)) ==> {
            &&& a <= b <= end
            &&& data@.subrange(a as int, b as int) == words(data@.subrange(*old(pos) as int, end as int))[0]
            &&& words(data@.subrange(*final(pos) as int, end as int)) == words(data@.subrange(*old(pos) as int, end as int)).drop_first()
        },
{
    let ghost s = data@.subrange(*pos as int, end as int);
    let p0 = *pos;
    let mut i = p0;
    loop
        invariant_except_break
            p0 <= i <= end,
            end <= data@.len(),
            words(s) == words(data@.subrange(i as int, end as int)),
        invariant
            s == data@.subrange(p0 as int, end as int),
        ensures
            p0 <= i <= end,
            end <= data@.len(),
            words(s) == words(data@.subrange(i as int, end as int)),
            i < end ==> space_len(data@.subrange(i as int, end as int), 0) == 0,
        decreases end - i,
    {
        if i == end {
            break;
        }
        let k = space_at(data, i, end);
        if k == 0 {
            break;
        }
        proof {
            let t = data@.subrange(i as int, end as int);
            assert(t.skip(k as int) =~= data@.subrange(i + k, end as int));
        }
        i = i + k;
    }
    let ghost u = data@.subrange(i as int, end as int);
    if i == end {
        assert(u.len() == 0);
        *pos = end;
        return None;
    }
    let mut j = i;
    while j < end && space_at(data, j, end) == 0
        invariant
            i <= j <= end,
            end <= data@.len(),
            u == data@.subrange(i as int, end as int),
            word_len(u, 0) == (j - i) + word_len(u, j - i),
        decreases end - j,
    {
        proof {
            lemma_space_len_skip(u, j - i);
            assert(u.skip(j - i) =~= data@.subrange(j as int, end as int));
        }
        j = j + 1;
    }
    if j < end {
        proof {
            lemma_space_len_skip(u, j - i);
            assert(u.skip(j - i) =~= data@.subrange(j as int, end as int));
        }
    }
    proof {
        lemma_word_len_bounds(u, 0);
        assert(word_len(u, j - i) == 0);
        assert(u.take(j - i) =~= data@.subrange(i as int, j as int));
        assert(u.skip(j - i) =~= data@.subrange(j as int, end as int));
        assert(words(u) =~= seq![u.take(j - i)] + words(u.skip(j - i)));
        assert(words(u).drop_first() =~= words(u.skip(j - i)));
    }
    *pos = j;
    Some((i, j))
}

/// Appends the decimal form of `n`.
pub fn push_decimal(out: &mut Vec<u8>, n: u64)
    ensures final(out)@ == old(out)@ + decimal(n as nat),
    decreases n,
{
    if n >= 10 {
        push_decimal(out, n / 10);
    }
    out.push((48 + n % 10) as u8);
    proof {
        if n >= 10 {
            assert(decimal(n as nat) == decimal((n / 10) as nat).push((n % 10 + 48) as u8));
        }
        assert(final(out)@ =~= old(out)@ + decimal(n as nat));
    }
}

/// The first `k` bytes of the digits `s`, with a comma before each digit after the
/// first that starts a group of three counted from the right.
pub open spec fn grouped(s: Seq<u8>, k: int) -> Seq<u8>
    decreases k,
{
    if k <= 0 {
        Seq::empty()
    } else {
        grouped(s, k - 1) + (if k - 1 > 0 && (s.len() - (k - 1)) % 3 == 0 {
            seq![44u8]
        } else {
            Seq::empty()
        }) + seq![s[k - 1]]
    }
}

/// The decimal form of `n` with its digits in groups of three, separated by commas.
pub fn format_thousands(n: usize) -> (out: Vec<u8>)
    ensures
        out@ == grouped(decimal(n as nat), decimal(n as nat).len() as int),
{
    let mut digits: Vec<u8> = Vec::new();
    push_decimal(&mut digits, n as u64);
    assert(digits@ =~= decimal(n as nat));
    let mut out: Vec<u8> = Vec::new();
    let len = digits.len();
    for i in 0..len
        invariant
            len == digits@.len(),
            digits@ == decimal(n as nat),
            out@ == grouped(digits@, i as int),
    {
        let ghost before = out@;
        if i > 0 && (len - i) % 3 == 0 {
            out.push(44);
        }
        out.push(digits[i]);
        assert(out@ =~= grouped(digits@, i + 1));
    }
    out
}

} // verus!

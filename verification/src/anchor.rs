//! Where the next typed character will land on a screen, found by comparing
//! the screen with the one before.

use vstd::prelude::*;
use vstd::string::*;

use crate::text::{
    blank, chars_eq, chars_of, is_blank, law_trimmed, law_trimmed_end, law_trimmed_start, lowercase,
    str_eq, string_of, trim_chars, trim_end_of, trimmed, trimmed_end, trimmed_start, white,
};
use crate::width::{columns, columns_of};

verus! {

/// How many changed characters of a row still count as an edit.
pub const ANCHOR_MAX_CHANGE: usize = 16;

/// The part of the wider row (one in so many) that still counts as an edit.
pub const ANCHOR_CHANGE_RATIO: usize = 3;

/// By how many rows a screen may have moved up or down.
pub const ANCHOR_SHIFT_MAX: i64 = 8;

/// Whether a lower-case word is the name of an editor's mode or of its status.
pub open spec fn mode_token(t: Seq<char>) -> bool {
    ||| t == "nor"@
    ||| t == "ins"@
    ||| t == "sel"@
    ||| t == "nop"@
    ||| t == "op"@
    ||| t == "normal"@
    ||| t == "insert"@
    ||| t == "visual"@
    ||| t == "select"@
    ||| t == "replace"@
    ||| t == "v-block"@
    ||| t == "v-line"@
    ||| t == "vblock"@
    ||| t == "vline"@
}

fn is_mode_token(t: &str) -> (r: bool)
    ensures
        r == mode_token(t@),
{
    str_eq(t, "nor") || str_eq(t, "ins") || str_eq(t, "sel") || str_eq(t, "nop") || str_eq(t, "op")
        || str_eq(t, "normal") || str_eq(t, "insert") || str_eq(t, "visual") || str_eq(t, "select")
        || str_eq(t, "replace") || str_eq(t, "v-block") || str_eq(t, "v-line") || str_eq(t, "vblock")
        || str_eq(t, "vline")
}

/// Whether a character separates the words of a status line.
pub open spec fn separator(c: char) -> bool {
    white(c) || c == '│' || c == '|'
}

/// Whether `s[i..j]` is a word: all that stands between two separators or ends.
pub open spec fn word_at(s: Seq<char>, i: int, j: int) -> bool {
    &&& 0 <= i <= j <= s.len()
    &&& i == 0 || separator(s[i - 1])
    &&& j == s.len() || separator(s[j])
    &&& forall|k: int| i <= k < j ==> !separator(#[trigger] s[k])
}

/// Whether a text begins and ends with two dashes.
pub open spec fn dashed(s: Seq<char>) -> bool {
    s.len() >= 2 && s[0] == '-' && s[1] == '-' && s[s.len() - 2] == '-' && s[s.len() - 1] == '-'
}

/// Whether a row looks like an editor's status line: it is set between dashes,
/// or one of its words names a mode.
pub open spec fn status_line(line: Seq<char>) -> bool {
    let s = trimmed(line);
    ||| dashed(s)
    ||| exists|i: int, j: int|
        word_at(s, i, j) && mode_token(lowercase(#[trigger] s.subrange(i, j)))
}

fn is_separator(c: char) -> (r: bool)
    ensures
        r == separator(c),
{
    c.is_whitespace() || c == '│' || c == '|'
}

fn has_mode_word(chars: &[char]) -> (r: bool)
    ensures
        r == exists|i: int, j: int|
            word_at(chars@, i, j) && mode_token(lowercase(#[trigger] chars@.subrange(i, j))),
{
    let n = chars.len();
    let mut start: usize = 0;
    let mut i: usize = 0;
    loop
        invariant
            n == chars@.len(),
            start <= i <= n,
            start == 0 || separator(chars@[start - 1]),
            forall|k: int| start <= k < i ==> !separator(#[trigger] chars@[k]),
            forall|a: int, b: int|
                word_at(chars@, a, b) && b < i ==> !mode_token(
                    lowercase(#[trigger] chars@.subrange(a, b)),
                ),
        decreases n - i,
    {
        if i == n || is_separator(chars[i]) {
            let mut word = String::new();
            let mut k: usize = start;
            while k < i
                invariant
                    start <= k <= i <= chars@.len(),
                    word@ == chars@.subrange(start as int, k as int),
                decreases i - k,
            {
                word.push(chars[k]);
                k += 1;
            }
            let low = word.as_str().to_lowercase();
            assert(word_at(chars@, start as int, i as int));
            if is_mode_token(low.as_str()) {
                return true;
            }
            assert forall|a: int, b: int| word_at(chars@, a, b) && b < i + 1 implies !mode_token(
                lowercase(#[trigger] chars@.subrange(a, b)),
            ) by {
                if b == i {
                    if a < start {
                        assert(separator(chars@[start - 1]));
                    }
                    if a > start {
                        assert(separator(chars@[a - 1]));
                    }
                    assert(a == start);
                }
            }
            if i == n {
                return false;
            }
            start = i + 1;
        } else {
            assert forall|a: int, b: int| word_at(chars@, a, b) && b < i + 1 implies !mode_token(
                lowercase(#[trigger] chars@.subrange(a, b)),
            ) by {
                assert(b == i ==> separator(chars@[b]));
            }
        }
        i += 1;
    }
}

/// Whether `line` looks like an editor's status line.
pub fn looks_like_status_line(line: &str) -> (r: bool)
    ensures
        r == status_line(line@),
{
    let chars = trim_chars(line);
    let n = chars.len();
    if n >= 2 && chars[0] == '-' && chars[1] == '-' && chars[n - 2] == '-' && chars[n - 1] == '-' {
        return true;
    }
    has_mode_word(chars.as_slice())
}

/// The last of the first `n` rows that holds text.
pub open spec fn last_text_row(plain: Seq<Seq<char>>, n: int) -> Option<int>
    decreases n,
{
    if n <= 0 {
        None
    } else if !blank(plain[n - 1]) {
        Some(n - 1)
    } else {
        last_text_row(plain, n - 1)
    }
}

/// The last of the first `n` rows that holds text and is no status line.
pub open spec fn last_prose_row(plain: Seq<Seq<char>>, n: int) -> Option<int>
    decreases n,
{
    if n <= 0 {
        None
    } else if !blank(plain[n - 1]) && !status_line(plain[n - 1]) {
        Some(n - 1)
    } else {
        last_prose_row(plain, n - 1)
    }
}

/// The position behind the text of a row.
pub open spec fn row_end(plain: Seq<Seq<char>>, row: int) -> (usize, u16) {
    (row as usize, columns(trimmed_end(plain[row])))
}

/// The anchor of a screen of which nothing else is known: behind its last row
/// with text, or behind the last row above it that is no status line if that
/// row looks like one.
pub open spec fn guessed(plain: Seq<Seq<char>>) -> Option<(usize, u16)> {
    match last_text_row(plain, plain.len() as int) {
        None => None,
        Some(last) => if status_line(plain[last]) && last_prose_row(plain, last) is Some {
            Some(row_end(plain, last_prose_row(plain, last)->0))
        } else {
            Some(row_end(plain, last))
        },
    }
}

proof fn lemma_last_rows(plain: Seq<Seq<char>>, n: int)
    requires
        0 <= n <= plain.len(),
    ensures
        last_text_row(plain, n) matches Some(r) ==> 0 <= r < n && !blank(plain[r]),
        last_prose_row(plain, n) matches Some(r) ==> 0 <= r < n && !blank(plain[r]) && !status_line(
            plain[r],
        ),
    decreases n,
{
    if n > 0 {
        lemma_last_rows(plain, n - 1);
    }
}

proof fn lemma_last_rows_are_last(plain: Seq<Seq<char>>, n: int, i: int)
    requires
        0 <= i < n <= plain.len(),
    ensures
        last_text_row(plain, n) matches Some(r) ==> i > r ==> blank(plain[i]),
        last_text_row(plain, n) is None ==> blank(plain[i]),
        last_prose_row(plain, n) matches Some(r) ==> i > r ==> blank(plain[i]) || status_line(
            plain[i],
        ),
        last_prose_row(plain, n) is None ==> blank(plain[i]) || status_line(plain[i]),
    decreases n,
{
    if i < n - 1 {
        lemma_last_rows_are_last(plain, n - 1, i);
    }
}

/// A guess is made for every screen with text, and it is behind the text of a
/// row. No text that is not in a status line is below that row, and the row is a
/// status line only if all text of the screen is in status lines.
pub proof fn law_guess(plain: Seq<Seq<char>>, i: int)
    requires
        0 <= i < plain.len() <= usize::MAX,
    ensures
        match guessed(plain) {
            Some((r, c)) => {
                &&& r < plain.len()
                &&& !blank(plain[r as int])
                &&& c == columns(trimmed_end(plain[r as int]))
                &&& i > r ==> blank(plain[i]) || status_line(plain[i])
                &&& status_line(plain[r as int]) ==> blank(plain[i]) || status_line(plain[i])
            },
            None => blank(plain[i]),
        },
{
    let n = plain.len() as int;
    lemma_last_rows(plain, n);
    lemma_last_rows_are_last(plain, n, i);
    if let Some(last) = last_text_row(plain, n) {
        lemma_last_rows(plain, last);
        if i < last {
            lemma_last_rows_are_last(plain, last, i);
        }
    }
}

fn end_of_row(plain: &[String], row: usize) -> (r: (usize, u16))
    requires
        row < plain@.len(),
    ensures
        r == row_end(plain.deep_view(), row as int),
{
    let text = trim_end_of(plain[row].as_str());
    (row, columns_of(text.as_str()))
}

/// Guesses the anchor of a screen from its text alone.
pub fn heuristic_anchor(plain: &[String]) -> (r: Option<(usize, u16)>)
    ensures
        r == guessed(plain.deep_view()),
{
    let ghost rows = plain.deep_view();
    let mut n: usize = plain.len();
    while n > 0 && is_blank(plain[n - 1].as_str())
        invariant
            n <= plain@.len(),
            rows == plain.deep_view(),
            last_text_row(rows, n as int) == last_text_row(rows, rows.len() as int),
        decreases n,
    {
        n -= 1;
    }
    if n == 0 {
        return None;
    }
    let last: usize = n - 1;
    assert(last_text_row(rows, n as int) == Some(last as int));
    if looks_like_status_line(plain[last].as_str()) {
        let mut m: usize = last;
        while m > 0 && (is_blank(plain[m - 1].as_str()) || looks_like_status_line(
            plain[m - 1].as_str(),
        ))
            invariant
                m <= last < plain@.len(),
                rows == plain.deep_view(),
                last_prose_row(rows, m as int) == last_prose_row(rows, last as int),
            decreases m,
        {
            m -= 1;
        }
        if m > 0 {
            return Some(end_of_row(plain, m - 1));
        }
    }
    Some(end_of_row(plain, last))
}

/// How many characters two texts have in common at the start.
pub open spec fn common_prefix(a: Seq<char>, b: Seq<char>) -> nat
    decreases a.len(),
{
    if a.len() == 0 || b.len() == 0 || a[0] != b[0] {
        0
    } else {
        1 + common_prefix(a.skip(1), b.skip(1))
    }
}

/// How many characters, but no more than `max`, two texts have in common at the
/// end.
pub open spec fn common_suffix(a: Seq<char>, b: Seq<char>, max: int) -> nat
    decreases a.len(),
{
    if max <= 0 || a.len() == 0 || b.len() == 0 || a.last() != b.last() {
        0
    } else {
        1 + common_suffix(a.drop_last(), b.drop_last(), max - 1)
    }
}

/// The shorter of two lengths without a common prefix.
pub open spec fn room_behind(a: Seq<char>, b: Seq<char>, prefix: int) -> int {
    let short: int = if a.len() < b.len() { a.len() as int } else { b.len() as int };
    if prefix < short { short - prefix } else { 0 }
}

/// The common prefix of two texts is a prefix of both, and they differ behind
/// it if both go on.
pub proof fn law_common_prefix(a: Seq<char>, b: Seq<char>)
    ensures
        common_prefix(a, b) <= a.len(),
        common_prefix(a, b) <= b.len(),
        a.take(common_prefix(a, b) as int) == b.take(common_prefix(a, b) as int),
        common_prefix(a, b) < a.len() && common_prefix(a, b) < b.len() ==> a[common_prefix(a, b) as int]
            != b[common_prefix(a, b) as int],
    decreases a.len(),
{
    let p = common_prefix(a, b);
    if a.len() > 0 && b.len() > 0 && a[0] == b[0] {
        let x = a.skip(1);
        let y = b.skip(1);
        law_common_prefix(x, y);
        assert forall|k: int| 0 <= k < p implies a[k] == b[k] by {
            if k > 0 {
                assert(x.take(p - 1)[k - 1] == y.take(p - 1)[k - 1]);
            }
        }
        assert(a.take(p as int) =~= b.take(p as int));
    } else {
        assert(a.take(0) =~= b.take(0));
    }
}

/// The common suffix of two texts is a suffix of both, no longer than the limit.
pub proof fn law_common_suffix(a: Seq<char>, b: Seq<char>, max: int)
    requires
        max >= 0,
    ensures
        common_suffix(a, b, max) <= a.len(),
        common_suffix(a, b, max) <= b.len(),
        common_suffix(a, b, max) <= max,
        a.skip(a.len() - common_suffix(a, b, max)) == b.skip(b.len() - common_suffix(a, b, max)),
    decreases a.len(),
{
    let s = common_suffix(a, b, max);
    if !(max <= 0 || a.len() == 0 || b.len() == 0 || a.last() != b.last()) {
        let x = a.drop_last();
        let y = b.drop_last();
        law_common_suffix(x, y, max - 1);
        let xs = x.skip(x.len() - (s - 1));
        let ys = y.skip(y.len() - (s - 1));
        assert(a.skip(a.len() - s) =~= xs.push(a.last()));
        assert(b.skip(b.len() - s) =~= ys.push(b.last()));
    } else {
        assert(a.skip(a.len() - 0) =~= b.skip(b.len() - 0));
    }
}

fn prefix_len(a: &[char], b: &[char]) -> (r: usize)
    ensures
        r == common_prefix(a@, b@),
        r <= a@.len(),
        r <= b@.len(),
{
    let mut i: usize = 0;
    assert(a@.skip(0) =~= a@);
    assert(b@.skip(0) =~= b@);
    while i < a.len() && i < b.len() && a[i] == b[i]
        invariant
            i <= a@.len(),
            i <= b@.len(),
            common_prefix(a@, b@) == i + common_prefix(a@.skip(i as int), b@.skip(i as int)),
        decreases a@.len() - i,
    {
        assert(a@.skip(i as int).skip(1) =~= a@.skip(i + 1));
        assert(b@.skip(i as int).skip(1) =~= b@.skip(i + 1));
        i += 1;
    }
    i
}

fn suffix_len(a: &[char], b: &[char], prefix: usize) -> (r: usize)
    ensures
        r == common_suffix(a@, b@, room_behind(a@, b@, prefix as int)),
        r <= room_behind(a@, b@, prefix as int),
{
    let short: usize = if a.len() < b.len() { a.len() } else { b.len() };
    let max_s: usize = short.saturating_sub(prefix);
    let mut s: usize = 0;
    assert(a@.take(a@.len() as int) =~= a@);
    assert(b@.take(b@.len() as int) =~= b@);
    while s < max_s && a[a.len() - 1 - s] == b[b.len() - 1 - s]
        invariant
            s <= max_s,
            max_s <= a@.len(),
            max_s <= b@.len(),
            common_suffix(a@, b@, max_s as int) == s + common_suffix(
                a@.take(a@.len() - s),
                b@.take(b@.len() - s),
                max_s - s,
            ),
        decreases max_s - s,
    {
        assert(a@.take(a@.len() - s).drop_last() =~= a@.take(a@.len() - s - 1));
        assert(b@.take(b@.len() - s).drop_last() =~= b@.take(b@.len() - s - 1));
        s += 1;
    }
    s
}

/// How many characters `a` and `b` have in common at the start.
pub fn common_prefix_chars(a: &str, b: &str) -> (r: usize)
    ensures
        r == common_prefix(a@, b@),
{
    let x = chars_of(a);
    let y = chars_of(b);
    prefix_len(x.as_slice(), y.as_slice())
}

/// How many characters `a` and `b` have in common at the end, without the first
/// `prefix` characters of the shorter one.
pub fn common_suffix_chars(a: &str, b: &str, prefix: usize) -> (r: usize)
    ensures
        r == common_suffix(a@, b@, room_behind(a@, b@, prefix as int)),
{
    let x = chars_of(a);
    let y = chars_of(b);
    suffix_len(x.as_slice(), y.as_slice(), prefix)
}

/// Whether row `i` of a screen has a counterpart on the screen before, which
/// has moved down by `d` rows since.
pub open spec fn paired(old: Seq<Seq<char>>, d: int, i: int) -> bool {
    0 <= i - d < old.len()
}

/// Whether row `i` and its counterpart hold the same text.
pub open spec fn same_row(old: Seq<Seq<char>>, new: Seq<Seq<char>>, d: int, i: int) -> bool {
    paired(old, d, i) && old[i - d] == new[i]
}

/// How many of the first `n` rows are the same if the screen has moved down by
/// `d` rows.
pub open spec fn same_rows(old: Seq<Seq<char>>, new: Seq<Seq<char>>, d: int, n: int) -> nat
    decreases n,
{
    if n <= 0 {
        0
    } else {
        same_rows(old, new, d, n - 1) + if same_row(old, new, d, n - 1) { 1nat } else { 0nat }
    }
}

/// How many rows are the same if the screen has moved down by `d` rows.
pub open spec fn shift_score(old: Seq<Seq<char>>, new: Seq<Seq<char>>, d: int) -> nat {
    same_rows(old, new, d, new.len() as int)
}

/// How many rows have to be the same for a move to be believed: three in five,
/// but two at least.
pub open spec fn shift_floor(old: Seq<Seq<char>>, new: Seq<Seq<char>>) -> int {
    let short: int = if old.len() < new.len() { old.len() as int } else { new.len() as int };
    if short * 3 / 5 > 2 { short * 3 / 5 } else { 2 }
}

/// The moves that are tried, one after the other: 1, -1, 2, -2 and so on.
pub open spec fn shift_candidate(k: int) -> int {
    if k % 2 == 0 {
        k / 2 + 1
    } else {
        -(k / 2 + 1)
    }
}

/// The best of the first `k` moves: each one has to beat what came before it,
/// beginning with no move, and to reach the floor.
pub open spec fn best_shift(old: Seq<Seq<char>>, new: Seq<Seq<char>>, k: int) -> int
    decreases k,
{
    if k <= 0 {
        0
    } else {
        let best = best_shift(old, new, k - 1);
        let d = shift_candidate(k - 1);
        if shift_score(old, new, d) > shift_score(old, new, best) && shift_score(old, new, d)
            >= shift_floor(old, new) {
            d
        } else {
            best
        }
    }
}

/// By how many rows a screen has moved down.
pub open spec fn shift(old: Seq<Seq<char>>, new: Seq<Seq<char>>) -> int {
    best_shift(old, new, 2 * ANCHOR_SHIFT_MAX)
}

proof fn lemma_shift_range(old: Seq<Seq<char>>, new: Seq<Seq<char>>, k: int)
    requires
        0 <= k <= 2 * ANCHOR_SHIFT_MAX,
    ensures
        -ANCHOR_SHIFT_MAX <= best_shift(old, new, k) <= ANCHOR_SHIFT_MAX,
    decreases k,
{
    if k > 0 {
        lemma_shift_range(old, new, k - 1);
    }
}

/// A move is believed only if more rows agree under it than without it, and
/// enough of them. No move that is tried does better, and none that is tried
/// earlier does as well.
pub proof fn law_shift_is_best(old: Seq<Seq<char>>, new: Seq<Seq<char>>, k: int)
    requires
        0 <= k < 2 * ANCHOR_SHIFT_MAX,
    ensures
        -ANCHOR_SHIFT_MAX <= shift(old, new) <= ANCHOR_SHIFT_MAX,
        shift(old, new) == 0 || {
            &&& shift_score(old, new, shift(old, new)) > shift_score(old, new, 0)
            &&& shift_score(old, new, shift(old, new)) >= shift_floor(old, new)
        },
        ({
            let d = shift_candidate(k);
            let n = shift_score(old, new, d);
            let best = shift_score(old, new, shift(old, new));
            ||| n < shift_floor(old, new)
            ||| n < best
            ||| n == best && (shift(old, new) == 0 || shift_order(shift(old, new)) <= k)
        }),
{
    lemma_shift_range(old, new, 2 * ANCHOR_SHIFT_MAX);
    lemma_best_shift(old, new, 2 * ANCHOR_SHIFT_MAX, k);
}

/// The place of a move among those that are tried.
pub open spec fn shift_order(d: int) -> int {
    if d > 0 {
        2 * d - 2
    } else {
        -2 * d - 1
    }
}

proof fn lemma_best_shift(old: Seq<Seq<char>>, new: Seq<Seq<char>>, n: int, k: int)
    requires
        0 <= k,
        0 <= n,
    ensures
        best_shift(old, new, n) == 0 || {
            &&& shift_score(old, new, best_shift(old, new, n)) > shift_score(old, new, 0)
            &&& shift_score(old, new, best_shift(old, new, n)) >= shift_floor(old, new)
            &&& 0 <= shift_order(best_shift(old, new, n)) < n
        },
        k < n ==> {
            let m = shift_score(old, new, shift_candidate(k));
            let best = shift_score(old, new, best_shift(old, new, n));
            ||| m < shift_floor(old, new)
            ||| m < best
            ||| m == best && (best_shift(old, new, n) == 0 || shift_order(best_shift(old, new, n)) <= k)
        },
    decreases n,
{
    if n > 0 {
        lemma_best_shift(old, new, n - 1, k);
        assert(shift_order(shift_candidate(n - 1)) == n - 1);
    }
}

/// Under a move there are at most as many equal rows as there are pairs.
proof fn lemma_same_rows_bound(old: Seq<Seq<char>>, new: Seq<Seq<char>>, d: int, n: int)
    requires
        0 <= n,
    ensures
        same_rows(old, new, d, n) <= n,
        d >= 0 ==> same_rows(old, new, d, n) <= (if n > d { n - d } else { 0 }),
        d < 0 ==> same_rows(old, new, d, n) <= (if old.len() + d > 0 { old.len() + d } else { 0 }),
    decreases n,
{
    if n > 0 {
        lemma_same_rows_bound(old, new, d, n - 1);
    }
}

/// The counterpart of row `i`, if there is one.
fn counterpart(i: usize, d: i64, old_len: usize) -> (r: Option<usize>)
    requires
        -ANCHOR_SHIFT_MAX <= d <= ANCHOR_SHIFT_MAX,
    ensures
        r is Some <==> 0 <= i - d < old_len,
        r matches Some(j) ==> j == i - d,
{
    if d >= 0 {
        let up = d as usize;
        if i >= up && i - up < old_len {
            Some(i - up)
        } else {
            None
        }
    } else {
        let down = (-d) as usize;
        if i < old_len && old_len - i > down {
            Some(i + down)
        } else {
            None
        }
    }
}

fn score_of(old: &[String], new: &[String], d: i64) -> (r: usize)
    requires
        -ANCHOR_SHIFT_MAX <= d <= ANCHOR_SHIFT_MAX,
    ensures
        r == shift_score(old.deep_view(), new.deep_view(), d as int),
{
    let ghost a = old.deep_view();
    let ghost b = new.deep_view();
    let mut count: usize = 0;
    let mut i: usize = 0;
    while i < new.len()
        invariant
            -ANCHOR_SHIFT_MAX <= d <= ANCHOR_SHIFT_MAX,
            i <= new@.len(),
            a == old.deep_view(),
            b == new.deep_view(),
            count <= i,
            count == same_rows(a, b, d as int, i as int),
        decreases new@.len() - i,
    {
        match counterpart(i, d, old.len()) {
            Some(j) => {
                if old[j] == new[i] {
                    count += 1;
                }
            },
            None => (),
        }
        i += 1;
    }
    count
}

fn floor_of(old_len: usize, new_len: usize) -> (r: usize)
    ensures
        r == ({
            let short: int = if old_len < new_len { old_len as int } else { new_len as int };
            if short * 3 / 5 > 2 { short * 3 / 5 } else { 2 }
        }),
{
    let short: usize = if old_len < new_len { old_len } else { new_len };
    let part: usize = short / 5 * 3 + short % 5 * 3 / 5;
    assert(part == short * 3 / 5);
    if part > 2 {
        part
    } else {
        2
    }
}

/// By how many rows the screen has moved down from `old` to `new`; negative if
/// it has moved up.
pub fn detect_shift(old: &[String], new: &[String]) -> (r: i64)
    ensures
        r == shift(old.deep_view(), new.deep_view()),
        -ANCHOR_SHIFT_MAX <= r <= ANCHOR_SHIFT_MAX,
{
    let ghost a = old.deep_view();
    let ghost b = new.deep_view();
    let mut best_d: i64 = 0;
    let mut best: usize = score_of(old, new, 0);
    let floor = floor_of(old.len(), new.len());
    let mut k: i64 = 0;
    while k < 2 * ANCHOR_SHIFT_MAX
        invariant
            a == old.deep_view(),
            b == new.deep_view(),
            0 <= k <= 2 * ANCHOR_SHIFT_MAX,
            -ANCHOR_SHIFT_MAX <= best_d <= ANCHOR_SHIFT_MAX,
            best_d == best_shift(a, b, k as int),
            best == shift_score(a, b, best_d as int),
            floor == shift_floor(a, b),
        decreases 2 * ANCHOR_SHIFT_MAX - k,
    {
        let d: i64 = if k % 2 == 0 { k / 2 + 1 } else { -(k / 2 + 1) };
        let s = score_of(old, new, d);
        if s > best && s >= floor {
            best = s;
            best_d = d;
        }
        k += 1;
    }
    best_d
}

/// What changed in a row: whether its length stayed (1) or not (0), how many
/// characters changed, and how much of the row comes up to the end of the
/// change.
pub struct Edit {
    pub rank: nat,
    pub changed: nat,
    pub kept: nat,
}

/// How much of a row of `long` characters may change in one edit.
pub open spec fn edit_limit(long: nat) -> nat {
    if long / ANCHOR_CHANGE_RATIO as nat > ANCHOR_MAX_CHANGE {
        long / ANCHOR_CHANGE_RATIO as nat
    } else {
        ANCHOR_MAX_CHANGE as nat
    }
}

/// The change from `a` to `b`, `None` if there is none or if too much changed.
pub open spec fn edit(a: Seq<char>, b: Seq<char>) -> Option<Edit> {
    let p = common_prefix(a, b);
    let s = common_suffix(a, b, room_behind(a, b, p as int));
    let long: nat = if a.len() > b.len() { a.len() } else { b.len() };
    let changed = long - (p + s);
    if a == b || changed <= 0 || changed > edit_limit(long) {
        None
    } else {
        Some(
            Edit {
                rank: if a.len() != b.len() { 0 } else { 1 },
                changed: changed as nat,
                kept: (b.len() - s) as nat,
            },
        )
    }
}

/// The edit of row `i` of a screen that has moved down by `d` rows. A row
/// without counterpart was scrolled in; on a screen that has not moved it is
/// compared with an empty row.
pub open spec fn row_edit(old: Seq<Seq<char>>, new: Seq<Seq<char>>, d: int, i: int) -> Option<Edit> {
    if paired(old, d, i) {
        edit(old[i - d], new[i])
    } else if d != 0 {
        None
    } else {
        edit(Seq::empty(), new[i])
    }
}

/// How many of the first `n` rows were edited.
pub open spec fn edit_count(old: Seq<Seq<char>>, new: Seq<Seq<char>>, d: int, n: int) -> nat
    decreases n,
{
    if n <= 0 {
        0
    } else {
        edit_count(old, new, d, n - 1) + if row_edit(old, new, d, n - 1) is Some { 1nat } else { 0nat }
    }
}

/// How far row `i` lies from the anchor; as far as can be if there is none.
pub open spec fn distance(anchor: Option<(usize, u16)>, i: int) -> int {
    match anchor {
        Some((r, _)) => if i > r { i - r } else { r - i },
        None => usize::MAX as int,
    }
}

/// Whether the edit `e` of row `i` is more likely typed than `f` of row `j`: a
/// row that grew or shrank comes first, then the row closer to the anchor, then
/// the smaller change.
pub open spec fn likelier(
    anchor: Option<(usize, u16)>,
    e: Edit,
    i: int,
    f: Edit,
    j: int,
) -> bool {
    ||| e.rank < f.rank
    ||| e.rank == f.rank && distance(anchor, i) < distance(anchor, j)
    ||| e.rank == f.rank && distance(anchor, i) == distance(anchor, j) && e.changed < f.changed
}

/// The first of the likeliest edits among the first `n` rows.
pub open spec fn best_edit(
    old: Seq<Seq<char>>,
    new: Seq<Seq<char>>,
    d: int,
    anchor: Option<(usize, u16)>,
    n: int,
) -> Option<int>
    decreases n,
{
    if n <= 0 {
        None
    } else {
        let best = best_edit(old, new, d, anchor, n - 1);
        match (row_edit(old, new, d, n - 1), best) {
            (None, _) => best,
            (Some(_), None) => Some(n - 1),
            (Some(e), Some(j)) => if likelier(anchor, e, n - 1, row_edit(old, new, d, j)->0, j) {
                Some(n - 1)
            } else {
                best
            },
        }
    }
}

/// An anchor moved down by `d` rows, kept on a screen of `len` rows.
pub open spec fn moved(anchor: Option<(usize, u16)>, d: int, len: int) -> Option<(usize, u16)> {
    match anchor {
        Some((r, c)) => Some(
            (
                (if r + d < 0 {
                    0
                } else if r + d > len - 1 {
                    len - 1
                } else {
                    r + d
                }) as usize,
                c,
            ),
        ),
        None => None,
    }
}

/// The anchor of the screen `new`, which followed the screen `old` with the
/// anchor `prev`.
pub open spec fn followed(
    old: Seq<Seq<char>>,
    new: Seq<Seq<char>>,
    prev: Option<(usize, u16)>,
) -> Option<(usize, u16)> {
    if old.len() == 0 || new.len() == 0 {
        if guessed(new) is Some { guessed(new) } else { prev }
    } else if old == new {
        prev
    } else {
        let d = shift(old, new);
        let anchor = moved(prev, d, new.len() as int);
        let long: int = if old.len() > new.len() { old.len() as int } else { new.len() as int };
        let count = edit_count(old, new, d, new.len() as int);
        if long >= 4 && count > long / 2 {
            anchor
        } else {
            match best_edit(old, new, d, anchor, new.len() as int) {
                Some(i) => Some(
                    (i as usize, columns(new[i].take(row_edit(old, new, d, i)->0.kept as int))),
                ),
                None => anchor,
            }
        }
    }
}

/// The edit from `a` to `b` as plain numbers: rank, changed, kept.
fn edit_of(a: &[char], b: &[char]) -> (r: Option<(usize, usize, usize)>)
    ensures
        r is Some <==> edit(a@, b@) is Some,
        r matches Some(e) ==> edit(a@, b@) == Some(
            Edit { rank: e.0 as nat, changed: e.1 as nat, kept: e.2 as nat },
        ) && e.2 <= b@.len(),
{
    if chars_eq(a, b) {
        return None;
    }
    let p = prefix_len(a, b);
    let s = suffix_len(a, b, p);
    let long: usize = if a.len() > b.len() { a.len() } else { b.len() };
    let changed: usize = long - (p + s);
    if changed == 0 {
        return None;
    }
    let share: usize = long / ANCHOR_CHANGE_RATIO;
    let limit: usize = if share > ANCHOR_MAX_CHANGE { share } else { ANCHOR_MAX_CHANGE };
    if changed > limit {
        return None;
    }
    let rank: usize = if a.len() != b.len() { 0 } else { 1 };
    Some((rank, changed, b.len() - s))
}

fn edit_of_row(old: &[String], new: &[String], d: i64, i: usize) -> (r: Option<(usize, usize, usize)>)
    requires
        -ANCHOR_SHIFT_MAX <= d <= ANCHOR_SHIFT_MAX,
        i < new@.len(),
    ensures
        r is Some <==> row_edit(old.deep_view(), new.deep_view(), d as int, i as int) is Some,
        r matches Some(e) ==> row_edit(old.deep_view(), new.deep_view(), d as int, i as int) == Some(
            Edit { rank: e.0 as nat, changed: e.1 as nat, kept: e.2 as nat },
        ) && e.2 <= new.deep_view()[i as int].len(),
{
    let b = chars_of(new[i].as_str());
    match counterpart(i, d, old.len()) {
        Some(j) => {
            let a = chars_of(old[j].as_str());
            edit_of(a.as_slice(), b.as_slice())
        },
        None => {
            if d != 0 {
                None
            } else {
                let a: Vec<char> = Vec::new();
                assert(a@ =~= Seq::<char>::empty());
                edit_of(a.as_slice(), b.as_slice())
            }
        },
    }
}

fn distance_of(anchor: Option<(usize, u16)>, i: usize) -> (r: usize)
    ensures
        r == distance(anchor, i as int),
{
    match anchor {
        Some((r, _)) => if i > r { i - r } else { r - i },
        None => usize::MAX,
    }
}

fn moved_by(anchor: Option<(usize, u16)>, d: i64, len: usize) -> (r: Option<(usize, u16)>)
    requires
        -ANCHOR_SHIFT_MAX <= d <= ANCHOR_SHIFT_MAX,
        len > 0,
    ensures
        r == moved(anchor, d as int, len as int),
{
    match anchor {
        Some((r, c)) => {
            let to: usize = if d >= 0 {
                r.saturating_add(d as usize)
            } else {
                r.saturating_sub((-d) as usize)
            };
            Some((if to > len - 1 { len - 1 } else { to }, c))
        },
        None => None,
    }
}

fn same_screens(old: &[String], new: &[String]) -> (r: bool)
    ensures
        r == (old.deep_view() == new.deep_view()),
{
    let ghost a = old.deep_view();
    let ghost b = new.deep_view();
    if old.len() != new.len() {
        assert(a.len() != b.len());
        return false;
    }
    let mut i: usize = 0;
    while i < old.len()
        invariant
            i <= old@.len(),
            old@.len() == new@.len(),
            a == old.deep_view(),
            b == new.deep_view(),
            forall|k: int| 0 <= k < i ==> a[k] == b[k],
        decreases old@.len() - i,
    {
        if old[i] != new[i] {
            assert(a[i as int] != b[i as int]);
            return false;
        }
        i += 1;
    }
    assert(a =~= b);
    true
}

/// Follows the anchor from the screen `old` to the screen `new`: it moves with
/// the content of the screen and goes to the end of the likeliest edit. Too
/// many edits at once are a redraw and are ignored.
pub fn track_anchor_plain(
    old: &[String],
    new: &[String],
    prev: Option<(usize, u16)>,
) -> (r: Option<(usize, u16)>)
    ensures
        r == followed(old.deep_view(), new.deep_view(), prev),
{
    let ghost a = old.deep_view();
    let ghost b = new.deep_view();
    if old.len() == 0 || new.len() == 0 {
        return match heuristic_anchor(new) {
            Some(x) => Some(x),
            None => prev,
        };
    }
    if same_screens(old, new) {
        return prev;
    }
    let d = detect_shift(old, new);
    let anchor = moved_by(prev, d, new.len());
    let long: usize = if old.len() > new.len() { old.len() } else { new.len() };
    let mut count: usize = 0;
    let mut best: Option<(usize, usize)> = None;
    let mut best_rank: usize = 0;
    let mut best_dist: usize = 0;
    let mut best_changed: usize = 0;
    let mut i: usize = 0;
    while i < new.len()
        invariant
            -ANCHOR_SHIFT_MAX <= d <= ANCHOR_SHIFT_MAX,
            i <= new@.len(),
            a == old.deep_view(),
            b == new.deep_view(),
            count <= i,
            count == edit_count(a, b, d as int, i as int),
            match best_edit(a, b, d as int, anchor, i as int) {
                Some(j) => {
                    &&& best matches Some(x)
                    &&& x.0 == j
                    &&& j < i
                    &&& x.1 <= b[j].len()
                    &&& row_edit(a, b, d as int, j) == Some(
                        Edit { rank: best_rank as nat, changed: best_changed as nat, kept: x.1 as nat },
                    )
                    &&& best_dist == distance(anchor, j)
                },
                None => best is None,
            },
        decreases new@.len() - i,
    {
        match edit_of_row(old, new, d, i) {
            Some((rank, changed, kept)) => {
                count += 1;
                let dist = distance_of(anchor, i);
                let better = match best {
                    None => true,
                    Some(_) => rank < best_rank || (rank == best_rank && (dist < best_dist || (dist
                        == best_dist && changed < best_changed))),
                };
                if better {
                    best = Some((i, kept));
                    best_rank = rank;
                    best_dist = dist;
                    best_changed = changed;
                }
            },
            None => (),
        }
        i += 1;
    }
    if long >= 4 && count > long / 2 {
        return anchor;
    }
    match best {
        Some((row, kept)) => {
            let chars = chars_of(new[row].as_str());
            let (head, _tail) = chars.as_slice().split_at(kept);
            assert(head@ =~= b[row as int].take(kept as int));
            let text = string_of(head);
            Some((row, columns_of(text.as_str())))
        },
        None => anchor,
    }
}

/// A screen that does not change keeps its anchor.
pub proof fn law_static_screen(screen: Seq<Seq<char>>, prev: Option<(usize, u16)>)
    requires
        screen.len() > 0,
    ensures
        followed(screen, screen, prev) == prev,
{
}

proof fn lemma_best_edit_range(
    old: Seq<Seq<char>>,
    new: Seq<Seq<char>>,
    d: int,
    anchor: Option<(usize, u16)>,
    n: int,
)
    ensures
        best_edit(old, new, d, anchor, n) matches Some(i) ==> 0 <= i < n && row_edit(
            old,
            new,
            d,
            i,
        ) is Some,
    decreases n,
{
    if n > 0 {
        lemma_best_edit_range(old, new, d, anchor, n - 1);
    }
}

/// An anchor on the old screen is followed to an anchor on the new one.
pub proof fn law_anchor_stays_on_screen(
    old: Seq<Seq<char>>,
    new: Seq<Seq<char>>,
    prev: Option<(usize, u16)>,
)
    requires
        0 < new.len() <= usize::MAX,
        prev matches Some((r, _)) ==> r < old.len(),
    ensures
        followed(old, new, prev) matches Some((r, _)) ==> r < new.len(),
{
    lemma_last_rows(new, new.len() as int);
    match last_text_row(new, new.len() as int) {
        Some(last) => lemma_last_rows(new, last),
        None => (),
    }
    let d = shift(old, new);
    lemma_best_edit_range(old, new, d, moved(prev, d, new.len() as int), new.len() as int);
}

/// The edit that is followed is an edited row, and no edited row is likelier;
/// of those that are as likely it is the first.
pub proof fn law_best_edit_is_likeliest(
    old: Seq<Seq<char>>,
    new: Seq<Seq<char>>,
    d: int,
    anchor: Option<(usize, u16)>,
    n: int,
    j: int,
)
    requires
        0 <= j < n,
        row_edit(old, new, d, j) is Some,
    ensures
        best_edit(old, new, d, anchor, n) matches Some(i) && {
            &&& 0 <= i < n
            &&& row_edit(old, new, d, i) is Some
            &&& !likelier(anchor, row_edit(old, new, d, j)->0, j, row_edit(old, new, d, i)->0, i)
            &&& j < i ==> likelier(
                anchor,
                row_edit(old, new, d, i)->0,
                i,
                row_edit(old, new, d, j)->0,
                j,
            )
        },
    decreases n,
{
    lemma_best_edit_range(old, new, d, anchor, n - 1);
    if j < n - 1 {
        law_best_edit_is_likeliest(old, new, d, anchor, n - 1, j);
    }
}

/// Whether no two rows of a screen hold the same text.
pub open spec fn distinct_rows(rows: Seq<Seq<char>>) -> bool {
    forall|i: int, j: int|
        0 <= i < rows.len() && 0 <= j < rows.len() && i != j ==> #[trigger] rows[i]
            != #[trigger] rows[j]
}

/// Whether `new` is `old` moved down by `d` rows, with rows scrolled in that
/// were not there before.
pub open spec fn scrolled(old: Seq<Seq<char>>, new: Seq<Seq<char>>, d: int) -> bool {
    forall|i: int|
        0 <= i < new.len() ==> if paired(old, d, i) {
            #[trigger] new[i] == old[i - d]
        } else {
            !old.contains(new[i])
        }
}

proof fn lemma_scroll_other_scores(old: Seq<Seq<char>>, new: Seq<Seq<char>>, d: int, c: int, n: int)
    requires
        distinct_rows(old),
        scrolled(old, new, d),
        c != d,
        0 <= n <= new.len(),
    ensures
        same_rows(old, new, c, n) == 0,
    decreases n,
{
    if n > 0 {
        lemma_scroll_other_scores(old, new, d, c, n - 1);
        let i = n - 1;
        if same_row(old, new, c, i) {
            assert(old.contains(old[i - c]));
            assert(new[i] == new[i]);
            assert(old[i - c] == old[i - d]);
        }
    }
}

proof fn lemma_scroll_edits(
    old: Seq<Seq<char>>,
    new: Seq<Seq<char>>,
    d: int,
    anchor: Option<(usize, u16)>,
    n: int,
)
    requires
        forall|i: int| 0 <= i < n ==> row_edit(old, new, d, i) is None,
    ensures
        edit_count(old, new, d, n) == 0,
        best_edit(old, new, d, anchor, n) is None,
    decreases n,
{
    if n > 0 {
        lemma_scroll_edits(old, new, d, anchor, n - 1);
    }
}

/// On a screen that scrolls by up to eight rows, and of which enough stays in
/// sight, the anchor moves with its row. (The rows have to be different: equal
/// rows do not show a move.)
pub proof fn law_scroll_moves_anchor(
    old: Seq<Seq<char>>,
    new: Seq<Seq<char>>,
    d: int,
    prev: Option<(usize, u16)>,
)
    requires
        d != 0,
        -ANCHOR_SHIFT_MAX <= d <= ANCHOR_SHIFT_MAX,
        distinct_rows(old),
        scrolled(old, new, d),
        shift_score(old, new, d) >= shift_floor(old, new),
    ensures
        shift(old, new) == d,
        followed(old, new, prev) == moved(prev, d, new.len() as int),
{
    let k = shift_order(d);
    let e = shift(old, new);
    law_shift_is_best(old, new, k);
    assert(shift_candidate(k) == d);
    lemma_scroll_other_scores(old, new, d, 0, new.len() as int);
    if e != d {
        lemma_scroll_other_scores(old, new, d, e, new.len() as int);
    }
    lemma_same_rows_bound(old, new, d, new.len() as int);
    assert(new.len() > 0);
    if old.len() == 0 {
        lemma_no_rows(old, new, d, new.len() as int);
    }
    if old == new {
        lemma_all_same(old, new, new.len() as int);
    }
    assert forall|i: int| 0 <= i < new.len() implies row_edit(old, new, d, i) is None by {
        assert(new[i] == new[i]);
    }
    lemma_scroll_edits(old, new, d, moved(prev, d, new.len() as int), new.len() as int);
}

proof fn lemma_no_rows(old: Seq<Seq<char>>, new: Seq<Seq<char>>, d: int, n: int)
    requires
        old.len() == 0,
    ensures
        same_rows(old, new, d, n) == 0,
    decreases n,
{
    if n > 0 {
        lemma_no_rows(old, new, d, n - 1);
    }
}

proof fn lemma_all_same(old: Seq<Seq<char>>, new: Seq<Seq<char>>, n: int)
    requires
        old == new,
        0 <= n <= new.len(),
    ensures
        same_rows(old, new, 0, n) == n,
    decreases n,
{
    if n > 0 {
        lemma_all_same(old, new, n - 1);
    }
}

/// Whether two screens differ in row `r` only.
pub open spec fn one_row_differs(old: Seq<Seq<char>>, new: Seq<Seq<char>>, r: int) -> bool {
    &&& old.len() == new.len()
    &&& 0 <= r < new.len()
    &&& old[r] != new[r]
    &&& forall|i: int| 0 <= i < new.len() && i != r ==> #[trigger] old[i] == #[trigger] new[i]
}

proof fn lemma_one_row_score(old: Seq<Seq<char>>, new: Seq<Seq<char>>, r: int, n: int)
    requires
        one_row_differs(old, new, r),
        0 <= n <= new.len(),
    ensures
        same_rows(old, new, 0, n) >= n - 1,
        n <= r ==> same_rows(old, new, 0, n) == n,
    decreases n,
{
    if n > 0 {
        lemma_one_row_score(old, new, r, n - 1);
        assert(n - 1 != r ==> old[n - 1] == new[n - 1]);
    }
}

proof fn lemma_one_row_edits(
    old: Seq<Seq<char>>,
    new: Seq<Seq<char>>,
    r: int,
    anchor: Option<(usize, u16)>,
    n: int,
)
    requires
        one_row_differs(old, new, r),
        0 <= n <= new.len(),
    ensures
        edit_count(old, new, 0, n) <= 1,
        n <= r ==> edit_count(old, new, 0, n) == 0,
        n <= r ==> best_edit(old, new, 0, anchor, n) is None,
        n > r && edit(old[r], new[r]) is Some ==> best_edit(old, new, 0, anchor, n) == Some(r),
        n > r && edit(old[r], new[r]) is None ==> best_edit(old, new, 0, anchor, n) is None,
    decreases n,
{
    if n > 0 {
        lemma_one_row_edits(old, new, r, anchor, n - 1);
        assert(n - 1 != r ==> old[n - 1] == new[n - 1]);
    }
}

/// A screen on which a single row changes has not moved. The anchor goes to the
/// end of the change; if too much of the row changed it stays.
pub proof fn law_one_row_edit(
    old: Seq<Seq<char>>,
    new: Seq<Seq<char>>,
    r: int,
    prev: Option<(usize, u16)>,
)
    requires
        one_row_differs(old, new, r),
    ensures
        shift(old, new) == 0,
        followed(old, new, prev) == match edit(old[r], new[r]) {
            Some(e) => Some((r as usize, columns(new[r].take(e.kept as int)))),
            None => moved(prev, 0, new.len() as int),
        },
{
    let e = shift(old, new);
    law_shift_is_best(old, new, 0);
    lemma_one_row_score(old, new, r, new.len() as int);
    lemma_same_rows_bound(old, new, e, new.len() as int);
    lemma_one_row_edits(old, new, r, moved(prev, 0, new.len() as int), new.len() as int);
}

proof fn lemma_prefix_is(a: Seq<char>, b: Seq<char>, p: int)
    requires
        0 <= p <= a.len(),
        p <= b.len(),
        a.take(p) == b.take(p),
        p == a.len() || p == b.len() || a[p] != b[p],
    ensures
        common_prefix(a, b) == p,
{
    law_common_prefix(a, b);
    let q = common_prefix(a, b) as int;
    if q < p {
        assert(a[q] == a.take(p)[q]);
        assert(b[q] == b.take(p)[q]);
    }
    if q > p {
        assert(a[p] == a.take(q)[p]);
        assert(b[p] == b.take(q)[p]);
    }
}

proof fn lemma_suffix_is(a: Seq<char>, b: Seq<char>, m: int)
    requires
        0 <= m <= a.len(),
        m <= b.len(),
        a.skip(a.len() - m) == b.skip(b.len() - m),
    ensures
        common_suffix(a, b, m) == m,
    decreases m,
{
    if m > 0 {
        let x = a.drop_last();
        let y = b.drop_last();
        assert(a.last() == a.skip(a.len() - m)[m - 1]);
        assert(b.last() == b.skip(b.len() - m)[m - 1]);
        assert(x.skip(x.len() - (m - 1)) =~= a.skip(a.len() - m).drop_last());
        assert(y.skip(y.len() - (m - 1)) =~= b.skip(b.len() - m).drop_last());
        lemma_suffix_is(x, y, m - 1);
    }
}

/// Text that is typed into a row draws the anchor right behind it. (Its first
/// character has to differ from the one that it pushes aside: which of two
/// equal characters was typed cannot be seen.)
pub proof fn law_typed_text_draws_anchor(
    old: Seq<Seq<char>>,
    new: Seq<Seq<char>>,
    r: int,
    p: int,
    typed: Seq<char>,
    prev: Option<(usize, u16)>,
)
    requires
        one_row_differs(old, new, r),
        0 <= p <= old[r].len(),
        new[r] == old[r].take(p) + typed + old[r].skip(p),
        0 < typed.len() <= edit_limit(new[r].len()),
        p == old[r].len() || typed[0] != old[r][p],
    ensures
        followed(old, new, prev) == Some((r as usize, columns(old[r].take(p) + typed))),
{
    let a = old[r];
    let b = new[r];
    assert(a.take(p) =~= b.take(p));
    lemma_prefix_is(a, b, p);
    assert(a.skip(a.len() - (a.len() - p)) =~= b.skip(b.len() - (a.len() - p)));
    lemma_suffix_is(a, b, a.len() - p);
    law_one_row_edit(old, new, r, prev);
    assert(b.take(p + typed.len()) =~= a.take(p) + typed);
}

/// Text that is deleted from a row draws the anchor to where it was. (Its first
/// character has to differ from the one that takes its place.)
pub proof fn law_deleted_text_draws_anchor(
    old: Seq<Seq<char>>,
    new: Seq<Seq<char>>,
    r: int,
    p: int,
    deleted: Seq<char>,
    prev: Option<(usize, u16)>,
)
    requires
        one_row_differs(old, new, r),
        0 <= p <= new[r].len(),
        old[r] == new[r].take(p) + deleted + new[r].skip(p),
        0 < deleted.len() <= edit_limit(old[r].len()),
        p == new[r].len() || deleted[0] != new[r][p],
    ensures
        followed(old, new, prev) == Some((r as usize, columns(new[r].take(p)))),
{
    let a = old[r];
    let b = new[r];
    assert(a.take(p) =~= b.take(p));
    lemma_prefix_is(a, b, p);
    assert(a.skip(a.len() - (b.len() - p)) =~= b.skip(b.len() - (b.len() - p)));
    lemma_suffix_is(a, b, b.len() - p);
    law_one_row_edit(old, new, r, prev);
}

/// How many of the first `n` rows show what stood `d` rows above them before.
pub open spec fn rows_kept(old: Seq<Seq<char>>, new: Seq<Seq<char>>, d: int, n: int) -> int
    decreases n,
{
    if n <= 0 {
        0
    } else if 0 <= n - 1 - d < old.len() && new[n - 1] == old[n - 1 - d] {
        rows_kept(old, new, d, n - 1) + 1
    } else {
        rows_kept(old, new, d, n - 1)
    }
}

/// Whether a screen looks as if it had moved down by `d` rows: more rows are kept
/// than without a move, two at least, and three in five of the shorter screen.
pub open spec fn looks_moved(old: Seq<Seq<char>>, new: Seq<Seq<char>>, d: int) -> bool {
    let kept = rows_kept(old, new, d, new.len() as int);
    let short: int = if old.len() < new.len() { old.len() as int } else { new.len() as int };
    &&& kept > rows_kept(old, new, 0, new.len() as int)
    &&& kept >= 2
    &&& 5 * (kept + 1) > 3 * short
}

/// How far two rows are apart.
pub open spec fn gap(i: int, j: int) -> int {
    if i < j {
        j - i
    } else {
        i - j
    }
}

/// Whether a screen has moved down by `d` rows. It has not moved if no move by up
/// to eight rows explains it. Of the moves that do, the one that keeps most rows
/// counts, then the shortest, then the one downwards.
pub open spec fn moved_down(old: Seq<Seq<char>>, new: Seq<Seq<char>>, d: int) -> bool {
    let n = new.len() as int;
    if d == 0 {
        forall|e: int| -8 <= e <= 8 ==> !#[trigger] looks_moved(old, new, e)
    } else {
        &&& -8 <= d <= 8
        &&& looks_moved(old, new, d)
        &&& forall|e: int|
            -8 <= e <= 8 && e != d && #[trigger] looks_moved(old, new, e) ==> {
                ||| rows_kept(old, new, e, n) < rows_kept(old, new, d, n)
                ||| rows_kept(old, new, e, n) == rows_kept(old, new, d, n) && (gap(e, 0) > gap(d, 0)
                    || gap(e, 0) == gap(d, 0) && d > 0)
            }
    }
}

proof fn lemma_rows_kept(old: Seq<Seq<char>>, new: Seq<Seq<char>>, d: int, n: int)
    ensures
        same_rows(old, new, d, n) == rows_kept(old, new, d, n),
    decreases n,
{
    if n > 0 {
        lemma_rows_kept(old, new, d, n - 1);
    }
}

/// The move that explains a screen is the one that is found, and none is found
/// where none explains it.
pub proof fn law_move_is_found(old: Seq<Seq<char>>, new: Seq<Seq<char>>, d: int)
    requires
        moved_down(old, new, d),
    ensures
        shift(old, new) == d,
{
    let n = new.len() as int;
    let s = shift(old, new);
    lemma_rows_kept(old, new, 0, n);
    lemma_rows_kept(old, new, s, n);
    lemma_rows_kept(old, new, d, n);
    if d == 0 {
        law_shift_is_best(old, new, 0);
        if s != 0 {
            assert(looks_moved(old, new, s));
        }
    } else {
        let k = shift_order(d);
        law_shift_is_best(old, new, k);
        assert(shift_candidate(k) == d);
        if s != 0 && s != d {
            assert(looks_moved(old, new, s));
        }
    }
}

/// What row `i` held before a move down by `d` rows. On a screen that has not
/// moved, a row that was not there before was empty; on one that has, a row that
/// was scrolled in held nothing that it could be compared with.
pub open spec fn before(old: Seq<Seq<char>>, d: int, i: int) -> Option<Seq<char>> {
    if 0 <= i - d < old.len() {
        Some(old[i - d])
    } else if d == 0 {
        Some(Seq::empty())
    } else {
        None
    }
}

/// How many of the first `n` rows do not hold any more what they held before.
pub open spec fn changed_rows(old: Seq<Seq<char>>, new: Seq<Seq<char>>, d: int, n: int) -> int
    decreases n,
{
    if n <= 0 {
        0
    } else {
        changed_rows(old, new, d, n - 1) + match before(old, d, n - 1) {
            Some(t) => if t != new[n - 1] { 1int } else { 0 },
            None => 0,
        }
    }
}

/// Whether no more than half of a screen changed, beside its move. On a screen of
/// fewer than four rows everything may change.
pub open spec fn few_changes(old: Seq<Seq<char>>, new: Seq<Seq<char>>, d: int) -> bool {
    let long: int = if old.len() > new.len() { old.len() as int } else { new.len() as int };
    long < 4 || 2 * changed_rows(old, new, d, new.len() as int) <= long
}

/// Whether row `r` is nearer than row `i` to the anchor, which has moved with the
/// screen and is on it.
pub open spec fn nearer(prev: Option<(usize, u16)>, d: int, len: int, r: int, i: int) -> bool {
    prev matches Some((q, _)) && 0 <= q + d < len && gap(r, q + d) < gap(i, q + d)
}

/// Whether an anchor was carried along by a move of the screen: it is as many rows
/// further down, but not past the first or the last row.
pub open spec fn carried(prev: Option<(usize, u16)>, d: int, len: int, now: Option<(usize, u16)>) -> bool {
    match prev {
        None => now is None,
        Some((q, c)) => {
            &&& now matches Some((x, y))
            &&& y == c
            &&& 0 <= q + d < len ==> x == q + d
            &&& q + d < 0 ==> x == 0
            &&& q + d >= len ==> x == len - 1
        },
    }
}

proof fn lemma_edits_are_changes(old: Seq<Seq<char>>, new: Seq<Seq<char>>, d: int, n: int)
    ensures
        edit_count(old, new, d, n) <= changed_rows(old, new, d, n),
    decreases n,
{
    if n > 0 {
        lemma_edits_are_changes(old, new, d, n - 1);
    }
}

proof fn lemma_screen_changed(old: Seq<Seq<char>>, new: Seq<Seq<char>>, d: int, r: int)
    requires
        moved_down(old, new, d),
        0 <= r < new.len(),
        before(old, d, r) matches Some(t) && t != new[r],
    ensures
        old != new,
{
    if old == new && d != 0 {
        let n = new.len() as int;
        lemma_all_same(old, new, n);
        lemma_rows_kept(old, new, 0, n);
        lemma_rows_kept(old, new, d, n);
        lemma_same_rows_bound(old, new, d, n);
    }
}

proof fn lemma_edit_wins(
    old: Seq<Seq<char>>,
    new: Seq<Seq<char>>,
    d: int,
    r: int,
    prev: Option<(usize, u16)>,
    e: Edit,
)
    requires
        old.len() > 0,
        0 <= r < new.len(),
        moved_down(old, new, d),
        few_changes(old, new, d),
        row_edit(old, new, d, r) == Some(e),
        forall|i: int|
            0 <= i < new.len() && i != r && #[trigger] row_edit(old, new, d, i) is Some ==> likelier(
                moved(prev, d, new.len() as int),
                e,
                r,
                row_edit(old, new, d, i)->0,
                i,
            ),
    ensures
        followed(old, new, prev) == Some((r as usize, columns(new[r].take(e.kept as int)))),
{
    let n = new.len() as int;
    law_move_is_found(old, new, d);
    lemma_screen_changed(old, new, d, r);
    lemma_edits_are_changes(old, new, d, n);
    law_best_edit_is_likeliest(old, new, d, moved(prev, d, n), n, r);
}

proof fn lemma_suffix_ends(a: Seq<char>, b: Seq<char>, max: int, m: int)
    requires
        0 <= m <= max,
        m <= a.len(),
        m <= b.len(),
        a.skip(a.len() - m) == b.skip(b.len() - m),
        m == max || m == a.len() || m == b.len() || a[a.len() - 1 - m] != b[b.len() - 1 - m],
    ensures
        common_suffix(a, b, max) == m,
    decreases m,
{
    if m > 0 {
        let x = a.drop_last();
        let y = b.drop_last();
        assert(a.last() == a.skip(a.len() - m)[m - 1]);
        assert(b.last() == b.skip(b.len() - m)[m - 1]);
        assert(x.skip(x.len() - (m - 1)) =~= a.skip(a.len() - m).drop_last());
        assert(y.skip(y.len() - (m - 1)) =~= b.skip(b.len() - m).drop_last());
        lemma_suffix_ends(x, y, max - 1, m - 1);
    }
}

/// Whether a change of `size` characters is an edit of a row that is `long`
/// characters long, before or after it: up to 16 characters are, and up to a third
/// of the row.
pub open spec fn small_change(size: int, long: int) -> bool {
    size <= 16 || 3 * size <= long
}

proof fn lemma_typed_edit(a: Seq<char>, b: Seq<char>, p: int, typed: Seq<char>)
    requires
        0 <= p <= a.len(),
        b == a.take(p) + typed + a.skip(p),
        0 < typed.len(),
        small_change(typed.len() as int, b.len() as int),
        p == a.len() || typed[0] != a[p],
    ensures
        edit(a, b) == Some(Edit { rank: 0, changed: typed.len(), kept: (p + typed.len()) as nat }),
        b.take(p + typed.len()) == a.take(p) + typed,
{
    assert(a.take(p) =~= b.take(p));
    lemma_prefix_is(a, b, p);
    assert(a.skip(a.len() - (a.len() - p)) =~= b.skip(b.len() - (a.len() - p)));
    lemma_suffix_is(a, b, a.len() - p);
    assert(b.take(p + typed.len()) =~= a.take(p) + typed);
}

proof fn lemma_deleted_edit(a: Seq<char>, b: Seq<char>, p: int, deleted: Seq<char>)
    requires
        0 <= p <= b.len(),
        a == b.take(p) + deleted + b.skip(p),
        0 < deleted.len(),
        small_change(deleted.len() as int, a.len() as int),
        p == b.len() || deleted[0] != b[p],
    ensures
        edit(a, b) == Some(Edit { rank: 0, changed: deleted.len(), kept: p as nat }),
{
    assert(a.take(p) =~= b.take(p));
    lemma_prefix_is(a, b, p);
    assert(a.skip(a.len() - (b.len() - p)) =~= b.skip(b.len() - (b.len() - p)));
    lemma_suffix_is(a, b, b.len() - p);
}

/// Whether `a` turns into `b` by replacing the text `from` behind `x` by `to`. The
/// two texts have to differ at their first and at their last character: what is
/// equal there was not replaced.
pub open spec fn replaced(
    a: Seq<char>,
    b: Seq<char>,
    x: Seq<char>,
    from: Seq<char>,
    to: Seq<char>,
    y: Seq<char>,
) -> bool {
    &&& a == x + from + y
    &&& b == x + to + y
    &&& from.len() > 0
    &&& to.len() > 0
    &&& from[0] != to[0]
    &&& from.last() != to.last()
}

/// The longer of two texts.
pub open spec fn longer(a: Seq<char>, b: Seq<char>) -> int {
    if a.len() > b.len() {
        a.len() as int
    } else {
        b.len() as int
    }
}

proof fn lemma_replaced_edit(
    a: Seq<char>,
    b: Seq<char>,
    x: Seq<char>,
    from: Seq<char>,
    to: Seq<char>,
    y: Seq<char>,
)
    requires
        replaced(a, b, x, from, to, y),
    ensures
        a != b,
        edit(a, b) == if small_change(longer(from, to), longer(a, b)) {
            Some(
                Edit {
                    rank: if from.len() != to.len() { 0 } else { 1 },
                    changed: longer(from, to) as nat,
                    kept: (x.len() + to.len()) as nat,
                },
            )
        } else {
            None
        },
        b.take((x.len() + to.len()) as int) == x + to,
{
    let p = x.len() as int;
    let m = y.len() as int;
    assert(a[p] == from[0]);
    assert(b[p] == to[0]);
    assert(a.take(p) =~= b.take(p));
    lemma_prefix_is(a, b, p);
    assert(a.skip(a.len() - m) =~= b.skip(b.len() - m));
    assert(a[a.len() - 1 - m] == from.last());
    assert(b[b.len() - 1 - m] == to.last());
    lemma_suffix_ends(a, b, room_behind(a, b, p), m);
    assert(b.take((x.len() + to.len()) as int) =~= x + to);
}

/// Whether every other row that changed is a less likely place of the cursor than
/// row `r`, which grew or shrank: the row is as long as it was, or it is farther
/// away from the anchor.
pub open spec fn no_likelier_row(
    old: Seq<Seq<char>>,
    new: Seq<Seq<char>>,
    d: int,
    r: int,
    prev: Option<(usize, u16)>,
) -> bool {
    forall|i: int|
        0 <= i < new.len() && i != r ==> {
            ||| before(old, d, i) is None
            ||| before(old, d, i)->0.len() == #[trigger] new[i].len()
            ||| nearer(prev, d, new.len() as int, r, i)
        }
}

proof fn lemma_other_rows(
    old: Seq<Seq<char>>,
    new: Seq<Seq<char>>,
    d: int,
    r: int,
    prev: Option<(usize, u16)>,
    e: Edit,
)
    requires
        new.len() <= usize::MAX,
        no_likelier_row(old, new, d, r, prev),
        e.rank == 0,
    ensures
        forall|i: int|
            0 <= i < new.len() && i != r && #[trigger] row_edit(old, new, d, i) is Some ==> likelier(
                moved(prev, d, new.len() as int),
                e,
                r,
                row_edit(old, new, d, i)->0,
                i,
            ),
{
    assert forall|i: int|
        0 <= i < new.len() && i != r && #[trigger] row_edit(old, new, d, i) is Some implies likelier(
        moved(prev, d, new.len() as int),
        e,
        r,
        row_edit(old, new, d, i)->0,
        i,
    ) by {
        assert(new[i].len() == new[i].len());
    }
}

/// Text that is typed into a row draws the anchor right behind it, wherever the
/// anchor was and whatever else changed: no more than half of the rows, none of
/// which grew or shrank nearer to the anchor. The screen may have moved meanwhile;
/// with `d == 0` it has not.
pub proof fn law_typed_text_draws_anchor_among_changes(
    old: Seq<Seq<char>>,
    new: Seq<Seq<char>>,
    d: int,
    r: int,
    a: Seq<char>,
    p: int,
    typed: Seq<char>,
    prev: Option<(usize, u16)>,
)
    requires
        old.len() > 0,
        0 <= r < new.len() <= usize::MAX,
        moved_down(old, new, d),
        few_changes(old, new, d),
        before(old, d, r) == Some(a),
        0 <= p <= a.len(),
        new[r] == a.take(p) + typed + a.skip(p),
        0 < typed.len(),
        small_change(typed.len() as int, new[r].len() as int),
        p == a.len() || typed[0] != a[p],
        no_likelier_row(old, new, d, r, prev),
    ensures
        followed(old, new, prev) == Some((r as usize, columns(a.take(p) + typed))),
{
    let e = Edit { rank: 0, changed: typed.len(), kept: (p + typed.len()) as nat };
    lemma_typed_edit(a, new[r], p, typed);
    lemma_other_rows(old, new, d, r, prev, e);
    lemma_edit_wins(old, new, d, r, prev, e);
}

/// Text that is deleted from a row draws the anchor to where it was, under the
/// same conditions.
pub proof fn law_deleted_text_draws_anchor_among_changes(
    old: Seq<Seq<char>>,
    new: Seq<Seq<char>>,
    d: int,
    r: int,
    a: Seq<char>,
    p: int,
    deleted: Seq<char>,
    prev: Option<(usize, u16)>,
)
    requires
        old.len() > 0,
        0 <= r < new.len() <= usize::MAX,
        moved_down(old, new, d),
        few_changes(old, new, d),
        before(old, d, r) == Some(a),
        0 <= p <= new[r].len(),
        a == new[r].take(p) + deleted + new[r].skip(p),
        0 < deleted.len(),
        small_change(deleted.len() as int, a.len() as int),
        p == new[r].len() || deleted[0] != new[r][p],
        no_likelier_row(old, new, d, r, prev),
    ensures
        followed(old, new, prev) == Some((r as usize, columns(new[r].take(p)))),
{
    let e = Edit { rank: 0, changed: deleted.len(), kept: p as nat };
    lemma_deleted_edit(a, new[r], p, deleted);
    lemma_other_rows(old, new, d, r, prev, e);
    lemma_edit_wins(old, new, d, r, prev, e);
}

/// Text that replaces another draws the anchor right behind it. If it is as long
/// as the other, any other row that changed has to be as long as it was and farther
/// away from the anchor: a row that grew or shrank would be likelier.
pub proof fn law_replaced_text_draws_anchor(
    old: Seq<Seq<char>>,
    new: Seq<Seq<char>>,
    d: int,
    r: int,
    a: Seq<char>,
    x: Seq<char>,
    from: Seq<char>,
    to: Seq<char>,
    y: Seq<char>,
    prev: Option<(usize, u16)>,
)
    requires
        old.len() > 0,
        0 <= r < new.len() <= usize::MAX,
        moved_down(old, new, d),
        few_changes(old, new, d),
        before(old, d, r) == Some(a),
        replaced(a, new[r], x, from, to, y),
        small_change(longer(from, to), longer(a, new[r])),
        from.len() != to.len() ==> no_likelier_row(old, new, d, r, prev),
        from.len() == to.len() ==> forall|i: int|
            0 <= i < new.len() && i != r ==> {
                ||| before(old, d, i) is None
                ||| before(old, d, i)->0 == #[trigger] new[i]
                ||| before(old, d, i)->0.len() == new[i].len() && nearer(
                    prev,
                    d,
                    new.len() as int,
                    r,
                    i,
                )
            },
    ensures
        followed(old, new, prev) == Some((r as usize, columns(x + to))),
{
    let e = Edit {
        rank: if from.len() != to.len() { 0 } else { 1 },
        changed: longer(from, to) as nat,
        kept: (x.len() + to.len()) as nat,
    };
    lemma_replaced_edit(a, new[r], x, from, to, y);
    if from.len() != to.len() {
        lemma_other_rows(old, new, d, r, prev, e);
    } else {
        assert forall|i: int|
            0 <= i < new.len() && i != r && #[trigger] row_edit(old, new, d, i) is Some implies likelier(
            moved(prev, d, new.len() as int),
            e,
            r,
            row_edit(old, new, d, i)->0,
            i,
        ) by {
            assert(new[i] == new[i]);
        }
    }
    lemma_edit_wins(old, new, d, r, prev, e);
}

/// Of two texts that are replaced equally far from the anchor, or while there is
/// none, the smaller change draws the anchor; of two equal ones, the upper.
pub proof fn law_smaller_change_draws_anchor(
    old: Seq<Seq<char>>,
    new: Seq<Seq<char>>,
    r: int,
    x: Seq<char>,
    from: Seq<char>,
    to: Seq<char>,
    y: Seq<char>,
    q: int,
    x2: Seq<char>,
    from2: Seq<char>,
    to2: Seq<char>,
    y2: Seq<char>,
    prev: Option<(usize, u16)>,
)
    requires
        4 <= old.len() == new.len() <= usize::MAX,
        0 <= r < new.len(),
        0 <= q < new.len(),
        r != q,
        moved_down(old, new, 0),
        forall|i: int| 0 <= i < new.len() && i != r && i != q ==> #[trigger] new[i] == old[i],
        replaced(old[r], new[r], x, from, to, y),
        replaced(old[q], new[q], x2, from2, to2, y2),
        from.len() == to.len() <= 16,
        from2.len() == to2.len() <= 16,
        prev matches Some((a, _)) ==> a < new.len() && gap(r, a as int) == gap(q, a as int),
        from.len() < from2.len() || from.len() == from2.len() && r < q,
    ensures
        followed(old, new, prev) == Some((r as usize, columns(x + to))),
{
    let n = new.len() as int;
    let anchor = moved(prev, 0, n);
    lemma_replaced_edit(old[r], new[r], x, from, to, y);
    lemma_replaced_edit(old[q], new[q], x2, from2, to2, y2);
    law_move_is_found(old, new, 0);
    lemma_two_changes(old, new, r, q, n);
    lemma_edits_are_changes(old, new, 0, n);
    law_best_edit_is_likeliest(old, new, 0, anchor, n, r);
    law_best_edit_is_likeliest(old, new, 0, anchor, n, q);
    let best = best_edit(old, new, 0, anchor, n)->0;
    if best != r && best != q {
        assert(new[best] == old[best]);
    }
}

proof fn lemma_two_changes(old: Seq<Seq<char>>, new: Seq<Seq<char>>, r: int, q: int, n: int)
    requires
        old.len() == new.len(),
        0 <= n <= new.len(),
        r != q,
        forall|i: int| 0 <= i < new.len() && i != r && i != q ==> #[trigger] new[i] == old[i],
    ensures
        changed_rows(old, new, 0, n) <= (if r < n { 1int } else { 0 }) + (if q < n { 1int } else { 0 }),
    decreases n,
{
    if n > 0 {
        lemma_two_changes(old, new, r, q, n - 1);
        assert(n - 1 != r && n - 1 != q ==> new[n - 1] == old[n - 1]);
    }
}

proof fn lemma_carried(prev: Option<(usize, u16)>, d: int, len: int)
    requires
        0 < len <= usize::MAX,
    ensures
        carried(prev, d, len, moved(prev, d, len)),
{
}

proof fn lemma_short_row_edit(a: Seq<char>, b: Seq<char>)
    requires
        a != b,
        a.len() <= 16,
        b.len() <= 16,
    ensures
        edit(a, b) is Some,
{
    law_common_prefix(a, b);
    let p = common_prefix(a, b) as int;
    let room = room_behind(a, b, p);
    law_common_suffix(a, b, room);
    let s = common_suffix(a, b, room) as int;
    if a.len() == b.len() && p + s == a.len() {
        assert(a =~= a.take(p) + a.skip(a.len() - s));
        assert(b =~= b.take(p) + b.skip(b.len() - s));
    }
}

proof fn lemma_short_rows_edits(old: Seq<Seq<char>>, new: Seq<Seq<char>>, d: int, n: int)
    requires
        0 <= n <= new.len(),
        forall|i: int| 0 <= i < new.len() ==> (#[trigger] new[i]).len() <= 16,
        forall|i: int| 0 <= i < old.len() ==> (#[trigger] old[i]).len() <= 16,
    ensures
        edit_count(old, new, d, n) == changed_rows(old, new, d, n),
    decreases n,
{
    if n > 0 {
        lemma_short_rows_edits(old, new, d, n - 1);
        if let Some(t) = before(old, d, n - 1) {
            assert(new[n - 1].len() <= 16);
            if 0 <= n - 1 - d < old.len() {
                assert(old[n - 1 - d].len() <= 16);
            }
            if t != new[n - 1] {
                lemma_short_row_edit(t, new[n - 1]);
            }
        }
    }
}

/// A screen of four rows or more of which more than half changed was drawn anew:
/// no edit is followed, and the anchor only moves with the screen. (Rows of up to
/// 16 characters: every change of such a row is an edit.)
pub proof fn law_redraw_keeps_anchor(
    old: Seq<Seq<char>>,
    new: Seq<Seq<char>>,
    d: int,
    prev: Option<(usize, u16)>,
)
    requires
        old.len() > 0,
        0 < new.len() <= usize::MAX,
        moved_down(old, new, d),
        !few_changes(old, new, d),
        forall|i: int| 0 <= i < new.len() ==> (#[trigger] new[i]).len() <= 16,
        forall|i: int| 0 <= i < old.len() ==> (#[trigger] old[i]).len() <= 16,
    ensures
        carried(prev, d, new.len() as int, followed(old, new, prev)),
{
    let n = new.len() as int;
    law_move_is_found(old, new, d);
    lemma_short_rows_edits(old, new, d, n);
    lemma_carried(prev, d, n);
    if old == new {
        if d == 0 {
            lemma_nothing_changed(old, n);
        } else {
            lemma_all_same(old, new, n);
            lemma_rows_kept(old, new, 0, n);
            lemma_rows_kept(old, new, d, n);
            lemma_same_rows_bound(old, new, d, n);
        }
    }
}

proof fn lemma_nothing_changed(old: Seq<Seq<char>>, n: int)
    requires
        0 <= n <= old.len(),
    ensures
        changed_rows(old, old, 0, n) == 0,
    decreases n,
{
    if n > 0 {
        lemma_nothing_changed(old, n - 1);
    }
}

/// A change of a row that is too large is no edit: the anchor only moves with the
/// screen.
pub proof fn law_large_change_keeps_anchor(
    old: Seq<Seq<char>>,
    new: Seq<Seq<char>>,
    d: int,
    r: int,
    a: Seq<char>,
    x: Seq<char>,
    from: Seq<char>,
    to: Seq<char>,
    y: Seq<char>,
    prev: Option<(usize, u16)>,
)
    requires
        old.len() > 0,
        0 <= r < new.len() <= usize::MAX,
        moved_down(old, new, d),
        before(old, d, r) == Some(a),
        replaced(a, new[r], x, from, to, y),
        longer(from, to) > 16,
        3 * longer(from, to) > longer(a, new[r]),
        forall|i: int|
            0 <= i < new.len() && i != r ==> before(old, d, i) is None || before(old, d, i)
                == Some(#[trigger] new[i]),
    ensures
        carried(prev, d, new.len() as int, followed(old, new, prev)),
{
    let n = new.len() as int;
    law_move_is_found(old, new, d);
    lemma_replaced_edit(a, new[r], x, from, to, y);
    lemma_screen_changed(old, new, d, r);
    lemma_carried(prev, d, n);
    assert forall|i: int| 0 <= i < n implies row_edit(old, new, d, i) is None by {
        assert(new[i] == new[i]);
    }
    lemma_scroll_edits(old, new, d, moved(prev, d, n), n);
}

proof fn lemma_scroll_kept(old: Seq<Seq<char>>, new: Seq<Seq<char>>, d: int, n: int)
    requires
        0 <= n <= new.len(),
        forall|i: int| 0 <= i < new.len() && 0 <= i - d < old.len() ==> #[trigger] new[i] == old[i - d],
    ensures
        rows_kept(old, new, d, n) == ({
            let first = if d > 0 { d } else { 0 };
            let end = if n < old.len() + d { n } else { old.len() + d };
            if end > first { end - first } else { 0 }
        }),
    decreases n,
{
    if n > 0 {
        lemma_scroll_kept(old, new, d, n - 1);
        assert(new[n - 1] == new[n - 1]);
    }
}

/// A screen that scrolls by up to eight rows carries its anchor along if it keeps
/// two rows at least, and three in five. (The rows have to be different, and those
/// that are scrolled in have to be new: equal rows do not show a move.)
pub proof fn law_scroll_carries_anchor(
    old: Seq<Seq<char>>,
    new: Seq<Seq<char>>,
    d: int,
    prev: Option<(usize, u16)>,
)
    requires
        d != 0,
        -8 <= d <= 8,
        new.len() <= usize::MAX,
        distinct_rows(old),
        forall|i: int|
            0 <= i < new.len() ==> if 0 <= i - d < old.len() {
                #[trigger] new[i] == old[i - d]
            } else {
                !old.contains(new[i])
            },
        ({
            let short: int = if old.len() < new.len() { old.len() as int } else { new.len() as int };
            let first = if d > 0 { d } else { 0 };
            let end = if new.len() < old.len() + d { new.len() as int } else { old.len() + d };
            end - first >= 2 && 5 * (end - first + 1) > 3 * short
        }),
    ensures
        shift(old, new) == d,
        carried(prev, d, new.len() as int, followed(old, new, prev)),
{
    let n = new.len() as int;
    assert forall|i: int| 0 <= i < new.len() implies if paired(old, d, i) {
        #[trigger] new[i] == old[i - d]
    } else {
        !old.contains(new[i])
    } by {}
    assert(scrolled(old, new, d));
    lemma_scroll_kept(old, new, d, n);
    lemma_rows_kept(old, new, d, n);
    law_scroll_moves_anchor(old, new, d, prev);
    lemma_carried(prev, d, n);
}

/// Where there is no screen before, or none now, the anchor is where the text puts
/// it; without text it stays.
pub proof fn law_first_screen(old: Seq<Seq<char>>, new: Seq<Seq<char>>, prev: Option<(usize, u16)>)
    requires
        old.len() == 0 || new.len() == 0,
    ensures
        guessed(new) is Some ==> followed(old, new, prev) == guessed(new),
        guessed(new) is None ==> followed(old, new, prev) == prev,
        new.len() == 0 ==> followed(old, new, prev) == prev,
{
}

/// A screen on which all text is in status lines is guessed by its last text.
pub proof fn law_guess_among_status_lines(plain: Seq<Seq<char>>, i: int)
    requires
        0 <= i < plain.len() <= usize::MAX,
    ensures
        guessed(plain) matches Some((r, _)) ==> status_line(plain[r as int]) && i > r ==> blank(
            plain[i],
        ),
{
    let n = plain.len() as int;
    lemma_last_rows(plain, n);
    lemma_last_rows_are_last(plain, n, i);
    if let Some(last) = last_text_row(plain, n) {
        lemma_last_rows(plain, last);
    }
}

/// The common suffix is the longest that the limit allows.
pub proof fn law_common_suffix_is_longest(a: Seq<char>, b: Seq<char>, max: int)
    requires
        max >= 0,
    ensures
        ({
            let s = common_suffix(a, b, max);
            s < max && s < a.len() && s < b.len() ==> a[a.len() - 1 - s] != b[b.len() - 1 - s]
        }),
    decreases a.len(),
{
    if !(max <= 0 || a.len() == 0 || b.len() == 0 || a.last() != b.last()) {
        law_common_suffix_is_longest(a.drop_last(), b.drop_last(), max - 1);
    }
}

/// A suffix may not reach into the prefix, in neither of the two texts.
pub proof fn law_prefix_and_suffix_do_not_overlap(a: Seq<char>, b: Seq<char>, prefix: int)
    requires
        0 <= prefix,
    ensures
        ({
            let s = common_suffix(a, b, room_behind(a, b, prefix));
            &&& prefix <= a.len() && prefix <= b.len() ==> prefix + s <= a.len() && prefix + s
                <= b.len()
            &&& prefix >= a.len() || prefix >= b.len() ==> s == 0
            &&& prefix + s < a.len() && prefix + s < b.len() ==> a[a.len() - 1 - s] != b[b.len() - 1
                - s]
        }),
{
    let room = room_behind(a, b, prefix);
    law_common_suffix(a, b, room);
    law_common_suffix_is_longest(a, b, room);
}

/// The names of the modes of editors, as their status lines show them.
pub open spec fn mode_names() -> Seq<Seq<char>> {
    seq![
        "nor"@,
        "ins"@,
        "sel"@,
        "nop"@,
        "op"@,
        "normal"@,
        "insert"@,
        "visual"@,
        "select"@,
        "replace"@,
        "v-block"@,
        "v-line"@,
        "vblock"@,
        "vline"@,
    ]
}

proof fn lemma_mode_names(t: Seq<char>)
    ensures
        mode_token(t) <==> mode_names().contains(t),
{
    let names = mode_names();
    assert(names.len() == 14);
    assert(names[0] == "nor"@ && names[1] == "ins"@ && names[2] == "sel"@ && names[3] == "nop"@);
    assert(names[4] == "op"@ && names[5] == "normal"@ && names[6] == "insert"@);
    assert(names[7] == "visual"@ && names[8] == "select"@ && names[9] == "replace"@);
    assert(names[10] == "v-block"@ && names[11] == "v-line"@ && names[12] == "vblock"@);
    assert(names[13] == "vline"@);
    if names.contains(t) {
        let k = choose|k: int| 0 <= k < names.len() && names[k] == t;
        assert(names[k] == t);
    }
}

/// Whether white space or a bar stands there: what ends a word.
pub open spec fn ends_word(c: char) -> bool {
    white(c) || c == '│' || c == '|'
}

proof fn lemma_trim_window(line: Seq<char>) -> (r: (int, int))
    ensures
        0 <= r.0 <= r.1 <= line.len(),
        trimmed(line) == line.subrange(r.0, r.1),
        forall|k: int| 0 <= k < line.len() && !(r.0 <= k < r.1) ==> white(#[trigger] line[k]),
{
    law_trimmed_end(line);
    let head = trimmed_end(line);
    law_trimmed_start(head);
    let y = head.len() as int;
    let x = y - trimmed_start(head).len();
    assert(trimmed(line) =~= line.subrange(x, y));
    assert forall|k: int| 0 <= k < line.len() && !(x <= k < y) implies white(#[trigger] line[k]) by {
        if k < x {
            assert(line[k] == head[k]);
        }
    }
    (x, y)
}

/// A piece between two ends stays such a piece if only ends are cut away.
proof fn lemma_piece_stays(
    line: Seq<char>,
    x: int,
    y: int,
    n: int,
    m: int,
    end: spec_fn(char) -> bool,
)
    requires
        0 <= x <= y <= line.len(),
        0 <= n < m <= line.len(),
        forall|k: int| 0 <= k < line.len() && !(x <= k < y) ==> end(#[trigger] line[k]),
        forall|k: int| n <= k < m ==> !end(#[trigger] line[k]),
        n == 0 || end(line[n - 1]),
        m == line.len() || end(line[m]),
    ensures
        ({
            let s = line.subrange(x, y);
            &&& x <= n && m <= y
            &&& n == x || end(s[n - x - 1])
            &&& m == y || end(s[m - x])
            &&& forall|k: int| n - x <= k < m - x ==> !end(#[trigger] s[k])
            &&& s.subrange(n - x, m - x) == line.subrange(n, m)
        }),
{
    let s = line.subrange(x, y);
    assert(!end(line[n]));
    assert(!end(line[m - 1]));
    assert(s.subrange(n - x, m - x) =~= line.subrange(n, m));
    assert forall|k: int| n - x <= k < m - x implies !end(#[trigger] s[k]) by {
        assert(s[k] == line[k + x]);
    }
}

/// A word of a row is a word of what trimming leaves of it.
proof fn lemma_word_stays(line: Seq<char>, n: int, m: int) -> (i: int)
    requires
        0 <= n < m <= line.len(),
        forall|k: int| n <= k < m ==> !ends_word(#[trigger] line[k]),
        n == 0 || ends_word(line[n - 1]),
        m == line.len() || ends_word(line[m]),
    ensures
        word_at(trimmed(line), i, i + (m - n)),
        trimmed(line).subrange(i, i + (m - n)) == line.subrange(n, m),
{
    let (x, y) = lemma_trim_window(line);
    let end = |c: char| separator(c);
    assert forall|k: int| n <= k < m implies !end(#[trigger] line[k]) by {
        assert(!ends_word(line[k]));
    }
    lemma_piece_stays(line, x, y, n, m, end);
    let s = trimmed(line);
    assert forall|k: int| n - x <= k < m - x implies !separator(#[trigger] s[k]) by {
        assert(!end(s[k]));
    }
    n - x
}

/// A row in which the name of a mode stands as a word of its own, in capital or
/// small letters, is a status line.
pub proof fn law_mode_name_makes_a_status_line(a: Seq<char>, word: Seq<char>, b: Seq<char>)
    requires
        word.len() > 0,
        forall|i: int| 0 <= i < word.len() ==> !ends_word(#[trigger] word[i]),
        mode_names().contains(lowercase(word)),
        a.len() == 0 || ends_word(a.last()),
        b.len() == 0 || ends_word(b[0]),
    ensures
        status_line(a + word + b),
{
    let line = a + word + b;
    let n = a.len() as int;
    let m = n + word.len();
    assert forall|k: int| n <= k < m implies !ends_word(#[trigger] line[k]) by {
        assert(line[k] == word[k - n]);
    }
    assert(n > 0 ==> line[n - 1] == a.last());
    assert(m < line.len() ==> line[m] == b[0]);
    let i = lemma_word_stays(line, n, m);
    assert(line.subrange(n, m) =~= word);
    assert(mode_token(lowercase(word))) by {
        lemma_mode_names(lowercase(word));
    }
    assert(mode_token(lowercase(trimmed(line).subrange(i, i + (m - n)))));
}

/// A row that is set between dashes is a status line, whatever white space is
/// around it.
pub proof fn law_dashes_make_a_status_line(before: Seq<char>, s: Seq<char>, after: Seq<char>)
    requires
        forall|i: int| 0 <= i < before.len() ==> white(#[trigger] before[i]),
        forall|i: int| 0 <= i < after.len() ==> white(#[trigger] after[i]),
        s.len() >= 2,
        s.take(2) == seq!['-', '-'],
        s.skip(s.len() - 2) == seq!['-', '-'],
    ensures
        status_line(before + s + after),
{
    assert(s[0] == s.take(2)[0] && s[1] == s.take(2)[1]);
    assert(s[s.len() - 2] == s.skip(s.len() - 2)[0] && s[s.len() - 1] == s.skip(s.len() - 2)[1]);
    law_trimmed(before, s, after);
}

/// A row without such a word, and not set between dashes, is no status line.
pub proof fn law_prose_is_no_status_line(line: Seq<char>)
    requires
        forall|i: int, j: int|
            0 <= i <= j <= line.len() && (i == 0 || ends_word(line[i - 1])) && (j == line.len()
                || ends_word(line[j])) ==> !mode_names().contains(
                lowercase(#[trigger] line.subrange(i, j)),
            ),
        ({
            let s = trimmed(line);
            s.len() < 2 || s.take(2) != seq!['-', '-'] || s.skip(s.len() - 2) != seq!['-', '-']
        }),
    ensures
        !status_line(line),
{
    let (x, y) = lemma_trim_window(line);
    let s = trimmed(line);
    if dashed(s) {
        assert(s.take(2) =~= seq!['-', '-']);
        assert(s.skip(s.len() - 2) =~= seq!['-', '-']);
    }
    assert forall|i: int, j: int| word_at(s, i, j) implies !mode_token(
        lowercase(#[trigger] s.subrange(i, j)),
    ) by {
        assert(s.subrange(i, j) =~= line.subrange(x + i, x + j));
        lemma_mode_names(lowercase(s.subrange(i, j)));
        if x + i > 0 {
            if i > 0 {
                assert(s[i - 1] == line[x + i - 1]);
            } else {
                assert(white(line[x - 1]));
            }
        }
        if x + j < line.len() {
            if j < s.len() {
                assert(s[j] == line[x + j]);
            } else {
                assert(white(line[y]));
            }
        }
    }
}

} // verus!

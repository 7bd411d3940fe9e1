//! Display widths in terminal cells, and splitting text at a width.

use vstd::prelude::*;

use crate::text::{chars_of, string_of};

verus! {

/// The number of cells that `unicode_width` gives a character, `None` for a
/// control character.
pub uninterp spec fn char_width(c: char) -> Option<usize>;

/// The number of cells that `unicode_width` gives a whole string.
pub uninterp spec fn str_width(s: Seq<char>) -> usize;

/// `unicode_width::UnicodeWidthChar::width`, a table lookup on the character
/// alone: its result is named `char_width`.
#[verifier::external_body]
fn width_of_char(c: char) -> (r: Option<usize>)
    ensures
        r == char_width(c),
{
    unicode_width::UnicodeWidthChar::width(c)
}

/// `unicode_width::UnicodeWidthStr::width`, a function of the characters of the
/// string alone: its result is named `str_width`. It is not the sum of the
/// widths of the characters: some sequences are narrower or wider.
#[verifier::external_body]
pub(crate) fn width_of_str(s: &str) -> (r: usize)
    ensures
        r == str_width(s@),
{
    unicode_width::UnicodeWidthStr::width(s)
}

/// The cells of one character; a control character takes none.
pub open spec fn cell(c: char) -> nat {
    match char_width(c) {
        Some(w) => (w as u16) as nat,
        None => 0,
    }
}

/// The cells of a text, character by character.
pub open spec fn cells(s: Seq<char>) -> nat
    decreases s.len(),
{
    if s.len() == 0 {
        0
    } else {
        cells(s.drop_last()) + cell(s.last())
    }
}

/// The width of a text as a column count.
pub open spec fn columns(s: Seq<char>) -> u16 {
    str_width(s) as u16
}

/// How many leading characters come before column `off`: the shortest prefix
/// that takes `off` cells or more, or the whole text if there is none.
pub open spec fn split_index(s: Seq<char>, off: int) -> nat
    decreases s.len(),
{
    if s.len() == 0 || off <= 0 {
        0
    } else {
        1 + split_index(s.skip(1), off - cell(s[0]))
    }
}

/// How many leading characters fit into `off` cells: the prefix ends as soon as
/// it takes exactly `off` cells, and before a character that would exceed them.
pub open spec fn split_exact_index(s: Seq<char>, off: int) -> nat
    decreases s.len(),
{
    if s.len() == 0 || cell(s[0]) > off {
        0
    } else if cell(s[0]) == off {
        1
    } else {
        1 + split_exact_index(s.skip(1), off - cell(s[0]))
    }
}

/// The cells of a character.
fn cell_of(c: char) -> (r: u16)
    ensures
        r == cell(c),
{
    match width_of_char(c) {
        Some(w) => w as u16,
        None => 0,
    }
}

/// The width of a text as a column count.
pub fn columns_of(s: &str) -> (r: u16)
    ensures
        r == columns(s@),
{
    width_of_str(s) as u16
}

proof fn lemma_cells_push(s: Seq<char>, c: char)
    ensures
        cells(s.push(c)) == cells(s) + cell(c),
{
    assert(s.push(c).drop_last() =~= s);
}

/// The cells of two texts in a row add up.
pub proof fn law_cells_add(a: Seq<char>, b: Seq<char>)
    ensures
        cells(a + b) == cells(a) + cells(b),
    decreases b.len(),
{
    if b.len() == 0 {
        assert(a + b =~= a);
    } else {
        law_cells_add(a, b.drop_last());
        assert((a + b).drop_last() =~= a + b.drop_last());
    }
}

/// Splitting at a column takes the shortest prefix that reaches it: every
/// shorter prefix takes fewer than `off` cells, and the prefix itself takes
/// `off` cells or more unless it is the whole text.
pub proof fn law_split_index(s: Seq<char>, off: int)
    ensures
        split_index(s, off) <= s.len(),
        forall|j: int| 0 <= j < split_index(s, off) ==> cells(#[trigger] s.take(j)) < off,
        split_index(s, off) < s.len() ==> cells(s.take(split_index(s, off) as int)) >= off,
    decreases s.len(),
{
    let k = split_index(s, off);
    if s.len() == 0 || off <= 0 {
        assert(s.take(0) =~= Seq::<char>::empty());
    } else {
        let rest = s.skip(1);
        law_split_index(rest, off - cell(s[0]));
        assert forall|j: int| 0 <= j < k implies cells(#[trigger] s.take(j)) < off by {
            if j == 0 {
                assert(s.take(0) =~= Seq::<char>::empty());
            } else {
                lemma_cells_first(s, j);
                assert(cells(rest.take(j - 1)) < off - cell(s[0]));
            }
        }
        if k < s.len() {
            lemma_cells_first(s, k as int);
        }
    }
}

/// Splitting to fit never takes more than there is.
pub proof fn law_split_exact_len(s: Seq<char>, off: int)
    ensures
        split_exact_index(s, off) <= s.len(),
    decreases s.len(),
{
    if s.len() > 0 && cell(s[0]) < off {
        law_split_exact_len(s.skip(1), off - cell(s[0]));
    }
}

/// Splitting to fit takes a prefix that fits, and the character after it, if
/// there is one and the prefix is narrower than `off`, would not fit any more.
pub proof fn law_split_exact_index(s: Seq<char>, off: int)
    requires
        off >= 0,
    ensures
        split_exact_index(s, off) <= s.len(),
        cells(s.take(split_exact_index(s, off) as int)) <= off,
        split_exact_index(s, off) < s.len() ==> {
            ||| cells(s.take(split_exact_index(s, off) as int)) == off
            ||| cells(s.take(split_exact_index(s, off) as int + 1)) > off
        },
    decreases s.len(),
{
    let k = split_exact_index(s, off);
    if s.len() == 0 {
        assert(s.take(0) =~= Seq::<char>::empty());
    } else {
        lemma_cells_first(s, 1);
        assert(s.skip(1).take(0) =~= Seq::<char>::empty());
        assert(s.take(0) =~= Seq::<char>::empty());
        if cell(s[0]) < off {
            law_split_exact_index(s.skip(1), off - cell(s[0]));
            lemma_cells_first(s, k as int);
            if k < s.len() {
                lemma_cells_first(s, k as int + 1);
            }
        }
    }
}

proof fn lemma_cells_first(s: Seq<char>, k: int)
    requires
        1 <= k <= s.len(),
    ensures
        cells(s.take(k)) == cell(s[0]) + cells(s.skip(1).take(k - 1)),
{
    let first = seq![s[0]];
    assert(s.take(k) =~= first + s.skip(1).take(k - 1));
    law_cells_add(first, s.skip(1).take(k - 1));
    assert(first =~= Seq::<char>::empty().push(s[0]));
    lemma_cells_push(Seq::<char>::empty(), s[0]);
}

/// Where `chars` splits at column `off`.
pub(crate) fn split_point(chars: &[char], off: u16) -> (r: usize)
    ensures
        r == split_index(chars@, off as int),
        r <= chars@.len(),
{
    let mut used: u32 = 0;
    let mut i: usize = 0;
    assert(chars@.skip(0) =~= chars@);
    while i < chars.len()
        invariant
            i <= chars@.len(),
            split_index(chars@, off as int) == i + split_index(chars@.skip(i as int), off - used),
            used <= off + u16::MAX,
        decreases chars@.len() - i,
    {
        if used >= off as u32 {
            return i;
        }
        let ghost rest = chars@.skip(i as int);
        assert(rest.skip(1) =~= chars@.skip(i + 1));
        used = used + cell_of(chars[i]) as u32;
        i += 1;
    }
    i
}

/// Where `chars` has to split to fit into `off` cells.
pub(crate) fn split_exact_point(chars: &[char], off: u16) -> (r: usize)
    ensures
        r == split_exact_index(chars@, off as int),
        r <= chars@.len(),
{
    let mut used: u32 = 0;
    let mut i: usize = 0;
    assert(chars@.skip(0) =~= chars@);
    while i < chars.len()
        invariant
            i <= chars@.len(),
            split_exact_index(chars@, off as int) == i + split_exact_index(
                chars@.skip(i as int),
                off - used,
            ),
            used <= off,
        decreases chars@.len() - i,
    {
        let ghost rest = chars@.skip(i as int);
        assert(rest.skip(1) =~= chars@.skip(i + 1));
        let w = cell_of(chars[i]) as u32;
        if used + w > off as u32 {
            return i;
        }
        used = used + w;
        i += 1;
        if used == off as u32 {
            return i;
        }
    }
    i
}

/// Splits `s` where column `off` begins: the first part is the shortest prefix
/// that takes `off` cells or more.
pub fn split_at_width(s: &str, off: u16) -> (r: (String, String))
    ensures
        r.0@ == s@.take(split_index(s@, off as int) as int),
        r.1@ == s@.skip(split_index(s@, off as int) as int),
{
    let chars = chars_of(s);
    let k = split_point(chars.as_slice(), off);
    let (head, tail) = chars.as_slice().split_at(k);
    assert(tail@ =~= s@.skip(k as int));
    assert(head@ =~= s@.take(k as int));
    (string_of(head), string_of(tail))
}

/// Splits off the part of `s` that fits into `off` cells.
pub fn split_at_width_exact(s: &str, off: u16) -> (r: (String, String))
    ensures
        r.0@ == s@.take(split_exact_index(s@, off as int) as int),
        r.1@ == s@.skip(split_exact_index(s@, off as int) as int),
{
    let chars = chars_of(s);
    let k = split_exact_point(chars.as_slice(), off);
    let (head, tail) = chars.as_slice().split_at(k);
    assert(tail@ =~= s@.skip(k as int));
    assert(head@ =~= s@.take(k as int));
    (string_of(head), string_of(tail))
}

/// A character takes the cells that its width says, and none if it has no width.
pub proof fn law_cell_is_the_width(c: char)
    ensures
        char_width(c) is None ==> cell(c) == 0,
        char_width(c) matches Some(w) ==> w <= u16::MAX ==> cell(c) == w,
        cells(seq![c]) == cell(c),
        cells(Seq::empty()) == 0,
{
    assert(seq![c].drop_last() =~= Seq::empty());
    assert(cells(Seq::<char>::empty()) == 0);
}

/// The columns of a text are its width, as far as columns can be counted.
pub proof fn law_columns_are_the_width(s: Seq<char>)
    requires
        str_width(s) <= u16::MAX,
    ensures
        columns(s) == str_width(s),
{
}

/// Splitting to fit ends as soon as all cells are taken: no shorter prefix takes
/// as many. It takes one character at least if that fits.
pub proof fn law_split_exact_ends_at_once(s: Seq<char>, off: int, j: int)
    requires
        off >= 0,
    ensures
        0 < j < split_exact_index(s, off) ==> cells(s.take(j)) < off,
        s.len() > 0 && cell(s[0]) <= off ==> split_exact_index(s, off) > 0,
    decreases s.len(),
{
    if s.len() > 0 && cell(s[0]) < off {
        let rest = s.skip(1);
        law_split_exact_ends_at_once(rest, off - cell(s[0]), j - 1);
        law_split_exact_len(s, off);
        if 0 < j < split_exact_index(s, off) {
            lemma_cells_first(s, j);
            if j == 1 {
                assert(rest.take(0) =~= Seq::<char>::empty());
            }
        }
    }
}

} // verus!

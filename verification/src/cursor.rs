//! The shadow cursor: one reversed cell on a screen of styled lines.

use vstd::prelude::*;
use vstd::string::*;

use crate::line::{
    clone_lines, glyphs, law_glyphs_add, law_line_is_its_spans, plain, raw_span, span_glyphs, Line,
    Span, SpanView, Style, StyleView, REVERSED,
};
use crate::text::{chars_of, law_trimmed_end, string_of, trim_end_of, trimmed_end, white};
use crate::width::{
    cells, columns, columns_of, law_cells_add, law_split_index, split_index, split_point,
};
use crate::wrap::{
    lemma_cells_of_some, lemma_measured_piece, measured, no_empty_span, row_columns,
};

verus! {

/// A style with foreground and background swapped.
pub open spec fn reversed(style: StyleView) -> StyleView {
    style.with_modifier(REVERSED)
}

/// The cursor on an empty cell.
pub open spec fn block() -> SpanView {
    SpanView { content: seq![' '], style: reversed(StyleView::plain()) }
}

/// The cursor on an empty cell.
pub fn block_span() -> (r: Span)
    ensures
        r@ == block(),
{
    let mut content = String::new();
    content.push(' ');
    let span = Span::styled(content, Style::new().add_modifier(REVERSED));
    assert(span@.content =~= block().content);
    span
}

/// A span as a row of pieces, none for an empty text.
pub open spec fn piece(content: Seq<char>, style: StyleView) -> Seq<SpanView> {
    if content.len() == 0 {
        Seq::empty()
    } else {
        seq![SpanView { content, style }]
    }
}

/// The character of a span under the cursor, which stands `off` columns into it.
pub open spec fn cover_index(span: SpanView, off: int) -> int {
    split_index(span.content, off) as int
}

/// A span with the character under the cursor reversed.
pub open spec fn covered(span: SpanView, off: int) -> Seq<SpanView> {
    let k = cover_index(span, off);
    piece(span.content.take(k), span.style) + seq![
        SpanView { content: seq![span.content[k]], style: reversed(span.style) },
    ] + piece(span.content.skip(k + 1), span.style)
}

/// How far a column lies behind another one.
pub open spec fn behind(col: int, acc: int) -> int {
    if col > acc {
        col - acc
    } else {
        0
    }
}

/// Whether column `col` falls on a span that begins at column `acc`. A span
/// without columns still counts as one.
pub open spec fn falls_on(span: SpanView, col: int, acc: int) -> bool {
    col < acc + columns(span.content) || col < acc + 1
}

/// The column where the next span begins; columns are counted up to a limit.
pub open spec fn advance(acc: int, span: SpanView) -> int {
    if acc + columns(span.content) > u16::MAX {
        u16::MAX as int
    } else {
        acc + columns(span.content)
    }
}

/// The spans of a row that begins at column `acc` with the cursor at column
/// `col`: on the character there, or behind the row.
pub open spec fn with_block(line: Seq<SpanView>, col: int, acc: int) -> Seq<SpanView>
    decreases line.len(),
{
    if line.len() == 0 {
        seq![block()]
    } else if falls_on(line[0], col, acc) {
        covered(line[0], behind(col, acc)) + line.skip(1)
    } else {
        seq![line[0]] + with_block(line.skip(1), col, advance(acc, line[0]))
    }
}

/// Whether the span on which the cursor falls, if it falls on one, has a
/// character there. It has none if its text is empty or shows wider than its
/// characters add up to.
pub open spec fn block_lands(line: Seq<SpanView>, col: int, acc: int) -> bool
    decreases line.len(),
{
    if line.len() == 0 {
        true
    } else if falls_on(line[0], col, acc) {
        cover_index(line[0], behind(col, acc)) < line[0].content.len()
    } else {
        block_lands(line.skip(1), col, advance(acc, line[0]))
    }
}

fn falls(span: &Span, col: u16, acc: u16) -> (r: (bool, u16))
    ensures
        r.0 == falls_on(span@, col as int, acc as int),
        r.1 == advance(acc as int, span@),
{
    let w = columns_of(span.content.as_str());
    let one: u32 = if w == 0 { 1 } else { w as u32 };
    ((col as u32) < acc as u32 + one, acc.saturating_add(w))
}

/// Pushes a span of `chars` in `style`, if there are any characters.
fn push_piece(out: &mut Vec<Span>, chars: &[char], style: &Style)
    ensures
        final(out).deep_view() == old(out).deep_view() + piece(chars@, style@),
{
    if chars.len() > 0 {
        out.push(Span::styled(string_of(chars), style.clone()));
        assert(out.deep_view() =~= old(out).deep_view() + piece(chars@, style@));
    } else {
        assert(out.deep_view() =~= old(out).deep_view() + piece(chars@, style@));
    }
}

/// Whether the cursor at column `col` of `line` lands on a character or behind
/// the line.
pub fn lands(line: &Line, col: u16) -> (r: bool)
    ensures
        r == block_lands(line@, col as int, 0),
{
    let mut acc: u16 = 0;
    let mut i: usize = 0;
    assert(line@.skip(0) =~= line@);
    while i < line.spans.len()
        invariant
            i <= line.spans@.len(),
            line@.len() == line.spans@.len(),
            block_lands(line@, col as int, 0) == block_lands(
                line@.skip(i as int),
                col as int,
                acc as int,
            ),
        decreases line.spans@.len() - i,
    {
        let span = &line.spans[i];
        let (on, next) = falls(span, col, acc);
        assert(line@.skip(i as int)[0] == span@);
        assert(line@.skip(i as int).skip(1) =~= line@.skip(i + 1));
        if on {
            let chars = chars_of(span.content.as_str());
            let k = split_point(chars.as_slice(), col.saturating_sub(acc));
            return k < chars.len();
        }
        acc = next;
        i += 1;
    }
    true
}

/// Puts the cursor at column `col` of `line`: the character there is reversed,
/// or a reversed blank is added behind the line.
pub fn insert_block_span(line: &mut Line, col: u16)
    requires
        block_lands(old(line)@, col as int, 0),
    ensures
        final(line)@ == with_block(old(line)@, col as int, 0),
{
    let ghost whole = line@;
    let mut new: Vec<Span> = Vec::new();
    let mut acc: u16 = 0;
    let mut placed = false;
    let mut i: usize = 0;
    assert(whole.skip(0) =~= whole);
    assert(new.deep_view() + with_block(whole, col as int, 0) =~= with_block(whole, col as int, 0));
    while i < line.spans.len()
        invariant
            i <= line.spans@.len(),
            whole == line@,
            whole.len() == line.spans@.len(),
            !placed ==> {
                &&& with_block(whole, col as int, 0) == new.deep_view() + with_block(
                    whole.skip(i as int),
                    col as int,
                    acc as int,
                )
                &&& block_lands(whole.skip(i as int), col as int, acc as int)
            },
            placed ==> with_block(whole, col as int, 0) == new.deep_view() + whole.skip(i as int),
        decreases line.spans@.len() - i,
    {
        let span = &line.spans[i];
        let ghost before = new.deep_view();
        let ghost rest = whole.skip(i as int);
        assert(rest[0] == span@);
        assert(rest.skip(1) =~= whole.skip(i + 1));
        let (on, next) = falls(span, col, acc);
        if !placed && on {
            let off = col.saturating_sub(acc);
            let chars = chars_of(span.content.as_str());
            let k = split_point(chars.as_slice(), off);
            let (head, tail) = chars.as_slice().split_at(k);
            let (cover, after) = tail.split_at(1);
            push_piece(&mut new, head, &span.style);
            let ghost mid = new.deep_view();
            new.push(Span::styled(string_of(cover), span.style.add_modifier(REVERSED)));
            proof {
                assert(head@ =~= span@.content.take(k as int));
                assert(cover@ =~= seq![span@.content[k as int]]);
                assert(after@ =~= span@.content.skip(k + 1));
                assert(new.deep_view() =~= mid.push(
                    SpanView { content: cover@, style: reversed(span@.style) },
                ));
            }
            push_piece(&mut new, after, &span.style);
            placed = true;
            assert(new.deep_view() =~= before + covered(span@, behind(col as int, acc as int)));
            assert(before + with_block(rest, col as int, acc as int) =~= new.deep_view() + whole.skip(
                i + 1,
            ));
        } else {
            new.push(span.clone());
            assert(new.deep_view() =~= before.push(span@));
            if placed {
                assert(before + rest =~= new.deep_view() + whole.skip(i + 1));
            } else {
                assert(before + with_block(rest, col as int, acc as int) =~= new.deep_view()
                    + with_block(rest.skip(1), col as int, next as int));
            }
        }
        acc = next;
        i += 1;
    }
    assert(whole.skip(i as int) =~= Seq::<SpanView>::empty());
    if !placed {
        let ghost before = new.deep_view();
        new.push(block_span());
        assert(new.deep_view() =~= before + seq![block()]);
    } else {
        assert(new.deep_view() + whole.skip(i as int) =~= new.deep_view());
    }
    line.spans = new;
}

/// Whether a text consists of blanks only.
pub open spec fn all_spaces(s: Seq<char>) -> bool {
    forall|i: int| 0 <= i < s.len() ==> #[trigger] s[i] == ' '
}

/// A row without the spans of blanks at its end.
pub open spec fn without_blank_tail(line: Seq<SpanView>) -> Seq<SpanView>
    decreases line.len(),
{
    if line.len() > 0 && all_spaces(line.last().content) {
        without_blank_tail(line.drop_last())
    } else {
        line
    }
}

/// A row without the white space at its end; an empty row keeps one empty span.
pub open spec fn trimmed_line(line: Seq<SpanView>) -> Seq<SpanView> {
    let kept = without_blank_tail(line);
    if kept.len() == 0 {
        seq![raw_span(Seq::empty())]
    } else {
        kept.drop_last().push(
            SpanView { content: trimmed_end(kept.last().content), style: kept.last().style },
        )
    }
}

fn only_spaces(s: &str) -> (r: bool)
    ensures
        r == all_spaces(s@),
{
    let chars = chars_of(s);
    let mut i: usize = 0;
    while i < chars.len()
        invariant
            i <= chars@.len(),
            chars@ == s@,
            forall|k: int| 0 <= k < i ==> #[trigger] chars@[k] == ' ',
        decreases chars@.len() - i,
    {
        if chars[i] != ' ' {
            assert(s@[i as int] != ' ');
            return false;
        }
        i += 1;
    }
    true
}

/// Removes the white space at the end of `line`: first the spans of blanks,
/// then the white space that ends the span before them.
pub fn trim_trailing_ws(line: &mut Line)
    ensures
        final(line)@ == trimmed_line(old(line)@),
{
    let ghost whole = line@;
    while line.spans.len() > 0 && only_spaces(line.spans[line.spans.len() - 1].content.as_str())
        invariant
            without_blank_tail(line@) == without_blank_tail(whole),
        decreases line.spans@.len(),
    {
        let ghost before = line@;
        line.spans.pop();
        assert(line@ =~= before.drop_last());
    }
    let ghost kept = line@;
    assert(kept == without_blank_tail(whole));
    match line.spans.pop() {
        Some(last) => {
            assert(line@ =~= kept.drop_last());
            let ghost rest = line@;
            let content = trim_end_of(last.content.as_str());
            line.spans.push(Span::styled(content, last.style));
            assert(line@ =~= trimmed_line(whole));
        },
        None => {
            line.spans.push(Span::raw(String::new()));
            assert(line@ =~= trimmed_line(whole));
        },
    }
}

/// A screen with the cursor at column `col` of row `row`. A column at or past
/// the width of the screen wraps to the start of the next row, which is added
/// if need be. Past the end of its row the cursor follows the text.
pub open spec fn placed(
    lines: Seq<Seq<SpanView>>,
    row: int,
    col: int,
    width: int,
) -> Seq<Seq<SpanView>> {
    if col >= width {
        if row + 1 < lines.len() {
            lines.update(row + 1, with_block(lines[row + 1], 0, 0))
        } else {
            lines.push(seq![block()])
        }
    } else if col >= row_columns(lines[row]) {
        lines.update(row, trimmed_line(lines[row]).push(block()))
    } else {
        lines.update(row, with_block(lines[row], col, 0))
    }
}

/// Whether the cursor at column `col` of row `row` lands on a character or on
/// an empty cell.
pub open spec fn place_lands(lines: Seq<Seq<SpanView>>, row: int, col: int, width: int) -> bool {
    if col >= width {
        row + 1 < lines.len() ==> block_lands(lines[row + 1], 0, 0)
    } else {
        col < row_columns(lines[row]) ==> block_lands(lines[row], col, 0)
    }
}

/// A screen with or without the cursor. With the cursor off, an empty screen
/// gets an empty row; with the cursor on, an anchor outside of the screen shows
/// no cursor.
pub open spec fn cursored(
    lines: Seq<Seq<SpanView>>,
    anchor: Option<(usize, u16)>,
    cursor_on: bool,
    width: int,
) -> Seq<Seq<SpanView>> {
    if !cursor_on {
        if lines.len() == 0 {
            seq![Seq::empty()]
        } else {
            lines
        }
    } else {
        match anchor {
            Some((row, col)) => if row < lines.len() {
                placed(lines, row as int, col as int, width)
            } else {
                lines
            },
            None => lines,
        }
    }
}

/// Whether the cursor, if it shows, lands on a character or on an empty cell.
pub open spec fn cursor_lands(
    lines: Seq<Seq<SpanView>>,
    anchor: Option<(usize, u16)>,
    cursor_on: bool,
    width: int,
) -> bool {
    match anchor {
        Some((row, col)) => cursor_on && row < lines.len() ==> place_lands(
            lines,
            row as int,
            col as int,
            width,
        ),
        None => true,
    }
}

/// Whether column `col` lies at or past the end of `line`.
fn past_end(line: &Line, col: u16) -> (r: bool)
    ensures
        r == (col >= row_columns(line@)),
{
    let mut full: u32 = 0;
    let mut i: usize = 0;
    assert(line@.take(0) =~= Seq::<SpanView>::empty());
    while i < line.spans.len()
        invariant
            i <= line.spans@.len(),
            line@.len() == line.spans@.len(),
            full == row_columns(line@.take(i as int)),
            full <= col,
        decreases line.spans@.len() - i,
    {
        let w = columns_of(line.spans[i].content.as_str());
        assert(line@.take(i + 1).drop_last() =~= line@.take(i as int));
        assert(line@.take(i + 1).last() == line.spans@[i as int]@);
        full = full + w as u32;
        i += 1;
        if full > col as u32 {
            proof {
                lemma_row_columns_grow(line@, i as int);
            }
            return false;
        }
    }
    assert(line@.take(i as int) =~= line@);
    true
}

proof fn lemma_row_columns_grow(line: Seq<SpanView>, k: int)
    requires
        0 <= k <= line.len(),
    ensures
        row_columns(line.take(k)) <= row_columns(line),
    decreases line.len(),
{
    if k == line.len() {
        assert(line.take(k) =~= line);
    } else {
        lemma_row_columns_grow(line.drop_last(), k);
        assert(line.drop_last().take(k) =~= line.take(k));
    }
}

/// Puts the cursor on the screen `out` at column `col` of row `row`.
pub fn place_block(out: &mut Vec<Line>, row: usize, col: u16, width: u16)
    requires
        row < old(out)@.len(),
        place_lands(old(out).deep_view(), row as int, col as int, width as int),
    ensures
        final(out).deep_view() == placed(old(out).deep_view(), row as int, col as int, width as int),
{
    let ghost lines = out.deep_view();
    let n = out.len();
    if col >= width {
        if row + 1 < n {
            insert_block_span(&mut out[row + 1], 0);
            assert(out.deep_view() =~= lines.update(row + 1, with_block(lines[row + 1], 0, 0)));
        } else {
            let mut spans: Vec<Span> = Vec::new();
            spans.push(block_span());
            assert(spans.deep_view() =~= seq![block()]);
            out.push(Line { spans });
            assert(out.deep_view() =~= lines.push(seq![block()]));
        }
        return ;
    }
    if past_end(&out[row], col) {
        let mut line = out[row].clone();
        trim_trailing_ws(&mut line);
        let ghost trimmed = line@;
        line.spans.push(block_span());
        assert(line@ =~= trimmed.push(block()));
        out.set(row, line);
        assert(out.deep_view() =~= lines.update(row as int, trimmed.push(block())));
        return ;
    }
    insert_block_span(&mut out[row], col);
    assert(out.deep_view() =~= lines.update(row as int, with_block(lines[row as int], col as int, 0)));
}

/// The screen `lines` with the cursor at `anchor` if it is on.
pub fn with_cursor(
    lines: &[Line],
    anchor: Option<(usize, u16)>,
    cursor_on: bool,
    width: u16,
) -> (r: Vec<Line>)
    requires
        cursor_lands(lines.deep_view(), anchor, cursor_on, width as int),
    ensures
        r.deep_view() == cursored(lines.deep_view(), anchor, cursor_on, width as int),
{
    let mut out = clone_lines(lines);
    if !cursor_on {
        if out.len() == 0 {
            let blank = Line { spans: Vec::new() };
            assert(blank@ =~= Seq::<SpanView>::empty());
            out.push(blank);
            assert(out.deep_view() =~= seq![Seq::<SpanView>::empty()]);
        }
        return out;
    }
    match anchor {
        Some((row, col)) => {
            if row < out.len() {
                place_block(&mut out, row, col, width);
            }
        },
        None => (),
    }
    out
}

/// Whether the cursor, if it shows, lands on a character or on an empty cell.
fn check_lands(lines: &[Line], anchor: Option<(usize, u16)>, cursor_on: bool, width: u16) -> (r: bool)
    ensures
        r == cursor_lands(lines.deep_view(), anchor, cursor_on, width as int),
{
    match anchor {
        Some((row, col)) => {
            if !cursor_on || row >= lines.len() {
                true
            } else if col >= width {
                row + 1 >= lines.len() || lands(&lines[row + 1], 0)
            } else {
                past_end(&lines[row], col) || lands(&lines[row], col)
            }
        },
        None => true,
    }
}

/// As `with_cursor`, for any screen: `None` if the cursor falls on a span that
/// has no character there.
pub fn try_with_cursor(
    lines: &[Line],
    anchor: Option<(usize, u16)>,
    cursor_on: bool,
    width: u16,
) -> (r: Option<Vec<Line>>)
    ensures
        r is Some <==> cursor_lands(lines.deep_view(), anchor, cursor_on, width as int),
        r matches Some(v) ==> v.deep_view() == cursored(
            lines.deep_view(),
            anchor,
            cursor_on,
            width as int,
        ),
{
    if check_lands(lines, anchor, cursor_on, width) {
        Some(with_cursor(lines, anchor, cursor_on, width))
    } else {
        None
    }
}

/// Where among the glyphs of a row the cursor lies, `None` behind the row.
pub open spec fn block_glyph(line: Seq<SpanView>, col: int, acc: int) -> Option<int>
    decreases line.len(),
{
    if line.len() == 0 {
        None
    } else if falls_on(line[0], col, acc) {
        Some(cover_index(line[0], behind(col, acc)))
    } else {
        match block_glyph(line.skip(1), col, advance(acc, line[0])) {
            Some(i) => Some(line[0].content.len() + i),
            None => None,
        }
    }
}

/// A glyph under the cursor.
pub open spec fn under_cursor(g: (char, StyleView)) -> (char, StyleView) {
    (g.0, reversed(g.1))
}

proof fn lemma_glyphs_first(line: Seq<SpanView>)
    requires
        line.len() > 0,
    ensures
        glyphs(line) == span_glyphs(line[0]) + glyphs(line.skip(1)),
{
    let first = seq![line[0]];
    assert(line =~= first + line.skip(1));
    law_glyphs_add(first, line.skip(1));
    assert(first.drop_last() =~= Seq::<SpanView>::empty());
    assert(glyphs(first.drop_last()) =~= Seq::empty());
    assert(glyphs(first) =~= span_glyphs(line[0]));
}

proof fn lemma_glyphs_piece(content: Seq<char>, style: StyleView)
    ensures
        glyphs(piece(content, style)) == span_glyphs(SpanView { content, style }),
{
    let span = SpanView { content, style };
    if content.len() == 0 {
        assert(span_glyphs(span) =~= Seq::empty());
    } else {
        lemma_glyphs_first(seq![span]);
        assert(seq![span].skip(1) =~= Seq::empty());
        assert(glyphs(seq![span]) =~= span_glyphs(span));
    }
}

proof fn lemma_glyphs_covered(span: SpanView, off: int)
    requires
        cover_index(span, off) < span.content.len(),
    ensures
        glyphs(covered(span, off)) == span_glyphs(span).update(
            cover_index(span, off),
            under_cursor(span_glyphs(span)[cover_index(span, off)]),
        ),
{
    let k = cover_index(span, off);
    let a = piece(span.content.take(k), span.style);
    let m = SpanView { content: seq![span.content[k]], style: reversed(span.style) };
    let z = piece(span.content.skip(k + 1), span.style);
    lemma_glyphs_piece(span.content.take(k), span.style);
    lemma_glyphs_piece(seq![span.content[k]], reversed(span.style));
    lemma_glyphs_piece(span.content.skip(k + 1), span.style);
    law_glyphs_add(a, seq![m]);
    law_glyphs_add(a + seq![m], z);
    assert(glyphs(covered(span, off)) =~= span_glyphs(span).update(
        k,
        under_cursor(span_glyphs(span)[k]),
    ));
}

/// The cursor changes nothing but the style of the one character it lies on,
/// which is reversed; behind a row it adds a reversed blank.
pub proof fn law_with_block_glyphs(line: Seq<SpanView>, col: int, acc: int)
    requires
        block_lands(line, col, acc),
    ensures
        match block_glyph(line, col, acc) {
            Some(i) => {
                &&& 0 <= i < glyphs(line).len()
                &&& glyphs(with_block(line, col, acc)) == glyphs(line).update(
                    i,
                    under_cursor(glyphs(line)[i]),
                )
            },
            None => glyphs(with_block(line, col, acc)) == glyphs(line).push(
                (' ', reversed(StyleView::plain())),
            ),
        },
    decreases line.len(),
{
    if line.len() == 0 {
        lemma_glyphs_piece(seq![' '], reversed(StyleView::plain()));
        assert(glyphs(with_block(line, col, acc)) =~= glyphs(line).push(
            (' ', reversed(StyleView::plain())),
        ));
    } else if falls_on(line[0], col, acc) {
        let off = behind(col, acc);
        lemma_glyphs_first(line);
        lemma_glyphs_covered(line[0], off);
        law_glyphs_add(covered(line[0], off), line.skip(1));
        assert(glyphs(with_block(line, col, acc)) =~= glyphs(line).update(
            cover_index(line[0], off),
            under_cursor(glyphs(line)[cover_index(line[0], off)]),
        ));
    } else {
        let rest = line.skip(1);
        let next = advance(acc, line[0]);
        law_with_block_glyphs(rest, col, next);
        lemma_glyphs_first(line);
        let new = seq![line[0]] + with_block(rest, col, next);
        lemma_glyphs_first(new);
        assert(new.skip(1) =~= with_block(rest, col, next));
        match block_glyph(rest, col, next) {
            Some(i) => {
                let j = line[0].content.len() + i;
                assert(glyphs(new) =~= glyphs(line).update(j, under_cursor(glyphs(line)[j])));
            },
            None => {
                assert(glyphs(new) =~= glyphs(line).push((' ', reversed(StyleView::plain()))));
            },
        }
    }
}

/// Whether some character of a row is shown reversed.
pub open spec fn shows_reversed(line: Seq<SpanView>) -> bool {
    exists|i: int|
        0 <= i < glyphs(line).len() && (#[trigger] glyphs(line)[i]).1.add_modifier & REVERSED
            == REVERSED
}

/// A cursor that is on and whose anchor lies on the screen is visible: some row
/// shows a reversed character.
pub proof fn law_cursor_is_visible(
    lines: Seq<Seq<SpanView>>,
    anchor: (usize, u16),
    width: int,
) -> (row: int)
    requires
        anchor.0 < lines.len(),
        cursor_lands(lines, Some(anchor), true, width),
    ensures
        0 <= row < cursored(lines, Some(anchor), true, width).len(),
        shows_reversed(cursored(lines, Some(anchor), true, width)[row]),
{
    let shown = cursored(lines, Some(anchor), true, width);
    let at = anchor.0 as int;
    let col = anchor.1 as int;
    lemma_reversed_bit();
    if col >= width {
        if at + 1 < lines.len() {
            lemma_with_block_visible(lines[at + 1], 0);
            at + 1
        } else {
            lemma_glyphs_first(seq![block()]);
            assert(glyphs(shown[at + 1])[0] == (' ', reversed(StyleView::plain())));
            at + 1
        }
    } else if col >= row_columns(lines[at]) {
        let row = shown[at];
        let n = trimmed_line(lines[at]);
        assert(row.drop_last() =~= n);
        assert(glyphs(row)[glyphs(n).len() as int] == (' ', reversed(StyleView::plain())));
        at
    } else {
        lemma_with_block_visible(lines[at], col);
        at
    }
}

proof fn lemma_reversed_bit()
    ensures
        forall|x: u16| #[trigger] (x | REVERSED) & REVERSED == REVERSED,
{
    assert(forall|x: u16| #[trigger] (x | 0b0100_0000u16) & 0b0100_0000u16 == 0b0100_0000u16)
        by (bit_vector);
}

proof fn lemma_with_block_visible(line: Seq<SpanView>, col: int)
    requires
        block_lands(line, col, 0),
    ensures
        shows_reversed(with_block(line, col, 0)),
{
    lemma_reversed_bit();
    law_with_block_glyphs(line, col, 0);
    let new = glyphs(with_block(line, col, 0));
    match block_glyph(line, col, 0) {
        Some(i) => {
            assert(new[i].1.add_modifier == glyphs(line)[i].1.add_modifier | REVERSED);
        },
        None => {
            assert(new[new.len() - 1] == (' ', reversed(StyleView::plain())));
        },
    }
}

/// The cursor touches one row at most: all other rows stay as they are, and at
/// most one row is added.
pub proof fn law_cursor_keeps_other_rows(
    lines: Seq<Seq<SpanView>>,
    row: int,
    col: int,
    width: int,
    other: int,
)
    requires
        0 <= row < lines.len(),
        0 <= other < lines.len(),
        other != (if col >= width { row + 1 } else { row }),
    ensures
        placed(lines, row, col, width)[other] == lines[other],
        lines.len() <= placed(lines, row, col, width).len() <= lines.len() + 1,
{
}

/// The reversed style of a style differs in the one modifier only.
pub proof fn law_reversed(style: StyleView)
    ensures
        reversed(style) == style.with_modifier(0b0100_0000),
        reversed(StyleView::plain()) == (StyleView {
            fg: None,
            bg: None,
            underline_color: None,
            add_modifier: 0b0100_0000,
            sub_modifier: 0,
        }),
        block().content == seq![' '],
        block().style == reversed(StyleView::plain()),
{
    assert(0u16 | 0b0100_0000u16 == 0b0100_0000u16) by (bit_vector);
    assert(0u16 & !0b0100_0000u16 == 0u16) by (bit_vector);
}

/// Trimming a row takes away nothing but white space at its end: its glyphs are
/// the first ones of the row, and all behind them are white space.
pub proof fn law_trimmed_line_keeps_the_text(line: Seq<SpanView>)
    ensures
        ({
            let k = glyphs(trimmed_line(line)).len() as int;
            &&& k <= glyphs(line).len()
            &&& glyphs(trimmed_line(line)) == glyphs(line).take(k)
            &&& forall|i: int| k <= i < glyphs(line).len() ==> white((#[trigger] glyphs(line)[i]).0)
        }),
    decreases line.len(),
{
    let kept = without_blank_tail(line);
    let all = glyphs(line);
    if line.len() > 0 && all_spaces(line.last().content) {
        let init = line.drop_last();
        law_trimmed_line_keeps_the_text(init);
        let k = glyphs(trimmed_line(init)).len() as int;
        assert(trimmed_line(line) == trimmed_line(init));
        assert(all.take(k) =~= glyphs(init).take(k));
        assert forall|i: int| k <= i < all.len() implies white((#[trigger] all[i]).0) by {
            if i < glyphs(init).len() {
                assert(all[i] == glyphs(init)[i]);
            } else {
                let j = i - glyphs(init).len();
                assert(all[i] == span_glyphs(line.last())[j]);
                assert(line.last().content[j] == ' ');
            }
        }
    } else if line.len() == 0 {
        lemma_glyphs_first(seq![raw_span(Seq::empty())]);
        assert(seq![raw_span(Seq::empty())].skip(1) =~= Seq::<SpanView>::empty());
        assert(glyphs(trimmed_line(line)) =~= Seq::empty());
        assert(all.take(0) =~= Seq::empty());
    } else {
        let last = line.last();
        let cut = SpanView { content: trimmed_end(last.content), style: last.style };
        let out = line.drop_last().push(cut);
        law_trimmed_end(last.content);
        assert(out.drop_last() =~= line.drop_last());
        let k = glyphs(out).len() as int;
        let n = glyphs(line.drop_last()).len() as int;
        assert(k == n + cut.content.len());
        assert forall|i: int| 0 <= i < k implies glyphs(out)[i] == #[trigger] all.take(k)[i] by {
            if i >= n {
                assert(cut.content[i - n] == last.content.take(cut.content.len() as int)[i - n]);
            }
        }
        assert(glyphs(out) =~= all.take(k));
        assert forall|i: int| k <= i < all.len() implies white((#[trigger] all[i]).0) by {
            assert(all[i] == span_glyphs(last)[i - n]);
            assert(white(last.content[i - n]));
        }
    }
}

/// Trimming a row takes all of its blank tail away: what is left ends where the
/// text of its last span with text ends.
pub proof fn law_trimmed_line_ends_with_the_text(
    init: Seq<SpanView>,
    text: Seq<char>,
    after: Seq<char>,
    style: StyleView,
    tail: Seq<SpanView>,
)
    requires
        text.len() > 0,
        !white(text.last()),
        forall|i: int| 0 <= i < after.len() ==> white(#[trigger] after[i]),
        forall|i: int, j: int|
            0 <= i < tail.len() && 0 <= j < tail[i].content.len() ==> #[trigger] tail[i].content[j]
                == ' ',
    ensures
        trimmed_line(init.push(SpanView { content: text + after, style }) + tail) == init.push(
            SpanView { content: text, style },
        ),
    decreases tail.len(),
{
    let span = SpanView { content: text + after, style };
    let line = init.push(span) + tail;
    if tail.len() > 0 {
        let fewer = tail.drop_last();
        assert forall|i: int, j: int|
            0 <= i < fewer.len() && 0 <= j < fewer[i].content.len() implies
            #[trigger] fewer[i].content[j] == ' ' by {
            assert(tail[i].content[j] == ' ');
        }
        law_trimmed_line_ends_with_the_text(init, text, after, style, fewer);
        assert(line.drop_last() =~= init.push(span) + fewer);
        let last = tail.last().content;
        assert forall|j: int| 0 <= j < last.len() implies #[trigger] last[j] == ' ' by {
            assert(tail[tail.len() - 1].content[j] == ' ');
        }
        assert(line.last() == tail.last());
    } else {
        assert(line =~= init.push(span));
        let n = text.len() as int;
        assert((text + after)[n - 1] == text.last());
        assert(!white((text + after)[n - 1]));
        assert(!all_spaces(span.content)) by {
            if all_spaces(span.content) {
                assert(span.content[n - 1] == ' ');
            }
        }
        let t = trimmed_end(text + after);
        law_trimmed_end(text + after);
        if t.len() < n {
            assert(white((text + after)[n - 1]));
        }
        if t.len() > n {
            assert(t.last() == (text + after)[t.len() - 1]);
            assert((text + after)[t.len() - 1] == after[t.len() - 1 - n]);
        }
        assert(t =~= text);
        assert(line.drop_last() =~= init);
    }
}

/// With the cursor behind the text of its row, the row shows its text without the
/// white space at the end, then one reversed blank, and nothing else; all other
/// rows stay as they are.
pub proof fn law_cursor_behind_the_text(
    lines: Seq<Seq<SpanView>>,
    row: usize,
    col: u16,
    width: int,
    other: int,
)
    requires
        row < lines.len(),
        col < width,
        col >= row_columns(lines[row as int]),
    ensures
        ({
            let out = cursored(lines, Some((row, col)), true, width);
            let before = glyphs(lines[row as int]);
            let after = glyphs(out[row as int]);
            let k = after.len() - 1;
            &&& out.len() == lines.len()
            &&& 0 <= other < lines.len() && other != row ==> out[other] == lines[other]
            &&& 0 <= k <= before.len()
            &&& after == before.take(k).push((' ', reversed(StyleView::plain())))
            &&& forall|i: int| k <= i < before.len() ==> white((#[trigger] before[i]).0)
        }),
{
    let line = lines[row as int];
    law_trimmed_line_keeps_the_text(line);
    let t = trimmed_line(line);
    law_line_is_its_spans(t, block());
    assert(span_glyphs(block()) =~= seq![(' ', reversed(StyleView::plain()))]);
    let k = glyphs(t).len() as int;
    assert(glyphs(t.push(block())) =~= glyphs(line).take(k).push(
        (' ', reversed(StyleView::plain())),
    ));
}

/// A cursor past the width of the screen is at the start of the next row: its
/// first character is reversed. If there is no next row, a row with one reversed
/// blank is added.
pub proof fn law_cursor_wraps(
    lines: Seq<Seq<SpanView>>,
    row: usize,
    col: u16,
    width: int,
    other: int,
)
    requires
        row < lines.len(),
        col >= width,
        cursor_lands(lines, Some((row, col)), true, width),
    ensures
        ({
            let out = cursored(lines, Some((row, col)), true, width);
            let next = row + 1;
            &&& 0 <= other < lines.len() && other != next ==> out[other] == lines[other]
            &&& next < lines.len() ==> out.len() == lines.len()
            &&& next < lines.len() && glyphs(lines[next]).len() > 0 ==> glyphs(out[next]) == glyphs(
                lines[next],
            ).update(0, (glyphs(lines[next])[0].0, reversed(glyphs(lines[next])[0].1)))
            &&& next < lines.len() && lines[next].len() == 0 ==> glyphs(out[next]) == seq![
                (' ', reversed(StyleView::plain())),
            ]
            &&& next == lines.len() ==> out.len() == next + 1 && glyphs(out[next]) == seq![
                (' ', reversed(StyleView::plain())),
            ]
        }),
{
    let next = row + 1;
    lemma_glyphs_piece(seq![' '], reversed(StyleView::plain()));
    assert(span_glyphs(block()) =~= seq![(' ', reversed(StyleView::plain()))]);
    if next < lines.len() {
        let line = lines[next];
        law_with_block_glyphs(line, 0, 0);
        if line.len() > 0 {
            assert(block_glyph(line, 0, 0) == Some(0int));
        } else {
            assert(glyphs(line) =~= Seq::empty());
        }
    }
}

proof fn lemma_plain_first(line: Seq<SpanView>)
    requires
        line.len() > 0,
    ensures
        plain(line) == line[0].content + plain(line.skip(1)),
    decreases line.len(),
{
    if line.len() == 1 {
        assert(line.drop_last() =~= Seq::empty());
        assert(line.skip(1) =~= Seq::empty());
        assert(plain(line) =~= line[0].content + plain(line.skip(1)));
    } else {
        lemma_plain_first(line.drop_last());
        assert(line.skip(1).drop_last() =~= line.drop_last().skip(1));
        assert(plain(line) =~= line[0].content + plain(line.skip(1)));
    }
}

proof fn lemma_cells_grow(s: Seq<char>, i: int, j: int)
    requires
        measured(s),
        0 <= i < j <= s.len(),
    ensures
        cells(s.take(i)) < cells(s.take(j)),
{
    let mid = s.subrange(i, j);
    assert(s.take(j) =~= s.take(i) + mid);
    law_cells_add(s.take(i), mid);
    lemma_measured_piece(s, i, j);
    lemma_cells_of_some(mid);
}

proof fn lemma_block_at(line: Seq<SpanView>, col: int, acc: int, k: int)
    requires
        measured(plain(line)),
        no_empty_span(line),
        0 <= acc,
        acc + cells(plain(line)) <= u16::MAX,
        0 <= k < plain(line).len(),
        col == acc + cells(plain(line).take(k)),
    ensures
        block_lands(line, col, acc),
        block_glyph(line, col, acc) == Some(k),
    decreases line.len(),
{
    let all = plain(line);
    if line.len() == 0 {
    } else {
        let first = line[0].content;
        let rest = line.skip(1);
        let n = first.len() as int;
        lemma_plain_first(line);
        assert(first =~= all.subrange(0, n));
        assert(plain(rest) =~= all.subrange(n, all.len() as int));
        lemma_measured_piece(all, 0, n);
        lemma_measured_piece(all, n, all.len() as int);
        law_cells_add(first, plain(rest));
        assert(all =~= first + plain(rest));
        assert(line[0].content.len() > 0);
        if k < n {
            assert(all.take(k) =~= first.take(k));
            lemma_cells_grow(first, k, n);
            assert(first.take(n) =~= first);
            let off = col - acc;
            law_split_index(first, off);
            let m = split_index(first, off) as int;
            if k < m {
                assert(cells(first.take(k)) < off);
            }
            if m < k {
                lemma_cells_grow(first, m, k);
            }
            assert(m == k);
        } else {
            let tail = plain(rest).take(k - n);
            assert(all.take(k) =~= first + tail);
            law_cells_add(first, tail);
            lemma_cells_of_some(first);
            assert forall|i: int| 0 <= i < rest.len() implies (#[trigger] rest[i]).content.len()
                > 0 by {
                assert(rest[i] == line[i + 1]);
            }
            lemma_block_at(rest, col, acc + cells(first), k - n);
        }
    }
}

/// A cursor in the middle of its row reverses the one character that begins at
/// its column, and changes nothing else. (Every character has to take a column,
/// the widths have to add up, and no span is empty.)
pub proof fn law_cursor_on_the_text(
    lines: Seq<Seq<SpanView>>,
    row: usize,
    col: u16,
    width: int,
    k: int,
    other: int,
)
    requires
        row < lines.len(),
        col < width,
        measured(plain(lines[row as int])),
        no_empty_span(lines[row as int]),
        row_columns(lines[row as int]) == cells(plain(lines[row as int])) <= u16::MAX,
        0 <= k < plain(lines[row as int]).len(),
        col == cells(plain(lines[row as int]).take(k)),
    ensures
        ({
            let out = cursored(lines, Some((row, col)), true, width);
            let before = glyphs(lines[row as int]);
            &&& cursor_lands(lines, Some((row, col)), true, width)
            &&& out.len() == lines.len()
            &&& 0 <= other < lines.len() && other != row ==> out[other] == lines[other]
            &&& glyphs(out[row as int]) == before.update(k, (before[k].0, reversed(before[k].1)))
        }),
{
    let line = lines[row as int];
    let text = plain(line);
    lemma_block_at(line, col as int, 0, k);
    law_with_block_glyphs(line, col as int, 0);
    lemma_cells_grow(text, k, text.len() as int);
    assert(text.take(text.len() as int) =~= text);
}

/// With the cursor off, or with no place for it on the screen, a screen is shown
/// as it is; only an empty screen with the cursor off gets one empty row.
pub proof fn law_no_cursor_changes_nothing(
    lines: Seq<Seq<SpanView>>,
    anchor: Option<(usize, u16)>,
    width: int,
)
    ensures
        lines.len() > 0 ==> cursored(lines, anchor, false, width) == lines,
        cursored(Seq::empty(), anchor, false, width) == seq![Seq::<SpanView>::empty()],
        cursored(lines, None, true, width) == lines,
        anchor matches Some((row, _)) ==> row >= lines.len() ==> cursored(lines, anchor, true, width)
            == lines,
{
}

/// The cursor always lands behind the text of its row, on a row that begins with
/// text, and on a row that is added; and where no cursor shows, nothing can fail.
pub proof fn law_cursor_lands(lines: Seq<Seq<SpanView>>, row: usize, col: u16, width: int)
    ensures
        cursor_lands(lines, None, true, width),
        cursor_lands(lines, Some((row, col)), false, width),
        row >= lines.len() ==> cursor_lands(lines, Some((row, col)), true, width),
        row < lines.len() && col < width && col >= row_columns(lines[row as int]) ==> cursor_lands(
            lines,
            Some((row, col)),
            true,
            width,
        ),
        row + 1 == lines.len() && col >= width ==> cursor_lands(lines, Some((row, col)), true, width),
        row + 1 < lines.len() && col >= width && (lines[row + 1].len() == 0 || lines[row
            + 1][0].content.len() > 0) ==> cursor_lands(lines, Some((row, col)), true, width),
{
}

} // verus!

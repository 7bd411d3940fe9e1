//! Wrapping styled lines at a column count.

use vstd::prelude::*;
use vstd::string::*;

use crate::line::{
    all_glyphs, glyphs, law_all_glyphs_add, plain, plains, span_glyphs, Line, Span, SpanView, Style,
    StyleView,
};
use crate::text::{chars_of, string_of};
use crate::width::{
    cell, cells, columns, columns_of, law_cells_add, law_split_exact_index, law_split_exact_len,
    split_exact_index, split_exact_point,
};

verus! {

/// Rows that are full, the row that is being filled, and how many of its
/// columns are taken.
#[verifier::ext_equal]
pub struct Wrap {
    pub rows: Seq<Seq<SpanView>>,
    pub cur: Seq<SpanView>,
    pub used: int,
}

/// How many characters of `rest` go on a row with `room` columns left: those
/// that fit. On a row with nothing on it, it is at least one.
pub open spec fn head_len(rest: Seq<char>, room: int) -> nat {
    if split_exact_index(rest, room) == 0 {
        1
    } else {
        split_exact_index(rest, room)
    }
}

/// Lays the text of one span out: it stays whole if it fits on the current row;
/// otherwise the head that fits ends the row and the tail goes on below. If not
/// even one character fits, the row ends before the text, and a character that
/// is wider than a whole row gets a row of its own.
pub open spec fn wrap_text(w: Wrap, rest: Seq<char>, style: StyleView, width: int) -> Wrap
    decreases rest.len(), w.used,
{
    if rest.len() == 0 {
        w
    } else if w.used + columns(rest) <= width {
        Wrap {
            rows: w.rows,
            cur: w.cur.push(SpanView { content: rest, style }),
            used: w.used + columns(rest),
        }
    } else if w.used > 0 && split_exact_index(rest, width - w.used) == 0 {
        wrap_text(
            Wrap { rows: w.rows.push(w.cur), cur: Seq::empty(), used: 0 },
            rest,
            style,
            width,
        )
    } else {
        let k = head_len(rest, width - w.used);
        let row = w.cur.push(SpanView { content: rest.take(k as int), style });
        proof {
            law_split_exact_len(rest, width - w.used);
        }
        wrap_text(
            Wrap { rows: w.rows.push(row), cur: Seq::empty(), used: 0 },
            rest.skip(k as int),
            style,
            width,
        )
    }
}

/// Lays the spans of one line out, one after the other.
pub open spec fn wrap_spans(w: Wrap, spans: Seq<SpanView>, width: int) -> Wrap
    decreases spans.len(),
{
    if spans.len() == 0 {
        w
    } else {
        wrap_text(
            wrap_spans(w, spans.drop_last(), width),
            spans.last().content,
            spans.last().style,
            width,
        )
    }
}

/// The rows of one line: a line ends its last row, which may be empty.
pub open spec fn wrap_line(line: Seq<SpanView>, width: int) -> Seq<Seq<SpanView>> {
    let w = wrap_spans(Wrap { rows: Seq::empty(), cur: Seq::empty(), used: 0 }, line, width);
    w.rows.push(w.cur)
}

/// The rows of all lines.
pub open spec fn wrap_rows(lines: Seq<Seq<SpanView>>, width: int) -> Seq<Seq<SpanView>>
    decreases lines.len(),
{
    if lines.len() == 0 {
        Seq::empty()
    } else {
        wrap_rows(lines.drop_last(), width) + wrap_line(lines.last(), width)
    }
}

/// The lines as they show at `width` columns; no width leaves them alone.
pub open spec fn wrapped(lines: Seq<Seq<SpanView>>, width: int) -> Seq<Seq<SpanView>> {
    if width == 0 {
        lines
    } else {
        wrap_rows(lines, width)
    }
}

/// Rows that come before do not change how a text is laid out.
proof fn lemma_wrap_text_rows(
    before: Seq<Seq<SpanView>>,
    w: Wrap,
    rest: Seq<char>,
    style: StyleView,
    width: int,
)
    ensures
        wrap_text(Wrap { rows: before + w.rows, ..w }, rest, style, width) == (Wrap {
            rows: before + wrap_text(w, rest, style, width).rows,
            ..wrap_text(w, rest, style, width)
        }),
    decreases rest.len(), w.used,
{
    if rest.len() == 0 || w.used + columns(rest) <= width {
    } else if w.used > 0 && split_exact_index(rest, width - w.used) == 0 {
        let next = Wrap { rows: w.rows.push(w.cur), cur: Seq::empty(), used: 0 };
        lemma_wrap_text_rows(before, next, rest, style, width);
        assert((before + w.rows).push(w.cur) =~= before + next.rows);
    } else {
        let k = head_len(rest, width - w.used);
        let row = w.cur.push(SpanView { content: rest.take(k as int), style });
        let next = Wrap { rows: w.rows.push(row), cur: Seq::empty(), used: 0 };
        law_split_exact_len(rest, width - w.used);
        lemma_wrap_text_rows(before, next, rest.skip(k as int), style, width);
        assert((before + w.rows).push(row) =~= before + next.rows);
    }
}

proof fn lemma_wrap_spans_rows(before: Seq<Seq<SpanView>>, w: Wrap, spans: Seq<SpanView>, width: int)
    ensures
        wrap_spans(Wrap { rows: before + w.rows, ..w }, spans, width) == (Wrap {
            rows: before + wrap_spans(w, spans, width).rows,
            ..wrap_spans(w, spans, width)
        }),
    decreases spans.len(),
{
    if spans.len() > 0 {
        lemma_wrap_spans_rows(before, w, spans.drop_last(), width);
        lemma_wrap_text_rows(
            before,
            wrap_spans(w, spans.drop_last(), width),
            spans.last().content,
            spans.last().style,
            width,
        );
    }
}

/// Lays `content` out after `out` and `cur`.
fn lay_text(
    out: &mut Vec<Line>,
    first: Vec<Span>,
    taken: u16,
    content: &str,
    style: &Style,
    width: u16,
) -> (r: (Vec<Span>, u16))
    requires
        taken <= width,
    ensures
        r.1 <= width,
        (Wrap { rows: final(out).deep_view(), cur: r.0.deep_view(), used: r.1 as int })
            == wrap_text(
            Wrap { rows: old(out).deep_view(), cur: first.deep_view(), used: taken as int },
            content@,
            style@,
            width as int,
        ),
{
    let mut cur = first;
    let mut cur_w: u16 = taken;
    let mut rest: Vec<char> = chars_of(content);
    while rest.len() > 0
        invariant
            cur_w <= width,
            wrap_text(
                Wrap { rows: old(out).deep_view(), cur: first.deep_view(), used: taken as int },
                content@,
                style@,
                width as int,
            ) == wrap_text(
                Wrap { rows: out.deep_view(), cur: cur.deep_view(), used: cur_w as int },
                rest@,
                style@,
                width as int,
            ),
        decreases rest@.len(), cur_w,
    {
        let text = string_of(rest.as_slice());
        let w = columns_of(text.as_str());
        let ghost cur0 = cur.deep_view();
        let ghost rows0 = out.deep_view();
        if cur_w as u32 + w as u32 <= width as u32 {
            cur.push(Span::styled(text, style.clone()));
            assert(cur.deep_view() =~= cur0.push(SpanView { content: rest@, style: style@ }));
            return (cur, cur_w + w);
        }
        let room = width - cur_w;
        let fit = split_exact_point(rest.as_slice(), room);
        if fit == 0 && cur_w > 0 {
            out.push(Line { spans: cur });
            assert(out.deep_view() =~= rows0.push(cur0));
        } else {
            let k: usize = if fit == 0 { 1 } else { fit };
            let tail = rest.split_off(k);
            let head = string_of(rest.as_slice());
            cur.push(Span::styled(head, style.clone()));
            assert(cur.deep_view() =~= cur0.push(
                SpanView { content: text@.take(k as int), style: style@ },
            ));
            out.push(Line { spans: cur });
            assert(out.deep_view() =~= rows0.push(cur.deep_view()));
            rest = tail;
            assert(rest@ =~= text@.skip(k as int));
        }
        cur = Vec::new();
        assert(cur.deep_view() =~= Seq::<SpanView>::empty());
        cur_w = 0;
    }
    (cur, cur_w)
}

/// Wraps `lines` at `width` columns. Where a text does not fit on its row, the
/// characters that fit stay and the others begin the next row; no character is
/// split. A character that is wider than a whole row is emitted alone. A width
/// of zero leaves the lines alone.
pub fn wrap_lines(lines: Vec<Line>, width: u16) -> (r: Vec<Line>)
    ensures
        r.deep_view() == wrapped(lines.deep_view(), width as int),
{
    if width == 0 {
        return lines;
    }
    let mut out: Vec<Line> = Vec::new();
    let mut i: usize = 0;
    assert(out.deep_view() =~= wrap_rows(lines.deep_view().take(0), width as int));
    while i < lines.len()
        invariant
            i <= lines@.len(),
            width > 0,
            out.deep_view() == wrap_rows(lines.deep_view().take(i as int), width as int),
        decreases lines@.len() - i,
    {
        let line = &lines[i];
        let ghost spans = line@;
        let ghost rows0 = out.deep_view();
        let ghost start = Wrap { rows: rows0, cur: Seq::<SpanView>::empty(), used: 0 };
        let mut cur: Vec<Span> = Vec::new();
        let mut cur_w: u16 = 0;
        let mut j: usize = 0;
        assert(spans.take(0) =~= Seq::<SpanView>::empty());
        assert(cur.deep_view() =~= Seq::<SpanView>::empty());
        while j < line.spans.len()
            invariant
                j <= line.spans@.len(),
                spans == line@,
                cur_w <= width,
                (Wrap { rows: out.deep_view(), cur: cur.deep_view(), used: cur_w as int })
                    == wrap_spans(start, spans.take(j as int), width as int),
            decreases line.spans@.len() - j,
        {
            let span = &line.spans[j];
            let r = lay_text(&mut out, cur, cur_w, span.content.as_str(), &span.style, width);
            cur = r.0;
            cur_w = r.1;
            assert(spans.take(j + 1).drop_last() =~= spans.take(j as int));
            assert(spans.take(j + 1).last() == span@);
            j += 1;
        }
        assert(spans.take(j as int) =~= spans);
        let ghost last = cur.deep_view();
        let ghost rows1 = out.deep_view();
        out.push(Line { spans: cur });
        proof {
            let none = Wrap { rows: Seq::<Seq<SpanView>>::empty(), cur: Seq::empty(), used: 0 };
            lemma_wrap_spans_rows(rows0, none, spans, width as int);
            assert(rows0 + none.rows =~= rows0);
            assert(out.deep_view() =~= rows1.push(last));
            assert(out.deep_view() =~= rows0 + wrap_line(spans, width as int));
            assert(lines.deep_view().take(i + 1).drop_last() =~= lines.deep_view().take(i as int));
            assert(lines.deep_view().take(i + 1).last() == spans);
        }
        i += 1;
    }
    assert(lines.deep_view().take(i as int) =~= lines.deep_view());
    out
}

/// The glyphs that a layout holds so far.
spec fn held(w: Wrap) -> Seq<(char, StyleView)> {
    all_glyphs(w.rows) + glyphs(w.cur)
}

proof fn lemma_glyphs_push(cur: Seq<SpanView>, span: SpanView)
    ensures
        glyphs(cur.push(span)) == glyphs(cur) + span_glyphs(span),
{
    assert(cur.push(span).drop_last() =~= cur);
}

proof fn lemma_wrap_text_held(w: Wrap, rest: Seq<char>, style: StyleView, width: int)
    ensures
        held(wrap_text(w, rest, style, width)) == held(w) + span_glyphs(
            SpanView { content: rest, style },
        ),
    decreases rest.len(), w.used,
{
    let whole = span_glyphs(SpanView { content: rest, style });
    if rest.len() == 0 {
        assert(held(w) + whole =~= held(w));
    } else if w.used + columns(rest) <= width {
        lemma_glyphs_push(w.cur, SpanView { content: rest, style });
        assert(held(wrap_text(w, rest, style, width)) =~= held(w) + whole);
    } else if w.used > 0 && split_exact_index(rest, width - w.used) == 0 {
        let next = Wrap { rows: w.rows.push(w.cur), cur: Seq::empty(), used: 0 };
        lemma_wrap_text_held(next, rest, style, width);
        assert(next.rows.drop_last() =~= w.rows);
        assert(glyphs(next.cur) =~= Seq::empty());
        assert(held(next) =~= held(w));
    } else {
        let k = head_len(rest, width - w.used);
        law_split_exact_len(rest, width - w.used);
        let head = SpanView { content: rest.take(k as int), style };
        let tail = SpanView { content: rest.skip(k as int), style };
        let row = w.cur.push(head);
        let next = Wrap { rows: w.rows.push(row), cur: Seq::empty(), used: 0 };
        lemma_wrap_text_held(next, rest.skip(k as int), style, width);
        lemma_glyphs_push(w.cur, head);
        assert(next.rows.drop_last() =~= w.rows);
        assert(glyphs(next.cur) =~= Seq::empty());
        assert(span_glyphs(head) + span_glyphs(tail) =~= whole);
        assert(held(next) + span_glyphs(tail) =~= held(w) + whole);
    }
}

proof fn lemma_wrap_spans_held(w: Wrap, spans: Seq<SpanView>, width: int)
    ensures
        held(wrap_spans(w, spans, width)) == held(w) + glyphs(spans),
    decreases spans.len(),
{
    if spans.len() == 0 {
        assert(held(w) + glyphs(spans) =~= held(w));
    } else {
        lemma_wrap_spans_held(w, spans.drop_last(), width);
        lemma_wrap_text_held(
            wrap_spans(w, spans.drop_last(), width),
            spans.last().content,
            spans.last().style,
            width,
        );
        assert(held(w) + glyphs(spans) =~= held(w) + glyphs(spans.drop_last()) + span_glyphs(
            spans.last(),
        ));
    }
}

/// The rows of a line hold the characters of the line, all of them and in
/// order, each in its own style.
pub proof fn law_wrap_line_keeps_glyphs(line: Seq<SpanView>, width: int)
    ensures
        all_glyphs(wrap_line(line, width)) == glyphs(line),
{
    let none = Wrap { rows: Seq::<Seq<SpanView>>::empty(), cur: Seq::empty(), used: 0 };
    let w = wrap_spans(none, line, width);
    lemma_wrap_spans_held(none, line, width);
    assert(held(none) =~= Seq::empty());
    assert(held(none) + glyphs(line) =~= glyphs(line));
    assert(w.rows.push(w.cur).drop_last() =~= w.rows);
}

/// Wrapping loses no character, adds none, moves none and changes no style.
pub proof fn law_wrapped_keeps_glyphs(lines: Seq<Seq<SpanView>>, width: int)
    ensures
        all_glyphs(wrapped(lines, width)) == all_glyphs(lines),
{
    if width != 0 {
        lemma_wrap_rows_keep_glyphs(lines, width);
    }
}

proof fn lemma_wrap_rows_keep_glyphs(lines: Seq<Seq<SpanView>>, width: int)
    ensures
        all_glyphs(wrap_rows(lines, width)) == all_glyphs(lines),
    decreases lines.len(),
{
    if lines.len() > 0 {
        lemma_wrap_rows_keep_glyphs(lines.drop_last(), width);
        law_wrap_line_keeps_glyphs(lines.last(), width);
        law_all_glyphs_add(wrap_rows(lines.drop_last(), width), wrap_line(lines.last(), width));
    }
}

/// The columns of a row of spans.
pub open spec fn row_columns(row: Seq<SpanView>) -> int
    decreases row.len(),
{
    if row.len() == 0 {
        0
    } else {
        row_columns(row.drop_last()) + columns(row.last().content)
    }
}

/// A row fits if its columns do. Its last span may also be measured character
/// by character, as it is where a text is cut.
pub open spec fn row_fits(row: Seq<SpanView>, width: int) -> bool {
    ||| row_columns(row) <= width
    ||| row.len() > 0 && row_columns(row.drop_last()) + cells(row.last().content) <= width
}

/// A row on which a single character takes columns, and which is too narrow for
/// it.
pub open spec fn row_forced(row: Seq<SpanView>, width: int) -> bool {
    &&& row.len() > 0
    &&& row.last().content.len() == 1
    &&& row_columns(row.drop_last()) == 0
    &&& cells(row.last().content) > width
}

/// Whether no span of a row is empty.
pub open spec fn no_empty_span(row: Seq<SpanView>) -> bool {
    forall|i: int| 0 <= i < row.len() ==> (#[trigger] row[i]).content.len() > 0
}

spec fn row_good(row: Seq<SpanView>, width: int) -> bool {
    no_empty_span(row) && (row_fits(row, width) || row_forced(row, width))
}

spec fn wrap_good(w: Wrap, width: int) -> bool {
    &&& forall|i: int| 0 <= i < w.rows.len() ==> row_good(#[trigger] w.rows[i], width)
    &&& no_empty_span(w.cur)
    &&& w.used == row_columns(w.cur)
    &&& 0 <= w.used <= width
}

proof fn lemma_wrap_text_good(w: Wrap, rest: Seq<char>, style: StyleView, width: int)
    requires
        wrap_good(w, width),
    ensures
        wrap_good(wrap_text(w, rest, style, width), width),
    decreases rest.len(), w.used,
{
    if rest.len() == 0 {
    } else if w.used + columns(rest) <= width {
        let span = SpanView { content: rest, style };
        assert(w.cur.push(span).drop_last() =~= w.cur);
    } else if w.used > 0 && split_exact_index(rest, width - w.used) == 0 {
        let next = Wrap { rows: w.rows.push(w.cur), cur: Seq::empty(), used: 0 };
        assert(row_good(w.cur, width));
        lemma_wrap_text_good(next, rest, style, width);
    } else {
        let room = width - w.used;
        let k = head_len(rest, room);
        law_split_exact_index(rest, room);
        let head = SpanView { content: rest.take(k as int), style };
        let row = w.cur.push(head);
        assert(row.drop_last() =~= w.cur);
        let next = Wrap { rows: w.rows.push(row), cur: Seq::empty(), used: 0 };
        if split_exact_index(rest, room) == 0 {
            assert(rest.take(0) =~= Seq::<char>::empty());
        }
        assert(row_good(row, width));
        lemma_wrap_text_good(next, rest.skip(k as int), style, width);
    }
}

proof fn lemma_wrap_spans_good(w: Wrap, spans: Seq<SpanView>, width: int)
    requires
        wrap_good(w, width),
    ensures
        wrap_good(wrap_spans(w, spans, width), width),
    decreases spans.len(),
{
    if spans.len() > 0 {
        lemma_wrap_spans_good(w, spans.drop_last(), width);
        lemma_wrap_text_good(
            wrap_spans(w, spans.drop_last(), width),
            spans.last().content,
            spans.last().style,
            width,
        );
    }
}

/// Every row of a wrapped line fits the width, but for a row that a single
/// character has to itself because it is wider than the whole width. No row holds
/// an empty span.
pub proof fn law_wrap_line_rows_fit(line: Seq<SpanView>, width: int, i: int)
    requires
        width >= 0,
        0 <= i < wrap_line(line, width).len(),
    ensures
        row_fits(wrap_line(line, width)[i], width) || row_forced(wrap_line(line, width)[i], width),
        no_empty_span(wrap_line(line, width)[i]),
{
    let none = Wrap { rows: Seq::<Seq<SpanView>>::empty(), cur: Seq::empty(), used: 0 };
    lemma_wrap_spans_good(none, line, width);
    let w = wrap_spans(none, line, width);
    assert(i < w.rows.len() ==> row_good(w.rows[i], width));
}

/// A line without empty spans that fits the width stays one row, as it is.
pub proof fn law_wrap_line_that_fits(line: Seq<SpanView>, width: int)
    requires
        no_empty_span(line),
        row_columns(line) <= width,
    ensures
        wrap_line(line, width) == seq![line],
{
    lemma_wrap_spans_that_fit(line, width);
    assert(Seq::<Seq<SpanView>>::empty().push(line) =~= seq![line]);
}

proof fn lemma_wrap_spans_that_fit(spans: Seq<SpanView>, width: int)
    requires
        no_empty_span(spans),
        row_columns(spans) <= width,
    ensures
        wrap_spans(Wrap { rows: Seq::empty(), cur: Seq::empty(), used: 0 }, spans, width) == (Wrap {
            rows: Seq::empty(),
            cur: spans,
            used: row_columns(spans),
        }),
    decreases spans.len(),
{
    if spans.len() > 0 {
        let init = spans.drop_last();
        assert forall|i: int| 0 <= i < init.len() implies (#[trigger] init[i]).content.len() > 0 by {
            assert(init[i] == spans[i]);
        }
        lemma_wrap_spans_that_fit(init, width);
        assert(init.push(spans.last()) =~= spans);
        assert(spans[spans.len() - 1].content.len() > 0);
    } else {
        assert(spans =~= Seq::empty());
    }
}

/// Rows of characters that are full, the row that is being filled, and how many
/// of its columns are taken.
#[verifier::ext_equal]
pub struct Flow {
    pub rows: Seq<Seq<char>>,
    pub cur: Seq<char>,
    pub used: int,
}

/// Puts one character down: on the current row if it fits there, else on the
/// next one. A character that is wider than a whole row has it to itself.
pub open spec fn flow_char(f: Flow, c: char, width: int) -> Flow {
    let rows = if f.used > 0 {
        f.rows.push(f.cur)
    } else {
        f.rows
    };
    if f.used + cell(c) <= width {
        Flow { rows: f.rows, cur: f.cur.push(c), used: f.used + cell(c) }
    } else if cell(c) <= width {
        Flow { rows, cur: seq![c], used: cell(c) as int }
    } else {
        Flow { rows: rows.push(seq![c]), cur: Seq::empty(), used: 0 }
    }
}

/// Puts the characters of a text down, one after the other.
pub open spec fn flow(f: Flow, s: Seq<char>, width: int) -> Flow
    decreases s.len(),
{
    if s.len() == 0 {
        f
    } else {
        flow(flow_char(f, s[0], width), s.skip(1), width)
    }
}

/// The rows of a text, character by character.
pub open spec fn flowed(s: Seq<char>, width: int) -> Seq<Seq<char>> {
    let f = flow(Flow { rows: Seq::empty(), cur: Seq::empty(), used: 0 }, s, width);
    f.rows.push(f.cur)
}

/// Whether every character of a text takes a column, and every piece of it is
/// as wide as its characters.
pub open spec fn measured(s: Seq<char>) -> bool {
    &&& forall|i: int| 0 <= i < s.len() ==> cell(#[trigger] s[i]) > 0
    &&& forall|i: int, j: int|
        0 <= i <= j <= s.len() ==> columns(#[trigger] s.subrange(i, j)) == cells(s.subrange(i, j))
}

/// The text of a layout.
spec fn flat(w: Wrap) -> Flow {
    Flow { rows: plains(w.rows), cur: plain(w.cur), used: w.used }
}

/// Whether the columns of the current row are in range, and a row of which none
/// is taken is empty.
spec fn flow_good(f: Flow, width: int) -> bool {
    &&& 0 <= f.used <= width
    &&& f.used == 0 ==> f.cur.len() == 0
}

/// A piece of a measured text is measured, and as wide as its characters.
pub proof fn lemma_measured_piece(s: Seq<char>, from: int, to: int)
    requires
        measured(s),
        0 <= from <= to <= s.len(),
    ensures
        measured(s.subrange(from, to)),
        columns(s.subrange(from, to)) == cells(s.subrange(from, to)),
{
    let t = s.subrange(from, to);
    assert forall|i: int, j: int| 0 <= i <= j <= t.len() implies columns(
        #[trigger] t.subrange(i, j),
    ) == cells(t.subrange(i, j)) by {
        assert(t.subrange(i, j) =~= s.subrange(from + i, from + j));
    }
}

/// The cells of a text are those of its first character and of the rest.
proof fn lemma_cells_of_first(s: Seq<char>)
    requires
        s.len() > 0,
    ensures
        cells(s) == cell(s[0]) + cells(s.skip(1)),
{
    let first = seq![s[0]];
    assert(s =~= first + s.skip(1));
    law_cells_add(first, s.skip(1));
    assert(first.drop_last() =~= Seq::<char>::empty());
    assert(cells(first) == cells(first.drop_last()) + cell(s[0]));
}

/// A measured text takes cells unless it is empty.
pub proof fn lemma_cells_of_some(s: Seq<char>)
    requires
        measured(s),
    ensures
        s.len() > 0 ==> cells(s) > 0,
{
    if s.len() > 0 {
        lemma_cells_of_first(s);
    }
}

proof fn lemma_flow_add(f: Flow, a: Seq<char>, b: Seq<char>, width: int)
    ensures
        flow(f, a + b, width) == flow(flow(f, a, width), b, width),
    decreases a.len(),
{
    if a.len() == 0 {
        assert(a + b =~= b);
    } else {
        assert((a + b).skip(1) =~= a.skip(1) + b);
        lemma_flow_add(flow_char(f, a[0], width), a.skip(1), b, width);
    }
}

/// A text that fits goes on the current row.
proof fn lemma_flow_fits(f: Flow, s: Seq<char>, width: int)
    requires
        f.used + cells(s) <= width,
    ensures
        flow(f, s, width) == (Flow { rows: f.rows, cur: f.cur + s, used: f.used + cells(s) }),
    decreases s.len(),
{
    if s.len() == 0 {
        assert(f.cur + s =~= f.cur);
    } else {
        lemma_cells_of_first(s);
        lemma_flow_fits(flow_char(f, s[0], width), s.skip(1), width);
        assert(f.cur.push(s[0]) + s.skip(1) =~= f.cur + s);
    }
}

/// A text whose first character does not fit goes on as on a new row.
proof fn lemma_flow_breaks(f: Flow, s: Seq<char>, width: int)
    requires
        s.len() > 0,
        0 < f.used,
        f.used + cell(s[0]) > width,
    ensures
        flow(f, s, width) == flow(
            Flow { rows: f.rows.push(f.cur), cur: Seq::empty(), used: 0 },
            s,
            width,
        ),
{
    let next = Flow { rows: f.rows.push(f.cur), cur: Seq::empty(), used: 0 };
    assert(next.cur.push(s[0]) =~= seq![s[0]]);
}

proof fn lemma_plain_push(cur: Seq<SpanView>, span: SpanView)
    ensures
        plain(cur.push(span)) == plain(cur) + span.content,
{
    assert(cur.push(span).drop_last() =~= cur);
}

proof fn lemma_plains_push(rows: Seq<Seq<SpanView>>, row: Seq<SpanView>)
    ensures
        plains(rows.push(row)) == plains(rows).push(plain(row)),
{
    assert(plains(rows.push(row)) =~= plains(rows).push(plain(row)));
}

proof fn lemma_wrap_text_flows(w: Wrap, rest: Seq<char>, style: StyleView, width: int)
    requires
        measured(rest),
        flow_good(flat(w), width),
    ensures
        flat(wrap_text(w, rest, style, width)) == flow(flat(w), rest, width),
        flow_good(flat(wrap_text(w, rest, style, width)), width),
    decreases rest.len(), w.used,
{
    let n = rest.len() as int;
    assert(rest.subrange(0, n) =~= rest);
    lemma_measured_piece(rest, 0, n);
    lemma_cells_of_some(rest);
    if rest.len() == 0 {
    } else if w.used + columns(rest) <= width {
        lemma_flow_fits(flat(w), rest, width);
        lemma_plain_push(w.cur, SpanView { content: rest, style });
    } else if w.used > 0 && split_exact_index(rest, width - w.used) == 0 {
        let next = Wrap { rows: w.rows.push(w.cur), cur: Seq::empty(), used: 0 };
        lemma_plains_push(w.rows, w.cur);
        assert(plain(next.cur) =~= Seq::empty());
        lemma_wrap_text_flows(next, rest, style, width);
        lemma_flow_breaks(flat(w), rest, width);
    } else {
        let room = width - w.used;
        let k = head_len(rest, room) as int;
        law_split_exact_index(rest, room);
        let head = rest.take(k);
        let tail = rest.skip(k);
        let row = w.cur.push(SpanView { content: head, style });
        let next = Wrap { rows: w.rows.push(row), cur: Seq::empty(), used: 0 };
        lemma_plain_push(w.cur, SpanView { content: head, style });
        lemma_plains_push(w.rows, row);
        assert(plain(next.cur) =~= Seq::empty());
        assert(tail =~= rest.subrange(k, n));
        assert(head =~= rest.subrange(0, k));
        lemma_measured_piece(rest, k, n);
        lemma_measured_piece(rest, 0, k);
        lemma_wrap_text_flows(next, tail, style, width);
        assert(rest =~= head + tail);
        lemma_flow_add(flat(w), head, tail, width);
        law_cells_add(head, tail);
        lemma_cells_of_some(head);
        if split_exact_index(rest, room) == 0 {
            assert(head =~= seq![rest[0]]);
            assert(plain(w.cur) + head =~= head);
            assert(head.skip(1) =~= Seq::empty());
            reveal_with_fuel(flow, 2);
        } else {
            lemma_flow_fits(flat(w), head, width);
            assert(tail.len() > 0) by {
                if tail.len() == 0 {
                    assert(cells(tail) == 0);
                }
            }
            assert(rest.take(k + 1) =~= head + seq![tail[0]]);
            law_cells_add(head, seq![tail[0]]);
            lemma_cells_of_first(seq![tail[0]]);
            assert(seq![tail[0]].skip(1) =~= Seq::empty());
            assert(cell(rest[k]) > 0);
            lemma_flow_breaks(flow(flat(w), head, width), tail, width);
        }
    }
}

proof fn lemma_wrap_spans_flow(w: Wrap, spans: Seq<SpanView>, width: int)
    requires
        measured(plain(spans)),
        flow_good(flat(w), width),
    ensures
        flat(wrap_spans(w, spans, width)) == flow(flat(w), plain(spans), width),
        flow_good(flat(wrap_spans(w, spans, width)), width),
    decreases spans.len(),
{
    if spans.len() > 0 {
        let init = plain(spans.drop_last());
        let last = spans.last().content;
        let all = plain(spans);
        assert(all == init + last);
        assert(init =~= all.subrange(0, init.len() as int));
        assert(last =~= all.subrange(init.len() as int, all.len() as int));
        lemma_measured_piece(all, 0, init.len() as int);
        lemma_measured_piece(all, init.len() as int, all.len() as int);
        lemma_wrap_spans_flow(w, spans.drop_last(), width);
        lemma_wrap_text_flows(
            wrap_spans(w, spans.drop_last(), width),
            last,
            spans.last().style,
            width,
        );
        lemma_flow_add(flat(w), init, last, width);
    }
}

/// The rows of a line are those of its text, character by character: a row ends
/// where the next character does not fit. (Every character has to take a column,
/// and the widths have to add up.)
pub proof fn law_wrap_line_fills_rows(line: Seq<SpanView>, width: int)
    requires
        width >= 0,
        measured(plain(line)),
    ensures
        plains(wrap_line(line, width)) == flowed(plain(line), width),
{
    let none = Wrap { rows: Seq::<Seq<SpanView>>::empty(), cur: Seq::empty(), used: 0 };
    assert(plains(none.rows) =~= Seq::empty());
    assert(plain(none.cur) =~= Seq::empty());
    lemma_wrap_spans_flow(none, line, width);
    let w = wrap_spans(none, line, width);
    lemma_plains_push(w.rows, w.cur);
}

/// The same text shows the same rows, however it is cut into spans.
pub proof fn law_spans_do_not_move_rows(a: Seq<SpanView>, b: Seq<SpanView>, width: int)
    requires
        width >= 0,
        plain(a) == plain(b),
        measured(plain(a)),
    ensures
        plains(wrap_line(a, width)) == plains(wrap_line(b, width)),
{
    law_wrap_line_fills_rows(a, width);
    law_wrap_line_fills_rows(b, width);
}

/// The columns of a row are those of its spans.
pub proof fn law_row_columns_add(row: Seq<SpanView>, span: SpanView)
    ensures
        row_columns(row.push(span)) == row_columns(row) + columns(span.content),
        row_columns(Seq::empty()) == 0,
{
    assert(row.push(span).drop_last() =~= row);
}

/// Whatever the width, lines are wrapped one by one: the rows are those of the
/// first line, then those of the next one, and so on. Only without a width are
/// the lines left alone.
pub proof fn law_lines_are_wrapped_one_by_one(
    lines: Seq<Seq<SpanView>>,
    line: Seq<SpanView>,
    width: int,
)
    ensures
        width > 0 ==> wrapped(lines.push(line), width) == wrapped(lines, width) + wrap_line(
            line,
            width,
        ),
        width > 0 ==> wrapped(Seq::empty(), width) == Seq::<Seq<SpanView>>::empty(),
        wrapped(lines, 0) == lines,
{
    assert(lines.push(line).drop_last() =~= lines);
}

/// Whatever the width of the pane, no row of its mirror is wider, but for a row
/// that a single character has to itself because it is wider than the whole
/// width.
pub proof fn law_wrapped_rows_fit(lines: Seq<Seq<SpanView>>, width: int, i: int)
    requires
        width > 0,
        0 <= i < wrapped(lines, width).len(),
    ensures
        ({
            let row = wrapped(lines, width)[i];
            ||| row_columns(row) <= width
            ||| row.len() > 0 && row_columns(row.drop_last()) + cells(row.last().content) <= width
            ||| row.len() > 0 && row.last().content.len() == 1 && row_columns(row.drop_last()) == 0
                && cells(row.last().content) > width
        }),
        no_empty_span(wrapped(lines, width)[i]),
    decreases lines.len(),
{
    if lines.len() > 0 {
        let init = lines.drop_last();
        let rows = wrap_rows(init, width);
        if i < rows.len() {
            law_wrapped_rows_fit(init, width, i);
        } else {
            law_wrap_line_rows_fit(lines.last(), width, i - rows.len());
        }
    }
}

} // verus!

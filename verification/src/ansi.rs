//! From a terminal's byte stream to styled lines.

use ratatui::style::Color;
use vstd::prelude::*;
use vstd::string::*;

use crate::line::{
    law_raw_line_is_the_text, plain, plains, raw_line, Line, Span, SpanView, Style, StyleView,
};
use crate::text::chars_of;

verus! {

/// The character that begins an escape sequence.
pub const ESC: char = '\x1b';

/// The character that may end an operating system command.
pub const BEL: char = '\x07';

/// A line with a style of its own, which its spans refine.
#[derive(Debug)]
pub struct AnsiLine {
    pub style: Style,
    pub spans: Vec<Span>,
}

/// The model of an `AnsiLine`.
#[verifier::ext_equal]
pub struct AnsiLineView {
    pub style: StyleView,
    pub spans: Seq<SpanView>,
}

impl View for AnsiLine {
    type V = AnsiLineView;

    open spec fn view(&self) -> AnsiLineView {
        AnsiLineView { style: self.style@, spans: self.spans.deep_view() }
    }
}

impl DeepView for AnsiLine {
    type V = AnsiLineView;

    open spec fn deep_view(&self) -> AnsiLineView {
        self.view()
    }
}

/// The model of an optional list of lines.
pub open spec fn opt_lines(lines: Option<Vec<AnsiLine>>) -> Option<Seq<AnsiLineView>> {
    match lines {
        Some(v) => Some(v.deep_view()),
        None => None,
    }
}

/// The styled lines that `ansi_to_tui` reads from a text, `None` if it refuses
/// the text.
pub uninterp spec fn ansi_lines(s: Seq<char>) -> Option<Seq<AnsiLineView>>;

/// `ansi_to_tui::IntoText::into_text`, a parser whose result depends on the
/// text alone: its result is named `ansi_lines`. A colour is converted to the
/// notation in which `ratatui::style::Color` prints and parses it.
#[verifier::external_body]
fn read_ansi(s: &str) -> (r: Option<Vec<AnsiLine>>)
    ensures
        opt_lines(r) == ansi_lines(s@),
{
    let color = |c: Color| c.to_string();
    let style = |s: ratatui::style::Style| Style {
        fg: s.fg.map(color), bg: s.bg.map(color), underline_color: s.underline_color.map(color),
        add_modifier: s.add_modifier.bits(), sub_modifier: s.sub_modifier.bits(),
    };
    let span = |s: ratatui::text::Span| Span { content: s.content.into_owned(), style: style(s.style) };
    let line = |l: ratatui::text::Line| AnsiLine {
        style: style(l.style), spans: l.spans.into_iter().map(span).collect(),
    };
    let text = ansi_to_tui::IntoText::into_text(&s).ok()?;
    Some(text.lines.into_iter().map(line).collect())
}

/// A text without carriage returns.
pub open spec fn normalized(s: Seq<char>) -> Seq<char> {
    s.filter(|c: char| c != '\r')
}

/// Drops the carriage returns: a `\r\n` becomes a `\n` and a lone `\r` vanishes.
fn normalize(s: &str) -> (r: String)
    ensures
        r@ == normalized(s@),
{
    let chars = chars_of(s);
    let ghost keep = |c: char| c != '\r';
    let mut out = String::new();
    let mut i: usize = 0;
    assert(chars@.take(0).filter(keep) =~= Seq::<char>::empty()) by {
        reveal(Seq::filter);
    }
    while i < chars.len()
        invariant
            i <= chars@.len(),
            keep == (|c: char| c != '\r'),
            out@ == chars@.take(i as int).filter(keep),
        decreases chars@.len() - i,
    {
        proof {
            reveal(Seq::filter);
            assert(chars@.take(i + 1).drop_last() =~= chars@.take(i as int));
        }
        if chars[i] != '\r' {
            out.push(chars[i]);
        }
        i += 1;
    }
    assert(chars@.take(i as int) =~= chars@);
    out
}

/// Whether a character is an ASCII letter.
pub open spec fn ascii_letter(c: char) -> bool {
    ('a' <= c && c <= 'z') || ('A' <= c && c <= 'Z')
}

/// Where a control sequence whose parameters begin at `i` ends: behind its
/// first letter, or with the text.
pub open spec fn csi_end(s: Seq<char>, i: int) -> int
    decreases s.len() - i,
{
    if i >= s.len() {
        i
    } else if ascii_letter(s[i]) {
        i + 1
    } else {
        csi_end(s, i + 1)
    }
}

/// Where an operating system command whose text begins at `i` ends: behind the
/// first bell or string terminator (`ESC \`), or with the text. `prev` is the
/// character of the command before `i`.
pub open spec fn osc_end(s: Seq<char>, i: int, prev: char) -> int
    decreases s.len() - i,
{
    if i >= s.len() {
        i
    } else if s[i] == BEL || (prev == ESC && s[i] == '\\') {
        i + 1
    } else {
        osc_end(s, i + 1, s[i])
    }
}

/// What is left of a text from position `i` on without its escape sequences.
pub open spec fn stripped_from(s: Seq<char>, i: int) -> Seq<char>
    decreases s.len() - i,
{
    proof {
        lemma_csi_end(s, i + 2);
        lemma_osc_end(s, i + 2, '\0');
    }
    if i >= s.len() {
        Seq::empty()
    } else if s[i] != ESC {
        seq![s[i]] + stripped_from(s, i + 1)
    } else if i + 1 >= s.len() {
        Seq::empty()
    } else if s[i + 1] == '[' {
        stripped_from(s, csi_end(s, i + 2))
    } else if s[i + 1] == ']' {
        stripped_from(s, osc_end(s, i + 2, '\0'))
    } else {
        stripped_from(s, i + 2)
    }
}

/// A text without its escape sequences.
pub open spec fn stripped(s: Seq<char>) -> Seq<char> {
    stripped_from(s, 0)
}

/// The end of a control sequence is not before its start and not behind the text.
pub proof fn lemma_csi_end(s: Seq<char>, i: int)
    ensures
        i <= csi_end(s, i),
        i <= s.len() ==> csi_end(s, i) <= s.len(),
    decreases s.len() - i,
{
    if i < s.len() && !ascii_letter(s[i]) {
        lemma_csi_end(s, i + 1);
    }
}

/// The end of an operating system command is not before its start and not behind
/// the text.
pub proof fn lemma_osc_end(s: Seq<char>, i: int, prev: char)
    ensures
        i <= osc_end(s, i, prev),
        i <= s.len() ==> osc_end(s, i, prev) <= s.len(),
    decreases s.len() - i,
{
    if i < s.len() && !(s[i] == BEL || (prev == ESC && s[i] == '\\')) {
        lemma_osc_end(s, i + 1, s[i]);
    }
}

fn find_csi_end(chars: &[char], start: usize) -> (r: usize)
    requires
        start <= chars@.len(),
    ensures
        r == csi_end(chars@, start as int),
        start <= r <= chars@.len(),
{
    let mut i: usize = start;
    while i < chars.len()
        invariant
            start <= i <= chars@.len(),
            csi_end(chars@, start as int) == csi_end(chars@, i as int),
        decreases chars@.len() - i,
    {
        let c = chars[i];
        i += 1;
        if ('a' <= c && c <= 'z') || ('A' <= c && c <= 'Z') {
            return i;
        }
    }
    i
}

fn find_osc_end(chars: &[char], start: usize) -> (r: usize)
    requires
        start <= chars@.len(),
    ensures
        r == osc_end(chars@, start as int, '\0'),
        start <= r <= chars@.len(),
{
    let mut i: usize = start;
    let mut prev = '\0';
    while i < chars.len()
        invariant
            start <= i <= chars@.len(),
            osc_end(chars@, start as int, '\0') == osc_end(chars@, i as int, prev),
        decreases chars@.len() - i,
    {
        let c = chars[i];
        i += 1;
        if c == BEL || (prev == ESC && c == '\\') {
            return i;
        }
        prev = c;
    }
    i
}

/// Removes the escape sequences from `s`: control sequences (`ESC [` up to a
/// letter), operating system commands (`ESC ]` up to a bell or `ESC \`), and
/// any other escape with the character that follows it.
pub fn strip_ansi(s: &str) -> (r: String)
    ensures
        r@ == stripped(s@),
{
    let chars = chars_of(s);
    let mut out = String::new();
    let mut i: usize = 0;
    assert(out@ + stripped_from(chars@, 0) =~= stripped(s@));
    while i < chars.len()
        invariant
            i <= chars@.len(),
            chars@ == s@,
            stripped(s@) == out@ + stripped_from(chars@, i as int),
        decreases chars@.len() - i,
    {
        let ghost before = out@;
        let c = chars[i];
        if c != ESC {
            out.push(c);
            assert(before + stripped_from(chars@, i as int) =~= out@ + stripped_from(chars@, i + 1));
            i += 1;
        } else if i + 1 >= chars.len() {
            i += 1;
        } else if chars[i + 1] == '[' {
            i = find_csi_end(chars.as_slice(), i + 2);
        } else if chars[i + 1] == ']' {
            i = find_osc_end(chars.as_slice(), i + 2);
        } else {
            i += 2;
        }
    }
    assert(out@ + stripped_from(chars@, i as int) =~= out@);
    out
}

/// Where the first line of a text ends.
pub open spec fn line_end(s: Seq<char>) -> int
    decreases s.len(),
{
    if s.len() == 0 || s[0] == '\n' {
        0
    } else {
        1 + line_end(s.skip(1))
    }
}

/// A line that ended in a line feed, without the carriage return before it.
pub open spec fn without_cr(s: Seq<char>) -> Seq<char> {
    if s.len() > 0 && s.last() == '\r' {
        s.drop_last()
    } else {
        s
    }
}

/// The lines of a text. A line feed ends a line, with or without a carriage
/// return before it; the last line need not be ended.
pub open spec fn split_lines(s: Seq<char>) -> Seq<Seq<char>>
    decreases s.len(),
{
    proof {
        lemma_line_end(s);
    }
    if s.len() == 0 {
        Seq::empty()
    } else if line_end(s) >= s.len() {
        seq![s]
    } else {
        seq![without_cr(s.take(line_end(s)))] + split_lines(s.skip(line_end(s) + 1))
    }
}

/// The first line ends at the first line feed, or with the text.
pub proof fn lemma_line_end(s: Seq<char>)
    ensures
        0 <= line_end(s) <= s.len(),
        line_end(s) < s.len() ==> s[line_end(s)] == '\n',
        forall|k: int| 0 <= k < line_end(s) ==> #[trigger] s[k] != '\n',
    decreases s.len(),
{
    if s.len() > 0 && s[0] != '\n' {
        let rest = s.skip(1);
        lemma_line_end(rest);
        assert forall|k: int| 0 <= k < line_end(s) implies #[trigger] s[k] != '\n' by {
            if k > 0 {
                assert(s[k] == rest[k - 1]);
            }
        }
        if line_end(s) < s.len() {
            assert(s[line_end(s)] == rest[line_end(rest)]);
        }
    }
}

/// The lines of a text, each shown in the style that changes nothing.
pub open spec fn raw_lines(s: Seq<char>) -> Seq<Seq<SpanView>> {
    Seq::new(split_lines(s).len(), |i: int| raw_line(split_lines(s)[i]))
}

fn find_line_end(chars: &[char], start: usize) -> (r: usize)
    requires
        start <= chars@.len(),
    ensures
        r == start + line_end(chars@.skip(start as int)),
        start <= r <= chars@.len(),
{
    let mut i: usize = start;
    while i < chars.len() && chars[i] != '\n'
        invariant
            start <= i <= chars@.len(),
            start + line_end(chars@.skip(start as int)) == i + line_end(chars@.skip(i as int)),
        decreases chars@.len() - i,
    {
        assert(chars@.skip(i as int).skip(1) =~= chars@.skip(i + 1));
        i += 1;
    }
    i
}

/// The characters of `chars` from `from` up to `to`.
fn slice_string(chars: &[char], from: usize, to: usize) -> (r: String)
    requires
        from <= to <= chars@.len(),
    ensures
        r@ == chars@.subrange(from as int, to as int),
{
    let mut out = String::new();
    let mut i: usize = from;
    while i < to
        invariant
            from <= i <= to <= chars@.len(),
            out@ == chars@.subrange(from as int, i as int),
        decreases to - i,
    {
        out.push(chars[i]);
        i += 1;
    }
    out
}

/// One line for each line of `s`.
fn plain_lines(s: &str) -> (r: Vec<Line>)
    ensures
        r.deep_view() == raw_lines(s@),
{
    let chars = chars_of(s);
    let mut out: Vec<Line> = Vec::new();
    let mut i: usize = 0;
    assert(chars@.skip(0) =~= chars@);
    while i < chars.len()
        invariant
            i <= chars@.len(),
            chars@ == s@,
            out@.len() + split_lines(chars@.skip(i as int)).len() == split_lines(s@).len(),
            forall|k: int| 0 <= k < out@.len() ==> (#[trigger] out@[k])@ == raw_line(split_lines(s@)[k]),
            forall|k: int|
                0 <= k < split_lines(chars@.skip(i as int)).len() ==> #[trigger] split_lines(
                    chars@.skip(i as int),
                )[k] == split_lines(s@)[out@.len() + k],
        decreases chars@.len() - i,
    {
        let ghost rest = chars@.skip(i as int);
        let ghost n = out@.len();
        let end = find_line_end(chars.as_slice(), i);
        proof {
            lemma_line_end(rest);
        }
        let ended = end < chars.len();
        let stop: usize = if ended && i < end && chars[end - 1] == '\r' { end - 1 } else { end };
        let text = slice_string(chars.as_slice(), i, stop);
        let ghost whole = rest.take(line_end(rest));
        proof {
            if ended {
                assert(without_cr(whole) =~= text@);
            } else {
                assert(rest =~= text@);
            }
            assert forall|k: int| 0 <= k < text@.len() implies #[trigger] text@[k] != '\n' by {
                assert(text@[k] == rest[k]);
            }
            assert(split_lines(rest)[0] == text@);
        }
        out.push(Line::raw(text));
        if ended {
            assert(rest.skip(line_end(rest) + 1) =~= chars@.skip(end + 1));
            assert forall|k: int| 0 <= k < split_lines(chars@.skip(end + 1)).len() implies
                #[trigger] split_lines(chars@.skip(end + 1))[k] == split_lines(s@)[n + 1 + k] by {
                assert(split_lines(rest)[k + 1] == split_lines(s@)[n + (k + 1)]);
            }
            i = end + 1;
        } else {
            assert(chars@.skip(end as int) =~= Seq::<char>::empty());
            i = end;
        }
    }
    assert(chars@.skip(i as int) =~= Seq::<char>::empty());
    assert(out.deep_view() =~= raw_lines(s@));
    out
}

/// The spans of a line with the style of the line worked into each of them.
pub open spec fn merged(line: AnsiLineView) -> Seq<SpanView> {
    Seq::new(
        line.spans.len(),
        |i: int|
            SpanView {
                content: line.spans[i].content,
                style: line.style.patched(line.spans[i].style),
            },
    )
}

/// What is shown of a text for which the parser gave `parsed`: the parsed lines
/// or, if it refused the text, the bare text without escape sequences.
pub open spec fn shown_lines(parsed: Option<Seq<AnsiLineView>>, text: Seq<char>) -> Seq<Seq<SpanView>> {
    match parsed {
        Some(lines) => Seq::new(lines.len(), |i: int| merged(lines[i])),
        None => raw_lines(stripped(text)),
    }
}

fn merge_line(line: &AnsiLine) -> (r: Line)
    ensures
        r@ == merged(line@),
{
    let mut spans: Vec<Span> = Vec::new();
    let mut i: usize = 0;
    while i < line.spans.len()
        invariant
            i <= line.spans@.len(),
            spans@.len() == i,
            forall|k: int| 0 <= k < i ==> (#[trigger] spans@[k])@ == merged(line@)[k],
        decreases line.spans@.len() - i,
    {
        let span = &line.spans[i];
        spans.push(Span::styled(span.content.clone(), line.style.patch(&span.style)));
        i += 1;
    }
    let out = Line { spans };
    assert(out@ =~= merged(line@));
    out
}

/// The lines to show for `text`, given what the parser made of it.
pub fn lines_from(parsed: Option<Vec<AnsiLine>>, text: &str) -> (r: Vec<Line>)
    ensures
        r.deep_view() == shown_lines(opt_lines(parsed), text@),
{
    match parsed {
        Some(lines) => {
            let ghost views = lines.deep_view();
            let mut out: Vec<Line> = Vec::new();
            let mut i: usize = 0;
            while i < lines.len()
                invariant
                    i <= lines@.len(),
                    views == lines.deep_view(),
                    out@.len() == i,
                    forall|k: int| 0 <= k < i ==> (#[trigger] out@[k])@ == merged(views[k]),
                decreases lines@.len() - i,
            {
                out.push(merge_line(&lines[i]));
                i += 1;
            }
            assert(out.deep_view() =~= shown_lines(opt_lines(parsed), text@));
            out
        },
        None => {
            let bare = strip_ansi(text);
            plain_lines(bare.as_str())
        },
    }
}

/// Reads a terminal's output into styled lines. Carriage returns are dropped,
/// and a text that the parser refuses is shown without its escape sequences.
pub fn parse_ansi(raw: &str) -> (r: Vec<Line>)
    ensures
        r.deep_view() == shown_lines(ansi_lines(normalized(raw@)), normalized(raw@)),
{
    let text = normalize(raw);
    let parsed = read_ansi(text.as_str());
    lines_from(parsed, text.as_str())
}

/// A text without escape characters is not changed by stripping.
pub proof fn law_stripped_without_escapes(s: Seq<char>)
    requires
        !s.contains(ESC),
    ensures
        stripped(s) == s,
{
    lemma_stripped_plain_from(s, 0);
    assert(s.skip(0) =~= s);
}

proof fn lemma_stripped_plain_from(s: Seq<char>, i: int)
    requires
        !s.contains(ESC),
        0 <= i <= s.len(),
    ensures
        stripped_from(s, i) == s.skip(i),
    decreases s.len() - i,
{
    if i < s.len() {
        lemma_stripped_plain_from(s, i + 1);
        assert(s.contains(s[i]));
        assert(seq![s[i]] + s.skip(i + 1) =~= s.skip(i));
    } else {
        assert(s.skip(i) =~= Seq::<char>::empty());
    }
}

/// A stripped text holds no escape character.
pub proof fn law_stripped_has_no_escape(s: Seq<char>)
    ensures
        !stripped(s).contains(ESC),
{
    lemma_stripped_no_escape_from(s, 0);
}

proof fn lemma_stripped_no_escape_from(s: Seq<char>, i: int)
    requires
        0 <= i,
    ensures
        !stripped_from(s, i).contains(ESC),
    decreases s.len() - i,
{
    lemma_csi_end(s, i + 2);
    lemma_osc_end(s, i + 2, '\0');
    if i < s.len() {
        if s[i] != ESC {
            lemma_stripped_no_escape_from(s, i + 1);
            let rest = stripped_from(s, i + 1);
            let all = seq![s[i]] + rest;
            assert forall|k: int| 0 <= k < all.len() implies all[k] != ESC by {
                if k > 0 {
                    assert(all[k] == rest[k - 1]);
                    assert(rest.contains(rest[k - 1]));
                }
            }
        } else if i + 1 < s.len() {
            if s[i + 1] == '[' {
                lemma_stripped_no_escape_from(s, csi_end(s, i + 2));
            } else if s[i + 1] == ']' {
                lemma_stripped_no_escape_from(s, osc_end(s, i + 2, '\0'));
            } else {
                lemma_stripped_no_escape_from(s, i + 2);
            }
        }
    }
}

/// Stripping twice is stripping once.
pub proof fn law_stripped_twice(s: Seq<char>)
    ensures
        stripped(stripped(s)) == stripped(s),
{
    law_stripped_has_no_escape(s);
    law_stripped_without_escapes(stripped(s));
}

/// Normalized text holds no carriage return.
pub proof fn law_normalized_has_no_cr(s: Seq<char>)
    ensures
        !normalized(s).contains('\r'),
{
    let keep = |c: char| c != '\r';
    broadcast use vstd::seq_lib::group_filter_ensures;

    assert forall|i: int| 0 <= i < normalized(s).len() implies normalized(s)[i] != '\r' by {
        assert(s.filter(keep).contains(s.filter(keep)[i]));
        assert(keep(s.filter(keep)[i]));
    }
}

/// No line of a text holds a line feed.
pub proof fn law_lines_hold_no_line_feed(s: Seq<char>, i: int)
    requires
        0 <= i < split_lines(s).len(),
    ensures
        !split_lines(s)[i].contains('\n'),
    decreases s.len(),
{
    lemma_line_end(s);
    if line_end(s) < s.len() {
        if i > 0 {
            law_lines_hold_no_line_feed(s.skip(line_end(s) + 1), i - 1);
        }
    }
}

proof fn lemma_csi_shift(p: Seq<char>, s: Seq<char>, i: int)
    requires
        0 <= i,
    ensures
        csi_end(p + s, p.len() + i) == p.len() + csi_end(s, i),
    decreases s.len() - i,
{
    if i < s.len() {
        assert((p + s)[p.len() + i] == s[i]);
        lemma_csi_shift(p, s, i + 1);
    }
}

proof fn lemma_osc_shift(p: Seq<char>, s: Seq<char>, i: int, prev: char)
    requires
        0 <= i,
    ensures
        osc_end(p + s, p.len() + i, prev) == p.len() + osc_end(s, i, prev),
    decreases s.len() - i,
{
    if i < s.len() {
        assert((p + s)[p.len() + i] == s[i]);
        lemma_osc_shift(p, s, i + 1, s[i]);
    }
}

proof fn lemma_stripped_shift(p: Seq<char>, s: Seq<char>, i: int)
    requires
        0 <= i,
    ensures
        stripped_from(p + s, p.len() + i) == stripped_from(s, i),
    decreases s.len() - i,
{
    let t = p + s;
    let n = p.len() as int;
    if i < s.len() {
        assert(t[n + i] == s[i]);
        lemma_csi_end(s, i + 2);
        lemma_osc_end(s, i + 2, '\0');
        if s[i] != ESC {
            lemma_stripped_shift(p, s, i + 1);
        } else if i + 1 < s.len() {
            assert(t[n + i + 1] == s[i + 1]);
            if s[i + 1] == '[' {
                lemma_csi_shift(p, s, i + 2);
                lemma_stripped_shift(p, s, csi_end(s, i + 2));
            } else if s[i + 1] == ']' {
                lemma_osc_shift(p, s, i + 2, '\0');
                lemma_stripped_shift(p, s, osc_end(s, i + 2, '\0'));
            } else {
                lemma_stripped_shift(p, s, i + 2);
            }
        }
    }
}

/// Text in front of which nothing is escaped stays, and what comes behind it is
/// stripped as if it stood alone.
pub proof fn law_text_between_escapes_stays(a: Seq<char>, s: Seq<char>)
    requires
        !a.contains('\x1b'),
    ensures
        stripped(a + s) == a + stripped(s),
    decreases a.len(),
{
    if a.len() == 0 {
        assert(a + s =~= s);
        assert(a + stripped(s) =~= stripped(s));
    } else {
        let rest = a.skip(1);
        let first = seq![a[0]];
        assert(a.contains(a[0]));
        assert forall|k: int| 0 <= k < rest.len() implies rest[k] != '\x1b' by {
            assert(a.contains(a[k + 1]));
        }
        law_text_between_escapes_stays(rest, s);
        assert(a + s =~= first + (rest + s));
        lemma_stripped_shift(first, rest + s, 0);
        assert(stripped(a + s) =~= first + stripped(rest + s));
        assert(first + (rest + stripped(s)) =~= a + stripped(s));
    }
}

proof fn lemma_csi_end_at(s: Seq<char>, i: int, j: int)
    requires
        0 <= i <= j <= s.len(),
        forall|k: int|
            i <= k < j ==> !('a' <= #[trigger] s[k] <= 'z') && !('A' <= s[k] <= 'Z'),
    ensures
        j < s.len() && ('a' <= s[j] <= 'z' || 'A' <= s[j] <= 'Z') ==> csi_end(s, i) == j + 1,
        j == s.len() ==> csi_end(s, i) == j,
    decreases j - i,
{
    if i < j {
        assert(!ascii_letter(s[i]));
        lemma_csi_end_at(s, i + 1, j);
    }
}

proof fn lemma_osc_end_at(s: Seq<char>, i: int, j: int, prev: char)
    requires
        0 <= i <= j <= s.len(),
        prev != '\x1b',
        forall|k: int| i <= k < j ==> #[trigger] s[k] != '\x07' && s[k] != '\x1b',
    ensures
        j < s.len() && s[j] == '\x07' ==> osc_end(s, i, prev) == j + 1,
        j + 1 < s.len() && s[j] == '\x1b' && s[j + 1] == '\\' ==> osc_end(s, i, prev) == j + 2,
        j == s.len() ==> osc_end(s, i, prev) == j,
    decreases j - i,
{
    if i < j {
        lemma_osc_end_at(s, i + 1, j, s[i]);
    } else if j + 1 < s.len() && s[j] == '\x1b' {
        assert(osc_end(s, j, prev) == osc_end(s, j + 1, s[j]));
    }
}

/// A control sequence goes from `ESC [` to its first letter, and nothing else
/// goes with it: what is before and behind it stays.
pub proof fn law_control_sequence_is_removed(
    a: Seq<char>,
    params: Seq<char>,
    letter: char,
    b: Seq<char>,
)
    requires
        !a.contains('\x1b'),
        forall|k: int|
            0 <= k < params.len() ==> !('a' <= #[trigger] params[k] <= 'z') && !('A' <= params[k]
                <= 'Z'),
        'a' <= letter <= 'z' || 'A' <= letter <= 'Z',
    ensures
        stripped(a + (seq!['\x1b', '['] + params + seq![letter] + b)) == a + stripped(b),
        stripped(a + (seq!['\x1b', '['] + params)) == a,
{
    let head = seq!['\x1b', '['] + params + seq![letter];
    let s = head + b;
    let n = params.len() as int;
    assert forall|k: int| 2 <= k < 2 + n implies !('a' <= #[trigger] s[k] <= 'z') && !('A' <= s[k]
        <= 'Z') by {
        assert(s[k] == params[k - 2]);
    }
    lemma_csi_end_at(s, 2, 2 + n);
    lemma_stripped_shift(head, b, 0);
    law_text_between_escapes_stays(a, s);
    let t = seq!['\x1b', '['] + params;
    assert forall|k: int| 2 <= k < 2 + n implies !('a' <= #[trigger] t[k] <= 'z') && !('A' <= t[k]
        <= 'Z') by {
        assert(t[k] == params[k - 2]);
    }
    lemma_csi_end_at(t, 2, 2 + n);
    law_text_between_escapes_stays(a, t);
    assert(stripped_from(t, 2 + n) =~= Seq::empty());
    assert(a + Seq::<char>::empty() =~= a);
}

/// An operating system command goes from `ESC ]` to a bell or to `ESC \\`, and
/// nothing else goes with it.
pub proof fn law_system_command_is_removed(a: Seq<char>, text: Seq<char>, b: Seq<char>)
    requires
        !a.contains('\x1b'),
        forall|k: int| 0 <= k < text.len() ==> #[trigger] text[k] != '\x07' && text[k] != '\x1b',
    ensures
        stripped(a + (seq!['\x1b', ']'] + text + seq!['\x07'] + b)) == a + stripped(b),
        stripped(a + (seq!['\x1b', ']'] + text + seq!['\x1b', '\\'] + b)) == a + stripped(b),
        stripped(a + (seq!['\x1b', ']'] + text)) == a,
{
    let n = text.len() as int;
    let bell = seq!['\x1b', ']'] + text + seq!['\x07'];
    let s = bell + b;
    assert forall|k: int| 2 <= k < 2 + n implies #[trigger] s[k] != '\x07' && s[k] != '\x1b' by {
        assert(s[k] == text[k - 2]);
    }
    lemma_osc_end_at(s, 2, 2 + n, '\0');
    lemma_stripped_shift(bell, b, 0);
    law_text_between_escapes_stays(a, s);
    let term = seq!['\x1b', ']'] + text + seq!['\x1b', '\\'];
    let u = term + b;
    assert forall|k: int| 2 <= k < 2 + n implies #[trigger] u[k] != '\x07' && u[k] != '\x1b' by {
        assert(u[k] == text[k - 2]);
    }
    lemma_osc_end_at(u, 2, 2 + n, '\0');
    lemma_stripped_shift(term, b, 0);
    law_text_between_escapes_stays(a, u);
    let t = seq!['\x1b', ']'] + text;
    assert forall|k: int| 2 <= k < 2 + n implies #[trigger] t[k] != '\x07' && t[k] != '\x1b' by {
        assert(t[k] == text[k - 2]);
    }
    lemma_osc_end_at(t, 2, 2 + n, '\0');
    law_text_between_escapes_stays(a, t);
    assert(stripped_from(t, 2 + n) =~= Seq::empty());
    assert(a + Seq::<char>::empty() =~= a);
}

/// Any other escape goes with the one character behind it, if there is one.
pub proof fn law_short_escape_is_removed(a: Seq<char>, c: char, b: Seq<char>)
    requires
        !a.contains('\x1b'),
        c != '[' && c != ']',
    ensures
        stripped(a + (seq!['\x1b', c] + b)) == a + stripped(b),
        stripped(a + seq!['\x1b']) == a,
{
    let head = seq!['\x1b', c];
    lemma_stripped_shift(head, b, 0);
    law_text_between_escapes_stays(a, head + b);
    law_text_between_escapes_stays(a, seq!['\x1b']);
    assert(stripped(seq!['\x1b']) =~= Seq::empty());
    assert(a + Seq::<char>::empty() =~= a);
}

/// Normalizing takes the carriage returns away and nothing else: it works
/// character by character, and every other character stays.
pub proof fn law_normalized_drops_cr_only(a: Seq<char>, c: char)
    ensures
        normalized(a.push(c)) == if c == '\r' {
            normalized(a)
        } else {
            normalized(a).push(c)
        },
        normalized(Seq::empty()) == Seq::<char>::empty(),
{
    reveal(Seq::filter);
    assert(a.push(c).drop_last() =~= a);
}

/// A line feed ends a line, and what is behind it is split as if it stood alone.
/// A text that is not ended by a line feed is a last line, unless it is empty.
pub proof fn law_split_lines(a: Seq<char>, b: Seq<char>)
    requires
        !a.contains('\n'),
        !a.contains('\r'),
    ensures
        split_lines(a.push('\n') + b) == seq![a] + split_lines(b),
        a.len() > 0 ==> split_lines(a) == seq![a],
        split_lines(Seq::empty()) == Seq::<Seq<char>>::empty(),
{
    let s = a.push('\n') + b;
    lemma_line_end(s);
    let n = line_end(s);
    if n < a.len() {
        assert(a.contains(a[n]));
    }
    if n > a.len() {
        assert(s[a.len() as int] == '\n');
    }
    assert(s.take(n) =~= a);
    assert(s.skip(n + 1) =~= b);
    if a.len() > 0 {
        assert(a.contains(a.last()));
    }
    lemma_line_end(a);
    if line_end(a) < a.len() {
        assert(a.contains(a[line_end(a)]));
    }
}

/// A text that the parser refuses is shown without its escapes, line by line.
/// One that it takes is shown as it parsed it: line by line and span by span, the
/// text as it is and the style of the span laid over that of the line.
pub proof fn law_shown_lines(parsed: Seq<AnsiLineView>, text: Seq<char>, i: int, j: int)
    ensures
        plains(shown_lines(None, text)) == split_lines(stripped(text)),
        shown_lines(Some(parsed), text).len() == parsed.len(),
        0 <= i < parsed.len() ==> shown_lines(Some(parsed), text)[i].len() == parsed[i].spans.len(),
        0 <= i < parsed.len() && 0 <= j < parsed[i].spans.len() ==> {
            let span = shown_lines(Some(parsed), text)[i][j];
            &&& span.content == parsed[i].spans[j].content
            &&& span.style == parsed[i].style.patched(parsed[i].spans[j].style)
        },
{
    let lines = split_lines(stripped(text));
    let shown = shown_lines(None, text);
    assert forall|k: int| 0 <= k < lines.len() implies plain(#[trigger] shown[k]) == lines[k] by {
        law_raw_line_is_the_text(lines[k]);
    }
    assert(plains(shown) =~= lines);
}

proof fn lemma_osc_goes_on(s: Seq<char>, i: int, j: int, prev: char)
    requires
        0 <= i <= j < s.len(),
        s[j] == '\x07',
        i < j ==> !(prev == '\x1b' && s[i] == '\\'),
        forall|k: int| i <= k < j ==> #[trigger] s[k] != '\x07',
        forall|k: int| i < k < j ==> !(#[trigger] s[k] == '\\' && s[k - 1] == '\x1b'),
    ensures
        osc_end(s, i, prev) == j + 1,
    decreases j - i,
{
    if i < j {
        assert(i + 1 < j ==> !(s[i + 1] == '\\' && s[i + 1 - 1] == '\x1b'));
        lemma_osc_goes_on(s, i + 1, j, s[i]);
    }
}

/// An escape inside of an operating system command does not end it, unless a
/// backslash is right behind it.
pub proof fn law_system_command_goes_on(a: Seq<char>, text: Seq<char>, b: Seq<char>)
    requires
        !a.contains('\x1b'),
        forall|k: int| 0 <= k < text.len() ==> #[trigger] text[k] != '\x07',
        forall|k: int| 0 < k < text.len() ==> !(#[trigger] text[k] == '\\' && text[k - 1] == '\x1b'),
    ensures
        stripped(a + (seq!['\x1b', ']'] + text + seq!['\x07'] + b)) == a + stripped(b),
{
    let n = text.len() as int;
    let head = seq!['\x1b', ']'] + text + seq!['\x07'];
    let s = head + b;
    assert forall|k: int| 2 <= k < 2 + n implies #[trigger] s[k] != '\x07' by {
        assert(s[k] == text[k - 2]);
    }
    assert forall|k: int| 2 < k < 2 + n implies !(#[trigger] s[k] == '\\' && s[k - 1] == '\x1b') by {
        assert(s[k] == text[k - 2]);
        assert(s[k - 1] == text[k - 3]);
    }
    lemma_osc_goes_on(s, 2, 2 + n, '\0');
    lemma_stripped_shift(head, b, 0);
    law_text_between_escapes_stays(a, s);
}

/// A carriage return in front of a line feed goes with it, but only one. On the
/// last line, which no line feed ends, it stays.
pub proof fn law_carriage_return_goes_with_its_line_feed(a: Seq<char>, b: Seq<char>)
    requires
        !a.contains('\n'),
    ensures
        split_lines(a + seq!['\r', '\n'] + b) == seq![a] + split_lines(b),
        split_lines(a.push('\r')) == seq![a.push('\r')],
{
    let s = a + seq!['\r', '\n'] + b;
    let n = a.len() as int;
    lemma_line_end(s);
    if line_end(s) < n {
        assert(a.contains(a[line_end(s)]));
    }
    assert(s[n] == '\r' && s[n + 1] == '\n');
    assert(line_end(s) == n + 1);
    assert(s.take(n + 1) =~= a.push('\r'));
    assert(a.push('\r').drop_last() =~= a);
    assert(s.skip(n + 2) =~= b);
    let t = a.push('\r');
    lemma_line_end(t);
    if line_end(t) < n {
        assert(a.contains(a[line_end(t)]));
    }
}

} // verus!

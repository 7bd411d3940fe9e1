//! Styled text: styles, spans and lines.

use vstd::prelude::*;
use vstd::string::*;

verus! {

/// The bit of a modifier set that swaps foreground and background.
pub const REVERSED: u16 = 0b0100_0000;

/// How a span looks. A colour is written in the notation of ratatui (`Red`,
/// `#0A141E`, `7`); a modifier set is a sum of bits such as `REVERSED`.
#[derive(Debug)]
pub struct Style {
    pub fg: Option<String>,
    pub bg: Option<String>,
    pub underline_color: Option<String>,
    /// Modifiers that are switched on.
    pub add_modifier: u16,
    /// Modifiers that are switched off.
    pub sub_modifier: u16,
}

/// A piece of text in one style.
#[derive(Debug)]
pub struct Span {
    pub content: String,
    pub style: Style,
}

/// One row of spans.
#[derive(Debug)]
pub struct Line {
    pub spans: Vec<Span>,
}

/// The model of a `Style`.
#[verifier::ext_equal]
pub struct StyleView {
    pub fg: Option<Seq<char>>,
    pub bg: Option<Seq<char>>,
    pub underline_color: Option<Seq<char>>,
    pub add_modifier: u16,
    pub sub_modifier: u16,
}

/// The model of a `Span`.
#[verifier::ext_equal]
pub struct SpanView {
    pub content: Seq<char>,
    pub style: StyleView,
}

/// The text behind an optional string.
pub open spec fn opt_text(s: Option<String>) -> Option<Seq<char>> {
    match s {
        Some(x) => Some(x@),
        None => None,
    }
}

impl View for Style {
    type V = StyleView;

    open spec fn view(&self) -> StyleView {
        StyleView {
            fg: opt_text(self.fg),
            bg: opt_text(self.bg),
            underline_color: opt_text(self.underline_color),
            add_modifier: self.add_modifier,
            sub_modifier: self.sub_modifier,
        }
    }
}

impl View for Span {
    type V = SpanView;

    open spec fn view(&self) -> SpanView {
        SpanView { content: self.content@, style: self.style@ }
    }
}

impl DeepView for Span {
    type V = SpanView;

    open spec fn deep_view(&self) -> SpanView {
        self.view()
    }
}

impl View for Line {
    type V = Seq<SpanView>;

    open spec fn view(&self) -> Seq<SpanView> {
        self.spans.deep_view()
    }
}

impl DeepView for Line {
    type V = Seq<SpanView>;

    open spec fn deep_view(&self) -> Seq<SpanView> {
        self.view()
    }
}

impl StyleView {
    /// The style that changes nothing.
    pub open spec fn plain() -> StyleView {
        StyleView {
            fg: None,
            bg: None,
            underline_color: None,
            add_modifier: 0,
            sub_modifier: 0,
        }
    }

    /// This style with `other` laid over it: what `other` sets wins.
    pub open spec fn patched(self, other: StyleView) -> StyleView {
        StyleView {
            fg: if other.fg is Some { other.fg } else { self.fg },
            bg: if other.bg is Some { other.bg } else { self.bg },
            underline_color: if other.underline_color is Some {
                other.underline_color
            } else {
                self.underline_color
            },
            add_modifier: (self.add_modifier & !other.sub_modifier) | other.add_modifier,
            sub_modifier: (self.sub_modifier & !other.add_modifier) | other.sub_modifier,
        }
    }

    /// This style with the modifiers of `bits` switched on.
    pub open spec fn with_modifier(self, bits: u16) -> StyleView {
        StyleView {
            add_modifier: self.add_modifier | bits,
            sub_modifier: self.sub_modifier & !bits,
            ..self
        }
    }
}

fn clone_text(s: &Option<String>) -> (r: Option<String>)
    ensures
        opt_text(r) == opt_text(*s),
{
    match s {
        Some(x) => Some(x.clone()),
        None => None,
    }
}

impl Clone for Style {
    fn clone(&self) -> (r: Style)
        ensures
            r@ == self@,
    {
        Style {
            fg: clone_text(&self.fg),
            bg: clone_text(&self.bg),
            underline_color: clone_text(&self.underline_color),
            add_modifier: self.add_modifier,
            sub_modifier: self.sub_modifier,
        }
    }
}

impl Style {
    /// The style that changes nothing.
    pub fn new() -> (r: Style)
        ensures
            r@ == StyleView::plain(),
    {
        Style { fg: None, bg: None, underline_color: None, add_modifier: 0, sub_modifier: 0 }
    }

    /// This style with `other` laid over it: what `other` sets wins.
    pub fn patch(&self, other: &Style) -> (r: Style)
        ensures
            r@ == self@.patched(other@),
    {
        Style {
            fg: if other.fg.is_some() { clone_text(&other.fg) } else { clone_text(&self.fg) },
            bg: if other.bg.is_some() { clone_text(&other.bg) } else { clone_text(&self.bg) },
            underline_color: if other.underline_color.is_some() {
                clone_text(&other.underline_color)
            } else {
                clone_text(&self.underline_color)
            },
            add_modifier: (self.add_modifier & !other.sub_modifier) | other.add_modifier,
            sub_modifier: (self.sub_modifier & !other.add_modifier) | other.sub_modifier,
        }
    }

    /// This style with the modifiers of `bits` switched on.
    pub fn add_modifier(&self, bits: u16) -> (r: Style)
        ensures
            r@ == self@.with_modifier(bits),
    {
        let base = self.clone();
        Style {
            fg: base.fg,
            bg: base.bg,
            underline_color: base.underline_color,
            add_modifier: self.add_modifier | bits,
            sub_modifier: self.sub_modifier & !bits,
        }
    }
}

impl Clone for Span {
    fn clone(&self) -> (r: Span)
        ensures
            r@ == self@,
    {
        Span { content: self.content.clone(), style: self.style.clone() }
    }
}

impl Span {
    /// A span of `content` in `style`.
    pub fn styled(content: String, style: Style) -> (r: Span)
        ensures
            r@ == (SpanView { content: content@, style: style@ }),
    {
        Span { content, style }
    }

    /// A span of `content` in the style that changes nothing.
    pub fn raw(content: String) -> (r: Span)
        ensures
            r@ == raw_span(content@),
    {
        Span { content, style: Style::new() }
    }
}

/// A span in the style that changes nothing.
pub open spec fn raw_span(content: Seq<char>) -> SpanView {
    SpanView { content, style: StyleView::plain() }
}

/// The line that shows a text in the style that changes nothing: an empty text
/// has no span.
pub open spec fn raw_line(content: Seq<char>) -> Seq<SpanView> {
    if content.len() == 0 {
        Seq::empty()
    } else {
        seq![raw_span(content)]
    }
}

impl Clone for Line {
    fn clone(&self) -> (r: Line)
        ensures
            r@ == self@,
    {
        let mut spans: Vec<Span> = Vec::new();
        let mut i: usize = 0;
        while i < self.spans.len()
            invariant
                i <= self.spans@.len(),
                spans@.len() == i,
                forall|k: int| 0 <= k < i ==> (#[trigger] spans@[k])@ == self.spans@[k]@,
            decreases self.spans@.len() - i,
        {
            spans.push(self.spans[i].clone());
            i += 1;
        }
        let line = Line { spans };
        assert(line@ =~= self@);
        line
    }
}

impl Line {
    /// A line of the given spans.
    pub fn from_spans(spans: Vec<Span>) -> (r: Line)
        ensures
            r@ == spans.deep_view(),
    {
        Line { spans }
    }

    /// A line that shows `content`, a text without line breaks.
    pub fn raw(content: String) -> (r: Line)
        requires
            !content@.contains('\n'),
        ensures
            r@ == raw_line(content@),
    {
        let mut spans: Vec<Span> = Vec::new();
        if !content.as_str().is_empty() {
            spans.push(Span::raw(content));
        }
        let line = Line { spans };
        assert(line@ =~= raw_line(content@));
        line
    }
}

/// The text of a line.
pub open spec fn plain(line: Seq<SpanView>) -> Seq<char>
    decreases line.len(),
{
    if line.len() == 0 {
        Seq::empty()
    } else {
        plain(line.drop_last()) + line.last().content
    }
}

/// The text of each line.
pub open spec fn plains(lines: Seq<Seq<SpanView>>) -> Seq<Seq<char>> {
    Seq::new(lines.len(), |i: int| plain(lines[i]))
}

/// The characters of a span, each with its style.
pub open spec fn span_glyphs(span: SpanView) -> Seq<(char, StyleView)> {
    Seq::new(span.content.len(), |i: int| (span.content[i], span.style))
}

/// The characters of a line, each with its style.
pub open spec fn glyphs(line: Seq<SpanView>) -> Seq<(char, StyleView)>
    decreases line.len(),
{
    if line.len() == 0 {
        Seq::empty()
    } else {
        glyphs(line.drop_last()) + span_glyphs(line.last())
    }
}

/// The characters of several lines, each with its style, one line after the
/// other.
pub open spec fn all_glyphs(lines: Seq<Seq<SpanView>>) -> Seq<(char, StyleView)>
    decreases lines.len(),
{
    if lines.len() == 0 {
        Seq::empty()
    } else {
        all_glyphs(lines.drop_last()) + glyphs(lines.last())
    }
}

/// The text of `line`.
pub fn plain_of(line: &Line) -> (r: String)
    ensures
        r@ == plain(line@),
{
    let mut out = String::new();
    let mut i: usize = 0;
    assert(line@.take(0) =~= Seq::empty());
    while i < line.spans.len()
        invariant
            i <= line.spans@.len(),
            line@.len() == line.spans@.len(),
            out@ == plain(line@.take(i as int)),
        decreases line.spans@.len() - i,
    {
        out.append(line.spans[i].content.as_str());
        assert(line@.take(i + 1).drop_last() =~= line@.take(i as int));
        assert(line@.take(i + 1).last() == line.spans@[i as int]@);
        i += 1;
    }
    assert(line@.take(i as int) =~= line@);
    out
}

/// The text of each of `lines`.
pub fn plains_of(lines: &[Line]) -> (r: Vec<String>)
    ensures
        r.deep_view() == plains(lines.deep_view()),
{
    let mut out: Vec<String> = Vec::new();
    let mut i: usize = 0;
    while i < lines.len()
        invariant
            i <= lines@.len(),
            out@.len() == i,
            forall|k: int| 0 <= k < i ==> (#[trigger] out@[k])@ == plain(lines@[k]@),
        decreases lines@.len() - i,
    {
        out.push(plain_of(&lines[i]));
        i += 1;
    }
    assert(out.deep_view() =~= plains(lines.deep_view()));
    out
}

/// A copy of `lines`.
pub fn clone_lines(lines: &[Line]) -> (r: Vec<Line>)
    ensures
        r.deep_view() == lines.deep_view(),
{
    let mut out: Vec<Line> = Vec::new();
    let mut i: usize = 0;
    while i < lines.len()
        invariant
            i <= lines@.len(),
            out@.len() == i,
            forall|k: int| 0 <= k < i ==> (#[trigger] out@[k])@ == lines@[k]@,
        decreases lines@.len() - i,
    {
        out.push(lines[i].clone());
        i += 1;
    }
    assert(out.deep_view() =~= lines.deep_view());
    out
}

/// The glyphs of two runs of spans in a row follow each other.
pub proof fn law_glyphs_add(a: Seq<SpanView>, b: Seq<SpanView>)
    ensures
        glyphs(a + b) == glyphs(a) + glyphs(b),
    decreases b.len(),
{
    if b.len() == 0 {
        assert(a + b =~= a);
        assert(glyphs(a) + glyphs(b) =~= glyphs(a));
    } else {
        law_glyphs_add(a, b.drop_last());
        assert((a + b).drop_last() =~= a + b.drop_last());
        assert((a + b).last() == b.last());
        assert(glyphs(a + b) =~= glyphs(a) + glyphs(b));
    }
}

/// The glyphs of a line are its text: the characters agree one by one.
pub proof fn law_glyphs_are_plain(line: Seq<SpanView>)
    ensures
        glyphs(line).len() == plain(line).len(),
        forall|i: int| 0 <= i < plain(line).len() ==> (#[trigger] glyphs(line)[i]).0 == plain(line)[i],
    decreases line.len(),
{
    if line.len() > 0 {
        law_glyphs_are_plain(line.drop_last());
    }
}

/// The glyphs of two runs of lines in a row follow each other.
pub proof fn law_all_glyphs_add(a: Seq<Seq<SpanView>>, b: Seq<Seq<SpanView>>)
    ensures
        all_glyphs(a + b) == all_glyphs(a) + all_glyphs(b),
    decreases b.len(),
{
    if b.len() == 0 {
        assert(a + b =~= a);
        assert(all_glyphs(a) + all_glyphs(b) =~= all_glyphs(a));
    } else {
        law_all_glyphs_add(a, b.drop_last());
        assert((a + b).drop_last() =~= a + b.drop_last());
        assert((a + b).last() == b.last());
        assert(all_glyphs(a + b) =~= all_glyphs(a) + all_glyphs(b));
    }
}

/// The text and the glyphs of a line are those of its spans, in their order.
pub proof fn law_line_is_its_spans(line: Seq<SpanView>, span: SpanView)
    ensures
        plain(line.push(span)) == plain(line) + span.content,
        glyphs(line.push(span)) == glyphs(line) + span_glyphs(span),
        plain(Seq::empty()) == Seq::<char>::empty(),
        glyphs(Seq::empty()) == Seq::<(char, StyleView)>::empty(),
        span_glyphs(span).len() == span.content.len(),
        forall|i: int|
            0 <= i < span.content.len() ==> #[trigger] span_glyphs(span)[i] == (
                span.content[i],
                span.style,
            ),
{
    assert(line.push(span).drop_last() =~= line);
}

/// The texts of lines are the texts of each of them.
pub proof fn law_plains_are_the_texts(lines: Seq<Seq<SpanView>>, i: int)
    requires
        0 <= i < lines.len(),
    ensures
        plains(lines).len() == lines.len(),
        plains(lines)[i] == plain(lines[i]),
{
}

/// A line made of a text shows this text, in the style that changes nothing, and
/// has no span if there is no text.
pub proof fn law_raw_line_is_the_text(s: Seq<char>)
    ensures
        plain(raw_line(s)) == s,
        raw_line(s).len() == if s.len() == 0 {
            0nat
        } else {
            1nat
        },
        forall|i: int|
            0 <= i < glyphs(raw_line(s)).len() ==> (#[trigger] glyphs(raw_line(s))[i]).1
                == StyleView::plain(),
{
    let none = Seq::<SpanView>::empty();
    law_line_is_its_spans(none, raw_span(s));
    assert(none.push(raw_span(s)) =~= seq![raw_span(s)]);
    assert(plain(none) + s =~= s);
    assert(glyphs(none) + span_glyphs(raw_span(s)) =~= span_glyphs(raw_span(s)));
    if s.len() == 0 {
        assert(s =~= Seq::empty());
    }
}

/// What a style sets wins over what it is laid over, and what it does not set
/// stays. The style that changes nothing changes nothing.
pub proof fn law_patched(base: StyleView, over: StyleView)
    ensures
        ({
            let r = base.patched(over);
            &&& r.fg == if over.fg is Some { over.fg } else { base.fg }
            &&& r.bg == if over.bg is Some { over.bg } else { base.bg }
            &&& r.underline_color == if over.underline_color is Some {
                over.underline_color
            } else {
                base.underline_color
            }
            &&& r.add_modifier & over.add_modifier == over.add_modifier
            &&& r.sub_modifier & over.sub_modifier == over.sub_modifier
            &&& r.add_modifier & over.sub_modifier & !over.add_modifier == 0
            &&& r.sub_modifier & over.add_modifier & !over.sub_modifier == 0
            &&& r.add_modifier & !(over.add_modifier | over.sub_modifier) == base.add_modifier & !(
            over.add_modifier | over.sub_modifier)
            &&& r.sub_modifier & !(over.add_modifier | over.sub_modifier) == base.sub_modifier & !(
            over.add_modifier | over.sub_modifier)
        }),
        base.patched(StyleView::plain()) == base,
        StyleView::plain().patched(over) == over,
{
    lemma_patch_bits(base.add_modifier, over.sub_modifier, over.add_modifier);
    lemma_patch_bits(base.sub_modifier, over.add_modifier, over.sub_modifier);
    lemma_patch_bits(base.add_modifier, 0, 0);
    lemma_patch_bits(base.sub_modifier, 0, 0);
    lemma_patch_bits(0, over.sub_modifier, over.add_modifier);
    lemma_patch_bits(0, over.add_modifier, over.sub_modifier);
}

proof fn lemma_patch_bits(base: u16, off: u16, on: u16)
    ensures
        ((base & !off) | on) & on == on,
        ((base & !off) | on) & off & !on == 0,
        ((base & !off) | on) & !(on | off) == base & !(on | off),
        ((base & !off) | on) & !(off | on) == base & !(off | on),
        off == 0 && on == 0 ==> ((base & !off) | on) == base,
        base == 0 ==> ((base & !off) | on) == on,
{
    assert(((base & !off) | on) & on == on) by (bit_vector);
    assert(((base & !off) | on) & off & !on == 0) by (bit_vector);
    assert(((base & !off) | on) & !(on | off) == base & !(on | off)) by (bit_vector);
    assert(((base & !off) | on) & !(off | on) == base & !(off | on)) by (bit_vector);
    assert(off == 0 && on == 0 ==> ((base & !off) | on) == base) by (bit_vector);
    assert(base == 0 ==> ((base & !off) | on) == on) by (bit_vector);
}

/// Switching modifiers on leaves all else of a style as it is.
pub proof fn law_with_modifier(style: StyleView, bits: u16)
    ensures
        ({
            let r = style.with_modifier(bits);
            &&& r.fg == style.fg && r.bg == style.bg && r.underline_color == style.underline_color
            &&& r.add_modifier & bits == bits
            &&& r.sub_modifier & bits == 0
            &&& r.add_modifier & !bits == style.add_modifier & !bits
            &&& r.sub_modifier & !bits == style.sub_modifier & !bits
        }),
{
    let a = style.add_modifier;
    let s = style.sub_modifier;
    assert((a | bits) & bits == bits) by (bit_vector);
    assert((s & !bits) & bits == 0) by (bit_vector);
    assert((a | bits) & !bits == a & !bits) by (bit_vector);
    assert((s & !bits) & !bits == s & !bits) by (bit_vector);
}

} // verus!

//! Mirrors of panes: how they are read, kept and rendered.

use vstd::prelude::*;
use vstd::slice::slice_subrange;
use vstd::string::*;

use crate::anchor::{followed, guessed, heuristic_anchor, law_guess, track_anchor_plain};
use crate::ansi::{ansi_lines, normalized, parse_ansi, shown_lines};
use crate::cursor::{
    cursor_lands, cursored, law_cursor_behind_the_text, law_cursor_is_visible, law_cursor_lands,
    law_cursor_on_the_text, law_no_cursor_changes_nothing, reversed, shows_reversed,
    try_with_cursor,
};
use crate::herdr::{label, label_of, PaneInfo};
use crate::layout::{sizes, Rect, TabLayout};
use crate::line::{
    all_glyphs, clone_lines, glyphs, plain, plains, plains_of, Line, SpanView, StyleView,
};
use crate::table::PaneTable;
use crate::text::{blank, white};
use crate::width::cells;
use crate::wrap::{
    law_lines_are_wrapped_one_by_one, law_wrap_line_that_fits, law_wrapped_keeps_glyphs,
    law_wrapped_rows_fit, measured, no_empty_span, row_columns, wrap_line, wrap_lines, wrapped,
};

verus! {

/// How many lines of a pane are read at most.
pub const READ_LINES: usize = 14;

/// A way to read a pane.
#[derive(Clone, Copy, Debug, PartialEq, Eq, Structural)]
pub enum Source {
    /// The herdr socket.
    Socket,
    /// The herdr command line.
    Cli,
}

/// What is to be done to read a pane.
#[derive(Debug)]
pub enum ReadStep {
    /// Read it in this way.
    Ask(Source),
    /// This was read, nothing if the pane could not be read.
    Done(Option<String>),
}

/// Reads a pane again and again: through the socket as long as that works, and
/// through the command line for the rest of the run once it did not.
#[derive(Debug)]
pub struct Reader {
    source: Source,
}

/// The model of a `Reader`: the way that it takes first.
impl View for Reader {
    type V = Source;

    closed spec fn view(&self) -> Source {
        self.source
    }
}

/// The way that is taken after a read.
pub open spec fn next_source(source: Source, worked: bool) -> Source {
    if worked {
        source
    } else {
        Source::Cli
    }
}

/// What is to be done once a way was taken: only if the socket brought nothing is
/// the command line asked.
pub open spec fn step_after(source: Source, text: Option<String>) -> ReadStep {
    if source == Source::Socket && text is None {
        ReadStep::Ask(Source::Cli)
    } else {
        ReadStep::Done(text)
    }
}

impl Reader {
    /// A reader, given whether the socket could be connected to.
    pub fn new(connected: bool) -> (r: Reader)
        ensures
            r@ == if connected {
                Source::Socket
            } else {
                Source::Cli
            },
    {
        Reader { source: if connected { Source::Socket } else { Source::Cli } }
    }

    /// The way that is taken first.
    pub fn source(&self) -> (r: Source)
        ensures
            r == self@,
    {
        self.source
    }

    /// Tells the reader what came of the way that it took. Only if the command
    /// line fails is nothing read.
    pub fn on_read(&mut self, text: Option<String>) -> (r: ReadStep)
        ensures
            final(self)@ == next_source(old(self)@, text is Some),
            r == step_after(old(self)@, text),
    {
        match text {
            Some(t) => ReadStep::Done(Some(t)),
            None => match self.source {
                Source::Socket => {
                    self.source = Source::Cli;
                    ReadStep::Ask(Source::Cli)
                },
                Source::Cli => ReadStep::Done(None),
            },
        }
    }
}

/// The way that is taken after some reads.
pub open spec fn source_after(source: Source, worked: Seq<bool>) -> Source
    decreases worked.len(),
{
    if worked.len() == 0 {
        source
    } else {
        next_source(source_after(source, worked.drop_last()), worked.last())
    }
}

/// The socket is used exactly as long as all reads worked: it is never gone back
/// to.
pub proof fn law_socket_is_given_up_for_good(source: Source, worked: Seq<bool>)
    ensures
        source_after(source, worked) == Source::Socket <==> source == Source::Socket
            && !worked.contains(false),
    decreases worked.len(),
{
    if worked.len() > 0 {
        let before = worked.drop_last();
        law_socket_is_given_up_for_good(source, before);
        if before.contains(false) {
            let k = choose|k: int| 0 <= k < before.len() && before[k] == false;
            assert(worked[k] == false);
        }
        if worked.contains(false) && !before.contains(false) {
            let k = choose|k: int| 0 <= k < worked.len() && worked[k] == false;
            if k < before.len() {
                assert(before[k] == false);
            }
        }
        if !worked.last() {
            assert(worked[worked.len() - 1] == false);
        }
    }
}

/// The widths of the panes.
#[derive(Debug)]
pub struct Widths {
    table: PaneTable<u16>,
}

/// The model of a `Widths`.
impl View for Widths {
    type V = Map<Seq<char>, u16>;

    closed spec fn view(&self) -> Map<Seq<char>, u16> {
        self.table@
    }
}

/// The width of a pane in columns: 1 at least, and cut to sixteen bits.
pub open spec fn pane_width(rect: Rect) -> u16 {
    if rect.width < 1 {
        1
    } else {
        rect.width as u16
    }
}

/// The widths after a layout came in: a pane that is in it gets the width that
/// is given for it last, all others keep theirs.
pub open spec fn widths_after(
    widths: Map<Seq<char>, u16>,
    panes: Seq<(Seq<char>, Rect)>,
) -> Map<Seq<char>, u16>
    decreases panes.len(),
{
    if panes.len() == 0 {
        widths
    } else {
        widths_after(widths, panes.drop_last()).insert(panes.last().0, pane_width(panes.last().1))
    }
}

/// The width of a pane, 0 if it is not known.
pub open spec fn known_width(widths: Map<Seq<char>, u16>, id: Seq<char>) -> u16 {
    if widths.dom().contains(id) {
        widths[id]
    } else {
        0
    }
}

impl Widths {
    /// Whether no pane occurs twice.
    pub closed spec fn wf(&self) -> bool {
        self.table.wf()
    }

    /// No widths.
    pub fn new() -> (r: Widths)
        ensures
            r.wf(),
            r@ == Map::<Seq<char>, u16>::empty(),
    {
        Widths { table: PaneTable::new() }
    }

    /// Takes the widths out of a layout.
    pub fn refresh(&mut self, layout: &TabLayout)
        requires
            old(self).wf(),
        ensures
            final(self).wf(),
            final(self)@ == widths_after(old(self)@, layout@.panes),
    {
        let ghost all = layout@.panes;
        let mut i: usize = 0;
        assert(all.take(0) =~= Seq::empty());
        while i < layout.panes.len()
            invariant
                self.wf(),
                i <= layout.panes@.len(),
                all == sizes(layout.panes@),
                self@ == widths_after(old(self)@, all.take(i as int)),
            decreases layout.panes@.len() - i,
        {
            let rect = layout.panes[i].1;
            let width: u16 = if rect.width < 1 {
                1
            } else {
                #[verifier::truncate]
                (rect.width as u16)
            };
            self.table.insert(layout.panes[i].0.as_str(), width);
            assert(all.take(i + 1).drop_last() =~= all.take(i as int));
            i += 1;
        }
        assert(all.take(i as int) =~= all);
    }

    /// The width of a pane, 0 if it is not known.
    pub fn width_of(&self, id: &str) -> (r: u16)
        requires
            self.wf(),
        ensures
            r == known_width(self@, id@),
    {
        match self.table.get(id) {
            Some(w) => w,
            None => 0,
        }
    }
}

/// News of one of the targets.
#[derive(Debug)]
pub enum MirrorMsg {
    /// The lines that it shows.
    Mirror(usize, Vec<Line>),
    /// It cannot be read.
    Dead(usize),
}

/// The model of a `MirrorMsg`.
pub enum MirrorMsgView {
    Mirror(int, Seq<Seq<SpanView>>),
    Dead(int),
}

impl View for MirrorMsg {
    type V = MirrorMsgView;

    open spec fn view(&self) -> MirrorMsgView {
        match self {
            MirrorMsg::Mirror(i, lines) => MirrorMsgView::Mirror(*i as int, lines.deep_view()),
            MirrorMsg::Dead(i) => MirrorMsgView::Dead(*i as int),
        }
    }
}

/// The lines that a pane shows: its text, wrapped at its width.
pub open spec fn mirrored(text: Seq<char>, width: int) -> Seq<Seq<SpanView>> {
    wrapped(shown_lines(ansi_lines(normalized(text)), normalized(text)), width)
}

/// The news of a target, given what was read of it.
pub fn mirror_msg(index: usize, text: Option<String>, width: u16) -> (r: MirrorMsg)
    ensures
        r@ == match text {
            Some(t) => MirrorMsgView::Mirror(index as int, mirrored(t@, width as int)),
            None => MirrorMsgView::Dead(index as int),
        },
{
    match text {
        Some(t) => MirrorMsg::Mirror(index, wrap_lines(parse_ansi(t.as_str()), width)),
        None => MirrorMsg::Dead(index),
    }
}

/// What a rendering depends on.
#[derive(Clone, Copy, Debug)]
pub struct RenderKey {
    /// The version of the mirror.
    pub ver: u64,
    /// How many lines the mirror has.
    pub len: usize,
    pub anchor: Option<(usize, u16)>,
    pub cursor_on: bool,
    /// The width of the cell.
    pub width: u16,
    /// The height of the cell.
    pub rows: usize,
}

fn same_key(a: &RenderKey, b: &RenderKey) -> (r: bool)
    ensures
        r == (*a == *b),
{
    let same_anchor = match (a.anchor, b.anchor) {
        (Some((r, c)), Some((s, d))) => r == s && c == d,
        (None, None) => true,
        _ => false,
    };
    same_anchor && a.ver == b.ver && a.len == b.len && a.cursor_on == b.cursor_on && a.width
        == b.width && a.rows == b.rows
}

/// The last rendering of a mirror.
#[derive(Debug)]
pub struct RenderCache {
    pub lines: Vec<Line>,
    pub key: RenderKey,
}

/// The key of a cache that was never filled.
pub open spec fn no_key() -> RenderKey {
    RenderKey { ver: 0, len: 0, anchor: None, cursor_on: false, width: 0, rows: 0 }
}

impl RenderCache {
    /// A cache that was never filled.
    pub fn new() -> (r: RenderCache)
        ensures
            r.lines@.len() == 0,
            r.key == no_key(),
    {
        RenderCache {
            lines: Vec::new(),
            key: RenderKey { ver: 0, len: 0, anchor: None, cursor_on: false, width: 0, rows: 0 },
        }
    }
}

/// A pane that is broadcast to, and its mirror.
#[derive(Debug)]
pub struct Target {
    pub pane_id: String,
    pub label: String,
    pub dead: bool,
    pub mirror: Vec<Line>,
    /// Where the cursor is thought to be.
    pub anchor: Option<(usize, u16)>,
    /// The mirror without its styles.
    pub plain: Vec<String>,
    /// Counts the changes of the mirror.
    pub ver: u64,
    pub render: RenderCache,
}

/// The model of a `Target`.
#[verifier::ext_equal]
pub struct TargetView {
    pub pane_id: Seq<char>,
    pub label: Seq<char>,
    pub dead: bool,
    pub mirror: Seq<Seq<SpanView>>,
    pub anchor: Option<(usize, u16)>,
    pub plain: Seq<Seq<char>>,
    pub ver: u64,
    pub cached: Seq<Seq<SpanView>>,
    pub key: RenderKey,
}

impl View for Target {
    type V = TargetView;

    open spec fn view(&self) -> TargetView {
        TargetView {
            pane_id: self.pane_id@,
            label: self.label@,
            dead: self.dead,
            mirror: self.mirror.deep_view(),
            anchor: self.anchor,
            plain: self.plain.deep_view(),
            ver: self.ver,
            cached: self.render.lines.deep_view(),
            key: self.render.key,
        }
    }
}

impl DeepView for Target {
    type V = TargetView;

    open spec fn deep_view(&self) -> TargetView {
        self.view()
    }
}

/// The version that follows a version.
pub open spec fn next_ver(ver: u64) -> u64 {
    if ver == u64::MAX {
        0
    } else {
        (ver + 1) as u64
    }
}

/// A target of which nothing has been read.
pub open spec fn fresh_target(info: PaneInfo) -> TargetView {
    TargetView {
        pane_id: info.pane_id@,
        label: label(info),
        dead: false,
        mirror: Seq::empty(),
        anchor: None,
        plain: Seq::empty(),
        ver: 1,
        cached: Seq::empty(),
        key: no_key(),
    }
}

impl TargetView {
    /// The target after its mirror changed: the anchor follows the change.
    pub open spec fn received(self, lines: Seq<Seq<SpanView>>) -> TargetView {
        TargetView {
            mirror: lines,
            anchor: followed(self.plain, plains(lines), self.anchor),
            plain: plains(lines),
            ver: next_ver(self.ver),
            ..self
        }
    }

    /// How many lines are above the cell.
    pub open spec fn cut(self, rows: int) -> int {
        if self.mirror.len() > rows {
            self.mirror.len() - rows
        } else {
            0
        }
    }

    /// The lines in the cell.
    pub open spec fn shown(self, rows: int) -> Seq<Seq<SpanView>> {
        self.mirror.skip(self.cut(rows))
    }

    /// Where the cursor is in the cell: where it was followed to, or else where
    /// it is guessed to be.
    pub open spec fn shown_anchor(self, rows: int) -> Option<(usize, u16)> {
        let cut = self.cut(rows);
        let guess = guessed(
            self.plain.skip(
                if cut < self.plain.len() {
                    cut
                } else {
                    self.plain.len() as int
                },
            ),
        );
        match self.anchor {
            Some((r, c)) => {
                let row = if r > cut {
                    r - cut
                } else {
                    0
                };
                if row < self.shown(rows).len() {
                    Some((row as usize, c))
                } else {
                    guess
                }
            },
            None => guess,
        }
    }

    /// What a rendering in a cell depends on.
    pub open spec fn key_for(self, cursor_on: bool, width: u16, rows: usize) -> RenderKey {
        RenderKey {
            ver: self.ver,
            len: self.mirror.len() as usize,
            anchor: self.anchor,
            cursor_on,
            width,
            rows,
        }
    }

    /// The mirror in a cell, with the cursor in it.
    pub open spec fn rendering(self, cursor_on: bool, width: u16, rows: usize) -> Seq<
        Seq<SpanView>,
    > {
        cursored(self.shown(rows as int), self.shown_anchor(rows as int), cursor_on, width as int)
    }

    /// Whether the cursor lands in the cell.
    pub open spec fn renders(self, cursor_on: bool, width: u16, rows: usize) -> bool {
        cursor_lands(
            self.shown(rows as int),
            self.shown_anchor(rows as int),
            cursor_on,
            width as int,
        )
    }

    /// Whether the last rendering is used again.
    pub open spec fn reuses(self, cursor_on: bool, width: u16, rows: usize) -> bool {
        self.key == self.key_for(cursor_on, width, rows)
    }

    /// The target after it was rendered in a cell.
    pub open spec fn rendered(self, cursor_on: bool, width: u16, rows: usize) -> TargetView {
        if self.reuses(cursor_on, width, rows) {
            self
        } else {
            TargetView {
                cached: self.rendering(cursor_on, width, rows),
                key: self.key_for(cursor_on, width, rows),
                ..self
            }
        }
    }
}

impl Target {
    /// A target of which nothing has been read.
    pub fn new(info: &PaneInfo) -> (r: Target)
        ensures
            r@ == fresh_target(*info),
    {
        let r = Target {
            pane_id: info.pane_id.clone(),
            label: label_of(info),
            dead: false,
            mirror: Vec::new(),
            anchor: None,
            plain: Vec::new(),
            ver: 1,
            render: RenderCache::new(),
        };
        assert(r@ =~= fresh_target(*info));
        r
    }

    /// Takes new lines in.
    pub fn receive(&mut self, lines: Vec<Line>)
        ensures
            final(self)@ == old(self)@.received(lines.deep_view()),
    {
        let plain = plains_of(lines.as_slice());
        self.anchor = track_anchor_plain(self.plain.as_slice(), plain.as_slice(), self.anchor);
        self.mirror = lines;
        self.plain = plain;
        self.ver = if self.ver == u64::MAX { 0 } else { self.ver + 1 };
    }

    fn key_for(&self, cursor_on: bool, width: u16, rows: usize) -> (r: RenderKey)
        ensures
            r == self@.key_for(cursor_on, width, rows),
    {
        RenderKey {
            ver: self.ver,
            len: self.mirror.len(),
            anchor: self.anchor,
            cursor_on,
            width,
            rows,
        }
    }

    /// Renders the mirror in a cell, `None` if the cursor does not land.
    pub fn rendering(&self, cursor_on: bool, width: u16, rows: usize) -> (r: Option<Vec<Line>>)
        ensures
            r is Some <==> self@.renders(cursor_on, width, rows),
            r matches Some(lines) ==> lines.deep_view() == self@.rendering(cursor_on, width, rows),
    {
        let n = self.mirror.len();
        let cut: usize = if n > rows { n - rows } else { 0 };
        let shown = slice_subrange(self.mirror.as_slice(), cut, n);
        assert(shown.deep_view() =~= self@.shown(rows as int));
        let plain_len = self.plain.len();
        let plain_cut: usize = if cut < plain_len { cut } else { plain_len };
        let followed = match self.anchor {
            Some((r, c)) => {
                let row: usize = if r > cut { r - cut } else { 0 };
                if row < shown.len() {
                    Some((row, c))
                } else {
                    None
                }
            },
            None => None,
        };
        let anchor = match followed {
            Some(a) => Some(a),
            None => {
                let plain = slice_subrange(self.plain.as_slice(), plain_cut, plain_len);
                assert(plain.deep_view() =~= self@.plain.skip(plain_cut as int));
                heuristic_anchor(plain)
            },
        };
        assert(anchor == self@.shown_anchor(rows as int));
        try_with_cursor(shown, anchor, cursor_on, width)
    }

    /// Renders the mirror in a cell unless the last rendering can be used again.
    /// `None`, and nothing else happens, if the cursor does not land.
    pub fn render_in(&mut self, cursor_on: bool, width: u16, rows: usize) -> (r: Option<Vec<Line>>)
        ensures
            match r {
                Some(lines) => {
                    &&& old(self)@.reuses(cursor_on, width, rows) || old(self)@.renders(
                        cursor_on,
                        width,
                        rows,
                    )
                    &&& final(self)@ == old(self)@.rendered(cursor_on, width, rows)
                    &&& lines.deep_view() == final(self)@.cached
                },
                None => {
                    &&& !old(self)@.reuses(cursor_on, width, rows)
                    &&& !old(self)@.renders(cursor_on, width, rows)
                    &&& final(self)@ == old(self)@
                },
            },
    {
        let key = self.key_for(cursor_on, width, rows);
        if !same_key(&self.render.key, &key) {
            match self.rendering(cursor_on, width, rows) {
                Some(lines) => {
                    self.render = RenderCache { lines, key };
                },
                None => {
                    return None;
                },
            }
        }
        Some(clone_lines(self.render.lines.as_slice()))
    }
}

impl TargetView {
    /// Whether the last rendering, if it is used again, is what a new one would
    /// be.
    pub open spec fn coherent(self) -> bool {
        &&& self.key.ver <= self.ver
        &&& forall|cursor_on: bool, width: u16, rows: usize| #[trigger]
            self.reuses(cursor_on, width, rows) ==> self.cached == self.rendering(
                cursor_on,
                width,
                rows,
            )
    }
}

/// What is drawn of a target is always what its mirror holds now, never an old
/// rendering: that is so at the start, and whatever is received and rendered
/// keeps it so. Only the change that starts the count of versions anew is left
/// out.
pub proof fn law_mirror_is_never_stale(
    info: PaneInfo,
    t: TargetView,
    lines: Seq<Seq<SpanView>>,
    cursor_on: bool,
    width: u16,
    rows: usize,
)
    requires
        t.coherent(),
    ensures
        fresh_target(info).coherent(),
        t.rendered(cursor_on, width, rows).cached == t.rendering(cursor_on, width, rows),
        t.rendered(cursor_on, width, rows).coherent(),
        t.ver < u64::MAX ==> t.received(lines).coherent(),
{
    let next = t.rendered(cursor_on, width, rows);
    assert forall|c: bool, w: u16, r: usize| #[trigger] next.reuses(c, w, r) implies next.cached
        == next.rendering(c, w, r) by {
        if t.reuses(cursor_on, width, rows) {
            assert(t.reuses(c, w, r));
        } else {
            assert(c == cursor_on && w == width && r == rows);
            assert(next.shown(r as int) == t.shown(r as int));
            assert(next.shown_anchor(r as int) == t.shown_anchor(r as int));
        }
    }
}

/// A mirror holds every character that was read, in its order and in its style,
/// however it is wrapped.
pub proof fn law_mirror_keeps_what_was_read(text: Seq<char>, width: int)
    ensures
        all_glyphs(mirrored(text, width)) == all_glyphs(
            shown_lines(ansi_lines(normalized(text)), normalized(text)),
        ),
{
    law_wrapped_keeps_glyphs(
        shown_lines(ansi_lines(normalized(text)), normalized(text)),
        width,
    );
}

/// A cell shows the newest lines of its mirror, as many as fit.
pub proof fn law_newest_lines_are_shown(t: TargetView, rows: int, i: int)
    requires
        0 <= rows,
    ensures
        t.shown(rows).len() == if t.mirror.len() < rows {
            t.mirror.len() as int
        } else {
            rows
        },
        0 <= i < t.shown(rows).len() ==> t.shown(rows)[t.shown(rows).len() - 1 - i]
            == t.mirror[t.mirror.len() - 1 - i],
{
}

/// The cursor of a target is visible whenever it is on and the cell shows any
/// text, wherever it was followed to.
pub proof fn law_shadow_cursor_is_visible(t: TargetView, width: u16, rows: usize, i: int) -> (row:
    int)
    requires
        t.renders(true, width, rows),
        t.plain == plains(t.mirror),
        t.mirror.len() <= usize::MAX,
        0 <= i < t.shown(rows as int).len(),
        !blank(plain(t.shown(rows as int)[i])),
    ensures
        0 <= row < t.rendering(true, width, rows).len(),
        shows_reversed(t.rendering(true, width, rows)[row]),
{
    let cut = t.cut(rows as int);
    let texts = t.plain.skip(cut);
    law_guess(texts, i);
    assert(texts[i] == plain(t.shown(rows as int)[i]));
    assert(t.shown_anchor(rows as int) is Some);
    law_cursor_is_visible(t.shown(rows as int), t.shown_anchor(rows as int)->0, width as int)
}

/// What was read last is what the mirror holds, all of it and nothing of what was
/// there before, and its texts are the texts of these lines. The rest of the
/// target stays, and the change is counted.
pub proof fn law_mirror_is_what_was_read_last(t: TargetView, lines: Seq<Seq<SpanView>>)
    ensures
        t.received(lines).mirror == lines,
        t.received(lines).plain == plains(lines),
        t.received(lines).plain == plains(t.received(lines).mirror),
        t.received(lines).pane_id == t.pane_id,
        t.received(lines).label == t.label,
        t.received(lines).dead == t.dead,
        t.received(lines).cached == t.cached,
        t.received(lines).key == t.key,
        t.received(lines).ver != t.ver,
        t.ver < u64::MAX ==> t.received(lines).ver == t.ver + 1,
{
}

/// What is drawn after a read, with the cursor off, are the last lines of what was
/// read, as many as the cell has rows: nothing of an earlier read is left.
pub proof fn law_last_lines_read_are_drawn(
    t: TargetView,
    lines: Seq<Seq<SpanView>>,
    width: u16,
    rows: usize,
    i: int,
)
    requires
        t.coherent(),
        t.ver < u64::MAX,
        lines.len() > 0,
        rows > 0,
    ensures
        ({
            let drawn = t.received(lines).rendered(false, width, rows).cached;
            &&& lines.len() <= rows ==> drawn == lines
            &&& lines.len() > rows ==> drawn.len() == rows
            &&& 0 <= i < drawn.len() ==> drawn[drawn.len() - 1 - i] == lines[lines.len() - 1 - i]
        }),
{
    let next = t.received(lines);
    law_newest_lines_are_shown(next, rows as int, i);
    assert(!next.reuses(false, width, rows));
    law_no_cursor_changes_nothing(
        next.shown(rows as int),
        next.shown_anchor(rows as int),
        width as int,
    );
    if lines.len() <= rows {
        assert(lines.skip(0) =~= lines);
    }
}

/// The anchor of a target follows what is read: from the texts before and its
/// place before to the texts that were read.
pub proof fn law_anchor_follows_what_is_read(t: TargetView, lines: Seq<Seq<SpanView>>)
    ensures
        t.received(lines).anchor == followed(t.plain, plains(lines), t.anchor),
        t.plain.len() > 0 && plains(lines) == t.plain ==> t.received(lines).anchor == t.anchor,
        t.plain.len() == 0 && guessed(plains(lines)) is Some ==> t.received(lines).anchor == guessed(
            plains(lines),
        ),
{
}

/// In a cell the cursor stands on the line that the anchor is on; if that line is
/// above the cell, on the first one. Where the anchor is not on the mirror, or
/// there is none, it stands where the shown text alone puts it.
pub proof fn law_cursor_stands_on_its_line(t: TargetView, rows: usize, r: usize, c: u16)
    requires
        t.plain == plains(t.mirror),
        rows > 0,
    ensures
        ({
            let n = t.mirror.len() as int;
            let above = if n > rows { n - rows } else { 0 };
            &&& t.anchor == Some((r, c)) && above <= r < n ==> {
                &&& t.shown_anchor(rows as int) == Some(((r - above) as usize, c))
                &&& t.shown(rows as int)[r - above] == t.mirror[r as int]
            }
            &&& t.anchor == Some((r, c)) && r < above ==> t.shown_anchor(rows as int) == Some(
                (0usize, c),
            )
            &&& t.anchor == Some((r, c)) && r >= n ==> t.shown_anchor(rows as int) == guessed(
                plains(t.mirror.skip(above)),
            )
            &&& t.anchor is None ==> t.shown_anchor(rows as int) == guessed(
                plains(t.mirror.skip(above)),
            )
        }),
{
    let n = t.mirror.len() as int;
    let above = if n > rows { n - rows } else { 0 };
    assert(plains(t.mirror).skip(above) =~= plains(t.mirror.skip(above)));
}

/// To render twice in the same cell is to render once, and rendering changes
/// neither the mirror nor the anchor.
pub proof fn law_rendering_is_kept(t: TargetView, cursor_on: bool, width: u16, rows: usize)
    ensures
        t.rendered(cursor_on, width, rows).rendered(cursor_on, width, rows) == t.rendered(
            cursor_on,
            width,
            rows,
        ),
        t.rendered(cursor_on, width, rows).mirror == t.mirror,
        t.rendered(cursor_on, width, rows).plain == t.plain,
        t.rendered(cursor_on, width, rows).anchor == t.anchor,
        t.rendered(cursor_on, width, rows).ver == t.ver,
        t.rendered(cursor_on, width, rows).pane_id == t.pane_id,
        t.rendered(cursor_on, width, rows).label == t.label,
        t.rendered(cursor_on, width, rows).dead == t.dead,
        t.rendered(cursor_on, width, rows).key.width == width,
        t.rendered(cursor_on, width, rows).key.rows == rows,
        t.rendered(cursor_on, width, rows).key.cursor_on == cursor_on,
{
}

/// A target of which nothing has been read is alive, shows nothing and has no
/// anchor.
pub proof fn law_fresh_target(info: PaneInfo)
    ensures
        fresh_target(info).pane_id == info.pane_id@,
        fresh_target(info).label == label(info),
        !fresh_target(info).dead,
        fresh_target(info).mirror.len() == 0,
        fresh_target(info).plain == plains(fresh_target(info).mirror),
        fresh_target(info).anchor is None,
{
    assert(plains(Seq::<Seq<SpanView>>::empty()) =~= Seq::empty());
}

/// A pane is as wide as its rectangle, and one column at least.
pub proof fn law_pane_width(rect: Rect)
    ensures
        rect.width <= 0 ==> pane_width(rect) == 1,
        1 <= rect.width <= u16::MAX ==> pane_width(rect) == rect.width,
{
}

/// After a layout came in, a pane that is in it has the width that the last
/// rectangle for it gives; any other pane has the width that it had.
pub proof fn law_widths_after(
    widths: Map<Seq<char>, u16>,
    panes: Seq<(Seq<char>, Rect)>,
    id: Seq<char>,
    k: int,
)
    ensures
        (forall|i: int| 0 <= i < panes.len() ==> (#[trigger] panes[i]).0 != id) ==> known_width(
            widths_after(widths, panes),
            id,
        ) == known_width(widths, id),
        0 <= k < panes.len() && panes[k].0 == id && (forall|i: int|
            k < i < panes.len() ==> (#[trigger] panes[i]).0 != id) ==> known_width(
            widths_after(widths, panes),
            id,
        ) == pane_width(panes[k].1),
        known_width(Map::empty(), id) == 0,
        widths.dom().contains(id) ==> known_width(widths, id) == widths[id],
    decreases panes.len(),
{
    if panes.len() > 0 {
        let before = panes.drop_last();
        law_widths_after(widths, before, id, k);
        assert(panes.last() == panes[panes.len() - 1]);
        if forall|i: int| 0 <= i < panes.len() ==> (#[trigger] panes[i]).0 != id {
            assert forall|i: int| 0 <= i < before.len() implies (#[trigger] before[i]).0 != id by {
                assert(before[i] == panes[i]);
            }
        }
        if 0 <= k < before.len() && (forall|i: int|
            k < i < panes.len() ==> (#[trigger] panes[i]).0 != id) {
            assert forall|i: int| k < i < before.len() implies (#[trigger] before[i]).0 != id by {
                assert(before[i] == panes[i]);
            }
        }
    }
}

/// The socket is read as long as it works, then the command line, which is kept
/// whatever comes of it.
pub proof fn law_socket_comes_first(worked: bool)
    ensures
        next_source(Source::Socket, true) == Source::Socket,
        next_source(Source::Socket, false) == Source::Cli,
        next_source(Source::Cli, worked) == Source::Cli,
{
}

/// A rendering that is kept is what a new one would be, after each rendering.
pub proof fn law_rendering_stays_coherent(
    t: TargetView,
    cursor_on: bool,
    width: u16,
    rows: usize,
)
    requires
        t.coherent(),
    ensures
        t.rendered(cursor_on, width, rows).coherent(),
        t.rendered(cursor_on, width, rows).cached == t.rendering(cursor_on, width, rows),
{
    let next = t.rendered(cursor_on, width, rows);
    assert forall|c: bool, w: u16, r: usize| #[trigger] next.reuses(c, w, r) implies next.cached
        == next.rendering(c, w, r) by {
        if t.reuses(cursor_on, width, rows) {
            assert(t.reuses(c, w, r));
        } else {
            assert(next.shown(r as int) == t.shown(r as int));
            assert(next.shown_anchor(r as int) == t.shown_anchor(r as int));
        }
    }
}

/// A mirror is as wide as its pane: no row of it is wider, but for a row that a
/// single character has to itself because it is wider than the whole pane. A pane
/// of unknown width is mirrored line by line, as it was read.
pub proof fn law_mirror_fits_its_pane(text: Seq<char>, width: int, i: int)
    ensures
        width > 0 && 0 <= i < mirrored(text, width).len() ==> {
            let row = mirrored(text, width)[i];
            ||| row_columns(row) <= width
            ||| row.len() > 0 && row_columns(row.drop_last()) + cells(row.last().content) <= width
            ||| row.len() > 0 && row.last().content.len() == 1 && row_columns(row.drop_last()) == 0
                && cells(row.last().content) > width
        },
        mirrored(text, 0) == shown_lines(ansi_lines(normalized(text)), normalized(text)),
{
    let lines = shown_lines(ansi_lines(normalized(text)), normalized(text));
    if width > 0 && 0 <= i < mirrored(text, width).len() {
        law_wrapped_rows_fit(lines, width, i);
    }
}

/// What is read is handed on, whichever way it was read. A read that the socket
/// failed is made through the command line; if that fails too, nothing was read.
pub proof fn law_read_goes_on(source: Source, text: String)
    ensures
        step_after(source, Some(text)) == ReadStep::Done(Some(text)),
        step_after(Source::Socket, None) == ReadStep::Ask(Source::Cli),
        step_after(Source::Cli, None) == ReadStep::Done(None),
{
}

/// With the cursor on, it is drawn where the anchor is. Behind the text of its
/// line, that is a reversed blank right behind the text; on the text, it is the
/// character at its column that is reversed. All other lines are drawn as they
/// were read. (For a cursor on the text, every character has to take a column,
/// the widths have to add up, and no span is empty.)
pub proof fn law_cursor_is_drawn_where_it_is(
    t: TargetView,
    width: u16,
    rows: usize,
    r: usize,
    c: u16,
    k: int,
    other: int,
)
    requires
        t.plain == plains(t.mirror),
        rows > 0,
        t.anchor == Some((r, c)),
        r < t.mirror.len() <= usize::MAX,
        t.mirror.len() <= r + rows,
        c < width,
    ensures
        ({
            let above = if t.mirror.len() > rows { t.mirror.len() - rows } else { 0 };
            let line = t.mirror[r as int];
            let out = t.rendering(true, width, rows);
            let drawn = glyphs(out[r - above]);
            &&& c >= row_columns(line) || measured(plain(line)) && no_empty_span(line)
                && row_columns(line) == cells(plain(line)) <= u16::MAX && 0 <= k < plain(line).len()
                && c == cells(plain(line).take(k)) ==> {
                &&& t.renders(true, width, rows)
                &&& out.len() == t.mirror.len() - above
                &&& above <= other < t.mirror.len() && other != r ==> out[other - above]
                    == t.mirror[other]
            }
            &&& c >= row_columns(line) ==> {
                let n = drawn.len() - 1;
                &&& 0 <= n <= glyphs(line).len()
                &&& drawn == glyphs(line).take(n).push((' ', reversed(StyleView::plain())))
                &&& forall|i: int| n <= i < glyphs(line).len() ==> white((#[trigger] glyphs(line)[i]).0)
            }
            &&& c < row_columns(line) && measured(plain(line)) && no_empty_span(line)
                && row_columns(line) == cells(plain(line)) <= u16::MAX && 0 <= k < plain(line).len()
                && c == cells(plain(line).take(k)) ==> drawn == glyphs(line).update(
                k,
                (glyphs(line)[k].0, reversed(glyphs(line)[k].1)),
            )
        }),
{
    let above = if t.mirror.len() > rows { t.mirror.len() - rows } else { 0 };
    let shown = t.shown(rows as int);
    let row = (r - above) as usize;
    let line = t.mirror[r as int];
    law_cursor_stands_on_its_line(t, rows, r, c);
    assert(shown[row as int] == line);
    if c >= row_columns(line) {
        law_cursor_behind_the_text(shown, row, c, width as int, other - above);
        law_cursor_lands(shown, row, c, width as int);
    } else if measured(plain(line)) && no_empty_span(line) && row_columns(line) == cells(plain(line))
        <= u16::MAX && 0 <= k < plain(line).len() && c == cells(plain(line).take(k)) {
        law_cursor_on_the_text(shown, row, c, width as int, k, other - above);
    }
}

/// The row on which a line begins, if the lines before it are wrapped.
pub open spec fn first_row(lines: Seq<Seq<SpanView>>, width: int, i: int) -> int
    decreases i,
{
    if i <= 0 {
        0
    } else {
        first_row(lines, width, i - 1) + wrap_line(lines[i - 1], width).len()
    }
}

proof fn lemma_wrapped_rows(lines: Seq<Seq<SpanView>>, width: int, n: int, i: int)
    requires
        width > 0,
        0 <= n <= lines.len(),
    ensures
        wrapped(lines.take(n), width).len() == first_row(lines, width, n),
        0 <= i < n ==> {
            &&& 0 <= first_row(lines, width, i) <= first_row(lines, width, i + 1) <= first_row(
                lines,
                width,
                n,
            )
            &&& wrapped(lines.take(n), width).subrange(
                first_row(lines, width, i),
                first_row(lines, width, i + 1),
            ) == wrap_line(lines[i], width)
        },
    decreases n,
{
    if n > 0 {
        let init = lines.take(n - 1);
        lemma_wrapped_rows(lines, width, n - 1, i);
        law_lines_are_wrapped_one_by_one(init, lines[n - 1], width);
        assert(lines.take(n) =~= init.push(lines[n - 1]));
        if 0 <= i < n {
            lemma_first_row(lines, width, i);
            let rows = wrapped(lines.take(n), width);
            let a = first_row(lines, width, i);
            let b = first_row(lines, width, i + 1);
            if i < n - 1 {
                assert(rows.subrange(a, b) =~= wrapped(init, width).subrange(a, b));
            } else {
                assert(rows.subrange(a, b) =~= wrap_line(lines[i], width));
            }
        }
    } else {
        assert(lines.take(0) =~= Seq::empty());
        law_lines_are_wrapped_one_by_one(lines, Seq::empty(), width);
    }
}

proof fn lemma_first_row(lines: Seq<Seq<SpanView>>, width: int, i: int)
    ensures
        0 <= first_row(lines, width, i),
    decreases i,
{
    if i > 0 {
        lemma_first_row(lines, width, i - 1);
    }
}

/// A mirror goes line by line through what was read, and leaves no line out: each
/// line begins a row of its own, right behind the rows of the line before, and an
/// empty line is an empty row.
pub proof fn law_mirror_goes_line_by_line(text: Seq<char>, width: int, i: int)
    requires
        width > 0,
    ensures
        ({
            let lines = shown_lines(ansi_lines(normalized(text)), normalized(text));
            &&& mirrored(text, width).len() == first_row(lines, width, lines.len() as int)
            &&& 0 <= i < lines.len() ==> mirrored(text, width).subrange(
                first_row(lines, width, i),
                first_row(lines, width, i + 1),
            ) == wrap_line(lines[i], width)
            &&& 0 <= i < lines.len() && lines[i].len() == 0 ==> wrap_line(lines[i], width) == seq![
                Seq::<SpanView>::empty(),
            ]
        }),
{
    let lines = shown_lines(ansi_lines(normalized(text)), normalized(text));
    lemma_wrapped_rows(lines, width, lines.len() as int, i);
    assert(lines.take(lines.len() as int) =~= lines);
    if 0 <= i < lines.len() && lines[i].len() == 0 {
        assert(lines[i] =~= Seq::empty());
        law_wrap_line_that_fits(lines[i], width);
    }
}

} // verus!

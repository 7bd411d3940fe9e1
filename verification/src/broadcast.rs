//! The broadcast page: what is typed goes to the targets, and what they show is
//! drawn side by side.

use vstd::prelude::*;
use vstd::string::*;

use crate::herdr::PaneInfo;
use crate::input::{meaning, meaning_of, opt_input, wheel, wheel_key};
use crate::input::{
    Event, InputMsg, InputView, KeyCode, Meaning, MeaningView, Modifiers, MouseEventKind,
};
use crate::line::{
    law_raw_line_is_the_text, opt_text, plain, plains, raw_line, Line, SpanView,
};
use crate::mirror::{
    fresh_target, law_rendering_stays_coherent, MirrorMsg, MirrorMsgView, Target, TargetView,
};
use crate::text::{decimal, decimal_of};

verus! {

/// How long a pane is left alone between two reads, in milliseconds.
pub const READ_TICK_MS: u64 = 500;

/// How long an event is waited for before the page is drawn again, in
/// milliseconds.
pub const RENDER_TICK_MS: u64 = 30;

/// How many of these waits a phase of the blinking cursor lasts.
pub const BLINK_TICKS: u32 = 16;

/// How long the widths of the panes are used, in milliseconds.
pub const WIDTH_REFRESH_TICK_MS: u64 = 2000;

/// How long another stroke is waited for before a batch is sent, in milliseconds.
pub const INPUT_BATCH_WINDOW_MS: u64 = 10;

/// How long the page stays when all targets are gone, in milliseconds.
pub const FAREWELL_MS: u64 = 1200;

/// A part of the screen.
#[derive(Clone, Copy, Debug, PartialEq, Eq, Structural)]
pub struct Area {
    pub x: u16,
    pub y: u16,
    pub width: u16,
    pub height: u16,
}

/// Whether an area lies inside of another one.
pub open spec fn inside(whole: Area, part: Area) -> bool {
    &&& whole.x <= part.x && part.x + part.width <= whole.x + whole.width
    &&& whole.y <= part.y && part.y + part.height <= whole.y + whole.height
}

/// How much of an area a part of it gets.
#[derive(Clone, Copy, Debug, PartialEq, Eq, Structural)]
pub enum Share {
    /// So many cells.
    Length(u16),
    /// So many cells at least.
    Min(u16),
    /// What is left, weighted.
    Fill(u16),
}

/// Whether the parts of an area stand one above the other, for the lists of
/// shares in which a row of one cell and the rest of the area part: the row is
/// one cell high and the rest gets all else, if it then has what it needs.
pub open spec fn stacked(area: Area, shares: Seq<Share>, parts: Seq<Area>) -> bool {
    let less = (area.height - 1) as u16;
    &&& shares == seq![Share::Min(1)] ==> parts == seq![area]
    &&& shares == seq![Share::Length(1), Share::Min(1)] && area.height >= 2 ==> parts == seq![
        Area { height: 1, ..area },
        Area { y: (area.y + 1) as u16, height: less, ..area },
    ]
    &&& shares == seq![Share::Min(3), Share::Length(1)] && area.height >= 4 ==> parts == seq![
        Area { height: less, ..area },
        Area { y: (area.y + less) as u16, height: 1, ..area },
    ]
}

/// `ratatui::layout::Layout::vertical` and `Layout::split`. There is one part
/// for each share, and each lies inside of the area and is as wide as it. For
/// some lists of shares the parts stand as `stacked` says, if the area ends where
/// coordinates do or before: the strengths of the constraints leave the solver
/// no other outcome. For all other lists it is not stated how high the parts are:
/// the solver works with floating-point numbers and in the order of hash tables.
#[verifier::external_body]
pub(crate) fn split_vertical(area: Area, shares: &[Share]) -> (r: Vec<Area>)
    ensures
        r@.len() == shares@.len(),
        forall|i: int|
            0 <= i < r@.len() ==> inside(area, #[trigger] r@[i]) && r@[i].x == area.x
                && r@[i].width == area.width,
        area.y + area.height <= u16::MAX ==> stacked(area, shares@, r@),
{
    let constraint = |s: &Share| match s {
        Share::Length(n) => ratatui::layout::Constraint::Length(*n),
        Share::Min(n) => ratatui::layout::Constraint::Min(*n),
        Share::Fill(n) => ratatui::layout::Constraint::Fill(*n),
    };
    let part = |p: &ratatui::layout::Rect| Area { x: p.x, y: p.y, width: p.width, height: p.height };
    let whole = ratatui::layout::Rect { x: area.x, y: area.y, width: area.width, height: area.height };
    let layout = ratatui::layout::Layout::vertical(shares.iter().map(constraint));
    layout.split(whole).iter().map(part).collect()
}

/// Whether each share is one cell, or an equal part of what is left.
pub open spec fn even(shares: Seq<Share>) -> bool {
    forall|i: int|
        0 <= i < shares.len() ==> #[trigger] shares[i] == Share::Length(1) || shares[i]
            == Share::Fill(1)
}

/// Whether parts stand side by side in their order, without overlapping.
pub open spec fn in_order(parts: Seq<Area>) -> bool {
    forall|i: int, j: int|
        0 <= i < j < parts.len() ==> (#[trigger] parts[i]).x + parts[i].width <= (
        #[trigger] parts[j]).x
}

/// Whether parts stand side by side without a gap from the left end of the area
/// on: a part of one cell is one cell wide, and the others share what is left up
/// to the right end, none of them by more than one cell wider than another one.
pub open spec fn filled(area: Area, shares: Seq<Share>, parts: Seq<Area>) -> bool {
    &&& parts.len() > 0 ==> parts.first().x == area.x
    &&& forall|i: int, j: int|
        0 <= i < parts.len() && j == i + 1 && j < parts.len() ==> (#[trigger] parts[i]).x
            + parts[i].width == (#[trigger] parts[j]).x
    &&& forall|i: int|
        0 <= i < parts.len() && shares[i] == Share::Length(1) ==> (#[trigger] parts[i]).width == 1
    &&& forall|i: int, j: int|
        0 <= i < parts.len() && 0 <= j < parts.len() && shares[i] == Share::Fill(1) && shares[j]
            == Share::Fill(1) ==> (#[trigger] parts[i]).width <= (#[trigger] parts[j]).width + 1
    &&& shares.contains(Share::Fill(1)) ==> parts.last().x + parts.last().width == area.x
        + area.width
}

/// `ratatui::layout::Layout::horizontal` and `Layout::split`. There is one part
/// for each share, and each lies inside of the area and is as high as it. If the
/// shares are even and fewer than 200, and the area ends where coordinates do or
/// before, the parts stand in their order, and they fill the area if each can
/// have a cell: the strengths of the constraints leave the solver no other
/// outcome, and with fewer than 200 shares no boundary falls where its rounding
/// would be in doubt. For all other lists it is not stated how wide the parts
/// are: the solver works with floating-point numbers and in the order of hash
/// tables.
#[verifier::external_body]
fn split_horizontal(area: Area, shares: &[Share]) -> (r: Vec<Area>)
    ensures
        r@.len() == shares@.len(),
        forall|i: int|
            0 <= i < r@.len() ==> inside(area, #[trigger] r@[i]) && r@[i].y == area.y
                && r@[i].height == area.height,
        even(shares@) && shares@.len() < 200 && area.x + area.width <= u16::MAX ==> in_order(r@)
            && (shares@.len() <= area.width ==> filled(area, shares@, r@)),
{
    let constraint = |s: &Share| match s {
        Share::Length(n) => ratatui::layout::Constraint::Length(*n),
        Share::Min(n) => ratatui::layout::Constraint::Min(*n),
        Share::Fill(n) => ratatui::layout::Constraint::Fill(*n),
    };
    let part = |p: &ratatui::layout::Rect| Area { x: p.x, y: p.y, width: p.width, height: p.height };
    let whole = ratatui::layout::Rect { x: area.x, y: area.y, width: area.width, height: area.height };
    let layout = ratatui::layout::Layout::horizontal(shares.iter().map(constraint));
    layout.split(whole).iter().map(part).collect()
}

/// What is drawn in a part of the screen.
#[derive(Debug)]
pub enum Content {
    /// The status line, dimmed.
    Status(String),
    /// The word that a target is gone, in red.
    Dead(String),
    /// The mirror of a target.
    Mirror(Vec<Line>),
    /// The rule between two mirrors, dimmed.
    Separator(Vec<Line>),
}

/// The model of a `Content`.
pub enum ContentView {
    Status(Seq<char>),
    Dead(Seq<char>),
    Mirror(Seq<Seq<SpanView>>),
    Separator(Seq<Seq<SpanView>>),
}

/// A part of the screen and what is drawn in it.
#[derive(Debug)]
pub struct Painted {
    pub area: Area,
    pub content: Content,
}

/// The model of a `Painted`.
pub struct PaintedView {
    pub area: Area,
    pub content: ContentView,
}

impl View for Painted {
    type V = PaintedView;

    open spec fn view(&self) -> PaintedView {
        PaintedView {
            area: self.area,
            content: match self.content {
                Content::Status(s) => ContentView::Status(s@),
                Content::Dead(s) => ContentView::Dead(s@),
                Content::Mirror(lines) => ContentView::Mirror(lines.deep_view()),
                Content::Separator(lines) => ContentView::Separator(lines.deep_view()),
            },
        }
    }
}

impl DeepView for Painted {
    type V = PaintedView;

    open spec fn deep_view(&self) -> PaintedView {
        self.view()
    }
}

/// How many of the first `n` targets are not gone.
pub open spec fn live_count(targets: Seq<TargetView>, n: int) -> nat
    decreases n,
{
    if n <= 0 {
        0
    } else {
        live_count(targets, n - 1) + if targets[n - 1].dead {
            0nat
        } else {
            1nat
        }
    }
}

/// The text of the status line.
pub open spec fn status_text(targets: Seq<TargetView>, sent: nat, notice: Seq<char>) -> Seq<char> {
    " live "@ + decimal(live_count(targets, targets.len() as int)) + "/"@ + decimal(targets.len())
        + " · sent "@ + decimal(sent) + " · "@ + notice + " · ^q quit"@
}

/// The text that stands for a target that is gone.
pub open spec fn dead_text(t: TargetView) -> Seq<char> {
    " ✕ "@ + t.label + " dead — pane closed or unreachable "@
}

/// A rule of so many rows.
pub open spec fn rule(height: nat) -> Seq<Seq<SpanView>> {
    Seq::new(height, |i: int| raw_line("│"@))
}

/// Whether a target can be drawn in a cell.
pub open spec fn drawable(t: TargetView, cursor_on: bool, cell: Area) -> bool {
    t.dead || t.reuses(cursor_on, cell.width, cell.height as usize) || t.renders(
        cursor_on,
        cell.width,
        cell.height as usize,
    )
}

/// A target after it was drawn in a cell.
pub open spec fn drawn(t: TargetView, cursor_on: bool, cell: Area) -> TargetView {
    if t.dead {
        t
    } else {
        t.rendered(cursor_on, cell.width, cell.height as usize)
    }
}

/// The targets after the first `n` of them were drawn.
pub open spec fn all_drawn(
    targets: Seq<TargetView>,
    cursor_on: bool,
    cells: Seq<Area>,
    n: int,
) -> Seq<TargetView> {
    Seq::new(
        targets.len(),
        |i: int|
            if i < n {
                drawn(targets[i], cursor_on, cells[2 * i])
            } else {
                targets[i]
            },
    )
}

/// What is drawn of a target: its mirror, or the word that it is gone.
pub open spec fn cell_content(t: TargetView, cursor_on: bool, cell: Area) -> ContentView {
    if t.dead {
        ContentView::Dead(dead_text(t))
    } else {
        ContentView::Mirror(drawn(t, cursor_on, cell).cached)
    }
}

/// What is drawn of the first `n` targets: each in its cell, with a rule behind
/// it if there is a place for one.
pub open spec fn cells_painted(
    targets: Seq<TargetView>,
    cursor_on: bool,
    cells: Seq<Area>,
    n: int,
) -> Seq<PaintedView>
    decreases n,
{
    if n <= 0 {
        Seq::empty()
    } else {
        let i = n - 1;
        let cell = PaintedView {
            area: cells[2 * i],
            content: cell_content(targets[i], cursor_on, cells[2 * i]),
        };
        let done = cells_painted(targets, cursor_on, cells, i).push(cell);
        if 2 * i + 1 < cells.len() {
            let sep = cells[2 * i + 1];
            done.push(
                PaintedView {
                    area: sep,
                    content: ContentView::Separator(rule(sep.height as nat)),
                },
            )
        } else {
            done
        }
    }
}

/// What is drawn of the page: the status line, if there is something to say,
/// and the targets.
pub open spec fn page(
    targets: Seq<TargetView>,
    sent: nat,
    notice: Option<Seq<char>>,
    cursor_on: bool,
    top: Area,
    cells: Seq<Area>,
) -> Seq<PaintedView> {
    let status = match notice {
        Some(n) => seq![
            PaintedView {
                area: top,
                content: ContentView::Status(status_text(targets, sent, n)),
            },
        ],
        None => Seq::empty(),
    };
    status + cells_painted(targets, cursor_on, cells, targets.len() as int)
}

fn status_of(targets: &[Target], sent: usize, notice: &str) -> (r: String)
    ensures
        r@ == status_text(targets.deep_view(), sent as nat, notice@),
{
    let mut live: u64 = 0;
    let mut i: usize = 0;
    while i < targets.len()
        invariant
            i <= targets@.len(),
            live <= i,
            live == live_count(targets.deep_view(), i as int),
        decreases targets@.len() - i,
    {
        if !targets[i].dead {
            live = live + 1;
        }
        i += 1;
    }
    let mut out = " live ".to_string();
    out.append(decimal_of(live).as_str());
    out.append("/");
    out.append(decimal_of(targets.len() as u64).as_str());
    out.append(" · sent ");
    out.append(decimal_of(sent as u64).as_str());
    out.append(" · ");
    out.append(notice);
    out.append(" · ^q quit");
    out
}

fn rule_of(height: u16) -> (r: Vec<Line>)
    ensures
        r.deep_view() == rule(height as nat),
{
    let mut out: Vec<Line> = Vec::new();
    let mut i: u16 = 0;
    assert(out.deep_view() =~= rule(0));
    while i < height
        invariant
            i <= height,
            out.deep_view() == rule(i as nat),
        decreases height - i,
    {
        proof {
            reveal_strlit("│");
        }
        let ghost before = out.deep_view();
        out.push(Line::raw("│".to_string()));
        assert(out.deep_view() =~= before.push(raw_line("│"@)));
        assert(out.deep_view() =~= rule((i + 1) as nat));
        i += 1;
    }
    out
}

/// The model of what is drawn, if it can be drawn.
pub open spec fn opt_painted(r: Option<Vec<Painted>>) -> Option<Seq<PaintedView>> {
    match r {
        Some(out) => Some(out.deep_view()),
        None => None,
    }
}

/// Whether `out` is what is drawn in the given parts of the screen, and `after`
/// are the targets behind it. Nothing is drawn if a target cannot be drawn: then
/// the targets before the first such one have been drawn.
pub open spec fn painted_in(
    targets: Seq<TargetView>,
    sent: nat,
    notice: Option<Seq<char>>,
    cursor_on: bool,
    top: Area,
    cells: Seq<Area>,
    after: Seq<TargetView>,
    out: Option<Seq<PaintedView>>,
) -> bool {
    match out {
        Some(painted) => {
            &&& forall|i: int|
                0 <= i < targets.len() ==> drawable(
                    #[trigger] targets[i],
                    cursor_on,
                    cells[2 * i],
                )
            &&& painted == page(targets, sent, notice, cursor_on, top, cells)
            &&& after == all_drawn(targets, cursor_on, cells, targets.len() as int)
        },
        None => exists|k: int|
            {
                &&& 0 <= k < targets.len()
                &&& !drawable(#[trigger] targets[k], cursor_on, cells[2 * k])
                &&& forall|i: int|
                    0 <= i < k ==> drawable(#[trigger] targets[i], cursor_on, cells[2 * i])
                &&& after == all_drawn(targets, cursor_on, cells, k)
            },
    }
}

/// Draws the targets in their cells. `None` if the cursor of one of them does
/// not land: the targets before it have been drawn.
pub fn paint(
    targets: &mut Vec<Target>,
    sent: usize,
    notice: &Option<String>,
    cursor_on: bool,
    top: Area,
    cells: &[Area],
) -> (r: Option<Vec<Painted>>)
    requires
        cells@.len() + 1 >= 2 * old(targets)@.len(),
    ensures
        painted_in(
            old(targets).deep_view(),
            sent as nat,
            opt_text(*notice),
            cursor_on,
            top,
            cells@,
            final(targets).deep_view(),
            opt_painted(r),
        ),
{
    let ghost before = targets.deep_view();
    let mut out: Vec<Painted> = Vec::new();
    match notice {
        Some(n) => {
            let status = status_of(targets.as_slice(), sent, n.as_str());
            out.push(Painted { area: top, content: Content::Status(status) });
        },
        None => (),
    }
    let ghost head = out.deep_view();
    let count = cells.len();
    let mut i: usize = 0;
    assert(head + cells_painted(before, cursor_on, cells@, 0) =~= head);
    assert(all_drawn(before, cursor_on, cells@, 0) =~= before);
    while i < targets.len()
        invariant
            i <= targets@.len(),
            targets@.len() == before.len(),
            cells@.len() == count,
            count + 1 >= 2 * before.len(),
            before == old(targets).deep_view(),
            targets.deep_view() == all_drawn(before, cursor_on, cells@, i as int),
            out.deep_view() == head + cells_painted(before, cursor_on, cells@, i as int),
            forall|j: int|
                0 <= j < i ==> drawable(#[trigger] before[j], cursor_on, cells@[2 * j]),
        decreases targets@.len() - i,
    {
        let cell = cells[2 * i];
        assert(targets.deep_view()[i as int] == before[i as int]);
        let ghost mid = targets.deep_view();
        let content = if targets[i].dead {
            let mut text = " ✕ ".to_string();
            text.append(targets[i].label.as_str());
            text.append(" dead — pane closed or unreachable ");
            Content::Dead(text)
        } else {
            match targets[i].render_in(cursor_on, cell.width, cell.height as usize) {
                Some(lines) => Content::Mirror(lines),
                None => {
                    assert(targets.deep_view() =~= mid);
                    return None;
                },
            }
        };
        assert(targets.deep_view() =~= mid.update(
            i as int,
            drawn(before[i as int], cursor_on, cell),
        ));
        assert(targets.deep_view() =~= all_drawn(before, cursor_on, cells@, i + 1));
        let ghost so_far = out.deep_view();
        out.push(Painted { area: cell, content });
        assert(out.deep_view() =~= so_far.push(
            PaintedView { area: cell, content: cell_content(before[i as int], cursor_on, cell) },
        ));
        if 2 * i + 1 < count {
            let sep = cells[2 * i + 1];
            let ghost so_far = out.deep_view();
            out.push(Painted { area: sep, content: Content::Separator(rule_of(sep.height)) });
            assert(out.deep_view() =~= so_far.push(
                PaintedView {
                    area: sep,
                    content: ContentView::Separator(rule(sep.height as nat)),
                },
            ));
        }
        assert(out.deep_view() =~= head + cells_painted(before, cursor_on, cells@, i + 1));
        i += 1;
    }
    assert(out.deep_view() =~= page(
        before,
        sent as nat,
        opt_text(*notice),
        cursor_on,
        top,
        cells@,
    ));
    Some(out)
}

/// How the page is cut into its rows.
pub open spec fn row_shares(notice: bool) -> Seq<Share> {
    if notice {
        seq![Share::Length(1), Share::Min(1)]
    } else {
        seq![Share::Min(1)]
    }
}

/// How the body is cut into the cells of `n` targets and the rules between them.
pub open spec fn column_shares(n: nat) -> Seq<Share> {
    if n == 0 {
        Seq::empty()
    } else {
        Seq::new(
            (2 * n - 1) as nat,
            |i: int|
                if i % 2 == 0 {
                    Share::Fill(1)
                } else {
                    Share::Length(1)
                },
        )
    }
}

/// Whether the parts are what an area can be cut into: the rows lie inside of
/// the area and are as wide as it, and the cells lie inside of the last row, the
/// body, and are as high as it. In an area that ends where coordinates do or
/// before, the rows stand one above the other, and up to 100 cells stand side by
/// side and fill the body if it is wide enough.
pub open spec fn cuts(area: Area, notice: bool, n: nat, rows: Seq<Area>, cells: Seq<Area>) -> bool {
    let body = rows.last();
    &&& rows.len() == row_shares(notice).len()
    &&& cells.len() == column_shares(n).len()
    &&& forall|i: int|
        0 <= i < rows.len() ==> inside(area, #[trigger] rows[i]) && rows[i].x == area.x
            && rows[i].width == area.width
    &&& forall|i: int|
        0 <= i < cells.len() ==> inside(body, #[trigger] cells[i]) && cells[i].y == body.y
            && cells[i].height == body.height
    &&& area.y + area.height <= u16::MAX ==> stacked(area, row_shares(notice), rows)
    &&& area.x + area.width <= u16::MAX && n <= 100 ==> {
        &&& in_order(cells)
        &&& cells.len() <= area.width ==> filled(body, column_shares(n), cells)
    }
}

fn row_shares_of(notice: bool) -> (r: Vec<Share>)
    ensures
        r@ == row_shares(notice),
{
    if notice {
        vec![Share::Length(1), Share::Min(1)]
    } else {
        vec![Share::Min(1)]
    }
}

fn column_shares_of(n: usize) -> (r: Vec<Share>)
    ensures
        r@ == column_shares(n as nat),
{
    let mut out: Vec<Share> = Vec::new();
    let mut i: usize = 0;
    while i < n
        invariant
            i <= n,
            out@ == column_shares(i as nat),
        decreases n - i,
    {
        if i > 0 {
            out.push(Share::Length(1));
        }
        out.push(Share::Fill(1));
        assert(out@ =~= column_shares((i + 1) as nat));
        i += 1;
    }
    out
}

/// Whether `out` is what is drawn in an area, however it is cut, and `after` are
/// the targets behind it.
pub open spec fn drawn_on(
    targets: Seq<TargetView>,
    sent: nat,
    notice: Option<Seq<char>>,
    cursor_on: bool,
    area: Area,
    after: Seq<TargetView>,
    out: Option<Seq<PaintedView>>,
) -> bool {
    exists|rows: Seq<Area>, cells: Seq<Area>| #[trigger]
        cuts(area, notice is Some, targets.len(), rows, cells) && painted_in(
            targets,
            sent,
            notice,
            cursor_on,
            rows.first(),
            cells,
            after,
            out,
        )
}

/// Draws the page: which part of the area gets what. The status line is on top,
/// and the mirrors stand side by side below it, with rules between them. `None`
/// if the cursor of a target does not land.
pub fn draw(
    targets: &mut Vec<Target>,
    sent: usize,
    notice: &Option<String>,
    cursor_on: bool,
    area: Area,
) -> (r: Option<Vec<Painted>>)
    ensures
        drawn_on(
            old(targets).deep_view(),
            sent as nat,
            opt_text(*notice),
            cursor_on,
            area,
            final(targets).deep_view(),
            opt_painted(r),
        ),
{
    let shares = row_shares_of(notice.is_some());
    let rows = split_vertical(area, shares.as_slice());
    let body = rows[rows.len() - 1];
    let columns = column_shares_of(targets.len());
    let cells = split_horizontal(body, columns.as_slice());
    assert(rows@.last() == body);
    assert(body.x == area.x && body.width == area.width);
    assert(cuts(area, notice is Some, targets@.len(), rows@, cells@));
    paint(targets, sent, notice, cursor_on, rows[0], cells.as_slice())
}

/// Whether the page goes on.
#[derive(Clone, Copy, Debug, PartialEq, Eq, Structural)]
pub enum Flow {
    Continue,
    /// It was left.
    Quit,
    /// All targets are gone.
    AllGone,
}

/// What follows from an event.
#[derive(Debug)]
pub struct Step {
    /// What is to be broadcast.
    pub send: Option<InputMsg>,
    pub flow: Flow,
}

/// The model of a `Step`.
pub struct StepView {
    pub send: Option<InputView>,
    pub flow: Flow,
}

impl View for Step {
    type V = StepView;

    open spec fn view(&self) -> StepView {
        StepView { send: opt_input(self.send), flow: self.flow }
    }
}

/// The state of the broadcast page.
#[derive(Debug)]
pub struct Session {
    targets: Vec<Target>,
    /// How many strokes came in.
    sent: usize,
    /// What is said in the status line.
    notice: Option<String>,
    cursor_on: bool,
    /// How many waits brought no event.
    blink: u32,
}

/// The model of a `Session`.
#[verifier::ext_equal]
pub struct SessionView {
    pub targets: Seq<TargetView>,
    pub sent: usize,
    pub notice: Option<Seq<char>>,
    pub cursor_on: bool,
    pub blink: u32,
}

impl View for Session {
    type V = SessionView;

    closed spec fn view(&self) -> SessionView {
        SessionView {
            targets: self.targets.deep_view(),
            sent: self.sent,
            notice: opt_text(self.notice),
            cursor_on: self.cursor_on,
            blink: self.blink,
        }
    }
}

/// One stroke more.
pub open spec fn one_more(sent: usize) -> usize {
    if sent == usize::MAX {
        sent
    } else {
        (sent + 1) as usize
    }
}

/// The page before anything happened.
pub open spec fn fresh_session(selected: Seq<PaneInfo>) -> SessionView {
    SessionView {
        targets: selected.map_values(|p: PaneInfo| fresh_target(p)),
        sent: 0,
        notice: None,
        cursor_on: true,
        blink: 0,
    }
}

impl SessionView {
    /// Whether there are targets and all are gone.
    pub open spec fn all_gone(self) -> bool {
        self.targets.len() > 0 && forall|i: int|
            0 <= i < self.targets.len() ==> (#[trigger] self.targets[i]).dead
    }

    /// The page after news of a target. News of no target are dropped.
    pub open spec fn informed(self, msg: MirrorMsgView) -> SessionView {
        match msg {
            MirrorMsgView::Mirror(i, lines) => if 0 <= i < self.targets.len() {
                SessionView {
                    targets: self.targets.update(i, self.targets[i].received(lines)),
                    ..self
                }
            } else {
                self
            },
            MirrorMsgView::Dead(i) => if 0 <= i < self.targets.len() {
                SessionView {
                    targets: self.targets.update(
                        i,
                        TargetView { dead: true, ..self.targets[i] },
                    ),
                    ..self
                }
            } else {
                self
            },
        }
    }

    /// The page after a key that is broadcast.
    pub open spec fn typed(self, msg: InputView) -> (SessionView, Option<InputView>) {
        (SessionView { notice: None, sent: one_more(self.sent), ..self }, Some(msg))
    }

    /// The page after an event that does not leave it, and what is broadcast.
    pub open spec fn handled(self, event: Event) -> (SessionView, Option<InputView>) {
        match event {
            Event::Press(code, modifiers) => match meaning(code, modifiers) {
                MeaningView::Send(msg) => self.typed(msg),
                MeaningView::Refuse(n) => (
                    SessionView { notice: Some(n), sent: one_more(self.sent), ..self },
                    None,
                ),
                MeaningView::Quit => (SessionView { notice: None, ..self }, None),
            },
            Event::Mouse(kind) => match wheel(kind) {
                Some(key) => self.typed(InputView::Key(key)),
                None => (self, None),
            },
            Event::Tick => {
                let blink = if self.blink == u32::MAX {
                    self.blink
                } else {
                    (self.blink + 1) as u32
                };
                (
                    SessionView {
                        blink,
                        cursor_on: if blink % BLINK_TICKS == 0 {
                            !self.cursor_on
                        } else {
                            self.cursor_on
                        },
                        ..self
                    },
                    None,
                )
            },
            _ => (self, None),
        }
    }

    /// The page after an event, what is broadcast, and whether it goes on.
    pub open spec fn stepped(self, event: Event) -> (SessionView, StepView) {
        let (next, send) = self.handled(event);
        if event matches Event::Press(code, modifiers) && meaning(code, modifiers) is Quit {
            (next, StepView { send: None, flow: Flow::Quit })
        } else if event is NoPress || !self.all_gone() {
            (next, StepView { send, flow: Flow::Continue })
        } else {
            (
                SessionView { notice: Some("all targets are gone — exiting"@), ..next },
                StepView { send, flow: Flow::AllGone },
            )
        }
    }
}

impl Session {
    /// The page for the selected panes.
    pub fn new(selected: &[PaneInfo]) -> (r: Session)
        ensures
            r@ == fresh_session(selected@),
    {
        let mut targets: Vec<Target> = Vec::new();
        let mut i: usize = 0;
        while i < selected.len()
            invariant
                i <= selected@.len(),
                targets.deep_view() =~= selected@.take(i as int).map_values(
                    |p: PaneInfo| fresh_target(p),
                ),
            decreases selected@.len() - i,
        {
            let ghost before = targets.deep_view();
            targets.push(Target::new(&selected[i]));
            assert(targets.deep_view() =~= before.push(fresh_target(selected@[i as int])));
            i += 1;
        }
        assert(selected@.take(i as int) =~= selected@);
        let r = Session { targets, sent: 0, notice: None, cursor_on: true, blink: 0 };
        assert(r@ =~= fresh_session(selected@));
        r
    }

    /// Takes news of a target in.
    pub fn inform(&mut self, msg: MirrorMsg)
        ensures
            final(self)@ == old(self)@.informed(msg@),
    {
        let ghost before = self.targets.deep_view();
        match msg {
            MirrorMsg::Mirror(i, lines) => {
                if i < self.targets.len() {
                    self.targets[i].receive(lines);
                    assert(self.targets.deep_view() =~= before.update(
                        i as int,
                        before[i as int].received(lines.deep_view()),
                    ));
                }
            },
            MirrorMsg::Dead(i) => {
                if i < self.targets.len() {
                    self.targets[i].dead = true;
                    assert(self.targets.deep_view() =~= before.update(
                        i as int,
                        TargetView { dead: true, ..before[i as int] },
                    ));
                }
            },
        }
        assert(self@ =~= old(self)@.informed(msg@));
    }

    fn all_gone(&self) -> (r: bool)
        ensures
            r == self@.all_gone(),
    {
        if self.targets.len() == 0 {
            return false;
        }
        let mut i: usize = 0;
        while i < self.targets.len()
            invariant
                i <= self.targets@.len(),
                forall|j: int| 0 <= j < i ==> (#[trigger] self@.targets[j]).dead,
            decreases self.targets@.len() - i,
        {
            assert(self@.targets[i as int].dead == self.targets@[i as int].dead);
            if !self.targets[i].dead {
                return false;
            }
            i += 1;
        }
        true
    }

    fn count(&mut self)
        ensures
            final(self)@ == (SessionView { sent: one_more(old(self)@.sent), ..old(self)@ }),
    {
        if self.sent < usize::MAX {
            self.sent = self.sent + 1;
        }
    }

    /// Takes an event in.
    pub fn on_event(&mut self, event: Event) -> (r: Step)
        ensures
            (final(self)@, r@) == old(self)@.stepped(event),
    {
        let gone = self.all_gone();
        let mut send: Option<InputMsg> = None;
        match event {
            Event::NoPress => {
                return Step { send: None, flow: Flow::Continue };
            },
            Event::Press(code, modifiers) => {
                self.notice = None;
                match meaning_of(code, modifiers) {
                    Meaning::Quit => {
                        return Step { send: None, flow: Flow::Quit };
                    },
                    Meaning::Send(msg) => {
                        send = Some(msg);
                    },
                    Meaning::Refuse(n) => {
                        self.notice = Some(n);
                    },
                }
                self.count();
            },
            Event::Mouse(kind) => match wheel_key(kind) {
                Some(key) => {
                    self.notice = None;
                    send = Some(InputMsg::Key(key));
                    self.count();
                },
                None => (),
            },
            Event::Other => (),
            Event::Tick => {
                if self.blink < u32::MAX {
                    self.blink = self.blink + 1;
                }
                if self.blink % BLINK_TICKS == 0 {
                    self.cursor_on = !self.cursor_on;
                }
            },
        }
        if gone {
            self.notice = Some("all targets are gone — exiting".to_string());
            return Step { send, flow: Flow::AllGone };
        }
        Step { send, flow: Flow::Continue }
    }

    /// Draws the page: which part of the area gets what. `None` if the cursor of
    /// a target does not land.
    pub fn draw(&mut self, area: Area) -> (r: Option<Vec<Painted>>)
        ensures
            final(self)@ == (SessionView { targets: final(self)@.targets, ..old(self)@ }),
            drawn_on(
                old(self)@.targets,
                old(self)@.sent as nat,
                old(self)@.notice,
                old(self)@.cursor_on,
                area,
                final(self)@.targets,
                opt_painted(r),
            ),
    {
        draw(&mut self.targets, self.sent, &self.notice, self.cursor_on, area)
    }

    /// The ids of the targets.
    pub fn pane_ids(&self) -> (r: Vec<String>)
        ensures
            r.deep_view() == self@.targets.map_values(|t: TargetView| t.pane_id),
    {
        let mut out: Vec<String> = Vec::new();
        let mut i: usize = 0;
        while i < self.targets.len()
            invariant
                i <= self.targets@.len(),
                out.deep_view() =~= self@.targets.take(i as int).map_values(
                    |t: TargetView| t.pane_id,
                ),
            decreases self.targets@.len() - i,
        {
            let ghost before = out.deep_view();
            out.push(self.targets[i].pane_id.clone());
            assert(out.deep_view() =~= before.push(self@.targets[i as int].pane_id));
            i += 1;
        }
        assert(self@.targets.take(i as int) =~= self@.targets);
        out
    }
}

/// The pane whose tab is looked at: the master, or else the first target.
pub open spec fn probe(master: Option<Seq<char>>, ids: Seq<Seq<char>>) -> Seq<char> {
    match master {
        Some(m) => m,
        None => if ids.len() > 0 {
            ids[0]
        } else {
            Seq::empty()
        },
    }
}

/// The pane whose tab is looked at, given the master pane and the targets.
pub fn probe_pane(master: &Option<String>, ids: &[String]) -> (r: String)
    ensures
        r@ == probe(opt_text(*master), ids.deep_view()),
{
    match master {
        Some(m) => m.clone(),
        None => if ids.len() > 0 {
            ids[0].clone()
        } else {
            let r = String::new();
            assert(r@ =~= Seq::empty());
            r
        },
    }
}

/// The panes whose sizes are restored at the end: the master, if there is one,
/// and the targets.
pub open spec fn probes(master: Option<Seq<char>>, ids: Seq<Seq<char>>) -> Seq<Seq<char>> {
    match master {
        Some(m) => seq![m] + ids,
        None => ids,
    }
}

/// The panes whose sizes are restored at the end.
pub fn restore_probes(master: &Option<String>, ids: &[String]) -> (r: Vec<String>)
    ensures
        r.deep_view() == probes(opt_text(*master), ids.deep_view()),
{
    let mut out: Vec<String> = Vec::new();
    if let Some(m) = master {
        out.push(m.clone());
    }
    let ghost head = out.deep_view();
    let mut i: usize = 0;
    while i < ids.len()
        invariant
            i <= ids@.len(),
            out.deep_view() =~= head + ids.deep_view().take(i as int),
        decreases ids@.len() - i,
    {
        let ghost before = out.deep_view();
        out.push(ids[i].clone());
        assert(out.deep_view() =~= before.push(ids.deep_view()[i as int]));
        i += 1;
    }
    assert(ids.deep_view().take(i as int) =~= ids.deep_view());
    assert(head =~= match *master {
        Some(m) => seq![m@],
        None => Seq::empty(),
    });
    assert(Seq::<Seq<char>>::empty() + ids.deep_view() =~= ids.deep_view());
    out
}

/// With one cell for each target and one for each rule between two of them,
/// everything is drawn in its own cell: the targets in their order, and the
/// rules between them.
pub proof fn law_each_target_has_its_cell(
    targets: Seq<TargetView>,
    cursor_on: bool,
    cells: Seq<Area>,
    i: int,
)
    requires
        cells.len() == 2 * targets.len() - 1,
        0 <= i < targets.len(),
    ensures
        ({
            let out = cells_painted(targets, cursor_on, cells, targets.len() as int);
            &&& out.len() == cells.len()
            &&& out[2 * i].area == cells[2 * i]
            &&& out[2 * i].content == cell_content(targets[i], cursor_on, cells[2 * i])
            &&& i + 1 < targets.len() ==> out[2 * i + 1].area == cells[2 * i + 1]
                && out[2 * i + 1].content == ContentView::Separator(
                rule(cells[2 * i + 1].height as nat),
            )
        }),
{
    lemma_cells_painted(targets, cursor_on, cells, targets.len() as int, i);
}

/// The mirrors stand side by side in the order of the targets, from the left end
/// of the area to the right one, with a rule of one column between two of them
/// and nothing else. They are equally wide, but for one column, and as high as
/// the area, but for the row of the status line on top. (The area has to have
/// room for all of this, and there are 100 targets at most.)
pub proof fn law_mirrors_stand_side_by_side(
    targets: Seq<TargetView>,
    sent: nat,
    notice: Option<Seq<char>>,
    cursor_on: bool,
    area: Area,
    rows: Seq<Area>,
    cells: Seq<Area>,
    i: int,
    j: int,
)
    requires
        cuts(area, notice is Some, targets.len(), rows, cells),
        0 <= i < targets.len() <= 100,
        0 <= j < targets.len(),
        2 * targets.len() - 1 <= area.width,
        2 <= area.height,
        area.x + area.width <= u16::MAX,
        area.y + area.height <= u16::MAX,
    ensures
        ({
            let out = page(targets, sent, notice, cursor_on, rows.first(), cells);
            let top: int = if notice is Some {
                1
            } else {
                0
            };
            let n = targets.len() as int;
            let cell = out[top + 2 * i].area;
            &&& out.len() == top + 2 * n - 1
            &&& notice is Some ==> out[0].content is Status && out[0].area == (Area {
                height: 1,
                ..area
            })
            &&& out[top + 2 * i].content == cell_content(targets[i], cursor_on, cell)
            &&& cell.y == area.y + top && cell.height == area.height - top
            &&& cell.width <= out[top + 2 * j].area.width + 1
            &&& i == 0 ==> cell.x == area.x
            &&& i == n - 1 ==> cell.x + cell.width == area.x + area.width
            &&& i + 1 < n ==> {
                let sep = out[top + 2 * i + 1];
                &&& sep.content == ContentView::Separator(rule(sep.area.height as nat))
                &&& sep.area.width == 1
                &&& sep.area.x == cell.x + cell.width
                &&& sep.area.y == cell.y && sep.area.height == cell.height
                &&& out[top + 2 * (i + 1)].area.x == sep.area.x + 1
            }
        }),
{
    let body = rows.last();
    assert(cells[2 * i].y == body.y && cells[2 * i].height == body.height);
    lemma_rows(area, notice is Some, rows);
    lemma_cell_row(body, targets.len(), cells, i, j);
    lemma_page_cell(targets, sent, notice, cursor_on, rows.first(), cells, i);
    lemma_page_cell(targets, sent, notice, cursor_on, rows.first(), cells, j);
    if i + 1 < targets.len() {
        assert(cells[2 * i + 1].y == body.y && cells[2 * i + 1].height == body.height);
        lemma_page_cell(targets, sent, notice, cursor_on, rows.first(), cells, i + 1);
    }
}

proof fn lemma_rows(area: Area, notice: bool, rows: Seq<Area>)
    requires
        stacked(area, row_shares(notice), rows),
        2 <= area.height,
        area.y + area.height <= u16::MAX,
    ensures
        notice ==> rows.first() == (Area { height: 1, ..area }),
        rows.last().y == area.y + if notice {
            1int
        } else {
            0int
        },
        rows.last().height == area.height - if notice {
            1int
        } else {
            0int
        },
{
}

proof fn lemma_cell_row(body: Area, n: nat, cells: Seq<Area>, i: int, j: int)
    requires
        filled(body, column_shares(n), cells),
        cells.len() == 2 * n - 1,
        0 <= i < n,
        0 <= j < n,
    ensures
        cells[2 * i].width <= cells[2 * j].width + 1,
        i == 0 ==> cells[2 * i].x == body.x,
        i == n - 1 ==> cells[2 * i].x + cells[2 * i].width == body.x + body.width,
        i + 1 < n ==> {
            &&& cells[2 * i + 1].width == 1
            &&& cells[2 * i + 1].x == cells[2 * i].x + cells[2 * i].width
            &&& cells[2 * (i + 1)].x == cells[2 * i + 1].x + 1
        },
{
    let shares = column_shares(n);
    assert(shares[2 * i] == Share::Fill(1) && shares[2 * j] == Share::Fill(1));
    assert(shares.contains(Share::Fill(1)));
    if i + 1 < n {
        assert(shares[2 * i + 1] == Share::Length(1));
        assert(cells[2 * i].x + cells[2 * i].width == cells[2 * i + 1].x);
        assert(cells[2 * i + 1].x + cells[2 * i + 1].width == cells[2 * (i + 1)].x);
    }
}

proof fn lemma_page_cell(
    targets: Seq<TargetView>,
    sent: nat,
    notice: Option<Seq<char>>,
    cursor_on: bool,
    first: Area,
    cells: Seq<Area>,
    i: int,
)
    requires
        cells.len() == 2 * targets.len() - 1,
        0 <= i < targets.len(),
    ensures
        ({
            let out = page(targets, sent, notice, cursor_on, first, cells);
            let top: int = if notice is Some {
                1
            } else {
                0
            };
            &&& out.len() == top + 2 * targets.len() - 1
            &&& notice is Some ==> out[0].content is Status && out[0].area == first
            &&& out[top + 2 * i].area == cells[2 * i]
            &&& out[top + 2 * i].content == cell_content(targets[i], cursor_on, cells[2 * i])
            &&& i + 1 < targets.len() ==> out[top + 2 * i + 1].area == cells[2 * i + 1]
                && out[top + 2 * i + 1].content == ContentView::Separator(
                rule(cells[2 * i + 1].height as nat),
            )
        }),
{
    let painted = cells_painted(targets, cursor_on, cells, targets.len() as int);
    lemma_cells_painted(targets, cursor_on, cells, targets.len() as int, i);
    let out = page(targets, sent, notice, cursor_on, first, cells);
    let top: int = if notice is Some {
        1
    } else {
        0
    };
    assert(out[top + 2 * i] == painted[2 * i]);
    if i + 1 < targets.len() {
        assert(out[top + 2 * i + 1] == painted[2 * i + 1]);
    }
}

/// Nothing is drawn outside of the area of the page, however it is cut.
pub proof fn law_page_stays_in_its_area(
    targets: Seq<TargetView>,
    sent: nat,
    notice: Option<Seq<char>>,
    cursor_on: bool,
    area: Area,
    rows: Seq<Area>,
    cells: Seq<Area>,
    k: int,
)
    requires
        cuts(area, notice is Some, targets.len(), rows, cells),
        0 <= k < page(targets, sent, notice, cursor_on, rows.first(), cells).len(),
    ensures
        inside(area, page(targets, sent, notice, cursor_on, rows.first(), cells)[k].area),
{
    let n = targets.len() as int;
    let top: int = if notice is Some {
        1
    } else {
        0
    };
    let out = page(targets, sent, notice, cursor_on, rows.first(), cells);
    assert(inside(area, rows[0]) && inside(area, rows[rows.len() - 1]));
    if k >= top {
        assert(out[k] == cells_painted(targets, cursor_on, cells, n)[k - top]);
        lemma_painted_in_cells(targets, cursor_on, cells, n, k - top);
        let j = choose|j: int|
            0 <= j < cells.len() && #[trigger] cells[j] == out[k].area;
        assert(inside(rows.last(), cells[j]));
    }
}

proof fn lemma_painted_in_cells(
    targets: Seq<TargetView>,
    cursor_on: bool,
    cells: Seq<Area>,
    n: int,
    k: int,
)
    requires
        0 <= n <= targets.len(),
        2 * targets.len() <= cells.len() + 1,
        0 <= k < cells_painted(targets, cursor_on, cells, n).len(),
    ensures
        exists|j: int|
            0 <= j < cells.len() && #[trigger] cells[j] == cells_painted(
                targets,
                cursor_on,
                cells,
                n,
            )[k].area,
    decreases n,
{
    let before = cells_painted(targets, cursor_on, cells, n - 1);
    let out = cells_painted(targets, cursor_on, cells, n);
    if k < before.len() {
        lemma_painted_in_cells(targets, cursor_on, cells, n - 1, k);
        assert(out[k] == before[k]);
    } else if k == before.len() {
        assert(cells[2 * (n - 1)] == out[k].area);
    } else {
        assert(cells[2 * (n - 1) + 1] == out[k].area);
    }
}

proof fn lemma_cells_painted(
    targets: Seq<TargetView>,
    cursor_on: bool,
    cells: Seq<Area>,
    n: int,
    i: int,
)
    requires
        cells.len() == 2 * targets.len() - 1,
        0 <= n <= targets.len(),
        0 <= i,
    ensures
        ({
            let out = cells_painted(targets, cursor_on, cells, n);
            &&& out.len() == if n == targets.len() {
                2 * n - 1
            } else {
                2 * n
            }
            &&& i < n ==> out[2 * i].area == cells[2 * i] && out[2 * i].content == cell_content(
                targets[i],
                cursor_on,
                cells[2 * i],
            )
            &&& i < n && i + 1 < targets.len() ==> out[2 * i + 1].area == cells[2 * i + 1]
                && out[2 * i + 1].content == ContentView::Separator(
                rule(cells[2 * i + 1].height as nat),
            )
        }),
    decreases n,
{
    if n > 0 {
        lemma_cells_painted(targets, cursor_on, cells, n - 1, i);
    }
}

/// A key that is broadcast is handed on at once, whatever was said before, and
/// the targets stay as they are.
pub proof fn law_every_key_is_forwarded(s: SessionView, event: Event, msg: InputView)
    requires
        match event {
            Event::Press(code, modifiers) => meaning(code, modifiers) == MeaningView::Send(msg),
            Event::Mouse(kind) => wheel(kind) is Some && msg == InputView::Key(wheel(kind)->0),
            _ => false,
        },
    ensures
        s.stepped(event).1.send == Some(msg),
        s.stepped(event).1.flow != Flow::Quit,
        s.stepped(event).0.targets == s.targets,
        s.stepped(event).0.sent == one_more(s.sent),
{
}

/// The page is left by `ctrl+q` alone, or when all targets are gone. In that
/// case any event ends it but the release of a key.
pub proof fn law_page_ends(s: SessionView, event: Event)
    ensures
        s.stepped(event).1.flow == Flow::Quit <==> event == Event::Press(
            KeyCode::Char('q'),
            Modifiers::Control,
        ),
        s.stepped(event).1.flow == Flow::AllGone <==> s.all_gone() && event != Event::NoPress
            && event != Event::Press(KeyCode::Char('q'), Modifiers::Control),
{
}

/// A target that is gone stays gone, and news of one target leave all others as
/// they are.
pub proof fn law_news_concern_one_target(s: SessionView, msg: MirrorMsgView, i: int)
    requires
        0 <= i < s.targets.len(),
    ensures
        s.informed(msg).targets.len() == s.targets.len(),
        s.targets[i].dead ==> s.informed(msg).targets[i].dead,
        match msg {
            MirrorMsgView::Mirror(k, _) => k,
            MirrorMsgView::Dead(k) => k,
        } != i ==> s.informed(msg).targets[i] == s.targets[i],
        msg == MirrorMsgView::Dead(i) ==> s.informed(msg).targets[i].dead,
        s.informed(msg) == (SessionView { targets: s.informed(msg).targets, ..s }),
{
}

/// A page after `k` waits without an event.
pub open spec fn after_ticks(s: SessionView, k: nat) -> SessionView
    decreases k,
{
    if k == 0 {
        s
    } else {
        after_ticks(s, (k - 1) as nat).handled(Event::Tick).0
    }
}

/// The cursor of an idle page is on for `BLINK_TICKS` waits, then off for as
/// many, and so on.
pub proof fn law_cursor_blinks(selected: Seq<PaneInfo>, k: nat)
    requires
        k <= u32::MAX,
    ensures
        after_ticks(fresh_session(selected), k).blink == k,
        after_ticks(fresh_session(selected), k).cursor_on == ((k / BLINK_TICKS as nat) % 2 == 0),
    decreases k,
{
    if k > 0 {
        law_cursor_blinks(selected, (k - 1) as nat);
        if k % 16 == 0 {
            assert(((k - 1) as nat) / 16 + 1 == k / 16);
        } else {
            assert(((k - 1) as nat) / 16 == k / 16);
        }
    }
}

/// A target counts as live unless it is gone.
pub proof fn law_live_count(targets: Seq<TargetView>, t: TargetView)
    ensures
        live_count(Seq::empty(), 0) == 0,
        live_count(targets.push(t), targets.len() as int + 1) == live_count(targets, targets.len() as int) + (
        if t.dead {
            0int
        } else {
            1int
        }),
{
    lemma_live_count_push(targets, t, targets.len() as int);
}

proof fn lemma_live_count_push(targets: Seq<TargetView>, t: TargetView, n: int)
    requires
        0 <= n <= targets.len(),
    ensures
        live_count(targets.push(t), n) == live_count(targets, n),
    decreases n,
{
    if n > 0 {
        lemma_live_count_push(targets, t, n - 1);
    }
}

/// The status line tells how many of how many targets are live, how many strokes
/// came in, what there is to say, and how the page is left.
pub proof fn law_status_line(targets: Seq<TargetView>, sent: nat, notice: Seq<char>)
    ensures
        status_text(targets, sent, notice) == " live "@ + decimal(
            live_count(targets, targets.len() as int),
        ) + "/"@ + decimal(targets.len()) + " · sent "@ + decimal(sent) + " · "@ + notice
            + " · ^q quit"@,
{
}

/// A target that is gone is named in its cell; of any other one the mirror is
/// drawn as it is now, in the size of the cell.
pub proof fn law_cell_shows_its_target(t: TargetView, cursor_on: bool, cell: Area)
    ensures
        t.dead ==> cell_content(t, cursor_on, cell) == ContentView::Dead(
            " ✕ "@ + t.label + " dead — pane closed or unreachable "@,
        ),
        !t.dead && t.coherent() ==> cell_content(t, cursor_on, cell) == ContentView::Mirror(
            t.rendering(cursor_on, cell.width, cell.height as usize),
        ),
{
}

/// A rule is a bar on every row of its cell.
pub proof fn law_rule(height: nat, i: int)
    ensures
        rule(height).len() == height,
        0 <= i < height ==> plain(rule(height)[i]) == "│"@,
{
    law_raw_line_is_the_text("│"@);
}

/// Drawing changes nothing of a target but the rendering that is kept of it, and
/// nothing at all of a target that is gone.
pub proof fn law_drawing_changes_no_target(t: TargetView, cursor_on: bool, cell: Area)
    ensures
        t.dead ==> drawn(t, cursor_on, cell) == t,
        drawn(t, cursor_on, cell).dead == t.dead,
        drawn(t, cursor_on, cell).mirror == t.mirror,
        drawn(t, cursor_on, cell).plain == t.plain,
        drawn(t, cursor_on, cell).anchor == t.anchor,
        drawn(t, cursor_on, cell).ver == t.ver,
        drawn(t, cursor_on, cell).label == t.label,
        drawn(t, cursor_on, cell).pane_id == t.pane_id,
        t.coherent() ==> drawn(t, cursor_on, cell).coherent(),
{
    if t.coherent() && !t.dead {
        law_rendering_stays_coherent(t, cursor_on, cell.width, cell.height as usize);
    }
}

/// Every target that was drawn was drawn in its own cell, and the others are as
/// they were.
pub proof fn law_targets_are_drawn_in_their_cells(
    targets: Seq<TargetView>,
    cursor_on: bool,
    cells: Seq<Area>,
    n: int,
    i: int,
)
    requires
        0 <= i < targets.len(),
    ensures
        all_drawn(targets, cursor_on, cells, n).len() == targets.len(),
        i < n ==> all_drawn(targets, cursor_on, cells, n)[i] == drawn(
            targets[i],
            cursor_on,
            cells[2 * i],
        ),
        i >= n ==> all_drawn(targets, cursor_on, cells, n)[i] == targets[i],
{
}

/// After news of what a target shows, its mirror is what it shows; a target that
/// is gone keeps what it showed. News of no target change nothing.
pub proof fn law_news_are_taken_in(s: SessionView, i: int, lines: Seq<Seq<SpanView>>)
    ensures
        0 <= i < s.targets.len() ==> {
            let next = s.informed(MirrorMsgView::Mirror(i, lines)).targets[i];
            &&& next.mirror == lines
            &&& next.plain == plains(lines)
            &&& next.dead == s.targets[i].dead
            &&& next.pane_id == s.targets[i].pane_id
            &&& next.label == s.targets[i].label
        },
        0 <= i < s.targets.len() ==> {
            let next = s.informed(MirrorMsgView::Dead(i)).targets[i];
            &&& next.dead
            &&& next.mirror == s.targets[i].mirror
            &&& next.label == s.targets[i].label
            &&& next.pane_id == s.targets[i].pane_id
        },
        i < 0 || i >= s.targets.len() ==> s.informed(MirrorMsgView::Mirror(i, lines)) == s
            && s.informed(MirrorMsgView::Dead(i)) == s,
{
}

/// A stroke that is broadcast clears what was said and is counted. One that is
/// refused is counted too, nothing is broadcast, and the page says why. Neither
/// touches the cursor or the targets.
pub proof fn law_strokes_are_counted(s: SessionView, code: KeyCode, modifiers: Modifiers)
    requires
        s.sent < usize::MAX,
        !s.all_gone(),
        !(meaning(code, modifiers) is Quit),
    ensures
        ({
            let (next, step) = s.stepped(Event::Press(code, modifiers));
            &&& next.sent == s.sent + 1
            &&& next.targets == s.targets
            &&& next.cursor_on == s.cursor_on
            &&& next.blink == s.blink
            &&& step.flow == Flow::Continue
            &&& meaning(code, modifiers) matches MeaningView::Send(msg) ==> next.notice is None
                && step.send == Some(msg)
            &&& meaning(code, modifiers) matches MeaningView::Refuse(why) ==> next.notice == Some(why)
                && step.send is None
        }),
{
}

/// A turn of the wheel is broadcast as the arrow key of its direction, and is
/// counted like a key.
pub proof fn law_wheel_is_broadcast(s: SessionView)
    requires
        s.sent < usize::MAX,
        !s.all_gone(),
    ensures
        s.stepped(Event::Mouse(MouseEventKind::ScrollUp)).1.send == Some(InputView::Key("up"@)),
        s.stepped(Event::Mouse(MouseEventKind::ScrollDown)).1.send == Some(InputView::Key("down"@)),
        s.stepped(Event::Mouse(MouseEventKind::ScrollLeft)).1.send == Some(InputView::Key("left"@)),
        s.stepped(Event::Mouse(MouseEventKind::ScrollRight)).1.send == Some(
            InputView::Key("right"@),
        ),
        s.stepped(Event::Mouse(MouseEventKind::ScrollUp)).0 == (SessionView {
            notice: None,
            sent: (s.sent + 1) as usize,
            ..s
        }),
{
}

/// Anything else that comes from the terminal changes nothing and broadcasts
/// nothing; a wait without an event concerns the cursor alone.
pub proof fn law_other_events_change_nothing(s: SessionView, kind: MouseEventKind)
    requires
        !s.all_gone(),
        wheel(kind) is None,
    ensures
        s.stepped(Event::NoPress) == (s, StepView { send: None, flow: Flow::Continue }),
        s.stepped(Event::Other) == (s, StepView { send: None, flow: Flow::Continue }),
        s.stepped(Event::Mouse(kind)) == (s, StepView { send: None, flow: Flow::Continue }),
        ({
            let (next, step) = s.stepped(Event::Tick);
            &&& step == (StepView { send: None, flow: Flow::Continue })
            &&& next.targets == s.targets
            &&& next.sent == s.sent
            &&& next.notice == s.notice
            &&& s.blink < u32::MAX ==> next.blink == s.blink + 1
            &&& s.blink < u32::MAX ==> (next.cursor_on != s.cursor_on <==> (s.blink + 1) % 16 == 0)
        }),
{
}

/// When all targets are gone the page says so before it ends. A release of a key
/// alone does not end it.
pub proof fn law_page_says_why_it_ends(s: SessionView, event: Event)
    requires
        s.all_gone(),
        s.stepped(event).1.flow == Flow::AllGone,
    ensures
        s.stepped(event).0.notice == Some("all targets are gone — exiting"@),
        s.stepped(event).0.targets == s.targets,
{
}

/// A page has a target for each selected pane, in their order. No stroke has come
/// in, there is nothing to say, and the cursor is on.
pub proof fn law_fresh_session(selected: Seq<PaneInfo>, i: int)
    ensures
        fresh_session(selected).targets.len() == selected.len(),
        0 <= i < selected.len() ==> fresh_session(selected).targets[i].pane_id
            == selected[i].pane_id@,
        0 <= i < selected.len() ==> fresh_session(selected).targets[i] == fresh_target(selected[i]),
        fresh_session(selected).sent == 0,
        fresh_session(selected).notice is None,
        fresh_session(selected).cursor_on,
        fresh_session(selected).blink == 0,
        !fresh_session(selected).all_gone(),
{
    if selected.len() > 0 {
        assert(!fresh_session(selected).targets[0].dead);
    }
}

/// The cursor of an idle page is on for 16 waits, then off for 16 waits, and so on.
pub proof fn law_cursor_blinks_every_16_waits(selected: Seq<PaneInfo>, k: nat, j: nat)
    requires
        16 * k + j <= u32::MAX,
        j < 16,
    ensures
        after_ticks(fresh_session(selected), 16 * k + j).cursor_on == (k % 2 == 0),
{
    law_cursor_blinks(selected, 16 * k + j);
    assert((16 * k + j) / 16 == k);
}

/// The tab of the master is looked at; without a master, that of the first target.
pub proof fn law_probe(master: Seq<char>, ids: Seq<Seq<char>>)
    ensures
        probe(Some(master), ids) == master,
        ids.len() > 0 ==> probe(None, ids) == ids[0],
        ids.len() == 0 ==> probe(None, ids) == Seq::<char>::empty(),
{
}

/// All targets are gone if there is one and every one is; a single live target
/// keeps the page up, and so does a page without targets.
pub proof fn law_one_live_target_keeps_the_page(s: SessionView, i: int, event: Event)
    ensures
        s.targets.len() == 0 ==> !s.all_gone(),
        0 <= i < s.targets.len() && !s.targets[i].dead ==> !s.all_gone() && s.stepped(event).1.flow
            != Flow::AllGone,
        s.targets.len() > 0 && (forall|k: int|
            0 <= k < s.targets.len() ==> (#[trigger] s.targets[k]).dead) ==> s.all_gone()
            && s.stepped(Event::Tick).1.flow == Flow::AllGone,
{
}

/// What there is to say is on top of the page, with the count of the strokes; a
/// page with nothing to say has the mirrors alone.
pub proof fn law_status_line_is_on_top(
    targets: Seq<TargetView>,
    sent: nat,
    n: Seq<char>,
    cursor_on: bool,
    top: Area,
    cells: Seq<Area>,
)
    ensures
        ({
            let said = page(targets, sent, Some(n), cursor_on, top, cells);
            let quiet = page(targets, sent, None, cursor_on, top, cells);
            &&& said.len() == quiet.len() + 1
            &&& said[0].area == top
            &&& said[0].content == ContentView::Status(status_text(targets, sent, n))
            &&& said.skip(1) == quiet
        }),
{
    let said = page(targets, sent, Some(n), cursor_on, top, cells);
    let quiet = page(targets, sent, None, cursor_on, top, cells);
    assert(said.skip(1) =~= quiet);
}

/// A target that is gone can always be drawn, and so can any other one while the
/// cursor is off.
pub proof fn law_what_can_be_drawn(t: TargetView, cursor_on: bool, cell: Area)
    ensures
        t.dead ==> drawable(t, cursor_on, cell),
        drawable(t, false, cell),
        t.renders(cursor_on, cell.width, cell.height as usize) ==> drawable(t, cursor_on, cell),
{
}

/// Leaving the page broadcasts nothing, counts nothing and touches no target.
pub proof fn law_leaving_changes_nothing(s: SessionView)
    ensures
        ({
            let (next, step) = s.stepped(Event::Press(KeyCode::Char('q'), Modifiers::Control));
            &&& step == (StepView { send: None, flow: Flow::Quit })
            &&& next.targets == s.targets
            &&& next.sent == s.sent
            &&& next.notice is None
        }),
{
}

/// The sizes of the master are restored first, then those of each target in order;
/// no pane is left out.
pub proof fn law_probes(master: Seq<char>, ids: Seq<Seq<char>>, i: int)
    ensures
        probes(Some(master), ids).len() == ids.len() + 1,
        probes(Some(master), ids)[0] == master,
        0 <= i < ids.len() ==> probes(Some(master), ids)[i + 1] == ids[i],
        probes(None, ids) == ids,
{
}

} // verus!

//! Driving panes back to the sizes they had.

use vstd::prelude::*;
use vstd::string::*;

use crate::table::PaneTable;
use crate::text::str_eq;

verus! {

/// How many steps are taken for one pane.
pub const MAX_STEPS_PER_PANE: usize = 10;

/// By how many cells a pane may miss its goal.
pub const TOLERANCE_CELLS: i64 = 2;

/// The size of a pane or of the tab in cells.
#[derive(Clone, Copy, Debug, PartialEq, Eq, Structural)]
pub struct Rect {
    pub width: i32,
    pub height: i32,
}

/// The sizes of a tab and of its panes.
#[derive(Debug)]
pub struct TabLayout {
    pub area: Rect,
    pub panes: Vec<(String, Rect)>,
}

/// The model of a `TabLayout`.
#[verifier::ext_equal]
pub struct LayoutView {
    pub area: Rect,
    pub panes: Seq<(Seq<char>, Rect)>,
}

/// The model of a list of sizes by pane id.
pub open spec fn sizes(panes: Seq<(String, Rect)>) -> Seq<(Seq<char>, Rect)> {
    Seq::new(panes.len(), |i: int| (panes[i].0@, panes[i].1))
}

impl View for TabLayout {
    type V = LayoutView;

    open spec fn view(&self) -> LayoutView {
        LayoutView { area: self.area, panes: sizes(self.panes@) }
    }
}

/// The size of the first pane with the given id.
pub open spec fn find_rect(panes: Seq<(Seq<char>, Rect)>, id: Seq<char>) -> Option<Rect>
    decreases panes.len(),
{
    if panes.len() == 0 {
        None
    } else if panes[0].0 == id {
        Some(panes[0].1)
    } else {
        find_rect(panes.skip(1), id)
    }
}

/// The size of a pane, `None` if the layout has no such pane.
pub fn rect_of(layout: &TabLayout, pane_id: &str) -> (r: Option<Rect>)
    ensures
        r == find_rect(layout@.panes, pane_id@),
{
    let ghost all = layout@.panes;
    let mut i: usize = 0;
    assert(all.skip(0) =~= all);
    while i < layout.panes.len()
        invariant
            i <= layout.panes@.len(),
            all == layout@.panes,
            find_rect(all, pane_id@) == find_rect(all.skip(i as int), pane_id@),
        decreases layout.panes@.len() - i,
    {
        assert(all.skip(i as int).skip(1) =~= all.skip(i + 1));
        if str_eq(layout.panes[i].0.as_str(), pane_id) {
            return Some(layout.panes[i].1);
        }
        i += 1;
    }
    assert(all.skip(i as int) =~= Seq::empty());
    None
}

/// The distance of two sizes.
pub open spec fn gap(a: int, b: int) -> int {
    if a > b {
        a - b
    } else {
        b - a
    }
}

/// Whether a size is as good as the goal.
pub open spec fn close(size: Rect, goal: Rect) -> bool {
    gap(size.width as int, goal.width as int) <= TOLERANCE_CELLS && gap(
        size.height as int,
        goal.height as int,
    ) <= TOLERANCE_CELLS
}

fn gap_of(a: i32, b: i32) -> (r: i64)
    ensures
        r == gap(a as int, b as int),
{
    if a > b {
        a as i64 - b as i64
    } else {
        b as i64 - a as i64
    }
}

/// Whether a pane has its goal's size, within the tolerance.
pub fn aligned(layout: &TabLayout, pane_id: &str, goal: Rect) -> (r: bool)
    ensures
        r == (find_rect(layout@.panes, pane_id@) matches Some(size) && close(size, goal)),
{
    match rect_of(layout, pane_id) {
        Some(size) => gap_of(size.width, goal.width) <= TOLERANCE_CELLS && gap_of(
            size.height,
            goal.height,
        ) <= TOLERANCE_CELLS,
        None => false,
    }
}

/// The two dimensions of a pane.
#[derive(Clone, Copy, Debug, PartialEq, Eq, Structural)]
pub enum Axis {
    X,
    Y,
}

/// The border of a pane that is moved.
#[derive(Clone, Copy, Debug, PartialEq, Eq, Structural)]
pub enum Direction {
    Left,
    Right,
    Up,
    Down,
}

impl Direction {
    /// The word for the direction.
    pub open spec fn word(self) -> Seq<char> {
        match self {
            Direction::Left => "left"@,
            Direction::Right => "right"@,
            Direction::Up => "up"@,
            Direction::Down => "down"@,
        }
    }

    /// The word for the direction.
    pub fn as_str(self) -> (r: &'static str)
        ensures
            r@ == self.word(),
    {
        match self {
            Direction::Left => "left",
            Direction::Right => "right",
            Direction::Up => "up",
            Direction::Down => "down",
        }
    }
}

/// A positive fraction.
#[derive(Clone, Copy, Debug, PartialEq, Eq, Structural)]
pub struct Ratio {
    pub num: i64,
    pub den: i64,
}

/// The direction towards lower coordinates.
pub open spec fn low(axis: Axis) -> Direction {
    match axis {
        Axis::X => Direction::Left,
        Axis::Y => Direction::Up,
    }
}

/// The direction towards higher coordinates.
pub open spec fn high(axis: Axis) -> Direction {
    match axis {
        Axis::X => Direction::Right,
        Axis::Y => Direction::Down,
    }
}

/// The other direction of an axis.
pub open spec fn flipped(axis: Axis, dir: Direction) -> Direction {
    if dir == low(axis) {
        high(axis)
    } else {
        low(axis)
    }
}

/// A size along an axis.
pub open spec fn along(axis: Axis, r: Rect) -> i32 {
    match axis {
        Axis::X => r.width,
        Axis::Y => r.height,
    }
}

/// Whether a pane that misses its goal by `delta` cells is resized in an area
/// of `area` cells.
pub open spec fn worth_a_step(delta: int, area: int) -> bool {
    (delta > TOLERANCE_CELLS || delta < -TOLERANCE_CELLS) && area > 0
}

/// The share of the area by which a pane is resized. To grow, it is the share
/// that is missing, between 1/50 and 2/5. To shrink, it is the share that is too
/// much, 1/50 at most.
pub open spec fn step_ratio(delta: int, area: int) -> Ratio {
    if delta > 0 {
        if 5 * delta >= 2 * area {
            Ratio { num: 2, den: 5 }
        } else if 50 * delta <= area {
            Ratio { num: 1, den: 50 }
        } else {
            Ratio { num: delta as i64, den: area as i64 }
        }
    } else if 50 * -delta >= area {
        Ratio { num: 1, den: 50 }
    } else {
        Ratio { num: -delta as i64, den: area as i64 }
    }
}

fn low_of(axis: Axis) -> (r: Direction)
    ensures
        r == low(axis),
{
    match axis {
        Axis::X => Direction::Left,
        Axis::Y => Direction::Up,
    }
}

fn high_of(axis: Axis) -> (r: Direction)
    ensures
        r == high(axis),
{
    match axis {
        Axis::X => Direction::Right,
        Axis::Y => Direction::Down,
    }
}

fn along_of(axis: Axis, r: Rect) -> (v: i32)
    ensures
        v == along(axis, r),
{
    match axis {
        Axis::X => r.width,
        Axis::Y => r.height,
    }
}

/// The share of the area by which a pane that misses its goal by `delta` cells
/// is resized.
pub fn ratio_of(delta: i64, area: i32) -> (r: Ratio)
    requires
        worth_a_step(delta as int, area as int),
        -0x1_0000_0000 <= delta <= 0x1_0000_0000,
    ensures
        r == step_ratio(delta as int, area as int),
        0 < r.num,
        0 < r.den,
{
    let area = area as i64;
    if delta > 0 {
        if 5 * delta >= 2 * area {
            Ratio { num: 2, den: 5 }
        } else if 50 * delta <= area {
            Ratio { num: 1, den: 50 }
        } else {
            Ratio { num: delta, den: area }
        }
    } else if 50 * -delta >= area {
        Ratio { num: 1, den: 50 }
    } else {
        Ratio { num: -delta, den: area }
    }
}

/// A resize along one axis: the size of the pane and of the area before, the
/// direction that is tried, the cells that are missing, and whether the pane
/// has moved along the first axis in this step.
#[derive(Clone, Copy, Debug, PartialEq, Eq, Structural)]
pub struct Attempt {
    pub axis: Axis,
    pub cur: Rect,
    pub area: Rect,
    pub dir: Direction,
    pub delta: i64,
    pub moved_x: bool,
}

/// What the driver waits for.
#[derive(Clone, Copy, Debug, PartialEq, Eq, Structural)]
pub enum Phase {
    /// The layout at the start of a step.
    Survey,
    /// The outcome of a resize.
    Trying(Attempt),
    /// The layout after a resize, which did or did not move the pane.
    Checking(Attempt, bool),
    /// The outcome of a resize in the other direction.
    Flipping(Attempt),
    /// Nothing more.
    Done,
}

/// What the driver wants done.
#[derive(Debug)]
pub enum DriveAction {
    /// Report the layout of the tab of this pane.
    Ask(String),
    /// Move a border of this pane by a share of the area.
    Resize(String, Direction, Ratio),
    /// All panes have been driven.
    Finished,
}

/// The model of a `DriveAction`.
pub enum DriveActionView {
    Ask(Seq<char>),
    Resize(Seq<char>, Direction, Ratio),
    Finished,
}

impl View for DriveAction {
    type V = DriveActionView;

    open spec fn view(&self) -> DriveActionView {
        match self {
            DriveAction::Ask(p) => DriveActionView::Ask(p@),
            DriveAction::Resize(p, d, r) => DriveActionView::Resize(p@, *d, *r),
            DriveAction::Finished => DriveActionView::Finished,
        }
    }
}

/// Drives panes to their goals one after the other. The direction that grew a
/// pane along an axis is remembered.
#[derive(Debug)]
pub struct Driver {
    goals: Vec<(String, Rect)>,
    signs_x: PaneTable<Direction>,
    signs_y: PaneTable<Direction>,
    at: usize,
    step: usize,
    phase: Phase,
}

/// The model of a `Driver`.
#[verifier::ext_equal]
pub struct Drive {
    pub goals: Seq<(Seq<char>, Rect)>,
    pub signs_x: Map<Seq<char>, Direction>,
    pub signs_y: Map<Seq<char>, Direction>,
    /// The goal that is driven at.
    pub at: int,
    /// How many steps have been taken towards it.
    pub step: int,
    pub phase: Phase,
}

impl View for Driver {
    type V = Drive;

    closed spec fn view(&self) -> Drive {
        Drive {
            goals: sizes(self.goals@),
            signs_x: self.signs_x@,
            signs_y: self.signs_y@,
            at: self.at as int,
            step: self.step as int,
            phase: self.phase,
        }
    }
}

impl Drive {
    /// Whether the driver is in order: it is done exactly when there is no goal
    /// left, no goal takes more steps than allowed, an attempt is under way only
    /// along an axis that is worth it, and its direction is the remembered one.
    pub open spec fn wf(self) -> bool {
        &&& 0 <= self.at <= self.goals.len()
        &&& self.phase is Done <==> self.at == self.goals.len()
        &&& 0 <= self.step < MAX_STEPS_PER_PANE
        &&& match self.phase {
            Phase::Trying(t) | Phase::Checking(t, _) => self.attempt_wf(t) && self.remembers(
                t.axis,
                t.dir,
            ),
            Phase::Flipping(t) => self.attempt_wf(t),
            _ => true,
        }
    }

    /// Whether a direction is remembered for the pane.
    pub open spec fn remembers(self, axis: Axis, dir: Direction) -> bool {
        self.signs(axis).dom().contains(self.pane()) && self.signs(axis)[self.pane()] == dir
    }

    /// Whether an attempt fits the goal.
    pub open spec fn attempt_wf(self, t: Attempt) -> bool {
        &&& self.at < self.goals.len()
        &&& t.delta == along(t.axis, self.goal()) - along(t.axis, t.cur)
        &&& worth_a_step(t.delta as int, along(t.axis, t.area) as int)
    }

    /// The pane that is driven.
    pub open spec fn pane(self) -> Seq<char> {
        self.goals[self.at].0
    }

    /// The size that it is driven to.
    pub open spec fn goal(self) -> Rect {
        self.goals[self.at].1
    }

    /// The remembered directions of an axis.
    pub open spec fn signs(self, axis: Axis) -> Map<Seq<char>, Direction> {
        match axis {
            Axis::X => self.signs_x,
            Axis::Y => self.signs_y,
        }
    }

    /// The driver with a direction remembered for the pane.
    pub open spec fn with_sign(self, axis: Axis, dir: Direction) -> Drive {
        match axis {
            Axis::X => Drive { signs_x: self.signs_x.insert(self.pane(), dir), ..self },
            Axis::Y => Drive { signs_y: self.signs_y.insert(self.pane(), dir), ..self },
        }
    }

    /// The direction to try along an axis: the remembered one, or the high one.
    pub open spec fn direction(self, axis: Axis) -> Direction {
        if self.signs(axis).dom().contains(self.pane()) {
            self.signs(axis)[self.pane()]
        } else {
            high(axis)
        }
    }

    /// Waits for the layout at the start of a step, if there is a goal left.
    pub open spec fn survey(self) -> (Drive, DriveActionView) {
        if self.at >= self.goals.len() {
            (Drive { phase: Phase::Done, ..self }, DriveActionView::Finished)
        } else {
            (Drive { phase: Phase::Survey, ..self }, DriveActionView::Ask(self.pane()))
        }
    }

    /// Turns to the next goal.
    pub open spec fn next_goal(self) -> (Drive, DriveActionView) {
        Drive { at: self.at + 1, step: 0, ..self }.survey()
    }

    /// Ends a step: the pane is left if it did not move at all or has had all
    /// its steps.
    pub open spec fn end_step(self, moved: bool) -> (Drive, DriveActionView) {
        if !moved || self.step + 1 >= MAX_STEPS_PER_PANE {
            self.next_goal()
        } else {
            Drive { step: self.step + 1, ..self }.survey()
        }
    }

    /// Begins an attempt along an axis.
    pub open spec fn attempt(self, axis: Axis, cur: Rect, area: Rect, moved_x: bool) -> (
        Drive,
        DriveActionView,
    ) {
        let delta = along(axis, self.goal()) - along(axis, cur);
        let dir = self.direction(axis);
        let t = Attempt { axis, cur, area, dir, delta: delta as i64, moved_x };
        (
            Drive { phase: Phase::Trying(t), ..self.with_sign(axis, dir) },
            DriveActionView::Resize(self.pane(), dir, step_ratio(delta, along(axis, area) as int)),
        )
    }

    /// Whether the pane is resized along an axis.
    pub open spec fn needs(self, axis: Axis, cur: Rect, area: Rect) -> bool {
        worth_a_step(along(axis, self.goal()) - along(axis, cur), along(axis, area) as int)
    }

    /// The second half of a step.
    pub open spec fn begin_y(self, cur: Rect, area: Rect, moved_x: bool) -> (Drive, DriveActionView) {
        if self.needs(Axis::Y, cur, area) {
            self.attempt(Axis::Y, cur, area, moved_x)
        } else {
            self.end_step(moved_x)
        }
    }

    /// A step: first along one axis, then along the other one.
    pub open spec fn begin_x(self, cur: Rect, area: Rect) -> (Drive, DriveActionView) {
        if self.needs(Axis::X, cur, area) {
            self.attempt(Axis::X, cur, area, false)
        } else {
            self.begin_y(cur, area, false)
        }
    }

    /// Goes on after an attempt.
    pub open spec fn end_attempt(self, t: Attempt, moved: bool) -> (Drive, DriveActionView) {
        match t.axis {
            Axis::X => self.begin_y(t.cur, t.area, moved),
            Axis::Y => self.end_step(t.moved_x || moved),
        }
    }

    /// The layout at the start of a step came in. A pane that is gone is left.
    pub open spec fn surveyed(self, layout: LayoutView) -> (Drive, DriveActionView) {
        match find_rect(layout.panes, self.pane()) {
            Some(cur) => self.begin_x(cur, layout.area),
            None => self.next_goal(),
        }
    }

    /// The layout after a resize came in. If the pane is no closer to its goal,
    /// the other direction is remembered, and tried if the pane moved.
    pub open spec fn checked(self, t: Attempt, moved: bool, layout: LayoutView) -> (
        Drive,
        DriveActionView,
    ) {
        let size = match find_rect(layout.panes, self.pane()) {
            Some(r) => along(t.axis, r),
            None => along(t.axis, t.cur),
        };
        if gap(along(t.axis, self.goal()) as int, size as int) < gap(t.delta as int, 0) {
            self.end_attempt(t, moved)
        } else {
            let dir = flipped(t.axis, t.dir);
            let next = self.with_sign(t.axis, dir);
            if moved {
                (
                    Drive { phase: Phase::Flipping(t), ..next },
                    DriveActionView::Resize(
                        self.pane(),
                        dir,
                        step_ratio(t.delta as int, along(t.axis, t.area) as int),
                    ),
                )
            } else {
                next.end_attempt(t, false)
            }
        }
    }

    /// Whether a layout is what the driver waits for.
    pub open spec fn awaits_layout(self) -> bool {
        self.phase is Survey || self.phase is Checking
    }

    /// Whether the outcome of a resize is what the driver waits for.
    pub open spec fn awaits_resize(self) -> bool {
        self.phase is Trying || self.phase is Flipping
    }

    /// A layout came in.
    pub open spec fn on_layout(self, layout: LayoutView) -> (Drive, DriveActionView) {
        match self.phase {
            Phase::Checking(t, moved) => self.checked(t, moved, layout),
            _ => self.surveyed(layout),
        }
    }

    /// A resize came to its end; `moved` says whether it moved the pane.
    pub open spec fn on_resized(self, moved: bool) -> (Drive, DriveActionView) {
        match self.phase {
            Phase::Trying(t) => (
                Drive { phase: Phase::Checking(t, moved), ..self },
                DriveActionView::Ask(self.pane()),
            ),
            Phase::Flipping(t) => self.end_attempt(t, true),
            _ => (self, DriveActionView::Finished),
        }
    }
}

impl Driver {
    /// Whether the driver is in order.
    pub closed spec fn wf(&self) -> bool {
        &&& self.signs_x.wf()
        &&& self.signs_y.wf()
        &&& self@.wf()
    }

    fn survey(&mut self) -> (r: DriveAction)
        requires
            old(self).signs_x.wf(),
            old(self).signs_y.wf(),
            0 <= old(self)@.at <= old(self)@.goals.len(),
            0 <= old(self)@.step < MAX_STEPS_PER_PANE,
        ensures
            final(self).wf(),
            (final(self)@, r@) == old(self)@.survey(),
    {
        if self.at >= self.goals.len() {
            self.phase = Phase::Done;
            DriveAction::Finished
        } else {
            self.phase = Phase::Survey;
            DriveAction::Ask(self.goals[self.at].0.clone())
        }
    }

    fn end_step(&mut self, moved: bool) -> (r: DriveAction)
        requires
            old(self).wf(),
            old(self)@.at < old(self)@.goals.len(),
        ensures
            final(self).wf(),
            (final(self)@, r@) == old(self)@.end_step(moved),
    {
        if !moved || self.step + 1 >= MAX_STEPS_PER_PANE {
            self.next_goal()
        } else {
            self.step = self.step + 1;
            self.survey()
        }
    }

    fn next_goal(&mut self) -> (r: DriveAction)
        requires
            old(self).wf(),
            old(self)@.at < old(self)@.goals.len(),
        ensures
            final(self).wf(),
            (final(self)@, r@) == old(self)@.next_goal(),
    {
        let n = self.goals.len();
        assert(self.at < n);
        self.at = self.at + 1;
        self.step = 0;
        self.survey()
    }

    fn direction(&self, axis: Axis) -> (r: Direction)
        requires
            self.wf(),
            self@.at < self@.goals.len(),
        ensures
            r == self@.direction(axis),
    {
        let id = self.goals[self.at].0.as_str();
        let known = match axis {
            Axis::X => self.signs_x.get(id),
            Axis::Y => self.signs_y.get(id),
        };
        match known {
            Some(d) => d,
            None => high_of(axis),
        }
    }

    fn remember(&mut self, axis: Axis, dir: Direction)
        requires
            old(self).wf(),
            old(self)@.at < old(self)@.goals.len(),
        ensures
            final(self).signs_x.wf(),
            final(self).signs_y.wf(),
            final(self)@ == old(self)@.with_sign(axis, dir),
    {
        let id = self.goals[self.at].0.clone();
        match axis {
            Axis::X => self.signs_x.insert(id.as_str(), dir),
            Axis::Y => self.signs_y.insert(id.as_str(), dir),
        }
    }

    /// Begins an attempt along an axis, unless it is not worth it.
    fn step_axis(&mut self, axis: Axis, cur: Rect, area: Rect, moved_x: bool) -> (r: Option<
        DriveAction,
    >)
        requires
            old(self).wf(),
            old(self)@.at < old(self)@.goals.len(),
        ensures
            final(self).wf(),
            match r {
                Some(a) => old(self)@.needs(axis, cur, area) && (final(self)@, a@)
                    == old(self)@.attempt(axis, cur, area, moved_x),
                None => !old(self)@.needs(axis, cur, area) && final(self)@ == old(self)@,
            },
    {
        let goal = self.goals[self.at].1;
        let delta: i64 = along_of(axis, goal) as i64 - along_of(axis, cur) as i64;
        let extent = along_of(axis, area);
        if (delta <= TOLERANCE_CELLS && delta >= -TOLERANCE_CELLS) || extent <= 0 {
            return None;
        }
        let dir = self.direction(axis);
        self.remember(axis, dir);
        self.phase = Phase::Trying(Attempt { axis, cur, area, dir, delta, moved_x });
        Some(DriveAction::Resize(self.goals[self.at].0.clone(), dir, ratio_of(delta, extent)))
    }

    fn begin_y(&mut self, cur: Rect, area: Rect, moved_x: bool) -> (r: DriveAction)
        requires
            old(self).wf(),
            old(self)@.at < old(self)@.goals.len(),
        ensures
            final(self).wf(),
            (final(self)@, r@) == old(self)@.begin_y(cur, area, moved_x),
    {
        match self.step_axis(Axis::Y, cur, area, moved_x) {
            Some(a) => a,
            None => self.end_step(moved_x),
        }
    }

    fn end_attempt(&mut self, t: Attempt, moved: bool) -> (r: DriveAction)
        requires
            old(self).wf(),
            old(self)@.at < old(self)@.goals.len(),
        ensures
            final(self).wf(),
            (final(self)@, r@) == old(self)@.end_attempt(t, moved),
    {
        match t.axis {
            Axis::X => self.begin_y(t.cur, t.area, moved),
            Axis::Y => self.end_step(t.moved_x || moved),
        }
    }

    /// Takes the layout at the start of a step.
    fn drive(&mut self, layout: &TabLayout) -> (r: DriveAction)
        requires
            old(self).wf(),
            old(self)@.at < old(self)@.goals.len(),
        ensures
            final(self).wf(),
            (final(self)@, r@) == old(self)@.surveyed(layout@),
    {
        match rect_of(layout, self.goals[self.at].0.as_str()) {
            Some(cur) => match self.step_axis(Axis::X, cur, layout.area, false) {
                Some(a) => a,
                None => self.begin_y(cur, layout.area, false),
            },
            None => self.next_goal(),
        }
    }

    /// Takes the layout after a resize.
    fn check(&mut self, t: Attempt, moved: bool, layout: &TabLayout) -> (r: DriveAction)
        requires
            old(self).wf(),
            old(self)@.attempt_wf(t),
        ensures
            final(self).wf(),
            (final(self)@, r@) == old(self)@.checked(t, moved, layout@),
    {
        let goal = along_of(t.axis, self.goals[self.at].1);
        let size = match rect_of(layout, self.goals[self.at].0.as_str()) {
            Some(r) => along_of(t.axis, r),
            None => along_of(t.axis, t.cur),
        };
        let missing: i64 = if t.delta > 0 { t.delta } else { -t.delta };
        if gap_of(goal, size) < missing {
            return self.end_attempt(t, moved);
        }
        let low = low_of(t.axis);
        let dir = if t.dir == low { high_of(t.axis) } else { low };
        self.remember(t.axis, dir);
        self.phase = Phase::Flipping(t);
        if moved {
            let ratio = ratio_of(t.delta, along_of(t.axis, t.area));
            DriveAction::Resize(self.goals[self.at].0.clone(), dir, ratio)
        } else {
            self.end_attempt(t, false)
        }
    }

    /// Tells the driver the layout that it asked for.
    pub fn on_layout(&mut self, layout: &TabLayout) -> (r: DriveAction)
        requires
            old(self).wf(),
            old(self)@.awaits_layout(),
        ensures
            final(self).wf(),
            (final(self)@, r@) == old(self)@.on_layout(layout@),
    {
        match self.phase {
            Phase::Checking(t, moved) => self.check(t, moved, layout),
            _ => self.drive(layout),
        }
    }

    /// Tells the driver whether the resize that it wanted moved the pane.
    pub fn on_resized(&mut self, moved: bool) -> (r: DriveAction)
        requires
            old(self).wf(),
            old(self)@.awaits_resize(),
        ensures
            final(self).wf(),
            (final(self)@, r@) == old(self)@.on_resized(moved),
    {
        match self.phase {
            Phase::Trying(t) => {
                self.phase = Phase::Checking(t, moved);
                DriveAction::Ask(self.goals[self.at].0.clone())
            },
            Phase::Flipping(t) => self.end_attempt(t, true),
            _ => DriveAction::Finished,
        }
    }
}

/// The driver before its first step, with nothing remembered.
pub open spec fn fresh(goals: Seq<(Seq<char>, Rect)>) -> Drive {
    Drive {
        goals,
        signs_x: Map::empty(),
        signs_y: Map::empty(),
        at: 0,
        step: 0,
        phase: Phase::Survey,
    }
}

/// Begins to drive panes to their goals: the driver and the first thing that it
/// wants done.
pub fn drive_all(goals: Vec<(String, Rect)>) -> (r: (Driver, DriveAction))
    ensures
        r.0.wf(),
        (r.0@, r.1@) == fresh(sizes(goals@)).survey(),
{
    let mut driver = Driver {
        goals,
        signs_x: PaneTable::new(),
        signs_y: PaneTable::new(),
        at: 0,
        step: 0,
        phase: Phase::Survey,
    };
    let action = driver.survey();
    (driver, action)
}

impl Drive {
    /// How far an attempt is from its end.
    pub open spec fn rank(self) -> int {
        match self.phase {
            Phase::Survey => 7,
            Phase::Trying(t) => if t.axis == Axis::X { 6 } else { 3 },
            Phase::Checking(t, _) => if t.axis == Axis::X { 5 } else { 2 },
            Phase::Flipping(t) => if t.axis == Axis::X { 4 } else { 1 },
            Phase::Done => 0,
        }
    }

    /// How many more answers the driver can take at most.
    pub open spec fn budget(self) -> int {
        if self.phase is Done {
            0
        } else {
            ((self.goals.len() - self.at - 1) * MAX_STEPS_PER_PANE + (MAX_STEPS_PER_PANE - 1
                - self.step)) * 7 + self.rank()
        }
    }

    /// The driver after an answer: a layout if it waits for one, else whether a
    /// resize moved the pane.
    pub open spec fn answered(self, layout: LayoutView, moved: bool) -> (Drive, DriveActionView) {
        if self.awaits_layout() {
            self.on_layout(layout)
        } else {
            self.on_resized(moved)
        }
    }
}

/// A driver that is in order has a model that is in order.
pub proof fn law_driver_is_in_order(d: Driver)
    requires
        d.wf(),
    ensures
        d@.wf(),
{
}

/// What the driver wants done tells what it waits for, whatever it is answered.
pub proof fn law_action_tells_phase(d: Drive, layout: LayoutView, moved: bool)
    requires
        d.wf(),
        !(d.phase is Done),
    ensures
        ({
            let (next, action) = d.answered(layout, moved);
            &&& next.wf()
            &&& action is Ask <==> next.awaits_layout()
            &&& action is Resize <==> next.awaits_resize()
            &&& action is Finished <==> next.phase is Done
            &&& action matches DriveActionView::Ask(pane) ==> pane == next.pane()
            &&& action matches DriveActionView::Resize(pane, _, _) ==> pane == next.pane()
            &&& next.goals == d.goals
        }),
{
}

/// Every answer brings the driver closer to its end, whatever it is: no more
/// than 70 answers are taken for a pane.
pub proof fn law_driving_ends(d: Drive, layout: LayoutView, moved: bool)
    requires
        d.wf(),
        !(d.phase is Done),
    ensures
        0 <= d.answered(layout, moved).0.budget() < d.budget(),
        d.budget() <= 70 * d.goals.len(),
{
}

/// A pane whose size is close to the goal, or that is gone, is left alone: the
/// driver turns to the next one.
pub proof fn law_aligned_pane_is_left(d: Drive, layout: LayoutView)
    requires
        d.wf(),
        d.phase is Survey,
        find_rect(layout.panes, d.pane()) matches Some(size) ==> close(size, d.goal()),
    ensures
        d.on_layout(layout) == d.next_goal(),
{
}

/// A resize is wanted only along an axis on which the pane misses its goal by
/// more than the tolerance, in a direction of that axis, by the share that the
/// gap calls for.
pub proof fn law_resize_is_called_for(d: Drive, layout: LayoutView, moved: bool)
    requires
        d.wf(),
        !(d.phase is Done),
    ensures
        d.answered(layout, moved).1 matches DriveActionView::Resize(_, dir, ratio) ==> {
            let t = match d.answered(layout, moved).0.phase {
                Phase::Trying(t) | Phase::Flipping(t) => t,
                _ => arbitrary(),
            };
            &&& gap(along(t.axis, d.goal()) as int, along(t.axis, t.cur) as int) > TOLERANCE_CELLS
            &&& ratio == step_ratio(t.delta as int, along(t.axis, t.area) as int)
            &&& t.delta == along(t.axis, d.goal()) - along(t.axis, t.cur)
        },
{
}

/// A share is positive and 2/5 at most. It is 1/50 at least where the pane
/// grows, and 1/50 at most where it shrinks.
pub proof fn law_step_ratio(delta: i64, area: i32)
    requires
        worth_a_step(delta as int, area as int),
        -0x1_0000_0000 <= delta <= 0x1_0000_0000,
    ensures
        ({
            let r = step_ratio(delta as int, area as int);
            &&& 0 < r.num
            &&& 0 < r.den
            &&& 5 * r.num <= 2 * r.den
            &&& delta > 0 ==> 50 * r.num >= r.den
            &&& delta < 0 ==> 50 * r.num <= r.den
        }),
{
}

/// A direction that brought the pane no closer is given up for the other one,
/// and one that did is kept.
pub proof fn law_direction_is_learnt(d: Drive, t: Attempt, moved: bool, layout: LayoutView)
    requires
        d.wf(),
        d.phase == Phase::Checking(t, moved),
    ensures
        ({
            let next = d.on_layout(layout).0;
            let size = match find_rect(layout.panes, d.pane()) {
                Some(r) => along(t.axis, r),
                None => along(t.axis, t.cur),
            };
            let closer = gap(along(t.axis, d.goal()) as int, size as int) < gap(
                along(t.axis, d.goal()) as int,
                along(t.axis, t.cur) as int,
            );
            let dir = if closer {
                t.dir
            } else {
                flipped(t.axis, t.dir)
            };
            &&& next.signs(t.axis).dom().contains(d.pane())
            &&& next.signs(t.axis)[d.pane()] == dir
        }),
{
}

/// The size of a pane is that of the first entry with its id; without such an
/// entry it has none.
pub proof fn law_find_rect(panes: Seq<(Seq<char>, Rect)>, id: Seq<char>, k: int)
    ensures
        0 <= k < panes.len() && panes[k].0 == id && (forall|i: int|
            0 <= i < k ==> (#[trigger] panes[i]).0 != id) ==> find_rect(panes, id) == Some(panes[k].1),
        (forall|i: int| 0 <= i < panes.len() ==> (#[trigger] panes[i]).0 != id) ==> find_rect(
            panes,
            id,
        ) is None,
    decreases panes.len(),
{
    if panes.len() > 0 {
        let rest = panes.skip(1);
        law_find_rect(rest, id, k - 1);
        if 0 < k < panes.len() && (forall|i: int| 0 <= i < k ==> (#[trigger] panes[i]).0 != id) {
            assert forall|i: int| 0 <= i < k - 1 implies (#[trigger] rest[i]).0 != id by {
                assert(rest[i] == panes[i + 1]);
            }
            assert(panes[0].0 != id);
        }
        if forall|i: int| 0 <= i < panes.len() ==> (#[trigger] panes[i]).0 != id {
            assert forall|i: int| 0 <= i < rest.len() implies (#[trigger] rest[i]).0 != id by {
                assert(rest[i] == panes[i + 1]);
            }
            assert(panes[0].0 != id);
        }
    }
}

/// Whether neither side of two sizes differs by more than two cells.
pub open spec fn within_two(size: Rect, goal: Rect) -> bool {
    &&& goal.width - 2 <= size.width <= goal.width + 2
    &&& goal.height - 2 <= size.height <= goal.height + 2
}

/// A size is close to the goal if neither its width nor its height misses it by
/// more than two cells.
pub proof fn law_close(size: Rect, goal: Rect)
    ensures
        close(size, goal) <==> within_two(size, goal),
{
}

/// The directions of the two axes, and the words for them.
pub proof fn law_directions(r: Rect)
    ensures
        high(Axis::X) == Direction::Right,
        high(Axis::Y) == Direction::Down,
        flipped(Axis::X, Direction::Right) == Direction::Left,
        flipped(Axis::X, Direction::Left) == Direction::Right,
        flipped(Axis::Y, Direction::Down) == Direction::Up,
        flipped(Axis::Y, Direction::Up) == Direction::Down,
        along(Axis::X, r) == r.width,
        along(Axis::Y, r) == r.height,
        Direction::Left.word() == "left"@,
        Direction::Right.word() == "right"@,
        Direction::Up.word() == "up"@,
        Direction::Down.word() == "down"@,
{
}

/// A pane is resized by the share of the area that it misses. A pane that grows
/// is resized by no less than 1/50 and by no more than 2/5, one that shrinks by no
/// more than 1/50.
pub proof fn law_share_is_what_is_missing(delta: i64, area: i32)
    requires
        delta > 2 || delta < -2,
        area > 0,
        -0x1_0000_0000 <= delta <= 0x1_0000_0000,
    ensures
        ({
            let r = step_ratio(delta as int, area as int);
            &&& delta > 0 && 5 * delta >= 2 * area ==> 5 * r.num == 2 * r.den
            &&& delta > 0 && 50 * delta <= area ==> 50 * r.num == r.den
            &&& delta > 0 && 5 * delta < 2 * area && 50 * delta > area ==> r.num == delta && r.den
                == area
            &&& delta < 0 && 50 * -delta >= area ==> 50 * r.num == r.den
            &&& delta < 0 && 50 * -delta < area ==> r.num == -delta && r.den == area
        }),
{
}

/// A pane that is too wide or too narrow by more than two cells is resized along
/// its width, first in the direction that worked before, or else to the right. If
/// only its height is wrong it is resized along that, first downwards.
pub proof fn law_misfit_is_resized(d: Drive, layout: LayoutView, cur: Rect)
    requires
        d.wf(),
        d.phase is Survey,
        find_rect(layout.panes, d.pane()) == Some(cur),
        layout.area.width > 0,
        layout.area.height > 0,
    ensures
        ({
            let goal = d.goal();
            let dx = goal.width - cur.width;
            let dy = goal.height - cur.height;
            let pane = d.pane();
            let (next, action) = d.on_layout(layout);
            &&& dx > 2 || dx < -2 ==> {
                let dir = if d.signs_x.dom().contains(pane) {
                    d.signs_x[pane]
                } else {
                    Direction::Right
                };
                &&& action == DriveActionView::Resize(
                    pane,
                    dir,
                    step_ratio(dx, layout.area.width as int),
                )
                &&& next.signs_x == d.signs_x.insert(pane, dir)
                &&& next.signs_y == d.signs_y
                &&& next.at == d.at && next.step == d.step
            }
            &&& -2 <= dx <= 2 && (dy > 2 || dy < -2) ==> {
                let dir = if d.signs_y.dom().contains(pane) {
                    d.signs_y[pane]
                } else {
                    Direction::Down
                };
                &&& action == DriveActionView::Resize(
                    pane,
                    dir,
                    step_ratio(dy, layout.area.height as int),
                )
                &&& next.signs_y == d.signs_y.insert(pane, dir)
                &&& next.signs_x == d.signs_x
                &&& next.at == d.at && next.step == d.step
            }
        }),
{
}

/// After a resize the layout is looked at again, whether the pane moved or not.
pub proof fn law_resize_is_checked(d: Drive, t: Attempt, moved: bool)
    requires
        d.phase == Phase::Trying(t),
    ensures
        d.on_resized(moved).1 == DriveActionView::Ask(d.pane()),
        d.on_resized(moved).0.phase == Phase::Checking(t, moved),
        d.on_resized(moved).0.at == d.at,
        d.on_resized(moved).0.step == d.step,
        d.on_resized(moved).0.signs_x == d.signs_x,
        d.on_resized(moved).0.signs_y == d.signs_y,
{
}

/// Whether a pane is closer to its goal than it was before a resize. A pane that
/// cannot be found any more is not.
pub open spec fn came_closer(d: Drive, t: Attempt, layout: LayoutView) -> bool {
    find_rect(layout.panes, d.pane()) matches Some(r) && gap(
        along(t.axis, d.goal()) as int,
        along(t.axis, r) as int,
    ) < gap(along(t.axis, d.goal()) as int, along(t.axis, t.cur) as int)
}

/// Whether an answer is the last one of an attempt: the other direction was
/// tried, the pane came closer, or it did not move.
pub open spec fn ends_attempt(d: Drive, t: Attempt, moved: bool, layout: LayoutView) -> bool {
    ||| d.phase == Phase::Flipping(t)
    ||| d.phase == Phase::Checking(t, moved) && came_closer(d, t, layout)
    ||| d.phase == Phase::Checking(t, false) && !moved
}

/// A resize that moved the pane the wrong way, or not far enough to be seen, is
/// tried once in the other direction, by the same share.
pub proof fn law_wrong_direction_is_turned(d: Drive, t: Attempt, layout: LayoutView)
    requires
        d.wf(),
        d.phase == Phase::Checking(t, true),
        !came_closer(d, t, layout),
    ensures
        ({
            let (next, action) = d.on_layout(layout);
            &&& action == DriveActionView::Resize(
                d.pane(),
                flipped(t.axis, t.dir),
                step_ratio(t.delta as int, along(t.axis, t.area) as int),
            )
            &&& next.phase == Phase::Flipping(t)
            &&& next.at == d.at && next.step == d.step
        }),
{
}

/// Behind the width comes the height of the same pane: it is resized too if it
/// misses the goal by more than two cells.
pub proof fn law_height_comes_behind_width(d: Drive, t: Attempt, moved: bool, layout: LayoutView)
    requires
        d.wf(),
        t.axis == Axis::X,
        t.area.height > 0,
        d.goal().height - t.cur.height > 2 || d.goal().height - t.cur.height < -2,
        ends_attempt(d, t, moved, layout),
    ensures
        ({
            let (next, action) = d.answered(layout, moved);
            let dir = if d.signs_y.dom().contains(d.pane()) {
                d.signs_y[d.pane()]
            } else {
                Direction::Down
            };
            &&& action == DriveActionView::Resize(
                d.pane(),
                dir,
                step_ratio(d.goal().height - t.cur.height, t.area.height as int),
            )
            &&& next.at == d.at && next.step == d.step
            &&& next.phase matches Phase::Trying(u) && u.axis == Axis::Y && u.moved_x == (
            d.phase is Flipping || moved)
        }),
{
}

/// When both axes are done, a pane that moved along one of them gets another
/// step, up to ten in all. After that, or if it did not move, the next pane is
/// driven; behind the last one the driver is finished.
pub proof fn law_steps_of_a_pane(d: Drive, t: Attempt, moved: bool, layout: LayoutView)
    requires
        d.wf(),
        t.axis == Axis::Y,
        ends_attempt(d, t, moved, layout),
    ensures
        ({
            let (next, action) = d.answered(layout, moved);
            let went = d.phase is Flipping || moved || t.moved_x;
            &&& went && d.step < 9 ==> {
                &&& action == DriveActionView::Ask(d.pane())
                &&& next.at == d.at
                &&& next.step == d.step + 1
            }
            &&& !went || d.step == 9 ==> {
                &&& next.at == d.at + 1
                &&& next.step == 0
                &&& d.at + 1 < d.goals.len() ==> action == DriveActionView::Ask(
                    d.goals[d.at + 1].0,
                )
                &&& d.at + 1 == d.goals.len() ==> action is Finished
            }
        }),
{
}

/// A pane that is close to its goal, or gone, takes no step: the next pane is
/// driven, with all that was learnt.
pub proof fn law_next_pane_is_driven(d: Drive, layout: LayoutView)
    requires
        d.wf(),
        d.phase is Survey,
        find_rect(layout.panes, d.pane()) matches Some(size) ==> within_two(size, d.goal()),
    ensures
        ({
            let (next, action) = d.on_layout(layout);
            &&& next.at == d.at + 1
            &&& next.step == 0
            &&& next.signs_x == d.signs_x
            &&& next.signs_y == d.signs_y
            &&& d.at + 1 < d.goals.len() ==> action == DriveActionView::Ask(d.goals[d.at + 1].0)
            &&& d.at + 1 == d.goals.len() ==> action is Finished
        }),
{
}

/// What is learnt of one pane does not touch what is known of another.
pub proof fn law_directions_are_kept_by_pane(
    d: Drive,
    layout: LayoutView,
    moved: bool,
    other: Seq<char>,
)
    requires
        d.wf(),
        !(d.phase is Done),
        other != d.pane(),
    ensures
        ({
            let next = d.answered(layout, moved).0;
            &&& next.signs_x.dom().contains(other) == d.signs_x.dom().contains(other)
            &&& next.signs_y.dom().contains(other) == d.signs_y.dom().contains(other)
            &&& d.signs_x.dom().contains(other) ==> next.signs_x[other] == d.signs_x[other]
            &&& d.signs_y.dom().contains(other) ==> next.signs_y[other] == d.signs_y[other]
        }),
{
}

/// Driving begins with the first pane, and nothing is known then. Without panes
/// it is finished at once.
pub proof fn law_driving_begins(goals: Seq<(Seq<char>, Rect)>)
    ensures
        ({
            let (d, action) = fresh(goals).survey();
            &&& d.goals == goals
            &&& d.at == 0
            &&& d.step == 0
            &&& d.signs_x == Map::<Seq<char>, Direction>::empty()
            &&& d.signs_y == Map::<Seq<char>, Direction>::empty()
            &&& goals.len() > 0 ==> action == DriveActionView::Ask(goals[0].0)
            &&& goals.len() == 0 ==> action is Finished
        }),
{
}

} // verus!

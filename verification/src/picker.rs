//! The page on which the targets are selected.

use vstd::prelude::*;
use vstd::string::*;

use crate::broadcast::{inside, split_vertical, stacked, Area, Share};
use crate::herdr::{Context, PaneInfo};
use crate::input::{KeyCode, Modifiers};
use crate::line::opt_text;
use crate::text::{decimal, decimal_of};

verus! {

/// A pane in the list, and whether it is selected.
#[derive(Debug)]
pub struct PickItem {
    pub info: PaneInfo,
    pub selected: bool,
}

/// What follows from a key.
#[derive(Debug)]
pub enum PickStep {
    /// The page goes on.
    Continue,
    /// It was left.
    Quit,
    /// These panes were chosen.
    Chosen(Vec<PaneInfo>),
}

/// The model of a `PickStep`.
pub enum PickStepView {
    Continue,
    Quit,
    Chosen(Seq<PaneInfo>),
}

impl View for PickStep {
    type V = PickStepView;

    open spec fn view(&self) -> PickStepView {
        match self {
            PickStep::Continue => PickStepView::Continue,
            PickStep::Quit => PickStepView::Quit,
            PickStep::Chosen(panes) => PickStepView::Chosen(panes@),
        }
    }
}

/// The state of the page.
#[derive(Debug)]
pub struct Picker {
    items: Vec<PickItem>,
    /// The item under the cursor.
    cursor: Option<usize>,
    /// What is said in the footer.
    notice: Option<String>,
}

/// The model of a `Picker`.
#[verifier::ext_equal]
pub struct PickerView {
    pub items: Seq<PickItem>,
    pub cursor: Option<usize>,
    pub notice: Option<Seq<char>>,
}

impl View for Picker {
    type V = PickerView;

    closed spec fn view(&self) -> PickerView {
        PickerView { items: self.items@, cursor: self.cursor, notice: opt_text(self.notice) }
    }
}

/// What a key does on the page.
#[derive(Clone, Copy, Debug, PartialEq, Eq, Structural)]
pub enum PickKey {
    Quit,
    Up,
    Down,
    Toggle,
    ToggleAll,
    Accept,
    /// Nothing.
    Other,
}

/// What a key does on the page.
pub open spec fn pick_key(code: KeyCode, modifiers: Modifiers) -> PickKey {
    match code {
        KeyCode::Esc => PickKey::Quit,
        KeyCode::Up => PickKey::Up,
        KeyCode::Down => PickKey::Down,
        KeyCode::Enter => PickKey::Accept,
        KeyCode::Char(ch) => if ch == 'q' || (ch == 'c' && modifiers == Modifiers::Control) {
            PickKey::Quit
        } else if ch == 'k' {
            PickKey::Up
        } else if ch == 'j' {
            PickKey::Down
        } else if ch == ' ' {
            PickKey::Toggle
        } else if ch == 'a' {
            PickKey::ToggleAll
        } else {
            PickKey::Other
        },
        _ => PickKey::Other,
    }
}

fn pick_key_of(code: KeyCode, modifiers: Modifiers) -> (r: PickKey)
    ensures
        r == pick_key(code, modifiers),
{
    match code {
        KeyCode::Esc => PickKey::Quit,
        KeyCode::Up => PickKey::Up,
        KeyCode::Down => PickKey::Down,
        KeyCode::Enter => PickKey::Accept,
        KeyCode::Char(ch) => if ch == 'q' || (ch == 'c' && modifiers == Modifiers::Control) {
            PickKey::Quit
        } else if ch == 'k' {
            PickKey::Up
        } else if ch == 'j' {
            PickKey::Down
        } else if ch == ' ' {
            PickKey::Toggle
        } else if ch == 'a' {
            PickKey::ToggleAll
        } else {
            PickKey::Other
        },
        _ => PickKey::Other,
    }
}

/// An item that was selected or not; the own pane is never selected.
pub open spec fn marked(item: PickItem, selected: bool) -> PickItem {
    if item.info.is_self {
        item
    } else {
        PickItem { selected, ..item }
    }
}

/// Whether an item can be selected and is not.
pub open spec fn unselected(item: PickItem) -> bool {
    !item.info.is_self && !item.selected
}

/// The panes that are selected.
pub open spec fn selection(items: Seq<PickItem>) -> Seq<PaneInfo> {
    items.filter(|i: PickItem| i.selected).map_values(|i: PickItem| i.info)
}

/// The page with nothing selected.
pub open spec fn fresh_picker(panes: Seq<PaneInfo>) -> PickerView {
    PickerView {
        items: panes.map_values(|info: PaneInfo| PickItem { info, selected: false }),
        cursor: if panes.len() > 0 {
            Some(0)
        } else {
            None
        },
        notice: None,
    }
}

impl PickerView {
    /// Whether the page is in order: the own pane is not selected, and the cursor
    /// is on an item if there is one.
    pub open spec fn wf(self) -> bool {
        &&& forall|i: int|
            0 <= i < self.items.len() && (#[trigger] self.items[i]).info.is_self
                ==> !self.items[i].selected
        &&& self.items.len() > 0 ==> (self.cursor matches Some(c) && c < self.items.len())
        &&& self.items.len() == 0 ==> (self.cursor matches Some(c) ==> c == 0)
    }

    /// The cursor one item up.
    pub open spec fn up(self) -> Option<usize> {
        match self.cursor {
            Some(c) => Some(
                if c > 0 {
                    (c - 1) as usize
                } else {
                    0
                },
            ),
            None => Some(0),
        }
    }

    /// The cursor one item down.
    pub open spec fn down(self) -> Option<usize> {
        match self.cursor {
            Some(c) => Some(
                if c + 1 < self.items.len() {
                    (c + 1) as usize
                } else if self.items.len() > 0 {
                    (self.items.len() - 1) as usize
                } else {
                    0
                },
            ),
            None => Some(0),
        }
    }

    /// The items after the one under the cursor was selected or unselected.
    pub open spec fn toggled(self) -> Seq<PickItem> {
        match self.cursor {
            Some(c) => if c < self.items.len() {
                let item = self.items[c as int];
                self.items.update(c as int, marked(item, !item.selected))
            } else {
                self.items
            },
            None => self.items,
        }
    }

    /// Whether an item can be selected and is not.
    pub open spec fn any_unselected(self) -> bool {
        exists|i: int| 0 <= i < self.items.len() && unselected(#[trigger] self.items[i])
    }

    /// The items after all were selected, or unselected if all were selected.
    pub open spec fn all_toggled(self) -> Seq<PickItem> {
        let select = self.any_unselected();
        self.items.map_values(|i: PickItem| marked(i, select))
    }

    /// The page after a key, and what follows.
    pub open spec fn pressed(self, code: KeyCode, modifiers: Modifiers) -> (
        PickerView,
        PickStepView,
    ) {
        let quiet = PickerView { notice: None, ..self };
        match pick_key(code, modifiers) {
            PickKey::Quit => (self, PickStepView::Quit),
            PickKey::Up => (PickerView { cursor: self.up(), ..quiet }, PickStepView::Continue),
            PickKey::Down => (PickerView { cursor: self.down(), ..quiet }, PickStepView::Continue),
            PickKey::Toggle => (
                PickerView { items: self.toggled(), ..quiet },
                PickStepView::Continue,
            ),
            PickKey::ToggleAll => (
                PickerView { items: self.all_toggled(), ..quiet },
                PickStepView::Continue,
            ),
            PickKey::Accept => if selection(self.items).len() > 0 {
                (self, PickStepView::Chosen(selection(self.items)))
            } else {
                (
                    PickerView {
                        notice: Some("select at least one pane (space) or press esc to quit"@),
                        ..self
                    },
                    PickStepView::Continue,
                )
            },
            PickKey::Other => (quiet, PickStepView::Continue),
        }
    }
}

proof fn lemma_selection_push(items: Seq<PickItem>, item: PickItem)
    ensures
        selection(items.push(item)) == if item.selected {
            selection(items).push(item.info)
        } else {
            selection(items)
        },
{
    reveal(Seq::filter);
    let keep = |i: PickItem| i.selected;
    assert(items.push(item).drop_last() =~= items);
    if item.selected {
        assert(items.push(item).filter(keep) =~= items.filter(keep).push(item));
    }
    assert(selection(items.push(item)) =~= if item.selected {
        selection(items).push(item.info)
    } else {
        selection(items)
    });
}

impl Picker {
    /// Whether the page is in order.
    pub open spec fn wf(&self) -> bool {
        self@.wf()
    }

    /// The page for the panes of a tab.
    pub fn new(panes: Vec<PaneInfo>) -> (r: Picker)
        ensures
            r.wf(),
            r@ == fresh_picker(panes@),
    {
        let mut items: Vec<PickItem> = Vec::new();
        let mut i: usize = 0;
        while i < panes.len()
            invariant
                i <= panes@.len(),
                items@ =~= panes@.take(i as int).map_values(
                    |info: PaneInfo| PickItem { info, selected: false },
                ),
            decreases panes@.len() - i,
        {
            items.push(PickItem { info: panes[i].clone(), selected: false });
            i += 1;
        }
        assert(panes@.take(i as int) =~= panes@);
        let cursor: Option<usize> = if panes.len() > 0 { Some(0) } else { None };
        let r = Picker { items, cursor, notice: None };
        assert(r@ =~= fresh_picker(panes@));
        r
    }

    fn has_unselected(&self) -> (r: bool)
        ensures
            r == self@.any_unselected(),
    {
        let mut i: usize = 0;
        while i < self.items.len()
            invariant
                i <= self.items@.len(),
                forall|j: int| 0 <= j < i ==> !unselected(#[trigger] self@.items[j]),
            decreases self.items@.len() - i,
        {
            if !self.items[i].info.is_self && !self.items[i].selected {
                assert(unselected(self@.items[i as int]));
                return true;
            }
            i += 1;
        }
        false
    }

    fn toggle(&mut self)
        ensures
            final(self)@ == (PickerView { items: old(self)@.toggled(), ..old(self)@ }),
    {
        if let Some(c) = self.cursor {
            if c < self.items.len() {
                if !self.items[c].info.is_self {
                    let selected = self.items[c].selected;
                    self.items[c].selected = !selected;
                }
            }
        }
        assert(self@.items =~= old(self)@.toggled());
    }

    fn toggle_all(&mut self)
        ensures
            final(self)@ == (PickerView { items: old(self)@.all_toggled(), ..old(self)@ }),
    {
        let select = self.has_unselected();
        let ghost before = self.items@;
        let mut i: usize = 0;
        while i < self.items.len()
            invariant
                i <= self.items@.len(),
                self.items@.len() == before.len(),
                self.cursor == old(self).cursor,
                self.notice == old(self).notice,
                forall|j: int|
                    0 <= j < before.len() ==> #[trigger] self.items@[j] == if j < i {
                        marked(before[j], select)
                    } else {
                        before[j]
                    },
            decreases self.items@.len() - i,
        {
            if !self.items[i].info.is_self {
                self.items[i].selected = select;
            }
            i += 1;
        }
        assert(self@.items =~= old(self)@.all_toggled());
    }

    /// The panes that are selected.
    pub fn selected(&self) -> (r: Vec<PaneInfo>)
        ensures
            r@ == selection(self@.items),
    {
        let mut out: Vec<PaneInfo> = Vec::new();
        let mut i: usize = 0;
        assert(selection(self.items@.take(0)) =~= Seq::empty()) by {
            reveal(Seq::filter);
        }
        while i < self.items.len()
            invariant
                i <= self.items@.len(),
                out@ == selection(self.items@.take(i as int)),
            decreases self.items@.len() - i,
        {
            proof {
                lemma_selection_push(self.items@.take(i as int), self.items@[i as int]);
                assert(self.items@.take(i + 1) =~= self.items@.take(i as int).push(
                    self.items@[i as int],
                ));
            }
            if self.items[i].selected {
                out.push(self.items[i].info.clone());
            }
            i += 1;
        }
        assert(self.items@.take(i as int) =~= self.items@);
        out
    }

    /// Takes a key in.
    pub fn on_press(&mut self, code: KeyCode, modifiers: Modifiers) -> (r: PickStep)
        requires
            old(self).wf(),
        ensures
            final(self).wf(),
            (final(self)@, r@) == old(self)@.pressed(code, modifiers),
    {
        proof {
            law_picker_stays_in_order(self@, code, modifiers);
        }
        match pick_key_of(code, modifiers) {
            PickKey::Quit => {
                return PickStep::Quit;
            },
            PickKey::Up => {
                self.cursor = match self.cursor {
                    Some(c) => if c > 0 {
                        Some(c - 1)
                    } else {
                        Some(0)
                    },
                    None => Some(0),
                };
            },
            PickKey::Down => {
                let n = self.items.len();
                self.cursor = match self.cursor {
                    Some(c) => if n > 0 && c < n - 1 {
                        Some(c + 1)
                    } else if n > 0 {
                        Some(n - 1)
                    } else {
                        Some(0)
                    },
                    None => Some(0),
                };
            },
            PickKey::Toggle => {
                self.toggle();
            },
            PickKey::ToggleAll => {
                self.toggle_all();
            },
            PickKey::Accept => {
                let panes = self.selected();
                if panes.len() > 0 {
                    return PickStep::Chosen(panes);
                }
                self.notice = Some(
                    "select at least one pane (space) or press esc to quit".to_string(),
                );
                return PickStep::Continue;
            },
            PickKey::Other => (),
        }
        self.notice = None;
        PickStep::Continue
    }

    /// The item under the cursor.
    pub fn cursor(&self) -> (r: Option<usize>)
        ensures
            r == self@.cursor,
    {
        self.cursor
    }
}

/// Whatever key comes, the list keeps its panes, the own pane is not selected,
/// and the cursor stays on an item. Panes that are chosen are not the own one,
/// and there is one at least.
pub proof fn law_picker_stays_in_order(p: PickerView, code: KeyCode, modifiers: Modifiers)
    requires
        p.wf(),
    ensures
        ({
            let (next, step) = p.pressed(code, modifiers);
            &&& next.wf()
            &&& next.items.len() == p.items.len()
            &&& forall|i: int|
                0 <= i < p.items.len() ==> (#[trigger] next.items[i]).info == p.items[i].info
            &&& step matches PickStepView::Chosen(panes) ==> panes.len() > 0 && forall|i: int|
                0 <= i < panes.len() ==> !(#[trigger] panes[i]).is_self
        }),
{
    broadcast use vstd::seq_lib::group_filter_ensures;

    let keep = |i: PickItem| i.selected;
    let kept = p.items.filter(keep);
    assert forall|i: int| 0 <= i < kept.len() implies !(#[trigger] kept[i]).info.is_self by {
        assert(kept.contains(kept[i]));
        p.items.lemma_filter_contains_rev(keep, kept[i]);
        assert(keep(p.items.filter(keep)[i]));
        let j = choose|j: int| 0 <= j < p.items.len() && p.items[j] == kept[i];
        assert(p.items[j].selected);
    }
    let panes = selection(p.items);
    assert forall|i: int| 0 <= i < panes.len() implies !(#[trigger] panes[i]).is_self by {
        assert(panes[i] == kept[i].info);
    }
}

/// The same key selects and unselects: pressed twice, the list is what it was.
pub proof fn law_toggle_undoes_itself(p: PickerView)
    requires
        p.wf(),
    ensures
        (PickerView { items: p.toggled(), ..p }).toggled() == p.items,
{
    let next = PickerView { items: p.toggled(), ..p };
    assert(next.toggled() =~= p.items);
}

/// The key for all selects every pane but the own one if one is not selected,
/// and else unselects all of them.
pub proof fn law_all_or_none(p: PickerView, i: int)
    requires
        p.wf(),
        0 <= i < p.items.len(),
    ensures
        !p.items[i].info.is_self ==> p.all_toggled()[i].selected == p.any_unselected(),
        p.items[i].info.is_self ==> !p.all_toggled()[i].selected,
        unselected(p.items[i]) ==> p.any_unselected(),
{
}

/// How an item is drawn.
#[derive(Clone, Copy, Debug, PartialEq, Eq, Structural)]
pub enum ItemStyle {
    /// The own pane: grey.
    Own,
    /// A selected pane: bold.
    Selected,
    Plain,
}

/// How an item is drawn.
pub open spec fn item_style(item: PickItem) -> ItemStyle {
    if item.info.is_self {
        ItemStyle::Own
    } else if item.selected {
        ItemStyle::Selected
    } else {
        ItemStyle::Plain
    }
}

/// The box in front of an item.
pub open spec fn checkbox(item: PickItem) -> Seq<char> {
    match item_style(item) {
        ItemStyle::Own => "   "@,
        ItemStyle::Selected => "[x]"@,
        ItemStyle::Plain => "[ ]"@,
    }
}

/// What runs in a pane.
pub open spec fn kind(info: PaneInfo) -> Seq<char> {
    match (info.agent, info.agent_status) {
        (Some(a), Some(s)) => a@ + "("@ + s@ + ")"@,
        (Some(a), None) => a@,
        _ => "shell"@,
    }
}

/// What a pane is about: its title, or else its directory.
pub open spec fn description(info: PaneInfo) -> Seq<char> {
    match (info.title, info.cwd) {
        (Some(t), _) => t@,
        (None, Some(d)) => d@,
        (None, None) => ""@,
    }
}

/// The text of an item.
pub open spec fn item_text(item: PickItem) -> Seq<char> {
    checkbox(item) + " "@ + item.info.pane_id@ + "  "@ + kind(item.info) + "  "@ + description(
        item.info,
    )
}

fn kind_of(info: &PaneInfo) -> (r: String)
    ensures
        r@ == kind(*info),
{
    match (&info.agent, &info.agent_status) {
        (Some(a), Some(s)) => {
            let mut out = a.clone();
            out.append("(");
            out.append(s.as_str());
            out.append(")");
            out
        },
        (Some(a), None) => a.clone(),
        _ => "shell".to_string(),
    }
}

fn description_of(info: &PaneInfo) -> (r: String)
    ensures
        r@ == description(*info),
{
    match (&info.title, &info.cwd) {
        (Some(t), _) => t.clone(),
        (None, Some(d)) => d.clone(),
        (None, None) => "".to_string(),
    }
}

/// How many of the first `n` items are not the own pane.
pub open spec fn other_count(items: Seq<PickItem>, n: int) -> nat
    decreases n,
{
    if n <= 0 {
        0
    } else {
        other_count(items, n - 1) + if items[n - 1].info.is_self {
            0nat
        } else {
            1nat
        }
    }
}

/// The title of the page.
pub open spec fn title(tab_id: Seq<char>, others: nat) -> Seq<char> {
    " sync-panes — select targets in tab "@ + tab_id + " ("@ + decimal(others) + " other pane"@ + (
    if others == 1 {
        ""@
    } else {
        "s"@
    }) + ") "@
}

/// The footer of the page.
pub open spec fn footer(notice: Option<Seq<char>>) -> Seq<char> {
    match notice {
        Some(n) => " "@ + n,
        None => " ↑/↓ move · space select · a all · enter broadcast · esc quit"@,
    }
}

/// How the page is cut into the list and the footer.
pub open spec fn pick_shares() -> Seq<Share> {
    seq![Share::Min(3), Share::Length(1)]
}

/// Cuts the page into the list and, below it, the footer of one row.
pub fn page_parts(area: Area) -> (r: (Area, Area))
    ensures
        inside(area, r.0) && inside(area, r.1),
        r.0.x == area.x && r.0.width == area.width,
        r.1.x == area.x && r.1.width == area.width,
        area.y + area.height <= u16::MAX ==> stacked(area, pick_shares(), seq![r.0, r.1]),
{
    let shares = vec![Share::Min(3), Share::Length(1)];
    assert(shares@ =~= pick_shares());
    let parts = split_vertical(area, shares.as_slice());
    assert(inside(area, parts@[0]) && inside(area, parts@[1]));
    assert(parts@ =~= seq![parts@[0], parts@[1]]);
    (parts[0], parts[1])
}

impl Picker {
    /// How many items there are.
    pub fn len(&self) -> (r: usize)
        ensures
            r == self@.items.len(),
    {
        self.items.len()
    }

    /// The text of an item and how it is drawn.
    pub fn item(&self, i: usize) -> (r: (String, ItemStyle))
        requires
            i < self@.items.len(),
        ensures
            r.0@ == item_text(self@.items[i as int]),
            r.1 == item_style(self@.items[i as int]),
    {
        let item = &self.items[i];
        let style = if item.info.is_self {
            ItemStyle::Own
        } else if item.selected {
            ItemStyle::Selected
        } else {
            ItemStyle::Plain
        };
        let mut out = match style {
            ItemStyle::Own => "   ".to_string(),
            ItemStyle::Selected => "[x]".to_string(),
            ItemStyle::Plain => "[ ]".to_string(),
        };
        out.append(" ");
        out.append(item.info.pane_id.as_str());
        out.append("  ");
        out.append(kind_of(&item.info).as_str());
        out.append("  ");
        out.append(description_of(&item.info).as_str());
        (out, style)
    }

    /// The title of the page.
    pub fn title(&self, ctx: &Context) -> (r: String)
        ensures
            r@ == title(ctx.tab_id@, other_count(self@.items, self@.items.len() as int)),
    {
        let mut others: u64 = 0;
        let mut i: usize = 0;
        while i < self.items.len()
            invariant
                i <= self.items@.len(),
                others <= i,
                others == other_count(self@.items, i as int),
            decreases self.items@.len() - i,
        {
            if !self.items[i].info.is_self {
                others = others + 1;
            }
            i += 1;
        }
        let mut out = " sync-panes — select targets in tab ".to_string();
        out.append(ctx.tab_id.as_str());
        out.append(" (");
        out.append(decimal_of(others).as_str());
        out.append(" other pane");
        if others == 1 {
            out.append("");
        } else {
            out.append("s");
        }
        out.append(") ");
        out
    }

    /// The footer of the page, and whether it is a notice.
    pub fn footer(&self) -> (r: (String, bool))
        ensures
            r.0@ == footer(self@.notice),
            r.1 == self@.notice is Some,
    {
        match &self.notice {
            Some(n) => {
                let mut out = " ".to_string();
                out.append(n.as_str());
                (out, true)
            },
            None => (
                " ↑/↓ move · space select · a all · enter broadcast · esc quit".to_string(),
                false,
            ),
        }
    }
}

/// Escape and `q` leave the page, and so does `ctrl+c`. The arrows and `k` and
/// `j` move the cursor, space selects, `a` selects all, and enter goes on. No
/// other key does anything.
pub proof fn law_keys_of_the_page(m: Modifiers, ch: char)
    ensures
        pick_key(KeyCode::Esc, m) == PickKey::Quit,
        pick_key(KeyCode::Char('q'), m) == PickKey::Quit,
        pick_key(KeyCode::Char('c'), m) == if m == Modifiers::Control {
            PickKey::Quit
        } else {
            PickKey::Other
        },
        pick_key(KeyCode::Up, m) == PickKey::Up,
        pick_key(KeyCode::Char('k'), m) == PickKey::Up,
        pick_key(KeyCode::Down, m) == PickKey::Down,
        pick_key(KeyCode::Char('j'), m) == PickKey::Down,
        pick_key(KeyCode::Char(' '), m) == PickKey::Toggle,
        pick_key(KeyCode::Char('a'), m) == PickKey::ToggleAll,
        pick_key(KeyCode::Enter, m) == PickKey::Accept,
        pick_key(KeyCode::Backspace, m) == PickKey::Other,
        pick_key(KeyCode::Other, m) == PickKey::Other,
        ch != 'q' && ch != 'c' && ch != 'k' && ch != 'j' && ch != ' ' && ch != 'a' ==> pick_key(
            KeyCode::Char(ch),
            m,
        ) == PickKey::Other,
{
}

/// The cursor moves by one item and stops at both ends; nothing is selected by
/// that, and what was said is cleared.
pub proof fn law_cursor_moves_by_one(p: PickerView, c: usize, m: Modifiers)
    requires
        p.cursor == Some(c),
        c < p.items.len() <= usize::MAX,
    ensures
        ({
            let (up, step) = p.pressed(KeyCode::Up, m);
            &&& step is Continue
            &&& c > 0 ==> up.cursor == Some((c - 1) as usize)
            &&& c == 0 ==> up.cursor == Some(0usize)
            &&& up.items == p.items
            &&& up.notice is None
        }),
        ({
            let (down, step) = p.pressed(KeyCode::Down, m);
            &&& step is Continue
            &&& c + 1 < p.items.len() ==> down.cursor == Some((c + 1) as usize)
            &&& c + 1 == p.items.len() ==> down.cursor == Some(c)
            &&& down.items == p.items
            &&& down.notice is None
        }),
{
}

/// Space selects the pane under the cursor if it was not selected, and unselects
/// it if it was. It leaves the own pane and all other panes as they are.
pub proof fn law_space_flips_one_item(p: PickerView, c: usize, m: Modifiers, i: int)
    requires
        p.cursor == Some(c),
        c < p.items.len(),
        0 <= i < p.items.len(),
    ensures
        ({
            let (next, step) = p.pressed(KeyCode::Char(' '), m);
            &&& step is Continue
            &&& next.items.len() == p.items.len()
            &&& next.cursor == p.cursor
            &&& next.notice is None
            &&& i != c ==> next.items[i] == p.items[i]
            &&& next.items[i].info == p.items[i].info
            &&& i == c && !p.items[i].info.is_self ==> next.items[i].selected != p.items[i].selected
            &&& i == c && p.items[i].info.is_self ==> next.items[i] == p.items[i]
        }),
{
}

/// `a` selects all other panes unless all are selected already: then it unselects
/// them. The cursor stays.
pub proof fn law_a_selects_all(p: PickerView, m: Modifiers, i: int, j: int)
    requires
        0 <= i < p.items.len(),
        0 <= j < p.items.len(),
    ensures
        ({
            let (next, step) = p.pressed(KeyCode::Char('a'), m);
            &&& step is Continue
            &&& next.items.len() == p.items.len()
            &&& next.cursor == p.cursor
            &&& next.notice is None
            &&& next.items[i].info == p.items[i].info
            &&& p.items[i].info.is_self ==> next.items[i] == p.items[i]
            &&& !p.items[i].info.is_self && !p.items[j].info.is_self && !p.items[j].selected
                ==> next.items[i].selected
            &&& !p.items[i].info.is_self && (forall|k: int|
                0 <= k < p.items.len() && !(#[trigger] p.items[k]).info.is_self
                    ==> p.items[k].selected) ==> !next.items[i].selected
        }),
{
    if !p.items[j].info.is_self && !p.items[j].selected {
        assert(unselected(p.items[j]));
    }
    if forall|k: int|
        0 <= k < p.items.len() && !(#[trigger] p.items[k]).info.is_self ==> p.items[k].selected {
        assert(!p.any_unselected());
    }
}

/// The selection holds the selected panes and no other, in the order of the list.
pub proof fn law_selection_is_what_is_selected(items: Seq<PickItem>, item: PickItem)
    ensures
        item.selected ==> selection(items.push(item)) == selection(items).push(item.info),
        !item.selected ==> selection(items.push(item)) == selection(items),
        selection(Seq::empty()) == Seq::<PaneInfo>::empty(),
{
    lemma_selection_push(items, item);
    reveal(Seq::filter);
    assert(selection(Seq::empty()) =~= Seq::<PaneInfo>::empty());
}

/// Enter chooses the selection. If nothing is selected the page says so and goes
/// on. Either way the list stays as it is.
pub proof fn law_enter_chooses_the_selection(p: PickerView, m: Modifiers)
    ensures
        ({
            let (next, step) = p.pressed(KeyCode::Enter, m);
            &&& next.items == p.items
            &&& next.cursor == p.cursor
            &&& selection(p.items).len() > 0 ==> step == PickStepView::Chosen(selection(p.items))
            &&& selection(p.items).len() == 0 ==> step is Continue && next.notice == Some(
                "select at least one pane (space) or press esc to quit"@,
            )
        }),
{
}

/// The page is left at once, by escape, `q` or `ctrl+c` and by nothing else; any
/// key that does nothing only clears what was said.
pub proof fn law_page_is_left(p: PickerView, code: KeyCode, m: Modifiers)
    ensures
        p.pressed(code, m).1 is Quit <==> code == KeyCode::Esc || code == KeyCode::Char('q') || code
            == KeyCode::Char('c') && m == Modifiers::Control,
        p.pressed(code, m).1 is Chosen ==> code == KeyCode::Enter,
        p.pressed(KeyCode::Backspace, m).0 == (PickerView { notice: None, ..p }),
        p.pressed(KeyCode::Backspace, m).1 is Continue,
{
}

/// The page begins with all panes in their order, none of them selected, and the
/// cursor on the first.
pub proof fn law_fresh_picker(panes: Seq<PaneInfo>, i: int)
    ensures
        fresh_picker(panes).items.len() == panes.len(),
        0 <= i < panes.len() ==> fresh_picker(panes).items[i].info == panes[i],
        0 <= i < panes.len() ==> !fresh_picker(panes).items[i].selected,
        panes.len() > 0 ==> fresh_picker(panes).cursor == Some(0usize),
        panes.len() == 0 ==> fresh_picker(panes).cursor is None,
        fresh_picker(panes).notice is None,
{
}

/// An item shows its box, the id of its pane, what runs in it and what it is
/// about. The own pane has no box.
pub proof fn law_item_text(item: PickItem)
    ensures
        ({
            let rest = " "@ + item.info.pane_id@ + "  "@ + kind(item.info) + "  "@ + description(
                item.info,
            );
            &&& item.info.is_self ==> item_text(item) == "   "@ + rest && item_style(item)
                == ItemStyle::Own
            &&& !item.info.is_self && item.selected ==> item_text(item) == "[x]"@ + rest
                && item_style(item) == ItemStyle::Selected
            &&& !item.info.is_self && !item.selected ==> item_text(item) == "[ ]"@ + rest
                && item_style(item) == ItemStyle::Plain
        }),
{
    let rest = " "@ + item.info.pane_id@ + "  "@ + kind(item.info) + "  "@ + description(item.info);
    assert(item_text(item) =~= checkbox(item) + rest);
}

/// In a pane runs an agent, with its status in brackets if that is known, or else
/// a shell. A pane is described by its title, without one by its directory, and
/// without both by nothing.
pub proof fn law_kind_and_description(info: PaneInfo)
    ensures
        info.agent is None ==> kind(info) == "shell"@,
        info.agent matches Some(a) ==> info.agent_status is None ==> kind(info) == a@,
        info.agent matches Some(a) ==> (info.agent_status matches Some(s) ==> kind(info) == a@ + "("@
            + s@ + ")"@),
        info.title matches Some(t) ==> description(info) == t@,
        info.title is None ==> (info.cwd matches Some(d) ==> description(info) == d@),
        info.title is None && info.cwd is None ==> description(info) == ""@,
{
}

/// The title names the tab and counts the panes beside the own one.
pub proof fn law_title(items: Seq<PickItem>, item: PickItem, tab_id: Seq<char>, n: nat)
    ensures
        other_count(Seq::empty(), 0) == 0,
        other_count(items.push(item), items.len() as int + 1) == other_count(items, items.len() as int)
            + (if item.info.is_self {
            0int
        } else {
            1int
        }),
        n != 1 ==> title(tab_id, n) == " sync-panes — select targets in tab "@ + tab_id + " ("@
            + decimal(n) + " other pane"@ + "s"@ + ") "@,
        title(tab_id, 1) == " sync-panes — select targets in tab "@ + tab_id + " ("@ + decimal(1)
            + " other pane"@ + ""@ + ") "@,
{
    lemma_other_count_push(items, item, items.len() as int);
}

proof fn lemma_other_count_push(items: Seq<PickItem>, item: PickItem, n: int)
    requires
        0 <= n <= items.len(),
    ensures
        other_count(items.push(item), n) == other_count(items, n),
    decreases n,
{
    if n > 0 {
        lemma_other_count_push(items, item, n - 1);
    }
}

/// The footer is what there is to say, or else tells the keys.
pub proof fn law_footer(n: Seq<char>)
    ensures
        footer(Some(n)) == " "@ + n,
        footer(None) == " ↑/↓ move · space select · a all · enter broadcast · esc quit"@,
{
}

/// The footer is the last row of the page, and the list is all that is above it.
/// (The page has to have four rows, and it has to end where coordinates do or
/// before.)
pub proof fn law_footer_is_the_last_row(area: Area, list: Area, foot: Area)
    requires
        stacked(area, pick_shares(), seq![list, foot]),
        area.height >= 4,
        area.y + area.height <= u16::MAX,
    ensures
        list.x == area.x && list.y == area.y && list.width == area.width,
        list.height == area.height - 1,
        foot.x == area.x && foot.width == area.width,
        foot.y == area.y + area.height - 1,
        foot.height == 1,
{
    let parts = seq![list, foot];
    assert(parts[0] == list && parts[1] == foot);
}

} // verus!

//! What is typed, and what of it is broadcast.

use vstd::prelude::*;
use vstd::string::*;

verus! {

/// A key.
#[derive(Clone, Copy, Debug, PartialEq, Eq, Structural)]
pub enum KeyCode {
    Char(char),
    Enter,
    Esc,
    Backspace,
    Up,
    Down,
    /// Any other key.
    Other,
}

/// The keys that are held down beside a key.
#[derive(Clone, Copy, Debug, PartialEq, Eq, Structural)]
pub enum Modifiers {
    /// None.
    Plain,
    /// Shift alone.
    Shift,
    /// Control alone.
    Control,
    /// Any other key or several keys.
    Other,
}

/// A button of the mouse.
#[derive(Clone, Copy, Debug, PartialEq, Eq, Structural)]
pub enum MouseButton {
    Left,
    Right,
    Middle,
}

/// What the mouse did.
#[derive(Clone, Copy, Debug, PartialEq, Eq, Structural)]
pub enum MouseEventKind {
    Down(MouseButton),
    Up(MouseButton),
    Drag(MouseButton),
    Moved,
    ScrollDown,
    ScrollUp,
    ScrollLeft,
    ScrollRight,
}

/// What came from the terminal.
#[derive(Clone, Copy, Debug, PartialEq, Eq, Structural)]
pub enum Event {
    /// A key was pressed.
    Press(KeyCode, Modifiers),
    /// A key was released, or is held down.
    NoPress,
    Mouse(MouseEventKind),
    /// Anything else.
    Other,
    /// Nothing came in time.
    Tick,
}

/// What is broadcast: a text, or a key by its name.
#[derive(Debug)]
pub enum InputMsg {
    Text(String),
    Key(&'static str),
}

/// The model of an `InputMsg`.
pub enum InputView {
    Text(Seq<char>),
    Key(Seq<char>),
}

impl View for InputMsg {
    type V = InputView;

    open spec fn view(&self) -> InputView {
        match self {
            InputMsg::Text(s) => InputView::Text(s@),
            InputMsg::Key(k) => InputView::Key(k@),
        }
    }
}

/// The model of an optional message.
pub open spec fn opt_input(msg: Option<InputMsg>) -> Option<InputView> {
    match msg {
        Some(m) => Some(m@),
        None => None,
    }
}

/// What a key means.
#[derive(Debug)]
pub enum Meaning {
    /// Leave.
    Quit,
    /// Broadcast this.
    Send(InputMsg),
    /// Nothing that is broadcast; say so.
    Refuse(String),
}

/// The model of a `Meaning`.
pub enum MeaningView {
    Quit,
    Send(InputView),
    Refuse(Seq<char>),
}

impl View for Meaning {
    type V = MeaningView;

    open spec fn view(&self) -> MeaningView {
        match self {
            Meaning::Quit => MeaningView::Quit,
            Meaning::Send(m) => MeaningView::Send(m@),
            Meaning::Refuse(n) => MeaningView::Refuse(n@),
        }
    }
}

/// What a key means: printable characters are text, four keys are broadcast by
/// name, and `ctrl+q` leaves.
pub open spec fn meaning(code: KeyCode, modifiers: Modifiers) -> MeaningView {
    match (code, modifiers) {
        (KeyCode::Esc, _) => MeaningView::Send(InputView::Key("esc"@)),
        (KeyCode::Enter, _) => MeaningView::Send(InputView::Key("enter"@)),
        (KeyCode::Backspace, _) => MeaningView::Send(InputView::Key("backspace"@)),
        (KeyCode::Char(ch), Modifiers::Plain) => MeaningView::Send(InputView::Text(seq![ch])),
        (KeyCode::Char(ch), Modifiers::Shift) => MeaningView::Send(InputView::Text(seq![ch])),
        (KeyCode::Char(ch), Modifiers::Control) => if ch == 'q' {
            MeaningView::Quit
        } else if ch == 'c' {
            MeaningView::Send(InputView::Key("ctrl+c"@))
        } else {
            MeaningView::Refuse("ctrl+"@.push(ch) + " is outside the v1 key set — not sent"@)
        },
        _ => MeaningView::Refuse("key not in the v1 key set — not sent"@),
    }
}

/// What a key means.
pub fn meaning_of(code: KeyCode, modifiers: Modifiers) -> (r: Meaning)
    ensures
        r@ == meaning(code, modifiers),
{
    match (code, modifiers) {
        (KeyCode::Esc, _) => Meaning::Send(InputMsg::Key("esc")),
        (KeyCode::Enter, _) => Meaning::Send(InputMsg::Key("enter")),
        (KeyCode::Backspace, _) => Meaning::Send(InputMsg::Key("backspace")),
        (KeyCode::Char(ch), Modifiers::Plain) | (KeyCode::Char(ch), Modifiers::Shift) => {
            let mut text = String::new();
            text.push(ch);
            assert(text@ =~= seq![ch]);
            Meaning::Send(InputMsg::Text(text))
        },
        (KeyCode::Char(ch), Modifiers::Control) => if ch == 'q' {
            Meaning::Quit
        } else if ch == 'c' {
            Meaning::Send(InputMsg::Key("ctrl+c"))
        } else {
            let mut notice = "ctrl+".to_string();
            notice.push(ch);
            notice.append(" is outside the v1 key set — not sent");
            Meaning::Refuse(notice)
        },
        _ => Meaning::Refuse("key not in the v1 key set — not sent".to_string()),
    }
}

/// The arrow key that a turn of the wheel stands for.
pub open spec fn wheel(kind: MouseEventKind) -> Option<Seq<char>> {
    match kind {
        MouseEventKind::ScrollUp => Some("up"@),
        MouseEventKind::ScrollDown => Some("down"@),
        MouseEventKind::ScrollLeft => Some("left"@),
        MouseEventKind::ScrollRight => Some("right"@),
        _ => None,
    }
}

/// The arrow key that a turn of the wheel stands for.
pub fn wheel_key(kind: MouseEventKind) -> (r: Option<&'static str>)
    ensures
        match r {
            Some(k) => wheel(kind) == Some(k@),
            None => wheel(kind) is None,
        },
{
    match kind {
        MouseEventKind::ScrollUp => Some("up"),
        MouseEventKind::ScrollDown => Some("down"),
        MouseEventKind::ScrollLeft => Some("left"),
        MouseEventKind::ScrollRight => Some("right"),
        _ => None,
    }
}

/// Every character that is typed with no modifier or with shift is broadcast as
/// it is, and `ctrl+q` is the one key that leaves: `ctrl+c` is broadcast.
pub proof fn law_typed_characters_are_broadcast(ch: char, modifiers: Modifiers)
    ensures
        modifiers is Plain || modifiers is Shift ==> meaning(KeyCode::Char(ch), modifiers)
            == MeaningView::Send(InputView::Text(seq![ch])),
        meaning(KeyCode::Char('c'), Modifiers::Control) == MeaningView::Send(
            InputView::Key("ctrl+c"@),
        ),
        forall|code: KeyCode, m: Modifiers|
            #![trigger meaning(code, m)]
            meaning(code, m) is Quit <==> code == KeyCode::Char('q') && m == Modifiers::Control,
{
}

/// Enter, escape and backspace are broadcast by their names, whatever is held
/// down beside them.
pub proof fn law_named_keys_are_broadcast(m: Modifiers)
    ensures
        meaning(KeyCode::Enter, m) == MeaningView::Send(InputView::Key("enter"@)),
        meaning(KeyCode::Esc, m) == MeaningView::Send(InputView::Key("esc"@)),
        meaning(KeyCode::Backspace, m) == MeaningView::Send(InputView::Key("backspace"@)),
{
}

/// Every other key is refused and never lost in silence: a character with control
/// is named in the notice. No key that is refused is broadcast, and nothing but a
/// key of these kinds is refused.
pub proof fn law_other_keys_are_refused(code: KeyCode, m: Modifiers, ch: char)
    ensures
        ch != 'q' && ch != 'c' ==> meaning(KeyCode::Char(ch), Modifiers::Control)
            == MeaningView::Refuse("ctrl+"@ + seq![ch] + " is outside the v1 key set — not sent"@),
        meaning(KeyCode::Char(ch), Modifiers::Other) == MeaningView::Refuse(
            "key not in the v1 key set — not sent"@,
        ),
        code is Up || code is Down || code is Other ==> meaning(code, m) == MeaningView::Refuse(
            "key not in the v1 key set — not sent"@,
        ),
        meaning(code, m) is Refuse ==> {
            ||| code is Up
            ||| code is Down
            ||| code is Other
            ||| code is Char && m == Modifiers::Other
            ||| code is Char && m == Modifiers::Control
        },
{
    assert("ctrl+"@ + seq![ch] =~= "ctrl+"@.push(ch));
}

/// A turn of the wheel stands for the arrow key of its direction; nothing else
/// that the mouse does stands for a key.
pub proof fn law_wheel_is_the_arrow_keys(kind: MouseEventKind)
    ensures
        wheel(MouseEventKind::ScrollUp) == Some("up"@),
        wheel(MouseEventKind::ScrollDown) == Some("down"@),
        wheel(MouseEventKind::ScrollLeft) == Some("left"@),
        wheel(MouseEventKind::ScrollRight) == Some("right"@),
        wheel(kind) is Some ==> kind is ScrollUp || kind is ScrollDown || kind is ScrollLeft
            || kind is ScrollRight,
{
}

} // verus!

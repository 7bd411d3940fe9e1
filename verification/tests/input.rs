use shadow_pane::broadcast::{
    probe_pane, restore_probes, Area, Content, Flow, Session, BLINK_TICKS,
};
use shadow_pane::herdr::PaneInfo;
use shadow_pane::input::{
    meaning_of, wheel_key, Event, InputMsg, KeyCode, Meaning, Modifiers, MouseButton,
    MouseEventKind,
};
use shadow_pane::line::Line;
use shadow_pane::mirror::MirrorMsg;
use shadow_pane::sender::{Batch, Outbox, Roster};

fn pane(id: &str) -> PaneInfo {
    PaneInfo {
        pane_id: id.to_string(),
        agent: None,
        agent_status: None,
        title: None,
        cwd: None,
        is_self: false,
    }
}

fn text(s: &str) -> InputMsg {
    InputMsg::Text(s.to_string())
}

fn press(ch: char) -> Event {
    Event::Press(KeyCode::Char(ch), Modifiers::Plain)
}

fn is_text(msg: &InputMsg, s: &str) -> bool {
    matches!(msg, InputMsg::Text(t) if t == s)
}

fn is_key(msg: &InputMsg, name: &str) -> bool {
    matches!(msg, InputMsg::Key(k) if *k == name)
}

fn refusal(code: KeyCode, modifiers: Modifiers) -> String {
    match meaning_of(code, modifiers) {
        Meaning::Refuse(notice) => notice,
        _ => panic!("not refused"),
    }
}

#[test]
fn wheel_maps_scroll_to_arrow_keys_only() {
    assert_eq!(wheel_key(MouseEventKind::ScrollUp), Some("up"));
    assert_eq!(wheel_key(MouseEventKind::ScrollDown), Some("down"));
    assert_eq!(wheel_key(MouseEventKind::ScrollLeft), Some("left"));
    assert_eq!(wheel_key(MouseEventKind::ScrollRight), Some("right"));
    assert_eq!(wheel_key(MouseEventKind::Down(MouseButton::Left)), None);
    assert_eq!(wheel_key(MouseEventKind::Up(MouseButton::Left)), None);
    assert_eq!(wheel_key(MouseEventKind::Moved), None);
}

#[test]
fn keys_have_their_meanings() {
    let sent = |code: KeyCode, modifiers: Modifiers| match meaning_of(code, modifiers) {
        Meaning::Send(msg) => msg,
        _ => panic!("not sent"),
    };
    assert!(is_text(&sent(KeyCode::Char('x'), Modifiers::Plain), "x"));
    assert!(is_text(&sent(KeyCode::Char('X'), Modifiers::Shift), "X"));
    assert!(is_text(&sent(KeyCode::Char('中'), Modifiers::Plain), "中"));
    assert!(is_key(&sent(KeyCode::Char('c'), Modifiers::Control), "ctrl+c"));
    assert!(is_key(&sent(KeyCode::Enter, Modifiers::Shift), "enter"));
    assert!(is_key(&sent(KeyCode::Esc, Modifiers::Plain), "esc"));
    assert!(is_key(&sent(KeyCode::Backspace, Modifiers::Other), "backspace"));
    assert!(matches!(meaning_of(KeyCode::Char('q'), Modifiers::Control), Meaning::Quit));
    assert!(is_text(&sent(KeyCode::Char('q'), Modifiers::Plain), "q"));
    assert_eq!(
        refusal(KeyCode::Char('w'), Modifiers::Control),
        "ctrl+w is outside the v1 key set — not sent"
    );
    assert_eq!(refusal(KeyCode::Up, Modifiers::Plain), "key not in the v1 key set — not sent");
    assert_eq!(
        refusal(KeyCode::Char('x'), Modifiers::Other),
        "key not in the v1 key set — not sent"
    );
}

fn status(session: &mut Session) -> Option<String> {
    let area = Area { x: 0, y: 0, width: 80, height: 4 };
    session.draw(area).unwrap().into_iter().find_map(|p| match p.content {
        Content::Status(s) => Some(s),
        _ => None,
    })
}

#[test]
fn a_session_forwards_keys_and_says_what_it_refuses() {
    let mut session = Session::new(&[pane("p1"), pane("p2")]);
    assert_eq!(session.pane_ids(), vec!["p1", "p2"]);
    assert_eq!(status(&mut session), None);
    let step = session.on_event(press('a'));
    assert!(is_text(&step.send.unwrap(), "a"));
    assert_eq!(step.flow, Flow::Continue);
    let step = session.on_event(Event::Press(KeyCode::Char('w'), Modifiers::Control));
    assert!(step.send.is_none());
    assert_eq!(
        status(&mut session).unwrap(),
        " live 2/2 · sent 2 · ctrl+w is outside the v1 key set — not sent · ^q quit"
    );
    assert!(session.on_event(Event::NoPress).send.is_none());
    assert!(session.on_event(Event::Other).send.is_none());
    assert!(session.on_event(Event::Mouse(MouseEventKind::Moved)).send.is_none());
    assert!(status(&mut session).is_some());
    let step = session.on_event(Event::Mouse(MouseEventKind::ScrollUp));
    assert!(is_key(&step.send.unwrap(), "up"));
    assert_eq!(status(&mut session), None);
    let step = session.on_event(Event::Press(KeyCode::Char('q'), Modifiers::Control));
    assert_eq!(step.flow, Flow::Quit);
    assert!(step.send.is_none());
}

#[test]
fn a_session_ends_when_all_targets_are_gone() {
    let mut session = Session::new(&[pane("p1"), pane("p2")]);
    session.inform(MirrorMsg::Dead(0));
    assert_eq!(session.on_event(Event::Tick).flow, Flow::Continue);
    session.inform(MirrorMsg::Dead(9));
    session.inform(MirrorMsg::Dead(1));
    session.inform(MirrorMsg::Mirror(1, vec![Line::raw("late".to_string())]));
    assert_eq!(session.on_event(Event::NoPress).flow, Flow::Continue);
    let step = session.on_event(press('x'));
    assert_eq!(step.flow, Flow::AllGone);
    assert!(is_text(&step.send.unwrap(), "x"));
    assert_eq!(
        status(&mut session).unwrap(),
        " live 0/2 · sent 1 · all targets are gone — exiting · ^q quit"
    );
    assert_eq!(Session::new(&[]).on_event(Event::Tick).flow, Flow::Continue);
}

fn mirror_text(session: &mut Session) -> String {
    let area = Area { x: 0, y: 0, width: 20, height: 2 };
    match session.draw(area).unwrap().remove(0).content {
        Content::Mirror(lines) => shadow_pane::line::plains_of(&lines).concat(),
        _ => panic!("no mirror"),
    }
}

#[test]
fn the_cursor_blinks() {
    let mut session = Session::new(&[pane("p1")]);
    session.inform(MirrorMsg::Mirror(0, vec![Line::raw("ab".to_string())]));
    assert_eq!(mirror_text(&mut session), "ab ");
    for _ in 0..BLINK_TICKS - 1 {
        session.on_event(Event::Tick);
    }
    assert_eq!(mirror_text(&mut session), "ab ");
    session.on_event(Event::Tick);
    assert_eq!(mirror_text(&mut session), "ab");
    for _ in 0..BLINK_TICKS {
        session.on_event(Event::Tick);
    }
    assert_eq!(mirror_text(&mut session), "ab ");
}

#[test]
fn probes_start_with_the_master() {
    let ids = vec!["p1".to_string(), "p2".to_string()];
    let master = Some("m".to_string());
    assert_eq!(probe_pane(&master, &ids), "m");
    assert_eq!(probe_pane(&None, &ids), "p1");
    assert_eq!(probe_pane(&None, &[]), "");
    assert_eq!(restore_probes(&master, &ids), vec!["m", "p1", "p2"]);
    assert_eq!(restore_probes(&None, &ids), ids);
}

fn flat(batch: Batch) -> Vec<String> {
    batch
        .messages()
        .into_iter()
        .map(|m| match m {
            InputMsg::Text(s) => s,
            InputMsg::Key(k) => format!("<{k}>"),
        })
        .collect()
}

#[test]
fn texts_are_sent_together_and_a_key_ends_the_batch() {
    let mut out = Outbox::new();
    assert!(out.is_empty());
    out.offer(text("l"));
    out.offer(text("s"));
    assert!(!out.complete());
    out.offer(InputMsg::Key("enter"));
    assert!(out.complete());
    assert_eq!(flat(out.flush()), vec!["ls", "<enter>"]);
    assert!(out.is_empty());
}

#[test]
fn a_text_behind_a_key_is_held_for_the_next_batch() {
    let mut out = Outbox::new();
    out.offer(InputMsg::Key("esc"));
    assert!(!out.complete());
    out.offer(text("x"));
    assert!(out.complete());
    assert_eq!(flat(out.flush()), vec!["<esc>"]);
    assert!(!out.is_empty());
    assert!(!out.complete());
    out.offer(text("y"));
    assert_eq!(flat(out.flush()), vec!["xy"]);
    assert!(out.is_empty());
}

#[test]
fn two_keys_are_sent_together() {
    let mut out = Outbox::new();
    out.offer(InputMsg::Key("up"));
    out.offer(InputMsg::Key("enter"));
    assert!(out.complete());
    assert_eq!(flat(out.flush()), vec!["<up>", "<enter>"]);
}

#[test]
fn an_empty_text_is_no_batch() {
    let mut out = Outbox::new();
    out.offer(text(""));
    assert!(out.is_empty());
    assert!(flat(out.flush()).is_empty());
}

#[test]
fn a_message_goes_to_all_panes_that_can_be_reached() {
    let mut roster =
        Roster::new(vec!["p1".to_string(), "p2".to_string(), "p3".to_string()]);
    let sent = roster.dispatch(&text("hi"));
    assert_eq!(sent.len(), 3);
    assert_eq!(sent[1].pane, 1);
    assert_eq!(sent[1].args, vec!["pane", "send-text", "p2", "hi"]);
    roster.settle(&[1]);
    let sent = roster.dispatch(&InputMsg::Key("enter"));
    assert_eq!(sent.iter().map(|c| c.pane).collect::<Vec<_>>(), vec![0, 2]);
    assert_eq!(sent[1].args, vec!["pane", "send-keys", "p3", "enter"]);
    roster.settle(&[]);
    roster.settle(&[0, 2, 77]);
    assert!(roster.dispatch(&text("x")).is_empty());
}

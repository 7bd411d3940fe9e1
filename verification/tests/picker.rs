use shadow_pane::broadcast::Area;
use shadow_pane::herdr::{Context, PaneInfo};
use shadow_pane::input::{KeyCode, Modifiers};
use shadow_pane::picker::{page_parts, ItemStyle, PickStep, Picker};

fn pane(id: &str, is_self: bool) -> PaneInfo {
    PaneInfo {
        pane_id: id.to_string(),
        agent: None,
        agent_status: None,
        title: None,
        cwd: None,
        is_self,
    }
}

fn picker() -> Picker {
    Picker::new(vec![pane("p1", false), pane("p2", false), pane("me", true)])
}

fn press(p: &mut Picker, ch: char) -> PickStep {
    p.on_press(KeyCode::Char(ch), Modifiers::Plain)
}

fn ids(panes: &[PaneInfo]) -> Vec<&str> {
    panes.iter().map(|p| p.pane_id.as_str()).collect()
}

#[test]
fn the_cursor_stays_on_the_list() {
    let mut p = picker();
    assert_eq!(p.cursor(), Some(0));
    press(&mut p, 'k');
    assert_eq!(p.cursor(), Some(0));
    press(&mut p, 'j');
    p.on_press(KeyCode::Down, Modifiers::Plain);
    p.on_press(KeyCode::Down, Modifiers::Plain);
    assert_eq!(p.cursor(), Some(2));
    p.on_press(KeyCode::Up, Modifiers::Plain);
    assert_eq!(p.cursor(), Some(1));
    assert_eq!(Picker::new(Vec::new()).cursor(), None);
}

#[test]
fn space_selects_and_unselects_but_not_the_own_pane() {
    let mut p = picker();
    press(&mut p, ' ');
    assert_eq!(ids(&p.selected()), vec!["p1"]);
    press(&mut p, ' ');
    assert!(p.selected().is_empty());
    press(&mut p, 'j');
    press(&mut p, 'j');
    press(&mut p, ' ');
    assert!(p.selected().is_empty());
}

#[test]
fn a_selects_all_or_none() {
    let mut p = picker();
    press(&mut p, ' ');
    press(&mut p, 'a');
    assert_eq!(ids(&p.selected()), vec!["p1", "p2"]);
    press(&mut p, 'a');
    assert!(p.selected().is_empty());
}

#[test]
fn enter_needs_a_selection() {
    let mut p = picker();
    assert!(matches!(p.on_press(KeyCode::Enter, Modifiers::Plain), PickStep::Continue));
    assert_eq!(
        p.footer(),
        (" select at least one pane (space) or press esc to quit".to_string(), true)
    );
    press(&mut p, 'z');
    assert_eq!(
        p.footer(),
        (" ↑/↓ move · space select · a all · enter broadcast · esc quit".to_string(), false)
    );
    press(&mut p, ' ');
    match p.on_press(KeyCode::Enter, Modifiers::Plain) {
        PickStep::Chosen(panes) => assert_eq!(ids(&panes), vec!["p1"]),
        _ => panic!("nothing chosen"),
    }
}

#[test]
fn four_keys_leave() {
    let mut p = picker();
    assert!(matches!(press(&mut p, 'q'), PickStep::Quit));
    assert!(matches!(p.on_press(KeyCode::Esc, Modifiers::Plain), PickStep::Quit));
    let control = Modifiers::Control;
    assert!(matches!(p.on_press(KeyCode::Char('q'), control), PickStep::Quit));
    assert!(matches!(p.on_press(KeyCode::Char('c'), control), PickStep::Quit));
    assert!(matches!(press(&mut p, 'c'), PickStep::Continue));
}

#[test]
fn items_and_title_are_spelled_out() {
    let ctx = Context {
        pane_id: "me".to_string(),
        tab_id: "t1".to_string(),
        workspace_id: "w".to_string(),
    };
    let mut p = Picker::new(vec![
        PaneInfo {
            agent: Some("helix".to_string()),
            agent_status: Some("idle".to_string()),
            cwd: Some("/tmp".to_string()),
            ..pane("p1", false)
        },
        PaneInfo {
            agent: Some("opencode".to_string()),
            title: Some("vim".to_string()),
            cwd: Some("/tmp".to_string()),
            ..pane("p2", false)
        },
        pane("me", true),
    ]);
    press(&mut p, ' ');
    assert_eq!(p.len(), 3);
    assert_eq!(p.item(0), ("[x] p1  helix(idle)  /tmp".to_string(), ItemStyle::Selected));
    assert_eq!(p.item(1), ("[ ] p2  opencode  vim".to_string(), ItemStyle::Plain));
    assert_eq!(p.item(2), ("    me  shell  ".to_string(), ItemStyle::Own));
    assert_eq!(p.title(&ctx), " sync-panes — select targets in tab t1 (2 other panes) ");
    let one = Picker::new(vec![pane("p1", false), pane("me", true)]);
    assert_eq!(one.title(&ctx), " sync-panes — select targets in tab t1 (1 other pane) ");
}

#[test]
fn the_footer_is_the_last_row() {
    for (y, height) in [(0, 4), (3, 5), (0, 24), (7, 200), (65000, 535)] {
        let area = Area { x: 2, y, width: 30, height };
        let (list, footer) = page_parts(area);
        assert_eq!(list, Area { height: height - 1, ..area });
        assert_eq!(footer, Area { y: y + height - 1, height: 1, ..area });
    }
    let flat = Area { x: 0, y: 0, width: 5, height: 0 };
    assert_eq!(page_parts(flat), (flat, flat));
}

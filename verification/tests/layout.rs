use shadow_pane::layout::{
    aligned, drive_all, ratio_of, rect_of, Direction, DriveAction, Ratio, Rect, TabLayout,
};

fn rect(width: i32, height: i32) -> Rect {
    Rect { width, height }
}

fn layout(panes: &[(&str, Rect)]) -> TabLayout {
    TabLayout {
        area: rect(100, 50),
        panes: panes.iter().map(|(id, r)| (id.to_string(), *r)).collect(),
    }
}

fn asks(action: &DriveAction, pane: &str) -> bool {
    matches!(action, DriveAction::Ask(p) if p == pane)
}

fn resizes(action: &DriveAction, pane: &str, dir: Direction, num: i64, den: i64) -> bool {
    matches!(action, DriveAction::Resize(p, d, r)
        if p == pane && *d == dir && *r == Ratio { num, den })
}

#[test]
fn the_first_pane_of_an_id_counts() {
    let l = layout(&[("a", rect(1, 2)), ("b", rect(3, 4)), ("a", rect(5, 6))]);
    assert_eq!(rect_of(&l, "a"), Some(rect(1, 2)));
    assert_eq!(rect_of(&l, "b"), Some(rect(3, 4)));
    assert_eq!(rect_of(&l, "c"), None);
}

#[test]
fn panes_are_aligned_within_two_cells() {
    let l = layout(&[("a", rect(40, 20))]);
    assert!(aligned(&l, "a", rect(42, 18)));
    assert!(!aligned(&l, "a", rect(43, 20)));
    assert!(!aligned(&l, "a", rect(40, 17)));
    assert!(!aligned(&l, "b", rect(40, 20)));
    assert!(!aligned(&l, "a", rect(i32::MIN, 20)));
}

#[test]
fn ratios_are_bounded() {
    assert_eq!(ratio_of(10, 100), Ratio { num: 10, den: 100 });
    assert_eq!(ratio_of(40, 100), Ratio { num: 2, den: 5 });
    assert_eq!(ratio_of(90, 100), Ratio { num: 2, den: 5 });
    assert_eq!(ratio_of(3, 1000), Ratio { num: 1, den: 50 });
    assert_eq!(ratio_of(-10, 100), Ratio { num: 1, den: 50 });
    assert_eq!(ratio_of(-3, 1000), Ratio { num: 3, den: 1000 });
    let as_float = |r: Ratio| r.num as f64 / r.den as f64;
    assert_eq!(as_float(ratio_of(90, 100)), 0.4);
    assert_eq!(as_float(ratio_of(3, 1000)), 0.02);
    assert_eq!(as_float(ratio_of(10, 100)), 0.1);
}

#[test]
fn words_name_the_directions() {
    let words: Vec<&str> = [Direction::Left, Direction::Right, Direction::Up, Direction::Down]
        .iter()
        .map(|d| d.as_str())
        .collect();
    assert_eq!(words, vec!["left", "right", "up", "down"]);
}

#[test]
fn an_aligned_pane_is_left_alone() {
    let (mut driver, action) =
        drive_all(vec![("a".to_string(), rect(40, 20)), ("b".to_string(), rect(60, 20))]);
    assert!(asks(&action, "a"));
    let l = layout(&[("a", rect(41, 19))]);
    let action = driver.on_layout(&l);
    assert!(asks(&action, "b"));
    assert!(matches!(driver.on_layout(&l), DriveAction::Finished));
}

#[test]
fn nothing_to_drive_is_done_at_once() {
    let (_, action) = drive_all(Vec::new());
    assert!(matches!(action, DriveAction::Finished));
}

#[test]
fn a_pane_is_driven_along_both_axes() {
    let (mut driver, action) = drive_all(vec![("a".to_string(), rect(50, 30))]);
    assert!(asks(&action, "a"));
    let action = driver.on_layout(&layout(&[("a", rect(40, 20))]));
    assert!(resizes(&action, "a", Direction::Right, 10, 100));
    assert!(asks(&driver.on_resized(true), "a"));
    let action = driver.on_layout(&layout(&[("a", rect(50, 20))]));
    assert!(resizes(&action, "a", Direction::Down, 10, 50));
    assert!(asks(&driver.on_resized(true), "a"));
    let action = driver.on_layout(&layout(&[("a", rect(50, 30))]));
    assert!(asks(&action, "a"));
    assert!(matches!(
        driver.on_layout(&layout(&[("a", rect(50, 30))])),
        DriveAction::Finished
    ));
}

#[test]
fn a_wrong_direction_is_turned_and_remembered() {
    let (mut driver, _) = drive_all(vec![("a".to_string(), rect(50, 20))]);
    let before = layout(&[("a", rect(40, 20))]);
    let action = driver.on_layout(&before);
    assert!(resizes(&action, "a", Direction::Right, 10, 100));
    driver.on_resized(true);
    let action = driver.on_layout(&layout(&[("a", rect(30, 20))]));
    assert!(resizes(&action, "a", Direction::Left, 10, 100));
    assert!(asks(&driver.on_resized(true), "a"));
    let action = driver.on_layout(&before);
    assert!(resizes(&action, "a", Direction::Left, 10, 100));
}

#[test]
fn a_pane_that_does_not_move_is_given_up() {
    let (mut driver, _) = drive_all(vec![("a".to_string(), rect(50, 20))]);
    let same = layout(&[("a", rect(40, 20))]);
    driver.on_layout(&same);
    driver.on_resized(false);
    assert!(matches!(driver.on_layout(&same), DriveAction::Finished));
}

#[test]
fn driving_ends_after_ten_steps() {
    let (mut driver, mut action) = drive_all(vec![("a".to_string(), rect(90, 45))]);
    let same = layout(&[("a", rect(10, 5))]);
    let mut resizes = 0;
    let mut answers = 0;
    loop {
        action = match action {
            DriveAction::Ask(_) => driver.on_layout(&same),
            DriveAction::Resize(..) => {
                resizes += 1;
                driver.on_resized(true)
            }
            DriveAction::Finished => break,
        };
        answers += 1;
        assert!(answers <= 70);
    }
    assert_eq!(resizes, 40);
    assert_eq!(answers, 70);
}

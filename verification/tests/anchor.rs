use shadow_pane::anchor::{
    common_prefix_chars, common_suffix_chars, detect_shift, heuristic_anchor,
    looks_like_status_line, track_anchor_plain,
};
use shadow_pane::line::{plains_of, Line};
use shadow_pane::text::is_blank;

fn track_anchor(
    old: &[Line],
    new: &[Line],
    prev: Option<(usize, u16)>,
) -> Option<(usize, u16)> {
    track_anchor_plain(&plains_of(old), &plains_of(new), prev)
}

fn line(text: &str) -> Line {
    Line::raw(text.to_string())
}

fn strings(lines: &[&str]) -> Vec<String> {
    lines.iter().map(|l| l.to_string()).collect()
}

#[test]
fn track_anchor_accepts_wide_redraw() {
    let old = vec![
        line(&format!("fn main() {{ {} }}", "let x = 1;".repeat(4))),
        line("~"),
    ];
    let mut redrawn = format!("fn main() {{ {} }}", "let x = 2;".repeat(4));
    redrawn.push_str(" /* fmt */");
    let new = vec![line(&redrawn), line("~")];
    let anchor = track_anchor(&old, &new, Some((0, 58)));
    assert!(anchor.is_some(), "a proportional redraw within the ratio must still be tracked");
}

#[test]
fn track_anchor_still_rejects_full_line_replacement() {
    let old = vec![
        line(&"a".repeat(60)),
        line("~"),
    ];
    let new = vec![
        line(&"b".repeat(60)),
        line("~"),
    ];
    let anchor = track_anchor(&old, &new, Some((1, 1)));
    assert_eq!(anchor, Some((1, 1)), "replacing a whole line must be ignored");
}

#[test]
fn heuristic_anchor_skips_helix_status_line() {
    let plain = vec![
        "fn main() {}".to_string(),
        "~".to_string(),
        "~   xxx  1 sel  1:1 ".to_string(),
        "   ".to_string(),
    ];
    assert_eq!(heuristic_anchor(&plain), Some((1, 1)));
}

#[test]
fn heuristic_anchor_skips_vim_mode_line() {
    let plain = vec!["let x = 1;".to_string(), "-- INSERT --".to_string()];
    assert_eq!(heuristic_anchor(&plain), Some((0, 10)));
}

#[test]
fn heuristic_anchor_keeps_plain_prompt() {
    let plain = vec!["output".to_string(), "host# ".to_string()];
    assert_eq!(heuristic_anchor(&plain), Some((1, 5)));
}

#[test]
fn track_anchor_follows_typed_char_mid_line() {
    let old = vec![
        line("use anyhow::Result;"),
        line("const READ_LINES: usize = 999;"),
        line(" NOR   [scratch] [+]                        1 sel  2:5 "),
    ];
    let new = vec![
        line("use anyhow::Result;"),
        line("const READ_LINESX: usize = 999;"),
        line(" NOR   [scratch] [+]                        1 sel  2:6 "),
    ];
    let anchor = track_anchor(&old, &new, Some((1, 16)));
    assert_eq!(anchor, Some((1, 17)), "cursor should sit right after the inserted X");
}

#[test]
fn track_anchor_prefers_row_near_previous() {
    let old = vec![
        line("let x = 1;"),
        line("~"),
        line(" NOR   file.rs                    1 sel  12:8 "),
    ];
    let new = vec![
        line("let x = 2;"),
        line("~"),
        line(" NOR   file.rs                    1 sel  12:9 "),
    ];
    let anchor = track_anchor(&old, &new, Some((0, 9)));
    assert_eq!(anchor, Some((0, 9)), "text row wins over the far status row");
}

#[test]
fn track_anchor_prefers_inserted_row_over_replaced_status() {
    let old = vec![
        line("    5  use anyhow::Result;"),
        line("    6  use serde::Deserialize;"),
        line(" NOR   src/main.rs                1 sel  5:21 "),
    ];
    let new = vec![
        line("    5  use anyhow::ResultX;"),
        line("    6  use serde::Deserialize;"),
        line(" NOR   src/main.rs                1 sel  5:22 "),
    ];
    let anchor = track_anchor(&old, &new, Some((2, 40))).unwrap();
    assert_eq!(
        anchor.0, 0,
        "text row grew by one char and must win over the status row's same-length counter update"
    );
    assert_eq!(anchor.1, 26, "anchor lands at the width of the kept prefix of the new line");
}

#[test]
fn track_anchor_prefers_shrunk_row_for_backspace() {
    let old = vec![
        line("hello world"),
        line(" NOR   file.rs                1 sel  1:6 "),
    ];
    let new = vec![
        line("hello"),
        line(" NOR   file.rs                1 sel  1:1 "),
    ];
    let anchor = track_anchor(&old, &new, Some((0, 11))).unwrap();
    assert_eq!(anchor, (0, 5), "backspace shrinks text, anchor moves to the kept text width");
}

#[test]
fn track_anchor_ignores_replaced_only_status_when_text_also_changed() {
    let old = vec![
        line("    5  use anyhow::Result;"),
        line(" NOR   src/main.rs                1 sel  5:21 "),
    ];
    let new = vec![
        line("    5  use anyhow::Result;"),
        line(" NOR   src/main.rs                1 sel  5:21 "),
    ];
    let anchor = track_anchor(&old, &new, Some((1, 40)));
    assert_eq!(anchor, Some((1, 40)), "static screen: no diff, keep prev anchor");
}

#[test]
fn track_anchor_follows_full_screen_scroll() {
    let old: Vec<Line> = (0..20).map(|i| line(&format!("line-{i}"))).collect();
    let new: Vec<Line> = (1..21).map(|i| line(&format!("line-{i}"))).collect();
    let anchor = track_anchor(&old, &new, Some((3, 6)));
    assert_eq!(anchor, Some((2, 6)), "a scrolled screen moves the anchor with its content");
}

#[test]
fn track_anchor_follows_scrolled_prompt_up() {
    let old: Vec<Line> = (1..=5)
        .map(|i| line(&format!("out-{i}")))
        .chain([line("host# ")])
        .collect();
    let new: Vec<Line> = (2..=5)
        .map(|i| line(&format!("out-{i}")))
        .chain([line("host# "), line("new output")])
        .collect();
    let anchor = track_anchor(&old, &new, Some((5, 6)));
    assert_eq!(anchor, Some((4, 6)), "the prompt row moved up one row, the anchor must follow");
}

#[test]
fn track_anchor_survives_line_insertion_above() {
    let old = vec![
        line("alpha"),
        line("beta"),
        line("host# typed"),
    ];
    let new = vec![
        line("notice from above"),
        line("alpha"),
        line("beta"),
        line("host# typed"),
    ];
    let anchor = track_anchor(&old, &new, Some((2, 11)));
    assert_eq!(anchor, Some((3, 11)), "insertion above shifts the anchor row, not off it");
}

#[test]
fn track_anchor_survives_line_deletion_above() {
    let old = vec![
        line("notice from above"),
        line("alpha"),
        line("beta"),
        line("host# typed"),
    ];
    let new = vec![
        line("alpha"),
        line("beta"),
        line("host# typed"),
    ];
    let anchor = track_anchor(&old, &new, Some((3, 11)));
    assert_eq!(anchor, Some((2, 11)), "deletion above shifts the anchor row up");
}

#[test]
fn track_anchor_picks_smallest_change_without_prev() {
    let old = vec![
        line("fn main() {"),
        line(" NOR   file.rs                    1 sel  1:1 "),
    ];
    let new = vec![
        line("fn mainX() {"),
        line(" NOR   file.rs                    1 sel  1:2 "),
    ];
    let anchor = track_anchor(&old, &new, None).unwrap();
    assert_eq!(anchor.0, 0, "first-ever diff should land on the text row");
}

#[test]
fn track_anchor_follows_cjk_typing_width() {
    let old = vec![line("你说"), line(" NOR  file.rs   1:2 ")];
    let new = vec![line("你说好"), line(" NOR  file.rs   1:3 ")];
    let anchor = track_anchor(&old, &new, Some((0, 4)));
    assert_eq!(anchor, Some((0, 6)), "one CJK char advances the anchor by 2 columns");
}

#[test]
fn empty_screens_fall_back_to_the_heuristic_then_to_the_previous_anchor() {
    assert_eq!(track_anchor_plain(&[], &strings(&["host# "]), Some((7, 7))), Some((0, 5)));
    assert_eq!(track_anchor_plain(&strings(&["host# "]), &[], Some((7, 7))), Some((7, 7)));
    assert_eq!(track_anchor_plain(&[], &strings(&["   "]), None), None);
}

#[test]
fn many_changed_rows_keep_the_previous_anchor() {
    let old = strings(&["a1", "b1", "c1", "d1"]);
    let new = strings(&["a2", "b2", "c2", "d1"]);
    assert_eq!(track_anchor_plain(&old, &new, Some((3, 2))), Some((3, 2)));
}

#[test]
fn previous_anchor_is_clamped_to_the_screen() {
    let old = strings(&["aaaaaaaaaaaaaaaaaaaaaaaa", "b"]);
    let new = strings(&["cccccccccccccccccccccccc"]);
    assert_eq!(track_anchor_plain(&old, &new, Some((1, 4))), Some((0, 4)));
}

#[test]
fn status_lines_are_told_by_tokens_and_dashes() {
    assert!(looks_like_status_line("-- INSERT --"));
    assert!(looks_like_status_line("--"));
    assert!(looks_like_status_line(" Nor │ file"));
    assert!(looks_like_status_line("a|V-BLOCK|b"));
    assert!(!looks_like_status_line("normally"));
    assert!(!looks_like_status_line("-- half"));
    assert!(!looks_like_status_line(""));
}

#[test]
fn a_lone_status_line_keeps_the_anchor() {
    assert_eq!(heuristic_anchor(&strings(&["", "-- VISUAL --"])), Some((1, 12)));
    assert_eq!(heuristic_anchor(&strings(&["", "  "])), None);
    assert_eq!(heuristic_anchor(&[]), None);
}

#[test]
fn prefix_and_suffix_do_not_overlap() {
    assert_eq!(common_prefix_chars("aab", "aac"), 2);
    assert_eq!(common_prefix_chars("", "x"), 0);
    assert_eq!(common_suffix_chars("aaa", "aaaa", 3), 0);
    assert_eq!(common_suffix_chars("xab", "yab", 0), 2);
    assert_eq!(common_suffix_chars("你好", "们好", 0), 1);
}

#[test]
fn shift_needs_three_fifths_of_the_rows() {
    let old = strings(&["a", "b", "c", "d", "e"]);
    let up = strings(&["b", "c", "d", "e", "f"]);
    let down = strings(&["z", "a", "b", "c", "d"]);
    let other = strings(&["c", "d", "x", "y", "z"]);
    assert_eq!(detect_shift(&old, &up), -1);
    assert_eq!(detect_shift(&old, &down), 1);
    assert_eq!(detect_shift(&old, &other), 0);
    assert_eq!(detect_shift(&old, &old), 0);
}

#[test]
fn twenty_five_characters_are_white_space() {
    let white: Vec<u32> = (0..=0x10ffffu32)
        .filter(|n| char::from_u32(*n).map(|c| is_blank(&c.to_string())).unwrap_or(false))
        .collect();
    let mut expected: Vec<u32> = (0x9..=0xd).collect();
    expected.extend([0x20, 0x85, 0xa0, 0x1680]);
    expected.extend(0x2000..=0x200a);
    expected.extend([0x2028, 0x2029, 0x202f, 0x205f, 0x3000]);
    assert_eq!(white, expected);
    assert_eq!(white.len(), 25);
}

#[test]
fn mode_words_are_known_in_any_case() {
    for word in ["nor", "NOR", "Ins", "sel", "nop", "op", "Normal", "INSERT", "visual", "select",
        "replace", "V-Block", "v-line", "vblock", "VLINE"]
    {
        assert!(looks_like_status_line(&format!("x {word} y")), "{word}");
        assert!(!looks_like_status_line(&format!("x{word}y")), "{word}");
    }
}

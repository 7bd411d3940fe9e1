use ratatui::backend::TestBackend;
use ratatui::layout::Rect;
use ratatui::style::{Color, Modifier};
use ratatui::widgets::Paragraph;
use ratatui::Terminal;

use shadow_pane::anchor::heuristic_anchor;
use shadow_pane::ansi::{lines_from, parse_ansi, strip_ansi, AnsiLine};
use shadow_pane::broadcast::{draw, paint, Area, Content, Painted};
use shadow_pane::cursor::{
    block_span, insert_block_span, lands, trim_trailing_ws, try_with_cursor, with_cursor,
};
use shadow_pane::herdr::PaneInfo;
use shadow_pane::layout::{Rect as PaneRect, TabLayout};
use shadow_pane::line::{plain_of, plains_of, Line, Span, Style, REVERSED};
use shadow_pane::mirror::{
    mirror_msg, MirrorMsg, ReadStep, Reader, RenderCache, Source, Target, Widths,
};
use shadow_pane::width::{columns_of, split_at_width, split_at_width_exact};
use shadow_pane::wrap::wrap_lines;

fn line(text: &str) -> Line {
    Line::raw(text.to_string())
}

fn styled(text: &str, bits: u16) -> Span {
    Span::styled(text.to_string(), Style::new().add_modifier(bits))
}

fn texts(lines: &[Line]) -> Vec<String> {
    lines
        .iter()
        .map(|l| l.spans.iter().map(|s| s.content.to_string()).collect::<String>())
        .collect()
}

fn is_reversed(span: &Span) -> bool {
    span.style.add_modifier & REVERSED == REVERSED
}

fn to_style(style: &Style) -> ratatui::style::Style {
    let color = |c: &Option<String>| c.as_ref().and_then(|c| c.parse::<Color>().ok());
    ratatui::style::Style {
        fg: color(&style.fg),
        bg: color(&style.bg),
        underline_color: color(&style.underline_color),
        add_modifier: Modifier::from_bits_truncate(style.add_modifier),
        sub_modifier: Modifier::from_bits_truncate(style.sub_modifier),
        ..ratatui::style::Style::default()
    }
}

fn to_line(line: &Line) -> ratatui::text::Line<'static> {
    ratatui::text::Line::from(
        line.spans
            .iter()
            .map(|s| ratatui::text::Span::styled(s.content.clone(), to_style(&s.style)))
            .collect::<Vec<_>>(),
    )
}

fn show(terminal: &mut Terminal<TestBackend>, targets: &mut Vec<Target>, sent: usize) {
    terminal
        .draw(|f| {
            let area = f.area();
            let area = Area { x: area.x, y: area.y, width: area.width, height: area.height };
            for painted in draw(targets, sent, &None, true, area).unwrap() {
                let Painted { area, content } = painted;
                let lines: Vec<ratatui::text::Line> = match content {
                    Content::Status(text) | Content::Dead(text) => vec![text.into()],
                    Content::Mirror(lines) | Content::Separator(lines) => {
                        lines.iter().map(to_line).collect()
                    }
                };
                let cell = Rect::new(area.x, area.y, area.width, area.height);
                f.render_widget(Paragraph::new(lines), cell);
            }
        })
        .unwrap();
}

fn target(mirror: Vec<Line>, plain: Vec<String>) -> Target {
    Target {
        pane_id: "t".to_string(),
        label: "t".to_string(),
        dead: false,
        mirror,
        anchor: None,
        plain,
        ver: 1,
        render: RenderCache::new(),
    }
}

#[test]
fn parse_ansi_keeps_lines_separate_under_cr() {
    let raw = "one\r\ntwo\r\nthree\r\n";
    assert_eq!(texts(&parse_ansi(raw)), vec!["one", "two", "three"]);
}

#[test]
fn parse_ansi_real_stream_shape() {
    let raw = "seq 1 40\r\nhost# seq 1 40\r\n1\r\n2\r\n3\r\nhost# ";
    assert_eq!(
        texts(&parse_ansi(raw)),
        vec!["seq 1 40", "host# seq 1 40", "1", "2", "3", "host# "]
    );
}

#[test]
fn parse_ansi_reads_styles() {
    let lines = parse_ansi("\u{1b}[31mred\u{1b}[0m plain \u{1b}[1;7mbold\u{1b}[0m");
    assert_eq!(texts(&lines), vec!["red plain bold"]);
    let red = &lines[0].spans[0];
    assert_eq!(red.content, "red");
    assert_eq!(red.style.fg, Some(Color::Red.to_string()));
    let bold = lines[0].spans.iter().find(|s| s.content == "bold").unwrap();
    assert!(bold.style.add_modifier & Modifier::BOLD.bits() != 0);
    assert!(is_reversed(bold));
}

#[test]
fn unparsed_text_is_stripped_of_its_escapes() {
    let lines = lines_from(None, "a\u{1b}[31mb\nc\n\nd");
    assert_eq!(texts(&lines), vec!["ab", "c", "", "d"]);
    assert!(lines[2].spans.is_empty());
}

#[test]
fn parsed_lines_take_the_style_of_their_line() {
    let base = Style { fg: Some("Red".to_string()), ..Style::new() };
    let own = Style { bg: Some("Blue".to_string()), ..Style::new() };
    let parsed = vec![AnsiLine {
        style: base,
        spans: vec![Span::styled("x".to_string(), own)],
    }];
    let lines = lines_from(Some(parsed), "unused");
    assert_eq!(texts(&lines), vec!["x"]);
    assert_eq!(lines[0].spans[0].style.fg, Some("Red".to_string()));
    assert_eq!(lines[0].spans[0].style.bg, Some("Blue".to_string()));
}

#[test]
fn strip_ansi_knows_csi_and_osc() {
    assert_eq!(strip_ansi("a\u{1b}[1;31mb"), "ab");
    assert_eq!(strip_ansi("a\u{1b}]0;title\u{7}b"), "ab");
    assert_eq!(strip_ansi("a\u{1b}]0;title\u{1b}\\b"), "ab");
    assert_eq!(strip_ansi("a\u{1b}(b"), "ab");
    assert_eq!(strip_ansi("a\u{1b}"), "a");
    assert_eq!(strip_ansi("a\u{1b}[12"), "a");
    assert_eq!(strip_ansi("plain"), "plain");
    assert_eq!(strip_ansi(&strip_ansi("\u{1b}[0mx\u{1b}[0m")), "x");
}

#[test]
fn shrinking_mirror_clears_old_content() {
    let backend = TestBackend::new(60, 10);
    let mut terminal = Terminal::new(backend).unwrap();
    let full = parse_ansi(&format!(
        "{}\r\n",
        (1..=8).map(|i| format!("OLDLINE-{i}")).collect::<Vec<_>>().join("\r\n")
    ));
    let mut targets = vec![target(full, Vec::new())];
    show(&mut terminal, &mut targets, 3);
    let before: String = terminal
        .backend()
        .buffer()
        .content()
        .iter()
        .map(|c| c.symbol().to_string())
        .collect();
    assert!(before.contains("OLDLINE-8"));
    targets[0].mirror = parse_ansi("host# ");
    targets[0].ver += 1;
    show(&mut terminal, &mut targets, 4);
    let screen: String = terminal
        .backend()
        .buffer()
        .content()
        .iter()
        .map(|c| c.symbol().to_string())
        .collect();
    assert!(!screen.contains("OLDLINE"), "stale mirror content: {screen:?}");
}

#[test]
fn cursor_wraps_when_anchor_line_fills_cell() {
    let width = 40u16;
    let mirror =
        parse_ansi(&format!("{}\r\n{}\r\n", "x".repeat(width as usize), " ".repeat(20)));
    let plain: Vec<String> = mirror.iter().map(plain_of).collect();
    let anchor = heuristic_anchor(&plain).unwrap();
    assert_eq!(anchor, (0, width));
    let mirror = with_cursor(&mirror, Some(anchor), true, width);
    let first: String = mirror[0].spans.iter().map(|s| s.content.to_string()).collect();
    assert_eq!(first.chars().count(), width as usize);
    assert_eq!(mirror[1].spans[0].content, " ");
}

#[test]
fn cursor_visible_in_helix_like_screen() {
    let backend = TestBackend::new(40, 6);
    let mut terminal = Terminal::new(backend).unwrap();
    let raw = format!(
        "~\r\n~\r\n~   {}  1 sel  1:1 \r\n{}\r\n",
        "~".repeat(3),
        " ".repeat(40),
    );
    let plain = parse_ansi(&raw).iter().map(plain_of).collect();
    let mut targets = vec![target(parse_ansi(&raw), plain)];
    show(&mut terminal, &mut targets, 0);
    let mut reversed = 0usize;
    for cell in terminal.backend().buffer().content() {
        if cell.modifier.contains(Modifier::REVERSED) {
            reversed += 1;
        }
    }
    assert!(reversed >= 1, "shadow cursor must be visible, got {reversed} reversed cells");
}

#[test]
fn mirror_wraps_at_source_pane_width() {
    let wrapped = wrap_lines(vec![line(&"x".repeat(90))], 40);
    assert_eq!(texts(&wrapped), vec!["x".repeat(40), "x".repeat(40), "x".repeat(10)]);
}

#[test]
fn wrap_preserves_span_styles() {
    let spans = Line::from_spans(vec![
        styled("aaa", Modifier::BOLD.bits()),
        styled("bbb", Modifier::ITALIC.bits()),
    ]);
    let wrapped = wrap_lines(vec![spans], 5);
    assert_eq!(texts(&wrapped), vec!["aaabb", "b"]);
    assert!(wrapped[0].spans[0].style.add_modifier & Modifier::BOLD.bits() != 0);
    assert!(wrapped[0].spans[1].style.add_modifier & Modifier::ITALIC.bits() != 0);
    assert!(wrapped[1].spans[0].style.add_modifier & Modifier::ITALIC.bits() != 0);
}

#[test]
fn wrap_never_splits_wide_char() {
    let wrapped = wrap_lines(vec![line("中文中文中文")], 5);
    assert_eq!(texts(&wrapped), vec!["中文", "中文", "中文"]);
}

#[test]
fn wrap_leaves_lines_alone_without_a_width() {
    let long = "y".repeat(200);
    assert_eq!(texts(&wrap_lines(vec![line(&long)], 0)), vec![long]);
    assert_eq!(texts(&wrap_lines(vec![line("abc"), line("")], 3)), vec!["abc", ""]);
}

#[test]
fn wrap_emits_a_char_that_is_wider_than_the_pane() {
    assert_eq!(texts(&wrap_lines(vec![line("中文")], 1)), vec!["中", "文", ""]);
}

#[test]
fn wrap_starts_the_next_span_below_a_full_row() {
    let spans = Line::from_spans(vec![styled("aaaaa", 0), styled("bbb", 0)]);
    let wrapped = wrap_lines(vec![spans], 5);
    assert_eq!(texts(&wrapped), vec!["aaaaa", "bbb"]);
    let spans = Line::from_spans(vec![styled("aaaa", 0), styled("中", 0)]);
    assert_eq!(texts(&wrap_lines(vec![spans], 5)), vec!["aaaa", "中"]);
    let spans = Line::from_spans(vec![styled("a", 0), styled("中b", 0)]);
    assert_eq!(texts(&wrap_lines(vec![spans], 1)), vec!["a", "中", "b"]);
}

#[test]
fn wrap_does_not_depend_on_the_spans() {
    let whole = texts(&wrap_lines(vec![line("aaaaabb中中b")], 5));
    assert_eq!(whole, vec!["aaaaa", "bb中", "中b"]);
    for cut in ["aaaaabb中中b".len() - 1, 2, 5, 7, 10] {
        let (head, tail) = "aaaaabb中中b".split_at(cut);
        let spans = Line::from_spans(vec![styled(head, 0), styled(tail, 0)]);
        assert_eq!(texts(&wrap_lines(vec![spans], 5)), whole, "cut at {cut}");
    }
}

#[test]
fn cursor_col_maps_to_visual_position() {
    let mirror = wrap_lines(parse_ansi("0123456789X\r\n"), 10);
    assert_eq!(texts(&mirror), vec!["0123456789", "X"]);
    let plain: Vec<String> = mirror.iter().map(plain_of).collect();
    let anchor = heuristic_anchor(&plain).unwrap();
    assert_eq!(anchor, (1, 1));
    let out = with_cursor(&mirror, Some(anchor), true, 10);
    assert!(
        out[1].spans.iter().any(is_reversed),
        "the shadow cursor must land on the wrapped continuation row"
    );
}

#[test]
fn place_block_reverses_char_under_cursor() {
    let mirror = vec![line("abcdef")];
    let out = with_cursor(&mirror, Some((0, 3)), true, 40);
    let spans = &out[0].spans;
    assert_eq!(spans.iter().map(|s| s.content.to_string()).collect::<String>(), "abcdef");
    assert!(spans.iter().any(|s| s.content == "d" && is_reversed(s)));
}

#[test]
fn place_block_appends_space_at_end_of_line() {
    let mirror = vec![line("tmp# ")];
    let out = with_cursor(&mirror, Some((0, 4)), true, 40);
    let flat: String = out[0].spans.iter().map(|s| s.content.to_string()).collect();
    assert_eq!(flat, "tmp# ");
    assert!(is_reversed(out[0].spans.last().unwrap()));
}

#[test]
fn place_block_wraps_col_at_cell_width() {
    let mirror = vec![line("aaaa"), line("bbbb")];
    let out = with_cursor(&mirror, Some((0, 4)), true, 4);
    assert!(is_reversed(&out[1].spans[0]));
}

#[test]
fn place_block_handles_double_width_chars() {
    let mirror = vec![line("中文abc")];
    let out = with_cursor(&mirror, Some((0, 2)), true, 40);
    let flat: String = out[0].spans.iter().map(|s| s.content.to_string()).collect();
    assert_eq!(flat, "中文abc");
    assert!(out[0].spans.iter().any(|s| s.content == "文"));
}

#[test]
fn reversed_bit_is_that_of_the_terminal() {
    assert_eq!(REVERSED, Modifier::REVERSED.bits());
    assert!(is_reversed(&block_span()));
    assert_eq!(block_span().content, " ");
}

#[test]
fn cursor_past_the_text_follows_it() {
    let out = with_cursor(&[line("ab   ")], Some((0, 9)), true, 40);
    assert_eq!(texts(&out), vec!["ab "]);
    assert!(is_reversed(out[0].spans.last().unwrap()));
}

#[test]
fn cursor_on_the_last_full_row_adds_a_row() {
    let out = with_cursor(&[line("abcd")], Some((0, 4)), true, 4);
    assert_eq!(texts(&out), vec!["abcd", " "]);
    assert!(is_reversed(&out[1].spans[0]));
}

#[test]
fn cursor_off_or_off_screen_changes_nothing() {
    assert_eq!(texts(&with_cursor(&[line("x")], Some((0, 0)), false, 4)), vec!["x"]);
    assert_eq!(texts(&with_cursor(&[], None, false, 4)), vec![""]);
    assert!(with_cursor(&[], Some((0, 0)), true, 4).is_empty());
    assert_eq!(texts(&with_cursor(&[line("x")], Some((3, 0)), true, 4)), vec!["x"]);
}

#[test]
fn cursor_does_not_land_on_an_empty_span() {
    let odd = Line::from_spans(vec![Span::raw(String::new()), Span::raw("ab".to_string())]);
    assert!(!lands(&odd, 0));
    assert!(lands(&odd, 1));
    assert!(try_with_cursor(&[odd], Some((0, 0)), true, 40).is_none());
    assert!(try_with_cursor(&[line("ab")], Some((0, 0)), true, 40).is_some());
}

#[test]
fn block_goes_behind_a_line_that_is_too_short() {
    let mut short = line("ab");
    insert_block_span(&mut short, 7);
    assert_eq!(texts(&[short]), vec!["ab "]);
}

#[test]
fn trailing_blanks_are_trimmed() {
    let mut l = Line::from_spans(vec![
        Span::raw("a b\t ".to_string()),
        Span::raw("   ".to_string()),
        Span::raw(String::new()),
    ]);
    trim_trailing_ws(&mut l);
    assert_eq!(texts(&[l]), vec!["a b"]);
    let mut blank = line("   ");
    trim_trailing_ws(&mut blank);
    assert_eq!(blank.spans.len(), 1);
    assert_eq!(blank.spans[0].content, "");
}

#[test]
fn texts_split_at_columns() {
    assert_eq!(split_at_width("a中b", 2), ("a中".to_string(), "b".to_string()));
    assert_eq!(split_at_width_exact("a中b", 2), ("a".to_string(), "中b".to_string()));
    assert_eq!(split_at_width_exact("a中b", 3), ("a中".to_string(), "b".to_string()));
    assert_eq!(split_at_width("ab", 9), ("ab".to_string(), String::new()));
    assert_eq!(split_at_width("ab", 0), (String::new(), "ab".to_string()));
    assert_eq!(columns_of("a中b"), 4);
}

#[test]
fn plain_text_joins_the_spans() {
    let l = Line::from_spans(vec![styled("a", 1), styled("b", 2)]);
    assert_eq!(plains_of(&[l, line("c")]), vec!["ab", "c"]);
}

#[test]
fn news_follow_the_reads() {
    match mirror_msg(3, Some("abcd\r\nef".to_string()), 3) {
        MirrorMsg::Mirror(i, lines) => {
            assert_eq!(i, 3);
            assert_eq!(texts(&lines), vec!["abc", "d", "ef"]);
        }
        MirrorMsg::Dead(_) => unreachable!(),
    }
    assert!(matches!(mirror_msg(4, None, 3), MirrorMsg::Dead(4)));
}

#[test]
fn reader_gives_the_socket_up_for_good() {
    let mut reader = Reader::new(true);
    assert_eq!(reader.source(), Source::Socket);
    assert!(matches!(reader.on_read(Some("x".to_string())), ReadStep::Done(Some(_))));
    assert_eq!(reader.source(), Source::Socket);
    assert!(matches!(reader.on_read(None), ReadStep::Ask(Source::Cli)));
    assert_eq!(reader.source(), Source::Cli);
    assert!(matches!(reader.on_read(Some("y".to_string())), ReadStep::Done(Some(_))));
    assert_eq!(reader.source(), Source::Cli);
    assert!(matches!(reader.on_read(None), ReadStep::Done(None)));
    assert_eq!(Reader::new(false).source(), Source::Cli);
}

#[test]
fn widths_come_from_the_last_layout() {
    let rect = |width: i32| PaneRect { width, height: 5 };
    let mut widths = Widths::new();
    assert_eq!(widths.width_of("a"), 0);
    widths.refresh(&TabLayout {
        area: rect(100),
        panes: vec![("a".to_string(), rect(40)), ("b".to_string(), rect(0))],
    });
    assert_eq!(widths.width_of("a"), 40);
    assert_eq!(widths.width_of("b"), 1);
    widths.refresh(&TabLayout { area: rect(100), panes: vec![("a".to_string(), rect(60))] });
    assert_eq!(widths.width_of("a"), 60);
    assert_eq!(widths.width_of("b"), 1);
}

#[test]
fn targets_follow_what_is_typed() {
    let info = PaneInfo {
        pane_id: "w1:p1".to_string(),
        agent: Some("helix".to_string()),
        agent_status: None,
        title: None,
        cwd: None,
        is_self: false,
    };
    let mut t = Target::new(&info);
    assert_eq!(t.label, "w1:p1 helix");
    assert_eq!(t.ver, 1);
    t.receive(vec![line("host# ")]);
    assert_eq!(t.anchor, Some((0, 5)));
    t.receive(vec![line("host# l")]);
    assert_eq!(t.anchor, Some((0, 7)));
    assert_eq!(t.ver, 3);
    assert_eq!(t.plain, vec!["host# l"]);
}

#[test]
fn a_rendering_is_reused_until_the_version_changes() {
    let mut t = target(vec![line("one")], vec!["one".to_string()]);
    assert_eq!(texts(&t.render_in(true, 10, 3).unwrap()), vec!["one "]);
    t.mirror = vec![line("two")];
    assert_eq!(texts(&t.render_in(true, 10, 3).unwrap()), vec!["one "]);
    t.ver += 1;
    t.plain = vec!["two".to_string()];
    assert_eq!(texts(&t.render_in(true, 10, 3).unwrap()), vec!["two "]);
    assert_eq!(texts(&t.render_in(false, 10, 3).unwrap()), vec!["two"]);
}

#[test]
fn a_cell_shows_the_newest_lines() {
    let lines: Vec<Line> = (1..=5).map(|i| line(&format!("l{i}"))).collect();
    let mut t = target(lines, Vec::new());
    t.anchor = Some((4, 1));
    let shown = t.render_in(true, 10, 2).unwrap();
    assert_eq!(texts(&shown), vec!["l4", "l5"]);
    assert!(shown[1].spans.iter().any(|s| s.content == "5" && is_reversed(s)));
}

#[test]
fn a_page_shows_status_targets_and_rules() {
    let mut targets = vec![
        target(vec![line("left")], vec!["left".to_string()]),
        target(vec![line("right")], vec!["right".to_string()]),
    ];
    targets[1].dead = true;
    targets[1].label = "p2 shell".to_string();
    let area = |x: u16, width: u16| Area { x, y: 1, width, height: 2 };
    let top = Area { x: 0, y: 0, width: 21, height: 1 };
    let cells = [area(0, 10), area(10, 1), area(11, 10)];
    let notice = Some("hello".to_string());
    let page = paint(&mut targets, 7, &notice, true, top, &cells).unwrap();
    assert_eq!(page.len(), 4);
    assert!(matches!(&page[0].content,
        Content::Status(s) if s == " live 1/2 · sent 7 · hello · ^q quit"));
    assert_eq!(page[0].area, top);
    assert!(matches!(&page[1].content, Content::Mirror(l) if texts(l) == vec!["left "]));
    assert!(matches!(&page[2].content, Content::Separator(l) if texts(l) == vec!["│", "│"]));
    assert_eq!(page[2].area, cells[1]);
    assert!(matches!(&page[3].content,
        Content::Dead(s) if s == " ✕ p2 shell dead — pane closed or unreachable "));
    assert_eq!(page[3].area, cells[2]);
}

#[test]
fn a_page_cuts_its_area() {
    let mut targets = vec![
        target(vec![line("a")], Vec::new()),
        target(vec![line("b")], Vec::new()),
    ];
    let area = Area { x: 0, y: 0, width: 21, height: 6 };
    let page = draw(&mut targets, 0, &Some("n".to_string()), false, area).unwrap();
    assert_eq!(page[0].area, Area { x: 0, y: 0, width: 21, height: 1 });
    assert_eq!(page[1].area, Area { x: 0, y: 1, width: 10, height: 5 });
    assert_eq!(page[2].area, Area { x: 10, y: 1, width: 1, height: 5 });
    assert_eq!(page[3].area, Area { x: 11, y: 1, width: 10, height: 5 });
    let page = draw(&mut targets, 0, &None, false, area).unwrap();
    assert_eq!(page.len(), 3);
    assert_eq!(page[0].area.height, 6);
}

#[test]
fn a_page_whose_cursor_does_not_land_is_not_drawn() {
    let odd = Line::from_spans(vec![Span::raw(String::new())]);
    let mut targets = vec![target(vec![line("abcd"), odd], Vec::new())];
    targets[0].anchor = Some((0, 4));
    let area = Area { x: 0, y: 0, width: 4, height: 6 };
    assert!(draw(&mut targets, 0, &None, true, area).is_none());
    assert!(draw(&mut targets, 0, &None, false, area).is_some());
}

#[test]
fn a_page_without_targets_is_empty() {
    let area = Area { x: 0, y: 0, width: 4, height: 6 };
    assert!(draw(&mut Vec::new(), 0, &None, true, area).unwrap().is_empty());
    let flat = Area { x: 0, y: 0, width: 0, height: 0 };
    let mut targets = vec![target(vec![line("a")], Vec::new())];
    assert_eq!(draw(&mut targets, 0, &None, true, flat).unwrap().len(), 1);
}

#[test]
fn colours_survive_as_text() {
    let raw = "\u{1b}[38;5;200ma\u{1b}[48;2;1;2;3mb\u{1b}[90mc";
    let lines = parse_ansi(raw);
    let colour = |c: &Option<String>| c.as_ref().map(|c| c.parse::<Color>().unwrap());
    let spans = &lines[0].spans;
    assert_eq!(colour(&spans[0].style.fg), Some(Color::Indexed(200)));
    assert_eq!(colour(&spans[1].style.bg), Some(Color::Rgb(1, 2, 3)));
    assert_eq!(colour(&spans[2].style.fg), Some(Color::DarkGray));
    for c in [Color::Reset, Color::Gray, Color::White, Color::LightBlue, Color::Black] {
        assert_eq!(c.to_string().parse::<Color>().unwrap(), c);
    }
}

#[test]
fn the_cursor_touches_one_row() {
    let screen = vec![line("one"), line("two"), line("three")];
    let out = with_cursor(&screen, Some((1, 1)), true, 40);
    assert_eq!(texts(&out), vec!["one", "two", "three"]);
    assert!(!out[0].spans.iter().any(is_reversed));
    assert!(out[1].spans.iter().any(|s| s.content == "w" && is_reversed(s)));
    assert!(!out[2].spans.iter().any(is_reversed));
}

#[test]
fn nothing_is_drawn_outside_of_the_area() {
    for count in 1..=5usize {
        for (width, height) in [(0, 0), (1, 1), (3, 2), (7, 1), (20, 6), (81, 24), (65535, 9)] {
            for (x, y) in [(0, 0), (5, 3), (65530, 65534)] {
                let area = Area { x, y, width, height };
                let mut targets: Vec<Target> =
                    (0..count).map(|_| target(vec![line("a")], Vec::new())).collect();
                let page = draw(&mut targets, 0, &Some("n".to_string()), false, area).unwrap();
                assert_eq!(page.len(), 2 * count);
                for Painted { area: part, .. } in page {
                    assert!(area.x <= part.x && area.y <= part.y, "{part:?} in {area:?}");
                    let ends = |a: u16, b: u16| a as u32 + b as u32;
                    assert!(ends(part.x, part.width) <= ends(area.x, area.width));
                    assert!(ends(part.y, part.height) <= ends(area.y, area.height));
                }
            }
        }
    }
}

fn check_columns(count: usize, x: u16, width: u16) {
    let area = Area { x, y: 4, width, height: 9 };
    let mut targets: Vec<Target> =
        (0..count).map(|_| target(vec![line("a")], Vec::new())).collect();
    let page = draw(&mut targets, 0, &Some("n".to_string()), false, area).unwrap();
    assert_eq!(page.len(), 2 * count);
    assert_eq!(page[0].area, Area { height: 1, ..area });
    let cells: Vec<Area> = page[1..].iter().map(|p| p.area).collect();
    let mut at = x;
    for (k, cell) in cells.iter().enumerate() {
        assert_eq!((cell.x, cell.y, cell.height), (at, 5, 8), "{count} in {width}");
        assert!(k % 2 == 0 || cell.width == 1, "{count} in {width}");
        at += cell.width;
    }
    assert_eq!(at, x + width, "{count} in {width}");
    let widths: Vec<u16> = cells.iter().step_by(2).map(|c| c.width).collect();
    let spread = widths.iter().max().unwrap() - widths.iter().min().unwrap();
    assert!(spread <= 1, "{count} in {width}");
}

#[test]
fn mirrors_stand_side_by_side() {
    for count in 1..=8u16 {
        for width in 2 * count - 1..=60 {
            check_columns(count as usize, 0, width);
        }
        for (x, width) in [(0, 237), (11, 1000), (65000, 535), (0, 65535)] {
            check_columns(count as usize, x, width);
        }
    }
}

#[test]
fn many_mirrors_stand_side_by_side() {
    check_columns(24, 0, 47);
    check_columns(24, 3, 211);
}

#[test]
fn parts_keep_their_order_in_a_narrow_area() {
    for count in 2..=9usize {
        for width in 0..(2 * count as u16 - 1) {
            let area = Area { x: 5, y: 0, width, height: 3 };
            let mut targets: Vec<Target> =
                (0..count).map(|_| target(vec![line("a")], Vec::new())).collect();
            let page = draw(&mut targets, 0, &None, false, area).unwrap();
            for pair in page.windows(2) {
                assert!(pair[0].area.x + pair[0].area.width <= pair[1].area.x);
            }
        }
    }
}

//! The diff in plain colours.
use branchdiff::app::Position;
use branchdiff::app::Selection;
use branchdiff::diff::DiffLine;
use branchdiff::diff::InlineSpan;
use branchdiff::diff::LineSource;
use branchdiff::style::Color;
use branchdiff::style::Line;
use branchdiff::style::Rect;
use branchdiff::ui::selection::selection_bg_color;
use branchdiff::ui::simple_view::SimpleView;
use branchdiff::ui::simple_view::coalesce_spans;
use branchdiff::ui::simple_view::draw;
use branchdiff::ui::simple_view::draw_diff_view;
use branchdiff::ui::simple_view::draw_simple_banner;
use branchdiff::ui::simple_view::draw_simple_status;
use branchdiff::ui::simple_view::simple_line_style;

fn rect(x: u16, y: u16, width: u16, height: u16) -> Rect {
    Rect { x, y, width, height }
}

fn text_of(line: &Line) -> String {
    line.spans.iter().map(|s| s.content.as_str()).collect()
}

fn line(source: LineSource, content: &str, prefix: char, number: usize) -> DiffLine {
    DiffLine::new(source, content.to_string(), prefix, Some(number))
}

#[test]
fn test_lines_are_drawn_with_their_numbers() {
    let lines = vec![
        DiffLine::file_header("a.rs"),
        line(LineSource::Base, "fn a() {", ' ', 9),
        line(LineSource::Committed, "    one();", '+', 10),
        line(LineSource::DeletedBase, "    two();", '-', 11),
    ];
    let frame = draw_diff_view(&lines, 0, &None, Some("a.rs"), rect(0, 0, 80, 24));
    assert_eq!(frame.content_offset, (1, 1));
    assert_eq!(frame.line_num_width, 3);
    assert!(frame.title.content.contains("a.rs"));
    let rows: Vec<String> = frame.lines.iter().map(text_of).collect();
    assert_eq!(rows.len(), 4);
    assert!(rows[0].contains("a.rs"));
    assert!(rows[1].starts_with("  9 ") && rows[1].ends_with("fn a() {"));
    assert!(rows[2].starts_with(" 10 ") && rows[2].ends_with("+     one();"));
    assert!(rows[3].starts_with(" 11 ") && rows[3].ends_with("-     two();"));
}

/// The rows of a wrapped line hold its text, and no more of it than fits.
#[test]
fn test_long_lines_are_wrapped() {
    let text = "abcdefghij".repeat(20);
    let lines = vec![line(LineSource::Committed, &text, '+', 1)];
    let frame = draw_diff_view(&lines, 0, &None, None, rect(0, 0, 60, 24));
    let mut shown = String::new();
    for row in &frame.lines {
        let content: String = row.spans.last().unwrap().content.clone();
        assert!(content.len() <= frame.content_width);
        shown.push_str(&content);
    }
    assert_eq!(shown, text);
    assert!(frame.lines.len() > 3);
}

#[test]
fn test_modified_lines_show_both_texts() {
    let mut modified = line(LineSource::Committed, "let new = 1;", ' ', 3);
    modified.inline_spans = vec![
        InlineSpan { text: "let ".to_string(), source: None, is_deletion: false },
        InlineSpan { text: "old".to_string(), source: Some(LineSource::DeletedBase), is_deletion: true },
        InlineSpan { text: "new".to_string(), source: Some(LineSource::Committed), is_deletion: false },
        InlineSpan { text: " = 1;".to_string(), source: None, is_deletion: false },
    ];
    let frame = draw_diff_view(&[modified], 0, &None, None, rect(0, 0, 80, 24));
    assert!(text_of(&frame.lines[0]).ends_with("let oldnew = 1;"));
}

#[test]
fn test_selected_text_is_marked() {
    let lines = vec![line(LineSource::Base, "selectable", ' ', 1)];
    let selection = Some(Selection {
        start: Position { row: 0, col: 0 },
        end: Position { row: 0, col: 40 },
        active: false,
    });
    let frame = draw_diff_view(&lines, 0, &selection, None, rect(0, 0, 80, 24));
    let marked: String = frame.lines[0]
        .spans
        .iter()
        .filter(|s| s.style.bg == Some(selection_bg_color()))
        .map(|s| s.content.as_str())
        .collect();
    assert!(marked.contains("selectable"));
}

#[test]
fn test_simple_screen_has_its_parts() {
    let lines = vec![line(LineSource::Base, "text", ' ', 1)];
    let view = SimpleView {
        visible_lines: &lines,
        scroll_offset: 0,
        selection: &None,
        current_file: None,
        conflict_warning: Some("Merge conflicts"),
        status: "feature vs main",
        show_help: true,
    };
    let screen = draw(&view, rect(0, 0, 80, 24));
    assert_eq!(screen.areas.warning, Some(rect(0, 0, 80, 1)));
    assert_eq!(screen.areas.diff, rect(0, 1, 80, 22));
    assert_eq!(screen.areas.status, rect(0, 23, 80, 1));
    assert_eq!(screen.viewport_height, 20);
    assert_eq!(screen.warning.unwrap().content, " ⚠ Merge conflicts ");
    assert_eq!(text_of(&screen.status).len(), 80);
    assert!(screen.help.is_some());
}

#[test]
fn test_simple_status_leaves_the_keys_out_where_they_do_not_fit() {
    let wide = draw_simple_status("feature vs main", 80);
    assert!(text_of(&wide).ends_with(" q:quit  j/k:scroll  g/G:top/bottom  ?:help "));
    let narrow = draw_simple_status("feature vs main", 40);
    assert_eq!(text_of(&narrow), "feature vs main");
    assert_eq!(draw_simple_banner("careful").content, " ⚠ careful ");
}

#[test]
fn test_simple_styles() {
    assert_eq!(simple_line_style(LineSource::Unstaged).fg, Some(Color::Yellow));
    assert_eq!(simple_line_style(LineSource::DeletedStaged).fg, Some(Color::Rgb(255, 150, 150)));
    assert!(simple_line_style(LineSource::FileHeader).add_modifier.bold);
}

/// A short last span is merged with the changes in front of it, unless it is structural.
#[test]
fn test_last_span_is_kept_like_the_others() {
    let span = |text: &str, source: Option<LineSource>, is_deletion: bool| InlineSpan {
        text: text.to_string(),
        source,
        is_deletion,
    };
    let spans = |last: &str| {
        vec![
            span("a", None, false),
            span("old1", Some(LineSource::DeletedBase), true),
            span("new1", Some(LineSource::Committed), false),
            span("b", None, false),
            span("old2", Some(LineSource::DeletedBase), true),
            span("new2", Some(LineSource::Committed), false),
            span(last, None, false),
        ]
    };
    let texts = |merged: Vec<InlineSpan>| -> Vec<String> {
        merged.into_iter().map(|span| span.text).collect()
    };
    assert_eq!(texts(coalesce_spans(&spans("c"))), ["aold1bold2c", "anew1bnew2c"]);
    assert_eq!(texts(coalesce_spans(&spans(");"))), ["aold1bold2", "anew1bnew2", ");"]);
    let highlighted = branchdiff::ui::spans::coalesce_spans(&spans("c"));
    assert_eq!(texts(highlighted), ["aold1bold2", "anew1bnew2", "c"]);
}

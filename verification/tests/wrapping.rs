//! How lines are wrapped.
use branchdiff::style::Span;
use branchdiff::style::Style;
use branchdiff::ui::wrapping::content_display_width;
use branchdiff::ui::wrapping::sanitize_for_display;
use branchdiff::ui::wrapping::wrap_content;
use unicode_width::UnicodeWidthChar;
use unicode_width::UnicodeWidthStr;

/// The rows of a wrapped line hold its text and nothing else.
#[test]
fn test_wrapping_keeps_the_text() {
    for width in 1..12 {
        let content = "fn main() { let x = \t1; } 你好";
        let spans = vec![
            Span::styled("fn main() {".to_string(), Style::default()),
            Span::styled(" let x = \t1; } 你好".to_string(), Style::default()),
        ];
        let (lines, row_infos) = wrap_content(
            spans,
            content,
            "12 ".to_string(),
            "+ C ".to_string(),
            Style::default(),
            width.max(2),
            7,
        );
        let mut text = String::new();
        for line in &lines {
            for span in &line.spans[2..] {
                text.push_str(&span.content);
            }
        }
        assert_eq!(text, "fn main() { let x =     1; } 你好");
        assert_eq!(lines.len(), row_infos.len());
        assert_eq!(row_infos[0].content, text);
        assert!(row_infos[1..].iter().all(|row| row.is_continuation));
    }
}

#[test]
fn test_wrapped_line_widths_do_not_exceed_available_width() {
    let content_width = 40;
    let prefix_width = 8;

    let content = "a".repeat(content_width + 20);
    let content_spans = vec![Span::styled(content.clone(), Style::default())];

    // '±' prefix: 2 bytes, 1 display column — historically caused overflow
    let prefix_str = "    ".to_string();
    let prefix_char = "± C ".to_string();

    let (lines, _) = wrap_content(
        content_spans,
        &content,
        prefix_str,
        prefix_char,
        Style::default(),
        content_width,
        prefix_width,
    );

    assert!(lines.len() > 1, "Content should wrap");

    for (i, line) in lines.iter().enumerate() {
        let display_width: usize = line
            .spans
            .iter()
            .map(|s| s.content.width())
            .sum();
        assert!(
            display_width <= prefix_width + content_width,
            "Line {} has display width {} but max is {} (prefix {} + content {})",
            i,
            display_width,
            prefix_width + content_width,
            prefix_width,
            content_width
        );
    }
}

#[test]
fn test_wrapped_unicode_content_correct_width() {
    let content_width = 20;
    let prefix_width = 6;

    // Mix of ASCII and multi-byte chars (→ is 1 display col, 3 bytes)
    let content = "→ hello → world → foo → bar → baz";
    let content_spans = vec![Span::styled(content.to_string(), Style::default())];

    let (lines, _) = wrap_content(
        content_spans,
        content,
        "  ".to_string(),
        "+ C ".to_string(),
        Style::default(),
        content_width,
        prefix_width,
    );

    for (i, line) in lines.iter().enumerate() {
        let display_width: usize = line
            .spans
            .iter()
            .map(|s| s.content.width())
            .sum();
        assert!(
            display_width <= prefix_width + content_width,
            "Line {} display width {} exceeds max {}",
            i,
            display_width,
            prefix_width + content_width
        );
    }
}

#[test]
fn test_no_wrap_when_content_fits() {
    let content_width = 40;
    let prefix_width = 6;

    let content = "short line";
    let content_spans = vec![Span::styled(content.to_string(), Style::default())];

    let (lines, row_infos) = wrap_content(
        content_spans,
        content,
        "  ".to_string(),
        "+ C ".to_string(),
        Style::default(),
        content_width,
        prefix_width,
    );

    assert_eq!(lines.len(), 1);
    assert_eq!(row_infos.len(), 1);
    assert!(!row_infos[0].is_continuation);
}

#[test]
fn test_continuation_lines_marked_correctly() {
    let content_width = 10;
    let prefix_width = 6;

    let content = "a".repeat(25);
    let content_spans = vec![Span::styled(content.clone(), Style::default())];

    let (lines, row_infos) = wrap_content(
        content_spans,
        &content,
        "  ".to_string(),
        "+ C ".to_string(),
        Style::default(),
        content_width,
        prefix_width,
    );

    assert!(lines.len() >= 3, "Should produce 3+ wrapped lines");
    assert!(!row_infos[0].is_continuation);
    for info in &row_infos[1..] {
        assert!(info.is_continuation);
    }
}

#[test]
fn test_wide_cjk_characters_wrap_correctly() {
    let content_width = 10;
    let prefix_width = 6;

    // Each CJK char is 2 display columns, so 5 chars = 10 columns = fills exactly
    // 6 chars = 12 columns = should wrap
    let content = "你好世界你好";
    let content_spans = vec![Span::styled(content.to_string(), Style::default())];

    let (lines, _) = wrap_content(
        content_spans,
        content,
        "  ".to_string(),
        "+ C ".to_string(),
        Style::default(),
        content_width,
        prefix_width,
    );

    for (i, line) in lines.iter().enumerate() {
        let display_width: usize = line
            .spans
            .iter()
            .map(|s| s.content.width())
            .sum();
        assert!(
            display_width <= prefix_width + content_width,
            "Line {} display width {} exceeds max {}",
            i,
            display_width,
            prefix_width + content_width
        );
    }
}

#[test]
fn test_tab_characters_expanded_before_wrapping() {
    let content_width = 30;
    let prefix_width = 6;

    // Two tabs + text: without expansion, unicode-width sees tabs as 0-width
    // and thinks the line fits. With expansion (4 spaces each), width is correct.
    let content = "\t\tsome_long_identifier = value;";
    let content_spans = vec![Span::styled(content.to_string(), Style::default())];

    let (lines, row_infos) = wrap_content(
        content_spans,
        content,
        "  ".to_string(),
        "+ C ".to_string(),
        Style::default(),
        content_width,
        prefix_width,
    );

    // Content after tab expansion: "        some_long_identifier = value;" = 38 chars
    // This exceeds content_width (30), so wrapping should occur
    assert!(lines.len() > 1, "Tab-containing content should wrap when expanded width exceeds limit");

    // Verify no tabs remain in rendered spans
    for line in &lines {
        for span in &line.spans {
            assert!(
                !span.content.contains('\t'),
                "Rendered spans should not contain tab characters"
            );
        }
    }

    // Verify no tabs in ScreenRowInfo content
    for info in &row_infos {
        assert!(
            !info.content.contains('\t'),
            "ScreenRowInfo content should not contain tabs"
        );
    }

    // Verify display widths don't exceed limits
    for (i, line) in lines.iter().enumerate() {
        let display_width: usize = line
            .spans
            .iter()
            .map(|s| s.content.width())
            .sum();
        assert!(
            display_width <= prefix_width + content_width,
            "Line {} display width {} exceeds max {}",
            i,
            display_width,
            prefix_width + content_width
        );
    }
}

#[test]
fn test_tabs_without_wrapping_still_expanded() {
    let content_width = 40;
    let prefix_width = 6;

    // Short content with a tab - fits even after expansion
    let content = "\thi";
    let content_spans = vec![Span::styled(content.to_string(), Style::default())];

    let (lines, row_infos) = wrap_content(
        content_spans,
        content,
        "  ".to_string(),
        "+ C ".to_string(),
        Style::default(),
        content_width,
        prefix_width,
    );

    assert_eq!(lines.len(), 1);

    // Verify tab is expanded in spans
    for span in &lines[0].spans {
        assert!(!span.content.contains('\t'), "Tab should be expanded to spaces");
    }

    // Verify tab is expanded in row info content
    assert_eq!(row_infos[0].content, "    hi");
}

#[test]
fn test_control_characters_sanitized() {
    let content_width = 40;
    let prefix_width = 6;

    // \x01 and \x7f are control chars with unicode-width None
    let content = "hello\x01world\x7f!";
    let content_spans = vec![Span::styled(content.to_string(), Style::default())];

    let (lines, row_infos) = wrap_content(
        content_spans,
        content,
        "  ".to_string(),
        "+ C ".to_string(),
        Style::default(),
        content_width,
        prefix_width,
    );

    assert_eq!(lines.len(), 1);

    // Control chars replaced with spaces in rendered spans
    let rendered: String = lines[0].spans.iter().map(|s| s.content.to_string()).collect();
    assert!(rendered.contains("hello world !"), "Control chars should become spaces, got: {:?}", rendered);

    // Same in row info
    assert_eq!(row_infos[0].content, "hello world !");
}

#[test]
fn test_content_display_width_matches_sanitized_width() {
    let test_cases = [
        "hello world",
        "\t\tindented",
        "has\x01control\x7fchars",
        "mixed\t\x01both",
        "你好世界",
    ];

    for input in &test_cases {
        let width = content_display_width(input);
        let sanitized = sanitize_for_display(input)
            .unwrap_or_else(|| input.to_string());
        assert_eq!(
            width,
            sanitized.width(),
            "content_display_width and sanitized width disagree for {:?}",
            input
        );
    }
}

#[test]
fn test_widths_of_all_characters() {
    for c in '\0'..=char::MAX {
        let width = UnicodeWidthChar::width(c);
        let shown = match c {
            '\t' => 4,
            _ => width.unwrap_or(1),
        };
        assert_eq!(content_display_width(&c.to_string()), shown, "{:?}", c);
        assert_eq!(width.is_none(), c.is_control(), "{:?}", c);
        assert!(shown <= 4);
        if (' '..='~').contains(&c) {
            assert_eq!(shown, 1);
        }
    }
}

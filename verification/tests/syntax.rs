//! The syntax of lines that are read one after another.
use branchdiff::style::Color;
use branchdiff::syntax::SyntaxHighlighter;
use branchdiff::syntax::SyntaxSegment;
use branchdiff::syntax::MAX_HIGHLIGHT_LINE_LEN;
use branchdiff::ui::colors::default_fg;
use branchdiff::syntax::highlight_line;
use branchdiff::syntax::reset_highlight_state;

fn colours(segments: &[SyntaxSegment]) -> Vec<Color> {
    segments.iter().map(|s| s.fg_color).collect()
}

#[test]
fn test_reset_starts_the_file_again() {
    let mut highlighter = SyntaxHighlighter::new();
    let first = highlight_line(&mut highlighter, "let x = 1;", Some("test.rs"));
    highlight_line(&mut highlighter, "let s = \"open", Some("test.rs"));
    let inside = highlight_line(&mut highlighter, "let x = 1;", Some("test.rs"));
    assert_ne!(colours(&first), colours(&inside));
    reset_highlight_state(&mut highlighter);
    let again = highlight_line(&mut highlighter, "let x = 1;", Some("test.rs"));
    assert_eq!(colours(&first), colours(&again));
}

#[test]
fn test_keywords_and_strings_have_their_colours() {
    let mut highlighter = SyntaxHighlighter::new();
    let segments = highlight_line(&mut highlighter, "return \"hello\"; // done", Some("test.rs"));
    let colour = |text: &str| segments.iter().find(|s| s.text.contains(text)).unwrap().fg_color;
    assert_eq!(colour("return"), Color::Rgb(180, 140, 200));
    assert_eq!(colour("hello"), Color::Rgb(220, 180, 140));
    assert_eq!(colour("done"), Color::Rgb(128, 128, 140));
}

#[test]
fn test_highlight_rust_keyword() {
    let mut highlighter = SyntaxHighlighter::new();
    let segments = highlight_line(&mut highlighter, "fn main() {}", Some("test.rs"));
    assert!(!segments.is_empty());
    // Should have "fn" as keyword with purple-ish color
    let fn_segment = segments.iter().find(|s| s.text == "fn");
    assert!(fn_segment.is_some());
}

#[test]
fn test_highlight_rust_string() {
    let mut highlighter = SyntaxHighlighter::new();
    let segments = highlight_line(&mut highlighter, "let s = \"hello\";", Some("test.rs"));
    assert!(!segments.is_empty());
    // Should have the string segment
    let has_string = segments.iter().any(|s| s.text.contains("hello"));
    assert!(has_string);
}

#[test]
fn test_highlight_unknown_extension() {
    let mut highlighter = SyntaxHighlighter::new();
    let segments = highlight_line(&mut highlighter, "some random text", Some("file.xyz123"));
    assert_eq!(segments.len(), 1);
    assert_eq!(segments[0].text, "some random text");
}

#[test]
fn test_highlight_no_file_path() {
    let mut highlighter = SyntaxHighlighter::new();
    let segments = highlight_line(&mut highlighter, "fn main() {}", None);
    // Should still work, just without syntax highlighting
    assert!(!segments.is_empty());
}

#[test]
fn test_highlight_python() {
    let mut highlighter = SyntaxHighlighter::new();
    let segments = highlight_line(&mut highlighter, "def hello():", Some("test.py"));
    assert!(!segments.is_empty());
    let def_segment = segments.iter().find(|s| s.text == "def");
    assert!(def_segment.is_some());
}

#[test]
fn test_highlight_javascript() {
    let mut highlighter = SyntaxHighlighter::new();
    let segments = highlight_line(&mut highlighter, "const x = 42;", Some("test.js"));
    assert!(!segments.is_empty());
    let const_segment = segments.iter().find(|s| s.text == "const");
    assert!(const_segment.is_some());
}

#[test]
fn test_highlight_empty_content() {
    let mut highlighter = SyntaxHighlighter::new();
    let segments = highlight_line(&mut highlighter, "", Some("test.rs"));
    assert!(segments.is_empty());
}

#[test]
fn test_multiline_string_state_preserved() {
    let mut highlighter = SyntaxHighlighter::new();
    // Start a multi-line string
    let _line1 = highlight_line(&mut highlighter, "let s = \"start of", Some("test.rs"));
    // Continue on next line - should still be in string context
    let line2 = highlight_line(&mut highlighter, "middle of string", Some("test.rs"));
    // End the string
    let line3 = highlight_line(&mut highlighter, "end of string\";", Some("test.rs"));

    // Line 2 should be treated as string content (peach color 220, 180, 140)
    // The entire line should be string-colored since we're inside quotes
    assert!(!line2.is_empty());
    // Check that line2 has string-like coloring (not default gray)
    let has_string_color = line2.iter().any(|s| {
        matches!(s.fg_color, Color::Rgb(r, g, b) if r > 200 && g > 150 && b < 180)
    });
    assert!(has_string_color, "Line 2 should have string highlighting color");

    // Line 3 should end the string
    assert!(!line3.is_empty());
}

#[test]
fn test_file_change_resets_state() {
    let mut highlighter = SyntaxHighlighter::new();
    // Highlight some Rust
    highlight_line(&mut highlighter, "fn main() {}", Some("test.rs"));
    // Switch to Python - should reset state
    let py_segments = highlight_line(&mut highlighter, "def hello():", Some("test.py"));
    // Should have Python keyword coloring
    let def_segment = py_segments.iter().find(|s| s.text == "def");
    assert!(def_segment.is_some());
}

#[test]
fn test_highlight_swift() {
    let mut highlighter = SyntaxHighlighter::new();
    let segments = highlight_line(&mut highlighter, "func hello() -> String {", Some("test.swift"));
    assert!(!segments.is_empty());
    // Should have "func" as keyword
    let func_segment = segments.iter().find(|s| s.text == "func");
    assert!(func_segment.is_some(), "Swift 'func' keyword should be highlighted");
}

#[test]
fn test_highlight_typescript() {
    let mut highlighter = SyntaxHighlighter::new();
    let segments = highlight_line(&mut highlighter, "const x: number = 42;", Some("test.ts"));
    assert!(!segments.is_empty());
    // Should have "const" as keyword
    let const_segment = segments.iter().find(|s| s.text == "const");
    assert!(const_segment.is_some(), "TypeScript 'const' keyword should be highlighted");
}

#[test]
fn test_js_line_comment_does_not_bleed() {
    let mut highlighter = SyntaxHighlighter::new();
    // Simulate rendering lines from a JS file
    // The highlight_line function now appends \n internally to fix this
    let _line1 = highlight_line(&mut highlighter, "// This is a comment", Some("test.js"));
    let line2 = highlight_line(&mut highlighter, "const BOT_PATTERNS = [", Some("test.js"));

    // Line 2 should have "const" as a keyword, NOT as comment text
    let const_segment = line2.iter().find(|s| s.text == "const");
    assert!(
        const_segment.is_some(),
        "JS 'const' after line comment should be highlighted as keyword, got: {:?}",
        line2
    );
}

#[test]
fn test_lines_that_are_too_long_are_passed_over() {
    let mut highlighter = SyntaxHighlighter::new();
    let first = highlight_line(&mut highlighter, "let x = 1;", Some("test.rs"));
    let long = format!("let s = \"{}", "a".repeat(MAX_HIGHLIGHT_LINE_LEN));
    let segments = highlight_line(&mut highlighter, &long, Some("test.rs"));
    assert_eq!(segments.len(), 1);
    assert_eq!(segments[0].text, long);
    assert_eq!(segments[0].fg_color, default_fg());
    // The string in it is not open now.
    let after = highlight_line(&mut highlighter, "let x = 1;", Some("test.rs"));
    assert_eq!(colours(&first), colours(&after));
}

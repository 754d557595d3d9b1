//! The diff as a web page.
use branchdiff::diff::DiffLine;
use branchdiff::diff::InlineSpan;
use branchdiff::diff::LineSource;
use branchdiff::html::color_to_css;
use branchdiff::html::encode_image_to_base64;
use branchdiff::html::html_escape;
use branchdiff::html::render_html;
use branchdiff::html::source_highlight_class;
use branchdiff::html::source_line_class;
use branchdiff::html::write_encoded_panel;
use branchdiff::html::write_file;
use branchdiff::html::write_footer;
use branchdiff::html::write_header;
use branchdiff::html::write_image;
use branchdiff::html::write_image_panel;
use branchdiff::html::write_inline_spans;
use branchdiff::html::write_syntax_highlighted;
use branchdiff::image_diff::CachedImage;
use branchdiff::image_diff::ImageCache;
use branchdiff::image_diff::ImageDiffState;
use branchdiff::output::OutputData;
use branchdiff::output::OutputFile;
use branchdiff::style::Color;
use branchdiff::syntax::SyntaxHighlighter;
use image::DynamicImage;

fn sample_image() -> CachedImage {
    CachedImage {
        display_image: DynamicImage::new_rgba8(2, 1),
        original_width: 2,
        original_height: 1,
        file_size: 512,
        format_name: "PNG".to_string(),
    }
}

/// Decodes base 64 with padding.
fn decoded(text: &str) -> Vec<u8> {
    base64::Engine::decode(&base64::engine::general_purpose::STANDARD, text).unwrap()
}

#[test]
fn test_images_are_written_as_png() {
    let text = encode_image_to_base64(&sample_image()).unwrap();
    // The signature of a PNG file.
    assert!(text.starts_with("iVBORw0KGgo"));
    let image = image::load_from_memory(&decoded(&text)).unwrap();
    assert_eq!((image.width(), image.height()), (2, 1));
}

#[test]
fn test_image_panel_with_and_without_data() {
    let image = sample_image();
    let with = write_encoded_panel(&image, Some("QUJD".to_string()), "before");
    assert_eq!(
        with,
        "<div class=\"image-panel\">\n<div class=\"image-label\">before</div>\n\
         <img src=\"data:image/png;base64,QUJD\" alt=\"before\">\n\
         <div class=\"meta\">2x1 PNG, 512 B</div>\n</div>\n"
    );
    let without = write_encoded_panel(&image, None, "after");
    assert!(!without.contains("<img"));
    assert!(write_image_panel(&image, "after").contains("base64,iVBORw0KGgo"));
}

#[test]
fn test_image_line_shows_what_is_loaded() {
    let line = DiffLine::image_marker("a&b.png");
    let mut images = ImageCache::new();
    assert_eq!(
        write_image(&line, &images),
        "<tr><td colspan=\"3\" class=\"content\">[image: a&amp;b.png]</td></tr>"
    );
    images.insert(
        "a&b.png".to_string(),
        ImageDiffState { before: None, after: Some(sample_image()) },
    );
    let html = write_image(&line, &images);
    assert!(html.contains("<div class=\"image-label\">after</div>"));
    assert!(!html.contains("before"));
}

#[test]
fn test_highlighted_text_is_coloured() {
    let mut highlighter = SyntaxHighlighter::new();
    let html = write_syntax_highlighted("let x = 1;", Some("a.rs"), &mut highlighter);
    assert!(html.contains("<span style=\"color:rgb("));
    assert!(html.contains(">let</span>"));
    let mut highlighter = SyntaxHighlighter::new();
    let plain = write_syntax_highlighted("a < b", None, &mut highlighter);
    assert_eq!(plain, "a &lt; b");
}

#[test]
fn test_collapsed_files_are_not_open() {
    let file = OutputFile {
        path: "Cargo.lock".to_string(),
        lines: vec![DiffLine::elided(3)],
        additions: 0,
        deletions: 2,
        collapsed: true,
    };
    let mut highlighter = SyntaxHighlighter::new();
    assert_eq!(
        write_file(4, &file, &ImageCache::new(), 2, &mut highlighter),
        "<details id=\"file-4\"><summary>Cargo.lock <span class=\"dels\">-2</span></summary>\n\
         <table>\n<tr class=\"line-elided\"><td colspan=\"3\">┈┈ ⋮ 3 lines ⋮ ┈┈</td></tr>\n\
         </table>\n</details>\n"
    );
}

#[test]
fn test_page_is_put_together() {
    let data = OutputData {
        repo_name: "<repo>".to_string(),
        to_label: "feature".to_string(),
        from_label: "main".to_string(),
        files: Vec::new(),
        total_additions: 0,
        total_deletions: 0,
    };
    let mut highlighter = SyntaxHighlighter::new();
    let html = render_html(&data, &ImageCache::new(), &mut highlighter);
    assert!(html.starts_with("<!DOCTYPE html>\n<html lang=\"en\">"));
    assert!(html.contains("<title>&lt;repo&gt; | feature vs main — branchdiff</title>"));
    assert!(html.contains("0 files · <span class=\"adds\">+0</span> <span class=\"dels\">-0</span>"));
    assert!(html.ends_with("</script>\n</body></html>\n"));
    assert_eq!(html, write_header(&data) + &write_footer());
}

#[test]
fn test_html_escape_special_chars() {
    assert_eq!(html_escape("a & b"), "a &amp; b");
    assert_eq!(html_escape("<div>"), "&lt;div&gt;");
    assert_eq!(html_escape("x=\"y\""), "x=&quot;y&quot;");
    assert_eq!(html_escape("it's"), "it&#39;s");
    assert_eq!(html_escape("plain text"), "plain text");
    assert_eq!(html_escape(""), "");
}

#[test]
fn test_html_escape_multiple_special() {
    assert_eq!(
        html_escape("<a href=\"x&y\">"),
        "&lt;a href=&quot;x&amp;y&quot;&gt;"
    );
}

#[test]
fn test_source_line_class_all_variants() {
    assert_eq!(source_line_class(LineSource::Base), "line-base");
    assert_eq!(source_line_class(LineSource::Committed), "line-committed");
    assert_eq!(source_line_class(LineSource::Staged), "line-staged");
    assert_eq!(source_line_class(LineSource::Unstaged), "line-unstaged");
    assert_eq!(source_line_class(LineSource::DeletedBase), "line-del-base");
    assert_eq!(source_line_class(LineSource::DeletedCommitted), "line-del-committed");
    assert_eq!(source_line_class(LineSource::DeletedStaged), "line-del-staged");
    assert_eq!(source_line_class(LineSource::CanceledCommitted), "line-canceled");
    assert_eq!(source_line_class(LineSource::CanceledStaged), "line-canceled");
    assert_eq!(source_line_class(LineSource::FileHeader), "line-header");
    assert_eq!(source_line_class(LineSource::Elided), "line-elided");
}

#[test]
fn test_source_highlight_class_all_variants() {
    assert_eq!(source_highlight_class(LineSource::Committed), "hl-committed");
    assert_eq!(source_highlight_class(LineSource::Staged), "hl-staged");
    assert_eq!(source_highlight_class(LineSource::Unstaged), "hl-unstaged");
    assert_eq!(source_highlight_class(LineSource::DeletedBase), "hl-del-base");
    assert_eq!(source_highlight_class(LineSource::DeletedCommitted), "hl-del-committed");
    assert_eq!(source_highlight_class(LineSource::DeletedStaged), "hl-del-staged");
    assert_eq!(source_highlight_class(LineSource::CanceledCommitted), "hl-canceled");
    assert_eq!(source_highlight_class(LineSource::CanceledStaged), "hl-canceled");
    assert_eq!(source_highlight_class(LineSource::Base), "");
    assert_eq!(source_highlight_class(LineSource::FileHeader), "");
}

#[test]
fn test_color_to_css() {
    assert_eq!(color_to_css(Color::Rgb(255, 0, 128)), Some("rgb(255,0,128)".to_string()));
    assert_eq!(color_to_css(Color::Reset), None);
}

#[test]
fn test_write_inline_spans_output() {
    let line = DiffLine {
        source: LineSource::Committed,
        content: "hello world".into(),
        prefix: '+',
        line_number: Some(1),
        file_path: None,
        inline_spans: vec![
            InlineSpan { text: "hello".into(), source: None, is_deletion: false },
            InlineSpan { text: " world".into(), source: Some(LineSource::Committed), is_deletion: false },
        ],
        old_content: None,
        change_source: None,
        in_current_bookmark: None,
        block_idx: None,
        move_target: None,
    };
    let html = write_inline_spans(&line);
    assert!(html.contains("hello"));
    assert!(html.contains("<span class=\"hl-committed\"> world</span>"));
}

#[test]
fn test_write_inline_spans_with_deletion() {
    let line = DiffLine {
        source: LineSource::DeletedBase,
        content: "old text".into(),
        prefix: '-',
        line_number: Some(1),
        file_path: None,
        inline_spans: vec![
            InlineSpan { text: "old".into(), source: Some(LineSource::DeletedBase), is_deletion: true },
            InlineSpan { text: " text".into(), source: None, is_deletion: false },
        ],
        old_content: None,
        change_source: None,
        in_current_bookmark: None,
        block_idx: None,
        move_target: None,
    };
    let html = write_inline_spans(&line);
    assert!(html.contains("class=\"hl-del-base del\""));
}

#[test]
fn test_write_inline_spans_escapes_html() {
    let line = DiffLine {
        source: LineSource::Committed,
        content: "<script>".into(),
        prefix: '+',
        line_number: Some(1),
        file_path: None,
        inline_spans: vec![
            InlineSpan { text: "<script>".into(), source: Some(LineSource::Committed), is_deletion: false },
        ],
        old_content: None,
        change_source: None,
        in_current_bookmark: None,
        block_idx: None,
        move_target: None,
    };
    let html = write_inline_spans(&line);
    assert!(html.contains("&lt;script&gt;"));
    assert!(!html.contains("<script>"));
}

#[test]
fn test_render_html_produces_valid_structure() {
    let data = OutputData {
        repo_name: "test".to_string(),
        to_label: "feature".to_string(),
        from_label: "main".to_string(),
        files: vec![OutputFile {
            path: "test.rs".to_string(),
            lines: vec![
                DiffLine::file_header("test.rs"),
                DiffLine::new(LineSource::Base, "unchanged".into(), ' ', Some(1)),
                DiffLine::new(LineSource::Committed, "added".into(), '+', Some(2)),
                DiffLine::new(LineSource::DeletedBase, "removed".into(), '-', Some(3)),
            ],
            additions: 1,
            deletions: 1,
            collapsed: false,
        }],
        total_additions: 1,
        total_deletions: 1,
    };
    let images = ImageCache::new();

    let mut highlighter = SyntaxHighlighter::new();
    let mut html = write_header(&data);
    for (i, file) in data.files.iter().enumerate() {
        html.push_str(&write_file(i, file, &images, 1, &mut highlighter));
    }
    html.push_str(&write_footer());

    assert!(html.contains("<!DOCTYPE html>"), "should have doctype");
    assert!(html.contains("feature vs main"), "should have branch info");
    assert!(html.contains("<details open"), "should have collapsible files");
    assert!(html.contains("test.rs"), "should have file name");
    assert!(html.contains("line-committed"), "should have committed class");
    assert!(html.contains("line-del-base"), "should have deletion class");
    assert!(html.contains("</html>"), "should close html");
    assert!(html.contains("+1"), "should show addition count");
    assert!(html.contains("-1"), "should show deletion count");
}

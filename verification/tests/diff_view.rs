//! How the diff is drawn.
use branchdiff::app::App;
use branchdiff::app::ComparisonContext;
use branchdiff::app::DisplayableItem;
use branchdiff::app::Position;
use branchdiff::app::SearchMatch;
use branchdiff::app::SearchState;
use branchdiff::app::Selection;
use branchdiff::app::VcsBackend;
use branchdiff::app::ViewMode;
use branchdiff::app::ViewState;
use branchdiff::diff::DiffLine;
use branchdiff::diff::InlineSpan;
use branchdiff::diff::LineSource;
use branchdiff::image_diff::CachedImage;
use branchdiff::image_diff::FONT_HEIGHT_PX;
use branchdiff::image_diff::FONT_WIDTH_PX;
use branchdiff::image_diff::IMAGE_PANEL_OVERHEAD;
use branchdiff::image_diff::ImageCache;
use branchdiff::image_diff::ImageDiffState;
use branchdiff::image_diff::fit_dimensions_in_cells;
use branchdiff::style::Color;
use branchdiff::style::Line;
use branchdiff::style::Rect;
use branchdiff::style::Span;
use branchdiff::style::Style;
use branchdiff::syntax::SyntaxHighlighter;
use branchdiff::ui::ScreenFrame;
use branchdiff::ui::colors::line_style_with_highlight;
use branchdiff::ui::colors::search_current_bg;
use branchdiff::ui::colors::search_match_bg;
use branchdiff::ui::diff_view::DiffFrame;
use branchdiff::ui::diff_view::DiffViewModel;
use branchdiff::ui::diff_view::ImageRenderPosition;
use branchdiff::ui::diff_view::RenderOutput;
use branchdiff::ui::diff_view::apply_selection_to_content;
use branchdiff::ui::diff_view::image_area;
use branchdiff::ui::diff_view::render_images_at_positions;
use branchdiff::ui::draw_with_frame;
use branchdiff::ui::frame_areas;
use branchdiff::ui::image_view::calculate_image_height_for_images;
use branchdiff::ui::search::apply_search_to_content;
use branchdiff::ui::search::content_match_to_render_ranges;
use branchdiff::ui::search::render_search_bar;
use branchdiff::ui::selection::selection_bg_color;
use branchdiff::ui::spans::get_insertion_source;
use branchdiff::ui::status_bar::status_bar_height;
use image::DynamicImage;
use ratatui::buffer::Buffer;
use ratatui::buffer::Cell;
use ratatui::widgets::Widget;

fn rect(x: u16, y: u16, width: u16, height: u16) -> Rect {
    Rect { x, y, width, height }
}

fn base_line(content: &str) -> DiffLine {
    DiffLine::new(LineSource::Base, content.to_string(), ' ', None)
}

fn change_line(content: &str) -> DiffLine {
    DiffLine::new(LineSource::Committed, content.to_string(), '+', None)
}

fn app_of(lines: Vec<DiffLine>) -> App {
    App {
        repo_path: "/tmp/test".to_string(),
        comparison: ComparisonContext {
            from_label: "main".to_string(),
            to_label: "feature".to_string(),
            bookmark_name: None,
            stack_position: None,
            vcs_backend: VcsBackend::Git,
            upstream_files: None,
        },
        files: Vec::new(),
        lines,
        additions: 0,
        deletions: 0,
        scroll_percentage: 0,
        error: None,
        conflict_warning: None,
        performance_warning: None,
        search: None,
        image_cache: ImageCache::new(),
        font_size: (FONT_WIDTH_PX as u16, FONT_HEIGHT_PX as u16),
        show_copied_flash: false,
        view: ViewState {
            view_mode: ViewMode::Full,
            show_help: false,
            selection: None,
            row_map: Vec::new(),
            collapsed_files: Vec::new(),
            reviewed_files: Vec::new(),
            sub_row: 0,
        },
    }
}

fn no_search() -> SearchState {
    SearchState {
        query: String::new(),
        matches: Vec::new(),
        current: 0,
        visible_count: 0,
        input_active: true,
    }
}

/// The places where the text `query` stands in the lines.
fn matches_of(lines: &[DiffLine], query: &str) -> Vec<SearchMatch> {
    let mut out = Vec::new();
    for (line_idx, line) in lines.iter().enumerate() {
        for (at, _) in line.content.match_indices(query) {
            out.push(SearchMatch {
                line_idx,
                char_start: line.content[..at].chars().count(),
                char_len: query.chars().count(),
            });
        }
    }
    out
}

/// The lines from `first` on.
fn items_from(app: &App, first: usize) -> Vec<DisplayableItem> {
    (first..app.lines.len()).map(DisplayableItem::Line).collect()
}

fn all_items(app: &App) -> Vec<DisplayableItem> {
    items_from(app, 0)
}

/// Helper: render a DiffViewModel and return the RenderOutput.
fn render_to_output(app: &App, width: u16, height: u16) -> RenderOutput {
    render_with_items(app, all_items(app), width, height)
}

/// Helper: render with given items.
fn render_with_items(app: &App, items: Vec<DisplayableItem>, width: u16, height: u16) -> RenderOutput {
    let view_model = DiffViewModel::from_app(app, &items, rect(0, 0, width, height));
    view_model.render(&mut SyntaxHighlighter::new()).output
}

fn terminal_colour(color: Color) -> ratatui::style::Color {
    match color {
        Color::Rgb(r, g, b) => ratatui::style::Color::Rgb(r, g, b),
        Color::DarkGray => ratatui::style::Color::DarkGray,
        Color::Cyan => ratatui::style::Color::Cyan,
        Color::Black => ratatui::style::Color::Black,
        Color::White => ratatui::style::Color::White,
        _ => ratatui::style::Color::Reset,
    }
}

fn colour_of(cell: &Cell) -> Color {
    match cell.bg {
        ratatui::style::Color::Rgb(r, g, b) => Color::Rgb(r, g, b),
        _ => Color::Reset,
    }
}

fn terminal_line(line: &Line) -> ratatui::text::Line<'static> {
    let mut spans = Vec::new();
    for span in &line.spans {
        let mut style = ratatui::style::Style::default();
        if let Some(fg) = span.style.fg {
            style = style.fg(terminal_colour(fg));
        }
        if let Some(bg) = span.style.bg {
            style = style.bg(terminal_colour(bg));
        }
        spans.push(ratatui::text::Span::styled(span.content.clone(), style));
    }
    ratatui::text::Line::from(spans)
}

/// Draws the diff into a border.
fn paint(frame: &DiffFrame, area: Rect, buffer: &mut Buffer) {
    let lines: Vec<_> = frame.lines.iter().map(terminal_line).collect();
    let block = ratatui::widgets::Block::default()
        .borders(ratatui::widgets::Borders::ALL)
        .title(frame.title.content.clone());
    ratatui::widgets::Paragraph::new(lines).block(block).render(
        ratatui::layout::Rect::new(area.x, area.y, area.width, area.height),
        buffer,
    );
}

/// Draws all lines on an area of that size.
fn painted(app: &App, width: u16, height: u16) -> Buffer {
    let items = all_items(app);
    let area = rect(0, 0, width, height);
    let frame = DiffViewModel::from_app(app, &items, area).render(&mut SyntaxHighlighter::new());
    let mut buffer = Buffer::empty(ratatui::layout::Rect::new(0, 0, width, height));
    paint(&frame, area, &mut buffer);
    buffer
}

/// Draws the screen, scrolled down to the line `first`.
fn screen(app: &mut App, width: u16, height: u16, first: usize) -> (Buffer, ScreenFrame) {
    let items = items_from(app, first);
    let frame = draw_with_frame(app, rect(0, 0, width, height), &items, &mut SyntaxHighlighter::new());
    let mut buffer = Buffer::empty(ratatui::layout::Rect::new(0, 0, width, height));
    paint(&frame.diff, frame.areas.diff, &mut buffer);
    (buffer, frame)
}

/// Verify that Block border characters are intact in the rendered buffer.
fn verify_diff_area_borders(buffer: &Buffer, width: u16, diff_height: u16) {
    assert_eq!(buffer[(0, 0)].symbol(), "┌", "Top-left corner");
    assert_eq!(buffer[(width - 1, 0)].symbol(), "┐", "Top-right corner");

    for y in 1..diff_height.saturating_sub(1) {
        let left = buffer[(0, y)].symbol();
        let right = buffer[(width - 1, y)].symbol();
        assert_eq!(left, "│", "Row {} left border: expected │, got {:?}", y, left);
        assert_eq!(right, "│", "Row {} right border: expected │, got {:?}", y, right);
    }

    if diff_height > 1 {
        assert_eq!(buffer[(0, diff_height - 1)].symbol(), "└", "Bottom-left corner");
        assert_eq!(buffer[(width - 1, diff_height - 1)].symbol(), "┘", "Bottom-right corner");
    }
}

fn unchanged(text: &str) -> InlineSpan {
    InlineSpan { text: text.to_string(), source: None, is_deletion: false }
}

fn insertion(text: &str) -> InlineSpan {
    InlineSpan { text: text.to_string(), source: Some(LineSource::Committed), is_deletion: false }
}

fn deletion(text: &str) -> InlineSpan {
    InlineSpan { text: text.to_string(), source: Some(LineSource::Committed), is_deletion: true }
}

#[test]
fn test_content_width_stable_across_scroll() {
    let width: u16 = 80;
    let height: u16 = 8;

    // Two groups with different line-number widths. The first group is
    // larger than the viewport so the top window contains only small numbers.
    let mut lines = Vec::new();
    for n in 1..=15 {
        lines.push(DiffLine::new(LineSource::Base, format!("line {n}"), ' ', Some(n)));
    }
    for n in 1000..=1010 {
        lines.push(DiffLine::new(LineSource::Base, format!("line {n}"), ' ', Some(n)));
    }
    let app = app_of(lines);

    let top = render_with_items(&app, items_from(&app, 0), width, height).content_width;
    // Scroll so only the 4-digit-numbered lines are visible.
    let bottom = render_with_items(&app, items_from(&app, 16), width, height).content_width;

    assert_eq!(
        top, bottom,
        "content_width must not depend on which lines are currently visible \
         (the scroll engine assumes a stable per-line wrap height)"
    );
}

#[test]
fn test_diff_view_model_find_current_file_when_header_scrolled_above() {
    // Create two files: first.rs with 5 lines, then second.rs
    let mut lines = vec![DiffLine::file_header("first.rs")];
    for i in 0..5 {
        let mut line = base_line(&format!("line{}", i));
        line.file_path = Some("first.rs".to_string());
        lines.push(line);
    }
    lines.push(DiffLine::file_header("second.rs"));
    let mut line = base_line("second file content");
    line.file_path = Some("second.rs".to_string());
    lines.push(line);

    let app = app_of(lines);
    // Scroll down so first.rs header is above viewport but content is still visible
    let items = items_from(&app, 2);
    let area = rect(0, 0, 80, 24);

    let view_model = DiffViewModel::from_app(&app, &items, area);
    let current_file = view_model.find_current_file();

    // Should still show first.rs since its content is visible,
    // not second.rs just because its header is the first header in view
    assert_eq!(current_file, Some("first.rs".to_string()));
}

#[test]
fn test_diff_view_model_show_copied_flash() {
    let mut app = app_of(vec![DiffLine::file_header("test.rs")]);

    // Initially no flash
    let items = all_items(&app);
    let area = rect(0, 0, 80, 24);
    assert!(!DiffViewModel::from_app(&app, &items, area).show_copied_flash);

    // Something was copied
    app.show_copied_flash = true;
    assert!(DiffViewModel::from_app(&app, &items, area).show_copied_flash);

    // That was a while ago
    app.show_copied_flash = false;
    assert!(!DiffViewModel::from_app(&app, &items, area).show_copied_flash);
}

/// Renders the full diff view into a buffer of the terminal and verifies
/// that wrapped ASCII lines don't overwrite border characters.
#[test]
fn test_wrapped_ascii_lines_preserve_borders() {
    let width: u16 = 80;
    let height: u16 = 24;

    let long_content = "abcdefghij".repeat(20); // 200 ASCII chars — must wrap
    let mut lines = vec![DiffLine::file_header("test.swift")];
    for i in 1..=15 {
        let (source, prefix) = match i % 4 {
            0 => (LineSource::Base, ' '),
            1 => (LineSource::Committed, '+'),
            2 => (LineSource::Unstaged, '+'),
            _ => (LineSource::Staged, '+'),
        };
        let mut line = DiffLine::new(source, long_content.clone(), prefix, Some(i));
        line.file_path = Some("test.swift".to_string());
        lines.push(line);
    }

    let mut app = app_of(lines);

    // At the top, then scrolled down
    for scroll in [0, 10] {
        let (buffer, frame) = screen(&mut app, width, height, scroll);
        let status_h = status_bar_height(&app, width);
        let diff_h = height - status_h;
        verify_diff_area_borders(&buffer, width, diff_h);
        assert_eq!(frame.areas.diff, rect(0, 0, width, diff_h));
    }
}

/// Same test at narrower terminal width (40 cols) to stress wrapping
#[test]
fn test_wrapped_ascii_lines_preserve_borders_narrow_terminal() {
    let width: u16 = 40;
    let height: u16 = 30;

    let long_content = "the_quick_brown_fox_jumps_over_the_lazy_dog_".repeat(5);
    let mut lines = vec![DiffLine::file_header("narrow.rs")];
    for i in 1..=20 {
        let mut line = DiffLine::new(
            LineSource::Committed,
            long_content.clone(),
            '+',
            Some(i),
        );
        line.file_path = Some("narrow.rs".to_string());
        lines.push(line);
    }

    let mut app = app_of(lines);

    // Render multiple frames with different scroll positions
    for scroll in [0, 5, 15, 30] {
        let (buffer, _) = screen(&mut app, width, height, scroll);
        let status_h = status_bar_height(&app, width);
        let diff_h = height - status_h;
        verify_diff_area_borders(&buffer, width, diff_h);
    }
}

/// Test with canceled lines (± prefix) which have multi-byte prefix char
#[test]
fn test_wrapped_canceled_lines_preserve_borders() {
    let width: u16 = 80;
    let height: u16 = 24;

    let long_content = "canceled_content_".repeat(15);
    let mut lines = vec![DiffLine::file_header("cancel.rs")];
    for i in 1..=10 {
        let mut line = DiffLine::new(
            LineSource::CanceledCommitted,
            long_content.clone(),
            '±',
            Some(i),
        );
        line.file_path = Some("cancel.rs".to_string());
        lines.push(line);
    }

    let mut app = app_of(lines);

    let (buffer, _) = screen(&mut app, width, height, 0);
    let status_h = status_bar_height(&app, width);
    let diff_h = height - status_h;
    verify_diff_area_borders(&buffer, width, diff_h);
}

/// Test that ImageRenderPosition captures the correct expected_available_height
/// based on image dimensions, not viewport position.
#[test]
fn test_image_render_position_expected_height_invariant() {
    // Create image cache with a test image
    let mut app = app_of(vec![
        DiffLine::file_header("test.png"),
        DiffLine::image_marker("test.png"),
    ]);

    // Add image to cache
    let cached_image = CachedImage {
        display_image: DynamicImage::new_rgb8(400, 300),
        original_width: 400,
        original_height: 300,
        file_size: 50000,
        format_name: "PNG".to_string(),
    };
    app.image_cache.insert(
        "test.png".to_string(),
        ImageDiffState {
            before: None,
            after: Some(cached_image),
        },
    );

    // Calculate expected height from image dimensions
    let image_height = calculate_image_height_for_images(
        None,
        Some((400, 300)),
        100, // panel_width
        app.font_size,
    );
    let expected_available = image_height.saturating_sub(IMAGE_PANEL_OVERHEAD);

    // Render at different scroll positions
    for scroll in [0, 5, 10, 20] {
        let output = render_with_items(&app, items_from(&app, scroll), 100, 30);

        // If the image marker is visible, check its expected_available_height
        for pos in &output.image_positions {
            assert_eq!(
                pos.expected_available_height, expected_available,
                "At scroll_offset={}, expected_available_height should be {} \
                 (derived from image dimensions), got {}",
                scroll, expected_available, pos.expected_available_height
            );
        }
    }
    assert_eq!(render_to_output(&app, 100, 30).image_positions.len(), 1);
}

/// However the screen is divided, the parts lie inside it; where there is room, they fill it.
#[test]
fn test_parts_of_the_screen_fill_it() {
    for width in [1, 2, 39, 40, 80, 203] {
        for height in 0..60 {
            for has_warning in [false, true] {
                for status_height in [1, 2] {
                    let areas = frame_areas(rect(3, 5, width, height), has_warning, status_height);
                    let top = if has_warning { 1 } else { 0 };
                    assert!(areas.diff.y >= 5 && areas.diff.y + areas.diff.height <= 5 + height);
                    assert!(areas.status.y + areas.status.height <= 5 + height);
                    if height > top + status_height {
                        let rest = height - top - status_height;
                        assert_eq!(areas.diff, rect(3, 5 + top, width, rest));
                        assert_eq!(areas.status, rect(3, 5 + top + rest, width, status_height));
                        let banner = if has_warning { Some(rect(3, 5, width, 1)) } else { None };
                        assert_eq!(areas.warning, banner);
                    }
                }
            }
        }
    }
}

/// The rows behind those that are scrolled past are the rows that were there before.
#[test]
fn test_scrolled_rows_follow_the_first() {
    let mut line = change_line(&"word ".repeat(200));
    line.file_path = Some("a.rs".to_string());
    let mut app = app_of(vec![line]);
    let top = render_to_output(&app, 60, 20);
    for sub_row in 1..6 {
        app.view.sub_row = sub_row;
        let scrolled = render_to_output(&app, 60, 20);
        let count = top.row_map.len() - sub_row;
        for i in 0..count {
            assert_eq!(scrolled.row_map[i].content, top.row_map[i + sub_row].content);
        }
    }
}

#[test]
fn test_images_keep_inside_the_view() {
    let pos = ImageRenderPosition {
        file_path: "a.png".to_string(),
        start_row: 3,
        height: 12,
        expected_available_height: 7,
    };
    // Row 3 of the content is row 4 of the screen.
    assert_eq!(image_area(&pos, (1, 1), rect(0, 0, 80, 40)), Some(rect(1, 4, 78, 12)));
    assert_eq!(image_area(&pos, (1, 1), rect(0, 0, 80, 10)), Some(rect(1, 4, 78, 6)));
    assert_eq!(image_area(&pos, (1, 1), rect(0, 0, 80, 4)), None);
    assert_eq!(image_area(&pos, (1, u16::MAX), rect(0, 0, 80, 40)), None);
}

#[test]
fn test_images_are_drawn_where_they_are_kept() {
    let mut cache = ImageCache::new();
    cache.insert("a.png".to_string(), ImageDiffState { before: None, after: None });
    let position = |path: &str| ImageRenderPosition {
        file_path: path.to_string(),
        start_row: 0,
        height: 10,
        expected_available_height: 5,
    };
    let positions = vec![position("a.png"), position("b.png")];
    let area = rect(0, 0, 80, 24);
    let placed = render_images_at_positions(&mut cache, &positions, (1, 1), area, (8, 16));
    assert_eq!(placed.len(), 1);
    assert_eq!(placed[0].area, rect(1, 1, 78, 10));
}

#[test]
fn test_search_bar_tells_the_place_of_the_match() {
    let mut search = no_search();
    search.query = "needle".to_string();
    search.matches = vec![
        SearchMatch { line_idx: 0, char_start: 0, char_len: 6 },
        SearchMatch { line_idx: 4, char_start: 2, char_len: 6 },
    ];
    search.current = 1;
    search.visible_count = 2;
    search.input_active = false;
    assert_eq!(search.match_count(), 2);
    assert_eq!(search.current_display(), 2);
    let line = render_search_bar(&search, 60);
    let text: String = line.spans.iter().map(|s| s.content.as_str()).collect();
    assert!(text.contains("needle") && text.contains("2/2"), "got {text:?}");
}

#[test]
fn test_banner_is_drawn_over_the_diff() {
    let mut app = app_of(vec![base_line("content")]);
    app.conflict_warning = Some("Merge conflicts".to_string());
    app.view.show_help = true;
    let (_, frame) = screen(&mut app, 80, 24, 0);
    let text: String = frame.warning.unwrap().spans.iter().map(|s| s.content.clone()).collect();
    assert_eq!(text.trim(), "⚠ Merge conflicts");
    assert_eq!(frame.areas.warning, Some(rect(0, 0, 80, 1)));
    assert_eq!(frame.areas.diff.y, 1);
    assert!(frame.help.is_some());
    assert_eq!(app.view.row_map.len(), 1);
    app.error = Some("it broke".to_string());
    let (_, frame) = screen(&mut app, 80, 24, 0);
    let text: String = frame.warning.unwrap().spans.iter().map(|s| s.content.clone()).collect();
    assert!(text.contains("it broke"));
}

#[test]
fn test_diff_view_model_from_app() {
    let app = app_of(vec![DiffLine::file_header("test.rs"), base_line("content")]);
    let items = all_items(&app);
    let area = rect(0, 0, 80, 24);

    let view_model = DiffViewModel::from_app(&app, &items, area);

    assert_eq!(view_model.items.len(), 2);
    assert_eq!(view_model.lines.len(), 2);
    assert!(view_model.selection.is_none());
    assert!(view_model.collapsed_files.is_empty());
}

#[test]
fn test_huge_single_line_renders_bounded_rows() {
    let width: u16 = 80;
    let height: u16 = 24;

    let huge = "a".repeat(200_000);
    let mut line = DiffLine::new(LineSource::Committed, huge, '+', Some(1));
    line.file_path = Some("searchindex.js".to_string());
    let lines = vec![DiffLine::file_header("searchindex.js"), line];

    let app = app_of(lines);

    let row_map_len = render_to_output(&app, width, height).row_map.len();

    assert!(
        row_map_len <= height as usize,
        "huge line produced {} rows, expected <= viewport height {}",
        row_map_len,
        height
    );
}

#[test]
fn test_render_with_sub_row_starts_mid_line() {
    let width: u16 = 80;
    let height: u16 = 20;

    // Distinct cycling ASCII so each wrapped row's content is identifiable.
    let content: String = (0..5000).map(|i| (b'a' + (i % 26) as u8) as char).collect();
    let mut line = DiffLine::new(LineSource::Committed, content.clone(), '+', Some(1));
    line.file_path = Some("f.js".to_string());

    let mut app = app_of(vec![line]);
    let skip = 7;
    app.view.sub_row = skip;

    let out = render_to_output(&app, width, height);

    assert!(!out.row_map.is_empty());
    assert!(out.row_map.len() <= (height - 2) as usize);
    assert!(
        out.row_map[0].is_continuation,
        "top row is a mid-line continuation, not the logical line start"
    );
    let cw = out.content_width;
    let expected: String = content.chars().skip(skip * cw).take(cw).collect();
    assert_eq!(
        out.row_map[0].content, expected,
        "top visible row is the slice scrolled to"
    );
}

#[test]
fn test_render_deep_sub_row_stays_bounded() {
    let width: u16 = 80;
    let height: u16 = 20;

    let mut line =
        DiffLine::new(LineSource::Committed, "a".repeat(200_000), '+', Some(1));
    line.file_path = Some("bundle.js".to_string());
    let mut app = app_of(vec![line]);
    app.view.sub_row = 1000;

    let len = render_to_output(&app, width, height).row_map.len();

    assert!(
        len <= (height - 2) as usize,
        "deep mid-line scroll still renders only a viewport of rows"
    );
}

#[test]
fn test_diff_view_model_find_current_file() {
    let lines = vec![
        DiffLine::file_header("test.rs"),
        base_line("line1"),
        change_line("line2"),
    ];
    let app = app_of(lines);
    let items = all_items(&app);
    let area = rect(0, 0, 80, 24);

    let view_model = DiffViewModel::from_app(&app, &items, area);
    let current_file = view_model.find_current_file();

    assert_eq!(current_file, Some("test.rs".to_string()));
}

#[test]
fn test_diff_view_model_is_file_collapsed() {
    let mut app = app_of(vec![DiffLine::file_header("test.rs")]);
    app.view.collapsed_files.push("test.rs".to_string());

    let items = all_items(&app);
    let area = rect(0, 0, 80, 24);

    let view_model = DiffViewModel::from_app(&app, &items, area);
    assert!(view_model.is_file_collapsed("test.rs"));
    assert!(!view_model.is_file_collapsed("other.rs"));
}

#[test]
fn test_diff_view_model_with_selection() {
    let mut app = app_of(vec![base_line("selectable content")]);
    app.view.selection = Some(Selection {
        start: Position { row: 0, col: 5 },
        end: Position { row: 0, col: 15 },
        active: false,
    });

    let items = all_items(&app);
    let area = rect(0, 0, 80, 24);

    let view_model = DiffViewModel::from_app(&app, &items, area);
    assert!(view_model.selection.is_some());
}

#[test]
fn test_modified_base_line_uses_span_source_for_highlight() {
    // Create a modified base line: source=Base, but has inline spans with Unstaged source
    let mut line = DiffLine::new(LineSource::Base, "prefix inserted suffix".to_string(), ' ', Some(1));
    line.old_content = Some("prefix suffix".to_string());
    line.change_source = Some(LineSource::Unstaged);
    line.inline_spans = vec![
        InlineSpan { text: "prefix ".to_string(), source: None, is_deletion: false },
        InlineSpan { text: "inserted ".to_string(), source: Some(LineSource::Unstaged), is_deletion: false },
        InlineSpan { text: "suffix".to_string(), source: None, is_deletion: false },
    ];

    // The line's source is Base
    assert_eq!(line.source, LineSource::Base);

    // But the highlight source should come from the spans
    let highlight_source = get_insertion_source(&line.inline_spans);
    assert_eq!(highlight_source, LineSource::Unstaged,
        "Highlight source should be Unstaged (from spans), not Base (from line)");

    // And this should produce a visible highlight style
    let highlight_style = line_style_with_highlight(highlight_source);
    assert!(matches!(highlight_style.bg, Some(Color::Rgb(130, 130, 35))),
        "Highlight style should have visible yellow background");
}

#[test]
fn test_import_line_modification_highlight() {
    // This is the exact bug scenario:
    // Old: "    widgets::{Block, Borders, Paragraph},"
    // New: "    widgets::{Block, Borders, Clear, Paragraph},"
    // "Clear, " is inserted with source=Unstaged

    let inline_spans = vec![
        InlineSpan { text: "    widgets::{Block, Borders, ".to_string(), source: None, is_deletion: false },
        InlineSpan { text: "Clear, ".to_string(), source: Some(LineSource::Unstaged), is_deletion: false },
        InlineSpan { text: "Paragraph},".to_string(), source: None, is_deletion: false },
    ];

    // The line source would be Base (it's a modification of an existing base line)
    let line_source = LineSource::Base;

    // BUG: Using line_source for highlight gives no visible highlight
    let bug_highlight_style = line_style_with_highlight(line_source);
    assert_eq!(bug_highlight_style.bg, Some(Color::Reset),
        "Bug: using line source gives Reset background (invisible)");

    // FIX: Using the span's source gives visible highlight
    let fix_highlight_source = get_insertion_source(&inline_spans);
    assert_eq!(fix_highlight_source, LineSource::Unstaged);

    let fix_highlight_style = line_style_with_highlight(fix_highlight_source);
    assert_eq!(fix_highlight_style.bg, Some(Color::Rgb(130, 130, 35)),
        "Fix: using span source gives yellow background (visible)");
}

#[test]
fn test_diff_view_model_includes_image_cache() {
    let app = app_of(vec![DiffLine::file_header("test.rs")]);
    let items = all_items(&app);
    let area = rect(0, 0, 80, 24);

    let view_model = DiffViewModel::from_app(&app, &items, area);

    // Verify image_cache is included and accessible
    assert!(view_model.image_cache.is_empty());
}

#[test]
fn test_image_marker_rendering_without_cache_data() {
    // Create an image marker line
    let lines = vec![
        DiffLine::file_header("test.png"),
        DiffLine::image_marker("test.png"),
    ];

    let mut app = app_of(lines);

    let (buffer, _) = screen(&mut app, 80, 24, 0);

    // Check that the buffer contains the loading placeholder
    let buffer_content: String = (0..24)
        .flat_map(|y| (0..80).map(move |x| (x, y)))
        .map(|at| buffer[at].symbol())
        .collect();

    assert!(
        buffer_content.contains("loading"),
        "Should show 'loading...' when image not in cache"
    );
}

#[test]
fn test_image_positions_populated_without_protocols() {
    // Create an image marker line
    let lines = vec![
        DiffLine::file_header("test.png"),
        DiffLine::image_marker("test.png"),
    ];

    let mut app = app_of(lines);

    // Add image data to cache WITHOUT protocols (simulating picker not available during load)
    let cached_image = CachedImage {
        display_image: DynamicImage::new_rgb8(100, 100),
        original_width: 100,
        original_height: 100,
        file_size: 1024,
        format_name: "PNG".to_string(),
    };
    let state = ImageDiffState {
        before: Some(cached_image),
        after: None,
    };
    app.image_cache.insert("test.png".to_string(), state);

    // Render and check that image_positions is populated
    let items = all_items(&app);
    let area = rect(0, 0, 80, 40);
    let view_model = DiffViewModel::from_app(&app, &items, area);

    let output = view_model.render(&mut SyntaxHighlighter::new()).output;
    // Verify image_positions was populated even without protocols
    assert!(
        !output.image_positions.is_empty(),
        "image_positions should be populated when image data exists, even without protocols"
    );
    assert_eq!(output.image_positions[0].file_path, "test.png");
}

#[test]
fn test_image_render_position_fields() {
    let height = 12u16;
    let pos = ImageRenderPosition {
        file_path: "test/image.png".to_string(),
        start_row: 42,
        height,
        expected_available_height: height.saturating_sub(IMAGE_PANEL_OVERHEAD),
    };

    assert_eq!(pos.file_path, "test/image.png");
    assert_eq!(pos.start_row, 42);
    assert_eq!(pos.height, 12);
    assert_eq!(pos.expected_available_height, 7); // 12 - 5
}

#[test]
fn test_image_render_position_large_row_saturates() {
    // Test that large row values are handled (the actual saturation happens
    // in render_image_marker, but we verify the struct can hold max values)
    let height = 12u16;
    let pos = ImageRenderPosition {
        file_path: "large.png".to_string(),
        start_row: u16::MAX,
        height,
        expected_available_height: height.saturating_sub(IMAGE_PANEL_OVERHEAD),
    };

    assert_eq!(pos.start_row, u16::MAX);
}

#[test]
fn test_render_output_includes_image_positions() {
    let height = 12u16;
    let output = RenderOutput {
        row_map: Vec::new(),
        content_offset: (0, 0),
        line_num_width: 0,
        content_width: 80,
        image_positions: vec![
            ImageRenderPosition {
                file_path: "a.png".to_string(),
                start_row: 5,
                height,
                expected_available_height: height.saturating_sub(IMAGE_PANEL_OVERHEAD),
            },
            ImageRenderPosition {
                file_path: "b.png".to_string(),
                start_row: 20,
                height,
                expected_available_height: height.saturating_sub(IMAGE_PANEL_OVERHEAD),
            },
        ],
    };

    assert_eq!(output.image_positions.len(), 2);
    assert_eq!(output.image_positions[0].file_path, "a.png");
    assert_eq!(output.image_positions[1].start_row, 20);
}

#[test]
fn test_image_clipping_calculation() {
    // Test the clipping logic used in render_images_at_positions
    // Simulating: viewport_bottom = 100, image_y = 95, pos.height = 12
    let viewport_bottom: u16 = 100;
    let image_y: u16 = 95;
    let pos_height: u16 = 12;

    let available_height = viewport_bottom.saturating_sub(image_y);
    let clamped_height = pos_height.min(available_height);

    // Image extends from 95 to 107, but viewport ends at 100
    // So available is 5 rows, not 12
    assert_eq!(available_height, 5);
    assert_eq!(clamped_height, 5);
}

#[test]
fn test_image_entirely_below_viewport_skipped() {
    // Test the skip logic: image_y >= viewport_bottom should skip
    let viewport_bottom: u16 = 100;
    let image_y: u16 = 100; // Exactly at bottom

    let should_skip = image_y >= viewport_bottom;
    assert!(should_skip, "Image at viewport bottom should be skipped");

    let image_y_below: u16 = 150;
    let should_skip_below = image_y_below >= viewport_bottom;
    assert!(should_skip_below, "Image below viewport should be skipped");
}

#[test]
fn test_image_clipping_zero_available_height() {
    // Edge case: image starts exactly at viewport edge
    let viewport_bottom: u16 = 100;
    let image_y: u16 = 100;
    let pos_height: u16 = 12;

    let available_height = viewport_bottom.saturating_sub(image_y);
    assert_eq!(available_height, 0);

    // This should result in skipping (clamped_height == 0)
    let clamped_height = pos_height.min(available_height);
    assert_eq!(clamped_height, 0);
}

#[test]
fn test_partial_rendering_consistency() {
    // Simulate a 400x300 image in a 100-char wide panel
    let img_dims = Some((400u32, 300u32));
    let panel_width = 100u16;
    let font_size = (8u16, 16u16);

    // Calculate the image height (this is what render_image_marker does)
    let image_height =
        calculate_image_height_for_images(img_dims, None, panel_width, font_size);
    let expected_available = image_height.saturating_sub(IMAGE_PANEL_OVERHEAD);

    // Simulate different viewport clipping scenarios
    // The key invariant: expected_available_height is always the same
    let viewport_scenarios = [
        ("fully visible", image_height),       // Image fully in viewport
        ("90% visible", image_height - 2),     // Top 2 rows clipped
        ("50% visible", image_height / 2),     // Half the image visible
        ("barely visible", 3u16),              // Only 3 rows visible
        ("just entering", 1u16),               // Just 1 row visible
    ];

    for (scenario, clamped_height) in viewport_scenarios {
        // In render_images_at_positions, the area passed to render_image_diff
        // has clamped_height, but expected_available_height is unchanged
        let pos = ImageRenderPosition {
            file_path: "test.png".to_string(),
            start_row: 0,
            height: image_height,
            expected_available_height: expected_available,
        };

        // The expected_available_height should be the same regardless of clipping
        assert_eq!(
            pos.expected_available_height, expected_available,
            "Scenario '{}': expected_available_height should be {} (from full image height {}), \
             not derived from clamped_height {}",
            scenario, expected_available, image_height, clamped_height
        );
    }
}

#[test]
fn test_fit_dimensions_consistency_across_viewports() {
    // Test with a real image scenario
    let img_w = 800u32;
    let img_h = 600u32;
    let panel_width = 120u16;
    let font_size = (8u16, 16u16);

    // Calculate the full image height
    let full_height = calculate_image_height_for_images(
        Some((img_w, img_h)),
        None,
        panel_width,
        font_size,
    );
    let expected_available = full_height.saturating_sub(IMAGE_PANEL_OVERHEAD);

    // Calculate display dimensions using expected_available_height (correct)
    let inner_width = (panel_width.saturating_sub(4)) / 2; // Half panel minus borders
    let (expected_w, expected_h) =
        fit_dimensions_in_cells(img_w, img_h, inner_width, expected_available, font_size);

    // Now simulate what would happen if we incorrectly used clamped heights
    let clamped_heights = [
        expected_available,     // Full view
        expected_available - 5, // Partial view
        expected_available / 2, // Half view
        5u16,                   // Minimal view
    ];

    for clamped in clamped_heights {
        // Using expected_available (correct) should always produce the same dimensions
        let (w, h) =
            fit_dimensions_in_cells(img_w, img_h, inner_width, expected_available, font_size);
        assert_eq!(
            (w, h),
            (expected_w, expected_h),
            "fit_dimensions with expected_available should always produce ({}, {})",
            expected_w,
            expected_h
        );

        // Using clamped height (incorrect) would produce different dimensions
        // when clamped < expected_available
        if clamped < expected_available {
            let (clamped_w, _clamped_h) =
                fit_dimensions_in_cells(img_w, img_h, inner_width, clamped, font_size);
            // This demonstrates why we pass expected_available_height:
            // clamped dimensions would be smaller, causing the image to "jump"
            assert!(
                clamped_w <= expected_w,
                "Clamped height {} would produce width {} <= expected width {}",
                clamped,
                clamped_w,
                expected_w
            );
        }
    }
}

#[test]
fn test_render_plain_content_populates_row_map() {
    let mut lines = vec![DiffLine::file_header("test.rs")];
    for i in 1..=3 {
        let mut line = base_line(&format!("line {}", i));
        line.line_number = Some(i);
        line.file_path = Some("test.rs".to_string());
        lines.push(line);
    }

    let app = app_of(lines);

    let output = render_to_output(&app, 80, 24);

    assert_eq!(output.row_map.len(), 4, "1 header + 3 content lines");
    assert!(output.row_map[0].is_file_header);
    assert_eq!(output.row_map[0].file_path.as_deref(), Some("test.rs"));

    for i in 1..=3 {
        assert!(!output.row_map[i].is_file_header);
        assert_eq!(output.row_map[i].content, format!("line {}", i));
        assert!(!output.row_map[i].is_continuation);
    }

    assert!(output.line_num_width > 0);
}

#[test]
fn test_render_elided_marker_row_map() {
    let app = app_of(vec![base_line("placeholder")]);

    let items = vec![DisplayableItem::Elided(42)];
    let output = render_with_items(&app, items, 80, 24);

    assert_eq!(output.row_map.len(), 1);
    assert_eq!(output.row_map[0].content, "42 lines hidden");
    assert!(!output.row_map[0].is_file_header);
    assert!(!output.row_map[0].is_continuation);
}

#[test]
fn test_render_inline_spans_pure_deletion_splits_into_two_rows() {
    // PureDeletion: deletion spans exist, no insertion spans (unchanged has source: None)
    let mut line = DiffLine::new(
        LineSource::Committed,
        "kept text".to_string(),
        '+',
        Some(1),
    );
    line.file_path = Some("test.rs".to_string());
    line.old_content = Some("deleted prefix kept text".to_string());
    line.change_source = Some(LineSource::Committed);
    line.inline_spans = vec![
        InlineSpan { text: "deleted prefix ".to_string(), source: Some(LineSource::Committed), is_deletion: true },
        InlineSpan { text: "kept text".to_string(), source: None, is_deletion: false },
    ];

    let app = app_of(vec![DiffLine::file_header("test.rs"), line]);

    let output = render_to_output(&app, 80, 24);

    // Header + at least 2 rows (del + ins) for the split inline line
    assert!(
        output.row_map.len() >= 3,
        "Expected header + del + ins rows, got {} rows",
        output.row_map.len()
    );
}

#[test]
fn test_render_inline_spans_fits_single_row() {
    let mut line = DiffLine::new(
        LineSource::Committed,
        "prefix inserted suffix".to_string(),
        '+',
        Some(1),
    );
    line.file_path = Some("test.rs".to_string());
    line.inline_spans = vec![
        InlineSpan { text: "prefix ".to_string(), source: None, is_deletion: false },
        InlineSpan { text: "inserted ".to_string(), source: Some(LineSource::Committed), is_deletion: false },
        InlineSpan { text: "suffix".to_string(), source: None, is_deletion: false },
    ];

    let app = app_of(vec![DiffLine::file_header("test.rs"), line]);

    let output = render_to_output(&app, 80, 24);

    // Header + exactly 1 row for the short inline line
    assert_eq!(output.row_map.len(), 2, "header + 1 content row");
    assert!(!output.row_map[1].is_file_header);
    assert!(!output.row_map[1].is_continuation);
}

#[test]
fn test_render_plain_content_wrapping_sets_continuation() {
    let long_content = "x".repeat(200);
    let mut line = base_line(&long_content);
    line.line_number = Some(1);
    line.file_path = Some("test.rs".to_string());

    let app = app_of(vec![DiffLine::file_header("test.rs"), line]);

    let output = render_to_output(&app, 40, 24);

    // Skip header row, check content rows
    let content_rows: Vec<_> = output.row_map.iter().skip(1).collect();
    assert!(content_rows.len() > 1, "line should wrap at 40 cols");
    assert!(!content_rows[0].is_continuation, "first row is not a continuation");
    for row in &content_rows[1..] {
        assert!(row.is_continuation, "wrapped rows should be continuations");
    }
}

#[test]
fn test_render_title_shows_current_file() {
    let mut line = base_line("content");
    line.file_path = Some("src/main.rs".to_string());

    let app = app_of(vec![DiffLine::file_header("src/main.rs"), line]);

    let buffer = painted(&app, 80, 24);

    let top_row: String = (0..80)
        .map(|x| buffer[(x, 0)].symbol().to_string())
        .collect();
    assert!(top_row.contains("src/main.rs"), "title should show current file, got: {}", top_row);
}

#[test]
fn test_render_title_shows_branchdiff_fallback() {
    let app = app_of(vec![base_line("no file path")]);

    let buffer = painted(&app, 80, 24);

    let top_row: String = (0..80)
        .map(|x| buffer[(x, 0)].symbol().to_string())
        .collect();
    assert!(top_row.contains("branchdiff"), "title should show fallback, got: {}", top_row);
}

#[test]
fn test_apply_selection_with_active_selection() {
    let spans = vec![Span::raw("hello world".to_string())];
    let selection = Some(Selection {
        start: Position { row: 0, col: 6 },
        end: Position { row: 0, col: 11 },
        active: false,
    });

    let result = apply_selection_to_content(spans, &selection, 0, 0);
    assert!(result.len() > 1, "selection should split the span");
    assert!(
        result.iter().any(|s| s.style.bg == Some(selection_bg_color())),
        "at least one span should have selection background"
    );
}

#[test]
fn test_apply_selection_on_different_row() {
    let spans = vec![Span::raw("hello world".to_string())];
    let selection = Some(Selection {
        start: Position { row: 5, col: 0 },
        end: Position { row: 5, col: 10 },
        active: false,
    });

    let result = apply_selection_to_content(spans, &selection, 0, 0);
    assert_eq!(result.len(), 1, "selection on different row should not split");
}

#[test]
fn test_line_num_width_scales_with_max_line_number() {
    // 3-digit line numbers
    let mut lines = vec![DiffLine::file_header("test.rs")];
    let mut line = base_line("content");
    line.line_number = Some(999);
    line.file_path = Some("test.rs".to_string());
    lines.push(line);

    let app = app_of(lines);
    let output = render_to_output(&app, 80, 24);
    assert_eq!(output.line_num_width, 4, "999 = 3 digits + 1 space");

    // 1-digit line numbers
    let mut lines = vec![DiffLine::file_header("test.rs")];
    let mut line = base_line("content");
    line.line_number = Some(9);
    line.file_path = Some("test.rs".to_string());
    lines.push(line);

    let app = app_of(lines);
    let output = render_to_output(&app, 80, 24);
    assert_eq!(output.line_num_width, 2, "9 = 1 digit + 1 space");

    // No line numbers
    let app = app_of(vec![DiffLine::file_header("test.rs")]);
    let output = render_to_output(&app, 80, 24);
    assert_eq!(output.line_num_width, 0, "no line numbers = 0 width");
}

#[test]
fn search_highlight_no_search_returns_original() {
    let spans = vec![Span::styled("hello world".to_string(), Style::default())];
    let result = apply_search_to_content(spans.clone(), &None, 0);
    assert_eq!(result.len(), 1);
    assert_eq!(result[0].content, "hello world");
}

#[test]
fn search_highlight_no_matches_on_line() {
    let search = SearchState {
        matches: vec![SearchMatch { line_idx: 5, char_start: 0, char_len: 3 }],
        current: 0,
        ..no_search()
    };
    let spans = vec![Span::styled("hello".to_string(), Style::default())];
    let result = apply_search_to_content(spans, &Some(search), 0);
    assert_eq!(result.len(), 1);
    assert_eq!(result[0].content, "hello");
}

#[test]
fn search_highlight_single_match() {
    let search = SearchState {
        matches: vec![SearchMatch { line_idx: 0, char_start: 6, char_len: 5 }],
        current: 0,
        ..no_search()
    };
    let spans = vec![Span::styled("hello world".to_string(), Style::default())];
    let result = apply_search_to_content(spans, &Some(search), 0);
    assert_eq!(result.len(), 2);
    assert_eq!(result[0].content, "hello ");
    assert_eq!(result[1].content, "world");
    assert_eq!(result[1].style.bg, Some(search_current_bg()));
}

#[test]
fn search_highlight_non_current_match_uses_match_bg() {
    let search = SearchState {
        matches: vec![
            SearchMatch { line_idx: 0, char_start: 0, char_len: 5 },
            SearchMatch { line_idx: 1, char_start: 0, char_len: 5 },
        ],
        current: 1, // Current is on line 1, not line 0
        ..no_search()
    };
    let spans = vec![Span::styled("hello world".to_string(), Style::default())];
    let result = apply_search_to_content(spans, &Some(search), 0);
    assert_eq!(result[0].content, "hello");
    assert_eq!(result[0].style.bg, Some(search_match_bg()));
}

#[test]
fn search_highlight_multiple_matches_same_line() {
    let search = SearchState {
        matches: vec![
            SearchMatch { line_idx: 0, char_start: 0, char_len: 2 },
            SearchMatch { line_idx: 0, char_start: 4, char_len: 2 },
        ],
        current: 0,
        ..no_search()
    };
    let spans = vec![Span::styled("ab cd ef".to_string(), Style::default())];
    let result = apply_search_to_content(spans, &Some(search), 0);
    let highlighted: Vec<_> = result.iter().filter(|s| s.style.bg.is_some()).collect();
    assert_eq!(highlighted.len(), 2);
}

#[test]
fn search_highlight_multibyte_unicode() {
    let search = SearchState {
        matches: vec![SearchMatch { line_idx: 0, char_start: 5, char_len: 6 }],
        current: 0,
        ..no_search()
    };
    let spans = vec![Span::styled("café résumé".to_string(), Style::default())];
    let result = apply_search_to_content(spans, &Some(search), 0);
    assert_eq!(result.len(), 2);
    assert_eq!(result[0].content, "café ");
    assert_eq!(result[1].content, "résumé");
    assert_eq!(result[1].style.bg, Some(search_current_bg()));
}

#[test]
fn selection_on_wrapped_continuation_row_is_highlighted() {
    // Create a line long enough to wrap to 3 rows at width 60.
    // With prefix ~6 chars, content_width ~54, so 162 chars wraps to 3 rows.
    let long_content = "x".repeat(162);
    let mut lines = vec![DiffLine::file_header("test.rb")];
    let mut line = base_line(&long_content);
    line.line_number = Some(22);
    line.file_path = Some("test.rb".to_string());
    lines.push(line);

    let width: u16 = 60;
    let height: u16 = 10;

    // First render without selection to find row_map layout
    let mut app = app_of(lines);
    let output = render_to_output(&app, width, height);

    // Verify wrapping produced continuation rows
    let continuation_count = output.row_map.iter().filter(|r| r.is_continuation).count();
    assert!(
        continuation_count >= 2,
        "expected at least 2 continuation rows, got {}. row_map len = {}, rows: {:?}",
        continuation_count,
        output.row_map.len(),
        output.row_map.iter().map(|r| (r.is_continuation, r.content.len())).collect::<Vec<_>>()
    );

    // The content row starts at row_map index 1 (after the file header).
    // The middle continuation row is at index 2.
    let middle_row_idx = 2;
    assert!(
        output.row_map[middle_row_idx].is_continuation,
        "row {} should be a continuation row",
        middle_row_idx
    );

    // Set selection spanning the entire middle continuation row.
    // content_offset is (1,1) inside the border, so screen
    // row = row_map_idx + offset_y = middle_row_idx + 1. Selection
    // coords are in content space (row_map indices), so use middle_row_idx directly.
    app.view.selection = Some(Selection {
        start: Position { row: middle_row_idx, col: 0 },
        end: Position { row: middle_row_idx, col: width as usize },
        active: false,
    });

    // Re-render with the selection active
    let buf = painted(&app, width, height);

    // The middle continuation row renders at screen_y = content_offset.y + middle_row_idx
    let screen_y = 1 + middle_row_idx as u16;

    // Check that at least one cell on the continuation row has the selection bg color
    let has_selection_bg = (0..width).any(|x| colour_of(&buf[(x, screen_y)]) == selection_bg_color());
    assert!(
        has_selection_bg,
        "middle continuation row (screen_y={}) should have selection highlighting, \
         but no cells had bg color {:?}. Cell bgs: {:?}",
        screen_y,
        selection_bg_color(),
        (0..width).map(|x| colour_of(&buf[(x, screen_y)])).collect::<Vec<_>>()
    );
}

#[test]
fn selection_spanning_all_wrapped_rows_highlights_every_row() {
    let long_content = "y".repeat(162);
    let mut lines = vec![DiffLine::file_header("test.rb")];
    let mut line = base_line(&long_content);
    line.line_number = Some(10);
    line.file_path = Some("test.rb".to_string());
    lines.push(line);

    let width: u16 = 60;
    let height: u16 = 10;

    let mut app = app_of(lines);
    let output = render_to_output(&app, width, height);

    // Find all rows belonging to the wrapped content line (index 1 onward)
    let first_content_row = 1;
    let last_content_row = output.row_map.len() - 1;
    assert!(last_content_row >= first_content_row + 2, "need at least 3 rows");

    // Select across all wrapped rows
    app.view.selection = Some(Selection {
        start: Position { row: first_content_row, col: 0 },
        end: Position { row: last_content_row, col: width as usize },
        active: false,
    });

    let buf = painted(&app, width, height);

    let offset_y = 1;

    for row_idx in first_content_row..=last_content_row {
        let screen_y = offset_y + row_idx as u16;
        let has_selection_bg = (0..width).any(|x| colour_of(&buf[(x, screen_y)]) == selection_bg_color());
        assert!(
            has_selection_bg,
            "row_map[{}] (screen_y={}, continuation={}) should have selection bg",
            row_idx,
            screen_y,
            output.row_map[row_idx].is_continuation
        );
    }
}

#[test]
fn search_does_not_highlight_deletion_side_of_split_modification() {
    // PureDeletion always splits regardless of width.
    //   old_content = "abc deleted XX def"  (chars 4-5 = "de" inside "deleted")
    //   content     = "abc XX def"          (chars 4-5 = "XX")
    // Searching "XX" finds it at chars 4-5 in `content`. The bug applies
    // those offsets to the deletion render, lighting up "de" of "deleted".
    let mut line = DiffLine::new(
        LineSource::Committed,
        "abc XX def".to_string(),
        '+',
        Some(1),
    );
    line.file_path = Some("test.rs".to_string());
    line.old_content = Some("abc deleted XX def".to_string());
    line.change_source = Some(LineSource::Committed);
    line.inline_spans = vec![
        InlineSpan { text: "abc ".to_string(), source: None, is_deletion: false },
        InlineSpan { text: "deleted ".to_string(), source: Some(LineSource::Committed), is_deletion: true },
        InlineSpan { text: "XX def".to_string(), source: None, is_deletion: false },
    ];

    let mut app = app_of(vec![DiffLine::file_header("test.rs"), line]);

    let mut s = no_search();
    s.query = "XX".to_string();
    s.input_active = false;
    s.matches = matches_of(&app.lines, "XX");
    s.current = 0;
    app.search = Some(s);

    let width: u16 = 80;
    let height: u16 = 10;

    let buf = painted(&app, width, height);

    // Layout: file header at row 0, deletion row at 1, insertion row at 2.
    let offset_y = 1;
    let del_y = offset_y + 1;
    let ins_y = offset_y + 2;

    let count_search_cells = |y: u16| -> usize {
        (0..width)
            .filter(|&x| {
                let bg = colour_of(&buf[(x, y)]);
                bg == search_current_bg() || bg == search_match_bg()
            })
            .count()
    };

    // Sanity check: the insertion (green) row must highlight "XX".
    assert!(
        count_search_cells(ins_y) >= 2,
        "insertion row should have ≥2 search-bg cells (for 'XX'), got {}",
        count_search_cells(ins_y)
    );

    // Bug repro: the deletion (red) row must have NO search highlights.
    let del_hits: Vec<u16> = (0..width)
        .filter(|&x| {
            let bg = colour_of(&buf[(x, del_y)]);
            bg == search_current_bg() || bg == search_match_bg()
        })
        .collect();
    assert!(
        del_hits.is_empty(),
        "deletion row must not show search highlight (search matches refer \
         to new content), but cells {:?} have search bg",
        del_hits
    );
}

#[test]
fn empty_range_yields_nothing() {
    let spans = vec![unchanged("hello")];
    assert!(content_match_to_render_ranges(&spans, 3, 3).is_empty());
    assert!(content_match_to_render_ranges(&spans, 5, 2).is_empty());
}

#[test]
fn no_deletions_is_identity() {
    // content = "hello world" (rendered identically)
    let spans = vec![unchanged("hello "), insertion("world")];
    assert_eq!(
        content_match_to_render_ranges(&spans, 6, 11),
        vec![(6, 11)]
    );
    assert_eq!(
        content_match_to_render_ranges(&spans, 0, 5),
        vec![(0, 5)]
    );
}

#[test]
fn deletion_before_match_shifts_render_position() {
    // inline rendered: "DEL" + "abc"  → "DELabc"  (6 chars)
    // content        :         "abc"  → "abc"     (3 chars)
    // match content [0, 3) → render [3, 6)
    let spans = vec![deletion("DEL"), insertion("abc")];
    assert_eq!(
        content_match_to_render_ranges(&spans, 0, 3),
        vec![(3, 6)]
    );
}

#[test]
fn deletion_after_match_does_not_shift() {
    // rendered: "abc" + "DEL"  → "abcDEL"
    // content : "abc"          → "abc"
    // match [0, 3) → render [0, 3)
    let spans = vec![insertion("abc"), deletion("DEL")];
    assert_eq!(
        content_match_to_render_ranges(&spans, 0, 3),
        vec![(0, 3)]
    );
}

#[test]
fn match_split_across_interior_deletion_yields_two_ranges() {
    // rendered: "ab" + "DEL" + "cd"  → "abDELcd"  (7 chars)
    // content : "ab" +         "cd"  → "abcd"     (4 chars)
    // match content [0, 4) → render [0, 2) + [5, 7)
    let spans = vec![unchanged("ab"), deletion("DEL"), insertion("cd")];
    assert_eq!(
        content_match_to_render_ranges(&spans, 0, 4),
        vec![(0, 2), (5, 7)]
    );
}

#[test]
fn match_inside_a_single_unchanged_span_is_translated() {
    // rendered: "DEL" + "hello"   → "DELhello"
    // content :         "hello"   → "hello"
    // match content [1, 4) ("ell") → render [4, 7)
    let spans = vec![deletion("DEL"), unchanged("hello")];
    assert_eq!(
        content_match_to_render_ranges(&spans, 1, 4),
        vec![(4, 7)]
    );
}

#[test]
fn adjacent_non_deletion_spans_coalesce_into_single_range() {
    // rendered: "ab" + "cd"  → "abcd"   (no deletions)
    // match across both → one coalesced range
    let spans = vec![unchanged("ab"), insertion("cd")];
    assert_eq!(
        content_match_to_render_ranges(&spans, 1, 3),
        vec![(1, 3)]
    );
}

#[test]
fn multiple_deletions_accumulate_render_shift() {
    // rendered: "D1" + "ab" + "D2" + "cd"  → "D1abD2cd"  (8 chars)
    // content :         "ab" +         "cd"  → "abcd"     (4 chars)
    // match content [2, 4) ("cd") → render [6, 8)
    let spans = vec![deletion("D1"), unchanged("ab"), deletion("D2"), insertion("cd")];
    assert_eq!(
        content_match_to_render_ranges(&spans, 2, 4),
        vec![(6, 8)]
    );
}

#[test]
fn match_outside_content_yields_nothing() {
    let spans = vec![unchanged("ab")];
    assert!(content_match_to_render_ranges(&spans, 5, 7).is_empty());
}

#[test]
fn multibyte_chars_use_char_count_not_byte_count() {
    // "café" is 4 chars but 5 bytes
    let spans = vec![deletion("café"), insertion("ok")];
    // rendered "caféok" (6 chars), content "ok" (2 chars)
    // match [0, 2) → render [4, 6)
    assert_eq!(
        content_match_to_render_ranges(&spans, 0, 2),
        vec![(4, 6)]
    );
}

#[test]
fn search_highlight_aligned_on_inline_mixed_render() {
    // Mixed change, fits within terminal width → does not split.
    // inline_spans render as: "ab" + "DEL" + "cd ZZ ef"
    // content (new):           "ab" +         "cd ZZ ef"  → "abcd ZZ ef"
    // Search "ZZ" matches content chars 5-6. Without translation, the
    // bug would highlight chars 5-6 of rendered "abDELcd ZZ ef" = "cd".
    let mut line = DiffLine::new(
        LineSource::Committed,
        "abcd ZZ ef".to_string(),
        ' ',
        Some(1),
    );
    line.file_path = Some("test.rs".to_string());
    line.old_content = Some("abDEL ef".to_string());
    line.change_source = Some(LineSource::Committed);
    line.inline_spans = vec![
        InlineSpan { text: "ab".to_string(), source: None, is_deletion: false },
        InlineSpan { text: "DEL".to_string(), source: Some(LineSource::Committed), is_deletion: true },
        InlineSpan { text: "cd ZZ ef".to_string(), source: Some(LineSource::Committed), is_deletion: false },
    ];

    let mut app = app_of(vec![DiffLine::file_header("test.rs"), line]);

    let mut s = no_search();
    s.query = "ZZ".to_string();
    s.input_active = false;
    s.matches = matches_of(&app.lines, "ZZ");
    s.current = 0;
    app.search = Some(s);

    let width: u16 = 80;
    let height: u16 = 10;

    let buf = painted(&app, width, height);

    let offset_y = 1;
    let row_y = offset_y + 1;

    let highlighted: String = (0..width)
        .filter_map(|x| {
            let cell = &buf[(x, row_y)];
            if colour_of(cell) == search_current_bg() || colour_of(cell) == search_match_bg() {
                Some(cell.symbol().to_string())
            } else {
                None
            }
        })
        .collect();

    assert_eq!(
        highlighted, "ZZ",
        "search highlight on inline-mixed line should cover exactly 'ZZ'; \
         got {:?}",
        highlighted
    );
}

#[test]
fn search_highlight_split_by_interior_deletion_yields_two_regions() {
    // rendered: "ab" + "DEL" + "cd"  → "abDELcd"
    // content :  "ab" +        "cd"  → "abcd"
    // search "abcd" matches all of content; should highlight render
    // ranges [0, 2) ("ab") and [5, 7) ("cd"), skipping "DEL".
    let mut line = DiffLine::new(
        LineSource::Committed,
        "abcd".to_string(),
        ' ',
        Some(1),
    );
    line.file_path = Some("test.rs".to_string());
    line.old_content = Some("abDEL".to_string());
    line.change_source = Some(LineSource::Committed);
    line.inline_spans = vec![
        InlineSpan { text: "ab".to_string(), source: None, is_deletion: false },
        InlineSpan { text: "DEL".to_string(), source: Some(LineSource::Committed), is_deletion: true },
        InlineSpan { text: "cd".to_string(), source: Some(LineSource::Committed), is_deletion: false },
    ];

    let mut app = app_of(vec![DiffLine::file_header("test.rs"), line]);

    let mut s = no_search();
    s.query = "abcd".to_string();
    s.input_active = false;
    s.matches = matches_of(&app.lines, "abcd");
    s.current = 0;
    app.search = Some(s);

    let width: u16 = 80;
    let height: u16 = 10;

    let buf = painted(&app, width, height);

    let offset_y = 1;
    let row_y = offset_y + 1;

    // Collect highlighted symbols in render order.
    let highlighted: String = (0..width)
        .filter_map(|x| {
            let cell = &buf[(x, row_y)];
            if colour_of(cell) == search_current_bg() || colour_of(cell) == search_match_bg() {
                Some(cell.symbol().to_string())
            } else {
                None
            }
        })
        .collect();

    // "ab" + "cd" — DEL must NOT be highlighted between them.
    assert_eq!(
        highlighted, "abcd",
        "match straddling deletion should highlight only the matched \
         characters, not the interleaved deletion text; got {:?}",
        highlighted
    );
}

#[test]
fn test_moved_lines_have_a_mark_of_their_own() {
    let mut moved = change_line("fn a() {}");
    moved.move_target = Some(3);
    let app = app_of(vec![moved, change_line("fn b() {}")]);
    let items = all_items(&app);
    let model = DiffViewModel::from_app(&app, &items, rect(0, 0, 80, 24));
    for source in [LineSource::Committed, LineSource::Staged, LineSource::DeletedBase] {
        assert_eq!(model.line_prefix(&app.lines[0], '+', source), "M M ");
    }
    assert_eq!(model.line_prefix(&app.lines[1], '+', LineSource::Committed), "+ C ");
}

#[test]
fn test_screen_is_divided() {
    let mut app = app_of(vec![change_line("fn a() {}")]);
    app.conflict_warning = Some("Merge conflicts".to_string());
    let items = all_items(&app);
    let size = rect(2, 3, 120, 30);
    let screen = draw_with_frame(&mut app, size, &items, &mut SyntaxHighlighter::new());
    let bottom = screen.areas.status.height;
    assert_eq!(screen.areas.warning, Some(rect(2, 3, 120, 1)));
    assert_eq!(screen.areas.diff, rect(2, 4, 120, 29 - bottom));
    assert_eq!(screen.areas.status, rect(2, 33 - bottom, 120, bottom));
}

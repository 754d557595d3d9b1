//! The rows of the diff: what each item of it is drawn as, and what the rows then show.
use vstd::prelude::*;
use vstd::string::*;

use crate::app::App;
use crate::app::DisplayableItem;
use crate::app::SearchState;
use crate::app::Selection;
use crate::app::VcsBackend;
use crate::app::ViewState;
use crate::diff::largest_line_number;
use crate::diff::largest_number;
use crate::diff::DiffLine;
use crate::diff::DiffLineView;
use crate::diff::LineSource;
use crate::image_diff::CachedImage;
use crate::image_diff::CachedImageView;
use crate::image_diff::IMAGE_PANEL_OVERHEAD;
use crate::image_diff::ImageCache;
use crate::image_diff::ImageDiffState;
use crate::image_diff::ImageDiffStateView;
use crate::image_diff::KeptView;
use crate::image_diff::keeps;
use crate::image_diff::position_of;
use crate::image_diff::used;
use crate::style::Color;
use crate::style::Line;
use crate::style::Rect;
use crate::style::Span;
use crate::style::SpanView;
use crate::style::Style;
use crate::style::copy_styled;
use crate::style::plain_style;
use crate::style::raw;
use crate::style::styled;
use crate::syntax::StreamView;
use crate::syntax::SyntaxHighlighter;
use crate::syntax::reset_highlight_state;
use crate::text::align_right;
use crate::text::among;
use crate::text::copies;
use crate::text::copy_text;
use crate::text::decimal;
use crate::text::lemma_decimal_is_short;
use crate::text::number;
use crate::text::repeat_char;
use crate::text::right_aligned;
use crate::text::text_ref;
use crate::ui::PREFIX_CHAR_WIDTH;
use crate::ui::ScreenRowInfo;
use crate::ui::ScreenRowInfoView;
use crate::ui::colors::line_style;
use crate::ui::colors::line_style_with_highlight;
use crate::ui::colors::status_symbol;
use crate::ui::colors::style_of_highlight;
use crate::ui::colors::style_of_line;
use crate::ui::colors::symbol_of;
use crate::ui::image_view::ImageDiffLayout;
use crate::ui::image_view::ImageDiffLayoutView;
use crate::ui::image_view::MIN_IMAGE_HEIGHT;
use crate::ui::image_view::calculate_image_height_for_images;
use crate::ui::image_view::image_rows;
use crate::ui::image_view::law_cut_off_images_keep_their_size;
use crate::ui::image_view::layout_of;
use crate::ui::image_view::render_image_diff;
use crate::ui::layout::halves_of;
use crate::ui::layout::is_area;
use crate::ui::search::apply_search_to_content;
use crate::ui::search::apply_search_to_inline_render;
use crate::ui::search::render_search_bar;
use crate::ui::search::search_line;
use crate::ui::search::searched;
use crate::ui::selection::apply_selection_to_spans;
use crate::ui::selection::get_line_selection_range;
use crate::ui::selection::marked_spans;
use crate::ui::selection::selected_range;
use crate::ui::spans::InlineChangeType;
use crate::ui::spans::build_deletion_spans_with_highlight;
use crate::ui::spans::build_insertion_spans_with_highlight;
use crate::ui::spans::change_type;
use crate::ui::spans::classify_inline_change;
use crate::ui::spans::coalesce_spans;
use crate::ui::spans::coalesced;
use crate::ui::spans::content_paint;
use crate::ui::spans::deletion_source;
use crate::ui::spans::get_deletion_source;
use crate::ui::spans::get_insertion_source;
use crate::ui::spans::inline_display_width;
use crate::ui::spans::inline_paint;
use crate::ui::spans::inline_width;
use crate::ui::spans::insertion_source;
use crate::ui::spans::paint_interleaved;
use crate::ui::spans::side_paint;
use crate::ui::spans::syntax_highlight_content;
use crate::ui::spans::syntax_highlight_inline_spans;
use crate::ui::wrapping::clip;
use crate::ui::wrapping::content_display_width;
use crate::ui::wrapping::display_width;
use crate::ui::wrapping::row_infos;
use crate::ui::wrapping::row_lines;
use crate::ui::wrapping::wrap_content;
use crate::ui::wrapping::wrap_rows;

verus! {

/// What is drawn of the diff, and where.
pub struct DiffViewModel<'a> {
    /// The items that are shown.
    pub items: &'a [DisplayableItem],
    /// All lines of the diff.
    pub lines: &'a [DiffLine],
    pub selection: &'a Option<Selection>,
    pub collapsed_files: &'a [String],
    pub area: Rect,
    /// Whether to tell that something was copied.
    pub show_copied_flash: bool,
    pub image_cache: &'a ImageCache,
    /// The size of a cell of the terminal in pixels.
    pub font_size: (u16, u16),
    pub vcs_backend: VcsBackend,
    pub search: &'a Option<SearchState>,
    /// The files that also changed upstream, where that is known.
    pub upstream_files: Option<&'a [String]>,
    /// The files that were marked as reviewed.
    pub reviewed_files: &'a [String],
    /// How many rows of the first item are scrolled past.
    pub top_sub_row: usize,
}

/// Where an image is drawn once the rows are.
#[derive(Debug)]
pub struct ImageRenderPosition {
    pub file_path: String,
    /// The row that the image begins in.
    pub start_row: u16,
    pub height: u16,
    /// The height that the image is scaled to, also where less of it is visible.
    pub expected_available_height: u16,
}

/// What an `ImageRenderPosition` holds.
pub struct ImagePositionView {
    pub file_path: Seq<char>,
    pub start_row: u16,
    pub height: u16,
    pub expected_available_height: u16,
}

impl DeepView for ImageRenderPosition {
    type V = ImagePositionView;

    open spec fn deep_view(&self) -> ImagePositionView {
        ImagePositionView {
            file_path: self.file_path@,
            start_row: self.start_row,
            height: self.height,
            expected_available_height: self.expected_available_height,
        }
    }
}

/// What is known once the diff is drawn.
#[derive(Debug)]
pub struct RenderOutput {
    pub row_map: Vec<ScreenRowInfo>,
    pub content_offset: (u16, u16),
    pub line_num_width: usize,
    pub content_width: usize,
    /// Where images are drawn over the rows.
    pub image_positions: Vec<ImageRenderPosition>,
}

/// The diff as it is drawn.
#[derive(Debug)]
pub struct DiffFrame {
    pub title: Span,
    /// The colour of the border.
    pub border: Color,
    /// The rows inside the border.
    pub lines: Vec<Line>,
    /// The bar of the search, and where it is drawn over the rows.
    pub search_bar: Option<(Rect, Line)>,
    pub output: RenderOutput,
}

/// One row of the screen: how it is drawn, and what it shows.
#[derive(Debug)]
pub struct Row {
    pub spans: Vec<Span>,
    pub info: ScreenRowInfo,
}

/// What a `Row` holds.
pub struct RowView {
    pub spans: Seq<SpanView>,
    pub info: ScreenRowInfoView,
}

impl DeepView for Row {
    type V = RowView;

    open spec fn deep_view(&self) -> RowView {
        RowView { spans: self.spans.deep_view(), info: self.info.deep_view() }
    }
}

pub open spec fn faint() -> Style {
    plain_style().with_fg(Color::DarkGray)
}

/// The space that a line number takes, left empty.
pub open spec fn gutter(line_num_width: nat) -> Seq<char> {
    if line_num_width > 0 {
        copies(' ', line_num_width + 1)
    } else {
        Seq::empty()
    }
}

/// The line number in front of a line, or the space that it takes.
pub open spec fn number_text(line: DiffLineView, line_num_width: nat) -> Seq<char> {
    match line.line_number {
        Some(n) => right_aligned(decimal(n as nat), line_num_width) + " "@,
        None => gutter(line_num_width),
    }
}

/// The text in front of a row, as far as there is any.
pub open spec fn lead(prefix: Seq<char>) -> Seq<SpanView> {
    if prefix.len() > 0 {
        seq![styled(prefix, faint())]
    } else {
        Seq::empty()
    }
}

/// A row that begins a line.
pub open spec fn row_info(
    content: Seq<char>,
    is_file_header: bool,
    file_path: Option<Seq<char>>,
) -> ScreenRowInfoView {
    ScreenRowInfoView { content, is_file_header, file_path, is_continuation: false }
}

/// A row with a note in place of lines.
pub open spec fn note_row(
    prefix: Seq<char>,
    text: Seq<char>,
    style: Style,
    file_path: Option<Seq<char>>,
) -> RowView {
    RowView {
        spans: lead(prefix).push(styled("┈┈ ⋮ "@ + text + " ⋮ ┈┈"@, style)),
        info: row_info(text, false, file_path),
    }
}

/// The mark of a source in the gutter.
pub open spec fn gutter_symbol(source: LineSource, backend: VcsBackend) -> Seq<char> {
    match backend {
        VcsBackend::Git => symbol_of(source),
        VcsBackend::Jj => match source {
            LineSource::Staged
            | LineSource::DeletedCommitted
            | LineSource::CanceledStaged => "@"@,
            _ => " "@,
        },
    }
}

/// What stands between the line number and the text of a line. Moved lines have a mark of their
/// own.
pub open spec fn prefix_text(
    line: DiffLineView,
    c: char,
    source: LineSource,
    backend: VcsBackend,
) -> Seq<char> {
    if line.move_target is Some {
        "M M "@
    } else {
        seq![c] + " "@ + gutter_symbol(source, backend) + " "@
    }
}

/// The style of a line. Moved lines look canceled.
pub open spec fn drawn_style(line: DiffLineView) -> Style {
    style_of_line(
        if line.move_target is Some {
            LineSource::CanceledCommitted
        } else {
            line.source
        },
    )
}

/// A row with the selection marked in it, behind what stands in front of its text.
pub open spec fn marked_row(
    spans: Seq<SpanView>,
    is_continuation: bool,
    selection: Option<Selection>,
    row: usize,
    prefix_width: usize,
) -> Seq<SpanView> {
    match selected_range(selection, row) {
        None => spans,
        Some(range) => {
            let k = if is_continuation {
                1
            } else {
                2int
            };
            let k = if k <= spans.len() {
                k
            } else {
                spans.len() as int
            };
            spans.take(k) + marked_spans(
                spans.skip(k),
                less(range.0, prefix_width),
                less(range.1, prefix_width),
            )
        },
    }
}

/// The difference of two numbers, or zero.
pub open spec fn less(a: usize, b: usize) -> usize {
    if a >= b {
        (a - b) as usize
    } else {
        0
    }
}

/// The size of the view: the columns of line numbers, of what stands in front of the text, and of
/// the text, and the rows.
pub struct Measures {
    pub line_num_width: usize,
    pub prefix_width: usize,
    pub content_width: usize,
    pub max_rows: usize,
}

/// The size of the view. It depends on all lines, not only on those that are shown, so that text
/// does not wrap differently when the diff is scrolled.
pub open spec fn measures(lines: Seq<DiffLineView>, area: Rect) -> Measures {
    let widest = largest_number(lines);
    let line_num_width = if widest > 0 {
        decimal(widest).len() + 1
    } else {
        0
    };
    let prefix_width = (if line_num_width > 0 {
        line_num_width + 1
    } else {
        0
    }) + PREFIX_CHAR_WIDTH;
    let available = if area.width >= 2 {
        area.width - 2
    } else {
        0
    };
    Measures {
        line_num_width: line_num_width as usize,
        prefix_width: prefix_width as usize,
        content_width: if available >= prefix_width {
            (available - prefix_width) as usize
        } else {
            0
        },
        max_rows: if area.height >= 2 {
            (area.height - 2) as usize
        } else {
            0
        },
    }
}

impl<'a> DiffViewModel<'a> {
    /// Every line that is shown is there.
    pub open spec fn wf(self) -> bool {
        &&& forall|i: int|
            0 <= i < self.items@.len() ==> (#[trigger] self.items@[i] matches DisplayableItem::Line(
                idx,
            ) ==> idx < self.lines@.len())
        &&& is_area(self.area)
        &&& self.area.x < u16::MAX
        &&& self.area.y < u16::MAX
        &&& self.search matches Some(search) ==> search.current < u64::MAX
    }

    /// Text that is wrapped into rows from row `screen_row` on, `skip` rows of it being scrolled
    /// past. There are no more rows than the view has left, but at least one.
    pub open spec fn block(
        self,
        m: Measures,
        spans: Seq<SpanView>,
        content: Seq<char>,
        prefix: Seq<char>,
        mark: Seq<char>,
        style: Style,
        skip: usize,
        screen_row: nat,
    ) -> Seq<RowView> {
        let width = if m.content_width > 0 {
            m.content_width as nat
        } else {
            1
        };
        let rows = wrap_rows(spans, content, width);
        let drawn = row_lines(rows, prefix, mark, style, m.prefix_width as nat);
        let infos = row_infos(rows);
        let from = if skip <= rows.len() {
            skip as int
        } else {
            rows.len() as int
        };
        let most = if screen_row < m.max_rows {
            m.max_rows - screen_row
        } else {
            1
        };
        let n = if most <= rows.len() - from {
            most
        } else {
            rows.len() - from
        };
        Seq::new(
            n as nat,
            |i: int|
                RowView {
                    spans: marked_row(
                        drawn[from + i],
                        infos[from + i].is_continuation,
                        *self.selection,
                        clip((screen_row + i) as nat),
                        m.prefix_width,
                    ),
                    info: infos[from + i],
                },
        )
    }
}

/// The rows of a line, where images are drawn over them, and where the highlighter then stands.
pub struct Drawn {
    pub rows: Seq<RowView>,
    pub images: Seq<ImagePositionView>,
    pub stream: StreamView,
}

/// Rows without images, drawn without highlighting.
pub open spec fn plainly(rows: Seq<RowView>, stream: StreamView) -> Drawn {
    Drawn { rows, images: Seq::empty(), stream }
}

/// The image in a file, where it is loaded.
pub open spec fn image_of(cache: ImageCache, path: Option<Seq<char>>) -> Option<
    ImageDiffStateView,
> {
    match path {
        Some(path) => if keeps(cache@, path) {
            Some(cache@[position_of(cache@, path, 0)].state)
        } else {
            None
        },
        None => None,
    }
}

/// The size of an image in pixels.
pub open spec fn size_of(image: Option<CachedImageView>) -> Option<(u32, u32)> {
    match image {
        Some(image) => Some((image.original_width, image.original_height)),
        None => None,
    }
}

/// What is known of the image in a file that cannot be drawn yet.
pub open spec fn image_note(state: Option<ImageDiffStateView>) -> Seq<char> {
    match state {
        Some(state) => "[image: "@ + (match state.before {
            Some(image) => image.metadata(),
            None => "(new)"@,
        }) + " -> "@ + (match state.after {
            Some(image) => image.metadata(),
            None => "(deleted)"@,
        }) + "]"@,
        None => "[image file - loading...]"@,
    }
}

impl<'a> DiffViewModel<'a> {
    /// The heading of a file, with marks for a file that is collapsed, reviewed, or changed
    /// upstream too.
    pub open spec fn header_row(self, line: DiffLineView, prefix: Seq<char>) -> RowView {
        let known = |files: Seq<Seq<char>>| line.file_path is Some && files.contains(
            line.file_path->0,
        );
        let named = lead(prefix).push(
            styled(
                if known(self.collapsed_files.deep_view()) {
                    "▶ "@
                } else {
                    "▼ "@
                },
                faint(),
            ),
        ).push(styled("── "@, faint())).push(styled(line.content, drawn_style(line))).push(
            styled(" ──"@, faint()),
        );
        let reviewed = if known(self.reviewed_files.deep_view()) {
            named.push(styled(" ✓"@, plain_style().with_fg(Color::Green)))
        } else {
            named
        };
        let spans = match self.upstream_files {
            Some(files) => if known(files.deep_view()) {
                reviewed.push(styled(" ↑"@, plain_style().with_fg(Color::Yellow)))
            } else {
                reviewed
            },
            None => reviewed,
        };
        RowView { spans, info: row_info(line.content, true, line.file_path) }
    }

    /// The rows that are left empty for an image, or a note where there is none to draw.
    pub open spec fn image_rows(
        self,
        line: DiffLineView,
        prefix: Seq<char>,
        screen_row: nat,
        stream: StreamView,
    ) -> Drawn {
        let state = image_of(*self.image_cache, line.file_path);
        if state is Some && (state->0.before is Some || state->0.after is Some) {
            let height = image_rows(
                size_of(state->0.before),
                size_of(state->0.after),
                self.area.width,
                self.font_size,
            );
            Drawn {
                rows: Seq::new(
                    height,
                    |i: int|
                        RowView {
                            spans: Seq::empty(),
                            info: ScreenRowInfoView {
                                content: Seq::empty(),
                                is_file_header: false,
                                file_path: line.file_path,
                                is_continuation: i > 0,
                            },
                        },
                ),
                images: seq![
                    ImagePositionView {
                        file_path: line.file_path->0,
                        start_row: if screen_row <= u16::MAX {
                            screen_row as u16
                        } else {
                            u16::MAX
                        },
                        height: height as u16,
                        expected_available_height: if height >= IMAGE_PANEL_OVERHEAD {
                            (height - IMAGE_PANEL_OVERHEAD) as u16
                        } else {
                            0
                        },
                    },
                ],
                stream,
            }
        } else {
            plainly(
                seq![
                    RowView {
                        spans: lead(prefix).push(raw("  "@)).push(
                            styled(image_note(state), plain_style().with_fg(Color::Cyan)),
                        ),
                        info: row_info(line.content, false, line.file_path),
                    },
                ],
                stream,
            )
        }
    }

    /// A line without changes of its own.
    pub open spec fn plain_rows(
        self,
        m: Measures,
        line: DiffLineView,
        idx: usize,
        prefix: Seq<char>,
        skip: usize,
        screen_row: nat,
        stream: StreamView,
    ) -> Drawn {
        let style = drawn_style(line);
        let spans = searched(
            content_paint(stream.shows(line.content, line.file_path), style),
            *self.search,
            idx,
            None,
        );
        let mark = prefix_text(line, line.prefix, line.source, self.vcs_backend);
        plainly(
            self.block(m, spans, line.content, prefix, mark, style, skip, screen_row),
            stream.past(line.content, line.file_path),
        )
    }

    /// The rows of the old text that are scrolled past, and how many rows it has, as the rows of
    /// the new text are counted behind it.
    pub open spec fn old_rows(self, m: Measures, old: Seq<char>, drawn: Seq<SpanView>) -> nat {
        let width = clip(display_width(old)) as nat;
        let room = if m.content_width > 0 {
            m.content_width as nat
        } else {
            1
        };
        if drawn.len() == 0 || width == 0 {
            0
        } else {
            (width - 1) as nat / room + 1
        }
    }

    /// A modified line as two: its old text, and behind it its new text.
    pub open spec fn split_rows(
        self,
        m: Measures,
        line: DiffLineView,
        idx: usize,
        prefix: Seq<char>,
        skip: usize,
        screen_row: nat,
        stream: StreamView,
    ) -> Drawn {
        let spans = line.inline_spans;
        let from = deletion_source(spans);
        let to = if change_type(spans) is PureDeletion {
            match line.change_source {
                Some(source) => source,
                None => LineSource::Committed,
            }
        } else {
            insertion_source(spans)
        };
        let old = match line.old_content {
            Some(old) => old,
            None => ""@,
        };
        let merged = coalesced(spans);
        let deleted = side_paint(from, stream.shows(old, line.file_path)).side(merged, true);
        let full = self.old_rows(m, old, deleted);
        let old_block = if deleted.len() > 0 {
            self.block(
                m,
                deleted,
                old,
                copies(' ', prefix.len()),
                prefix_text(line, '-', from, self.vcs_backend),
                style_of_line(from),
                if skip <= full {
                    skip
                } else {
                    full as usize
                },
                screen_row,
            )
        } else {
            Seq::empty()
        };
        let after = stream.past(old, line.file_path);
        let inserted = searched(
            side_paint(to, after.shows(line.content, line.file_path)).side(merged, false),
            *self.search,
            idx,
            None,
        );
        let new_block = self.block(
            m,
            inserted,
            line.content,
            prefix,
            prefix_text(line, '+', to, self.vcs_backend),
            style_of_line(to),
            if skip <= full {
                0
            } else {
                (skip - full) as usize
            },
            clip(screen_row + old_block.len()) as nat,
        );
        plainly(old_block + new_block, after.past(line.content, line.file_path))
    }

    /// A modified line. It is drawn as two lines where text was only deleted, or where old and new
    /// text do not fit into one row; else with its deleted text among the new, unless there is only
    /// new text that does not fit.
    pub open spec fn inline_rows(
        self,
        m: Measures,
        line: DiffLineView,
        idx: usize,
        prefix: Seq<char>,
        skip: usize,
        screen_row: nat,
        stream: StreamView,
    ) -> Drawn {
        let spans = line.inline_spans;
        let kind = change_type(spans);
        let wide = clip(inline_width(coalesced(spans))) > m.content_width;
        if kind is PureDeletion || (kind is Mixed && wide) {
            self.split_rows(m, line, idx, prefix, skip, screen_row, stream)
        } else {
            let style = drawn_style(line);
            let paint = inline_paint(
                stream.shows(line.content, line.file_path),
                style,
                style_of_highlight(insertion_source(spans)),
            );
            let painted = if kind is PureAddition && wide {
                searched(paint.side(coalesced(spans), false), *self.search, idx, None)
            } else {
                searched(
                    paint.both(coalesced(spans), style_of_highlight(deletion_source(spans))),
                    *self.search,
                    idx,
                    Some(coalesced(spans)),
                )
            };
            let mark = prefix_text(line, line.prefix, line.source, self.vcs_backend);
            plainly(
                self.block(m, painted, line.content, prefix, mark, style, skip, screen_row),
                stream.past(line.content, line.file_path),
            )
        }
    }

    /// A line of the diff.
    pub open spec fn line_rows(
        self,
        m: Measures,
        idx: usize,
        skip: usize,
        screen_row: nat,
        stream: StreamView,
    ) -> Drawn {
        let line = self.lines.deep_view()[idx as int];
        let prefix = number_text(line, m.line_num_width as nat);
        if line.source is FileHeader {
            plainly(seq![self.header_row(line, prefix)], stream)
        } else if line.source is Elided {
            plainly(
                seq![note_row(prefix, line.content, drawn_style(line), line.file_path)],
                stream,
            )
        } else if line.marks_image() {
            self.image_rows(line, prefix, screen_row, stream)
        } else if line.inline_spans.len() > 0 {
            self.inline_rows(m, line, idx, prefix, skip, screen_row, stream)
        } else {
            self.plain_rows(m, line, idx, prefix, skip, screen_row, stream)
        }
    }

    /// One item of what is shown.
    pub open spec fn item_rows(
        self,
        m: Measures,
        item: DisplayableItem,
        skip: usize,
        screen_row: nat,
        stream: StreamView,
    ) -> Drawn {
        let prefix = gutter(m.line_num_width as nat);
        let style = style_of_line(LineSource::Elided);
        match item {
            DisplayableItem::Elided(count) => plainly(
                seq![
                    note_row(prefix, decimal(count as nat) + " lines hidden"@, style, None),
                ],
                stream,
            ),
            DisplayableItem::Message(text) => plainly(
                seq![note_row(prefix, text@, style, None)],
                stream,
            ),
            DisplayableItem::Line(idx) => self.line_rows(m, idx, skip, screen_row, stream),
        }
    }

    /// The first `n` items of what is shown. Rows of the first one may be scrolled past.
    pub open spec fn rows(self, m: Measures, n: nat, stream: StreamView) -> Drawn
        decreases n,
    {
        if n == 0 {
            plainly(Seq::empty(), stream)
        } else {
            let before = self.rows(m, (n - 1) as nat, stream);
            let skip = if n == 1 {
                self.top_sub_row
            } else {
                0
            };
            let next = self.item_rows(
                m,
                self.items@[n - 1],
                skip,
                before.rows.len(),
                before.stream,
            );
            Drawn {
                rows: before.rows + next.rows,
                images: before.images + next.images,
                stream: next.stream,
            }
        }
    }

    /// The file that the first line of the first `n` items is of, of those that are of a file.
    pub open spec fn file_from(self, i: int) -> Option<Seq<char>>
        decreases self.items@.len() - i,
    {
        if i < 0 || i >= self.items@.len() {
            None
        } else {
            match self.items@[i] {
                DisplayableItem::Line(idx) => match self.lines.deep_view()[idx as int].file_path {
                    Some(path) => Some(path),
                    None => self.file_from(i + 1),
                },
                _ => self.file_from(i + 1),
            }
        }
    }

    /// The title of the view.
    pub open spec fn title(self) -> SpanView {
        if self.show_copied_flash {
            styled(" ✓ Copied "@, plain_style().with_fg(Color::Green))
        } else {
            match self.file_from(0) {
                Some(path) => styled(" "@ + path + " "@, plain_style().with_fg(Color::White)),
                None => styled(" branchdiff "@, faint()),
            }
        }
    }
}

fn faint_style() -> (r: Style)
    ensures
        r == faint(),
{
    Style::default().fg(Color::DarkGray)
}

/// The text in front of a row, as far as there is any.
fn lead_spans(prefix: &str) -> (r: Vec<Span>)
    ensures
        r.deep_view() == lead(prefix@),
{
    let mut out: Vec<Span> = Vec::new();
    if prefix.unicode_len() > 0 {
        out.push(Span::styled(prefix.to_string(), faint_style()));
    }
    assert(out.deep_view() =~= lead(prefix@));
    out
}

/// Puts one more span behind some.
fn push_span(spans: &mut Vec<Span>, text: &str, style: Style)
    ensures
        final(spans).deep_view() == old(spans).deep_view().push(styled(text@, style)),
{
    let ghost before = spans.deep_view();
    spans.push(Span::styled(text.to_string(), style));
    assert(spans.deep_view() =~= before.push(styled(text@, style)));
}

/// A row with a note in place of lines.
fn render_note(prefix: &str, text: &str, style: Style, file_path: &Option<String>) -> (r: Row)
    ensures
        r.deep_view() == note_row(prefix@, text@, style, file_path.deep_view()),
{
    let mut note = String::from_str("┈┈ ⋮ ");
    note.append(text);
    note.append(" ⋮ ┈┈");
    let mut spans = lead_spans(prefix);
    push_span(&mut spans, note.as_str(), style);
    Row {
        spans,
        info: ScreenRowInfo {
            content: text.to_string(),
            is_file_header: false,
            file_path: copy_text(file_path),
            is_continuation: false,
        },
    }
}

/// The difference of two numbers, or zero.
fn minus(a: usize, b: usize) -> (r: usize)
    ensures
        r == less(a, b),
{
    if a >= b {
        a - b
    } else {
        0
    }
}

/// Marks the selection in text that is drawn in row `screen_row_idx` behind `prefix_width` columns.
pub fn apply_selection_to_content(
    content_spans: Vec<Span>,
    selection: &Option<Selection>,
    screen_row_idx: usize,
    prefix_width: usize,
) -> (r: Vec<Span>)
    ensures
        r.deep_view() == (match selected_range(*selection, screen_row_idx) {
            Some(range) => marked_spans(
                content_spans.deep_view(),
                less(range.0, prefix_width),
                less(range.1, prefix_width),
            ),
            None => content_spans.deep_view(),
        }),
{
    match get_line_selection_range(selection, screen_row_idx) {
        Some((start, end)) => {
            let spans = content_spans.as_slice();
            assert(spans.deep_view() =~= content_spans.deep_view());
            apply_selection_to_spans(spans, minus(start, prefix_width), minus(end, prefix_width))
        },
        None => content_spans,
    }
}

/// Marks the selection in a row, behind what stands in front of its text.
fn mark_row(
    spans: &[Span],
    is_continuation: bool,
    selection: &Option<Selection>,
    row: usize,
    prefix_width: usize,
) -> (r: Vec<Span>)
    ensures
        r.deep_view() == marked_row(
            spans.deep_view(),
            is_continuation,
            *selection,
            row,
            prefix_width,
        ),
{
    match get_line_selection_range(selection, row) {
        None => {
            let out = copy_styled(spans);
            assert(out.deep_view() =~= spans.deep_view());
            out
        },
        Some((start, end)) => {
            let wanted: usize = if is_continuation {
                1
            } else {
                2
            };
            let k: usize = if wanted <= spans.len() {
                wanted
            } else {
                spans.len()
            };
            let front = vstd::slice::slice_subrange(spans, 0, k);
            let back = vstd::slice::slice_subrange(spans, k, spans.len());
            let mut out = copy_styled(front);
            let mut marked = apply_selection_to_spans(
                back,
                minus(start, prefix_width),
                minus(end, prefix_width),
            );
            assert(out.deep_view() =~= spans.deep_view().take(k as int));
            assert(back.deep_view() =~= spans.deep_view().skip(k as int));
            let ghost before = out.deep_view();
            let ghost added = marked.deep_view();
            out.append(&mut marked);
            assert(out.deep_view() =~= before + added);
            out
        },
    }
}

impl<'a> DiffViewModel<'a> {
    /// Wraps text into rows and marks the selection in them.
    fn render_block(
        &self,
        m: &Measures,
        spans: Vec<Span>,
        content: &str,
        prefix: String,
        mark: String,
        style: Style,
        skip: usize,
        screen_row: usize,
    ) -> (r: Vec<Row>)
        ensures
            r.deep_view() == self.block(
                *m,
                spans.deep_view(),
                content@,
                prefix@,
                mark@,
                style,
                skip,
                screen_row as nat,
            ),
    {
        let width: usize = if m.content_width > 0 {
            m.content_width
        } else {
            1
        };
        let ghost expected = self.block(
            *m,
            spans.deep_view(),
            content@,
            prefix@,
            mark@,
            style,
            skip,
            screen_row as nat,
        );
        let (lines, infos) = wrap_content(
            spans,
            content,
            prefix,
            mark,
            style,
            width,
            m.prefix_width,
        );
        assert(lines.deep_view().len() == infos.deep_view().len());
        let from: usize = if skip <= lines.len() {
            skip
        } else {
            lines.len()
        };
        let most: usize = if screen_row < m.max_rows {
            m.max_rows - screen_row
        } else {
            1
        };
        let n: usize = if most <= lines.len() - from {
            most
        } else {
            lines.len() - from
        };
        assert(expected.len() == n);
        let mut out: Vec<Row> = Vec::new();
        let mut i: usize = 0;
        while i < n
            invariant
                i <= n,
                from + n <= lines@.len(),
                lines@.len() == infos@.len(),
                expected.len() == n,
                forall|j: int|
                    0 <= j < n ==> #[trigger] expected[j] == (RowView {
                        spans: marked_row(
                            lines.deep_view()[from + j],
                            infos.deep_view()[from + j].is_continuation,
                            *self.selection,
                            clip((screen_row + j) as nat),
                            m.prefix_width,
                        ),
                        info: infos.deep_view()[from + j],
                    }),
                out.deep_view() =~= expected.take(i as int),
            decreases n - i,
        {
            let at: usize = from + i;
            let line = &lines[at];
            let info = &infos[at];
            assert(lines.deep_view()[at as int] == line.deep_view());
            assert(infos.deep_view()[at as int] == info.deep_view());
            let spans = line.spans.as_slice();
            assert(spans.deep_view() =~= line.deep_view());
            let row = Row {
                spans: mark_row(
                    spans,
                    info.is_continuation,
                    self.selection,
                    screen_row.saturating_add(i),
                    m.prefix_width,
                ),
                info: info.clone(),
            };
            assert(row.deep_view() == expected[i as int]);
            let ghost before = out.deep_view();
            out.push(row);
            assert(out.deep_view() =~= before.push(row.deep_view()));
            i = i + 1;
        }
        assert(expected.take(n as int) =~= expected);
        out
    }
}

/// The size of an image in pixels.
fn dimensions(image: &Option<CachedImage>) -> (r: Option<(u32, u32)>)
    ensures
        r == size_of(image.deep_view()),
{
    match image {
        Some(image) => Some((image.original_width, image.original_height)),
        None => None,
    }
}

/// What is known of the image in a file that cannot be drawn yet.
fn describe_image(state: Option<&ImageDiffState>) -> (r: String)
    ensures
        r@ == image_note(state.deep_view()),
{
    match state {
        Some(state) => {
            let mut out = String::from_str("[image: ");
            match &state.before {
                Some(image) => {
                    let text = image.metadata_string();
                    out.append(text.as_str());
                },
                None => {
                    out.append("(new)");
                },
            }
            out.append(" -> ");
            match &state.after {
                Some(image) => {
                    let text = image.metadata_string();
                    out.append(text.as_str());
                },
                None => {
                    out.append("(deleted)");
                },
            }
            out.append("]");
            out
        },
        None => String::from_str("[image file - loading...]"),
    }
}

/// The space that a line number takes, left empty.
fn gutter_text(line_num_width: usize) -> (r: String)
    requires
        line_num_width < usize::MAX,
    ensures
        r@ == gutter(line_num_width as nat),
{
    if line_num_width > 0 {
        repeat_char(' ', line_num_width + 1)
    } else {
        String::new()
    }
}

/// The line number in front of a line, or the space that it takes.
fn line_number_text(line: &DiffLine, line_num_width: usize) -> (r: String)
    requires
        line_num_width < usize::MAX,
    ensures
        r@ == number_text(line.deep_view(), line_num_width as nat),
{
    match line.line_number {
        Some(n) => {
            let digits = number(n as u64);
            let mut out = align_right(digits.as_str(), line_num_width);
            out.append(" ");
            out
        },
        None => gutter_text(line_num_width),
    }
}

/// The mark of a source in the gutter.
fn gutter_mark(source: LineSource, backend: VcsBackend) -> (r: &'static str)
    ensures
        r@ == gutter_symbol(source, backend),
{
    match backend {
        VcsBackend::Git => status_symbol(source),
        VcsBackend::Jj => match source {
            LineSource::Staged | LineSource::DeletedCommitted | LineSource::CanceledStaged => "@",
            _ => " ",
        },
    }
}

/// The style of a line. Moved lines look canceled.
fn style_to_draw(line: &DiffLine) -> (r: Style)
    ensures
        r == drawn_style(line.deep_view()),
{
    if line.move_target.is_some() {
        line_style(LineSource::CanceledCommitted)
    } else {
        line_style(line.source)
    }
}

/// Whether the file of a line is among some.
fn names_file(files: &[String], path: &Option<String>) -> (r: bool)
    ensures
        r == (path.deep_view() is Some && files.deep_view().contains(path.deep_view()->0)),
{
    match path {
        Some(path) => among(files, path.as_str()),
        None => false,
    }
}

impl<'a> DiffViewModel<'a> {
    /// Whether the lines of a file are hidden.
    pub fn is_file_collapsed(&self, path: &str) -> (r: bool)
        ensures
            r == self.collapsed_files.deep_view().contains(path@),
    {
        among(self.collapsed_files, path)
    }

    /// What stands between the line number and the text of a line.
    pub fn line_prefix(&self, line: &DiffLine, default_char: char, source: LineSource) -> (r: String)
        ensures
            r@ == prefix_text(line.deep_view(), default_char, source, self.vcs_backend),
    {
        if line.move_target.is_some() {
            String::from_str("M M ")
        } else {
            let mut out = String::new();
            out.push(default_char);
            assert(out@ =~= seq![default_char]);
            out.append(" ");
            out.append(gutter_mark(source, self.vcs_backend));
            out.append(" ");
            out
        }
    }

    /// The heading of a file.
    fn render_file_header(&self, line: &DiffLine, prefix: &str) -> (r: Row)
        ensures
            r.deep_view() == self.header_row(line.deep_view(), prefix@),
    {
        let mut spans = lead_spans(prefix);
        let collapsed = match &line.file_path {
            Some(path) => self.is_file_collapsed(path.as_str()),
            None => false,
        };
        push_span(
            &mut spans,
            if collapsed {
                "▶ "
            } else {
                "▼ "
            },
            faint_style(),
        );
        push_span(&mut spans, "── ", faint_style());
        push_span(&mut spans, line.content.as_str(), style_to_draw(line));
        push_span(&mut spans, " ──", faint_style());
        if names_file(self.reviewed_files, &line.file_path) {
            push_span(&mut spans, " ✓", Style::default().fg(Color::Green));
        }
        if let Some(files) = self.upstream_files {
            if names_file(files, &line.file_path) {
                push_span(&mut spans, " ↑", Style::default().fg(Color::Yellow));
            }
        }
        Row {
            spans,
            info: ScreenRowInfo {
                content: line.content.clone(),
                is_file_header: true,
                file_path: copy_text(&line.file_path),
                is_continuation: false,
            },
        }
    }

    /// The rows that are left empty for an image, or a note where there is none to draw.
    fn render_image_marker(&self, line: &DiffLine, prefix: &str, screen_row: usize) -> (r: (
        Vec<Row>,
        Vec<ImageRenderPosition>,
    ))
        ensures
            forall|stream: StreamView|
                #![trigger self.image_rows(line.deep_view(), prefix@, screen_row as nat, stream)]
                self.image_rows(line.deep_view(), prefix@, screen_row as nat, stream) == (Drawn {
                    rows: r.0.deep_view(),
                    images: r.1.deep_view(),
                    stream,
                }),
    {
        let ghost view = line.deep_view();
        let mut rows: Vec<Row> = Vec::new();
        let mut images: Vec<ImageRenderPosition> = Vec::new();
        let state = match &line.file_path {
            Some(path) => self.image_cache.peek(path.as_str()),
            None => None,
        };
        assert(state.deep_view() == image_of(*self.image_cache, view.file_path));
        if let (Some(state), Some(path)) = (state, &line.file_path) {
            if state.before.is_some() || state.after.is_some() {
                let height = calculate_image_height_for_images(
                    dimensions(&state.before),
                    dimensions(&state.after),
                    self.area.width,
                    self.font_size,
                );
                let start_row: u16 = if screen_row <= u16::MAX as usize {
                    screen_row as u16
                } else {
                    u16::MAX
                };
                let expected_available_height: u16 = if height >= IMAGE_PANEL_OVERHEAD {
                    height - IMAGE_PANEL_OVERHEAD
                } else {
                    0
                };
                images.push(
                    ImageRenderPosition {
                        file_path: path.clone(),
                        start_row,
                        height,
                        expected_available_height,
                    },
                );
                let ghost blank = |i: int|
                    RowView {
                        spans: Seq::empty(),
                        info: ScreenRowInfoView {
                            content: Seq::empty(),
                            is_file_header: false,
                            file_path: view.file_path,
                            is_continuation: i > 0,
                        },
                    };
                let mut i: u16 = 0;
                while i < height
                    invariant
                        i <= height,
                        view == line.deep_view(),
                        blank == (|i: int|
                            RowView {
                                spans: Seq::empty(),
                                info: ScreenRowInfoView {
                                    content: Seq::empty(),
                                    is_file_header: false,
                                    file_path: view.file_path,
                                    is_continuation: i > 0,
                                },
                            }),
                        rows.deep_view() =~= Seq::new(i as nat, blank),
                    decreases height - i,
                {
                    let row = Row {
                        spans: Vec::new(),
                        info: ScreenRowInfo {
                            content: String::new(),
                            is_file_header: false,
                            file_path: copy_text(&line.file_path),
                            is_continuation: i > 0,
                        },
                    };
                    assert(row.spans.deep_view() =~= Seq::empty());
                    assert(row.info.content@ =~= Seq::empty());
                    assert(row.deep_view() == blank(i as int));
                    let ghost before = rows.deep_view();
                    rows.push(row);
                    assert(rows.deep_view() =~= before.push(row.deep_view()));
                    i = i + 1;
                }
                proof {
                    assert forall|stream: StreamView|
                        #![trigger self.image_rows(view, prefix@, screen_row as nat, stream)]
                        self.image_rows(view, prefix@, screen_row as nat, stream) == (Drawn {
                            rows: rows.deep_view(),
                            images: images.deep_view(),
                            stream,
                        }) by {
                        let drawn = self.image_rows(view, prefix@, screen_row as nat, stream);
                        assert(drawn.rows =~= rows.deep_view());
                        assert(drawn.images =~= images.deep_view());
                    }
                }
                return (rows, images);
            }
        }
        let mut spans = lead_spans(prefix);
        push_span(&mut spans, "  ", Style::default());
        let note = describe_image(state);
        push_span(&mut spans, note.as_str(), Style::default().fg(Color::Cyan));
        rows.push(
            Row {
                spans,
                info: ScreenRowInfo {
                    content: line.content.clone(),
                    is_file_header: false,
                    file_path: copy_text(&line.file_path),
                    is_continuation: false,
                },
            },
        );
        proof {
            assert forall|stream: StreamView|
                #![trigger self.image_rows(view, prefix@, screen_row as nat, stream)]
                self.image_rows(view, prefix@, screen_row as nat, stream) == (Drawn {
                    rows: rows.deep_view(),
                    images: images.deep_view(),
                    stream,
                }) by {
                let drawn = self.image_rows(view, prefix@, screen_row as nat, stream);
                assert(drawn.rows =~= rows.deep_view());
                assert(drawn.images =~= images.deep_view());
            }
        }
        (rows, images)
    }

    /// A line without changes of its own.
    fn render_plain_content(
        &self,
        m: &Measures,
        line: &DiffLine,
        line_idx: usize,
        prefix: String,
        skip: usize,
        screen_row: usize,
        highlighter: &mut SyntaxHighlighter,
    ) -> (r: Vec<Row>)
        ensures
            plainly(r.deep_view(), final(highlighter)@) == self.plain_rows(
                *m,
                line.deep_view(),
                line_idx,
                prefix@,
                skip,
                screen_row as nat,
                old(highlighter)@,
            ),
    {
        let style = style_to_draw(line);
        let mark = self.line_prefix(line, line.prefix, line.source);
        let painted = syntax_highlight_content(
            line.content.as_str(),
            text_ref(&line.file_path),
            style,
            highlighter,
        );
        let spans = apply_search_to_content(painted, self.search, line_idx);
        self.render_block(m, spans, line.content.as_str(), prefix, mark, style, skip, screen_row)
    }
}

impl<'a> DiffViewModel<'a> {
    /// A modified line as two: its old text, and behind it its new text.
    #[verifier::rlimit(60)]
    fn render_split(
        &self,
        m: &Measures,
        line: &DiffLine,
        line_idx: usize,
        prefix: String,
        skip: usize,
        screen_row: usize,
        highlighter: &mut SyntaxHighlighter,
    ) -> (r: Vec<Row>)
        ensures
            plainly(r.deep_view(), final(highlighter)@) == self.split_rows(
                *m,
                line.deep_view(),
                line_idx,
                prefix@,
                skip,
                screen_row as nat,
                old(highlighter)@,
            ),
    {
        let inline_spans = line.inline_spans.as_slice();
        assert(inline_spans.deep_view() =~= line.deep_view().inline_spans);
        let kind = classify_inline_change(inline_spans);
        let from = get_deletion_source(inline_spans);
        let to = match kind {
            InlineChangeType::PureDeletion => match line.change_source {
                Some(source) => source,
                None => LineSource::Committed,
            },
            _ => get_insertion_source(inline_spans),
        };
        let old_text = match &line.old_content {
            Some(text) => text.as_str(),
            None => "",
        };
        let deleted = build_deletion_spans_with_highlight(
            inline_spans,
            from,
            old_text,
            text_ref(&line.file_path),
            highlighter,
        );
        let width = content_display_width(old_text);
        let room: usize = if m.content_width > 0 {
            m.content_width
        } else {
            1
        };
        let full: usize = if deleted.len() == 0 || width == 0 {
            0
        } else {
            proof {
                vstd::arithmetic::div_mod::lemma_div_is_ordered_by_denominator(
                    width - 1,
                    1,
                    room as int,
                );
            }
            (width - 1) / room + 1
        };
        assert(full as nat == self.old_rows(*m, old_text@, deleted.deep_view()));
        let mut rows: Vec<Row> = Vec::new();
        if deleted.len() > 0 {
            rows = self.render_block(
                m,
                deleted,
                old_text,
                repeat_char(' ', prefix.as_str().unicode_len()),
                self.line_prefix(line, '-', from),
                line_style(from),
                if skip <= full {
                    skip
                } else {
                    full
                },
                screen_row,
            );
        }
        let ghost old_block = rows.deep_view();
        let inserted = build_insertion_spans_with_highlight(
            inline_spans,
            to,
            line.content.as_str(),
            text_ref(&line.file_path),
            highlighter,
        );
        let inserted = apply_search_to_content(inserted, self.search, line_idx);
        let mut new_rows = self.render_block(
            m,
            inserted,
            line.content.as_str(),
            prefix,
            self.line_prefix(line, '+', to),
            line_style(to),
            if skip <= full {
                0
            } else {
                skip - full
            },
            screen_row.saturating_add(rows.len()),
        );
        proof {
            let expected = self.split_rows(
                *m,
                line.deep_view(),
                line_idx,
                prefix@,
                skip,
                screen_row as nat,
                old(highlighter)@,
            );
            assert(rows.deep_view().len() == rows@.len());
            assert(expected.rows == rows.deep_view() + new_rows.deep_view());
        }
        let ghost new_block = new_rows.deep_view();
        rows.append(&mut new_rows);
        assert(rows.deep_view() =~= old_block + new_block);
        rows
    }

    /// A modified line.
    fn render_inline_spans(
        &self,
        m: &Measures,
        line: &DiffLine,
        line_idx: usize,
        prefix: String,
        skip: usize,
        screen_row: usize,
        highlighter: &mut SyntaxHighlighter,
    ) -> (r: Vec<Row>)
        ensures
            plainly(r.deep_view(), final(highlighter)@) == self.inline_rows(
                *m,
                line.deep_view(),
                line_idx,
                prefix@,
                skip,
                screen_row as nat,
                old(highlighter)@,
            ),
    {
        let inline_spans = line.inline_spans.as_slice();
        assert(inline_spans.deep_view() =~= line.deep_view().inline_spans);
        let kind = classify_inline_change(inline_spans);
        let wide = inline_display_width(inline_spans) > m.content_width;
        let split = match kind {
            InlineChangeType::PureDeletion => true,
            InlineChangeType::Mixed => wide,
            _ => false,
        };
        if split {
            return self.render_split(m, line, line_idx, prefix, skip, screen_row, highlighter);
        }
        let style = style_to_draw(line);
        let highlight = line_style_with_highlight(get_insertion_source(inline_spans));
        let only_new = wide && matches!(kind, InlineChangeType::PureAddition);
        let spans = if only_new {
            let painted = syntax_highlight_inline_spans(
                inline_spans,
                line.content.as_str(),
                text_ref(&line.file_path),
                style,
                highlight,
                highlighter,
            );
            apply_search_to_content(painted, self.search, line_idx)
        } else {
            let segments = highlighter.highlight_line(
                line.content.as_str(),
                text_ref(&line.file_path),
            );
            let segments = segments.as_slice();
            assert(segments.deep_view() =~= old(highlighter)@.shows(
                line.content@,
                line.file_path.deep_view(),
            ));
            let painted = paint_interleaved(
                inline_spans,
                segments,
                style,
                highlight,
                line_style_with_highlight(get_deletion_source(inline_spans)),
            );
            let merged = coalesce_spans(inline_spans);
            let merged = merged.as_slice();
            assert(merged.deep_view() =~= coalesced(inline_spans.deep_view()));
            apply_search_to_inline_render(painted, merged, self.search, line_idx)
        };
        let mark = self.line_prefix(line, line.prefix, line.source);
        self.render_block(m, spans, line.content.as_str(), prefix, mark, style, skip, screen_row)
    }

    /// A line of the diff: its rows, and where images are drawn over them.
    fn render_diff_line(
        &self,
        m: &Measures,
        line_idx: usize,
        skip: usize,
        screen_row: usize,
        highlighter: &mut SyntaxHighlighter,
    ) -> (r: (Vec<Row>, Vec<ImageRenderPosition>))
        requires
            line_idx < self.lines@.len(),
            m.line_num_width < usize::MAX,
        ensures
            (Drawn {
                rows: r.0.deep_view(),
                images: r.1.deep_view(),
                stream: final(highlighter)@,
            }) == self.line_rows(*m, line_idx, skip, screen_row as nat, old(highlighter)@),
    {
        let line = &self.lines[line_idx];
        assert(self.lines.deep_view()[line_idx as int] == line.deep_view());
        let prefix = line_number_text(line, m.line_num_width);
        let mut rows: Vec<Row> = Vec::new();
        let images: Vec<ImageRenderPosition> = Vec::new();
        assert(images.deep_view() =~= Seq::empty());
        match line.source {
            LineSource::FileHeader => {
                rows.push(self.render_file_header(line, prefix.as_str()));
                assert(rows.deep_view() =~= seq![self.header_row(line.deep_view(), prefix@)]);
                return (rows, images);
            },
            LineSource::Elided => {
                let style = style_to_draw(line);
                rows.push(
                    render_note(prefix.as_str(), line.content.as_str(), style, &line.file_path),
                );
                assert(rows.deep_view() =~= seq![
                    note_row(prefix@, line.content@, style, line.file_path.deep_view()),
                ]);
                return (rows, images);
            },
            _ => {},
        }
        if line.is_image_marker() {
            let drawn = self.render_image_marker(line, prefix.as_str(), screen_row);
            assert(self.image_rows(
                line.deep_view(),
                prefix@,
                screen_row as nat,
                old(highlighter)@,
            ).stream == old(highlighter)@);
            return drawn;
        }
        assert(line.deep_view().inline_spans.len() == line.inline_spans@.len());
        if line.inline_spans.len() > 0 {
            rows =
            self.render_inline_spans(m, line, line_idx, prefix, skip, screen_row, highlighter);
        } else {
            rows =
            self.render_plain_content(m, line, line_idx, prefix, skip, screen_row, highlighter);
        }
        (rows, images)
    }

    /// One item of what is shown.
    fn render_item(
        &self,
        m: &Measures,
        item: &DisplayableItem,
        skip: usize,
        screen_row: usize,
        highlighter: &mut SyntaxHighlighter,
    ) -> (r: (Vec<Row>, Vec<ImageRenderPosition>))
        requires
            item matches DisplayableItem::Line(idx) ==> idx < self.lines@.len(),
            m.line_num_width < usize::MAX,
        ensures
            (Drawn {
                rows: r.0.deep_view(),
                images: r.1.deep_view(),
                stream: final(highlighter)@,
            }) == self.item_rows(*m, *item, skip, screen_row as nat, old(highlighter)@),
    {
        let prefix = gutter_text(m.line_num_width);
        let style = line_style(LineSource::Elided);
        let mut rows: Vec<Row> = Vec::new();
        let images: Vec<ImageRenderPosition> = Vec::new();
        assert(images.deep_view() =~= Seq::empty());
        match item {
            DisplayableItem::Elided(count) => {
                let mut text = number(*count as u64);
                text.append(" lines hidden");
                rows.push(render_note(prefix.as_str(), text.as_str(), style, &None));
                assert(rows.deep_view() =~= seq![note_row(prefix@, text@, style, None)]);
                (rows, images)
            },
            DisplayableItem::Message(text) => {
                rows.push(render_note(prefix.as_str(), text.as_str(), style, &None));
                assert(rows.deep_view() =~= seq![note_row(prefix@, text@, style, None)]);
                (rows, images)
            },
            DisplayableItem::Line(idx) => {
                self.render_diff_line(m, *idx, skip, screen_row, highlighter)
            },
        }
    }

    /// The file of the first line that is of one.
    pub fn find_current_file(&self) -> (r: Option<String>)
        requires
            self.wf(),
        ensures
            r.deep_view() == self.file_from(0),
    {
        let mut i: usize = 0;
        while i < self.items.len()
            invariant
                self.wf(),
                i <= self.items@.len(),
                self.file_from(i as int) == self.file_from(0),
            decreases self.items.len() - i,
        {
            if let DisplayableItem::Line(idx) = &self.items[i] {
                assert(self.items@[i as int] == DisplayableItem::Line(*idx));
                let line = &self.lines[*idx];
                assert(self.lines.deep_view()[*idx as int] == line.deep_view());
                if let Some(path) = &line.file_path {
                    return Some(path.clone());
                }
            }
            i = i + 1;
        }
        None
    }

    /// The title of the view.
    fn render_title(&self) -> (r: Span)
        requires
            self.wf(),
        ensures
            r.deep_view() == self.title(),
    {
        if self.show_copied_flash {
            Span::styled(String::from_str(" ✓ Copied "), Style::default().fg(Color::Green))
        } else {
            match self.find_current_file() {
                Some(file) => {
                    let mut text = String::from_str(" ");
                    text.append(file.as_str());
                    text.append(" ");
                    Span::styled(text, Style::default().fg(Color::White))
                },
                None => Span::styled(String::from_str(" branchdiff "), faint_style()),
            }
        }
    }

    /// The bar of the search, and where it is drawn.
    pub open spec fn search_bar(self) -> Option<(Rect, Seq<SpanView>)> {
        match *self.search {
            Some(search) => if self.area.width > 4 {
                Some(
                    (
                        Rect {
                            x: (self.area.x + 1) as u16,
                            y: (self.area.y + (if self.area.height >= 2 {
                                self.area.height - 2
                            } else {
                                0
                            })) as u16,
                            width: (self.area.width - 2) as u16,
                            height: 1,
                        },
                        search_line(search, (self.area.width - 2) as nat),
                    ),
                )
            } else {
                None
            },
            None => None,
        }
    }

    fn render_search(&self) -> (r: Option<(Rect, Line)>)
        requires
            self.wf(),
        ensures
            r is Some <==> self.search_bar() is Some,
            r matches Some(bar) ==> (bar.0, bar.1.deep_view()) == self.search_bar()->0,
    {
        match self.search {
            Some(search) => {
                let width = self.area.width.saturating_sub(2);
                if width > 2 {
                    let area = Rect {
                        x: self.area.x + 1,
                        y: self.area.y + self.area.height.saturating_sub(2),
                        width,
                        height: 1,
                    };
                    Some((area, render_search_bar(search, width)))
                } else {
                    None
                }
            },
            None => None,
        }
    }

    /// The size of the view.
    fn measure(&self) -> (r: Measures)
        ensures
            r == measures(self.lines.deep_view(), self.area),
            r.line_num_width <= 21,
    {
        let widest = largest_line_number(self.lines);
        let line_num_width: usize = if widest > 0 {
            proof {
                lemma_decimal_is_short(widest as nat);
            }
            number(widest as u64).as_str().unicode_len() + 1
        } else {
            0
        };
        let prefix_width: usize = (if line_num_width > 0 {
            line_num_width + 1
        } else {
            0
        }) + PREFIX_CHAR_WIDTH;
        let available = self.area.width.saturating_sub(2) as usize;
        Measures {
            line_num_width,
            prefix_width,
            content_width: minus(available, prefix_width),
            max_rows: self.area.height.saturating_sub(2) as usize,
        }
    }

    /// Whether the diff is drawn so, with a highlighter that starts at one place and then stands
    /// at another.
    pub open spec fn drawn_as(self, frame: DiffFrame, from: StreamView, to: StreamView) -> bool {
        let m = measures(self.lines.deep_view(), self.area);
        let drawn = self.rows(m, self.items@.len(), from);
        &&& frame.title.deep_view() == self.title()
        &&& frame.border == Color::DarkGray
        &&& frame.lines.deep_view() == Seq::new(drawn.rows.len(), |i: int| drawn.rows[i].spans)
        &&& frame.search_bar is Some <==> self.search_bar() is Some
        &&& frame.search_bar matches Some(bar) ==> (bar.0, bar.1.deep_view())
            == self.search_bar()->0
        &&& frame.output.row_map.deep_view() == Seq::new(
            drawn.rows.len(),
            |i: int| drawn.rows[i].info,
        )
        &&& frame.output.content_offset == ((self.area.x + 1) as u16, (self.area.y + 1) as u16)
        &&& frame.output.line_num_width == m.line_num_width
        &&& frame.output.content_width == m.content_width
        &&& frame.output.image_positions.deep_view() == drawn.images
        &&& to == drawn.stream
    }

    /// Draws the diff. The highlighter starts anew, so that nothing of what was drawn before shows
    /// in the colours.
    pub fn render(&self, highlighter: &mut SyntaxHighlighter) -> (r: DiffFrame)
        requires
            self.wf(),
        ensures
            self.drawn_as(r, old(highlighter)@.fresh(), final(highlighter)@),
    {
        let ghost start = highlighter@.fresh();
        reset_highlight_state(highlighter);
        let m = self.measure();
        let mut lines: Vec<Line> = Vec::new();
        let mut row_map: Vec<ScreenRowInfo> = Vec::new();
        let mut image_positions: Vec<ImageRenderPosition> = Vec::new();
        let mut i: usize = 0;
        proof {
            let none = self.rows(m, 0, start);
            assert(lines.deep_view() =~= Seq::new(none.rows.len(), |k: int| none.rows[k].spans));
            assert(row_map.deep_view() =~= Seq::new(none.rows.len(), |k: int| none.rows[k].info));
            assert(image_positions.deep_view() =~= none.images);
        }
        while i < self.items.len()
            invariant
                self.wf(),
                i <= self.items@.len(),
                m.line_num_width <= 21,
                lines.deep_view() == Seq::new(
                    self.rows(m, i as nat, start).rows.len(),
                    |k: int| self.rows(m, i as nat, start).rows[k].spans,
                ),
                row_map.deep_view() == Seq::new(
                    self.rows(m, i as nat, start).rows.len(),
                    |k: int| self.rows(m, i as nat, start).rows[k].info,
                ),
                image_positions.deep_view() == self.rows(m, i as nat, start).images,
                highlighter@ == self.rows(m, i as nat, start).stream,
            decreases self.items.len() - i,
        {
            let ghost before = self.rows(m, i as nat, start);
            let ghost after = self.rows(m, (i + 1) as nat, start);
            let skip: usize = if i == 0 {
                self.top_sub_row
            } else {
                0
            };
            assert(lines.deep_view().len() == lines@.len());
            let (rows, mut images) = self.render_item(
                &m,
                &self.items[i],
                skip,
                lines.len(),
                highlighter,
            );
            proof {
                let next = self.item_rows(
                    m,
                    self.items@[i as int],
                    skip,
                    before.rows.len(),
                    before.stream,
                );
                assert(next.rows == rows.deep_view());
                assert(after.rows == before.rows + rows.deep_view());
                assert(after.images == before.images + images.deep_view());
            }
            let ghost added = images.deep_view();
            image_positions.append(&mut images);
            assert(image_positions.deep_view() =~= before.images + added);
            spread_rows(rows, &mut lines, &mut row_map);
            assert(lines.deep_view() =~= Seq::new(after.rows.len(), |k: int| after.rows[k].spans));
            assert(row_map.deep_view() =~= Seq::new(after.rows.len(), |k: int| after.rows[k].info));
            i = i + 1;
        }
        DiffFrame {
            title: self.render_title(),
            border: Color::DarkGray,
            lines,
            search_bar: self.render_search(),
            output: RenderOutput {
                row_map,
                content_offset: (self.area.x + 1, self.area.y + 1),
                line_num_width: m.line_num_width,
                content_width: m.content_width,
                image_positions,
            },
        }
    }
}

/// Puts rows behind others: how they are drawn, and what they show.
fn spread_rows(rows: Vec<Row>, lines: &mut Vec<Line>, row_map: &mut Vec<ScreenRowInfo>)
    ensures
        final(lines).deep_view() == old(lines).deep_view() + Seq::new(
            rows@.len(),
            |i: int| rows.deep_view()[i].spans,
        ),
        final(row_map).deep_view() == old(row_map).deep_view() + Seq::new(
            rows@.len(),
            |i: int| rows.deep_view()[i].info,
        ),
{
    let ghost all = rows.deep_view();
    let ghost first_lines = lines.deep_view();
    let ghost first_map = row_map.deep_view();
    let mut i: usize = 0;
    while i < rows.len()
        invariant
            i <= rows@.len(),
            all == rows.deep_view(),
            lines.deep_view() =~= first_lines + Seq::new(i as nat, |k: int| all[k].spans),
            row_map.deep_view() =~= first_map + Seq::new(i as nat, |k: int| all[k].info),
        decreases rows.len() - i,
    {
        let row = &rows[i];
        assert(all[i as int] == row.deep_view());
        let line = Line { spans: copy_styled(row.spans.as_slice()) };
        assert(line.deep_view() =~= row.deep_view().spans);
        let info = row.info.clone();
        let ghost before_lines = lines.deep_view();
        let ghost before_map = row_map.deep_view();
        lines.push(line);
        row_map.push(info);
        assert(lines.deep_view() =~= before_lines.push(line.deep_view()));
        assert(row_map.deep_view() =~= before_map.push(info.deep_view()));
        i = i + 1;
    }
}

impl<'a> DiffViewModel<'a> {
    /// Whether these are the items of a state of the program, drawn in an area. Images are not
    /// scrolled into: the first item is drawn from its top where it is one.
    pub open spec fn shows(self, app: App, items: Seq<DisplayableItem>, area: Rect) -> bool {
        &&& self.items@ == items
        &&& self.lines@ == app.lines@
        &&& *self.selection == app.view.selection
        &&& self.collapsed_files@ == app.view.collapsed_files@
        &&& self.area == area
        &&& self.show_copied_flash == app.show_copied_flash
        &&& *self.image_cache == app.image_cache
        &&& self.font_size == app.font_size
        &&& self.vcs_backend == app.comparison.vcs_backend
        &&& *self.search == app.search
        &&& self.upstream_files.deep_view() == app.comparison.upstream_files.deep_view()
        &&& self.reviewed_files@ == app.view.reviewed_files@
        &&& self.top_sub_row == (if items.len() > 0 && (items[0] matches DisplayableItem::Line(idx)
            && app.lines@[idx as int].deep_view().marks_image()) {
            0
        } else {
            app.view.sub_row
        })
    }

    /// What is drawn of the items that are shown. Images are not scrolled into: the first item is
    /// drawn from its top where it is one.
    pub fn from_app(app: &'a App, items: &'a [DisplayableItem], area: Rect) -> (r: Self)
        requires
            items@.len() > 0 ==> (items@[0] matches DisplayableItem::Line(idx) ==> idx
                < app.lines@.len()),
        ensures
            r.shows(*app, items@, area),
    {
        let mut top_sub_row: usize = app.view.sub_row;
        if items.len() > 0 {
            if let DisplayableItem::Line(idx) = &items[0] {
                assert(items@[0] == DisplayableItem::Line(*idx));
                if app.lines[*idx].is_image_marker() {
                    top_sub_row = 0;
                }
            }
        }
        let upstream_files = match &app.comparison.upstream_files {
            Some(files) => {
                let part = files.as_slice();
                assert(part.deep_view() =~= files.deep_view());
                Some(part)
            },
            None => None,
        };
        DiffViewModel {
            items,
            lines: app.lines.as_slice(),
            selection: &app.view.selection,
            collapsed_files: app.view.collapsed_files.as_slice(),
            area,
            show_copied_flash: app.show_copied_flash,
            image_cache: &app.image_cache,
            font_size: app.font_size,
            vcs_backend: app.comparison.vcs_backend,
            search: &app.search,
            upstream_files,
            reviewed_files: app.view.reviewed_files.as_slice(),
            top_sub_row,
        }
    }
}

/// Where an image is drawn, cut off at the bottom of the view. There is nothing to draw of an image
/// that begins below it.
pub open spec fn visible_part(
    pos: ImagePositionView,
    content_offset: (u16, u16),
    area: Rect,
) -> Option<Rect> {
    let top = content_offset.1 + pos.start_row;
    let bottom = area.y + area.height;
    if top >= bottom || pos.height == 0 {
        None
    } else {
        Some(
            Rect {
                x: (area.x + 1) as u16,
                y: top as u16,
                width: if area.width >= 2 {
                    (area.width - 2) as u16
                } else {
                    0
                },
                height: if pos.height <= bottom - top {
                    pos.height
                } else {
                    (bottom - top) as u16
                },
            },
        )
    }
}

/// Where an image is drawn, where any of it is visible.
pub fn image_area(pos: &ImageRenderPosition, content_offset: (u16, u16), area: Rect) -> (r: Option<
    Rect,
>)
    requires
        is_area(area),
        area.x < u16::MAX,
    ensures
        r == visible_part(pos.deep_view(), content_offset, area),
{
    let bottom: u16 = area.y + area.height;
    if pos.start_row > u16::MAX - content_offset.1 {
        return None;
    }
    let top: u16 = content_offset.1 + pos.start_row;
    if top >= bottom || pos.height == 0 {
        return None;
    }
    let room: u16 = bottom - top;
    Some(
        Rect {
            x: area.x + 1,
            y: top,
            width: area.width.saturating_sub(2),
            height: if pos.height <= room {
                pos.height
            } else {
                room
            },
        },
    )
}

/// An image diff, and where it is drawn.
#[derive(Debug)]
pub struct PlacedImage {
    /// The path of the file that holds the images.
    pub path: String,
    pub area: Rect,
    pub layout: ImageDiffLayout,
}

/// What a `PlacedImage` holds.
pub struct PlacedImageView {
    pub path: Seq<char>,
    pub area: Rect,
    pub layout: ImageDiffLayoutView,
}

impl DeepView for PlacedImage {
    type V = PlacedImageView;

    open spec fn deep_view(&self) -> PlacedImageView {
        PlacedImageView { path: self.path@, area: self.area, layout: self.layout.deep_view() }
    }
}

/// The images that are drawn, and the kept images then: those that were drawn were used.
pub open spec fn placed(
    kept: Seq<KeptView>,
    positions: Seq<ImagePositionView>,
    content_offset: (u16, u16),
    area: Rect,
    font_size: (u16, u16),
) -> (Seq<PlacedImageView>, Seq<KeptView>)
    decreases positions.len(),
{
    if positions.len() == 0 {
        (Seq::empty(), kept)
    } else {
        let (images, kept) = placed(kept, positions.drop_last(), content_offset, area, font_size);
        let pos = positions.last();
        match visible_part(pos, content_offset, area) {
            Some(part) => if keeps(kept, pos.file_path) {
                let state = kept[position_of(kept, pos.file_path, 0)].state;
                let layout = layout_of(
                    part,
                    halves_of(part),
                    state,
                    pos.file_path,
                    pos.expected_available_height,
                    font_size,
                );
                let image = PlacedImageView { path: pos.file_path, area: part, layout };
                (images.push(image), used(kept, pos.file_path))
            } else {
                (images, kept)
            },
            None => (images, kept),
        }
    }
}

/// Draws the images that are kept where space was left for them.
pub fn render_images_at_positions(
    image_cache: &mut ImageCache,
    positions: &[ImageRenderPosition],
    content_offset: (u16, u16),
    area: Rect,
    font_size: (u16, u16),
) -> (r: Vec<PlacedImage>)
    requires
        is_area(area),
        area.x < u16::MAX,
    ensures
        (r.deep_view(), final(image_cache)@) == placed(
            old(image_cache)@,
            positions.deep_view(),
            content_offset,
            area,
            font_size,
        ),
{
    let ghost all = positions.deep_view();
    let ghost kept = image_cache@;
    let mut out: Vec<PlacedImage> = Vec::new();
    let mut i: usize = 0;
    assert(out.deep_view() =~= Seq::empty());
    while i < positions.len()
        invariant
            i <= positions@.len(),
            is_area(area),
            area.x < u16::MAX,
            all == positions.deep_view(),
            (out.deep_view(), image_cache@) == placed(
                kept,
                all.take(i as int),
                content_offset,
                area,
                font_size,
            ),
        decreases positions.len() - i,
    {
        let pos = &positions[i];
        assert(all.take(i + 1).drop_last() =~= all.take(i as int));
        assert(all[i as int] == pos.deep_view());
        if let Some(part) = image_area(pos, content_offset, area) {
            if let Some(state) = image_cache.get(pos.file_path.as_str()) {
                let (layout, _) = render_image_diff(
                    part,
                    state,
                    pos.file_path.as_str(),
                    pos.expected_available_height,
                    font_size,
                );
                let image = PlacedImage { path: pos.file_path.clone(), area: part, layout };
                let ghost before = out.deep_view();
                out.push(image);
                assert(out.deep_view() =~= before.push(image.deep_view()));
            }
        }
        i = i + 1;
    }
    assert(all.take(all.len() as int) =~= all);
    out
}

/// What rows show, again.
fn copy_row_map(row_map: &[ScreenRowInfo]) -> (r: Vec<ScreenRowInfo>)
    ensures
        r.deep_view() == row_map.deep_view(),
{
    let ghost all = row_map.deep_view();
    let mut out: Vec<ScreenRowInfo> = Vec::new();
    let mut i: usize = 0;
    while i < row_map.len()
        invariant
            i <= row_map@.len(),
            all == row_map.deep_view(),
            out.deep_view() =~= all.take(i as int),
        decreases row_map.len() - i,
    {
        let info = row_map[i].clone();
        assert(all[i as int] == row_map@[i as int].deep_view());
        let ghost before = out.deep_view();
        out.push(info);
        assert(out.deep_view() =~= before.push(info.deep_view()));
        i = i + 1;
    }
    assert(all.take(all.len() as int) =~= all);
    out
}

/// Draws the items of the diff that are shown, and the images over them. What the rows show is kept
/// for later.
pub fn draw_diff_view_with_frame(
    app: &mut App,
    items: &[DisplayableItem],
    area: Rect,
    highlighter: &mut SyntaxHighlighter,
) -> (r: (DiffFrame, Vec<PlacedImage>))
    requires
        forall|i: int|
            0 <= i < items@.len() ==> (#[trigger] items@[i] matches DisplayableItem::Line(idx)
                ==> idx < old(app).lines@.len()),
        is_area(area),
        area.x < u16::MAX,
        area.y < u16::MAX,
        old(app).search matches Some(search) ==> search.current < u64::MAX,
    ensures
        exists|model: DiffViewModel| #[trigger]
            model.shows(*old(app), items@, area) && model.drawn_as(
                r.0,
                old(highlighter)@.fresh(),
                final(highlighter)@,
            ),
        (r.1.deep_view(), final(app).image_cache@) == placed(
            old(app).image_cache@,
            r.0.output.image_positions.deep_view(),
            r.0.output.content_offset,
            area,
            old(app).font_size,
        ),
        final(app).view.row_map.deep_view() == r.0.output.row_map.deep_view(),
        *final(app) == (App {
            image_cache: final(app).image_cache,
            view: ViewState { row_map: final(app).view.row_map, ..old(app).view },
            ..*old(app)
        }),
{
    let model = DiffViewModel::from_app(app, items, area);
    let frame = model.render(highlighter);
    assert(model.shows(*old(app), items@, area));
    let row_map = frame.output.row_map.as_slice();
    assert(row_map.deep_view() =~= frame.output.row_map.deep_view());
    app.view.row_map = copy_row_map(row_map);
    let positions = frame.output.image_positions.as_slice();
    assert(positions.deep_view() =~= frame.output.image_positions.deep_view());
    let images = render_images_at_positions(
        &mut app.image_cache,
        positions,
        frame.output.content_offset,
        area,
        app.font_size,
    );
    (frame, images)
}

/// Images stay inside the view, however far it is scrolled.
pub proof fn law_images_stay_inside(pos: ImagePositionView, content_offset: (u16, u16), area: Rect)
    requires
        is_area(area),
        area.width >= 2,
        content_offset == ((area.x + 1) as u16, (area.y + 1) as u16),
        area.x < u16::MAX,
        area.y < u16::MAX,
    ensures
        visible_part(pos, content_offset, area) matches Some(part) ==> {
            &&& area.x < part.x
            &&& part.x + part.width < area.x + area.width
            &&& area.y < part.y
            &&& part.y + part.height <= area.y + area.height
            &&& 0 < part.height <= pos.height
        },
{
}

/// How wide the text is wrapped depends on the lines and on the area alone, not on what of them is
/// shown or on how far the view is scrolled.
pub proof fn law_content_width_does_not_change_with_scrolling(a: DiffViewModel, b: DiffViewModel)
    requires
        a.lines.deep_view() == b.lines.deep_view(),
        a.area == b.area,
    ensures
        measures(a.lines.deep_view(), a.area) == measures(b.lines.deep_view(), b.area),
{
}

/// However long a line is, it takes no more rows than the view has left, and one more where the
/// last of them is needed for its new text.
pub proof fn law_lines_take_bounded_rows(
    model: DiffViewModel,
    idx: usize,
    skip: usize,
    screen_row: nat,
    stream: StreamView,
)
    requires
        !model.lines.deep_view()[idx as int].marks_image(),
    ensures
        ({
            let m = measures(model.lines.deep_view(), model.area);
            model.line_rows(m, idx, skip, screen_row, stream).rows.len() <= (if screen_row
                < m.max_rows {
                m.max_rows - screen_row + 1
            } else {
                2
            })
        }),
{
}

/// Scrolling into a line leaves its rows as they are: the first ones are gone, and the others
/// follow.
pub proof fn law_scrolled_rows_follow(
    model: DiffViewModel,
    m: Measures,
    spans: Seq<SpanView>,
    content: Seq<char>,
    prefix: Seq<char>,
    mark: Seq<char>,
    style: Style,
    skip: usize,
    screen_row: nat,
    i: int,
)
    requires
        *model.selection is None,
        0 <= i < model.block(m, spans, content, prefix, mark, style, skip, screen_row).len(),
        i + skip < model.block(m, spans, content, prefix, mark, style, 0, screen_row).len(),
    ensures
        model.block(m, spans, content, prefix, mark, style, skip, screen_row)[i] == model.block(
            m,
            spans,
            content,
            prefix,
            mark,
            style,
            0,
            screen_row,
        )[i + skip],
{
}

/// Images keep their size and their place where the view cuts them off: in a view that is less high,
/// the panels show the first rows of what they show in the higher one.
pub proof fn law_images_keep_their_size(
    pos: ImagePositionView,
    content_offset: (u16, u16),
    area: Rect,
    height: u16,
    state: ImageDiffStateView,
    font_size: (u16, u16),
)
    requires
        is_area(area),
        area.x < u16::MAX,
        height <= area.height,
        visible_part(pos, content_offset, Rect { height, ..area }) matches Some(part)
            && part.height >= MIN_IMAGE_HEIGHT + 4,
    ensures
        ({
            let part = visible_part(pos, content_offset, Rect { height, ..area })->0;
            let whole = visible_part(pos, content_offset, area)->0;
            let expected = pos.expected_available_height;
            let cut = layout_of(part, halves_of(part), state, pos.file_path, expected, font_size);
            let full = layout_of(whole, halves_of(whole), state, pos.file_path, expected, font_size);
            &&& visible_part(pos, content_offset, area) is Some
            &&& cut matches ImageDiffLayoutView::Panels(before, after)
            &&& full matches ImageDiffLayoutView::Panels(whole_before, whole_after)
            &&& before.body.shows_part_of(whole_before.body)
            &&& after.body.shows_part_of(whole_after.body)
        }),
{
    let part = visible_part(pos, content_offset, Rect { height, ..area })->0;
    let whole = visible_part(pos, content_offset, area)->0;
    let (left, right) = halves_of(whole);
    let expected = pos.expected_available_height;
    let (before, after) = ("Before (base)"@, "After (working)"@);
    assert(halves_of(part) == (
        Rect { height: part.height, ..left },
        Rect { height: part.height, ..right },
    ));
    law_cut_off_images_keep_their_size(
        left,
        part.height,
        state.before,
        before,
        true,
        expected,
        font_size,
    );
    law_cut_off_images_keep_their_size(
        right,
        part.height,
        state.after,
        after,
        false,
        expected,
        font_size,
    );
}

/// The rows that an image is fitted into are those that were set apart for it without the border and
/// the text around it, wherever it stands in the view.
pub proof fn law_images_are_fitted_into_their_rows(
    model: DiffViewModel,
    m: Measures,
    n: nat,
    stream: StreamView,
    i: int,
)
    requires
        n <= model.items@.len(),
        0 <= i < model.rows(m, n, stream).images.len(),
    ensures
        ({
            let pos = model.rows(m, n, stream).images[i];
            pos.expected_available_height == (if pos.height >= IMAGE_PANEL_OVERHEAD {
                pos.height - IMAGE_PANEL_OVERHEAD
            } else {
                0
            })
        }),
    decreases n,
{
    if n > 0 {
        let before = model.rows(m, (n - 1) as nat, stream);
        if i < before.images.len() {
            law_images_are_fitted_into_their_rows(model, m, (n - 1) as nat, stream, i);
        } else {
            match model.items@[n - 1] {
                DisplayableItem::Line(idx) => {
                    let line = model.lines.deep_view()[idx as int];
                    lemma_image_height(model, line);
                },
                _ => {},
            }
        }
    }
}

/// The height of an image fits into 16 bits.
proof fn lemma_image_height(model: DiffViewModel, line: DiffLineView)
    ensures
        ({
            let state = image_of(*model.image_cache, line.file_path);
            state is Some ==> image_rows(
                size_of(state->0.before),
                size_of(state->0.after),
                model.area.width,
                model.font_size,
            ) <= u16::MAX
        }),
{
}

} // verus!

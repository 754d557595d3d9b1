//! The diff in plain colours: one for each source, without highlighting. Text is wrapped by its
//! bytes.
use vstd::prelude::*;
use vstd::string::*;

use crate::app::Selection;
use crate::bytes::bytes_in;
use crate::bytes::cut;
use crate::bytes::find_cut;
use crate::bytes::lemma_cut;
use crate::bytes::text_bytes;
use crate::diff::copy_spans;
use crate::diff::InlineSpan;
use crate::diff::largest_line_number;
use crate::diff::largest_number;
use crate::diff::DiffLine;
use crate::diff::DiffLineView;
use crate::diff::InlineSpanView;
use crate::diff::LineSource;
use crate::diff::law_largest_number;
use crate::style::lemma_text_of_push;
use crate::style::plain_style;
use crate::style::raw;
use crate::style::styled;
use crate::style::text_of_spans;
use crate::style::Color;
use crate::style::Line;
use crate::style::Rect;
use crate::style::Span;
use crate::style::SpanView;
use crate::style::Style;
use crate::text::align_right;
use crate::text::chars_of;
use crate::text::copies;
use crate::text::decimal;
use crate::text::lemma_decimal_is_short;
use crate::text::lemma_larger_numbers_are_longer;
use crate::text::number;
use crate::text::repeat_char;
use crate::text::right_aligned;
use crate::text::substring;
use crate::ui::colors::print_line_style;
use crate::ui::colors::style_of_print;
use crate::ui::frame_areas;
use crate::ui::layout::is_area;
use crate::ui::modals::help::centered;
use crate::ui::modals::help::draw_short_help;
use crate::ui::modals::help::short_help_rows;
use crate::ui::modals::help::HelpModal;
use crate::ui::search::shown_text;
use crate::ui::selection::get_line_selection_range;
use crate::ui::selection::selected_range;
use crate::ui::selection::selection_bg_color;
use crate::ui::spans::fragmented;
use crate::ui::spans::is_fragmented;
use crate::ui::spans::kept_back_to;
use crate::ui::spans::kept_behind;
use crate::ui::spans::kept_in_front;
use crate::ui::spans::lemma_kept_back_to;
use crate::ui::spans::lemma_merged_between;
use crate::ui::spans::lemma_prefix_end;
use crate::ui::spans::lemma_some_change;
use crate::ui::spans::merge_between;
use crate::ui::spans::merged;
use crate::ui::spans::new_text;
use crate::ui::spans::old_text;
use crate::ui::spans::prefix_end;
use crate::ui::wrapping::clip;
use crate::ui::visible_rows;
use crate::ui::wrapping::row_lead;
use crate::ui::FrameAreas;

verus! {

/// Width of what stands between the line number and the text of a line: the prefix and a space.
pub const PREFIX_WIDTH: usize = 2;

/// The rows that text was wrapped into, and the row that is being filled.
pub struct Filled {
    pub rows: Seq<Seq<SpanView>>,
    pub spans: Seq<SpanView>,
    pub width: nat,
}

impl Filled {
    pub open spec fn start() -> Filled {
        Filled { rows: Seq::empty(), spans: Seq::empty(), width: 0 }
    }

    /// The row is full, and a new one begins.
    pub open spec fn turned(self) -> Filled {
        Filled { rows: self.rows.push(self.spans), spans: Seq::empty(), width: 0 }
    }

    /// One more stretch of text in the row.
    pub open spec fn with(self, text: Seq<char>, style: Style) -> Filled {
        Filled {
            rows: self.rows,
            spans: self.spans.push(styled(text, style)),
            width: self.width + text_bytes(text),
        }
    }

    /// Text is put into the row, and into more rows of `width` bytes where it does not fit. There
    /// is no way to do so where rows have no width, or where a row would end within a character.
    pub open spec fn fill(self, text: Seq<char>, style: Style, width: nat) -> Option<Filled>
        decreases text.len(), self.width,
    {
        if text.len() == 0 {
            Some(self)
        } else if self.width >= width {
            if width == 0 {
                None
            } else {
                self.turned().fill(text, style, width)
            }
        } else {
            let room = (width - self.width) as nat;
            if text_bytes(text) <= room {
                Some(self.with(text, style))
            } else {
                match cut(text, room, 0) {
                    Some(k) => if 0 < k <= text.len() {
                        self.with(text.take(k), style).turned().fill(text.skip(k), style, width)
                    } else {
                        None
                    },
                    None => None,
                }
            }
        }
    }

    pub open spec fn fill_all(self, spans: Seq<SpanView>, width: nat) -> Option<Filled>
        decreases spans.len(),
    {
        if spans.len() == 0 {
            Some(self)
        } else {
            match self.fill_all(spans.drop_last(), width) {
                Some(st) => st.fill(spans.last().content, spans.last().style, width),
                None => None,
            }
        }
    }

    /// The rows once there is no more text.
    pub open spec fn finished(self) -> Seq<Seq<SpanView>> {
        if self.spans.len() > 0 || self.rows.len() == 0 {
            self.rows.push(self.spans)
        } else {
            self.rows
        }
    }
}

/// How many bytes the text of spans takes up.
pub open spec fn spans_bytes(spans: Seq<SpanView>) -> nat
    decreases spans.len(),
{
    if spans.len() == 0 {
        0
    } else {
        spans_bytes(spans.drop_last()) + text_bytes(spans.last().content)
    }
}

/// The rows that spans are wrapped into, where they can be.
pub open spec fn simple_rows(spans: Seq<SpanView>, width: nat) -> Option<Seq<Seq<SpanView>>> {
    if clip(spans_bytes(spans)) <= width {
        Some(seq![spans])
    } else {
        match Filled::start().fill_all(spans, width) {
            Some(st) => Some(st.finished()),
            None => None,
        }
    }
}

/// The least of two numbers.
pub open spec fn least(a: int, b: int) -> int {
    if a <= b {
        a
    } else {
        b
    }
}

/// A piece of a span, where there is any text in it.
pub open spec fn piece(text: Seq<char>, from: int, to: int, style: Style) -> Seq<SpanView> {
    let from = least(from, text.len() as int);
    let to = least(to, text.len() as int);
    if from < to {
        seq![styled(text.subrange(from, to), style)]
    } else {
        Seq::empty()
    }
}

/// A span that begins behind `offset` bytes, cut into what stands before the selection, in it and
/// behind it. Offsets count bytes, and characters within the span.
pub open spec fn cut_by_selection(
    span: SpanView,
    offset: usize,
    sel_start: usize,
    sel_end: usize,
) -> Seq<SpanView> {
    let size = text_bytes(span.content);
    let end = clip((offset + size) as nat);
    if end <= sel_start || offset >= sel_end {
        seq![span]
    } else {
        let chosen = span.style.with_bg(selection_bg_color());
        let from = if sel_start >= offset {
            sel_start - offset
        } else {
            0
        };
        let to = least(sel_end - offset, size as int);
        let before = piece(span.content, 0, least(from, size as int), span.style);
        let inside = piece(span.content, from, to, chosen);
        let behind = if end > sel_end {
            piece(span.content, sel_end - offset, span.content.len() as int, span.style)
        } else {
            Seq::empty()
        };
        let all = before + inside + behind;
        if all.len() == 0 {
            seq![span]
        } else {
            all
        }
    }
}

/// Spans with the selection marked in them.
pub open spec fn all_cut(spans: Seq<SpanView>, sel_start: usize, sel_end: usize) -> Seq<SpanView>
    decreases spans.len(),
{
    if spans.len() == 0 {
        Seq::empty()
    } else {
        all_cut(spans.drop_last(), sel_start, sel_end) + cut_by_selection(
            spans.last(),
            clip(spans_bytes(spans.drop_last())),
            sel_start,
            sel_end,
        )
    }
}

/// The colour of a source.
pub open spec fn simple_style(source: LineSource) -> Style {
    let plain = plain_style();
    match source {
        LineSource::Base => plain.with_fg(Color::DarkGray),
        LineSource::Committed => plain.with_fg(Color::Cyan),
        LineSource::Staged => plain.with_fg(Color::Green),
        LineSource::Unstaged => plain.with_fg(Color::Yellow),
        LineSource::DeletedBase => plain.with_fg(Color::Red),
        LineSource::DeletedCommitted => plain.with_fg(Color::LightRed),
        LineSource::DeletedStaged => plain.with_fg(Color::Rgb(255, 150, 150)),
        LineSource::CanceledCommitted | LineSource::CanceledStaged => style_of_print(source),
        LineSource::FileHeader => plain.with_fg(Color::White).with_bold(),
        LineSource::Elided => plain.with_fg(Color::DarkGray),
    }
}

/// The spans that scattered changes are merged from: those between the unchanged ones that are kept
/// in front of the changes and behind them. The last span is kept like the others.
pub open spec fn scattered(spans: Seq<InlineSpanView>) -> Seq<InlineSpanView> {
    spans.subrange(prefix_end(spans, 0), kept_back_to(spans, spans.len() as int))
}

/// The spans, with scattered changes merged.
pub open spec fn coalesced(spans: Seq<InlineSpanView>) -> Seq<InlineSpanView> {
    if fragmented(spans) {
        spans.take(prefix_end(spans, 0)) + merged(scattered(spans)) + spans.skip(
            kept_back_to(spans, spans.len() as int),
        )
    } else {
        spans
    }
}

/// The unchanged spans that are kept in front of the changes end before those behind them begin.
proof fn lemma_bounds(spans: Seq<InlineSpanView>)
    requires
        fragmented(spans),
    ensures
        0 <= prefix_end(spans, 0) < kept_back_to(spans, spans.len() as int) <= spans.len(),
{
    lemma_some_change(spans);
    let k = choose|k: int| 0 <= k < spans.len() && (#[trigger] spans[k]).changed();
    lemma_prefix_end(spans, 0);
    lemma_kept_back_to(spans, spans.len() as int);
    assert(prefix_end(spans, 0) <= k < kept_back_to(spans, spans.len() as int));
}

/// The spans, with scattered changes merged: the unchanged text in front of the changes and behind
/// them is kept as far as it is substantial, and what is left in between becomes one deletion and
/// one insertion.
pub fn coalesce_spans(spans: &[InlineSpan]) -> (r: Vec<InlineSpan>)
    ensures
        r.deep_view() == coalesced(spans.deep_view()),
{
    let ghost all = spans.deep_view();
    if !is_fragmented(spans) {
        let r = copy_spans(spans);
        assert(r.deep_view() =~= all);
        return r;
    }
    proof {
        lemma_bounds(all);
    }
    let front = kept_in_front(spans);
    let back = kept_behind(spans, spans.len());
    merge_between(spans, front, back)
}

/// Merging scattered changes never alters the text that the line has after them.
pub proof fn law_coalescing_keeps_new_text(spans: Seq<InlineSpanView>)
    ensures
        new_text(coalesced(spans)) == new_text(spans),
{
    if fragmented(spans) {
        lemma_bounds(spans);
        lemma_merged_between(spans, prefix_end(spans, 0), kept_back_to(spans, spans.len() as int));
    }
}

/// The text of a line: in one colour, or with the stretches of a modified line in theirs.
pub open spec fn simple_content(line: DiffLineView) -> Seq<SpanView> {
    let style = simple_style(line.source);
    if line.inline_spans.len() == 0 {
        seq![styled(line.content, style)]
    } else {
        coalesced(line.inline_spans).map_values(
            |span: InlineSpanView|
                styled(
                    span.text,
                    match span.source {
                        Some(source) => simple_style(source),
                        None => style,
                    },
                ),
        )
    }
}

/// Text behind a line number, as far as there are any.
pub open spec fn numbered(prefix: Seq<char>, spans: Seq<SpanView>) -> Seq<SpanView> {
    (if prefix.len() > 0 {
        seq![styled(prefix, plain_style().with_fg(Color::DarkGray))]
    } else {
        Seq::empty()
    }) + spans
}

/// The line number in front of a line, or the space that it takes.
pub open spec fn number_column(line: DiffLineView, line_num_width: nat) -> Seq<char> {
    match line.line_number {
        Some(n) => right_aligned(decimal(n as nat), line_num_width) + " "@,
        None => if line_num_width > 0 {
            copies(' ', line_num_width + 1)
        } else {
            Seq::empty()
        },
    }
}

/// The size of the view: the columns of line numbers, of what stands in front of the text, and of
/// the text.
pub struct SimpleMeasures {
    pub line_num_width: usize,
    pub prefix_width: usize,
    pub content_width: usize,
}

/// The rows of a line, where it can be drawn.
pub open spec fn simple_line(
    line: DiffLineView,
    row: usize,
    selection: Option<Selection>,
    m: SimpleMeasures,
) -> Option<Seq<Seq<SpanView>>> {
    let faint = plain_style().with_fg(Color::DarkGray);
    let style = simple_style(line.source);
    let prefix = number_column(line, m.line_num_width as nat);
    if line.source is FileHeader {
        Some(
            seq![
                numbered(
                    prefix,
                    seq![
                        styled("── "@, faint),
                        styled(line.content, style),
                        styled(" ──"@, faint),
                    ],
                ),
            ],
        )
    } else if line.source is Elided {
        Some(
            seq![numbered(prefix, seq![styled("┈┈ ⋮ "@ + line.content + " ⋮ ┈┈"@, style)])],
        )
    } else {
        let content = simple_content(line);
        let spans = match selected_range(selection, row) {
            Some(range) => all_cut(
                content,
                if range.0 >= m.prefix_width {
                    (range.0 - m.prefix_width) as usize
                } else {
                    0
                },
                if range.1 >= m.prefix_width {
                    (range.1 - m.prefix_width) as usize
                } else {
                    0
                },
            ),
            None => content,
        };
        match simple_rows(spans, m.content_width as nat) {
            Some(rows) => Some(
                Seq::new(
                    rows.len(),
                    |i: int|
                        row_lead(
                            i,
                            prefix,
                            seq![line.prefix] + " "@,
                            style,
                            m.prefix_width as nat,
                        ) + rows[i],
                ),
            ),
            None => None,
        }
    }
}

/// The rows of the lines, where all of them can be drawn. The first line is line `offset` of the
/// diff.
pub open spec fn simple_lines(
    lines: Seq<DiffLineView>,
    offset: usize,
    selection: Option<Selection>,
    m: SimpleMeasures,
) -> Option<Seq<Seq<SpanView>>>
    decreases lines.len(),
{
    if lines.len() == 0 {
        Some(Seq::empty())
    } else {
        let row = clip((offset + (lines.len() - 1)) as nat);
        match (
            simple_lines(lines.drop_last(), offset, selection, m),
            simple_line(lines.last(), row, selection, m),
        ) {
            (Some(before), Some(rows)) => Some(before + rows),
            _ => None,
        }
    }
}

/// How many bytes a text takes up.
fn byte_count(text: &str) -> (r: usize)
    ensures
        r == clip(text_bytes(text@)),
{
    let cs = chars_of(text);
    let n = bytes_in(cs.as_slice());
    if n <= usize::MAX as u128 {
        n as usize
    } else {
        usize::MAX
    }
}

/// The rows that text was wrapped into, and the row that is being filled.
struct Filling {
    rows: Vec<Line>,
    spans: Vec<Span>,
    width: usize,
}

impl View for Filling {
    type V = Filled;

    closed spec fn view(&self) -> Filled {
        Filled {
            rows: self.rows.deep_view(),
            spans: self.spans.deep_view(),
            width: self.width as nat,
        }
    }
}

impl Filling {
    fn turn(&mut self)
        ensures
            final(self)@ == old(self)@.turned(),
    {
        let mut spans: Vec<Span> = Vec::new();
        assert(spans.deep_view() =~= Seq::empty());
        std::mem::swap(&mut spans, &mut self.spans);
        let line = Line { spans };
        let ghost before = self.rows.deep_view();
        self.rows.push(line);
        assert(self.rows.deep_view() =~= before.push(line.deep_view()));
        self.width = 0;
    }

    fn put(&mut self, text: String, style: Style, size: usize)
        requires
            size == text_bytes(text@),
            old(self)@.width + size <= usize::MAX,
        ensures
            final(self)@ == old(self)@.with(text@, style),
    {
        let ghost before = self.spans.deep_view();
        let span = Span::styled(text, style);
        self.spans.push(span);
        assert(self.spans.deep_view() =~= before.push(span.deep_view()));
        self.width = self.width + size;
    }

    fn fill(&mut self, text: &str, style: Style, width: usize)
        requires
            old(self)@.fill(text@, style, width as nat) is Some,
        ensures
            Some(final(self)@) == old(self)@.fill(text@, style, width as nat),
    {
        let cs = chars_of(text);
        let mut from: usize = 0;
        let ghost done = self@.fill(text@, style, width as nat);
        assert(text@.skip(0) =~= text@);
        while from < cs.len()
            invariant
                from <= cs@.len(),
                cs@ == text@,
                done is Some,
                self@.fill(text@.skip(from as int), style, width as nat) == done,
            decreases cs.len() - from, self@.width,
        {
            let ghost left = text@.skip(from as int);
            if self.width >= width {
                self.turn();
                continue ;
            }
            let room: usize = width - self.width;
            let rest = vstd::slice::slice_subrange(cs.as_slice(), from, cs.len());
            assert(rest@ =~= left);
            let size = bytes_in(rest);
            if size <= room as u128 {
                let piece = substring(cs.as_slice(), from, cs.len());
                assert(piece@ =~= left);
                self.put(piece, style, size as usize);
                from = cs.len();
                assert(text@.skip(from as int).len() == 0);
            } else {
                let k = find_cut(rest, room);
                let piece = substring(cs.as_slice(), from, from + k);
                assert(piece@ =~= left.take(k as int));
                proof {
                    lemma_cut(left, room as nat, 0);
                    assert(left.subrange(0, k as int) =~= left.take(k as int));
                    assert(text@.skip((from + k) as int) =~= left.skip(k as int));
                }
                self.put(piece, style, room);
                self.turn();
                from = from + k;
            }
        }
        assert(text@.skip(from as int).len() == 0);
    }
}

/// How many bytes the text of spans takes up.
fn count_bytes(spans: &[Span]) -> (r: usize)
    ensures
        r == clip(spans_bytes(spans.deep_view())),
{
    let ghost all = spans.deep_view();
    let mut total: usize = 0;
    let mut i: usize = 0;
    assert(all.take(0).len() == 0);
    while i < spans.len()
        invariant
            i <= spans@.len(),
            all == spans.deep_view(),
            total == clip(spans_bytes(all.take(i as int))),
        decreases spans.len() - i,
    {
        assert(all.take(i + 1).drop_last() =~= all.take(i as int));
        assert(all[i as int] == spans@[i as int].deep_view());
        total = total.saturating_add(byte_count(spans[i].content.as_str()));
        i = i + 1;
    }
    assert(all.take(all.len() as int) =~= all);
    total
}

/// Wraps spans into rows.
fn wrap_simply(spans: Vec<Span>, width: usize) -> (r: Vec<Line>)
    requires
        simple_rows(spans.deep_view(), width as nat) is Some,
    ensures
        Some(r.deep_view()) == simple_rows(spans.deep_view(), width as nat),
{
    let ghost all = spans.deep_view();
    let part = spans.as_slice();
    assert(part.deep_view() =~= all);
    if count_bytes(part) <= width {
        let mut out: Vec<Line> = Vec::new();
        let line = Line { spans };
        out.push(line);
        assert(out.deep_view() =~= seq![all]);
        return out;
    }
    let mut filling = Filling { rows: Vec::new(), spans: Vec::new(), width: 0 };
    assert(filling.rows.deep_view() =~= Seq::empty());
    assert(filling.spans.deep_view() =~= Seq::empty());
    let mut i: usize = 0;
    assert(all.take(0).len() == 0);
    assert(all.take(all.len() as int) =~= all);
    while i < spans.len()
        invariant
            i <= spans@.len(),
            all == spans.deep_view(),
            Filled::start().fill_all(all, width as nat) is Some,
            Some(filling@) == Filled::start().fill_all(all.take(i as int), width as nat),
        decreases spans.len() - i,
    {
        proof {
            lemma_fill_all(all, i + 1, width as nat);
            assert(all.take(i + 1).drop_last() =~= all.take(i as int));
            assert(all[i as int] == spans@[i as int].deep_view());
        }
        filling.fill(spans[i].content.as_str(), spans[i].style, width);
        i = i + 1;
    }
    assert(all.take(all.len() as int) =~= all);
    assert(filling@.spans.len() == filling.spans@.len());
    assert(filling@.rows.len() == filling.rows@.len());
    if filling.spans.len() > 0 || filling.rows.len() == 0 {
        filling.turn();
    }
    filling.rows
}

/// Where spans can be wrapped, the first of them can be.
proof fn lemma_fill_all(spans: Seq<SpanView>, i: int, width: nat)
    requires
        0 <= i <= spans.len(),
        Filled::start().fill_all(spans, width) is Some,
    ensures
        Filled::start().fill_all(spans.take(i), width) is Some,
    decreases spans.len() - i,
{
    if i < spans.len() {
        lemma_fill_all(spans, i + 1, width);
        assert(spans.take(i + 1).drop_last() =~= spans.take(i));
    } else {
        assert(spans.take(i) =~= spans);
    }
}

/// Puts a piece of a span behind others, where there is any text in it.
fn push_piece(out: &mut Vec<Span>, cs: &[char], from: usize, to: usize, style: Style)
    ensures
        final(out).deep_view() == old(out).deep_view() + piece(
            cs@,
            from as int,
            to as int,
            style,
        ),
{
    let ghost before = out.deep_view();
    let start: usize = if from <= cs.len() {
        from
    } else {
        cs.len()
    };
    let end: usize = if to <= cs.len() {
        to
    } else {
        cs.len()
    };
    if start < end {
        let span = Span::styled(substring(cs, start, end), style);
        out.push(span);
        assert(out.deep_view() =~= before.push(span.deep_view()));
    }
    assert(out.deep_view() =~= before + piece(cs@, from as int, to as int, style));
}

/// Marks the selection in a span that begins behind `offset` bytes.
fn mark_span(span: &Span, offset: usize, sel_start: usize, sel_end: usize) -> (r: Vec<Span>)
    ensures
        r.deep_view() == cut_by_selection(span.deep_view(), offset, sel_start, sel_end),
{
    let cs = chars_of(span.content.as_str());
    let size = byte_count(span.content.as_str());
    let end = offset.saturating_add(size);
    let mut out: Vec<Span> = Vec::new();
    assert(out.deep_view() =~= Seq::empty());
    if end <= sel_start || offset >= sel_end {
        out.push(span.clone());
        assert(out.deep_view() =~= seq![span.deep_view()]);
        return out;
    }
    let chosen = span.style.bg(selection_bg_color());
    let from: usize = if sel_start >= offset {
        sel_start - offset
    } else {
        0
    };
    let reach: usize = sel_end - offset;
    let first = if from <= size {
        from
    } else {
        size
    };
    let to = if reach <= size {
        reach
    } else {
        size
    };
    push_piece(&mut out, cs.as_slice(), 0, first, span.style);
    push_piece(&mut out, cs.as_slice(), from, to, chosen);
    if end > sel_end {
        push_piece(&mut out, cs.as_slice(), reach, cs.len(), span.style);
    }
    assert(out.deep_view().len() == out@.len());
    proof {
        let size = text_bytes(span.content@);
        let style = span.style;
        let text = span.content@;
        let before = piece(text, 0, first as int, style);
        let inside = piece(text, from as int, to as int, chosen);
        let behind = if end > sel_end {
            piece(text, reach as int, text.len() as int, style)
        } else {
            Seq::empty()
        };
        assert(out.deep_view() =~= before + inside + behind);
    }
    if out.len() == 0 {
        out.push(span.clone());
        assert(out.deep_view() =~= seq![span.deep_view()]);
    }
    out
}

/// Marks the selection in spans.
fn mark_spans(spans: &[Span], sel_start: usize, sel_end: usize) -> (r: Vec<Span>)
    ensures
        r.deep_view() == all_cut(spans.deep_view(), sel_start, sel_end),
{
    let ghost all = spans.deep_view();
    let mut out: Vec<Span> = Vec::new();
    let mut offset: usize = 0;
    let mut i: usize = 0;
    assert(all.take(0).len() == 0);
    assert(out.deep_view() =~= Seq::empty());
    while i < spans.len()
        invariant
            i <= spans@.len(),
            all == spans.deep_view(),
            offset == clip(spans_bytes(all.take(i as int))),
            out.deep_view() == all_cut(all.take(i as int), sel_start, sel_end),
        decreases spans.len() - i,
    {
        assert(all.take(i + 1).drop_last() =~= all.take(i as int));
        assert(all[i as int] == spans@[i as int].deep_view());
        let mut marked = mark_span(&spans[i], offset, sel_start, sel_end);
        let ghost before = out.deep_view();
        let ghost added = marked.deep_view();
        out.append(&mut marked);
        assert(out.deep_view() =~= before + added);
        offset = offset.saturating_add(byte_count(spans[i].content.as_str()));
        i = i + 1;
    }
    assert(all.take(all.len() as int) =~= all);
    out
}

/// The colour of a source.
pub fn simple_line_style(source: LineSource) -> (r: Style)
    ensures
        r == simple_style(source),
{
    let plain = Style::default();
    match source {
        LineSource::Base => plain.fg(Color::DarkGray),
        LineSource::Committed => plain.fg(Color::Cyan),
        LineSource::Staged => plain.fg(Color::Green),
        LineSource::Unstaged => plain.fg(Color::Yellow),
        LineSource::DeletedBase => plain.fg(Color::Red),
        LineSource::DeletedCommitted => plain.fg(Color::LightRed),
        LineSource::DeletedStaged => plain.fg(Color::Rgb(255, 150, 150)),
        LineSource::CanceledCommitted | LineSource::CanceledStaged => print_line_style(source),
        LineSource::FileHeader => plain.fg(Color::White).bold(),
        LineSource::Elided => plain.fg(Color::DarkGray),
    }
}

/// The text of a line.
fn content_spans(line: &DiffLine) -> (r: Vec<Span>)
    ensures
        r.deep_view() == simple_content(line.deep_view()),
{
    let style = simple_line_style(line.source);
    let mut out: Vec<Span> = Vec::new();
    assert(line.deep_view().inline_spans.len() == line.inline_spans@.len());
    if line.inline_spans.len() == 0 {
        out.push(Span::styled(line.content.clone(), style));
        assert(out.deep_view() =~= simple_content(line.deep_view()));
        return out;
    }
    let given = line.inline_spans.as_slice();
    assert(given.deep_view() =~= line.deep_view().inline_spans);
    let merged = coalesce_spans(given);
    let ghost all = merged.deep_view();
    let ghost expected = simple_content(line.deep_view());
    let mut i: usize = 0;
    while i < merged.len()
        invariant
            i <= merged@.len(),
            all == merged.deep_view(),
            style == simple_style(line.source),
            expected == all.map_values(
                |span: InlineSpanView|
                    styled(
                        span.text,
                        match span.source {
                            Some(source) => simple_style(source),
                            None => style,
                        },
                    ),
            ),
            out.deep_view() =~= expected.take(i as int),
        decreases merged.len() - i,
    {
        let span = &merged[i];
        assert(all[i as int] == span.deep_view());
        let drawn = Span::styled(
            span.text.clone(),
            match span.source {
                Some(source) => simple_line_style(source),
                None => style,
            },
        );
        assert(drawn.deep_view() == expected[i as int]);
        let ghost before = out.deep_view();
        out.push(drawn);
        assert(out.deep_view() =~= before.push(drawn.deep_view()));
        i = i + 1;
    }
    assert(expected.take(expected.len() as int) =~= expected);
    out
}

/// Text behind a line number, as far as there are any.
fn number_row(prefix: String, spans: Vec<Span>) -> (r: Line)
    ensures
        r.deep_view() == numbered(prefix@, spans.deep_view()),
{
    let ghost given = spans.deep_view();
    let mut out: Vec<Span> = Vec::new();
    let mut spans = spans;
    if prefix.as_str().unicode_len() > 0 {
        out.push(Span::styled(prefix, Style::default().fg(Color::DarkGray)));
    }
    out.append(&mut spans);
    let line = Line { spans: out };
    assert(line.deep_view() =~= numbered(prefix@, given));
    line
}

/// The line number in front of a line, or the space that it takes.
fn number_text(line: &DiffLine, line_num_width: usize) -> (r: String)
    requires
        line_num_width < usize::MAX,
    ensures
        r@ == number_column(line.deep_view(), line_num_width as nat),
{
    match line.line_number {
        Some(n) => {
            let digits = number(n as u64);
            let mut out = align_right(digits.as_str(), line_num_width);
            out.append(" ");
            out
        },
        None => if line_num_width > 0 {
            repeat_char(' ', line_num_width + 1)
        } else {
            String::new()
        },
    }
}

/// The rows of a line.
fn render_line(
    line: &DiffLine,
    row: usize,
    selection: &Option<Selection>,
    m: &SimpleMeasures,
) -> (r: Vec<Line>)
    requires
        m.line_num_width < usize::MAX,
        simple_line(line.deep_view(), row, *selection, *m) is Some,
    ensures
        Some(r.deep_view()) == simple_line(line.deep_view(), row, *selection, *m),
{
    let faint = Style::default().fg(Color::DarkGray);
    let style = simple_line_style(line.source);
    let prefix = number_text(line, m.line_num_width);
    let mut out: Vec<Line> = Vec::new();
    let ghost expected = simple_line(line.deep_view(), row, *selection, *m)->0;
    match line.source {
        LineSource::FileHeader => {
            let mut spans: Vec<Span> = Vec::new();
            spans.push(Span::styled(String::from_str("── "), faint));
            spans.push(Span::styled(line.content.clone(), style));
            spans.push(Span::styled(String::from_str(" ──"), faint));
            assert(spans.deep_view() =~= seq![
                styled("── "@, faint),
                styled(line.content@, style),
                styled(" ──"@, faint),
            ]);
            out.push(number_row(prefix, spans));
            assert(out.deep_view() =~= expected);
            return out;
        },
        LineSource::Elided => {
            let mut text = String::from_str("┈┈ ⋮ ");
            text.append(line.content.as_str());
            text.append(" ⋮ ┈┈");
            let mut spans: Vec<Span> = Vec::new();
            spans.push(Span::styled(text, style));
            assert(spans.deep_view() =~= seq![styled(text@, style)]);
            out.push(number_row(prefix, spans));
            assert(out.deep_view() =~= expected);
            return out;
        },
        _ => {},
    }
    let mut mark = String::new();
    mark.push(line.prefix);
    assert(mark@ =~= seq![line.prefix]);
    mark.append(" ");
    let content = content_spans(line);
    let spans = match get_line_selection_range(selection, row) {
        Some((start, end)) => {
            let part = content.as_slice();
            assert(part.deep_view() =~= content.deep_view());
            mark_spans(
                part,
                start.saturating_sub(m.prefix_width),
                end.saturating_sub(m.prefix_width),
            )
        },
        None => content,
    };
    let rows = wrap_simply(spans, m.content_width);
    let ghost wrapped = rows.deep_view();
    let indent = repeat_char(' ', m.prefix_width);
    let mut i: usize = 0;
    while i < rows.len()
        invariant
            i <= rows@.len(),
            wrapped == rows.deep_view(),
            faint == plain_style().with_fg(Color::DarkGray),
            indent@ == copies(' ', m.prefix_width as nat),
            expected =~= Seq::new(
                wrapped.len(),
                |k: int|
                    row_lead(k, prefix@, mark@, style, m.prefix_width as nat) + wrapped[k],
            ),
            out.deep_view() =~= expected.take(i as int),
        decreases rows.len() - i,
    {
        let mut spans: Vec<Span> = Vec::new();
        if i == 0 {
            spans.push(Span::styled(prefix.clone(), faint));
            spans.push(Span::styled(mark.clone(), style));
        } else {
            spans.push(Span::styled(indent.clone(), faint));
        }
        assert(spans.deep_view() =~= row_lead(
            i as int,
            prefix@,
            mark@,
            style,
            m.prefix_width as nat,
        ));
        let ghost lead = spans.deep_view();
        let text = &rows[i];
        assert(wrapped[i as int] == text.deep_view());
        let mut content = crate::style::copy_styled(text.spans.as_slice());
        assert(content.deep_view() =~= text.deep_view());
        spans.append(&mut content);
        let line = Line { spans };
        assert(line.deep_view() =~= lead + wrapped[i as int]);
        let ghost before = out.deep_view();
        out.push(line);
        assert(out.deep_view() =~= before.push(line.deep_view()));
        i = i + 1;
    }
    assert(expected.take(expected.len() as int) =~= expected);
    out
}

/// The size of the view: that of the line numbers that are shown, and what an area then has left.
pub open spec fn simple_measures(lines: Seq<DiffLineView>, area: Rect) -> SimpleMeasures {
    let widest = largest_number(lines);
    let line_num_width = if widest > 0 {
        decimal(widest).len() + 1
    } else {
        0
    };
    let prefix_width = (if line_num_width > 0 {
        line_num_width + 1
    } else {
        0
    }) + PREFIX_WIDTH;
    SimpleMeasures {
        line_num_width: line_num_width as usize,
        prefix_width: prefix_width as usize,
        content_width: if area.width >= prefix_width + 2 {
            (area.width - 2 - prefix_width) as usize
        } else {
            0
        },
    }
}

fn measure(lines: &[DiffLine], area: Rect) -> (r: SimpleMeasures)
    ensures
        r == simple_measures(lines.deep_view(), area),
        r.line_num_width <= 21,
{
    let widest = largest_line_number(lines);
    let line_num_width: usize = if widest > 0 {
        proof {
            lemma_decimal_is_short(widest as nat);
        }
        number(widest as u64).as_str().unicode_len() + 1
    } else {
        0
    };
    let prefix_width: usize = (if line_num_width > 0 {
        line_num_width + 1
    } else {
        0
    }) + PREFIX_WIDTH;
    SimpleMeasures {
        line_num_width,
        prefix_width,
        content_width: (area.width.saturating_sub(2) as usize).saturating_sub(prefix_width),
    }
}

/// The diff as it is drawn.
#[derive(Debug)]
pub struct SimpleFrame {
    pub title: Span,
    /// The colour of the border.
    pub border: Color,
    /// The rows inside the border.
    pub lines: Vec<Line>,
    pub content_offset: (u16, u16),
    pub line_num_width: usize,
    pub content_width: usize,
}

/// Draws the lines that are shown, the first of which is line `scroll_offset` of the diff. Lines
/// that do not fit are wrapped, where they can be.
pub fn draw_diff_view(
    visible_lines: &[DiffLine],
    scroll_offset: usize,
    selection: &Option<Selection>,
    current_file: Option<&str>,
    area: Rect,
) -> (r: SimpleFrame)
    requires
        area.x < u16::MAX,
        area.y < u16::MAX,
        simple_lines(
            visible_lines.deep_view(),
            scroll_offset,
            *selection,
            simple_measures(visible_lines.deep_view(), area),
        ) is Some,
    ensures
        ({
            let m = simple_measures(visible_lines.deep_view(), area);
            &&& Some(r.lines.deep_view()) == simple_lines(
                visible_lines.deep_view(),
                scroll_offset,
                *selection,
                m,
            )
            &&& r.content_offset == ((area.x + 1) as u16, (area.y + 1) as u16)
            &&& r.line_num_width == m.line_num_width
            &&& r.content_width == m.content_width
        }),
        r.border == Color::DarkGray,
        r.title.deep_view() == (match current_file {
            Some(file) => styled(" "@ + file@ + " "@, plain_style().with_fg(Color::White)),
            None => styled(" branchdiff "@, plain_style().with_fg(Color::DarkGray)),
        }),
{
    let ghost all = visible_lines.deep_view();
    let m = measure(visible_lines, area);
    let mut lines: Vec<Line> = Vec::new();
    let mut i: usize = 0;
    assert(all.take(0).len() == 0);
    assert(lines.deep_view() =~= Seq::empty());
    assert(all.take(all.len() as int) =~= all);
    while i < visible_lines.len()
        invariant
            i <= visible_lines@.len(),
            all == visible_lines.deep_view(),
            m.line_num_width <= 21,
            simple_lines(all, scroll_offset, *selection, m) is Some,
            Some(lines.deep_view()) == simple_lines(
                all.take(i as int),
                scroll_offset,
                *selection,
                m,
            ),
        decreases visible_lines.len() - i,
    {
        proof {
            lemma_simple_lines(all, i + 1, scroll_offset, *selection, m);
            assert(all.take(i + 1).drop_last() =~= all.take(i as int));
            assert(all[i as int] == visible_lines@[i as int].deep_view());
        }
        let mut rows = render_line(
            &visible_lines[i],
            scroll_offset.saturating_add(i),
            selection,
            &m,
        );
        let ghost before = lines.deep_view();
        let ghost added = rows.deep_view();
        lines.append(&mut rows);
        assert(lines.deep_view() =~= before + added);
        i = i + 1;
    }
    let title = match current_file {
        Some(file) => {
            let mut text = String::from_str(" ");
            text.append(file);
            text.append(" ");
            Span::styled(text, Style::default().fg(Color::White))
        },
        None => Span::styled(
            String::from_str(" branchdiff "),
            Style::default().fg(Color::DarkGray),
        ),
    };
    SimpleFrame {
        title,
        border: Color::DarkGray,
        lines,
        content_offset: (area.x + 1, area.y + 1),
        line_num_width: m.line_num_width,
        content_width: m.content_width,
    }
}

/// Where lines can be drawn, the first of them can be.
proof fn lemma_simple_lines(
    lines: Seq<DiffLineView>,
    i: int,
    offset: usize,
    selection: Option<Selection>,
    m: SimpleMeasures,
)
    requires
        0 <= i <= lines.len(),
        simple_lines(lines, offset, selection, m) is Some,
    ensures
        simple_lines(lines.take(i), offset, selection, m) is Some,
    decreases lines.len() - i,
{
    if i < lines.len() {
        lemma_simple_lines(lines, i + 1, offset, selection, m);
        assert(lines.take(i + 1).drop_last() =~= lines.take(i));
    } else {
        assert(lines.take(i) =~= lines);
    }
}

/// The text of rows, one after the other.
pub open spec fn rows_text(rows: Seq<Seq<SpanView>>) -> Seq<char>
    decreases rows.len(),
{
    if rows.len() == 0 {
        Seq::empty()
    } else {
        rows_text(rows.drop_last()) + text_of_spans(rows.last())
    }
}

impl Filled {
    /// All the text so far.
    spec fn all_text(self) -> Seq<char> {
        rows_text(self.rows) + text_of_spans(self.spans)
    }

    /// No row so far is wider than so many bytes.
    spec fn keeps_to(self, width: nat) -> bool {
        &&& self.width == spans_bytes(self.spans)
        &&& self.width <= width
        &&& forall|i: int| 0 <= i < self.rows.len() ==> spans_bytes(#[trigger] self.rows[i]) <= width
    }

    proof fn lemma_turned(self, width: nat)
        ensures
            self.turned().all_text() == self.all_text(),
            self.keeps_to(width) ==> self.turned().keeps_to(width),
    {
        assert(self.turned().rows.drop_last() =~= self.rows);
        assert(self.turned().all_text() =~= self.all_text());
    }

    proof fn lemma_with(self, text: Seq<char>, style: Style, width: nat)
        ensures
            self.with(text, style).all_text() == self.all_text() + text,
            self.keeps_to(width) && self.width + text_bytes(text) <= width ==> self.with(
                text,
                style,
            ).keeps_to(width),
    {
        lemma_text_of_push(self.spans, styled(text, style));
        assert(self.spans.push(styled(text, style)).drop_last() =~= self.spans);
        assert(self.with(text, style).all_text() =~= self.all_text() + text);
    }

    proof fn lemma_fill(self, text: Seq<char>, style: Style, width: nat)
        requires
            self.fill(text, style, width) is Some,
        ensures
            self.fill(text, style, width)->0.all_text() == self.all_text() + text,
            self.keeps_to(width) ==> self.fill(text, style, width)->0.keeps_to(width),
        decreases text.len(), self.width,
    {
        if text.len() == 0 {
            assert(self.all_text() + text =~= self.all_text());
        } else if self.width >= width {
            self.lemma_turned(width);
            self.turned().lemma_fill(text, style, width);
        } else {
            let room = (width - self.width) as nat;
            if text_bytes(text) <= room {
                self.lemma_with(text, style, width);
            } else {
                let k = cut(text, room, 0)->0;
                lemma_cut(text, room, 0);
                assert(text.subrange(0, k) =~= text.take(k));
                let first = self.with(text.take(k), style);
                self.lemma_with(text.take(k), style, width);
                first.lemma_turned(width);
                first.turned().lemma_fill(text.skip(k), style, width);
                assert(self.all_text() + text.take(k) + text.skip(k) =~= self.all_text() + text);
            }
        }
    }

    proof fn lemma_fill_all_text(self, spans: Seq<SpanView>, width: nat)
        requires
            self.fill_all(spans, width) is Some,
        ensures
            self.fill_all(spans, width)->0.all_text() == self.all_text() + text_of_spans(spans),
            self.keeps_to(width) ==> self.fill_all(spans, width)->0.keeps_to(width),
        decreases spans.len(),
    {
        if spans.len() == 0 {
            assert(self.all_text() + text_of_spans(spans) =~= self.all_text());
        } else {
            self.lemma_fill_all_text(spans.drop_last(), width);
            let st = self.fill_all(spans.drop_last(), width)->0;
            st.lemma_fill(spans.last().content, spans.last().style, width);
            assert(self.all_text() + text_of_spans(spans.drop_last()) + spans.last().content
                =~= self.all_text() + text_of_spans(spans));
        }
    }
}

/// Wrapping loses nothing, adds nothing and reorders nothing, and no row is wider than asked for.
pub proof fn law_simple_rows_keep_text_and_width(spans: Seq<SpanView>, width: nat)
    requires
        simple_rows(spans, width) is Some,
        spans_bytes(spans) <= usize::MAX,
    ensures
        rows_text(simple_rows(spans, width)->0) == text_of_spans(spans),
        forall|i: int|
            0 <= i < simple_rows(spans, width)->0.len() ==> spans_bytes(
                #[trigger] simple_rows(spans, width)->0[i],
            ) <= width,
{
    let rows = simple_rows(spans, width)->0;
    if spans_bytes(spans) <= width {
        reveal_with_fuel(rows_text, 2);
        assert(rows.drop_last() =~= Seq::empty());
        assert(rows_text(rows) =~= text_of_spans(spans));
    } else {
        let start = Filled::start();
        let st = start.fill_all(spans, width)->0;
        start.lemma_fill_all_text(spans, width);
        assert(start.all_text() + text_of_spans(spans) =~= text_of_spans(spans));
        st.lemma_turned(width);
        assert(st.turned().all_text() =~= rows_text(st.turned().rows));
        if !(st.spans.len() > 0 || st.rows.len() == 0) {
            assert(st.all_text() =~= rows_text(st.rows));
        }
    }
}

/// Text of one byte for each character can be wrapped into rows of any width.
pub proof fn law_ascii_text_can_be_wrapped(spans: Seq<SpanView>, width: nat)
    requires
        width > 0,
        forall|i: int, k: int|
            0 <= i < spans.len() && 0 <= k < spans[i].content.len() ==> (
            #[trigger] spans[i].content[k] as u32) < 0x80,
    ensures
        simple_rows(spans, width) is Some,
{
    lemma_ascii_fill_all(spans, width);
}

proof fn lemma_ascii_fill_all(spans: Seq<SpanView>, width: nat)
    requires
        width > 0,
        forall|i: int, k: int|
            0 <= i < spans.len() && 0 <= k < spans[i].content.len() ==> (
            #[trigger] spans[i].content[k] as u32) < 0x80,
    ensures
        Filled::start().fill_all(spans, width) is Some,
    decreases spans.len(),
{
    if spans.len() > 0 {
        lemma_ascii_fill_all(spans.drop_last(), width);
        let st = Filled::start().fill_all(spans.drop_last(), width)->0;
        let last = spans.last();
        assert forall|k: int| 0 <= k < last.content.len() implies (
        #[trigger] last.content[k] as u32) < 0x80 by {
            assert(spans[spans.len() - 1].content[k] as u32 <= 0x80);
        }
        lemma_ascii_fill(st, last.content, last.style, width);
    }
}

proof fn lemma_ascii_fill(st: Filled, text: Seq<char>, style: Style, width: nat)
    requires
        width > 0,
        forall|k: int| 0 <= k < text.len() ==> (#[trigger] text[k] as u32) < 0x80,
    ensures
        st.fill(text, style, width) is Some,
    decreases text.len(), st.width,
{
    if text.len() == 0 {
    } else if st.width >= width {
        lemma_ascii_fill(st.turned(), text, style, width);
    } else {
        let room = (width - st.width) as nat;
        lemma_ascii_bytes(text);
        if text_bytes(text) > room {
            lemma_ascii_cut(text, room, 0);
            let k = room as int;
            lemma_ascii_fill(
                st.with(text.take(k), style).turned(),
                text.skip(k),
                style,
                width,
            );
        }
    }
}

proof fn lemma_ascii_bytes(text: Seq<char>)
    requires
        forall|k: int| 0 <= k < text.len() ==> (#[trigger] text[k] as u32) < 0x80,
    ensures
        text_bytes(text) == text.len(),
    decreases text.len(),
{
    if text.len() > 0 {
        lemma_ascii_bytes(text.drop_last());
    }
}

proof fn lemma_ascii_cut(text: Seq<char>, room: nat, i: int)
    requires
        forall|k: int| 0 <= k < text.len() ==> (#[trigger] text[k] as u32) < 0x80,
        0 <= i,
        i + room <= text.len(),
    ensures
        cut(text, room, i) == Some(i + room),
    decreases room,
{
    if room > 0 {
        lemma_ascii_cut(text, (room - 1) as nat, i + 1);
    }
}

/// Whether text takes one byte for each character.
pub open spec fn is_ascii_text(s: Seq<char>) -> bool {
    forall|k: int| 0 <= k < s.len() ==> (#[trigger] s[k] as u32) < 0x80
}

/// Whether a line and its stretches take one byte for each character.
pub open spec fn is_ascii_line(line: DiffLineView) -> bool {
    &&& is_ascii_text(line.content)
    &&& forall|i: int|
        0 <= i < line.inline_spans.len() ==> is_ascii_text((#[trigger] line.inline_spans[i]).text)
}

spec fn all_ascii(spans: Seq<SpanView>) -> bool {
    forall|i: int| 0 <= i < spans.len() ==> is_ascii_text((#[trigger] spans[i]).content)
}

proof fn lemma_ascii_cut_by_selection(span: SpanView, offset: usize, from: usize, to: usize)
    requires
        is_ascii_text(span.content),
    ensures
        all_ascii(cut_by_selection(span, offset, from, to)),
{
}

proof fn lemma_ascii_all_cut(spans: Seq<SpanView>, from: usize, to: usize)
    requires
        all_ascii(spans),
    ensures
        all_ascii(all_cut(spans, from, to)),
    decreases spans.len(),
{
    if spans.len() > 0 {
        lemma_ascii_all_cut(spans.drop_last(), from, to);
        lemma_ascii_cut_by_selection(
            spans.last(),
            clip(spans_bytes(spans.drop_last())),
            from,
            to,
        );
    }
}

proof fn lemma_ascii_sides(spans: Seq<InlineSpanView>)
    requires
        forall|i: int| 0 <= i < spans.len() ==> is_ascii_text((#[trigger] spans[i]).text),
    ensures
        is_ascii_text(old_text(spans)),
        is_ascii_text(new_text(spans)),
    decreases spans.len(),
{
    if spans.len() > 0 {
        let front = spans.drop_last();
        assert forall|i: int| 0 <= i < front.len() implies is_ascii_text(
            (#[trigger] front[i]).text,
        ) by {
            assert(front[i] == spans[i]);
        }
        lemma_ascii_sides(front);
        assert(is_ascii_text(spans[spans.len() - 1].text));
    }
}

proof fn lemma_ascii_content(line: DiffLineView)
    requires
        is_ascii_line(line),
    ensures
        all_ascii(simple_content(line)),
{
    let spans = line.inline_spans;
    let joined = coalesced(spans);
    if spans.len() > 0 {
        assert forall|i: int| 0 <= i < joined.len() implies is_ascii_text(
            (#[trigger] joined[i]).text,
        ) by {
            if fragmented(spans) {
                lemma_bounds(spans);
                let middle = scattered(spans);
                assert forall|k: int| 0 <= k < middle.len() implies is_ascii_text(
                    (#[trigger] middle[k]).text,
                ) by {
                    assert(middle[k] == spans[prefix_end(spans, 0) + k]);
                }
                lemma_ascii_sides(middle);
                let front = spans.take(prefix_end(spans, 0));
                let end = kept_back_to(spans, spans.len() as int);
                let back = spans.skip(end);
                let n = merged(middle).len();
                if i < front.len() {
                    assert(joined[i] == spans[i]);
                } else if i < front.len() + n {
                    assert(joined[i] == merged(middle)[i - front.len()]);
                } else {
                    assert(joined[i] == back[i - front.len() - n]);
                    assert(back[i - front.len() - n] == spans[end + i - front.len() - n]);
                }
            }
        }
    }
}

/// Lines of one byte for each character can be drawn wherever there is room for any text.
pub proof fn law_ascii_lines_can_be_drawn(
    lines: Seq<DiffLineView>,
    offset: usize,
    selection: Option<Selection>,
    m: SimpleMeasures,
)
    requires
        m.content_width > 0,
        forall|i: int| 0 <= i < lines.len() ==> is_ascii_line(#[trigger] lines[i]),
    ensures
        simple_lines(lines, offset, selection, m) is Some,
    decreases lines.len(),
{
    if lines.len() > 0 {
        let front = lines.drop_last();
        assert forall|i: int| 0 <= i < front.len() implies is_ascii_line(#[trigger] front[i]) by {
            assert(front[i] == lines[i]);
        }
        law_ascii_lines_can_be_drawn(front, offset, selection, m);
        let line = lines.last();
        assert(is_ascii_line(lines[lines.len() - 1]));
        lemma_ascii_content(line);
        let content = simple_content(line);
        assert forall|from: usize, to: usize| all_ascii(#[trigger] all_cut(content, from, to)) by {
            lemma_ascii_all_cut(content, from, to);
        }
        assert forall|spans: Seq<SpanView>| all_ascii(spans) implies #[trigger] simple_rows(
            spans,
            m.content_width as nat,
        ) is Some by {
            law_ascii_text_can_be_wrapped(spans, m.content_width as nat);
        }
    }
}

/// The keys that the status bar shows.
pub open spec fn key_help() -> Seq<char> {
    " q:quit  j/k:scroll  g/G:top/bottom  ?:help "@
}

/// The status bar: the status at the left and the keys at the right, where both fit.
pub open spec fn simple_status(status: Seq<char>, width: u16) -> Seq<SpanView> {
    let status_style = plain_style().with_fg(Color::Cyan);
    let taken = clip(text_bytes(status)) + key_help().len();
    if taken + 2 <= width {
        seq![
            styled(status, status_style),
            raw(copies(' ', (width - taken) as nat)),
            styled(key_help(), plain_style().with_fg(Color::DarkGray)),
        ]
    } else {
        seq![styled(status, status_style)]
    }
}

/// The status bar.
pub fn draw_simple_status(status: &str, width: u16) -> (r: Line)
    ensures
        r.deep_view() == simple_status(status@, width),
{
    let help = " q:quit  j/k:scroll  g/G:top/bottom  ?:help ";
    let help_len = help.unicode_len();
    let status_len = byte_count(status);
    proof {
        reveal_strlit(" q:quit  j/k:scroll  g/G:top/bottom  ?:help ");
    }
    let room = width as usize;
    let mut spans: Vec<Span> = Vec::new();
    spans.push(Span::styled(status.to_string(), Style::default().fg(Color::Cyan)));
    if status_len <= room && status_len + help_len + 2 <= room {
        spans.push(Span::raw(repeat_char(' ', room - status_len - help_len)));
        spans.push(Span::styled(help.to_string(), Style::default().fg(Color::DarkGray)));
    }
    let line = Line { spans };
    assert(line.deep_view() =~= simple_status(status@, width));
    line
}

/// The banner above the diff.
pub open spec fn simple_banner(message: Seq<char>) -> SpanView {
    styled(
        " ⚠ "@ + message + " "@,
        plain_style().with_fg(Color::Black).with_bg(Color::Yellow),
    )
}

/// The banner above the diff.
pub fn draw_simple_banner(message: &str) -> (r: Span)
    ensures
        r.deep_view() == simple_banner(message@),
{
    let mut text = String::from_str(" ⚠ ");
    text.append(message);
    text.append(" ");
    Span::styled(text, Style::default().fg(Color::Black).bg(Color::Yellow))
}

/// What is drawn in plain colours.
pub struct SimpleView<'a> {
    /// The lines that are shown.
    pub visible_lines: &'a [DiffLine],
    /// The number of the first of them in the diff.
    pub scroll_offset: usize,
    pub selection: &'a Option<Selection>,
    pub current_file: Option<&'a str>,
    pub conflict_warning: Option<&'a str>,
    pub status: &'a str,
    pub show_help: bool,
}

/// The screen as it is drawn.
#[derive(Debug)]
pub struct SimpleScreen {
    pub areas: FrameAreas,
    pub warning: Option<Span>,
    /// How many rows of the diff are visible.
    pub viewport_height: usize,
    pub diff: SimpleFrame,
    pub status: Line,
    pub help: Option<HelpModal>,
}

/// Draws the screen: the banner, the lines that are shown, the status bar, and the help over them.
pub fn draw(view: &SimpleView, size: Rect) -> (r: SimpleScreen)
    requires
        is_area(size),
        size.x < u16::MAX,
        size.y + size.height < u16::MAX,
        simple_lines(
            view.visible_lines.deep_view(),
            view.scroll_offset,
            *view.selection,
            simple_measures(view.visible_lines.deep_view(), size),
        ) is Some,
    ensures
        r.areas.divide(size, view.conflict_warning is Some, 1),
        r.warning is Some <==> view.conflict_warning is Some,
        r.warning matches Some(span) ==> span.deep_view() == simple_banner(
            view.conflict_warning->0@,
        ),
        r.viewport_height == visible_rows(r.areas.diff, false),
        ({
            let m = simple_measures(view.visible_lines.deep_view(), size);
            &&& Some(r.diff.lines.deep_view()) == simple_lines(
                view.visible_lines.deep_view(),
                view.scroll_offset,
                *view.selection,
                m,
            )
            &&& r.diff.content_offset == (
                (r.areas.diff.x + 1) as u16,
                (r.areas.diff.y + 1) as u16,
            )
            &&& r.diff.line_num_width == m.line_num_width
            &&& r.diff.content_width == m.content_width
        }),
        r.diff.title.deep_view() == (match view.current_file {
            Some(file) => styled(" "@ + file@ + " "@, plain_style().with_fg(Color::White)),
            None => styled(" branchdiff "@, plain_style().with_fg(Color::DarkGray)),
        }),
        r.status.deep_view() == simple_status(view.status@, size.width),
        r.help is Some <==> view.show_help,
        r.diff.border == Color::DarkGray,
        r.help matches Some(help) ==> help.area == centered(size, 50, 22) && help.title@ == " Help "@
            && help.border == Color::Cyan && help.lines.deep_view() == short_help_rows(
            "Toggle context-only view"@,
        ),
{
    let areas = frame_areas(size, view.conflict_warning.is_some(), 1);
    let warning = match view.conflict_warning {
        Some(message) => Some(draw_simple_banner(message)),
        None => None,
    };
    let diff = draw_diff_view(
        view.visible_lines,
        view.scroll_offset,
        view.selection,
        view.current_file,
        areas.diff,
    );
    let help = if view.show_help {
        Some(draw_short_help(size, "Toggle context-only view"))
    } else {
        None
    };
    SimpleScreen {
        areas,
        warning,
        viewport_height: areas.diff.height.saturating_sub(2) as usize,
        diff,
        status: draw_simple_status(view.status, areas.status.width),
        help,
    }
}

/// What the rows of one line show: all but what stands in front of its text, which is the line
/// number and the sign in the first row, and an indent in the others.
pub open spec fn line_text(rows: Seq<Seq<SpanView>>) -> Seq<char> {
    rows_text(
        Seq::new(
            rows.len(),
            |i: int|
                rows[i].skip(
                    if i == 0 {
                        2
                    } else {
                        1
                    },
                ),
        ),
    )
}

/// Every line that is drawn shows all of its text, whatever its source, with the deleted stretches
/// of a modified line among it, behind its number and its sign.
pub proof fn law_simple_lines_show_their_text(
    line: DiffLineView,
    row: usize,
    selection: Option<Selection>,
    m: SimpleMeasures,
)
    requires
        !(line.source is FileHeader),
        !(line.source is Elided),
        selected_range(selection, row) is None,
        simple_line(line, row, selection, m) is Some,
        spans_bytes(simple_content(line)) <= usize::MAX,
    ensures
        ({
            let rows = simple_line(line, row, selection, m)->0;
            &&& rows.len() > 0
            &&& rows[0].len() >= 2
            &&& rows[0][0].content == number_column(line, m.line_num_width as nat)
            &&& rows[0][1].content == seq![line.prefix, ' ']
            &&& forall|i: int|
                0 < i < rows.len() ==> (#[trigger] rows[i]).len() >= 1 && rows[i][0].content
                    == copies(' ', m.prefix_width as nat)
            &&& line_text(rows) == (if line.inline_spans.len() == 0 {
                line.content
            } else {
                shown_text(coalesced(line.inline_spans))
            })
        }),
{
    reveal_strlit(" ");
    let content = simple_content(line);
    let wrapped = simple_rows(content, m.content_width as nat)->0;
    let rows = simple_line(line, row, selection, m)->0;
    law_simple_rows_keep_text_and_width(content, m.content_width as nat);
    lemma_some_row(content, m.content_width as nat);
    assert(seq![line.prefix] + " "@ =~= seq![line.prefix, ' ']);
    assert forall|i: int| 0 <= i < rows.len() implies (#[trigger] rows[i]).skip(
        if i == 0 {
            2
        } else {
            1
        },
    ) == wrapped[i] by {
        assert(rows[i].skip(
            if i == 0 {
                2
            } else {
                1
            },
        ) =~= wrapped[i]);
    }
    assert(Seq::new(
        rows.len(),
        |i: int|
            rows[i].skip(
                if i == 0 {
                    2
                } else {
                    1
                },
            ),
    ) =~= wrapped);
    if line.inline_spans.len() == 0 {
        reveal_with_fuel(text_of_spans, 2);
        assert(content.drop_last() =~= Seq::empty());
        assert(text_of_spans(content) =~= line.content);
    } else {
        lemma_stretches_text(coalesced(line.inline_spans), simple_style(line.source));
    }
}

proof fn lemma_some_row(spans: Seq<SpanView>, width: nat)
    requires
        simple_rows(spans, width) is Some,
    ensures
        simple_rows(spans, width)->0.len() > 0,
{
}

proof fn lemma_stretches_text(spans: Seq<InlineSpanView>, style: Style)
    ensures
        text_of_spans(
            spans.map_values(
                |span: InlineSpanView|
                    styled(
                        span.text,
                        match span.source {
                            Some(source) => simple_style(source),
                            None => style,
                        },
                    ),
            ),
        ) == shown_text(spans),
    decreases spans.len(),
{
    let draw = |span: InlineSpanView|
        styled(
            span.text,
            match span.source {
                Some(source) => simple_style(source),
                None => style,
            },
        );
    if spans.len() > 0 {
        lemma_stretches_text(spans.drop_last(), style);
        assert(spans.map_values(draw).drop_last() =~= spans.drop_last().map_values(draw));
    }
}

/// The heading of a file and the mark of lines that are left out take one row each, which shows
/// their text.
pub proof fn law_simple_headings_are_drawn(
    line: DiffLineView,
    row: usize,
    selection: Option<Selection>,
    m: SimpleMeasures,
)
    requires
        line.source is FileHeader || line.source is Elided,
    ensures
        simple_line(line, row, selection, m) matches Some(rows) && rows.len() == 1 && text_of_spans(
            rows[0],
        ) == number_column(line, m.line_num_width as nat) + (if line.source is FileHeader {
            "── "@ + line.content + " ──"@
        } else {
            "┈┈ ⋮ "@ + line.content + " ⋮ ┈┈"@
        }),
{
    let rows = simple_line(line, row, selection, m)->0;
    let prefix = number_column(line, m.line_num_width as nat);
    let spans = rows[0];
    reveal_with_fuel(text_of_spans, 5);
    let n = spans.len();
    assert(spans.drop_last().len() == n - 1);
    if line.source is FileHeader {
        if prefix.len() > 0 {
            assert(spans.drop_last().drop_last().drop_last().drop_last() =~= Seq::empty());
            assert(spans.drop_last().drop_last().drop_last().last() == spans[0]);
            assert(spans.drop_last().drop_last().last() == spans[1]);
            assert(spans.drop_last().last() == spans[2]);
        } else {
            assert(spans.drop_last().drop_last().drop_last() =~= Seq::empty());
            assert(spans.drop_last().drop_last().last() == spans[0]);
            assert(spans.drop_last().last() == spans[1]);
        }
        assert(text_of_spans(spans) =~= prefix + ("── "@ + line.content + " ──"@));
    } else {
        if prefix.len() > 0 {
            assert(spans.drop_last().drop_last() =~= Seq::empty());
            assert(spans.drop_last().last() == spans[0]);
        } else {
            assert(spans.drop_last() =~= Seq::empty());
        }
        assert(text_of_spans(spans) =~= prefix + ("┈┈ ⋮ "@ + line.content + " ⋮ ┈┈"@));
    }
}

/// The lines are drawn one below the other, none of them left out: the rows of each line follow
/// those of the lines in front of it.
pub proof fn law_simple_lines_are_drawn_in_order(
    lines: Seq<DiffLineView>,
    offset: usize,
    selection: Option<Selection>,
    m: SimpleMeasures,
    k: int,
)
    requires
        0 <= k < lines.len(),
        simple_lines(lines, offset, selection, m) is Some,
    ensures
        ({
            let all = simple_lines(lines, offset, selection, m)->0;
            let before = simple_lines(lines.take(k), offset, selection, m);
            let own = simple_line(lines[k], clip((offset + k) as nat), selection, m);
            &&& before is Some
            &&& own is Some
            &&& before->0.len() + own->0.len() <= all.len()
            &&& all.take(before->0.len() as int) == before->0
            &&& all.subrange(
                before->0.len() as int,
                (before->0.len() + own->0.len()) as int,
            ) == own->0
        }),
    decreases lines.len(),
{
    let all = simple_lines(lines, offset, selection, m)->0;
    let front = lines.drop_last();
    let first = simple_lines(front, offset, selection, m)->0;
    if k == lines.len() - 1 {
        assert(lines.take(k) =~= front);
        assert(all.take(first.len() as int) =~= first);
        let own = simple_line(lines[k], clip((offset + k) as nat), selection, m)->0;
        assert(all.subrange(first.len() as int, all.len() as int) =~= own);
    } else {
        law_simple_lines_are_drawn_in_order(front, offset, selection, m, k);
        assert(front.take(k) =~= lines.take(k));
        assert(front[k] == lines[k]);
        let before = simple_lines(lines.take(k), offset, selection, m)->0;
        let own = simple_line(lines[k], clip((offset + k) as nat), selection, m)->0;
        let at: int = before.len() as int;
        assert(all.take(at) =~= first.take(at));
        assert(all.subrange(at, at + own.len()) =~= first.subrange(at, at + own.len()));
    }
}

/// The columns suffice: every line number fits in front of its line with room to spare, and number,
/// sign and text together are no wider than the inside of the border, where there is room for text
/// at all.
pub proof fn law_simple_columns_suffice(lines: Seq<DiffLineView>, area: Rect, i: int)
    requires
        0 <= i < lines.len(),
    ensures
        ({
            let m = simple_measures(lines, area);
            &&& lines[i].line_number matches Some(n) ==> (n > 0 ==> decimal(n as nat).len()
                < m.line_num_width)
            &&& m.content_width > 0 ==> m.prefix_width + m.content_width + 2 == area.width
            &&& m.line_num_width > 0 ==> m.prefix_width == m.line_num_width + 3
            &&& m.line_num_width == 0 ==> m.prefix_width == 2
        }),
{
    law_largest_number(lines);
    lemma_decimal_is_short(largest_number(lines));
    if let Some(n) = lines[i].line_number {
        if n > 0 {
            lemma_larger_numbers_are_longer(n as nat, largest_number(lines));
        }
    }
}

/// The status is always shown, and the keys with it wherever there is room for both, at the right
/// edge.
pub proof fn law_simple_status_is_shown(status: Seq<char>, width: u16)
    requires
        text_bytes(status) == status.len(),
    ensures
        ({
            let text = text_of_spans(simple_status(status, width));
            let keys = " q:quit  j/k:scroll  g/G:top/bottom  ?:help "@;
            if status.len() + keys.len() + 2 <= width {
                text.len() == width && text.take(status.len() as int) == status && text.skip(
                    width - keys.len(),
                ) == keys
            } else {
                text == status
            }
        }),
{
    let keys = " q:quit  j/k:scroll  g/G:top/bottom  ?:help "@;
    reveal_strlit(" q:quit  j/k:scroll  g/G:top/bottom  ?:help ");
    let spans = simple_status(status, width);
    reveal_with_fuel(text_of_spans, 4);
    let text = text_of_spans(spans);
    if spans.len() == 3 {
        assert(spans.drop_last().drop_last().drop_last() =~= Seq::empty());
        assert(spans.drop_last().drop_last().last() == spans[0]);
        assert(spans.drop_last().last() == spans[1]);
        assert(text =~= status + spans[1].content + keys);
        assert(text.take(status.len() as int) =~= status);
        assert(text.skip(width - keys.len()) =~= keys);
    } else {
        assert(spans.drop_last() =~= Seq::empty());
        assert(text =~= status);
    }
}

impl Filled {
    /// Every complete row is filled to the last byte.
    spec fn full(self, width: nat) -> bool {
        &&& self.width == spans_bytes(self.spans)
        &&& self.width <= width
        &&& forall|i: int| 0 <= i < self.rows.len() ==> spans_bytes(#[trigger] self.rows[i]) == width
    }

    proof fn lemma_with_full(self, text: Seq<char>, style: Style, width: nat)
        requires
            self.full(width),
            self.width + text_bytes(text) <= width,
        ensures
            self.with(text, style).full(width),
    {
        assert(self.spans.push(styled(text, style)).drop_last() =~= self.spans);
    }

    proof fn lemma_fill_full(self, text: Seq<char>, style: Style, width: nat)
        requires
            self.full(width),
            self.fill(text, style, width) is Some,
        ensures
            self.fill(text, style, width)->0.full(width),
        decreases text.len(), self.width,
    {
        if text.len() == 0 {
        } else if self.width >= width {
            self.turned().lemma_fill_full(text, style, width);
        } else {
            let room = (width - self.width) as nat;
            if text_bytes(text) <= room {
                self.lemma_with_full(text, style, width);
            } else {
                let k = cut(text, room, 0)->0;
                lemma_cut(text, room, 0);
                assert(text.subrange(0, k) =~= text.take(k));
                self.lemma_with_full(text.take(k), style, width);
                self.with(text.take(k), style).turned().lemma_fill_full(
                    text.skip(k),
                    style,
                    width,
                );
            }
        }
    }

    proof fn lemma_fill_all_full(self, spans: Seq<SpanView>, width: nat)
        requires
            self.full(width),
            self.fill_all(spans, width) is Some,
        ensures
            self.fill_all(spans, width)->0.full(width),
        decreases spans.len(),
    {
        if spans.len() > 0 {
            self.lemma_fill_all_full(spans.drop_last(), width);
            self.fill_all(spans.drop_last(), width)->0.lemma_fill_full(
                spans.last().content,
                spans.last().style,
                width,
            );
        }
    }
}

/// No row is begun before it is needed: every row but the last is filled to the last byte.
pub proof fn law_simple_rows_are_filled(spans: Seq<SpanView>, width: nat)
    requires
        simple_rows(spans, width) is Some,
    ensures
        forall|i: int|
            0 <= i < simple_rows(spans, width)->0.len() - 1 ==> spans_bytes(
                #[trigger] simple_rows(spans, width)->0[i],
            ) == width,
        spans_bytes(spans) <= width && spans_bytes(spans) <= usize::MAX ==> simple_rows(spans, width)
            == Some(seq![spans]),
{
    if clip(spans_bytes(spans)) > width {
        Filled::start().lemma_fill_all_full(spans, width);
    }
}

} // verus!

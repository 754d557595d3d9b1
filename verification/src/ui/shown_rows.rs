//! What the rows of the diff show: the text behind the line numbers and marks.
use vstd::prelude::*;

use crate::app::DisplayableItem;
use crate::diff::DiffLineView;
use crate::diff::InlineSpanView;
use crate::diff::largest_number;
use crate::diff::law_largest_number;
use crate::image_diff::KeptView;
use crate::image_diff::keeps;
use crate::image_diff::lemma_position;
use crate::image_diff::position_of;
use crate::image_diff::used;
use crate::style::Color;
use crate::style::Rect;
use crate::style::lemma_text_of_push;
use crate::style::plain_style;
use crate::style::styled;
use crate::style::text_of_spans;
use crate::style::SpanView;
use crate::style::Style;
use crate::syntax::law_segments_reproduce_the_line;
use crate::syntax::path_or_none;
use crate::syntax::plain;
use crate::syntax::text_of_segments;
use crate::syntax::StreamView;
use crate::syntax::SyntaxSegmentView;
use crate::text::copies;
use crate::text::decimal;
use crate::text::has_text;
use crate::text::lemma_decimal_is_short;
use crate::text::lemma_larger_numbers_are_longer;
use crate::text::stands_at;
use crate::ui::diff_view::ImagePositionView;
use crate::ui::diff_view::drawn_style;
use crate::ui::diff_view::faint;
use crate::ui::diff_view::image_of;
use crate::ui::diff_view::lead;
use crate::ui::diff_view::marked_row;
use crate::ui::diff_view::measures;
use crate::ui::diff_view::number_text;
use crate::ui::diff_view::DiffViewModel;
use crate::ui::diff_view::Measures;
use crate::ui::diff_view::RowView;
use crate::ui::diff_view::placed;
use crate::ui::diff_view::size_of;
use crate::ui::diff_view::visible_part;
use crate::ui::image_view::image_rows;
use crate::ui::image_view::law_image_rows_are_bounded;
use crate::ui::search::law_searching_keeps_text;
use crate::ui::search::searched;
use crate::ui::search::shown_text;
use crate::ui::selection::law_marking_spans_keeps_text;
use crate::ui::selection::law_selected_range_is_ordered;
use crate::ui::selection::selected_range;
use crate::ui::spans::change_type;
use crate::ui::spans::coalesced;
use crate::ui::spans::content_paint;
use crate::ui::spans::deletion_source;
use crate::ui::spans::inline_paint;
use crate::ui::spans::inline_width;
use crate::ui::spans::insertion_source;
use crate::ui::spans::law_coalescing_keeps_new_text;
use crate::ui::spans::law_deletion_side_shows_old_text;
use crate::ui::spans::law_insertion_side_shows_new_text;
use crate::ui::spans::law_one_line_shows_all_spans;
use crate::ui::spans::new_text;
use crate::ui::spans::old_text;
use crate::ui::spans::side_paint;
use crate::ui::wrapping::law_sanitizing_goes_by_character;
use crate::ui::wrapping::lemma_wrapped_spans;
use crate::ui::wrapping::row_lead;
use crate::ui::wrapping::sanitized;
use crate::ui::wrapping::spans_text;
use crate::ui::wrapping::wrap_rows;
use crate::ui::wrapping::WrapRow;

verus! {

/// What a row shows of a line: all but what stands in front of its text, which is the line number
/// and the mark of the line, or an indent in the rows that go on with it.
pub open spec fn row_text(row: RowView) -> Seq<char> {
    text_of_spans(
        row.spans.skip(
            if row.info.is_continuation {
                1
            } else {
                2
            },
        ),
    )
}

/// What some rows show, put together.
pub open spec fn rows_text(rows: Seq<RowView>) -> Seq<char>
    decreases rows.len(),
{
    if rows.len() == 0 {
        Seq::empty()
    } else {
        rows_text(rows.drop_last()) + row_text(rows.last())
    }
}

proof fn lemma_rows_text_concat(a: Seq<RowView>, b: Seq<RowView>)
    ensures
        rows_text(a + b) == rows_text(a) + rows_text(b),
    decreases b.len(),
{
    if b.len() == 0 {
        assert(a + b =~= a);
        assert(rows_text(a) + rows_text(b) =~= rows_text(a));
    } else {
        lemma_rows_text_concat(a, b.drop_last());
        assert((a + b).drop_last() =~= a + b.drop_last());
        assert(rows_text(a + b) =~= rows_text(a) + rows_text(b));
    }
}

/// Whether rows are those of one line: the first one begins with a line number and a mark, and the
/// others with an indent.
pub open spec fn one_line(rows: Seq<RowView>, prefix: Seq<char>, mark: Seq<char>) -> bool {
    &&& rows.len() > 0
    &&& !rows[0].info.is_continuation
    &&& rows[0].spans.len() >= 2
    &&& rows[0].spans[0].content == prefix
    &&& rows[0].spans[1].content == mark
    &&& forall|k: int|
        0 < k < rows.len() ==> (#[trigger] rows[k]).info.is_continuation && rows[k].spans.len() >= 1
            && (forall|c: char| #[trigger] rows[k].spans[0].content.contains(c) ==> c == ' ')
}

proof fn lemma_block(
    model: DiffViewModel,
    m: Measures,
    spans: Seq<SpanView>,
    content: Seq<char>,
    prefix: Seq<char>,
    mark: Seq<char>,
    style: Style,
    screen_row: nat,
)
    requires
        screen_row + model.block(m, spans, content, prefix, mark, style, 0, screen_row).len()
            < m.max_rows,
    ensures
        ({
            let rows = model.block(m, spans, content, prefix, mark, style, 0, screen_row);
            one_line(rows, prefix, mark) && rows_text(rows) == sanitized(text_of_spans(spans))
        }),
{
    let width = if m.content_width > 0 {
        m.content_width as nat
    } else {
        1
    };
    let wrapped = wrap_rows(spans, content, width);
    let rows = model.block(m, spans, content, prefix, mark, style, 0, screen_row);
    lemma_wrapped_spans(spans, content, width);
    assert(rows.len() == wrapped.len());
    assert forall|i: int| 0 <= i < rows.len() implies {
        &&& #[trigger] row_text(rows[i]) == text_of_spans(wrapped[i].spans)
        &&& rows[i].info.is_continuation == (i > 0)
        &&& rows[i].spans.len() >= (if i > 0 {
            1int
        } else {
            2int
        })
        &&& i == 0 ==> rows[i].spans[0].content == prefix && rows[i].spans[1].content == mark
        &&& i > 0 ==> rows[i].spans[0].content == copies(' ', m.prefix_width as nat)
    } by {
        let lead = row_lead(i, prefix, mark, style, m.prefix_width as nat);
        let row = crate::ui::wrapping::clip((screen_row + i) as nat);
        lemma_marked_row(lead, wrapped[i].spans, i > 0, *model.selection, row, m.prefix_width);
    }
    lemma_rows_and_wrapped(rows, wrapped);
    assert forall|k: int| 0 < k < rows.len() implies (#[trigger] rows[k]).info.is_continuation
        && rows[k].spans.len() >= 1 && (forall|c: char| #[trigger]
        rows[k].spans[0].content.contains(c) ==> c == ' ') by {
        assert(row_text(rows[k]) == text_of_spans(wrapped[k].spans));
    }
    assert(row_text(rows[0]) == text_of_spans(wrapped[0].spans));
}

/// Marking the selection leaves what stands in front of a row, and what the row shows.
proof fn lemma_marked_row(
    lead: Seq<SpanView>,
    spans: Seq<SpanView>,
    is_continuation: bool,
    selection: Option<crate::app::Selection>,
    row: usize,
    prefix_width: usize,
)
    requires
        lead.len() == (if is_continuation {
            1int
        } else {
            2int
        }),
    ensures
        ({
            let marked = marked_row(lead + spans, is_continuation, selection, row, prefix_width);
            &&& marked.len() >= lead.len()
            &&& forall|i: int| 0 <= i < lead.len() ==> #[trigger] marked[i] == lead[i]
            &&& text_of_spans(marked.skip(lead.len() as int)) == text_of_spans(spans)
        }),
{
    let all = lead + spans;
    let k: int = lead.len() as int;
    assert(all.skip(k) =~= spans);
    assert(all.take(k) =~= lead);
    let marked = marked_row(all, is_continuation, selection, row, prefix_width);
    if let Some(range) = selected_range(selection, row) {
        law_selected_range_is_ordered(selection, row);
        let from = crate::ui::diff_view::less(range.0, prefix_width);
        let to = crate::ui::diff_view::less(range.1, prefix_width);
        law_marking_spans_keeps_text(spans, from, to);
        assert(marked.skip(k) =~= crate::ui::selection::marked_spans(spans, from, to));
    }
}

proof fn lemma_rows_and_wrapped(rows: Seq<RowView>, wrapped: Seq<WrapRow>)
    requires
        rows.len() == wrapped.len(),
        forall|i: int|
            0 <= i < rows.len() ==> #[trigger] row_text(rows[i]) == text_of_spans(wrapped[i].spans),
    ensures
        rows_text(rows) == spans_text(wrapped),
    decreases rows.len(),
{
    if rows.len() > 0 {
        let front = rows.drop_last();
        let before = wrapped.drop_last();
        assert forall|i: int| 0 <= i < front.len() implies #[trigger] row_text(front[i])
            == text_of_spans(before[i].spans) by {
            assert(front[i] == rows[i]);
        }
        lemma_rows_and_wrapped(front, before);
        assert(row_text(rows[rows.len() - 1]) == text_of_spans(wrapped[rows.len() - 1].spans));
    }
}

/// Whether text is a mark: the sign of a line, or, for a moved line, the sign of moved lines.
pub open spec fn marks(mark: Seq<char>, line: DiffLineView, sign: char) -> bool {
    mark.len() > 0 && mark[0] == (if line.move_target is Some {
        'M'
    } else {
        sign
    })
}

proof fn lemma_marks(model: DiffViewModel, line: DiffLineView, sign: char)
    ensures
        forall|source: crate::diff::LineSource|
            marks(
                #[trigger] crate::ui::diff_view::prefix_text(line, sign, source, model.vcs_backend),
                line,
                sign,
            ),
{
    reveal_strlit("M M ");
}

/// Whether a line has deleted text.
pub open spec fn deletes_some(line: DiffLineView) -> bool {
    exists|i: int| 0 <= i < line.inline_spans.len() && (#[trigger] line.inline_spans[i]).is_deletion
}

/// Whether a line has new text.
pub open spec fn inserts_some(line: DiffLineView) -> bool {
    exists|i: int|
        0 <= i < line.inline_spans.len() && !(#[trigger] line.inline_spans[i]).is_deletion
            && line.inline_spans[i].source is Some
}

/// Whether a line is shown with its changes: it is no heading, no mark of lines that are left out,
/// and no image.
pub open spec fn is_modified(line: DiffLineView) -> bool {
    &&& !(line.source is FileHeader)
    &&& !(line.source is Elided)
    &&& !line.marks_image()
    &&& line.inline_spans.len() > 0
}

/// A modified line whose old and new text do not fit into one row is drawn as two lines: its old
/// text, marked as deleted, and behind it its new text, marked as added. So is a line of which text
/// was only deleted, however short it is. Returns how many rows the old text has.
pub proof fn law_wide_changes_are_drawn_as_two_lines(
    model: DiffViewModel,
    m: Measures,
    idx: usize,
    screen_row: nat,
    stream: StreamView,
) -> (n: int)
    requires
        idx < model.lines.deep_view().len(),
        m.content_width < usize::MAX,
        is_modified(model.lines.deep_view()[idx as int]),
        deletes_some(model.lines.deep_view()[idx as int]),
        inserts_some(model.lines.deep_view()[idx as int]) ==> inline_width(
            coalesced(model.lines.deep_view()[idx as int].inline_spans),
        ) > m.content_width,
        screen_row + model.line_rows(m, idx, 0, screen_row, stream).rows.len() < m.max_rows,
    ensures
        ({
            let line = model.lines.deep_view()[idx as int];
            let rows = model.line_rows(m, idx, 0, screen_row, stream).rows;
            let old = old_text(coalesced(line.inline_spans));
            let new = new_text(line.inline_spans);
            &&& 0 <= n < rows.len()
            &&& rows_text(rows.take(n)) == sanitized(old)
            &&& rows_text(rows.skip(n)) == sanitized(new)
            &&& line.old_content == Some(old) ==> rows_text(rows.take(n)) == sanitized(
                line.old_content->0,
            )
            &&& line.content == new ==> rows_text(rows.skip(n)) == sanitized(line.content)
            &&& old.len() > 0 ==> n > 0 && one_line(
                rows.take(n),
                copies(' ', number_text(line, m.line_num_width as nat).len()),
                rows[0].spans[1].content,
            ) && marks(rows[0].spans[1].content, line, '-')
            &&& one_line(
                rows.skip(n),
                number_text(line, m.line_num_width as nat),
                rows[n].spans[1].content,
            ) && marks(rows[n].spans[1].content, line, '+')
        }),
{
    let line = model.lines.deep_view()[idx as int];
    let spans = line.inline_spans;
    let prefix = number_text(line, m.line_num_width as nat);
    lemma_change_type(line);
    lemma_marks(model, line, '-');
    lemma_marks(model, line, '+');
    let from = deletion_source(spans);
    let to = if change_type(spans) is PureDeletion {
        match line.change_source {
            Some(source) => source,
            None => crate::diff::LineSource::Committed,
        }
    } else {
        insertion_source(spans)
    };
    let old = match line.old_content {
        Some(old) => old,
        None => ""@,
    };
    let before = side_paint(from, stream.shows(old, line.file_path));
    let after = stream.past(old, line.file_path);
    let behind = side_paint(to, after.shows(line.content, line.file_path));
    law_deletion_side_shows_old_text(before, spans);
    law_insertion_side_shows_new_text(behind, spans);
    let deleted = before.side(coalesced(spans), true);
    let plain_new = behind.side(coalesced(spans), false);
    law_searching_keeps_text(plain_new, *model.search, idx, None);
    let inserted = searched(plain_new, *model.search, idx, None);
    let rows = model.line_rows(m, idx, 0, screen_row, stream).rows;
    let old_mark = crate::ui::diff_view::prefix_text(line, '-', from, model.vcs_backend);
    let new_mark = crate::ui::diff_view::prefix_text(line, '+', to, model.vcs_backend);
    let old_block = if deleted.len() > 0 {
        model.block(
            m,
            deleted,
            old,
            copies(' ', prefix.len()),
            old_mark,
            crate::ui::colors::style_of_line(from),
            0,
            screen_row,
        )
    } else {
        Seq::empty()
    };
    let new_block = model.block(
        m,
        inserted,
        line.content,
        prefix,
        new_mark,
        crate::ui::colors::style_of_line(to),
        0,
        crate::ui::wrapping::clip(screen_row + old_block.len()) as nat,
    );
    assert(rows == old_block + new_block);
    if deleted.len() > 0 {
        lemma_block(
            model,
            m,
            deleted,
            old,
            copies(' ', prefix.len()),
            old_mark,
            crate::ui::colors::style_of_line(from),
            screen_row,
        );
    } else {
        assert(text_of_spans(deleted) =~= Seq::empty());
        assert(rows_text(old_block) =~= Seq::empty());
        assert(sanitized(Seq::empty()) =~= Seq::<char>::empty());
    }
    lemma_block(
        model,
        m,
        inserted,
        line.content,
        prefix,
        new_mark,
        crate::ui::colors::style_of_line(to),
        screen_row + old_block.len(),
    );
    let n: int = old_block.len() as int;
    assert(rows.take(n) =~= old_block);
    assert(rows.skip(n) =~= new_block);
    n
}

proof fn lemma_change_type(line: DiffLineView)
    ensures
        crate::ui::spans::some_deletion(line.inline_spans) == deletes_some(line),
        crate::ui::spans::some_insertion(line.inline_spans) == inserts_some(line),
{
    let spans = line.inline_spans;
    if crate::ui::spans::some_insertion(spans) {
        let i = choose|i: int| 0 <= i < spans.len() && (#[trigger] spans[i]).inserted();
        assert(!spans[i].is_deletion && spans[i].source is Some);
    }
    if inserts_some(line) {
        let i = choose|i: int|
            0 <= i < spans.len() && !(#[trigger] spans[i]).is_deletion && spans[i].source is Some;
        assert(spans[i].inserted());
    }
}

/// A modified line whose old and new text fit into one row is drawn as one line, and shows all of
/// its spans, with the deleted ones among the others. A line with new text alone shows that text,
/// however long it is.
pub proof fn law_other_changes_are_drawn_as_one_line(
    model: DiffViewModel,
    m: Measures,
    idx: usize,
    screen_row: nat,
    stream: StreamView,
)
    requires
        idx < model.lines.deep_view().len(),
        m.content_width < usize::MAX,
        is_modified(model.lines.deep_view()[idx as int]),
        deletes_some(model.lines.deep_view()[idx as int]) ==> inserts_some(
            model.lines.deep_view()[idx as int],
        ) && inline_width(coalesced(model.lines.deep_view()[idx as int].inline_spans))
            <= m.content_width,
        screen_row + model.line_rows(m, idx, 0, screen_row, stream).rows.len() < m.max_rows,
    ensures
        ({
            let line = model.lines.deep_view()[idx as int];
            let rows = model.line_rows(m, idx, 0, screen_row, stream).rows;
            let wide = inline_width(coalesced(line.inline_spans)) > m.content_width;
            &&& one_line(
                rows,
                number_text(line, m.line_num_width as nat),
                rows[0].spans[1].content,
            )
            &&& marks(rows[0].spans[1].content, line, line.prefix)
            &&& rows_text(rows) == sanitized(
                if wide && inserts_some(line) {
                    new_text(line.inline_spans)
                } else {
                    shown_text(coalesced(line.inline_spans))
                },
            )
        }),
{
    let line = model.lines.deep_view()[idx as int];
    let spans = line.inline_spans;
    let prefix = number_text(line, m.line_num_width as nat);
    lemma_change_type(line);
    lemma_marks(model, line, line.prefix);
    let style = crate::ui::diff_view::drawn_style(line);
    let paint = inline_paint(
        stream.shows(line.content, line.file_path),
        style,
        crate::ui::colors::style_of_highlight(insertion_source(spans)),
    );
    let deleted = crate::ui::colors::style_of_highlight(deletion_source(spans));
    let new_side = paint.side(coalesced(spans), false);
    let both = paint.both(coalesced(spans), deleted);
    law_insertion_side_shows_new_text(paint, spans);
    law_one_line_shows_all_spans(paint, coalesced(spans), deleted);
    law_searching_keeps_text(new_side, *model.search, idx, None);
    law_searching_keeps_text(both, *model.search, idx, Some(coalesced(spans)));
    let wide = inline_width(coalesced(spans)) > m.content_width;
    let painted = if wide && inserts_some(line) {
        searched(new_side, *model.search, idx, None)
    } else {
        searched(both, *model.search, idx, Some(coalesced(spans)))
    };
    let mark = crate::ui::diff_view::prefix_text(line, line.prefix, line.source, model.vcs_backend);
    assert(model.line_rows(m, idx, 0, screen_row, stream).rows == model.block(
        m,
        painted,
        line.content,
        prefix,
        mark,
        style,
        0,
        screen_row,
    ));
    lemma_block(model, m, painted, line.content, prefix, mark, style, screen_row);
}

proof fn lemma_text_within(a: Seq<char>, b: Seq<char>, part: Seq<char>)
    requires
        has_text(a, part) || has_text(b, part),
    ensures
        has_text(a + b, part),
{
    if has_text(a, part) {
        let at = choose|at: int| stands_at(a, part, at);
        assert((a + b).subrange(at, at + part.len()) =~= a.subrange(at, at + part.len()));
        assert(stands_at(a + b, part, at));
    } else {
        let at = choose|at: int| stands_at(b, part, at);
        let there = a.len() + at;
        assert((a + b).subrange(there, there + part.len()) =~= b.subrange(at, at + part.len()));
        assert(stands_at(a + b, part, there));
    }
}

proof fn lemma_has_itself(s: Seq<char>)
    ensures
        has_text(s, s),
{
    assert(s.subrange(0, s.len() as int) =~= s);
    assert(stands_at(s, s, 0));
}

proof fn lemma_texts_of_spans(spans: Seq<InlineSpanView>, i: int)
    requires
        0 <= i < spans.len(),
    ensures
        has_text(sanitized(shown_text(spans)), sanitized(spans[i].text)),
        !spans[i].is_deletion ==> has_text(sanitized(new_text(spans)), sanitized(spans[i].text)),
        spans[i].is_deletion || spans[i].source is None ==> has_text(
            sanitized(old_text(spans)),
            sanitized(spans[i].text),
        ),
    decreases spans.len(),
{
    let front = spans.drop_last();
    let last = spans.last();
    let part = sanitized(spans[i].text);
    law_sanitizing_goes_by_character(shown_text(front), last.text, ' ');
    law_sanitizing_goes_by_character(new_text(front), last.text, ' ');
    law_sanitizing_goes_by_character(old_text(front), last.text, ' ');
    if i < front.len() {
        lemma_texts_of_spans(front, i);
        assert(front[i] == spans[i]);
    } else {
        lemma_has_itself(part);
    }
    lemma_text_within(sanitized(shown_text(front)), sanitized(last.text), part);
    if !spans[i].is_deletion && !last.is_deletion {
        lemma_text_within(sanitized(new_text(front)), sanitized(last.text), part);
    }
    if (spans[i].is_deletion || spans[i].source is None) && !last.inserted() {
        lemma_text_within(sanitized(old_text(front)), sanitized(last.text), part);
    }
}

/// Nothing that a line changes is hidden: where the view has enough rows, those of a modified line
/// show the text of every span, deleted ones too. A line with new text alone has none that are
/// deleted; merging its scattered changes can make some of its unchanged text count as such, which
/// is not shown again where the line does not fit into one row.
pub proof fn law_no_change_is_hidden(
    model: DiffViewModel,
    m: Measures,
    idx: usize,
    screen_row: nat,
    stream: StreamView,
    i: int,
)
    requires
        idx < model.lines.deep_view().len(),
        m.content_width < usize::MAX,
        is_modified(model.lines.deep_view()[idx as int]),
        0 <= i < coalesced(model.lines.deep_view()[idx as int].inline_spans).len(),
        screen_row + model.line_rows(m, idx, 0, screen_row, stream).rows.len() < m.max_rows,
        !deletes_some(model.lines.deep_view()[idx as int]) && inline_width(
            coalesced(model.lines.deep_view()[idx as int].inline_spans),
        ) > m.content_width ==> !coalesced(
            model.lines.deep_view()[idx as int].inline_spans,
        )[i].is_deletion,
    ensures
        has_text(
            rows_text(model.line_rows(m, idx, 0, screen_row, stream).rows),
            sanitized(coalesced(model.lines.deep_view()[idx as int].inline_spans)[i].text),
        ),
{
    let line = model.lines.deep_view()[idx as int];
    let spans = coalesced(line.inline_spans);
    let rows = model.line_rows(m, idx, 0, screen_row, stream).rows;
    let part = sanitized(spans[i].text);
    law_coalescing_keeps_new_text(line.inline_spans);
    lemma_texts_of_spans(spans, i);
    if deletes_some(line) && (inserts_some(line) ==> inline_width(spans) > m.content_width) {
        let n = law_wide_changes_are_drawn_as_two_lines(model, m, idx, screen_row, stream);
        lemma_rows_text_concat(rows.take(n), rows.skip(n));
        assert(rows.take(n) + rows.skip(n) =~= rows);
        lemma_text_within(rows_text(rows.take(n)), rows_text(rows.skip(n)), part);
    } else {
        law_other_changes_are_drawn_as_one_line(model, m, idx, screen_row, stream);
    }
}

proof fn lemma_painted_text(segments: Seq<SyntaxSegmentView>, style: Style)
    ensures
        text_of_spans(content_paint(segments, style)) == text_of_segments(segments),
    decreases segments.len(),
{
    if segments.len() > 0 {
        lemma_painted_text(segments.drop_last(), style);
        assert(content_paint(segments, style).drop_last() =~= content_paint(
            segments.drop_last(),
            style,
        ));
    }
}

/// A line without changes of its own shows its text, whatever its source, behind its number and its
/// sign.
pub proof fn law_plain_lines_show_their_text(
    model: DiffViewModel,
    m: Measures,
    idx: usize,
    screen_row: nat,
    stream: StreamView,
)
    requires
        idx < model.lines.deep_view().len(),
        ({
            let line = model.lines.deep_view()[idx as int];
            &&& !(line.source is FileHeader)
            &&& !(line.source is Elided)
            &&& !line.marks_image()
            &&& line.inline_spans.len() == 0
            &&& !line.content.contains('\n')
            &&& stream.grammar.parsed_all(stream.position(path_or_none(line.file_path)))
        }),
        screen_row + model.line_rows(m, idx, 0, screen_row, stream).rows.len() < m.max_rows,
    ensures
        ({
            let line = model.lines.deep_view()[idx as int];
            let rows = model.line_rows(m, idx, 0, screen_row, stream).rows;
            &&& one_line(
                rows,
                number_text(line, m.line_num_width as nat),
                rows[0].spans[1].content,
            )
            &&& marks(rows[0].spans[1].content, line, line.prefix)
            &&& rows_text(rows) == sanitized(line.content)
        }),
{
    let line = model.lines.deep_view()[idx as int];
    let prefix = number_text(line, m.line_num_width as nat);
    let style = crate::ui::diff_view::drawn_style(line);
    let segments = stream.shows(line.content, line.file_path);
    law_segments_reproduce_the_line(
        stream.grammar,
        stream.position(path_or_none(line.file_path)),
        line.content,
    );
    assert(text_of_segments(segments) == line.content) by {
        reveal_with_fuel(text_of_segments, 2);
        if line.content.len() == 0 {
            assert(plain(line.content) =~= Seq::empty());
            assert(line.content =~= Seq::empty());
        } else {
            assert(plain(line.content).drop_last() =~= Seq::empty());
            assert(text_of_segments(plain(line.content)) =~= line.content);
        }
    }
    let spans = content_paint(segments, style);
    lemma_painted_text(segments, style);
    law_searching_keeps_text(spans, *model.search, idx, None);
    lemma_marks(model, line, line.prefix);
    let mark = crate::ui::diff_view::prefix_text(line, line.prefix, line.source, model.vcs_backend);
    lemma_block(
        model,
        m,
        searched(spans, *model.search, idx, None),
        line.content,
        prefix,
        mark,
        style,
        screen_row,
    );
}

/// The heading of a file and the mark of lines that are left out take one row each, which shows
/// their text.
pub proof fn law_headings_and_notes_are_drawn(
    model: DiffViewModel,
    m: Measures,
    idx: usize,
    skip: usize,
    screen_row: nat,
    stream: StreamView,
)
    requires
        idx < model.lines.deep_view().len(),
        model.lines.deep_view()[idx as int].source is FileHeader
            || model.lines.deep_view()[idx as int].source is Elided,
    ensures
        ({
            let line = model.lines.deep_view()[idx as int];
            let rows = model.line_rows(m, idx, skip, screen_row, stream).rows;
            &&& rows.len() == 1
            &&& has_text(text_of_spans(rows[0].spans), line.content)
            &&& rows[0].info.content == line.content
            &&& rows[0].info.file_path == line.file_path
            &&& rows[0].info.is_file_header == (line.source is FileHeader)
        }),
{
    let line = model.lines.deep_view()[idx as int];
    let rows = model.line_rows(m, idx, skip, screen_row, stream).rows;
    let row = rows[0].spans;
    lemma_has_itself(line.content);
    if line.source is FileHeader {
        let k: int = if number_text(line, m.line_num_width as nat).len() > 0 {
            3
        } else {
            2
        };
        assert(row[k].content == line.content);
        lemma_span_within(row, k);
    } else {
        let k: int = row.len() - 1;
        let front = "┈┈ ⋮ "@;
        let back = " ⋮ ┈┈"@;
        assert(row[k].content == front + line.content + back);
        lemma_text_within(front, line.content, line.content);
        lemma_text_within(front + line.content, back, line.content);
        lemma_span_within(row, k);
        let text = text_of_spans(row);
        lemma_part_of_part(text, row[k].content, line.content);
    }
}

proof fn lemma_span_within(spans: Seq<SpanView>, k: int)
    requires
        0 <= k < spans.len(),
    ensures
        has_text(text_of_spans(spans), spans[k].content),
    decreases spans.len(),
{
    let front = spans.drop_last();
    if k < front.len() {
        lemma_span_within(front, k);
        assert(front[k] == spans[k]);
    } else {
        lemma_has_itself(spans[k].content);
    }
    lemma_text_within(text_of_spans(front), spans.last().content, spans[k].content);
}

proof fn lemma_part_of_part(a: Seq<char>, b: Seq<char>, c: Seq<char>)
    requires
        has_text(a, b),
        has_text(b, c),
    ensures
        has_text(a, c),
{
    let i = choose|i: int| stands_at(a, b, i);
    let k = choose|k: int| stands_at(b, c, k);
    assert(a.subrange(i, i + b.len()) == b);
    assert(a.subrange(i + k, i + k + c.len()) =~= b.subrange(k, k + c.len()));
    assert(stands_at(a, c, i + k));
}

/// The items of the view are drawn one below the other: each further item leaves the rows in front
/// of it as they are, and its own rows follow.
pub proof fn law_items_are_drawn_in_order(
    model: DiffViewModel,
    m: Measures,
    k: nat,
    n: nat,
    stream: StreamView,
)
    requires
        k < n,
    ensures
        ({
            let before = model.rows(m, k, stream);
            let all = model.rows(m, n, stream);
            let own = model.item_rows(
                m,
                model.items@[k as int],
                if k == 0 {
                    model.top_sub_row
                } else {
                    0
                },
                before.rows.len(),
                before.stream,
            );
            &&& before.rows.len() + own.rows.len() <= all.rows.len()
            &&& all.rows.take(before.rows.len() as int) == before.rows
            &&& all.rows.subrange(
                before.rows.len() as int,
                (before.rows.len() + own.rows.len()) as int,
            ) == own.rows
        }),
    decreases n,
{
    let before = model.rows(m, k, stream);
    let all = model.rows(m, n, stream);
    if n == k + 1 {
        assert(all.rows.take(before.rows.len() as int) =~= before.rows);
        let own = all.rows.skip(before.rows.len() as int);
        assert(all.rows.subrange(before.rows.len() as int, all.rows.len() as int) =~= own);
    } else {
        law_items_are_drawn_in_order(model, m, k, (n - 1) as nat, stream);
        let front = model.rows(m, (n - 1) as nat, stream);
        let at: int = before.rows.len() as int;
        assert(all.rows.take(front.rows.len() as int) =~= front.rows);
        assert(all.rows.take(at) =~= front.rows.take(at));
        let own = model.item_rows(
            m,
            model.items@[k as int],
            if k == 0 {
                model.top_sub_row
            } else {
                0
            },
            before.rows.len(),
            before.stream,
        );
        assert(all.rows.subrange(at, at + own.rows.len()) =~= front.rows.subrange(
            at,
            at + own.rows.len(),
        ));
    }
}

/// The heading of a file tells whether the file is collapsed, and carries a mark where it was
/// reviewed, and one where it changed upstream too.
pub proof fn law_headings_carry_their_marks(
    model: DiffViewModel,
    line: DiffLineView,
    prefix: Seq<char>,
)
    ensures
        ({
            let listed = |files: Seq<Seq<char>>| line.file_path matches Some(path)
                && files.contains(path);
            text_of_spans(model.header_row(line, prefix).spans) == prefix + (if listed(
                model.collapsed_files.deep_view(),
            ) {
                "▶ "@
            } else {
                "▼ "@
            }) + "── "@ + line.content + " ──"@ + (if listed(model.reviewed_files.deep_view()) {
                " ✓"@
            } else {
                Seq::empty()
            }) + (if model.upstream_files matches Some(files) && listed(files.deep_view()) {
                " ↑"@
            } else {
                Seq::empty()
            })
        }),
{
    let none = Seq::<char>::empty();
    let known = |files: Seq<Seq<char>>| line.file_path is Some && files.contains(
        line.file_path->0,
    );
    let faint = faint();
    let first = if known(model.collapsed_files.deep_view()) {
        "▶ "@
    } else {
        "▼ "@
    };
    let s0 = lead(prefix);
    lemma_lead_text(prefix);
    let s1 = s0.push(styled(first, faint));
    lemma_text_of_push(s0, styled(first, faint));
    let s2 = s1.push(styled("── "@, faint));
    lemma_text_of_push(s1, styled("── "@, faint));
    let s3 = s2.push(styled(line.content, drawn_style(line)));
    lemma_text_of_push(s2, styled(line.content, drawn_style(line)));
    let s4 = s3.push(styled(" ──"@, faint));
    lemma_text_of_push(s3, styled(" ──"@, faint));
    let tick = styled(" ✓"@, plain_style().with_fg(Color::Green));
    lemma_text_of_push(s4, tick);
    let s5 = if known(model.reviewed_files.deep_view()) {
        s4.push(tick)
    } else {
        s4
    };
    let text = text_of_spans(s4);
    assert(text + none =~= text);
    let arrow = styled(" ↑"@, plain_style().with_fg(Color::Yellow));
    lemma_text_of_push(s5, arrow);
    assert(text_of_spans(s5) + none =~= text_of_spans(s5));
}

proof fn lemma_lead_text(prefix: Seq<char>)
    ensures
        text_of_spans(lead(prefix)) == prefix,
{
    reveal_with_fuel(text_of_spans, 2);
    if prefix.len() > 0 {
        assert(lead(prefix).drop_last() =~= Seq::empty());
        assert(text_of_spans(lead(prefix)) =~= prefix);
    } else {
        assert(text_of_spans(lead(prefix)) =~= prefix);
    }
}

/// An image that is loaded gets as many empty rows as it needs, and is drawn over them; of one that
/// is not, a note tells what is known.
pub proof fn law_images_get_their_rows(
    model: DiffViewModel,
    m: Measures,
    idx: usize,
    skip: usize,
    screen_row: nat,
    stream: StreamView,
)
    requires
        idx < model.lines.deep_view().len(),
        model.lines.deep_view()[idx as int].marks_image(),
        !(model.lines.deep_view()[idx as int].source is FileHeader),
        !(model.lines.deep_view()[idx as int].source is Elided),
        screen_row <= u16::MAX,
    ensures
        ({
            let line = model.lines.deep_view()[idx as int];
            let drawn = model.line_rows(m, idx, skip, screen_row, stream);
            match image_of(*model.image_cache, line.file_path) {
                Some(state) => if state.before is Some || state.after is Some {
                    let height = image_rows(
                        size_of(state.before),
                        size_of(state.after),
                        model.area.width,
                        model.font_size,
                    );
                    &&& drawn.rows.len() == height
                    &&& forall|i: int|
                        0 <= i < drawn.rows.len() ==> (#[trigger] drawn.rows[i]).spans.len() == 0
                            && drawn.rows[i].info.file_path == line.file_path
                    &&& drawn.images.len() == 1
                    &&& drawn.images[0].file_path == line.file_path->0
                    &&& drawn.images[0].start_row == screen_row
                    &&& drawn.images[0].height == height
                } else {
                    drawn.images.len() == 0 && drawn.rows.len() == 1 && drawn.rows[0].spans.last().content
                        == "[image: (new) -> (deleted)]"@
                },
                None => drawn.images.len() == 0 && drawn.rows.len() == 1
                    && drawn.rows[0].spans.last().content == "[image file - loading...]"@,
            }
        }),
{
    reveal_strlit("[image: (new) -> (deleted)]");
    reveal_strlit("[image: ");
    reveal_strlit("(new)");
    reveal_strlit(" -> ");
    reveal_strlit("(deleted)");
    reveal_strlit("]");
    assert("[image: "@ + "(new)"@ + " -> "@ + "(deleted)"@ + "]"@ =~= "[image: (new) -> (deleted)]"@);
    let line = model.lines.deep_view()[idx as int];
    if let Some(state) = image_of(*model.image_cache, line.file_path) {
        law_image_rows_are_bounded(
            size_of(state.before),
            size_of(state.after),
            model.area.width,
            model.font_size,
        );
    }
}

/// Lines that are not shown are counted in the row that stands in their place, and messages are
/// shown as they are.
pub proof fn law_notes_are_shown(
    model: DiffViewModel,
    m: Measures,
    item: DisplayableItem,
    skip: usize,
    screen_row: nat,
    stream: StreamView,
)
    requires
        !(item is Line),
    ensures
        ({
            let rows = model.item_rows(m, item, skip, screen_row, stream).rows;
            let text = match item {
                DisplayableItem::Elided(count) => decimal(count as nat) + " lines hidden"@,
                DisplayableItem::Message(message) => message@,
                DisplayableItem::Line(_) => Seq::empty(),
            };
            &&& rows.len() == 1
            &&& rows[0].spans.last().content == "┈┈ ⋮ "@ + text + " ⋮ ┈┈"@
            &&& rows[0].info.content == text
        }),
{
}

/// The title names the file that the first line with a file among those that are shown belongs to,
/// unless it tells that something was copied.
pub proof fn law_title_names_the_first_file(model: DiffViewModel, k: int, path: Seq<char>)
    requires
        !model.show_copied_flash,
        0 <= k < model.items@.len(),
        model.items@[k] matches DisplayableItem::Line(idx)
            && model.lines.deep_view()[idx as int].file_path == Some(path),
        forall|i: int|
            0 <= i < k ==> (#[trigger] model.items@[i] matches DisplayableItem::Line(idx)
                ==> model.lines.deep_view()[idx as int].file_path is None),
    ensures
        model.title().content == seq![' '] + path + seq![' '],
{
    reveal_strlit(" ");
    assert(" "@ =~= seq![' ']);
    lemma_file_from(model, 0, k);
}

proof fn lemma_file_from(model: DiffViewModel, i: int, k: int)
    requires
        0 <= i <= k < model.items@.len(),
        forall|j: int|
            i <= j < k ==> (#[trigger] model.items@[j] matches DisplayableItem::Line(idx)
                ==> model.lines.deep_view()[idx as int].file_path is None),
    ensures
        model.file_from(i) == model.file_from(k),
    decreases k - i,
{
    if i < k {
        let item = model.items@[i];
        lemma_file_from(model, i + 1, k);
    }
}

proof fn lemma_used_keeps(kept: Seq<KeptView>, path: Seq<char>, other: Seq<char>)
    requires
        keeps(kept, path),
    ensures
        keeps(used(kept, path), other) == keeps(kept, other),
{
    let after = used(kept, path);
    lemma_position(kept, path, 0);
    lemma_position(kept, other, 0);
    lemma_position(after, other, 0);
    let at = position_of(kept, path, 0);
    let a = position_of(kept, other, 0);
    let b = position_of(after, other, 0);
    if keeps(kept, other) {
        if a < at {
            assert(after[a] == kept[a]);
        } else if a > at {
            assert(after[a - 1] == kept[a]);
        } else {
            assert(after[after.len() - 1] == kept[at]);
        }
        assert(b < after.len());
    } else if keeps(after, other) {
        if b < at {
            assert(after[b] == kept[b]);
        } else if b < after.len() - 1 {
            assert(after[b] == kept[b + 1]);
        } else {
            assert(after[b] == kept[at]);
        }
    }
}

/// No image that is visible and loaded is left out: it is drawn in the part of its rows that the
/// view shows. None is forgotten by that.
pub proof fn law_every_visible_image_is_drawn(
    kept: Seq<KeptView>,
    positions: Seq<ImagePositionView>,
    content_offset: (u16, u16),
    area: Rect,
    font_size: (u16, u16),
    i: int,
    path: Seq<char>,
)
    requires
        0 <= i < positions.len(),
    ensures
        keeps(placed(kept, positions, content_offset, area, font_size).1, path) == keeps(kept, path),
        keeps(kept, positions[i].file_path) && visible_part(positions[i], content_offset, area)
            is Some ==> exists|k: int|
            0 <= k < placed(kept, positions, content_offset, area, font_size).0.len() && (
            #[trigger] placed(kept, positions, content_offset, area, font_size).0[k]).path
                == positions[i].file_path && Some(
                placed(kept, positions, content_offset, area, font_size).0[k].area,
            ) == visible_part(positions[i], content_offset, area),
    decreases positions.len(),
{
    let front = positions.drop_last();
    let pos = positions.last();
    let (images, still) = placed(kept, front, content_offset, area, font_size);
    let (all, after) = placed(kept, positions, content_offset, area, font_size);
    let wanted = positions[i].file_path;
    lemma_placed_keeps(kept, front, content_offset, area, font_size, pos.file_path);
    lemma_placed_keeps(kept, front, content_offset, area, font_size, path);
    if keeps(still, pos.file_path) {
        lemma_used_keeps(still, pos.file_path, path);
    }
    if keeps(kept, wanted) && visible_part(positions[i], content_offset, area) is Some {
        if i < front.len() {
            law_every_visible_image_is_drawn(
                kept,
                front,
                content_offset,
                area,
                font_size,
                i,
                path,
            );
            assert(front[i] == positions[i]);
            let k = choose|k: int|
                0 <= k < images.len() && (#[trigger] images[k]).path == wanted && Some(
                    images[k].area,
                ) == visible_part(positions[i], content_offset, area);
            assert(all[k] == images[k]);
        } else {
            assert(all[all.len() - 1].path == wanted);
        }
    }
}

proof fn lemma_placed_keeps(
    kept: Seq<KeptView>,
    positions: Seq<ImagePositionView>,
    content_offset: (u16, u16),
    area: Rect,
    font_size: (u16, u16),
    path: Seq<char>,
)
    ensures
        keeps(placed(kept, positions, content_offset, area, font_size).1, path) == keeps(kept, path),
    decreases positions.len(),
{
    if positions.len() > 0 {
        let front = positions.drop_last();
        let pos = positions.last();
        let (images, still) = placed(kept, front, content_offset, area, font_size);
        lemma_placed_keeps(kept, front, content_offset, area, font_size, path);
        if keeps(still, pos.file_path) {
            lemma_used_keeps(still, pos.file_path, path);
        }
    }
}

/// The columns suffice: every line number fits in front of its line with room to spare, and number,
/// mark and text together are no wider than the inside of the border, where there is room for text
/// at all.
pub proof fn law_columns_suffice(lines: Seq<DiffLineView>, area: Rect, i: int)
    requires
        0 <= i < lines.len(),
    ensures
        ({
            let m = measures(lines, area);
            &&& lines[i].line_number matches Some(n) ==> (n > 0 ==> decimal(n as nat).len()
                < m.line_num_width)
            &&& m.content_width > 0 ==> m.prefix_width + m.content_width + 2 == area.width
            &&& m.line_num_width > 0 ==> m.prefix_width == m.line_num_width + 5
            &&& m.line_num_width == 0 ==> m.prefix_width == 4
            &&& area.height >= 2 ==> m.max_rows + 2 == area.height
        }),
{
    law_largest_number(lines);
    lemma_decimal_is_short(largest_number(lines));
    if let Some(n) = lines[i].line_number {
        if n > 0 {
            lemma_larger_numbers_are_longer(n as nat, largest_number(lines));
        }
    }
}

} // verus!

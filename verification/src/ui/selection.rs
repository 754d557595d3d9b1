//! Marking selected text.
use vstd::prelude::*;

use crate::app::Selection;
use crate::style::lemma_styles_of_concat;
use crate::style::lemma_styles_of_few;
use crate::style::lemma_styles_of_text;
use crate::style::styled;
use crate::style::styles_of;
use crate::style::text_of_spans;
use crate::style::Color;
use crate::style::Span;
use crate::style::SpanView;
use crate::text::chars_of;
use crate::text::substring;
use crate::ui::wrapping::all_printable;
use crate::ui::wrapping::char_widths;
use crate::ui::wrapping::clip;
use crate::ui::wrapping::is_printable;
use crate::ui::wrapping::spans_width;
use crate::ui::wrapping::split_width;
use crate::ui::wrapping::width_of_char;
use crate::ui::wrapping::width_of_text;

verus! {

/// The background of selected text.
#[verifier::allow_in_spec]
pub fn selection_bg_color() -> Color
    returns
        Color::Rgb(60, 60, 100),
{
    Color::Rgb(60, 60, 100)
}

/// The columns of row `line_idx` that are selected, from the first up to the last: on the first
/// row of the selection from its beginning on, on the last row up to its end, and the whole of the
/// rows in between.
pub open spec fn selected_range(selection: Option<Selection>, line_idx: usize) -> Option<
    (usize, usize),
> {
    match selection {
        None => None,
        Some(sel) => if sel.first().row <= line_idx <= sel.last().row {
            Some(
                (
                    if line_idx == sel.first().row {
                        sel.first().col
                    } else {
                        0
                    },
                    if line_idx == sel.last().row {
                        sel.last().col
                    } else {
                        usize::MAX
                    },
                ),
            )
        } else {
            None
        },
    }
}

/// The columns of row `line_idx` that are selected; nothing where the row is not in the selection.
pub fn get_line_selection_range(selection: &Option<Selection>, line_idx: usize) -> (r: Option<
    (usize, usize),
>)
    ensures
        r == selected_range(*selection, line_idx),
{
    match selection {
        None => None,
        Some(sel) => {
            let (start, end) = if sel.start.row < sel.end.row || (sel.start.row == sel.end.row
                && sel.start.col <= sel.end.col) {
                (sel.start, sel.end)
            } else {
                (sel.end, sel.start)
            };
            if line_idx < start.row || line_idx > end.row {
                return None;
            }
            let from: usize = if line_idx == start.row {
                start.col
            } else {
                0
            };
            let to: usize = if line_idx == end.row {
                end.col
            } else {
                usize::MAX
            };
            Some((from, to))
        },
    }
}

/// The first position from `i` on before which at least `target` columns are taken, `used` of them
/// before `i`.
pub open spec fn reached(s: Seq<char>, target: nat, i: int, used: nat) -> int
    decreases s.len() - i,
{
    if 0 <= i < s.len() && used < target {
        reached(s, target, i + 1, used + split_width(s[i]))
    } else {
        i
    }
}

pub proof fn lemma_reached(s: Seq<char>, target: nat, i: int, used: nat)
    requires
        0 <= i <= s.len(),
    ensures
        i <= reached(s, target, i, used) <= s.len(),
    decreases s.len() - i,
{
    if i < s.len() && used < target {
        lemma_reached(s, target, i + 1, used + split_width(s[i]));
    }
}

/// A column of the screen as one of a text that starts at column `offset` and takes `width`
/// columns.
pub open spec fn local_column(col: usize, offset: usize, width: usize) -> nat {
    if col <= offset {
        0
    } else if col - offset <= width {
        (col - offset) as nat
    } else {
        width as nat
    }
}

/// A span that starts at column `offset`, with the columns from `from` up to `to` marked as
/// selected: it is left as it is where none of them is in it, and else split into the text before
/// them, the selected text and the text behind them, as far as there is any. A character is
/// selected where it starts in these columns.
pub open spec fn marked(span: SpanView, offset: usize, from: usize, to: usize) -> Seq<SpanView> {
    let text = span.content;
    let width = clip(char_widths(text));
    if offset + width <= from || offset >= to || text.len() == 0 {
        seq![span]
    } else {
        let a = reached(text, local_column(from, offset, width), 0, 0);
        let b = reached(text, local_column(to, offset, width), 0, 0);
        let before = if a > 0 {
            seq![styled(text.take(a), span.style)]
        } else {
            Seq::empty()
        };
        let inside = if a < b {
            seq![styled(text.subrange(a, b), span.style.with_bg(selection_bg_color()))]
        } else {
            Seq::empty()
        };
        let after = if b < text.len() {
            seq![styled(text.skip(b), span.style)]
        } else {
            Seq::empty()
        };
        before + inside + after
    }
}

fn position_at(cs: &[char], target: usize) -> (r: usize)
    ensures
        r == reached(cs@, target as nat, 0, 0),
        r <= cs@.len(),
{
    let mut used: usize = 0;
    let mut i: usize = 0;
    while i < cs.len() && used < target
        invariant
            i <= cs@.len(),
            reached(cs@, target as nat, 0, 0) == reached(cs@, target as nat, i as int, used as nat)
                || (used == usize::MAX && reached(cs@, target as nat, 0, 0) == i),
        decreases cs.len() - i,
    {
        let width: usize = match width_of_char(cs[i]) {
            Some(w) => w,
            None => 0,
        };
        proof {
            let next = (used + width) as nat;
            assert(reached(cs@, target as nat, 0, 0) == reached(cs@, target as nat, i + 1, next));
            assert(next >= target ==> reached(cs@, target as nat, i + 1, next) == i + 1);
        }
        used = used.saturating_add(width);
        i = i + 1;
    }
    i
}

/// The columns that the characters of a text take one by one.
pub(crate) fn sum_of_widths(cs: &[char]) -> (r: usize)
    ensures
        r == clip(char_widths(cs@)),
{
    let mut total: usize = 0;
    let mut i: usize = 0;
    while i < cs.len()
        invariant
            i <= cs@.len(),
            total == clip(char_widths(cs@.take(i as int))),
        decreases cs.len() - i,
    {
        proof {
            assert(cs@.take(i + 1).drop_last() =~= cs@.take(i as int));
        }
        let width: usize = match width_of_char(cs[i]) {
            Some(w) => w,
            None => 0,
        };
        total = total.saturating_add(width);
        i = i + 1;
    }
    assert(cs@.take(cs@.len() as int) =~= cs@);
    total
}

/// Marks the selected part of a span, which starts at column `display_offset`. All offsets are in
/// columns of the screen.
pub fn apply_selection_to_span(
    span: Span,
    display_offset: usize,
    sel_start: usize,
    sel_end: usize,
) -> (r: Vec<Span>)
    ensures
        r.deep_view() == marked(span.deep_view(), display_offset, sel_start, sel_end),
{
    let ghost given = span.deep_view();
    let cs = chars_of(span.content.as_str());
    let width = sum_of_widths(cs.as_slice());
    let before_selection = sel_start >= display_offset && sel_start - display_offset >= width;
    if before_selection || display_offset >= sel_end || cs.len() == 0 {
        let r = vec![span];
        assert(r.deep_view() =~= seq![given]);
        return r;
    }
    let local_start: usize = if sel_start <= display_offset {
        0
    } else if sel_start - display_offset <= width {
        sel_start - display_offset
    } else {
        width
    };
    let local_end: usize = if sel_end <= display_offset {
        0
    } else if sel_end - display_offset <= width {
        sel_end - display_offset
    } else {
        width
    };
    let a = position_at(cs.as_slice(), local_start);
    let b = position_at(cs.as_slice(), local_end);
    let mut result: Vec<Span> = Vec::new();
    let ghost mut sofar: Seq<SpanView> = Seq::empty();
    assert(result.deep_view() =~= sofar);
    if a > 0 {
        let text = substring(cs.as_slice(), 0, a);
        result.push(Span::styled(text, span.style));
        proof {
            assert(text@ =~= given.content.take(a as int));
            sofar = sofar.push(styled(given.content.take(a as int), given.style));
            assert(result.deep_view() =~= sofar);
        }
    }
    if a < b {
        let text = substring(cs.as_slice(), a, b);
        result.push(Span::styled(text, span.style.bg(selection_bg_color())));
        proof {
            sofar = sofar.push(
                styled(
                    given.content.subrange(a as int, b as int),
                    given.style.with_bg(selection_bg_color()),
                ),
            );
            assert(result.deep_view() =~= sofar);
        }
    }
    if b < cs.len() {
        let text = substring(cs.as_slice(), b, cs.len());
        result.push(Span::styled(text, span.style));
        proof {
            assert(text@ =~= given.content.skip(b as int));
            sofar = sofar.push(styled(given.content.skip(b as int), given.style));
            assert(result.deep_view() =~= sofar);
        }
    }
    proof {
        assert(sofar =~= marked(given, display_offset, sel_start, sel_end));
    }
    result
}

/// Spans that stand one after the other from column 0 on, with the columns from `from` up to `to`
/// marked as selected.
pub open spec fn marked_spans(spans: Seq<SpanView>, from: usize, to: usize) -> Seq<SpanView>
    decreases spans.len(),
{
    if spans.len() == 0 {
        Seq::empty()
    } else {
        marked_spans(spans.drop_last(), from, to) + marked(
            spans.last(),
            clip(spans_width(spans.drop_last())),
            from,
            to,
        )
    }
}

/// Marks the selected part of spans that stand one after the other from column 0 on.
pub fn apply_selection_to_spans(spans: &[Span], sel_start: usize, sel_end: usize) -> (r: Vec<Span>)
    ensures
        r.deep_view() == marked_spans(spans.deep_view(), sel_start, sel_end),
{
    let ghost all = spans.deep_view();
    let mut out: Vec<Span> = Vec::new();
    let mut offset: usize = 0;
    let mut i: usize = 0;
    assert(out.deep_view() =~= marked_spans(all.take(0), sel_start, sel_end));
    while i < spans.len()
        invariant
            i <= spans@.len(),
            all == spans.deep_view(),
            offset == clip(spans_width(all.take(i as int))),
            out.deep_view() == marked_spans(all.take(i as int), sel_start, sel_end),
        decreases spans.len() - i,
    {
        proof {
            assert(all.take(i + 1).drop_last() =~= all.take(i as int));
            assert(all[i as int] == spans@[i as int].deep_view());
        }
        let ghost before = out.deep_view();
        let mut part = apply_selection_to_span(spans[i].clone(), offset, sel_start, sel_end);
        let ghost added = part.deep_view();
        out.append(&mut part);
        assert(out.deep_view() =~= before + added);
        offset = offset.saturating_add(width_of_text(spans[i].content.as_str()));
        i = i + 1;
    }
    assert(all.take(all.len() as int) =~= all);
    out
}

proof fn lemma_reached_monotone(s: Seq<char>, t1: nat, t2: nat, i: int, used: nat)
    requires
        0 <= i <= s.len(),
        t1 <= t2,
    ensures
        reached(s, t1, i, used) <= reached(s, t2, i, used),
    decreases s.len() - i,
{
    if i < s.len() && used < t1 {
        lemma_reached_monotone(s, t1, t2, i + 1, used + split_width(s[i]));
    } else {
        lemma_reached(s, t2, i, used);
    }
}

/// Marking a selection never alters the text.
pub proof fn law_marking_keeps_text(span: SpanView, offset: usize, from: usize, to: usize)
    requires
        from <= to,
    ensures
        text_of_spans(marked(span, offset, from, to)) == span.content,
{
    reveal_with_fuel(text_of_spans, 4);
    let text = span.content;
    let width = clip(char_widths(text));
    let m = marked(span, offset, from, to);
    if offset + width <= from || offset >= to || text.len() == 0 {
        assert(m.drop_last() =~= Seq::empty());
        assert(text_of_spans(m) =~= text);
    } else {
        let a = reached(text, local_column(from, offset, width), 0, 0);
        let b = reached(text, local_column(to, offset, width), 0, 0);
        lemma_reached(text, local_column(from, offset, width), 0, 0);
        lemma_reached(text, local_column(to, offset, width), 0, 0);
        lemma_reached_monotone(
            text,
            local_column(from, offset, width),
            local_column(to, offset, width),
            0,
            0,
        );
        if m.len() == 3 {
            assert(m.drop_last().drop_last().drop_last() =~= Seq::empty());
            assert(m.drop_last().last() == m[1]);
            assert(m.drop_last().drop_last().last() == m[0]);
        } else if m.len() == 2 {
            assert(m.drop_last().drop_last() =~= Seq::empty());
            assert(m.drop_last().last() == m[0]);
        } else {
            assert(m.drop_last() =~= Seq::empty());
        }
        assert(text_of_spans(m) =~= text);
    }
}

/// Marking a selection in a row of spans never alters their text.
pub proof fn law_marking_spans_keeps_text(spans: Seq<SpanView>, from: usize, to: usize)
    requires
        from <= to,
    ensures
        text_of_spans(marked_spans(spans, from, to)) == text_of_spans(spans),
    decreases spans.len(),
{
    if spans.len() > 0 {
        law_marking_spans_keeps_text(spans.drop_last(), from, to);
        let offset = clip(spans_width(spans.drop_last()));
        law_marking_keeps_text(spans.last(), offset, from, to);
        crate::style::lemma_text_of_concat(
            marked_spans(spans.drop_last(), from, to),
            marked(spans.last(), offset, from, to),
        );
    }
}

/// What is selected is the same whichever way the mouse was dragged.
pub proof fn law_dragging_back_selects_the_same(selection: Selection, line_idx: usize)
    ensures
        selected_range(
            Some(Selection { start: selection.end, end: selection.start, ..selection }),
            line_idx,
        ) == selected_range(Some(selection), line_idx),
{
}

/// The columns of a row that are selected never end before they begin.
pub proof fn law_selected_range_is_ordered(selection: Option<Selection>, line_idx: usize)
    ensures
        selected_range(selection, line_idx) matches Some(range) ==> range.0 <= range.1,
{
}

/// Whether a position comes before another one in reading order, or is the same.
pub open spec fn reads_first(a: (usize, usize), b: (usize, usize)) -> bool {
    a.0 < b.0 || (a.0 == b.0 && a.1 <= b.1)
}

/// What is selected is what lies between the two ends of the selection in reading order, whichever
/// of them is the first: all of the rows between theirs, and of theirs what lies on the right side.
pub proof fn law_selection_lies_between_its_ends(selection: Selection, row: usize, col: usize)
    requires
        col < usize::MAX,
    ensures
        ({
            let a = (selection.start.row, selection.start.col);
            let b = (selection.end.row, selection.end.col);
            let at = (row, col);
            (selected_range(Some(selection), row) matches Some(range) && range.0 <= col < range.1)
                <==> (reads_first(a, at) && !reads_first(b, at)) || (reads_first(b, at)
                && !reads_first(a, at))
        }),
{
}

proof fn lemma_reached_printable(s: Seq<char>, target: nat, i: int)
    requires
        0 <= i <= s.len(),
        all_printable(s),
    ensures
        reached(s, target, i, i as nat) == (if target <= i {
            i
        } else if target <= s.len() {
            target as int
        } else {
            s.len() as int
        }),
    decreases s.len() - i,
{
    if i < s.len() && i < target {
        assert(is_printable(s[i]));
        lemma_reached_printable(s, target, i + 1);
    }
}

proof fn lemma_printable_widths(s: Seq<char>)
    requires
        all_printable(s),
    ensures
        char_widths(s) == s.len(),
    decreases s.len(),
{
    if s.len() > 0 {
        let front = s.drop_last();
        assert forall|i: int| 0 <= i < front.len() implies is_printable(#[trigger] front[i]) by {
            assert(front[i] == s[i]);
        }
        lemma_printable_widths(front);
        assert(is_printable(s[s.len() - 1]));
    }
}

proof fn lemma_marked_styles(span: SpanView, offset: usize, from: usize, to: usize)
    requires
        from <= to,
        all_printable(span.content),
        offset + span.content.len() <= usize::MAX,
    ensures
        styles_of(marked(span, offset, from, to)).len() == span.content.len(),
        forall|i: int|
            0 <= i < span.content.len() ==> #[trigger] styles_of(
                marked(span, offset, from, to),
            )[i] == (if from <= offset + i < to {
                span.style.with_bg(selection_bg_color())
            } else {
                span.style
            }),
{
    let text = span.content;
    lemma_printable_widths(text);
    let width = clip(char_widths(text));
    lemma_reached_printable(text, local_column(from, offset, width), 0);
    lemma_reached_printable(text, local_column(to, offset, width), 0);
    let m = marked(span, offset, from, to);
    lemma_styles_of_few(m);
}

/// Exactly the selected columns of a row get the background of the selection, where each character
/// takes one column, and nothing else about how they are drawn changes.
pub proof fn law_only_the_selection_is_marked(spans: Seq<SpanView>, from: usize, to: usize)
    requires
        from <= to,
        text_of_spans(spans).len() <= usize::MAX,
        forall|k: int| 0 <= k < spans.len() ==> all_printable((#[trigger] spans[k]).content),
    ensures
        spans_width(spans) == text_of_spans(spans).len(),
        styles_of(marked_spans(spans, from, to)).len() == text_of_spans(spans).len(),
        forall|i: int|
            0 <= i < text_of_spans(spans).len() ==> #[trigger] styles_of(
                marked_spans(spans, from, to),
            )[i] == (if from <= i < to {
                styles_of(spans)[i].with_bg(selection_bg_color())
            } else {
                styles_of(spans)[i]
            }),
    decreases spans.len(),
{
    if spans.len() > 0 {
        let front = spans.drop_last();
        let last = spans[spans.len() - 1];
        let text = text_of_spans(front);
        assert forall|k: int| 0 <= k < front.len() implies all_printable(
            (#[trigger] front[k]).content,
        ) by {
            assert(front[k] == spans[k]);
        }
        law_only_the_selection_is_marked(front, from, to);
        let offset = clip(spans_width(front));
        lemma_marked_styles(last, offset, from, to);
        lemma_styles_of_text(front);
        let added = marked(last, offset, from, to);
        lemma_styles_of_concat(marked_spans(front, from, to), added);
        let all = styles_of(marked_spans(spans, from, to));
        assert forall|i: int| 0 <= i < text_of_spans(spans).len() implies #[trigger] all[i] == (
        if from <= i < to {
            styles_of(spans)[i].with_bg(selection_bg_color())
        } else {
            styles_of(spans)[i]
        }) by {
            if i < text.len() {
                assert(all[i] == styles_of(marked_spans(front, from, to))[i]);
            } else {
                assert(all[i] == styles_of(added)[i - text.len()]);
                assert(styles_of(spans)[i] == last.style);
            }
        }
    }
}

} // verus!

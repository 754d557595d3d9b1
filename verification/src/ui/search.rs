//! Marking what a search found, and the line that the search is entered in.
use vstd::prelude::*;
use vstd::string::*;

use crate::app::SearchMatch;
use crate::app::SearchState;
use crate::diff::InlineSpan;
use crate::diff::InlineSpanView;
use crate::style::lemma_styles_of_concat;
use crate::style::lemma_styles_of_few;
use crate::style::lemma_styles_of_text;
use crate::style::plain_style;
use crate::style::styled;
use crate::style::styles_of;
use crate::style::text_of_spans;
use crate::style::Color;
use crate::style::Line;
use crate::style::Span;
use crate::style::SpanView;
use crate::style::Style;
use crate::text::append_number;
use crate::text::chars_of;
use crate::text::copies;
use crate::text::decimal;
use crate::text::repeat_char;
use crate::text::substring;
use crate::ui::colors::search_current_bg;
use crate::ui::colors::search_match_bg;
use crate::ui::spans::new_text;
use crate::ui::wrapping::clip;

verus! {

/// The text of some spans, deleted and new, in order.
pub open spec fn shown_text(spans: Seq<InlineSpanView>) -> Seq<char>
    decreases spans.len(),
{
    if spans.len() == 0 {
        Seq::empty()
    } else {
        shown_text(spans.drop_last()) + spans.last().text
    }
}

pub open spec fn larger(a: usize, b: usize) -> usize {
    if a >= b {
        a
    } else {
        b
    }
}

pub open spec fn lesser(a: usize, b: usize) -> usize {
    if a <= b {
        a
    } else {
        b
    }
}

/// Characters `from` up to `to` of the new text of a line, as ranges of what is shown of it where
/// its deleted text stands among the new. Ranges that touch are one.
pub open spec fn render_ranges(spans: Seq<InlineSpanView>, from: usize, to: usize) -> Seq<
    (usize, usize),
>
    decreases spans.len(),
{
    if spans.len() == 0 {
        Seq::empty()
    } else {
        let before = render_ranges(spans.drop_last(), from, to);
        let span = spans.last();
        let c = clip(new_text(spans.drop_last()).len());
        let a = larger(from, c);
        let b = lesser(to, clip((c + span.text.len()) as nat));
        if span.is_deletion || a >= b {
            before
        } else {
            let r = shown_text(spans.drop_last()).len();
            let range = (clip((r + (a - c)) as nat), clip((r + (b - c)) as nat));
            if before.len() > 0 && before.last().1 == range.0 {
                before.drop_last().push((before.last().0, range.1))
            } else {
                before.push(range)
            }
        }
    }
}

/// Characters `content_start` up to `content_end` of the new text of a line, as ranges of what is
/// shown of it where its deleted text stands among the new.
pub fn content_match_to_render_ranges(
    inline_spans: &[InlineSpan],
    content_start: usize,
    content_end: usize,
) -> (r: Vec<(usize, usize)>)
    ensures
        r@ == render_ranges(inline_spans.deep_view(), content_start, content_end),
{
    let ghost all = inline_spans.deep_view();
    let mut ranges: Vec<(usize, usize)> = Vec::new();
    let mut content_pos: usize = 0;
    let mut render_pos: usize = 0;
    let mut i: usize = 0;
    while i < inline_spans.len()
        invariant
            i <= inline_spans@.len(),
            all == inline_spans.deep_view(),
            content_pos == clip(new_text(all.take(i as int)).len()),
            render_pos == clip(shown_text(all.take(i as int)).len()),
            ranges@ == render_ranges(all.take(i as int), content_start, content_end),
        decreases inline_spans.len() - i,
    {
        let span = &inline_spans[i];
        proof {
            assert(all.take(i + 1).drop_last() =~= all.take(i as int));
            assert(all[i as int] == span.deep_view());
        }
        let len = span.text.as_str().unicode_len();
        if !span.is_deletion {
            let span_end = content_pos.saturating_add(len);
            let start: usize = if content_start >= content_pos {
                content_start
            } else {
                content_pos
            };
            let end: usize = if content_end <= span_end {
                content_end
            } else {
                span_end
            };
            if start < end {
                let r_start = render_pos.saturating_add(start - content_pos);
                let r_end = render_pos.saturating_add(end - content_pos);
                let n = ranges.len();
                if n > 0 && ranges[n - 1].1 == r_start {
                    let first = ranges[n - 1].0;
                    ranges.set(n - 1, (first, r_end));
                    assert(ranges@ =~= render_ranges(
                        all.take(i + 1),
                        content_start,
                        content_end,
                    ));
                } else {
                    ranges.push((r_start, r_end));
                }
            }
            content_pos = span_end;
        }
        render_pos = render_pos.saturating_add(len);
        i = i + 1;
    }
    assert(all.take(all.len() as int) =~= all);
    ranges
}

/// A span that starts at character `at`, with the background `bg` from character `from` up to `to`.
pub open spec fn overlaid_span(span: SpanView, at: usize, from: usize, to: usize, bg: Color) -> Seq<
    SpanView,
> {
    let len = span.content.len();
    if clip((at + len) as nat) <= from || at >= to {
        seq![span]
    } else {
        let a = if from <= at {
            0
        } else {
            from - at
        };
        let b = if to - at <= len {
            to - at
        } else {
            len as int
        };
        let before = if a > 0 {
            seq![styled(span.content.take(a), span.style)]
        } else {
            Seq::empty()
        };
        let inside = before.push(styled(span.content.subrange(a, b), span.style.with_bg(bg)));
        if b < len {
            inside.push(styled(span.content.skip(b), span.style))
        } else {
            inside
        }
    }
}

/// Spans with the background `bg` from character `from` up to `to`.
pub open spec fn overlaid(spans: Seq<SpanView>, from: usize, to: usize, bg: Color) -> Seq<SpanView>
    decreases spans.len(),
{
    if spans.len() == 0 {
        Seq::empty()
    } else {
        overlaid(spans.drop_last(), from, to, bg) + overlaid_span(
            spans.last(),
            clip(text_of_spans(spans.drop_last()).len()),
            from,
            to,
            bg,
        )
    }
}

fn overlay_span(span: &Span, at: usize, from: usize, to: usize, bg: Color) -> (r: Vec<Span>)
    requires
        from <= to,
    ensures
        r.deep_view() == overlaid_span(span.deep_view(), at, from, to, bg),
{
    let ghost given = span.deep_view();
    let cs = chars_of(span.content.as_str());
    let mut out: Vec<Span> = Vec::new();
    let ghost mut sofar: Seq<SpanView> = Seq::empty();
    assert(out.deep_view() =~= sofar);
    if at.saturating_add(cs.len()) <= from || at >= to {
        out.push(span.clone());
        assert(out.deep_view() =~= seq![given]);
        return out;
    }
    let a: usize = if from <= at {
        0
    } else {
        from - at
    };
    let b: usize = if to - at <= cs.len() {
        to - at
    } else {
        cs.len()
    };
    if a > 0 {
        let text = substring(cs.as_slice(), 0, a);
        assert(text@ =~= given.content.take(a as int));
        out.push(Span::styled(text, span.style));
        proof {
            sofar = sofar.push(styled(given.content.take(a as int), given.style));
            assert(out.deep_view() =~= sofar);
        }
    }
    out.push(Span::styled(substring(cs.as_slice(), a, b), span.style.bg(bg)));
    proof {
        sofar = sofar.push(
            styled(given.content.subrange(a as int, b as int), given.style.with_bg(bg)),
        );
        assert(out.deep_view() =~= sofar);
    }
    if b < cs.len() {
        let text = substring(cs.as_slice(), b, cs.len());
        assert(text@ =~= given.content.skip(b as int));
        out.push(Span::styled(text, span.style));
        proof {
            sofar = sofar.push(styled(given.content.skip(b as int), given.style));
            assert(out.deep_view() =~= sofar);
        }
    }
    assert(sofar =~= overlaid_span(given, at, from, to, bg));
    out
}

/// Gives characters `h_start` up to `h_end` of some spans the background `bg`.
pub fn overlay_range(spans: Vec<Span>, h_start: usize, h_end: usize, bg: Color) -> (r: Vec<Span>)
    requires
        h_start <= h_end,
    ensures
        r.deep_view() == overlaid(spans.deep_view(), h_start, h_end, bg),
{
    let ghost all = spans.deep_view();
    let mut out: Vec<Span> = Vec::new();
    let mut at: usize = 0;
    let mut i: usize = 0;
    assert(out.deep_view() =~= overlaid(all.take(0), h_start, h_end, bg));
    while i < spans.len()
        invariant
            i <= spans@.len(),
            h_start <= h_end,
            all == spans.deep_view(),
            at == clip(text_of_spans(all.take(i as int)).len()),
            out.deep_view() == overlaid(all.take(i as int), h_start, h_end, bg),
        decreases spans.len() - i,
    {
        proof {
            assert(all.take(i + 1).drop_last() =~= all.take(i as int));
            assert(all[i as int] == spans@[i as int].deep_view());
        }
        let ghost before = out.deep_view();
        let mut part = overlay_span(&spans[i], at, h_start, h_end, bg);
        let ghost added = part.deep_view();
        out.append(&mut part);
        assert(out.deep_view() =~= before + added);
        at = at.saturating_add(spans[i].content.as_str().unicode_len());
        i = i + 1;
    }
    assert(all.take(all.len() as int) =~= all);
    out
}

/// The ranges of a line that are highlighted, and whether each belongs to the match that was gone
/// to last: the matches in the line, shown among its deleted text where `inline` is given.
pub open spec fn highlights(
    matches: Seq<SearchMatch>,
    current: usize,
    line_idx: usize,
    inline: Option<Seq<InlineSpanView>>,
) -> Seq<(usize, usize, bool)>
    decreases matches.len(),
{
    if matches.len() == 0 {
        Seq::empty()
    } else {
        let before = highlights(matches.drop_last(), current, line_idx, inline);
        let m = matches.last();
        let is_current = matches.len() - 1 == current;
        let end = clip((m.char_start + m.char_len) as nat);
        if m.line_idx != line_idx {
            before
        } else {
            match inline {
                Some(spans) => before + flagged(
                    render_ranges(spans, m.char_start, end),
                    is_current,
                ),
                None => before.push((m.char_start, end, is_current)),
            }
        }
    }
}

pub open spec fn flagged(ranges: Seq<(usize, usize)>, flag: bool) -> Seq<(usize, usize, bool)> {
    Seq::new(ranges.len(), |i: int| (ranges[i].0, ranges[i].1, flag))
}

/// Where a range goes among others that are sorted by where they begin, the last first: behind
/// those that begin no earlier.
pub open spec fn place(sorted: Seq<(usize, usize, bool)>, start: usize, i: int) -> int
    decreases sorted.len() - i,
{
    if 0 <= i < sorted.len() && sorted[i].0 >= start {
        place(sorted, start, i + 1)
    } else {
        i
    }
}

/// Ranges sorted by where they begin, the last first. Those that begin together stay in order.
pub open spec fn last_first(ranges: Seq<(usize, usize, bool)>) -> Seq<(usize, usize, bool)>
    decreases ranges.len(),
{
    if ranges.len() == 0 {
        Seq::empty()
    } else {
        let sorted = last_first(ranges.drop_last());
        sorted.insert(place(sorted, ranges.last().0, 0), ranges.last())
    }
}

/// Spans with the backgrounds of some highlights, one after the other.
pub open spec fn overlaid_all(spans: Seq<SpanView>, ranges: Seq<(usize, usize, bool)>) -> Seq<
    SpanView,
>
    decreases ranges.len(),
{
    if ranges.len() == 0 {
        spans
    } else {
        let h = ranges.last();
        overlaid(
            overlaid_all(spans, ranges.drop_last()),
            h.0,
            h.1,
            if h.2 {
                search_current_bg()
            } else {
                search_match_bg()
            },
        )
    }
}

/// What a `SearchState` marks in a line.
pub open spec fn searched(
    spans: Seq<SpanView>,
    search: Option<SearchState>,
    line_idx: usize,
    inline: Option<Seq<InlineSpanView>>,
) -> Seq<SpanView> {
    match search {
        Some(search) => overlaid_all(
            spans,
            last_first(highlights(search.matches@, search.current, line_idx, inline)),
        ),
        None => spans,
    }
}

pub open spec fn forward(ranges: Seq<(usize, usize, bool)>) -> bool {
    forall|i: int| 0 <= i < ranges.len() ==> (#[trigger] ranges[i]).0 <= ranges[i].1
}

proof fn lemma_ranges_forward(spans: Seq<InlineSpanView>, from: usize, to: usize)
    ensures
        forall|i: int|
            0 <= i < render_ranges(spans, from, to).len() ==> (#[trigger] render_ranges(
                spans,
                from,
                to,
            )[i]).0 <= render_ranges(spans, from, to)[i].1,
    decreases spans.len(),
{
    if spans.len() > 0 {
        lemma_ranges_forward(spans.drop_last(), from, to);
        let before = render_ranges(spans.drop_last(), from, to);
        if before.len() > 0 {
            assert(before[before.len() - 1].0 <= before[before.len() - 1].1);
        }
    }
}

fn find_highlights(
    search: &SearchState,
    line_idx: usize,
    inline_spans: Option<&[InlineSpan]>,
) -> (r: Vec<(usize, usize, bool)>)
    ensures
        r@ == highlights(search.matches@, search.current, line_idx, inline_spans.deep_view()),
        forward(r@),
{
    let ghost all = search.matches@;
    let ghost inline = inline_spans.deep_view();
    let mut out: Vec<(usize, usize, bool)> = Vec::new();
    let mut i: usize = 0;
    while i < search.matches.len()
        invariant
            i <= search.matches@.len(),
            all == search.matches@,
            inline == inline_spans.deep_view(),
            out@ == highlights(all.take(i as int), search.current, line_idx, inline),
            forward(out@),
        decreases search.matches.len() - i,
    {
        assert(all.take(i + 1).drop_last() =~= all.take(i as int));
        let m = search.matches[i];
        if m.line_idx == line_idx {
            let end = m.char_start.saturating_add(m.char_len);
            let is_current = i == search.current;
            match inline_spans {
                Some(spans) => {
                    let ranges = content_match_to_render_ranges(spans, m.char_start, end);
                    proof {
                        lemma_ranges_forward(spans.deep_view(), m.char_start, end);
                    }
                    let ghost before = out@;
                    let mut k: usize = 0;
                    while k < ranges.len()
                        invariant
                            k <= ranges@.len(),
                            out@ =~= before + flagged(ranges@, is_current).take(k as int),
                            forward(out@),
                            forall|n: int|
                                0 <= n < ranges@.len() ==> (#[trigger] ranges@[n]).0
                                    <= ranges@[n].1,
                        decreases ranges.len() - k,
                    {
                        out.push((ranges[k].0, ranges[k].1, is_current));
                        k = k + 1;
                    }
                    assert(flagged(ranges@, is_current).take(ranges@.len() as int) =~= flagged(
                        ranges@,
                        is_current,
                    ));
                },
                None => {
                    out.push((m.char_start, end, is_current));
                },
            }
        }
        i = i + 1;
    }
    assert(all.take(all.len() as int) =~= all);
    out
}

fn sort_last_first(ranges: &Vec<(usize, usize, bool)>) -> (r: Vec<(usize, usize, bool)>)
    requires
        forward(ranges@),
    ensures
        r@ == last_first(ranges@),
        forward(r@),
{
    let mut out: Vec<(usize, usize, bool)> = Vec::new();
    let mut i: usize = 0;
    while i < ranges.len()
        invariant
            i <= ranges@.len(),
            forward(ranges@),
            out@ == last_first(ranges@.take(i as int)),
            forward(out@),
        decreases ranges.len() - i,
    {
        assert(ranges@.take(i + 1).drop_last() =~= ranges@.take(i as int));
        let range = ranges[i];
        let mut at: usize = 0;
        while at < out.len() && out[at].0 >= range.0
            invariant
                at <= out@.len(),
                place(out@, range.0, 0) == place(out@, range.0, at as int),
            decreases out.len() - at,
        {
            at = at + 1;
        }
        out.insert(at, range);
        i = i + 1;
    }
    assert(ranges@.take(ranges@.len() as int) =~= ranges@);
    out
}

/// Marks what a search found in a line, whose text the spans hold one for one or, where
/// `inline_spans` is given, among its deleted text.
pub fn apply_search_with_translation(
    content_spans: Vec<Span>,
    search: &Option<SearchState>,
    line_idx: usize,
    inline_spans: Option<&[InlineSpan]>,
) -> (r: Vec<Span>)
    ensures
        r.deep_view() == searched(
            content_spans.deep_view(),
            *search,
            line_idx,
            inline_spans.deep_view(),
        ),
{
    let search = match search {
        Some(search) => search,
        None => {
            return content_spans;
        },
    };
    let found = find_highlights(search, line_idx, inline_spans);
    let ranges = sort_last_first(&found);
    let ghost given = content_spans.deep_view();
    let mut result = content_spans;
    let mut i: usize = 0;
    assert(ranges@.take(0) =~= Seq::empty());
    while i < ranges.len()
        invariant
            i <= ranges@.len(),
            forward(ranges@),
            result.deep_view() == overlaid_all(given, ranges@.take(i as int)),
        decreases ranges.len() - i,
    {
        assert(ranges@.take(i + 1).drop_last() =~= ranges@.take(i as int));
        let (from, to, is_current) = ranges[i];
        let bg = if is_current {
            search_current_bg()
        } else {
            search_match_bg()
        };
        result = overlay_range(result, from, to, bg);
        i = i + 1;
    }
    assert(ranges@.take(ranges@.len() as int) =~= ranges@);
    result
}

/// Marks what a search found in a line, whose text the spans hold one for one.
pub fn apply_search_to_content(
    content_spans: Vec<Span>,
    search: &Option<SearchState>,
    line_idx: usize,
) -> (r: Vec<Span>)
    ensures
        r.deep_view() == searched(content_spans.deep_view(), *search, line_idx, None),
{
    apply_search_with_translation(content_spans, search, line_idx, None)
}

/// Marks what a search found in a line that is shown with its deleted text among the new.
pub fn apply_search_to_inline_render(
    content_spans: Vec<Span>,
    inline_spans: &[InlineSpan],
    search: &Option<SearchState>,
    line_idx: usize,
) -> (r: Vec<Span>)
    ensures
        r.deep_view() == searched(
            content_spans.deep_view(),
            *search,
            line_idx,
            Some(inline_spans.deep_view()),
        ),
{
    apply_search_with_translation(content_spans, search, line_idx, Some(inline_spans))
}

/// The text in some ranges, in order.
pub open spec fn picked(text: Seq<char>, ranges: Seq<(usize, usize)>) -> Seq<char>
    decreases ranges.len(),
{
    if ranges.len() == 0 {
        Seq::empty()
    } else {
        picked(text, ranges.drop_last()) + text.subrange(
            ranges.last().0 as int,
            ranges.last().1 as int,
        )
    }
}

/// Whether some ranges lie in a text.
pub open spec fn all_inside(text: Seq<char>, ranges: Seq<(usize, usize)>) -> bool {
    forall|i: int|
        0 <= i < ranges.len() ==> (#[trigger] ranges[i]).0 <= ranges[i].1 <= text.len()
}

proof fn lemma_picked_extended(text: Seq<char>, more: Seq<char>, ranges: Seq<(usize, usize)>)
    requires
        all_inside(text, ranges),
    ensures
        picked(text + more, ranges) == picked(text, ranges),
        all_inside(text + more, ranges),
    decreases ranges.len(),
{
    if ranges.len() > 0 {
        let last = ranges[ranges.len() - 1];
        assert(last.0 <= last.1 <= text.len());
        assert forall|i: int| 0 <= i < ranges.drop_last().len() implies (
        #[trigger] ranges.drop_last()[i]).0 <= ranges.drop_last()[i].1 <= text.len() by {
            assert(ranges.drop_last()[i] == ranges[i]);
        }
        lemma_picked_extended(text, more, ranges.drop_last());
        assert((text + more).subrange(last.0 as int, last.1 as int) =~= text.subrange(
            last.0 as int,
            last.1 as int,
        ));
        assert(all_inside(text + more, ranges));
    }
}

/// A stretch of a text, as far as the text goes.
pub open spec fn stretch(text: Seq<char>, from: usize, to: usize) -> Seq<char> {
    let n = text.len();
    text.subrange(
        if from <= n {
            from as int
        } else {
            n as int
        },
        if to <= n {
            to as int
        } else {
            n as int
        },
    )
}

proof fn lemma_stretch_grows(n: Seq<char>, more: Seq<char>, from: usize, to: usize)
    requires
        from <= to,
        n.len() + more.len() <= usize::MAX,
    ensures
        larger(from, n.len() as usize) >= lesser(to, (n.len() + more.len()) as usize) ==> stretch(
            n + more,
            from,
            to,
        ) == stretch(n, from, to),
        larger(from, n.len() as usize) < lesser(to, (n.len() + more.len()) as usize) ==> stretch(
            n + more,
            from,
            to,
        ) == stretch(n, from, to) + more.subrange(
            larger(from, n.len() as usize) - n.len(),
            lesser(to, (n.len() + more.len()) as usize) - n.len(),
        ),
{
    let c = n.len() as usize;
    let a = larger(from, c);
    let b = lesser(to, (n.len() + more.len()) as usize);
    if a >= b {
        assert(stretch(n + more, from, to) =~= stretch(n, from, to));
    } else {
        assert(stretch(n + more, from, to) =~= stretch(n, from, to) + more.subrange(
            a - c,
            b - c,
        ));
    }
}

/// One more range that is shown behind others.
proof fn lemma_one_more_range(
    all: Seq<char>,
    before: Seq<(usize, usize)>,
    range: (usize, usize),
)
    requires
        all_inside(all, before),
        range.0 <= range.1 <= all.len(),
    ensures
        ({
            let ranges = if before.len() > 0 && before.last().1 == range.0 {
                before.drop_last().push((before.last().0, range.1))
            } else {
                before.push(range)
            };
            &&& all_inside(all, ranges)
            &&& picked(all, ranges) == picked(all, before) + all.subrange(
                range.0 as int,
                range.1 as int,
            )
        }),
{
    if before.len() > 0 && before.last().1 == range.0 {
        let last = before.last();
        assert(before[before.len() - 1] == last);
        let ranges = before.drop_last().push((last.0, range.1));
        assert(ranges.drop_last() =~= before.drop_last());
        assert(all.subrange(last.0 as int, range.1 as int) =~= all.subrange(
            last.0 as int,
            last.1 as int,
        ) + all.subrange(range.0 as int, range.1 as int));
        assert(picked(all, ranges) =~= picked(all, before) + all.subrange(
            range.0 as int,
            range.1 as int,
        ));
        assert forall|i: int| 0 <= i < ranges.len() implies (#[trigger] ranges[i]).0 <= ranges[i].1
            <= all.len() by {
            if i < ranges.len() - 1 {
                assert(ranges[i] == before[i]);
            }
        }
    } else {
        let ranges = before.push(range);
        assert(ranges.drop_last() =~= before);
        assert forall|i: int| 0 <= i < ranges.len() implies (#[trigger] ranges[i]).0 <= ranges[i].1
            <= all.len() by {
            if i < ranges.len() - 1 {
                assert(ranges[i] == before[i]);
            }
        }
    }
}

/// A match in the new text of a line is highlighted exactly where its characters are shown, and
/// none of the deleted text among them with it.
pub proof fn law_highlights_land_on_the_match(spans: Seq<InlineSpanView>, from: usize, to: usize)
    requires
        from <= to,
        shown_text(spans).len() <= usize::MAX,
        new_text(spans).len() <= usize::MAX,
    ensures
        all_inside(shown_text(spans), render_ranges(spans, from, to)),
        picked(shown_text(spans), render_ranges(spans, from, to)) == stretch(
            new_text(spans),
            from,
            to,
        ),
    decreases spans.len(),
{
    if spans.len() == 0 {
        assert(stretch(new_text(spans), from, to) =~= Seq::empty());
    } else {
        let d = spans.drop_last();
        let span = spans.last();
        let (t, n) = (shown_text(d), new_text(d));
        law_highlights_land_on_the_match(d, from, to);
        let before = render_ranges(d, from, to);
        lemma_picked_extended(t, span.text, before);
        if !span.is_deletion {
            lemma_stretch_grows(n, span.text, from, to);
            let c = n.len() as usize;
            let a = larger(from, c);
            let b = lesser(to, (n.len() + span.text.len()) as usize);
            if a < b {
                let range = ((t.len() + (a - c)) as usize, (t.len() + (b - c)) as usize);
                assert((t + span.text).subrange(range.0 as int, range.1 as int)
                    =~= span.text.subrange(a - c, b - c));
                lemma_one_more_range(t + span.text, before, range);
            }
        }
    }
}

proof fn lemma_overlaid_span_text(span: SpanView, at: usize, from: usize, to: usize, bg: Color)
    requires
        from <= to,
    ensures
        text_of_spans(overlaid_span(span, at, from, to, bg)) == span.content,
{
    reveal_with_fuel(text_of_spans, 4);
    let o = overlaid_span(span, at, from, to, bg);
    if o.len() == 1 {
        assert(o.drop_last() =~= Seq::empty());
    } else if o.len() == 2 {
        assert(o.drop_last().drop_last() =~= Seq::empty());
        assert(o.drop_last().last() == o[0]);
    } else {
        assert(o.drop_last().drop_last().drop_last() =~= Seq::empty());
        assert(o.drop_last().drop_last().last() == o[0]);
        assert(o.drop_last().last() == o[1]);
    }
    assert(text_of_spans(o) =~= span.content);
}

/// Highlighting never alters the text.
pub proof fn law_highlighting_keeps_text(
    spans: Seq<SpanView>,
    from: usize,
    to: usize,
    bg: Color,
)
    requires
        from <= to,
    ensures
        text_of_spans(overlaid(spans, from, to, bg)) == text_of_spans(spans),
    decreases spans.len(),
{
    if spans.len() > 0 {
        law_highlighting_keeps_text(spans.drop_last(), from, to, bg);
        let at = clip(text_of_spans(spans.drop_last()).len());
        lemma_overlaid_span_text(spans.last(), at, from, to, bg);
        crate::style::lemma_text_of_concat(
            overlaid(spans.drop_last(), from, to, bg),
            overlaid_span(spans.last(), at, from, to, bg),
        );
    }
}

impl SearchState {
    /// How many matches there are.
    pub fn match_count(&self) -> (r: usize)
        ensures
            r == self.matches@.len(),
    {
        self.matches.len()
    }

    /// The number of the match that was gone to last, counted from one; zero where there is none.
    pub open spec fn shown_current(self) -> nat {
        if self.matches@.len() == 0 {
            0
        } else {
            self.current as nat + 1
        }
    }

    /// How far along the matches are, or that there are none.
    pub open spec fn counter(self) -> Seq<char> {
        if self.matches@.len() > 0 {
            let total = if self.visible_count < self.matches@.len() {
                self.visible_count as nat
            } else {
                self.matches@.len()
            };
            "["@ + decimal(self.shown_current()) + "/"@ + decimal(total) + "]"@
        } else if self.query@.len() > 0 {
            "[no matches]"@
        } else {
            Seq::empty()
        }
    }

    /// The end of the text to search for that fits into `room` characters, behind an ellipsis where
    /// it is longer.
    pub open spec fn shown_query(self, room: nat) -> Seq<char> {
        if self.query@.len() > room {
            "…"@ + self.query@.skip(
                if room == 0 {
                    self.query@.len() as int
                } else {
                    self.query@.len() - room + 1
                },
            )
        } else {
            self.query@
        }
    }
}

/// The length of a text in bytes.
pub open spec fn byte_len(s: Seq<char>) -> nat {
    (vstd::utf8::encode_utf8(s).len() as usize) as nat
}

/// The line that a search is entered in: the text to search for and, at its end, how far along the
/// matches are.
pub open spec fn search_line(search: SearchState, width: nat) -> Seq<SpanView> {
    let bg = Color::Rgb(40, 42, 54);
    let bar = plain_style().with_fg(Color::White).with_bg(bg);
    let counter = search.counter();
    let used = byte_len(counter);
    let room = if used + 2 <= width {
        (width - (used + 2)) as nat
    } else {
        0
    };
    let cursor = if search.input_active {
        "█"@
    } else {
        ""@
    };
    let left = "/"@ + search.shown_query(room) + cursor;
    let gap = if left.len() + used <= width {
        (width - (left.len() + used)) as nat
    } else {
        0
    };
    seq![
        styled(left, bar),
        styled(copies(' ', gap), bar),
        styled(counter, plain_style().with_fg(Color::DarkGray).with_bg(bg)),
    ]
}

impl SearchState {
    /// The number of the match that was gone to last, counted from one.
    pub fn current_display(&self) -> (r: u64)
        requires
            self.current < u64::MAX,
        ensures
            r == self.shown_current(),
    {
        if self.matches.len() == 0 {
            0
        } else {
            self.current as u64 + 1
        }
    }

    fn counter_text(&self) -> (r: String)
        requires
            self.current < u64::MAX,
        ensures
            r@ == self.counter(),
    {
        if self.matches.len() > 0 {
            let total = if self.visible_count < self.matches.len() {
                self.visible_count
            } else {
                self.matches.len()
            };
            let mut out = "[".to_owned();
            append_number(&mut out, self.current_display());
            out.append("/");
            append_number(&mut out, total as u64);
            out.append("]");
            out
        } else if self.query.as_str().unicode_len() > 0 {
            "[no matches]".to_owned()
        } else {
            let out = String::new();
            assert(out@ =~= Seq::empty());
            out
        }
    }
}

/// The line that a search is entered in.
pub fn render_search_bar(search: &SearchState, width: u16) -> (r: Line)
    requires
        search.current < u64::MAX,
    ensures
        r.deep_view() == search_line(*search, width as nat),
{
    let bg = Color::Rgb(40, 42, 54);
    let bar = Style::default().fg(Color::White).bg(bg);
    let counter = search.counter_text();
    let used = counter.as_str().len();
    let width = width as usize;
    let room: usize = if used <= width && width - used >= 2 {
        width - used - 2
    } else {
        0
    };
    let cs = chars_of(search.query.as_str());
    let shown = if cs.len() > room {
        let mut out = "…".to_owned();
        let from: usize = if room == 0 {
            cs.len()
        } else {
            cs.len() - room + 1
        };
        let rest = substring(cs.as_slice(), from, cs.len());
        assert(rest@ =~= search.query@.skip(from as int));
        out.append(rest.as_str());
        out
    } else {
        search.query.clone()
    };
    let mut left = "/".to_owned();
    left.append(shown.as_str());
    if search.input_active {
        left.append("█");
    } else {
        left.append("");
    }
    let len = left.as_str().unicode_len();
    let gap: usize = if used <= width && len <= width - used {
        width - used - len
    } else {
        0
    };
    let mut spans: Vec<Span> = Vec::new();
    spans.push(Span::styled(left, bar));
    spans.push(Span::styled(repeat_char(' ', gap), bar));
    spans.push(Span::styled(counter, Style::default().fg(Color::DarkGray).bg(bg)));
    assert(spans.deep_view() =~= search_line(*search, width as nat));
    Line { spans }
}

proof fn lemma_forward_highlights(
    matches: Seq<SearchMatch>,
    current: usize,
    line_idx: usize,
    inline: Option<Seq<InlineSpanView>>,
)
    ensures
        forward(highlights(matches, current, line_idx, inline)),
    decreases matches.len(),
{
    if matches.len() > 0 {
        lemma_forward_highlights(matches.drop_last(), current, line_idx, inline);
        let m = matches.last();
        let end = clip((m.char_start + m.char_len) as nat);
        if let Some(spans) = inline {
            lemma_ranges_forward(spans, m.char_start, end);
        }
    }
}

proof fn lemma_forward_sorted(ranges: Seq<(usize, usize, bool)>)
    requires
        forward(ranges),
    ensures
        forward(last_first(ranges)),
    decreases ranges.len(),
{
    if ranges.len() > 0 {
        let front = ranges.drop_last();
        assert(forward(front)) by {
            assert forall|i: int| 0 <= i < front.len() implies (#[trigger] front[i]).0
                <= front[i].1 by {
                assert(front[i] == ranges[i]);
            }
        }
        lemma_forward_sorted(front);
        let sorted = last_first(front);
        let range = ranges[ranges.len() - 1];
        lemma_place(sorted, range.0, 0);
        let at = place(sorted, range.0, 0);
        let all = sorted.insert(at, range);
        assert forall|i: int| 0 <= i < all.len() implies (#[trigger] all[i]).0 <= all[i].1 by {
            if i < at {
                assert(all[i] == sorted[i]);
            } else if i > at {
                assert(all[i] == sorted[i - 1]);
            }
        }
    }
}

proof fn lemma_place(sorted: Seq<(usize, usize, bool)>, start: usize, i: int)
    requires
        0 <= i <= sorted.len(),
    ensures
        i <= place(sorted, start, i) <= sorted.len(),
    decreases sorted.len() - i,
{
    if i < sorted.len() && sorted[i].0 >= start {
        lemma_place(sorted, start, i + 1);
    }
}

proof fn lemma_overlaid_all_text(spans: Seq<SpanView>, ranges: Seq<(usize, usize, bool)>)
    requires
        forward(ranges),
    ensures
        text_of_spans(overlaid_all(spans, ranges)) == text_of_spans(spans),
    decreases ranges.len(),
{
    if ranges.len() > 0 {
        let front = ranges.drop_last();
        assert forall|i: int| 0 <= i < front.len() implies (#[trigger] front[i]).0 <= front[i].1 by {
            assert(front[i] == ranges[i]);
        }
        lemma_overlaid_all_text(spans, front);
        let h = ranges[ranges.len() - 1];
        law_highlighting_keeps_text(
            overlaid_all(spans, front),
            h.0,
            h.1,
            if h.2 {
                search_current_bg()
            } else {
                search_match_bg()
            },
        );
    }
}

/// Whatever is searched for, the text of a line stays as it is.
pub proof fn law_searching_keeps_text(
    spans: Seq<SpanView>,
    search: Option<SearchState>,
    line_idx: usize,
    inline: Option<Seq<InlineSpanView>>,
)
    ensures
        text_of_spans(searched(spans, search, line_idx, inline)) == text_of_spans(spans),
{
    if let Some(search) = search {
        lemma_forward_highlights(search.matches@, search.current, line_idx, inline);
        let found = highlights(search.matches@, search.current, line_idx, inline);
        lemma_forward_sorted(found);
        lemma_overlaid_all_text(spans, last_first(found));
    }
}

proof fn lemma_overlaid_span_styles(span: SpanView, at: usize, from: usize, to: usize, bg: Color)
    requires
        from <= to,
        at + span.content.len() <= usize::MAX,
    ensures
        styles_of(overlaid_span(span, at, from, to, bg)).len() == span.content.len(),
        forall|i: int|
            0 <= i < span.content.len() ==> #[trigger] styles_of(
                overlaid_span(span, at, from, to, bg),
            )[i] == (if from <= at + i < to {
                span.style.with_bg(bg)
            } else {
                span.style
            }),
{
    let o = overlaid_span(span, at, from, to, bg);
    lemma_styles_of_few(o);
}

/// Exactly the characters of a range get the background of a highlight, and nothing else about how
/// they are drawn changes.
pub proof fn law_only_the_range_is_highlighted(
    spans: Seq<SpanView>,
    from: usize,
    to: usize,
    bg: Color,
)
    requires
        from <= to,
        text_of_spans(spans).len() <= usize::MAX,
    ensures
        styles_of(overlaid(spans, from, to, bg)).len() == text_of_spans(spans).len(),
        forall|i: int|
            0 <= i < text_of_spans(spans).len() ==> #[trigger] styles_of(
                overlaid(spans, from, to, bg),
            )[i] == (if from <= i < to {
                styles_of(spans)[i].with_bg(bg)
            } else {
                styles_of(spans)[i]
            }),
    decreases spans.len(),
{
    if spans.len() > 0 {
        let front = spans.drop_last();
        let text = text_of_spans(front);
        let at = clip(text.len());
        law_only_the_range_is_highlighted(front, from, to, bg);
        lemma_overlaid_span_styles(spans.last(), at, from, to, bg);
        lemma_styles_of_text(front);
        let added = overlaid_span(spans.last(), at, from, to, bg);
        lemma_styles_of_concat(overlaid(front, from, to, bg), added);
        let all = styles_of(overlaid(spans, from, to, bg));
        assert forall|i: int| 0 <= i < text_of_spans(spans).len() implies #[trigger] all[i] == (
        if from <= i < to {
            styles_of(spans)[i].with_bg(bg)
        } else {
            styles_of(spans)[i]
        }) by {
            if i < text.len() {
                assert(all[i] == styles_of(overlaid(front, from, to, bg))[i]);
            } else {
                assert(all[i] == styles_of(added)[i - text.len()]);
                assert(styles_of(spans)[i] == spans.last().style);
            }
        }
    }
}

/// The background of a highlight.
pub open spec fn highlight_of(is_current: bool) -> Color {
    if is_current {
        search_current_bg()
    } else {
        search_match_bg()
    }
}

/// Whether a character is in a range.
pub open spec fn covers(range: (usize, usize, bool), i: int) -> bool {
    range.0 <= i < range.1
}

proof fn lemma_overlaid_all_styles(spans: Seq<SpanView>, ranges: Seq<(usize, usize, bool)>, i: int)
    requires
        forward(ranges),
        text_of_spans(spans).len() <= usize::MAX,
        0 <= i < text_of_spans(spans).len(),
    ensures
        ({
            let style = styles_of(overlaid_all(spans, ranges))[i];
            let plain = styles_of(spans)[i];
            let covered = exists|k: int| 0 <= k < ranges.len() && covers(#[trigger] ranges[k], i);
            &&& !covered ==> style == plain
            &&& covered ==> exists|k: int|
                0 <= k < ranges.len() && covers(#[trigger] ranges[k], i) && style == plain.with_bg(
                    highlight_of(ranges[k].2),
                )
        }),
    decreases ranges.len(),
{
    if ranges.len() > 0 {
        let front = ranges.drop_last();
        let n = ranges.len() - 1;
        let h = ranges[n];
        assert forall|k: int| 0 <= k < front.len() implies (#[trigger] front[k]).0 <= front[k].1 by {
            assert(front[k] == ranges[k]);
        }
        lemma_overlaid_all_styles(spans, front, i);
        lemma_overlaid_all_text(spans, front);
        let before = overlaid_all(spans, front);
        law_only_the_range_is_highlighted(before, h.0, h.1, highlight_of(h.2));
        let style = styles_of(overlaid_all(spans, ranges))[i];
        let plain = styles_of(spans)[i];
        if covers(h, i) {
            let under = styles_of(before)[i];
            if exists|k: int| 0 <= k < front.len() && covers(#[trigger] front[k], i) {
                let k = choose|k: int|
                    0 <= k < front.len() && covers(#[trigger] front[k], i) && under
                        == plain.with_bg(highlight_of(front[k].2));
                assert(under == plain.with_bg(highlight_of(front[k].2)));
            }
            assert(style == plain.with_bg(highlight_of(ranges[n].2)));
        } else if exists|k: int| 0 <= k < ranges.len() && covers(#[trigger] ranges[k], i) {
            let k = choose|k: int| 0 <= k < ranges.len() && covers(#[trigger] ranges[k], i);
            assert(covers(front[k], i));
            let j = choose|j: int|
                0 <= j < front.len() && covers(#[trigger] front[j], i) && style == plain.with_bg(
                    highlight_of(front[j].2),
                );
            assert(covers(ranges[j], i));
        } else {
            assert forall|k: int| 0 <= k < front.len() implies !covers(#[trigger] front[k], i) by {
                assert(!covers(ranges[k], i));
            }
        }
    }
}

proof fn lemma_same_ranges(ranges: Seq<(usize, usize, bool)>, range: (usize, usize, bool))
    ensures
        last_first(ranges).contains(range) == ranges.contains(range),
    decreases ranges.len(),
{
    if ranges.len() > 0 {
        let front = ranges.drop_last();
        lemma_same_ranges(front, range);
        let sorted = last_first(front);
        let last = ranges[ranges.len() - 1];
        lemma_place(sorted, last.0, 0);
        let at = place(sorted, last.0, 0);
        let all = sorted.insert(at, last);
        if front.contains(range) {
            let k = choose|k: int| 0 <= k < front.len() && front[k] == range;
            assert(ranges[k] == range);
            let j = choose|j: int| 0 <= j < sorted.len() && sorted[j] == range;
            if j < at {
                assert(all[j] == range);
            } else {
                assert(all[j + 1] == range);
            }
        }
        if range == last {
            assert(all[at] == range);
            assert(ranges[ranges.len() - 1] == range);
        }
        if all.contains(range) {
            let j = choose|j: int| 0 <= j < all.len() && all[j] == range;
            if j < at {
                assert(sorted[j] == range);
            } else if j > at {
                assert(sorted[j - 1] == range);
            }
        }
        if ranges.contains(range) {
            let k = choose|k: int| 0 <= k < ranges.len() && ranges[k] == range;
            if k < front.len() {
                assert(front[k] == range);
            }
        }
    }
}

/// Whether a match is in a line and holds one of its characters.
pub open spec fn finds(found: SearchMatch, line_idx: usize, i: int) -> bool {
    found.line_idx == line_idx && found.char_start <= i < found.char_start + found.char_len
}

proof fn lemma_highlights_are_matches(
    matches: Seq<SearchMatch>,
    current: usize,
    line_idx: usize,
    range: (usize, usize, bool),
)
    ensures
        highlights(matches, current, line_idx, None).contains(range) <==> exists|k: int|
            0 <= k < matches.len() && (#[trigger] matches[k]).line_idx == line_idx && range == (
                matches[k].char_start,
                clip((matches[k].char_start + matches[k].char_len) as nat),
                k == current,
            ),
    decreases matches.len(),
{
    let all = highlights(matches, current, line_idx, None);
    if matches.len() > 0 {
        let front = matches.drop_last();
        let before = highlights(front, current, line_idx, None);
        let n = matches.len() - 1;
        lemma_highlights_are_matches(front, current, line_idx, range);
        if all.contains(range) {
            let j = choose|j: int| 0 <= j < all.len() && all[j] == range;
            if j < before.len() {
                assert(before[j] == range);
                let k = choose|k: int|
                    0 <= k < front.len() && (#[trigger] front[k]).line_idx == line_idx && range == (
                        front[k].char_start,
                        clip((front[k].char_start + front[k].char_len) as nat),
                        k == current,
                    );
                assert(matches[k] == front[k]);
            } else {
                assert(matches[n].line_idx == line_idx);
            }
        }
        if exists|k: int|
            0 <= k < matches.len() && (#[trigger] matches[k]).line_idx == line_idx && range == (
                matches[k].char_start,
                clip((matches[k].char_start + matches[k].char_len) as nat),
                k == current,
            ) {
            let k = choose|k: int|
                0 <= k < matches.len() && (#[trigger] matches[k]).line_idx == line_idx && range == (
                    matches[k].char_start,
                    clip((matches[k].char_start + matches[k].char_len) as nat),
                    k == current,
                );
            if k < n {
                assert(front[k] == matches[k]);
                let j = choose|j: int| 0 <= j < before.len() && before[j] == range;
                assert(all[j] == range);
            } else {
                assert(all[all.len() - 1] == range);
            }
        }
    }
}

/// Exactly the characters that a search found in a line are highlighted, and of these the ones of
/// the match that was gone to last in its own colour; where matches overlap, in the colour of one
/// of them.
pub proof fn law_exactly_the_matches_are_highlighted(
    spans: Seq<SpanView>,
    search: SearchState,
    line_idx: usize,
    i: int,
)
    requires
        text_of_spans(spans).len() <= usize::MAX,
        0 <= i < text_of_spans(spans).len(),
        i < usize::MAX,
    ensures
        ({
            let style = styles_of(searched(spans, Some(search), line_idx, None))[i];
            let plain = styles_of(spans)[i];
            let found = exists|k: int|
                0 <= k < search.matches@.len() && finds(#[trigger] search.matches@[k], line_idx, i);
            &&& !found ==> style == plain
            &&& found ==> exists|k: int|
                0 <= k < search.matches@.len() && finds(#[trigger] search.matches@[k], line_idx, i)
                    && style == plain.with_bg(
                    if k == search.current {
                        search_current_bg()
                    } else {
                        search_match_bg()
                    },
                )
        }),
{
    let matches = search.matches@;
    let all = highlights(matches, search.current, line_idx, None);
    let sorted = last_first(all);
    lemma_forward_highlights(matches, search.current, line_idx, None);
    lemma_forward_sorted(all);
    lemma_overlaid_all_styles(spans, sorted, i);
    let style = styles_of(searched(spans, Some(search), line_idx, None))[i];
    let plain = styles_of(spans)[i];
    if exists|k: int| 0 <= k < matches.len() && finds(#[trigger] matches[k], line_idx, i) {
        let k = choose|k: int| 0 <= k < matches.len() && finds(#[trigger] matches[k], line_idx, i);
        let range = (
            matches[k].char_start,
            clip((matches[k].char_start + matches[k].char_len) as nat),
            k == search.current,
        );
        lemma_highlights_are_matches(matches, search.current, line_idx, range);
        lemma_same_ranges(all, range);
        let j = choose|j: int| 0 <= j < sorted.len() && sorted[j] == range;
        assert(covers(sorted[j], i));
    }
    if exists|j: int| 0 <= j < sorted.len() && covers(#[trigger] sorted[j], i) {
        let j = choose|j: int|
            0 <= j < sorted.len() && covers(#[trigger] sorted[j], i) && style == plain.with_bg(
                highlight_of(sorted[j].2),
            );
        assert(sorted.contains(sorted[j]));
        lemma_same_ranges(all, sorted[j]);
        lemma_highlights_are_matches(matches, search.current, line_idx, sorted[j]);
        let k = choose|k: int|
            0 <= k < matches.len() && (#[trigger] matches[k]).line_idx == line_idx && sorted[j] == (
                matches[k].char_start,
                clip((matches[k].char_start + matches[k].char_len) as nat),
                k == search.current,
            );
        assert(finds(matches[k], line_idx, i));
    }
}

} // verus!

//! The stretches of a modified line: what kind of change they make up, how scattered ones are
//! merged, and how they are coloured.
use vstd::prelude::*;
use vstd::string::*;

use crate::diff::copy_spans;
use crate::diff::InlineSpan;
use crate::diff::InlineSpanView;
use crate::diff::LineSource;
use crate::style::styled;
use crate::style::styles_of;
use crate::style::text_of_spans;
use crate::style::Color;
use crate::style::Span;
use crate::style::SpanView;
use crate::style::Style;
use crate::syntax::SyntaxHighlighter;
use crate::syntax::SyntaxSegment;
use crate::syntax::SyntaxSegmentView;
use crate::text::chars_of;
use crate::text::is_space;
use crate::text::is_whitespace;
use crate::text::same_text;
use crate::ui::colors::contrasted;
use crate::ui::colors::default_fg;
use crate::ui::colors::ensure_contrast;
use crate::ui::colors::line_style;
use crate::ui::colors::line_style_with_highlight;
use crate::ui::colors::style_of_highlight;
use crate::ui::colors::style_of_line;
use crate::ui::wrapping::clip;
use crate::ui::wrapping::content_display_width;
use crate::ui::wrapping::display_width;

verus! {

/// What the changes within a line do to it.
#[derive(Clone, Copy, Debug, PartialEq, Eq, Structural)]
pub enum InlineChangeType {
    Mixed,
    PureDeletion,
    PureAddition,
    NoChange,
}

impl InlineSpanView {
    /// Inserted or deleted text.
    pub open spec fn changed(self) -> bool {
        self.source is Some
    }

    pub open spec fn inserted(self) -> bool {
        !self.is_deletion && self.source is Some
    }
}

pub open spec fn some_deletion(spans: Seq<InlineSpanView>) -> bool {
    exists|i: int| 0 <= i < spans.len() && (#[trigger] spans[i]).is_deletion
}

pub open spec fn some_insertion(spans: Seq<InlineSpanView>) -> bool {
    exists|i: int| 0 <= i < spans.len() && (#[trigger] spans[i]).inserted()
}

/// What the changes within a line do to it.
pub open spec fn change_type(spans: Seq<InlineSpanView>) -> InlineChangeType {
    if some_deletion(spans) {
        if some_insertion(spans) {
            InlineChangeType::Mixed
        } else {
            InlineChangeType::PureDeletion
        }
    } else if some_insertion(spans) {
        InlineChangeType::PureAddition
    } else {
        InlineChangeType::NoChange
    }
}

/// The number of runs of changed spans.
pub open spec fn change_regions(spans: Seq<InlineSpanView>) -> nat
    decreases spans.len(),
{
    if spans.len() == 0 {
        0
    } else {
        let before = spans.drop_last();
        let opens = spans.last().changed() && (before.len() == 0 || !before.last().changed());
        change_regions(before) + if opens {
            1nat
        } else {
            0
        }
    }
}

/// Whether the changes are scattered: two or more runs with unchanged text between them.
pub open spec fn fragmented(spans: Seq<InlineSpanView>) -> bool {
    spans.len() >= 4 && change_regions(spans) >= 2
}

/// The brackets, quotes and separators that structure a line.
pub open spec fn is_structural(c: char) -> bool {
    ||| c == '('
    ||| c == ')'
    ||| c == '{'
    ||| c == '}'
    ||| c == '['
    ||| c == ']'
    ||| c == '<'
    ||| c == '>'
    ||| c == ':'
    ||| c == ';'
    ||| c == ','
    ||| c == '"'
    ||| c == '\''
    ||| c == '`'
    ||| c == '.'
}

/// Whether unchanged text is kept apart from the changes beside it: it is five characters or
/// longer, or nothing but space and structure. Shorter matches are likely coincidental.
pub open spec fn preserved(s: Seq<char>) -> bool {
    s.len() >= 5 || forall|i: int|
        0 <= i < s.len() ==> is_space(#[trigger] s[i]) || is_structural(s[i])
}

/// Where the unchanged spans that are kept in front of the changes end, from `i` on.
pub open spec fn prefix_end(spans: Seq<InlineSpanView>, i: int) -> int
    decreases spans.len() - i,
{
    if 0 <= i < spans.len() && !spans[i].changed() && preserved(spans[i].text) {
        prefix_end(spans, i + 1)
    } else {
        i
    }
}

/// Where the unchanged spans that are kept in front of `i` begin.
pub open spec fn kept_back_to(spans: Seq<InlineSpanView>, i: int) -> int
    decreases i,
{
    if 0 < i <= spans.len() && !spans[i - 1].changed() && preserved(spans[i - 1].text) {
        kept_back_to(spans, i - 1)
    } else {
        i
    }
}

/// Where the unchanged spans that are kept behind the changes begin. The last span of a line is
/// always kept where it is unchanged.
pub open spec fn suffix_start(spans: Seq<InlineSpanView>) -> int {
    if spans.len() > 0 && !spans.last().changed() {
        kept_back_to(spans, spans.len() - 1)
    } else {
        spans.len() as int
    }
}

/// The text of the line before the change.
pub open spec fn old_text(spans: Seq<InlineSpanView>) -> Seq<char>
    decreases spans.len(),
{
    if spans.len() == 0 {
        Seq::empty()
    } else if spans.last().inserted() {
        old_text(spans.drop_last())
    } else {
        old_text(spans.drop_last()) + spans.last().text
    }
}

/// The text of the line after the change.
pub open spec fn new_text(spans: Seq<InlineSpanView>) -> Seq<char>
    decreases spans.len(),
{
    if spans.len() == 0 {
        Seq::empty()
    } else if spans.last().is_deletion {
        new_text(spans.drop_last())
    } else {
        new_text(spans.drop_last()) + spans.last().text
    }
}

/// The source of the first deletion, or of the first insertion, that has one.
pub open spec fn first_source(spans: Seq<InlineSpanView>, is_deletion: bool) -> Option<LineSource>
    decreases spans.len(),
{
    if spans.len() == 0 {
        None
    } else {
        match first_source(spans.drop_last(), is_deletion) {
            Some(source) => Some(source),
            None => if spans.last().is_deletion == is_deletion {
                spans.last().source
            } else {
                None
            },
        }
    }
}

/// The source that an insertion has beside a deletion from `deletion`.
pub open spec fn counterpart(deletion: Option<LineSource>) -> Option<LineSource> {
    match deletion {
        Some(LineSource::DeletedBase) => Some(LineSource::Committed),
        Some(LineSource::DeletedCommitted) => Some(LineSource::Staged),
        Some(LineSource::DeletedStaged) => Some(LineSource::Unstaged),
        _ => None,
    }
}

/// The source of the text that is inserted in place of some spans.
pub open spec fn insertion_of(spans: Seq<InlineSpanView>) -> Option<LineSource> {
    match first_source(spans, false) {
        Some(source) => Some(source),
        None => counterpart(first_source(spans, true)),
    }
}

/// Some spans as one deletion, where they delete anything, and one insertion.
pub open spec fn merged(spans: Seq<InlineSpanView>) -> Seq<InlineSpanView> {
    let deleted = old_text(spans);
    let inserted = new_text(spans);
    let front = if deleted.len() > 0 && deleted != inserted {
        seq![
            InlineSpanView {
                text: deleted,
                source: first_source(spans, true),
                is_deletion: true,
            },
        ]
    } else {
        Seq::empty()
    };
    if inserted.len() > 0 {
        front.push(
            InlineSpanView {
                text: inserted,
                source: insertion_of(spans),
                is_deletion: false,
            },
        )
    } else {
        front
    }
}

/// The spans that scattered changes are merged from: those between the kept prefix and suffix.
pub open spec fn scattered(spans: Seq<InlineSpanView>) -> Seq<InlineSpanView> {
    spans.subrange(prefix_end(spans, 0), suffix_start(spans))
}

/// The spans, with scattered changes merged.
pub open spec fn coalesced(spans: Seq<InlineSpanView>) -> Seq<InlineSpanView> {
    if fragmented(spans) {
        spans.take(prefix_end(spans, 0)) + merged(scattered(spans)) + spans.skip(
            suffix_start(spans),
        )
    } else {
        spans
    }
}

/// What the changes within a line do to it.
pub fn classify_inline_change(spans: &[InlineSpan]) -> (r: InlineChangeType)
    ensures
        r == change_type(spans.deep_view()),
{
    let ghost all = spans.deep_view();
    let mut has_deletions = false;
    let mut has_insertions = false;
    let mut i: usize = 0;
    while i < spans.len()
        invariant
            i <= spans@.len(),
            all == spans.deep_view(),
            has_deletions ==> some_deletion(all),
            has_insertions ==> some_insertion(all),
            !has_deletions ==> forall|k: int| 0 <= k < i ==> !(#[trigger] all[k]).is_deletion,
            !has_insertions ==> forall|k: int| 0 <= k < i ==> !(#[trigger] all[k]).inserted(),
        decreases spans.len() - i,
    {
        assert(all[i as int] == spans@[i as int].deep_view());
        if spans[i].is_deletion {
            has_deletions = true;
        } else if spans[i].source.is_some() {
            has_insertions = true;
        }
        i = i + 1;
    }
    match (has_deletions, has_insertions) {
        (true, true) => InlineChangeType::Mixed,
        (true, false) => InlineChangeType::PureDeletion,
        (false, true) => InlineChangeType::PureAddition,
        (false, false) => InlineChangeType::NoChange,
    }
}

/// Whether the changes are scattered.
pub fn is_fragmented(spans: &[InlineSpan]) -> (r: bool)
    ensures
        r == fragmented(spans.deep_view()),
{
    if spans.len() < 4 {
        return false;
    }
    let ghost all = spans.deep_view();
    let mut regions: usize = 0;
    let mut in_region = false;
    let mut i: usize = 0;
    while i < spans.len()
        invariant
            i <= spans@.len(),
            all == spans.deep_view(),
            regions <= i,
            regions == change_regions(all.take(i as int)),
            in_region == (i > 0 && all[i - 1].changed()),
        decreases spans.len() - i,
    {
        proof {
            assert(all.take(i + 1).drop_last() =~= all.take(i as int));
            assert(all[i as int] == spans@[i as int].deep_view());
        }
        let changed = spans[i].source.is_some();
        if changed && !in_region {
            regions = regions + 1;
        }
        in_region = changed;
        i = i + 1;
    }
    assert(all.take(all.len() as int) =~= all);
    regions >= 2
}

fn structures(c: char) -> (r: bool)
    ensures
        r == is_structural(c),
{
    matches!(
        c,
        '(' | ')' | '{' | '}' | '[' | ']' | '<' | '>' | ':' | ';' | ',' | '"' | '\'' | '`' | '.'
    )
}

/// Whether unchanged text is kept apart from the changes behind it.
pub fn should_preserve_as_prefix(s: &str) -> (r: bool)
    ensures
        r == preserved(s@),
{
    let cs = crate::text::chars_of(s);
    if cs.len() >= 5 {
        return true;
    }
    let mut i: usize = 0;
    while i < cs.len()
        invariant
            i <= cs@.len(),
            cs@ == s@,
            forall|k: int| 0 <= k < i ==> is_space(#[trigger] s@[k]) || is_structural(s@[k]),
            s@.len() < 5,
        decreases cs.len() - i,
    {
        if !is_whitespace(cs[i]) && !structures(cs[i]) {
            assert(!is_space(s@[i as int]) && !is_structural(s@[i as int]));
            return false;
        }
        i = i + 1;
    }
    true
}

/// Whether unchanged text is kept apart from the changes in front of it.
pub fn should_preserve_as_suffix(s: &str) -> (r: bool)
    ensures
        r == preserved(s@),
{
    should_preserve_as_prefix(s)
}

pub proof fn lemma_prefix_end(spans: Seq<InlineSpanView>, i: int)
    requires
        0 <= i <= spans.len(),
    ensures
        i <= prefix_end(spans, i) <= spans.len(),
        forall|k: int| i <= k < prefix_end(spans, i) ==> !(#[trigger] spans[k]).changed(),
    decreases spans.len() - i,
{
    if i < spans.len() && !spans[i].changed() && preserved(spans[i].text) {
        lemma_prefix_end(spans, i + 1);
    }
}

pub proof fn lemma_kept_back_to(spans: Seq<InlineSpanView>, i: int)
    requires
        0 <= i <= spans.len(),
    ensures
        0 <= kept_back_to(spans, i) <= i,
        forall|k: int| kept_back_to(spans, i) <= k < i ==> !(#[trigger] spans[k]).changed(),
    decreases i,
{
    if 0 < i && !spans[i - 1].changed() && preserved(spans[i - 1].text) {
        lemma_kept_back_to(spans, i - 1);
    }
}

pub proof fn lemma_some_change(spans: Seq<InlineSpanView>)
    requires
        change_regions(spans) > 0,
    ensures
        exists|k: int| 0 <= k < spans.len() && (#[trigger] spans[k]).changed(),
    decreases spans.len(),
{
    if spans.len() > 0 {
        if spans.last().changed() {
            assert(spans[spans.len() - 1].changed());
        } else {
            lemma_some_change(spans.drop_last());
            let k = choose|k: int|
                0 <= k < spans.drop_last().len() && (#[trigger] spans.drop_last()[k]).changed();
            assert(spans[k].changed());
        }
    }
}

/// The kept prefix ends before the kept suffix begins.
pub proof fn lemma_bounds(spans: Seq<InlineSpanView>)
    requires
        fragmented(spans),
    ensures
        0 <= prefix_end(spans, 0) < suffix_start(spans) <= spans.len(),
{
    lemma_some_change(spans);
    let k = choose|k: int| 0 <= k < spans.len() && (#[trigger] spans[k]).changed();
    lemma_prefix_end(spans, 0);
    lemma_kept_back_to(spans, spans.len() - 1);
    assert(prefix_end(spans, 0) <= k);
    if !spans.last().changed() {
        assert(k < spans.len() - 1);
        assert(k < kept_back_to(spans, spans.len() - 1));
    }
}

/// Merges spans into one deletion and one insertion, and puts them behind the others.
fn push_merged(result: &mut Vec<InlineSpan>, part: &[InlineSpan])
    ensures
        final(result).deep_view() == old(result).deep_view() + merged(part.deep_view()),
{
    let ghost all = part.deep_view();
    let mut deleted = String::new();
    let mut inserted = String::new();
    let mut deletion_source: Option<LineSource> = None;
    let mut insertion_source: Option<LineSource> = None;
    let mut i: usize = 0;
    while i < part.len()
        invariant
            i <= part@.len(),
            all == part.deep_view(),
            deleted@ == old_text(all.take(i as int)),
            inserted@ == new_text(all.take(i as int)),
            deletion_source == first_source(all.take(i as int), true),
            insertion_source == first_source(all.take(i as int), false),
        decreases part.len() - i,
    {
        let span = &part[i];
        proof {
            assert(all.take(i + 1).drop_last() =~= all.take(i as int));
            assert(all[i as int] == span.deep_view());
        }
        if span.is_deletion {
            deleted.append(span.text.as_str());
            if deletion_source.is_none() {
                deletion_source = span.source;
            }
        } else if span.source.is_some() {
            inserted.append(span.text.as_str());
            if insertion_source.is_none() {
                insertion_source = span.source;
            }
        } else {
            deleted.append(span.text.as_str());
            inserted.append(span.text.as_str());
        }
        i = i + 1;
    }
    assert(all.take(all.len() as int) =~= all);
    let ghost before = result.deep_view();
    let ghost text = (deleted@, inserted@);
    let differ = !same_text(deleted.as_str(), inserted.as_str());
    if deleted.unicode_len() > 0 && differ {
        let span = InlineSpan { text: deleted, source: deletion_source, is_deletion: true };
        result.push(span);
        assert(result.deep_view() =~= before.push(span.deep_view()));
    }
    let ghost middle = result.deep_view();
    if inserted.unicode_len() > 0 {
        let source = match insertion_source {
            Some(source) => Some(source),
            None => match deletion_source {
                Some(LineSource::DeletedBase) => Some(LineSource::Committed),
                Some(LineSource::DeletedCommitted) => Some(LineSource::Staged),
                Some(LineSource::DeletedStaged) => Some(LineSource::Unstaged),
                _ => None,
            },
        };
        let span = InlineSpan { text: inserted, source, is_deletion: false };
        result.push(span);
        assert(result.deep_view() =~= middle.push(span.deep_view()));
    }
    assert(result.deep_view() =~= before + merged(all));
}

/// The spans, with scattered changes merged: the unchanged text in front of the changes and
/// behind them is kept as far as it is substantial, and what is left in between becomes one
/// deletion and one insertion.
pub fn coalesce_spans(spans: &[InlineSpan]) -> (r: Vec<InlineSpan>)
    ensures
        r.deep_view() == coalesced(spans.deep_view()),
{
    let ghost all = spans.deep_view();
    if !is_fragmented(spans) {
        let r = copy_spans(spans);
        assert(r.deep_view() =~= all);
        return r;
    }
    proof {
        lemma_bounds(all);
        lemma_prefix_end(all, 0);
    }
    let front = kept_in_front(spans);
    let mut back: usize = spans.len();
    if spans[back - 1].source.is_none() {
        back = kept_behind(spans, back - 1);
    }
    assert(spans@[all.len() - 1].deep_view() == all.last());
    merge_between(spans, front, back)
}

/// How many unchanged spans are kept in front of the changes.
pub(crate) fn kept_in_front(spans: &[InlineSpan]) -> (r: usize)
    ensures
        r == prefix_end(spans.deep_view(), 0),
{
    let ghost all = spans.deep_view();
    let mut front: usize = 0;
    while front < spans.len() && spans[front].source.is_none() && should_preserve_as_prefix(
        spans[front].text.as_str(),
    )
        invariant
            front <= spans@.len(),
            all == spans.deep_view(),
            prefix_end(all, 0) == prefix_end(all, front as int),
            forall|k: int| 0 <= k < spans@.len() ==> #[trigger] all[k] == spans@[k].deep_view(),
        ensures
            front == prefix_end(all, 0),
        decreases spans.len() - front,
    {
        front = front + 1;
    }
    front
}

/// Where the unchanged spans that are kept in front of `end` begin.
pub(crate) fn kept_behind(spans: &[InlineSpan], end: usize) -> (r: usize)
    requires
        end <= spans@.len(),
    ensures
        r == kept_back_to(spans.deep_view(), end as int),
{
    let ghost all = spans.deep_view();
    let mut back: usize = end;
    while back > 0 && spans[back - 1].source.is_none() && should_preserve_as_suffix(
        spans[back - 1].text.as_str(),
    )
        invariant
            back <= end <= spans@.len(),
            all == spans.deep_view(),
            kept_back_to(all, end as int) == kept_back_to(all, back as int),
            forall|k: int| 0 <= k < spans@.len() ==> #[trigger] all[k] == spans@[k].deep_view(),
        ensures
            back == kept_back_to(all, end as int),
        decreases back,
    {
        back = back - 1;
    }
    back
}

/// The spans, with those from `front` up to `back` merged.
pub(crate) fn merge_between(spans: &[InlineSpan], front: usize, back: usize) -> (r: Vec<InlineSpan>)
    requires
        front <= back <= spans@.len(),
    ensures
        r.deep_view() == spans.deep_view().take(front as int) + merged(
            spans.deep_view().subrange(front as int, back as int),
        ) + spans.deep_view().skip(back as int),
{
    let ghost all = spans.deep_view();
    let head = vstd::slice::slice_subrange(spans, 0, front);
    let mut result = copy_spans(head);
    assert(result.deep_view() =~= all.take(front as int));
    let part = vstd::slice::slice_subrange(spans, front, back);
    assert(part.deep_view() =~= all.subrange(front as int, back as int));
    push_merged(&mut result, part);
    let tail = vstd::slice::slice_subrange(spans, back, spans.len());
    let mut rest = copy_spans(tail);
    let ghost middle = result.deep_view();
    assert(rest.deep_view() =~= all.skip(back as int));
    result.append(&mut rest);
    assert(result.deep_view() =~= middle + all.skip(back as int));
    result
}

/// The source of the deletions in a line, where one has a source; else that of a deletion that is
/// committed.
pub fn get_deletion_source(spans: &[InlineSpan]) -> (r: LineSource)
    ensures
        r == deletion_source(spans.deep_view()),
{
    match source_in(spans, true) {
        Some(source) => source,
        None => LineSource::DeletedBase,
    }
}

/// The source of the insertions in a line, where one has a source; else that of an addition that
/// is committed.
pub fn get_insertion_source(spans: &[InlineSpan]) -> (r: LineSource)
    ensures
        r == insertion_source(spans.deep_view()),
{
    match source_in(spans, false) {
        Some(source) => source,
        None => LineSource::Committed,
    }
}

pub open spec fn deletion_source(spans: Seq<InlineSpanView>) -> LineSource {
    match first_source(spans, true) {
        Some(source) => source,
        None => LineSource::DeletedBase,
    }
}

pub open spec fn insertion_source(spans: Seq<InlineSpanView>) -> LineSource {
    match first_source(spans, false) {
        Some(source) => source,
        None => LineSource::Committed,
    }
}

fn source_in(spans: &[InlineSpan], is_deletion: bool) -> (r: Option<LineSource>)
    ensures
        r == first_source(spans.deep_view(), is_deletion),
{
    let ghost all = spans.deep_view();
    let mut found: Option<LineSource> = None;
    let mut i: usize = 0;
    while i < spans.len()
        invariant
            i <= spans@.len(),
            all == spans.deep_view(),
            found == first_source(all.take(i as int), is_deletion),
        decreases spans.len() - i,
    {
        proof {
            assert(all.take(i + 1).drop_last() =~= all.take(i as int));
            assert(all[i as int] == spans@[i as int].deep_view());
        }
        if found.is_none() && spans[i].is_deletion == is_deletion {
            found = spans[i].source;
        }
        i = i + 1;
    }
    assert(all.take(all.len() as int) =~= all);
    found
}

/// The columns that some spans take, one after the other.
pub open spec fn inline_width(spans: Seq<InlineSpanView>) -> nat
    decreases spans.len(),
{
    if spans.len() == 0 {
        0
    } else {
        inline_width(spans.drop_last()) + display_width(spans.last().text)
    }
}

/// The columns that a modified line takes, with its old and its new text.
pub fn inline_display_width(spans: &[InlineSpan]) -> (r: usize)
    ensures
        r == clip(inline_width(coalesced(spans.deep_view()))),
{
    let merged = coalesce_spans(spans);
    let ghost all = merged.deep_view();
    let mut total: usize = 0;
    let mut i: usize = 0;
    while i < merged.len()
        invariant
            i <= merged@.len(),
            all == merged.deep_view(),
            total == clip(inline_width(all.take(i as int))),
        decreases merged.len() - i,
    {
        proof {
            assert(all.take(i + 1).drop_last() =~= all.take(i as int));
            assert(all[i as int] == merged@[i as int].deep_view());
        }
        total = total.saturating_add(content_display_width(merged[i].text.as_str()));
        i = i + 1;
    }
    assert(all.take(all.len() as int) =~= all);
    total
}

/// The colour of each character of some segments.
pub open spec fn char_colors(segments: Seq<SyntaxSegmentView>) -> Seq<Color>
    decreases segments.len(),
{
    if segments.len() == 0 {
        Seq::empty()
    } else {
        char_colors(segments.drop_last()) + Seq::new(
            segments.last().text.len(),
            |i: int| segments.last().fg_color,
        )
    }
}

/// How the characters of a line are coloured: by its syntax, or in `fallback` where that is not
/// known, on the line's own background or, where they changed, on a highlighted one.
pub struct Paint {
    pub colors: Seq<Color>,
    pub fallback: Color,
    pub base: Style,
    pub highlight: Style,
}

impl Paint {
    /// The foreground of character `i`, readable on a highlighted background.
    pub open spec fn color(self, i: int, highlighted: bool) -> Color {
        let fg = if 0 <= i < self.colors.len() {
            self.colors[i]
        } else {
            self.fallback
        };
        if highlighted {
            contrasted(
                fg,
                match self.highlight.bg {
                    Some(bg) => bg,
                    None => Color::Reset,
                },
            )
        } else {
            fg
        }
    }

    /// The style of character `i`.
    pub open spec fn style(self, i: int, highlighted: bool) -> Style {
        (if highlighted {
            self.highlight
        } else {
            self.base
        }).with_fg(self.color(i, highlighted))
    }

    /// A text that begins at character `at`, as one span for each run of characters in one style.
    pub open spec fn text(self, s: Seq<char>, at: int, highlighted: bool) -> Seq<SpanView>
        decreases s.len(),
    {
        if s.len() == 0 {
            Seq::empty()
        } else {
            let before = self.text(s.drop_last(), at, highlighted);
            let style = self.style(at + s.len() - 1, highlighted);
            if before.len() > 0 && before.last().style == style {
                before.drop_last().push(styled(before.last().content.push(s.last()), style))
            } else {
                before.push(styled(seq![s.last()], style))
            }
        }
    }

    /// One side of a modified line: the deleted or the inserted text, highlighted, with the
    /// unchanged text.
    pub open spec fn side(self, spans: Seq<InlineSpanView>, deletions: bool) -> Seq<SpanView>
        decreases spans.len(),
    {
        if spans.len() == 0 {
            Seq::empty()
        } else {
            let before = self.side(spans.drop_last(), deletions);
            let span = spans.last();
            if on_side(span, deletions) {
                before + self.text(
                    span.text,
                    side_len(spans.drop_last(), deletions) as int,
                    if deletions {
                        span.is_deletion
                    } else {
                        span.changed()
                    },
                )
            } else {
                before
            }
        }
    }

    /// A modified line with its deleted text, in the style `deleted`, among its new text.
    pub open spec fn both(self, spans: Seq<InlineSpanView>, deleted: Style) -> Seq<SpanView>
        decreases spans.len(),
    {
        if spans.len() == 0 {
            Seq::empty()
        } else {
            let before = self.both(spans.drop_last(), deleted);
            let span = spans.last();
            if span.is_deletion {
                before.push(styled(span.text, deleted))
            } else {
                before + self.text(
                    span.text,
                    side_len(spans.drop_last(), false) as int,
                    span.changed(),
                )
            }
        }
    }
}

/// Whether a span is part of the old text of a line, or of its new text.
pub open spec fn on_side(span: InlineSpanView, deletions: bool) -> bool {
    if deletions {
        !span.inserted()
    } else {
        !span.is_deletion
    }
}

/// The length of the old text of a line, or of its new text.
pub open spec fn side_len(spans: Seq<InlineSpanView>, deletions: bool) -> nat {
    if deletions {
        old_text(spans).len()
    } else {
        new_text(spans).len()
    }
}

/// The colour of each character of some segments.
fn colors_of(segments: &[SyntaxSegment]) -> (r: Vec<Color>)
    ensures
        r@ == char_colors(segments.deep_view()),
{
    let ghost all = segments.deep_view();
    let mut out: Vec<Color> = Vec::new();
    let mut i: usize = 0;
    while i < segments.len()
        invariant
            i <= segments@.len(),
            all == segments.deep_view(),
            out@ == char_colors(all.take(i as int)),
        decreases segments.len() - i,
    {
        proof {
            assert(all.take(i + 1).drop_last() =~= all.take(i as int));
            assert(all[i as int] == segments@[i as int].deep_view());
        }
        let len = segments[i].text.as_str().unicode_len();
        let color = segments[i].fg_color;
        let ghost before = out@;
        let mut k: usize = 0;
        while k < len
            invariant
                k <= len,
                out@ =~= before + Seq::new(k as nat, |i: int| color),
            decreases len - k,
        {
            out.push(color);
            k = k + 1;
        }
        i = i + 1;
    }
    assert(all.take(all.len() as int) =~= all);
    out
}

/// What a line is coloured with.
struct Painter {
    colors: Vec<Color>,
    fallback: Color,
    base: Style,
    highlight: Style,
}

impl Painter {
    spec fn paint(self) -> Paint {
        Paint {
            colors: self.colors@,
            fallback: self.fallback,
            base: self.base,
            highlight: self.highlight,
        }
    }

    /// Puts the spans of a text that begins at character `pos` behind the others.
    fn push_text(
        &self,
        out: &mut Vec<Span>,
        text: &str,
        at: usize,
        highlighted: bool,
        Ghost(pos): Ghost<nat>,
    )
        requires
            at == clip(pos),
        ensures
            final(out).deep_view() == old(out).deep_view() + self.paint().text(
                text@,
                pos as int,
                highlighted,
            ),
    {
        let cs = chars_of(text);
        let ghost given = out.deep_view();
        let mut runs: Vec<Span> = Vec::new();
        let mut i: usize = 0;
        assert(runs.deep_view() =~= self.paint().text(text@.take(0), pos as int, highlighted));
        while i < cs.len()
            invariant
                i <= cs@.len(),
                cs@ == text@,
                at == clip(pos),
                runs.deep_view() == self.paint().text(text@.take(i as int), pos as int, highlighted),
            decreases cs.len() - i,
        {
            let known: Color = if i < self.colors.len() && at < self.colors.len() - i {
                self.colors[at + i]
            } else {
                self.fallback
            };
            let fg = if highlighted {
                let bg = match self.highlight.bg {
                    Some(bg) => bg,
                    None => Color::Reset,
                };
                ensure_contrast(known, bg)
            } else {
                known
            };
            let style = if highlighted {
                self.highlight.fg(fg)
            } else {
                self.base.fg(fg)
            };
            let ghost before = runs.deep_view();
            proof {
                assert(text@.take(i + 1).drop_last() =~= text@.take(i as int));
                assert(style == self.paint().style(pos + i, highlighted));
                assert(before.len() == runs@.len());
            }
            let joins = runs.len() > 0 && runs[runs.len() - 1].style == style;
            assert(runs@.len() > 0 ==> before.last() == runs@.last().deep_view());
            if joins {
                let mut last = runs.pop().unwrap();
                assert(runs.deep_view() =~= before.drop_last());
                last.content.push(cs[i]);
                runs.push(last);
                assert(runs.deep_view() =~= before.drop_last().push(last.deep_view()));
            } else {
                let mut content = String::new();
                content.push(cs[i]);
                assert(content@ =~= seq![cs@[i as int]]);
                let span = Span::styled(content, style);
                runs.push(span);
                assert(runs.deep_view() =~= before.push(span.deep_view()));
            }
            i = i + 1;
        }
        assert(text@.take(text@.len() as int) =~= text@);
        let ghost (a, b) = (out@, runs@);
        let ghost painted = runs.deep_view();
        out.append(&mut runs);
        assert(out.deep_view() =~= given + painted);
    }

    /// One side of a modified line.
    fn side(&self, spans: &[InlineSpan], deletions: bool) -> (r: Vec<Span>)
        ensures
            r.deep_view() == self.paint().side(spans.deep_view(), deletions),
    {
        let ghost all = spans.deep_view();
        let mut out: Vec<Span> = Vec::new();
        let mut at: usize = 0;
        let mut i: usize = 0;
        assert(out.deep_view() =~= self.paint().side(all.take(0), deletions));
        while i < spans.len()
            invariant
                i <= spans@.len(),
                all == spans.deep_view(),
                at == clip(side_len(all.take(i as int), deletions)),
                out.deep_view() == self.paint().side(all.take(i as int), deletions),
            decreases spans.len() - i,
        {
            let span = &spans[i];
            proof {
                assert(all.take(i + 1).drop_last() =~= all.take(i as int));
                assert(all[i as int] == span.deep_view());
            }
            let skip = if deletions {
                !span.is_deletion && span.source.is_some()
            } else {
                span.is_deletion
            };
            if !skip {
                let highlighted = if deletions {
                    span.is_deletion
                } else {
                    span.source.is_some()
                };
                let ghost pos = side_len(all.take(i as int), deletions);
                self.push_text(&mut out, span.text.as_str(), at, highlighted, Ghost(pos));
                at = at.saturating_add(span.text.as_str().unicode_len());
            }
            i = i + 1;
        }
        assert(all.take(all.len() as int) =~= all);
        out
    }

    /// A modified line with its deleted text among its new text.
    fn both(&self, spans: &[InlineSpan], deleted: Style) -> (r: Vec<Span>)
        ensures
            r.deep_view() == self.paint().both(spans.deep_view(), deleted),
    {
        let ghost all = spans.deep_view();
        let mut out: Vec<Span> = Vec::new();
        let mut at: usize = 0;
        let mut i: usize = 0;
        assert(out.deep_view() =~= self.paint().both(all.take(0), deleted));
        while i < spans.len()
            invariant
                i <= spans@.len(),
                all == spans.deep_view(),
                at == clip(side_len(all.take(i as int), false)),
                out.deep_view() == self.paint().both(all.take(i as int), deleted),
            decreases spans.len() - i,
        {
            let span = &spans[i];
            proof {
                assert(all.take(i + 1).drop_last() =~= all.take(i as int));
                assert(all[i as int] == span.deep_view());
            }
            let ghost before = out.deep_view();
            if span.is_deletion {
                let piece = Span::styled(span.text.clone(), deleted);
                out.push(piece);
                assert(out.deep_view() =~= before.push(piece.deep_view()));
            } else {
                let ghost pos = side_len(all.take(i as int), false);
                let highlighted = span.source.is_some();
                self.push_text(&mut out, span.text.as_str(), at, highlighted, Ghost(pos));
                at = at.saturating_add(span.text.as_str().unicode_len());
            }
            i = i + 1;
        }
        assert(all.take(all.len() as int) =~= all);
        out
    }
}

/// How one side of a modified line is coloured, its text having the given segments.
pub open spec fn side_paint(source: LineSource, segments: Seq<SyntaxSegmentView>) -> Paint {
    Paint {
        colors: char_colors(segments),
        fallback: default_fg(),
        base: style_of_line(source),
        highlight: style_of_highlight(source),
    }
}

/// How a modified line is coloured in given styles, its text having the given segments.
pub open spec fn inline_paint(
    segments: Seq<SyntaxSegmentView>,
    base: Style,
    highlight: Style,
) -> Paint {
    Paint {
        colors: char_colors(segments),
        fallback: match base.fg {
            Some(fg) => fg,
            None => default_fg(),
        },
        base,
        highlight,
    }
}

/// A line without changes of its own: its segments on the background of the line.
pub open spec fn content_paint(segments: Seq<SyntaxSegmentView>, base: Style) -> Seq<SpanView> {
    Seq::new(
        segments.len(),
        |i: int| styled(segments[i].text, base.with_fg(segments[i].fg_color)),
    )
}

/// The old or the new side of a modified line, its text having the given segments. The unchanged
/// text is drawn as the line is, the deleted or inserted text is highlighted.
pub fn paint_side(
    inline_spans: &[InlineSpan],
    source: LineSource,
    segments: &[SyntaxSegment],
    deletions: bool,
) -> (r: Vec<Span>)
    ensures
        r.deep_view() == side_paint(source, segments.deep_view()).side(
            coalesced(inline_spans.deep_view()),
            deletions,
        ),
{
    let painter = Painter {
        colors: colors_of(segments),
        fallback: default_fg(),
        base: line_style(source),
        highlight: line_style_with_highlight(source),
    };
    let merged = coalesce_spans(inline_spans);
    let part = merged.as_slice();
    assert(part.deep_view() =~= merged.deep_view());
    painter.side(part, deletions)
}

fn inline_painter(segments: &[SyntaxSegment], base: Style, highlight: Style) -> (r: Painter)
    ensures
        r.paint() == inline_paint(segments.deep_view(), base, highlight),
{
    Painter {
        colors: colors_of(segments),
        fallback: match base.fg {
            Some(fg) => fg,
            None => default_fg(),
        },
        base,
        highlight,
    }
}

/// The new text of a modified line in given styles, having the given segments.
pub fn paint_inline(
    inline_spans: &[InlineSpan],
    segments: &[SyntaxSegment],
    base_style: Style,
    highlight_style: Style,
) -> (r: Vec<Span>)
    ensures
        r.deep_view() == inline_paint(segments.deep_view(), base_style, highlight_style).side(
            coalesced(inline_spans.deep_view()),
            false,
        ),
{
    let painter = inline_painter(segments, base_style, highlight_style);
    let merged = coalesce_spans(inline_spans);
    let part = merged.as_slice();
    assert(part.deep_view() =~= merged.deep_view());
    painter.side(part, false)
}

/// A modified line in given styles, its new text having the given segments and its deleted text
/// standing among it in the style `deleted_style`.
pub fn paint_interleaved(
    inline_spans: &[InlineSpan],
    segments: &[SyntaxSegment],
    base_style: Style,
    highlight_style: Style,
    deleted_style: Style,
) -> (r: Vec<Span>)
    ensures
        r.deep_view() == inline_paint(segments.deep_view(), base_style, highlight_style).both(
            coalesced(inline_spans.deep_view()),
            deleted_style,
        ),
{
    let painter = inline_painter(segments, base_style, highlight_style);
    let merged = coalesce_spans(inline_spans);
    let part = merged.as_slice();
    assert(part.deep_view() =~= merged.deep_view());
    painter.both(part, deleted_style)
}

/// The segments of a line on its background.
pub fn paint_content(segments: &[SyntaxSegment], base_style: Style) -> (r: Vec<Span>)
    ensures
        r.deep_view() == content_paint(segments.deep_view(), base_style),
{
    let mut out: Vec<Span> = Vec::new();
    let mut i: usize = 0;
    while i < segments.len()
        invariant
            i <= segments@.len(),
            out@.len() == i,
            forall|k: int|
                0 <= k < i ==> (#[trigger] out@[k]).deep_view() == styled(
                    segments@[k].text@,
                    base_style.with_fg(segments@[k].fg_color),
                ),
        decreases segments.len() - i,
    {
        out.push(Span::styled(segments[i].text.clone(), base_style.fg(segments[i].fg_color)));
        i = i + 1;
    }
    assert(out.deep_view() =~= content_paint(segments.deep_view(), base_style));
    out
}

/// The old side of a modified line, with the syntax of its old text.
pub fn build_deletion_spans_with_highlight(
    inline_spans: &[InlineSpan],
    del_source: LineSource,
    old_content: &str,
    file_path: Option<&str>,
    highlighter: &mut SyntaxHighlighter,
) -> (r: Vec<Span>)
    ensures
        r.deep_view() == side_paint(
            del_source,
            old(highlighter)@.shows(old_content@, file_path.deep_view()),
        ).side(coalesced(inline_spans.deep_view()), true),
        final(highlighter)@ == old(highlighter)@.past(old_content@, file_path.deep_view()),
{
    let segments = highlighter.highlight_line(old_content, file_path);
    let part = segments.as_slice();
    assert(part.deep_view() =~= segments.deep_view());
    paint_side(inline_spans, del_source, part, true)
}

/// The new side of a modified line, with the syntax of its new text.
pub fn build_insertion_spans_with_highlight(
    inline_spans: &[InlineSpan],
    ins_source: LineSource,
    new_content: &str,
    file_path: Option<&str>,
    highlighter: &mut SyntaxHighlighter,
) -> (r: Vec<Span>)
    ensures
        r.deep_view() == side_paint(
            ins_source,
            old(highlighter)@.shows(new_content@, file_path.deep_view()),
        ).side(coalesced(inline_spans.deep_view()), false),
        final(highlighter)@ == old(highlighter)@.past(new_content@, file_path.deep_view()),
{
    let segments = highlighter.highlight_line(new_content, file_path);
    let part = segments.as_slice();
    assert(part.deep_view() =~= segments.deep_view());
    paint_side(inline_spans, ins_source, part, false)
}

/// A line with its syntax, on the background of `base_style`.
pub fn syntax_highlight_content(
    content: &str,
    file_path: Option<&str>,
    base_style: Style,
    highlighter: &mut SyntaxHighlighter,
) -> (r: Vec<Span>)
    ensures
        r.deep_view() == content_paint(
            old(highlighter)@.shows(content@, file_path.deep_view()),
            base_style,
        ),
        final(highlighter)@ == old(highlighter)@.past(content@, file_path.deep_view()),
{
    let segments = highlighter.highlight_line(content, file_path);
    let part = segments.as_slice();
    assert(part.deep_view() =~= segments.deep_view());
    paint_content(part, base_style)
}

/// The new text of a modified line with its syntax, on the background of `base_style` where it is
/// unchanged and of `highlight_style` where it is inserted. Deleted text is left out.
pub fn syntax_highlight_inline_spans(
    inline_spans: &[InlineSpan],
    content: &str,
    file_path: Option<&str>,
    base_style: Style,
    highlight_style: Style,
    highlighter: &mut SyntaxHighlighter,
) -> (r: Vec<Span>)
    ensures
        r.deep_view() == inline_paint(
            old(highlighter)@.shows(content@, file_path.deep_view()),
            base_style,
            highlight_style,
        ).side(coalesced(inline_spans.deep_view()), false),
        final(highlighter)@ == old(highlighter)@.past(content@, file_path.deep_view()),
{
    let segments = highlighter.highlight_line(content, file_path);
    let part = segments.as_slice();
    assert(part.deep_view() =~= segments.deep_view());
    paint_inline(inline_spans, part, base_style, highlight_style)
}

proof fn lemma_regions_concat(a: Seq<InlineSpanView>, b: Seq<InlineSpanView>)
    ensures
        change_regions(a + b) <= change_regions(a) + change_regions(b),
    decreases b.len(),
{
    if b.len() == 0 {
        assert(a + b =~= a);
    } else {
        lemma_regions_concat(a, b.drop_last());
        assert((a + b).drop_last() =~= a + b.drop_last());
        if b.len() > 1 {
            assert((a + b.drop_last()).last() == b.drop_last().last());
        }
    }
}

proof fn lemma_no_regions(spans: Seq<InlineSpanView>)
    requires
        forall|i: int| 0 <= i < spans.len() ==> !(#[trigger] spans[i]).changed(),
    ensures
        change_regions(spans) == 0,
    decreases spans.len(),
{
    if spans.len() > 0 {
        lemma_no_regions(spans.drop_last());
    }
}

/// What is coalesced is not scattered any more: coalescing it again changes nothing.
pub proof fn law_coalesced_spans_are_not_fragmented(spans: Seq<InlineSpanView>)
    ensures
        !fragmented(coalesced(spans)),
        coalesced(coalesced(spans)) == coalesced(spans),
{
    if fragmented(spans) {
        let front = spans.take(prefix_end(spans, 0));
        let middle = merged(scattered(spans));
        let back = spans.skip(suffix_start(spans));
        lemma_prefix_end(spans, 0);
        if !spans.last().changed() {
            lemma_kept_back_to(spans, spans.len() - 1);
        }
        lemma_no_regions(front);
        assert forall|i: int| 0 <= i < back.len() implies !(#[trigger] back[i]).changed() by {
            assert(back[i] == spans[suffix_start(spans) + i]);
        }
        lemma_no_regions(back);
        reveal_with_fuel(change_regions, 3);
        assert(middle.len() <= 2);
        assert(change_regions(middle) <= 1);
        lemma_regions_concat(front, middle);
        lemma_regions_concat(front + middle, back);
    }
}

proof fn lemma_text_concat(a: Seq<InlineSpanView>, b: Seq<InlineSpanView>)
    ensures
        new_text(a + b) == new_text(a) + new_text(b),
        old_text(a + b) == old_text(a) + old_text(b),
    decreases b.len(),
{
    if b.len() == 0 {
        assert(a + b =~= a);
        assert(new_text(a) + new_text(b) =~= new_text(a));
        assert(old_text(a) + old_text(b) =~= old_text(a));
    } else {
        lemma_text_concat(a, b.drop_last());
        assert((a + b).drop_last() =~= a + b.drop_last());
        assert(new_text(a + b) =~= new_text(a) + new_text(b));
        assert(old_text(a + b) =~= old_text(a) + old_text(b));
    }
}

proof fn lemma_merged_text(spans: Seq<InlineSpanView>)
    ensures
        new_text(merged(spans)) == new_text(spans),
        new_text(spans).len() == 0 || (old_text(spans) != new_text(spans)) == (insertion_of(
            spans,
        ) is Some) ==> old_text(merged(spans)) == old_text(spans),
{
    reveal_with_fuel(new_text, 3);
    reveal_with_fuel(old_text, 3);
    let m = merged(spans);
    if m.len() == 2 {
        assert(m.drop_last().drop_last() =~= Seq::empty());
    } else if m.len() == 1 {
        assert(m.drop_last() =~= Seq::empty());
    }
    assert(new_text(m) =~= new_text(spans));
    if new_text(spans).len() == 0 || (old_text(spans) != new_text(spans)) == (insertion_of(
        spans,
    ) is Some) {
        assert(old_text(m) =~= old_text(spans));
    }
}

/// Merging part of the spans keeps the new text, and the old one where the merged part has it.
pub proof fn lemma_merged_between(spans: Seq<InlineSpanView>, front: int, back: int)
    requires
        0 <= front <= back <= spans.len(),
    ensures
        ({
            let part = spans.subrange(front, back);
            let all = spans.take(front) + merged(part) + spans.skip(back);
            &&& new_text(all) == new_text(spans)
            &&& new_text(part).len() == 0 || (old_text(part) != new_text(part)) == (insertion_of(part)
                is Some) ==> old_text(all) == old_text(spans)
        }),
{
    let (a, b, c) = (spans.take(front), spans.subrange(front, back), spans.skip(back));
    assert(spans =~= a + b + c);
    lemma_text_concat(a + b, c);
    lemma_text_concat(a, b);
    lemma_merged_text(b);
    lemma_text_concat(a + merged(b), c);
    lemma_text_concat(a, merged(b));
}

/// Merging scattered changes never alters the text that the line has after them.
pub proof fn law_coalescing_keeps_new_text(spans: Seq<InlineSpanView>)
    ensures
        new_text(coalesced(spans)) == new_text(spans),
{
    if fragmented(spans) {
        lemma_bounds(spans);
        lemma_merged_between(spans, prefix_end(spans, 0), suffix_start(spans));
    }
}

/// Merging scattered changes keeps the text that the line had before them, unless the merged
/// stretch reads the same before and after the changes and yet counts as inserted, or differs and
/// has no source to be inserted from.
pub proof fn law_coalescing_keeps_old_text(spans: Seq<InlineSpanView>)
    requires
        fragmented(spans) ==> new_text(scattered(spans)).len() == 0 || (old_text(scattered(spans))
            != new_text(scattered(spans))) == (insertion_of(scattered(spans)) is Some),
    ensures
        old_text(coalesced(spans)) == old_text(spans),
{
    if fragmented(spans) {
        lemma_bounds(spans);
        lemma_merged_between(spans, prefix_end(spans, 0), suffix_start(spans));
    }
}

impl Paint {
    proof fn lemma_text(self, s: Seq<char>, at: int, highlighted: bool)
        ensures
            text_of_spans(self.text(s, at, highlighted)) == s,
        decreases s.len(),
    {
        if s.len() == 0 {
            assert(s =~= Seq::empty());
        } else {
            self.lemma_text(s.drop_last(), at, highlighted);
            let before = self.text(s.drop_last(), at, highlighted);
            let style = self.style(at + s.len() - 1, highlighted);
            if before.len() > 0 && before.last().style == style {
                crate::style::lemma_text_of_push(
                    before.drop_last(),
                    styled(before.last().content.push(s.last()), style),
                );
                let head = text_of_spans(before.drop_last());
                assert(text_of_spans(before) == head + before.last().content);
                assert(head + before.last().content.push(s.last()) =~= s.drop_last().push(
                    s.last(),
                ));
            } else {
                crate::style::lemma_text_of_push(before, styled(seq![s.last()], style));
                assert(s.drop_last() + seq![s.last()] =~= s.drop_last().push(s.last()));
            }
            assert(s.drop_last().push(s.last()) =~= s);
        }
    }

    proof fn lemma_side(self, spans: Seq<InlineSpanView>, deletions: bool)
        ensures
            text_of_spans(self.side(spans, deletions)) == (if deletions {
                old_text(spans)
            } else {
                new_text(spans)
            }),
        decreases spans.len(),
    {
        if spans.len() > 0 {
            self.lemma_side(spans.drop_last(), deletions);
            let span = spans.last();
            if on_side(span, deletions) {
                let highlighted = if deletions {
                    span.is_deletion
                } else {
                    span.changed()
                };
                let at = side_len(spans.drop_last(), deletions) as int;
                self.lemma_text(span.text, at, highlighted);
                crate::style::lemma_text_of_concat(
                    self.side(spans.drop_last(), deletions),
                    self.text(span.text, at, highlighted),
                );
            }
        }
    }
}

/// The new side of a modified line shows exactly its new text, however it is coloured and whether
/// or not scattered changes were merged.
pub proof fn law_insertion_side_shows_new_text(paint: Paint, spans: Seq<InlineSpanView>)
    ensures
        text_of_spans(paint.side(coalesced(spans), false)) == new_text(spans),
{
    paint.lemma_side(coalesced(spans), false);
    law_coalescing_keeps_new_text(spans);
}

/// The old side of a modified line shows exactly the old text of the spans that it is made of.
pub proof fn law_deletion_side_shows_old_text(paint: Paint, spans: Seq<InlineSpanView>)
    ensures
        text_of_spans(paint.side(coalesced(spans), true)) == old_text(coalesced(spans)),
{
    paint.lemma_side(coalesced(spans), true);
}

impl Paint {
    proof fn lemma_both(self, spans: Seq<InlineSpanView>, deleted: Style)
        ensures
            text_of_spans(self.both(spans, deleted)) == crate::ui::search::shown_text(spans),
        decreases spans.len(),
    {
        if spans.len() > 0 {
            let front = spans.drop_last();
            let span = spans.last();
            self.lemma_both(front, deleted);
            if span.is_deletion {
                crate::style::lemma_text_of_push(
                    self.both(front, deleted),
                    styled(span.text, deleted),
                );
            } else {
                let at = side_len(front, false) as int;
                self.lemma_text(span.text, at, span.changed());
                crate::style::lemma_text_of_concat(
                    self.both(front, deleted),
                    self.text(span.text, at, span.changed()),
                );
            }
        }
    }
}

/// A modified line that is drawn as one shows the texts of all of its spans, deleted ones too, in
/// order.
pub proof fn law_one_line_shows_all_spans(
    paint: Paint,
    spans: Seq<InlineSpanView>,
    deleted: Style,
)
    ensures
        text_of_spans(paint.both(spans, deleted)) == crate::ui::search::shown_text(spans),
{
    paint.lemma_both(spans, deleted);
}

proof fn lemma_prefix_reaches(spans: Seq<InlineSpanView>, i: int, n: int)
    requires
        0 <= i <= n <= spans.len(),
        forall|k: int|
            i <= k < n ==> (#[trigger] spans[k]).source is None && spans[k].text.len() >= 5,
    ensures
        prefix_end(spans, i) >= n,
    decreases n - i,
{
    if i < n {
        assert(spans[i].source is None);
        lemma_prefix_reaches(spans, i + 1, n);
    } else {
        lemma_prefix_end(spans, i);
    }
}

proof fn lemma_suffix_reaches(spans: Seq<InlineSpanView>, i: int, n: int)
    requires
        0 <= n <= i <= spans.len(),
        forall|k: int|
            n <= k < i ==> (#[trigger] spans[k]).source is None && spans[k].text.len() >= 5,
    ensures
        kept_back_to(spans, i) <= n,
    decreases i - n,
{
    if n < i {
        assert(spans[i - 1].source is None);
        lemma_suffix_reaches(spans, i - 1, n);
    } else {
        lemma_kept_back_to(spans, i);
    }
}

/// Unchanged text of five characters or more in front of all changes, or behind them, stays as it
/// is, however scattered the changes are; what lies between becomes at most one deletion and one
/// insertion behind it. Changes in one place are left alone altogether.
pub proof fn law_substantial_text_is_not_merged(spans: Seq<InlineSpanView>, front: int, back: int)
    requires
        0 <= front <= back <= spans.len(),
        forall|k: int|
            0 <= k < front ==> (#[trigger] spans[k]).source is None && spans[k].text.len() >= 5,
        forall|k: int|
            back <= k < spans.len() ==> (#[trigger] spans[k]).source is None && spans[k].text.len()
                >= 5,
    ensures
        ({
            let all = coalesced(spans);
            let rest = spans.len() - back;
            &&& all.len() >= front && all.take(front) == spans.take(front)
            &&& fragmented(spans) ==> all.len() >= rest && all.skip(all.len() - rest) == spans.skip(
                back,
            )
            &&& change_regions(spans) <= 1 ==> all == spans
            &&& fragmented(spans) ==> all.len() <= prefix_end(spans, 0) + 2 + (spans.len()
                - suffix_start(spans))
        }),
{
    if fragmented(spans) {
        lemma_bounds(spans);
        lemma_prefix_reaches(spans, 0, front);
        lemma_prefix_end(spans, 0);
        let p = prefix_end(spans, 0);
        let q = suffix_start(spans);
        if back < spans.len() {
            assert(spans[spans.len() - 1].source is None);
            lemma_suffix_reaches(spans, spans.len() - 1, back);
        }
        assert(q <= back);
        let all = coalesced(spans);
        let rest = spans.len() - back;
        assert(all.take(front) =~= spans.take(front));
        assert(all.skip(all.len() - rest) =~= spans.skip(back));
    } else {
        assert(coalesced(spans).take(front) =~= spans.take(front));
    }
}

/// For each character of the old text of a line, or of its new text, whether it changed.
pub open spec fn changed_chars(spans: Seq<InlineSpanView>, deletions: bool) -> Seq<bool>
    decreases spans.len(),
{
    if spans.len() == 0 {
        Seq::empty()
    } else {
        let span = spans.last();
        let before = changed_chars(spans.drop_last(), deletions);
        if deletions {
            if span.is_deletion {
                before + Seq::new(span.text.len(), |i: int| true)
            } else if span.source is None {
                before + Seq::new(span.text.len(), |i: int| false)
            } else {
                before
            }
        } else if span.is_deletion {
            before
        } else {
            before + Seq::new(span.text.len(), |i: int| span.source is Some)
        }
    }
}

impl Paint {
    proof fn lemma_text_styles(self, s: Seq<char>, at: int, highlighted: bool)
        ensures
            styles_of(self.text(s, at, highlighted)) =~= Seq::new(
                s.len(),
                |i: int| self.style(at + i, highlighted),
            ),
        decreases s.len(),
    {
        if s.len() > 0 {
            let front = s.drop_last();
            self.lemma_text_styles(front, at, highlighted);
            let before = self.text(front, at, highlighted);
            let style = self.style(at + s.len() - 1, highlighted);
            let all = self.text(s, at, highlighted);
            if before.len() > 0 && before.last().style == style {
                assert(all.drop_last() =~= before.drop_last());
                assert(styles_of(all) =~= styles_of(before).push(style));
            } else {
                assert(all.drop_last() =~= before);
                assert(styles_of(all) =~= styles_of(before).push(style));
            }
        }
    }

    proof fn lemma_side_styles(self, spans: Seq<InlineSpanView>, deletions: bool)
        ensures
            styles_of(self.side(spans, deletions)).len() == changed_chars(spans, deletions).len(),
            forall|i: int|
                0 <= i < changed_chars(spans, deletions).len() ==> (#[trigger] styles_of(
                    self.side(spans, deletions),
                )[i]).bg == (if changed_chars(spans, deletions)[i] {
                    self.highlight.bg
                } else {
                    self.base.bg
                }),
        decreases spans.len(),
    {
        if spans.len() > 0 {
            let front = spans.drop_last();
            self.lemma_side_styles(front, deletions);
            let span = spans.last();
            if on_side(span, deletions) {
                let at = side_len(front, deletions) as int;
                let highlighted = if deletions {
                    span.is_deletion
                } else {
                    span.changed()
                };
                self.lemma_text_styles(span.text, at, highlighted);
                let added = self.text(span.text, at, highlighted);
                let before = self.side(front, deletions);
                crate::style::lemma_styles_of_concat(before, added);
                let all = styles_of(self.side(spans, deletions));
                let flags = changed_chars(spans, deletions);
                let n = changed_chars(front, deletions).len();
                assert forall|i: int| 0 <= i < flags.len() implies (#[trigger] all[i]).bg == (
                if flags[i] {
                    self.highlight.bg
                } else {
                    self.base.bg
                }) by {
                    if i < n {
                        assert(all[i] == styles_of(before)[i]);
                        assert(flags[i] == changed_chars(front, deletions)[i]);
                    } else {
                        assert(all[i] == styles_of(added)[i - n]);
                    }
                }
            }
        }
    }
}

/// On either side of a modified line, exactly the characters that changed stand on the highlighted
/// background, and the others on that of the line.
pub proof fn law_exactly_the_changes_are_highlighted(
    paint: Paint,
    spans: Seq<InlineSpanView>,
    deletions: bool,
    i: int,
)
    requires
        0 <= i < changed_chars(spans, deletions).len(),
    ensures
        styles_of(paint.side(spans, deletions)).len() == changed_chars(spans, deletions).len(),
        styles_of(paint.side(spans, deletions))[i].bg == (if changed_chars(spans, deletions)[i] {
            paint.highlight.bg
        } else {
            paint.base.bg
        }),
{
    paint.lemma_side_styles(spans, deletions);
}

} // verus!

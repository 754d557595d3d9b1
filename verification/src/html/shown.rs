//! What a page shows: its text, without the tags around it.
use vstd::prelude::*;

use crate::diff::DiffLineView;
use crate::diff::InlineSpanView;
use crate::diff::LineSource;
use crate::html::base64_text;
use crate::html::content_html;
use crate::html::counts_html;
use crate::html::css_color;
use crate::html::encoded_image;
use crate::html::entries_html;
use crate::html::entry_html;
use crate::html::escaped;
use crate::html::escaped_char;
use crate::html::file_html;
use crate::html::files_html;
use crate::html::highlight_class;
use crate::html::law_escaped_text_is_inert;
use crate::html::line_class;
use crate::html::line_html;
use crate::html::lines_html;
use crate::html::marker_html;
use crate::html::panel_html;
use crate::html::png_of;
use crate::html::segment_html;
use crate::html::segments_html;
use crate::html::span_html;
use crate::html::spans_html;
use crate::image_diff::keeps;
use crate::image_diff::lemma_position;
use crate::image_diff::position_of;
use crate::image_diff::CachedImageView;
use crate::image_diff::KeptView;
use crate::output::OutputFileView;
use crate::scan::ended_lines;
use crate::scan::is_digit;
use crate::scan::law_numbers_are_read_back;
use crate::style::Color;
use crate::syntax::law_segments_reproduce_the_line;
use crate::syntax::plain;
use crate::syntax::text_of_segments;
use crate::syntax::StreamView;
use crate::syntax::SyntaxSegmentView;
use crate::text::copies;
use crate::text::decimal;
use crate::text::has_text;
use crate::text::right_aligned;
use crate::text::stands_at;
use crate::ui::spans::coalesced;

verus! {

/// The text that a part of a page shows, and whether the part ends within a tag. It may begin within
/// one.
pub open spec fn page_text(s: Seq<char>, in_tag: bool) -> (Seq<char>, bool)
    decreases s.len(),
{
    if s.len() == 0 {
        (Seq::empty(), in_tag)
    } else {
        let before = page_text(s.drop_last(), in_tag);
        if before.1 {
            (before.0, s.last() != '>')
        } else if s.last() == '<' {
            (before.0, true)
        } else {
            (before.0.push(s.last()), false)
        }
    }
}

/// The text that escaped text stands for.
pub open spec fn unescaped(s: Seq<char>) -> Seq<char>
    decreases s.len(),
{
    proof {
        reveal_strlit("&amp;");
        reveal_strlit("&lt;");
        reveal_strlit("&gt;");
        reveal_strlit("&quot;");
        reveal_strlit("&#39;");
    }
    if s.len() == 0 {
        Seq::empty()
    } else if stands_at(s, "&amp;"@, 0) {
        seq!['&'] + unescaped(s.skip(5))
    } else if stands_at(s, "&lt;"@, 0) {
        seq!['<'] + unescaped(s.skip(4))
    } else if stands_at(s, "&gt;"@, 0) {
        seq!['>'] + unescaped(s.skip(4))
    } else if stands_at(s, "&quot;"@, 0) {
        seq!['"'] + unescaped(s.skip(6))
    } else if stands_at(s, "&#39;"@, 0) {
        seq!['\''] + unescaped(s.skip(5))
    } else {
        seq![s[0]] + unescaped(s.skip(1))
    }
}

/// The escaped texts of some stretches, in order.
pub open spec fn escaped_texts(spans: Seq<InlineSpanView>) -> Seq<char>
    decreases spans.len(),
{
    if spans.len() == 0 {
        Seq::empty()
    } else {
        escaped_texts(spans.drop_last()) + escaped(spans.last().text)
    }
}

proof fn lemma_escaped_both(a: Seq<char>, b: Seq<char>)
    ensures
        escaped(a + b) == escaped(a) + escaped(b),
    decreases b.len(),
{
    if b.len() == 0 {
        assert(a + b =~= a);
        assert(escaped(a) + escaped(b) =~= escaped(a));
    } else {
        assert((a + b).drop_last() =~= a + b.drop_last());
        lemma_escaped_both(a, b.drop_last());
        assert(escaped(a + b) =~= escaped(a) + escaped(b));
    }
}

/// Escaped text is read back as the text that it was made of.
pub proof fn law_escaped_text_is_read_back(s: Seq<char>)
    ensures
        unescaped(escaped(s)) == s,
    decreases s.len(),
{
    if s.len() == 0 {
        assert(s =~= Seq::empty());
    } else {
        let c = s[0];
        let rest = s.skip(1);
        let one = seq![c];
        assert(one + rest =~= s);
        assert(one.drop_last() =~= Seq::empty());
        lemma_escaped_both(one, rest);
        reveal_with_fuel(escaped, 2);
        assert(escaped(one) =~= escaped_char(c));
        law_escaped_text_is_read_back(rest);
        let all = escaped(s);
        let front = escaped_char(c);
        reveal_strlit("&amp;");
        reveal_strlit("&lt;");
        reveal_strlit("&gt;");
        reveal_strlit("&quot;");
        reveal_strlit("&#39;");
        assert(all.subrange(0, front.len() as int) =~= front);
        assert(all.skip(front.len() as int) =~= escaped(rest));
        assert(all[0] == front[0]);
        if c == '&' || c == '<' || c == '>' || c == '"' || c == '\'' {
            assert(all[1] == front[1]);
            lemma_other_mark(all, "&amp;"@, front);
            lemma_other_mark(all, "&lt;"@, front);
            lemma_other_mark(all, "&gt;"@, front);
            lemma_other_mark(all, "&quot;"@, front);
            assert(stands_at(all, front, 0));
        } else {
            assert(all[0] == c);
            lemma_other_start(all, "&amp;"@);
            lemma_other_start(all, "&lt;"@);
            lemma_other_start(all, "&gt;"@);
            lemma_other_start(all, "&quot;"@);
            lemma_other_start(all, "&#39;"@);
        }
    }
}

proof fn lemma_other_mark(s: Seq<char>, a: Seq<char>, b: Seq<char>)
    requires
        a.len() > 1,
        b.len() > 1,
        stands_at(s, b, 0),
    ensures
        a[1] != b[1] ==> !stands_at(s, a, 0),
{
    assert(s.subrange(0, b.len() as int)[1] == s[1]);
    if stands_at(s, a, 0) {
        assert(s.subrange(0, a.len() as int)[1] == s[1]);
    }
}

proof fn lemma_other_start(s: Seq<char>, a: Seq<char>)
    requires
        s.len() > 0,
        a.len() > 0,
        s[0] != a[0],
    ensures
        !stands_at(s, a, 0),
{
    if stands_at(s, a, 0) {
        assert(s.subrange(0, a.len() as int)[0] == s[0]);
    }
}

proof fn lemma_page_both(a: Seq<char>, b: Seq<char>, in_tag: bool)
    ensures
        page_text(a + b, in_tag) == (
            page_text(a, in_tag).0 + page_text(b, page_text(a, in_tag).1).0,
            page_text(b, page_text(a, in_tag).1).1,
        ),
    decreases b.len(),
{
    let start = page_text(a, in_tag);
    if b.len() == 0 {
        assert(a + b =~= a);
        assert(start.0 + page_text(b, start.1).0 =~= start.0);
    } else {
        assert((a + b).drop_last() =~= a + b.drop_last());
        lemma_page_both(a, b.drop_last(), in_tag);
        assert(page_text(a + b, in_tag).0 =~= start.0 + page_text(b, start.1).0);
    }
}

proof fn lemma_page_split(s: Seq<char>, k: int, in_tag: bool)
    requires
        0 <= k <= s.len(),
    ensures
        page_text(s, in_tag) == (
            page_text(s.take(k), in_tag).0 + page_text(
                s.skip(k),
                page_text(s.take(k), in_tag).1,
            ).0,
            page_text(s.skip(k), page_text(s.take(k), in_tag).1).1,
        ),
{
    assert(s.take(k) + s.skip(k) =~= s);
    lemma_page_both(s.take(k), s.skip(k), in_tag);
}

/// Text without a tag is shown.
proof fn lemma_outside(s: Seq<char>)
    requires
        forall|i: int| 0 <= i < s.len() ==> #[trigger] s[i] != '<',
    ensures
        page_text(s, false) == (s, false),
    decreases s.len(),
{
    if s.len() == 0 {
        assert(s =~= Seq::empty());
    } else {
        lemma_outside(s.drop_last());
        assert(s[s.len() - 1] != '<');
        assert(s.drop_last().push(s.last()) =~= s);
    }
}

/// Nothing within a tag is shown.
proof fn lemma_inside(s: Seq<char>)
    requires
        forall|i: int| 0 <= i < s.len() ==> #[trigger] s[i] != '>',
    ensures
        page_text(s, true) == (Seq::<char>::empty(), true),
    decreases s.len(),
{
    if s.len() > 0 {
        lemma_inside(s.drop_last());
        assert(s[s.len() - 1] != '>');
    }
}

proof fn lemma_tag_start(s: Seq<char>)
    requires
        s.len() > 0,
        s[0] == '<',
        forall|i: int| 0 <= i < s.len() ==> #[trigger] s[i] != '>',
    ensures
        page_text(s, false) == (Seq::<char>::empty(), true),
    decreases s.len(),
{
    if s.len() > 1 {
        lemma_tag_start(s.drop_last());
        assert(s[s.len() - 1] != '>');
    } else {
        assert(s.drop_last().len() == 0);
        assert(page_text(s.drop_last(), false) == (Seq::<char>::empty(), false));
    }
}

proof fn lemma_tag_end(s: Seq<char>)
    requires
        s.len() > 0,
        s.last() == '>',
        forall|i: int| 0 <= i < s.len() - 1 ==> #[trigger] s[i] != '>',
    ensures
        page_text(s, true) == (Seq::<char>::empty(), false),
{
    lemma_inside(s.drop_last());
}

proof fn lemma_tag(s: Seq<char>)
    requires
        s.len() > 1,
        s[0] == '<',
        s.last() == '>',
        forall|i: int| 0 <= i < s.len() - 1 ==> #[trigger] s[i] != '>',
    ensures
        page_text(s, false) == (Seq::<char>::empty(), false),
{
    lemma_tag_start(s.drop_last());
}

proof fn lemma_two_tags(s: Seq<char>, k: int)
    requires
        1 < k < s.len() - 1,
        s[0] == '<',
        s[k - 1] == '>',
        s[k] == '<',
        s.last() == '>',
        forall|i: int| 0 <= i < s.len() - 1 && i != k - 1 ==> #[trigger] s[i] != '>',
    ensures
        page_text(s, false) == (Seq::<char>::empty(), false),
{
    lemma_page_split(s, k, false);
    lemma_tag(s.take(k));
    lemma_tag(s.skip(k));
    assert(Seq::<char>::empty() + Seq::<char>::empty() =~= Seq::<char>::empty());
}

proof fn lemma_tag_end_and_tag(s: Seq<char>, k: int)
    requires
        0 < k < s.len() - 1,
        s[k - 1] == '>',
        s[k] == '<',
        s.last() == '>',
        forall|i: int| 0 <= i < s.len() - 1 && i != k - 1 ==> #[trigger] s[i] != '>',
    ensures
        page_text(s, true) == (Seq::<char>::empty(), false),
{
    lemma_page_split(s, k, true);
    lemma_tag_end(s.take(k));
    lemma_tag(s.skip(k));
    assert(Seq::<char>::empty() + Seq::<char>::empty() =~= Seq::<char>::empty());
}

proof fn lemma_escaped_shown(s: Seq<char>)
    ensures
        page_text(escaped(s), false) == (escaped(s), false),
{
    law_escaped_text_is_inert(s);
    lemma_outside(escaped(s));
}

proof fn lemma_span_shown(attributes: Seq<char>, start: Seq<char>, text: Seq<char>)
    requires
        start.len() > 0,
        start[0] == '<',
        forall|i: int| 0 <= i < start.len() ==> #[trigger] start[i] != '>',
        forall|i: int| 0 <= i < attributes.len() ==> #[trigger] attributes[i] != '>',
    ensures
        page_text(start + attributes + "\">"@ + escaped(text) + "</span>"@, false) == (
            escaped(text),
            false,
        ),
{
    let end = "</span>"@;
    let close = "\">"@;
    let none = Seq::<char>::empty();
    reveal_strlit("</span>");
    reveal_strlit("\">");
    lemma_tag_start(start);
    lemma_inside(attributes);
    lemma_tag_end(close);
    lemma_escaped_shown(text);
    lemma_tag(end);
    lemma_page_both(start, attributes, false);
    lemma_page_both(start + attributes, close, false);
    lemma_page_both(start + attributes + close, escaped(text), false);
    lemma_page_both(start + attributes + close + escaped(text), end, false);
    assert(none + none + none + escaped(text) + none =~= escaped(text));
    assert(none + none =~= none);
    assert(none + escaped(text) =~= escaped(text));
    assert(escaped(text) + none =~= escaped(text));
}

proof fn lemma_classes()
    ensures
        forall|source: LineSource, i: int|
            0 <= i < highlight_class(source).len() ==> #[trigger] highlight_class(source)[i] != '>',
        forall|source: LineSource, i: int|
            0 <= i < line_class(source).len() ==> #[trigger] line_class(source)[i] != '>',
{
    reveal_strlit("hl-committed");
    reveal_strlit("hl-staged");
    reveal_strlit("hl-unstaged");
    reveal_strlit("hl-del-base");
    reveal_strlit("hl-del-committed");
    reveal_strlit("hl-del-staged");
    reveal_strlit("hl-canceled");
    reveal_strlit("");
    reveal_strlit("line-base");
    reveal_strlit("line-committed");
    reveal_strlit("line-staged");
    reveal_strlit("line-unstaged");
    reveal_strlit("line-del-base");
    reveal_strlit("line-del-committed");
    reveal_strlit("line-del-staged");
    reveal_strlit("line-canceled");
    reveal_strlit("line-header");
    reveal_strlit("line-elided");
}

proof fn lemma_stretch_shown(span: InlineSpanView)
    ensures
        page_text(span_html(span), false) == (escaped(span.text), false),
{
    let class = match span.source {
        Some(source) => highlight_class(source),
        None => ""@,
    };
    lemma_classes();
    reveal_strlit("");
    if class.len() == 0 && !span.is_deletion {
        lemma_escaped_shown(span.text);
    } else {
        let mark = if span.is_deletion {
            " del"@
        } else {
            ""@
        };
        let start = "<span class=\""@;
        reveal_strlit(" del");
        reveal_strlit("<span class=\"");
        let attributes = class + mark;
        assert forall|i: int| 0 <= i < attributes.len() implies #[trigger] attributes[i] != '>' by {
            if i < class.len() {
                assert(attributes[i] == class[i]);
            } else {
                assert(attributes[i] == mark[i - class.len()]);
            }
        }
        lemma_span_shown(attributes, start, span.text);
        assert(start + attributes + "\">"@ + escaped(span.text) + "</span>"@ =~= span_html(span));
    }
}

/// The stretches of a modified line show their texts, deleted ones too, in order.
pub proof fn law_every_stretch_is_shown(spans: Seq<InlineSpanView>)
    ensures
        page_text(spans_html(spans), false) == (escaped_texts(spans), false),
    decreases spans.len(),
{
    if spans.len() > 0 {
        law_every_stretch_is_shown(spans.drop_last());
        lemma_stretch_shown(spans.last());
        lemma_page_both(spans_html(spans.drop_last()), span_html(spans.last()), false);
    }
}

proof fn lemma_digits_show(n: nat)
    ensures
        forall|i: int|
            0 <= i < decimal(n).len() ==> #[trigger] decimal(n)[i] != '<' && decimal(n)[i] != '>',
{
    law_numbers_are_read_back(n);
    assert forall|i: int| 0 <= i < decimal(n).len() implies #[trigger] decimal(n)[i] != '<'
        && decimal(n)[i] != '>' by {
        assert(is_digit(decimal(n)[i]));
    }
}

proof fn lemma_segment_shown(segment: SyntaxSegmentView)
    ensures
        page_text(segment_html(segment), false) == (escaped(segment.text), false),
{
    match segment.fg_color {
        Color::Rgb(r, g, b) => {
            let color = css_color(segment.fg_color)->0;
            let start = "<span style=\"color:"@;
            reveal_strlit("<span style=\"color:");
            reveal_strlit("rgb(");
            reveal_strlit(",");
            reveal_strlit(")");
            lemma_digits_show(r as nat);
            lemma_digits_show(g as nat);
            lemma_digits_show(b as nat);
            let x = "rgb("@ + decimal(r as nat);
            let y = x + ","@ + decimal(g as nat);
            assert(forall|i: int| 0 <= i < x.len() ==> #[trigger] x[i] != '>');
            assert(forall|i: int| 0 <= i < y.len() ==> #[trigger] y[i] != '>');
            assert(color == y + ","@ + decimal(b as nat) + ")"@);
            assert(forall|i: int| 0 <= i < color.len() ==> #[trigger] color[i] != '>');
            lemma_span_shown(color, start, segment.text);
        },
        _ => {
            lemma_escaped_shown(segment.text);
        },
    }
}

proof fn lemma_segments_shown(segments: Seq<SyntaxSegmentView>)
    ensures
        page_text(segments_html(segments), false) == (escaped(text_of_segments(segments)), false),
    decreases segments.len(),
{
    if segments.len() > 0 {
        let front = segments.drop_last();
        lemma_segments_shown(front);
        lemma_segment_shown(segments.last());
        lemma_page_both(segments_html(front), segment_html(segments.last()), false);
        lemma_escaped_both(text_of_segments(front), segments.last().text);
    }
}

/// However a text is parted into segments, the page shows the text.
pub proof fn law_highlighted_text_is_shown(content: Seq<char>, segments: Seq<SyntaxSegmentView>)
    requires
        text_of_segments(segments) == content,
    ensures
        page_text(content_html(content, segments), false) == (escaped(content), false),
{
    lemma_escaped_shown(content);
    lemma_segments_shown(segments);
}

/// What a highlighter shows of a line is the line, as long as the parser has not failed on a line
/// before it.
pub proof fn law_shown_segments_are_the_line(
    stream: StreamView,
    content: Seq<char>,
    path: Seq<char>,
)
    requires
        stream.grammar.parsed_all(stream.position(path)),
        !content.contains('\n'),
    ensures
        text_of_segments(stream.shows(content, Some(path))) == content,
{
    law_segments_reproduce_the_line(stream.grammar, stream.position(path), content);
    reveal_with_fuel(text_of_segments, 2);
    if content.len() == 0 {
        assert(plain(content) =~= Seq::empty());
        assert(content =~= Seq::empty());
    } else {
        assert(plain(content).drop_last() =~= Seq::empty());
        assert(text_of_segments(plain(content)) =~= content);
    }
}

/// What the page shows in the row of a line: a mark for lines that are left out, or its number, the
/// sign in front of it, and its text, with the deleted stretches of a modified line among it.
pub open spec fn row_text(line: DiffLineView, width: nat) -> Seq<char> {
    match line.source {
        LineSource::Elided => "┈┈ ⋮ "@ + escaped(line.content) + " ⋮ ┈┈\n"@,
        _ => (match line.line_number {
            Some(n) => right_aligned(decimal(n as nat), width),
            None => copies(' ', width),
        }).push(
            if line.move_target is Some {
                'M'
            } else {
                line.prefix
            },
        ) + (if line.inline_spans.len() > 0 {
            escaped_texts(coalesced(line.inline_spans))
        } else {
            escaped(line.content)
        }).push('\n'),
    }
}

proof fn lemma_number_shown(line: DiffLineView, width: nat)
    ensures
        ({
            let column = match line.line_number {
                Some(n) => right_aligned(decimal(n as nat), width),
                None => copies(' ', width),
            };
            page_text(column, false) == (column, false)
        }),
{
    let column = match line.line_number {
        Some(n) => right_aligned(decimal(n as nat), width),
        None => copies(' ', width),
    };
    if let Some(n) = line.line_number {
        lemma_digits_show(n as nat);
    }
    assert forall|i: int| 0 <= i < column.len() implies #[trigger] column[i] != '<' by {
        if let Some(n) = line.line_number {
            let digits = decimal(n as nat);
            if digits.len() < width && i >= width - digits.len() {
                assert(column[i] == digits[i - (width - digits.len())]);
            } else if digits.len() >= width {
                assert(column[i] == digits[i]);
            }
        }
    }
    lemma_outside(column);
}

proof fn lemma_row_start(class: Seq<char>)
    requires
        forall|i: int| 0 <= i < class.len() ==> #[trigger] class[i] != '>',
    ensures
        page_text("<tr class=\""@ + class, false) == (Seq::<char>::empty(), true),
{
    let none = Seq::<char>::empty();
    reveal_strlit("<tr class=\"");
    lemma_tag_start("<tr class=\""@);
    lemma_inside(class);
    lemma_page_both("<tr class=\""@, class, false);
    assert(none + none =~= none);
}

proof fn lemma_row_end()
    ensures
        page_text("</td></tr>\n"@, false) == (seq!['\n'], false),
{
    let s = "</td></tr>\n"@;
    reveal_strlit("</td></tr>\n");
    lemma_page_split(s, 10, false);
    lemma_two_tags(s.take(10), 5);
    lemma_outside(s.skip(10));
    assert(Seq::<char>::empty() + s.skip(10) =~= seq!['\n']);
}

/// The page shows every line: whatever its source, its row has its number, its sign and all of its
/// text.
pub proof fn law_every_line_is_shown(
    line: DiffLineView,
    path: Seq<char>,
    kept: Seq<KeptView>,
    width: nat,
    stream: StreamView,
)
    requires
        !(line.source is FileHeader),
        !line.marks_image(),
        line.prefix != '<',
        line.inline_spans.len() == 0 ==> !line.content.contains('\n')
            && stream.grammar.parsed_all(stream.position(path)),
    ensures
        page_text(line_html(line, path, kept, width, stream).text, false) == (
            row_text(line, width),
            false,
        ),
{
    let none = Seq::<char>::empty();
    let class = if line.move_target is Some {
        "line-moved"@
    } else {
        line_class(line.source)
    };
    lemma_classes();
    reveal_strlit("line-moved");
    assert(forall|i: int| 0 <= i < class.len() ==> #[trigger] class[i] != '>');
    lemma_row_start(class);
    let start = "<tr class=\""@ + class;
    if line.source is Elided {
        let front = "\"><td colspan=\"3\">┈┈ ⋮ "@;
        let back = " ⋮ ┈┈</td></tr>\n"@;
        reveal_strlit("\"><td colspan=\"3\">┈┈ ⋮ ");
        reveal_strlit(" ⋮ ┈┈</td></tr>\n");
        reveal_strlit("┈┈ ⋮ ");
        reveal_strlit(" ⋮ ┈┈\n");
        lemma_page_split(front, 18, true);
        lemma_tag_end_and_tag(front.take(18), 2);
        lemma_outside(front.skip(18));
        assert(none + front.skip(18) =~= "┈┈ ⋮ "@);
        lemma_page_split(back, 5, false);
        lemma_outside(back.take(5));
        reveal_strlit("</td></tr>\n");
        assert(back.skip(5) =~= "</td></tr>\n"@);
        lemma_row_end();
        assert(back.take(5) + seq!['\n'] =~= " ⋮ ┈┈\n"@);
        lemma_escaped_shown(line.content);
        lemma_page_both(start, front, false);
        lemma_page_both(start + front, escaped(line.content), false);
        lemma_page_both(start + front + escaped(line.content), back, false);
        assert(none + "┈┈ ⋮ "@ =~= "┈┈ ⋮ "@);
    } else {
        let column = match line.line_number {
            Some(n) => right_aligned(decimal(n as nat), width),
            None => copies(' ', width),
        };
        let sign = seq![
            if line.move_target is Some {
                'M'
            } else {
                line.prefix
            },
        ];
        let a = "\"><td class=\"ln\">"@;
        let b = "</td><td class=\"gutter\">"@;
        let c = "</td><td class=\"content\">"@;
        reveal_strlit("\"><td class=\"ln\">");
        reveal_strlit("</td><td class=\"gutter\">");
        reveal_strlit("</td><td class=\"content\">");
        lemma_tag_end_and_tag(a, 2);
        lemma_two_tags(b, 5);
        lemma_two_tags(c, 5);
        lemma_number_shown(line, width);
        lemma_outside(sign);
        lemma_row_end();
        let content = if line.inline_spans.len() > 0 {
            spans_html(coalesced(line.inline_spans))
        } else {
            content_html(line.content, stream.shows(line.content, Some(path)))
        };
        let text = if line.inline_spans.len() > 0 {
            escaped_texts(coalesced(line.inline_spans))
        } else {
            escaped(line.content)
        };
        if line.inline_spans.len() > 0 {
            law_every_stretch_is_shown(coalesced(line.inline_spans));
        } else {
            law_shown_segments_are_the_line(stream, line.content, path);
            law_highlighted_text_is_shown(
                line.content,
                stream.shows(line.content, Some(path)),
            );
        }
        lemma_page_both(start, a, false);
        lemma_page_both(start + a, column, false);
        lemma_page_both(start + a + column, b, false);
        lemma_page_both(start + a + column + b, sign, false);
        lemma_page_both(start + a + column + b + sign, c, false);
        lemma_page_both(start + a + column + b + sign + c, content, false);
        lemma_page_both(start + a + column + b + sign + c + content, "</td></tr>\n"@, false);
        assert(none + none + column + none + sign + none + text + seq!['\n'] =~= column.push(
            sign[0],
        ) + text.push('\n'));
    }
}

/// A tag at the end of a line shows the end of the line.
proof fn lemma_line_tag(s: Seq<char>)
    requires
        s.len() > 2,
        s[0] == '<',
        s[s.len() - 2] == '>',
        s.last() == '\n',
        forall|i: int| 0 <= i < s.len() - 2 ==> #[trigger] s[i] != '>',
    ensures
        page_text(s, false) == (seq!['\n'], false),
{
    let k = s.len() - 1;
    lemma_page_split(s, k, false);
    lemma_tag(s.take(k));
    lemma_outside(s.skip(k));
    assert(Seq::<char>::empty() + s.skip(k) =~= seq!['\n']);
}

/// What the page shows of an image: which one it is, and what is known of it.
pub open spec fn panel_text(
    image: CachedImageView,
    encoded: Option<Seq<char>>,
    label: Seq<char>,
) -> Seq<char> {
    seq!['\n'] + label + seq!['\n'] + (if encoded is Some {
        seq!['\n']
    } else {
        Seq::empty()
    }) + escaped(image.metadata()) + seq!['\n', '\n']
}

proof fn lemma_base64_stays_inside(bytes: Seq<u8>)
    ensures
        forall|i: int| 0 <= i < base64_text(bytes).len() ==> #[trigger] base64_text(bytes)[i] != '>',
{
}

proof fn lemma_panel_shown(image: CachedImageView, label: Seq<char>)
    requires
        forall|i: int|
            0 <= i < label.len() ==> #[trigger] label[i] != '<' && label[i] != '>',
    ensures
        page_text(panel_html(image, encoded_image(image), label), false) == (
            panel_text(image, encoded_image(image), label),
            false,
        ),
{
    let none = Seq::<char>::empty();
    let nl = seq!['\n'];
    let encoded = encoded_image(image);
    let a = "<div class=\"image-panel\">\n<div class=\"image-label\">"@;
    let b = "</div>\n"@;
    let c = match encoded {
        Some(data) => "<img src=\"data:image/png;base64,"@ + data + "\" alt=\""@ + label
            + "\">\n"@,
        None => Seq::empty(),
    };
    let d = "<div class=\"meta\">"@;
    let text = escaped(image.metadata());
    let e = "</div>\n</div>\n"@;
    reveal_strlit("<div class=\"image-panel\">\n<div class=\"image-label\">");
    reveal_strlit("</div>\n");
    reveal_strlit("<div class=\"meta\">");
    reveal_strlit("</div>\n</div>\n");
    lemma_page_split(a, 26, false);
    lemma_line_tag(a.take(26));
    lemma_tag(a.skip(26));
    assert(nl + none =~= nl);
    lemma_outside(label);
    lemma_line_tag(b);
    let shown = if encoded is Some {
        nl
    } else {
        none
    };
    assert(page_text(c, false) == (shown, false)) by {
        if let Some(data) = encoded {
            let f = "<img src=\"data:image/png;base64,"@;
            let g = "\" alt=\""@;
            let h = "\">\n"@;
            reveal_strlit("<img src=\"data:image/png;base64,");
            reveal_strlit("\" alt=\"");
            reveal_strlit("\">\n");
            lemma_base64_stays_inside(png_of(image.picture)->0);
            lemma_tag_start(f);
            lemma_inside(data);
            lemma_inside(g);
            lemma_inside(label);
            lemma_page_split(h, 2, true);
            lemma_tag_end(h.take(2));
            lemma_outside(h.skip(2));
            assert(h.skip(2) =~= nl);
            lemma_page_both(f, data, false);
            lemma_page_both(f + data, g, false);
            lemma_page_both(f + data + g, label, false);
            lemma_page_both(f + data + g + label, h, false);
            assert(none + none =~= none);
            assert(none + nl =~= nl);
        }
    }
    lemma_tag(d);
    lemma_escaped_shown(image.metadata());
    lemma_page_split(e, 7, false);
    lemma_line_tag(e.take(7));
    lemma_line_tag(e.skip(7));
    assert(nl + nl =~= seq!['\n', '\n']);
    lemma_page_both(a, label, false);
    lemma_page_both(a + label, b, false);
    lemma_page_both(a + label + b, c, false);
    lemma_page_both(a + label + b + c, d, false);
    lemma_page_both(a + label + b + c + d, text, false);
    lemma_page_both(a + label + b + c + d + text, e, false);
    assert(nl + label + nl + shown + none + text + seq!['\n', '\n'] =~= panel_text(
        image,
        encoded,
        label,
    ));
}

/// What the page shows of the images of a file: those that are there, the old one first, or the
/// name of the file where none are loaded.
pub open spec fn images_text(path: Option<Seq<char>>, kept: Seq<KeptView>) -> Seq<char> {
    match path {
        Some(path) => if exists|k: int| 0 <= k < kept.len() && (#[trigger] kept[k]).path == path {
            let state = kept[position_of(kept, path, 0)].state;
            seq!['\n'] + (match state.before {
                Some(image) => panel_text(image, encoded_image(image), "before"@),
                None => Seq::empty(),
            }) + (match state.after {
                Some(image) => panel_text(image, encoded_image(image), "after"@),
                None => Seq::empty(),
            }) + seq!['\n']
        } else {
            "[image: "@ + escaped(path) + "]"@
        },
        None => Seq::empty(),
    }
}

/// Whether a part of a page holds an image, where it is loaded and can be written.
pub open spec fn holds_image(part: Seq<char>, image: Option<CachedImageView>) -> bool {
    match image {
        Some(image) => match encoded_image(image) {
            Some(data) => has_text(part, "data:image/png;base64,"@ + data),
            None => true,
        },
        None => true,
    }
}

/// The page shows both images of a file, the old one and the new one, as far as they are loaded.
pub proof fn law_every_image_is_shown(path: Option<Seq<char>>, kept: Seq<KeptView>)
    ensures
        page_text(marker_html(path, kept), false) == (images_text(path, kept), false),
        path matches Some(path) ==> (keeps(kept, path) ==> {
            let at = position_of(kept, path, 0);
            &&& 0 <= at < kept.len() && kept[at].path == path
            &&& holds_image(marker_html(Some(path), kept), kept[at].state.before)
            &&& holds_image(marker_html(Some(path), kept), kept[at].state.after)
        }),
{
    let none = Seq::<char>::empty();
    let nl = seq!['\n'];
    reveal_strlit("before");
    reveal_strlit("after");
    if let Some(path) = path {
        lemma_position(kept, path, 0);
        let at = position_of(kept, path, 0);
        if keeps(kept, path) {
            assert(kept[at].path == path);
            let state = kept[at].state;
            let a = "<tr><td colspan=\"3\"><div class=\"image-container\">\n"@;
            let z = "</div></td></tr>\n"@;
            reveal_strlit("<tr><td colspan=\"3\"><div class=\"image-container\">\n");
            reveal_strlit("</div></td></tr>\n");
            lemma_page_split(a, 20, false);
            lemma_two_tags(a.take(20), 4);
            lemma_line_tag(a.skip(20));
            assert(none + nl =~= nl);
            lemma_page_split(z, 6, false);
            lemma_tag(z.take(6));
            reveal_strlit("</td></tr>\n");
            assert(z.skip(6) =~= "</td></tr>\n"@);
            lemma_row_end();
            let before = match state.before {
                Some(image) => panel_html(image, encoded_image(image), "before"@),
                None => Seq::empty(),
            };
            let after = match state.after {
                Some(image) => panel_html(image, encoded_image(image), "after"@),
                None => Seq::empty(),
            };
            if let Some(image) = state.before {
                lemma_panel_shown(image, "before"@);
                if encoded_image(image) is Some {
                    lemma_panel_data(image, "before"@, a, after + z);
                    assert(a + before + (after + z) =~= marker_html(Some(path), kept));
                }
            }
            if let Some(image) = state.after {
                lemma_panel_shown(image, "after"@);
                if encoded_image(image) is Some {
                    lemma_panel_data(image, "after"@, a + before, z);
                }
            }
            lemma_page_both(a, before, false);
            lemma_page_both(a + before, after, false);
            lemma_page_both(a + before + after, z, false);
        } else {
            let a = "<tr><td colspan=\"3\" class=\"content\">[image: "@;
            let z = "]</td></tr>"@;
            reveal_strlit("<tr><td colspan=\"3\" class=\"content\">[image: ");
            reveal_strlit("]</td></tr>");
            reveal_strlit("[image: ");
            reveal_strlit("]");
            lemma_page_split(a, 36, false);
            lemma_two_tags(a.take(36), 4);
            lemma_outside(a.skip(36));
            assert(none + a.skip(36) =~= "[image: "@);
            lemma_page_split(z, 1, false);
            lemma_outside(z.take(1));
            lemma_two_tags(z.skip(1), 5);
            assert(z.take(1) + none =~= "]"@);
            lemma_escaped_shown(path);
            lemma_page_both(a, escaped(path), false);
            lemma_page_both(a + escaped(path), z, false);
            assert forall|k: int| 0 <= k < kept.len() implies (#[trigger] kept[k]).path != path by {
                assert(k < at);
            }
        }
    }
}

proof fn lemma_panel_data(
    image: CachedImageView,
    label: Seq<char>,
    front: Seq<char>,
    back: Seq<char>,
)
    requires
        encoded_image(image) is Some,
    ensures
        has_text(
            front + panel_html(image, encoded_image(image), label) + back,
            "data:image/png;base64,"@ + encoded_image(image)->0,
        ),
{
    let data = encoded_image(image)->0;
    let panel = panel_html(image, encoded_image(image), label);
    let whole = front + panel + back;
    let start = "<div class=\"image-panel\">\n<div class=\"image-label\">"@ + label + "</div>\n"@;
    let f = "<img src=\"data:image/png;base64,"@;
    let wanted = "data:image/png;base64,"@;
    reveal_strlit("<img src=\"data:image/png;base64,");
    reveal_strlit("data:image/png;base64,");
    assert(f.skip(10) =~= wanted);
    let at: int = front.len() as int + start.len() as int + 10;
    let rest = "\" alt=\""@ + label + "\">\n"@ + "<div class=\"meta\">"@ + escaped(image.metadata())
        + "</div>\n</div>\n"@;
    assert(panel =~= start + f.take(10) + (wanted + data) + rest);
    assert(whole =~= (front + start + f.take(10)) + (wanted + data) + (rest + back));
    assert(whole.subrange(at, at + (wanted + data).len()) =~= wanted + data);
    assert(stands_at(whole, wanted + data, at));
}

/// What the page shows of some lines. The heading of the file stands in front of them all.
pub open spec fn rows_text(lines: Seq<DiffLineView>, kept: Seq<KeptView>, width: nat) -> Seq<char>
    decreases lines.len(),
{
    if lines.len() == 0 {
        Seq::empty()
    } else {
        rows_text(lines.drop_last(), kept, width) + (if lines.last().source is FileHeader {
            Seq::empty()
        } else if lines.last().marks_image() {
            images_text(lines.last().file_path, kept)
        } else {
            row_text(lines.last(), width)
        })
    }
}

/// Whether lines are such that a page shows their text as it is: they hold no line end, their signs
/// are no part of a tag, and the parser does not fail on them.
pub open spec fn can_show(
    lines: Seq<DiffLineView>,
    path: Seq<char>,
    kept: Seq<KeptView>,
    width: nat,
    stream: StreamView,
) -> bool {
    forall|k: int|
        0 <= k < lines.len() ==> (#[trigger] lines[k]).prefix != '<' && !lines[k].content.contains(
            '\n',
        ) && stream.grammar.parsed_all(
            lines_html(lines.take(k), path, kept, width, stream).stream.position(path),
        )
}

/// The page shows every line of a file, in order.
pub proof fn law_every_line_of_a_file_is_shown(
    lines: Seq<DiffLineView>,
    path: Seq<char>,
    kept: Seq<KeptView>,
    width: nat,
    stream: StreamView,
)
    requires
        can_show(lines, path, kept, width, stream),
    ensures
        page_text(lines_html(lines, path, kept, width, stream).text, false) == (
            rows_text(lines, kept, width),
            false,
        ),
        lines_html(lines, path, kept, width, stream).stream.grammar == stream.grammar,
    decreases lines.len(),
{
    if lines.len() > 0 {
        let front = lines.drop_last();
        let line = lines.last();
        let k = lines.len() - 1;
        let before = lines_html(front, path, kept, width, stream);
        assert(lines[k].prefix != '<');
        assert(lines.take(k) =~= front);
        assert forall|i: int| 0 <= i < front.len() implies (#[trigger] front[i]).prefix != '<'
            && !front[i].content.contains('\n') && stream.grammar.parsed_all(
            lines_html(front.take(i), path, kept, width, stream).stream.position(path),
        ) by {
            assert(front[i] == lines[i]);
            assert(front.take(i) =~= lines.take(i));
        }
        law_every_line_of_a_file_is_shown(front, path, kept, width, stream);
        let next = line_html(line, path, kept, width, before.stream);
        if line.source is FileHeader {
        } else if line.marks_image() {
            law_every_image_is_shown(line.file_path, kept);
        } else {
            law_every_line_is_shown(line, path, kept, width, before.stream);
        }
        lemma_page_both(before.text, next.text, false);
    }
}

/// What the page shows of how much of a file changed: nothing where nothing did.
pub open spec fn counts_text(additions: nat, deletions: nat) -> Seq<char> {
    (if additions > 0 {
        " +"@ + decimal(additions)
    } else {
        Seq::empty()
    }) + (if deletions > 0 {
        " -"@ + decimal(deletions)
    } else {
        Seq::empty()
    })
}

proof fn lemma_count_shown(start: Seq<char>, n: nat)
    requires
        start.len() == 21,
        start[0] == ' ',
        start[1] == '<',
        start[19] == '>',
        start[20] != '<',
        forall|i: int| 0 <= i < 19 ==> #[trigger] start[i] != '>',
    ensures
        page_text(start + decimal(n) + "</span>"@, false) == (
            seq![' ', start[20]] + decimal(n),
            false,
        ),
{
    let none = Seq::<char>::empty();
    let end = "</span>"@;
    reveal_strlit("</span>");
    lemma_tag(end);
    lemma_digits_show(n);
    lemma_outside(decimal(n));
    lemma_page_split(start, 20, false);
    let a = start.take(20);
    lemma_page_split(a, 1, false);
    lemma_outside(a.take(1));
    lemma_tag(a.skip(1));
    lemma_outside(start.skip(20));
    assert(a.take(1) + none + start.skip(20) =~= seq![' ', start[20]]);
    assert(a.take(1) + none =~= a.take(1));
    lemma_page_both(start, decimal(n), false);
    lemma_page_both(start + decimal(n), end, false);
    assert(seq![' ', start[20]] + decimal(n) + none =~= seq![' ', start[20]] + decimal(n));
}

proof fn lemma_counts_shown(additions: nat, deletions: nat)
    ensures
        page_text(counts_html(additions, deletions), false) == (
            counts_text(additions, deletions),
            false,
        ),
{
    let a = if additions > 0 {
        " <span class=\"adds\">+"@ + decimal(additions) + "</span>"@
    } else {
        Seq::empty()
    };
    let b = if deletions > 0 {
        " <span class=\"dels\">-"@ + decimal(deletions) + "</span>"@
    } else {
        Seq::empty()
    };
    reveal_strlit(" <span class=\"adds\">+");
    reveal_strlit(" <span class=\"dels\">-");
    reveal_strlit(" +");
    reveal_strlit(" -");
    lemma_count_shown(" <span class=\"adds\">+"@, additions);
    lemma_count_shown(" <span class=\"dels\">-"@, deletions);
    assert(seq![' ', '+'] =~= " +"@);
    assert(seq![' ', '-'] =~= " -"@);
    lemma_page_both(a, b, false);
}

/// The list of files has one line for each file, in order: its path and how much of it changed.
pub proof fn law_every_file_is_listed(files: Seq<OutputFileView>)
    ensures
        page_text(entries_html(files), false) == (
            ended_lines(
                Seq::new(
                    files.len(),
                    |i: int|
                        escaped(files[i].path) + counts_text(
                            files[i].additions,
                            files[i].deletions,
                        ),
                ),
            ),
            false,
        ),
    decreases files.len(),
{
    let entry = |i: int|
        escaped(files[i].path) + counts_text(files[i].additions, files[i].deletions);
    let texts = Seq::new(files.len(), entry);
    if files.len() > 0 {
        let front = files.drop_last();
        let file = files.last();
        let k = (files.len() - 1) as nat;
        law_every_file_is_listed(front);
        assert(Seq::new(
            front.len(),
            |i: int|
                escaped(front[i].path) + counts_text(front[i].additions, front[i].deletions),
        ) =~= texts.drop_last());
        let none = Seq::<char>::empty();
        let a = "<a href=\"#file-"@;
        let b = "\">"@;
        let z = "</a>\n"@;
        let text = escaped(file.path);
        let counts = counts_html(file.additions, file.deletions);
        reveal_strlit("<a href=\"#file-");
        reveal_strlit("\">");
        reveal_strlit("</a>\n");
        lemma_tag_start(a);
        lemma_digits_show(k);
        lemma_inside(decimal(k));
        lemma_tag_end(b);
        lemma_escaped_shown(file.path);
        lemma_counts_shown(file.additions, file.deletions);
        lemma_line_tag(z);
        lemma_page_both(a, decimal(k), false);
        lemma_page_both(a + decimal(k), b, false);
        lemma_page_both(a + decimal(k) + b, text, false);
        lemma_page_both(a + decimal(k) + b + text, counts, false);
        lemma_page_both(a + decimal(k) + b + text + counts, z, false);
        assert(none + none + none + text + counts_text(file.additions, file.deletions) + seq!['\n']
            =~= texts.last().push('\n'));
        lemma_page_both(entries_html(front), entry_html(k, file), false);
    } else {
        assert(ended_lines(texts) =~= Seq::empty());
    }
}

/// What the page shows of a file: its path, how much of it changed, and all of its lines.
pub open spec fn file_text(file: OutputFileView, kept: Seq<KeptView>, width: nat) -> Seq<char> {
    escaped(file.path) + counts_text(file.additions, file.deletions) + "\n\n"@ + rows_text(
        file.lines,
        kept,
        width,
    ) + "\n\n"@
}

/// The page shows every file with its path, its counts and all of its lines.
pub proof fn law_every_file_is_shown(
    index: nat,
    file: OutputFileView,
    kept: Seq<KeptView>,
    width: nat,
    stream: StreamView,
)
    requires
        can_show(file.lines, file.path, kept, width, stream),
    ensures
        page_text(file_html(index, file, kept, width, stream).text, false) == (
            file_text(file, kept, width),
            false,
        ),
{
    let none = Seq::<char>::empty();
    let a = "<details"@;
    let b = if file.collapsed {
        ""@
    } else {
        " open"@
    };
    let c = " id=\"file-"@;
    let d = "\"><summary>"@;
    let text = escaped(file.path);
    let counts = counts_html(file.additions, file.deletions);
    let e = "</summary>\n<table>\n"@;
    let body = lines_html(file.lines, file.path, kept, width, stream).text;
    let z = "</table>\n</details>\n"@;
    reveal_strlit("<details");
    reveal_strlit("");
    reveal_strlit(" open");
    reveal_strlit(" id=\"file-");
    reveal_strlit("\"><summary>");
    reveal_strlit("</summary>\n<table>\n");
    reveal_strlit("</table>\n</details>\n");
    reveal_strlit("\n\n");
    lemma_tag_start(a);
    lemma_inside(b);
    lemma_inside(c);
    lemma_digits_show(index);
    lemma_inside(decimal(index));
    lemma_tag_end_and_tag(d, 2);
    lemma_escaped_shown(file.path);
    lemma_counts_shown(file.additions, file.deletions);
    lemma_page_split(e, 11, false);
    lemma_line_tag(e.take(11));
    lemma_line_tag(e.skip(11));
    lemma_page_split(z, 9, false);
    lemma_line_tag(z.take(9));
    lemma_line_tag(z.skip(9));
    assert(seq!['\n'] + seq!['\n'] =~= "\n\n"@);
    law_every_line_of_a_file_is_shown(file.lines, file.path, kept, width, stream);
    let n = decimal(index);
    lemma_page_both(a, b, false);
    lemma_page_both(a + b, c, false);
    lemma_page_both(a + b + c, n, false);
    lemma_page_both(a + b + c + n, d, false);
    lemma_page_both(a + b + c + n + d, text, false);
    lemma_page_both(a + b + c + n + d + text, counts, false);
    lemma_page_both(a + b + c + n + d + text + counts, e, false);
    lemma_page_both(a + b + c + n + d + text + counts + e, body, false);
    lemma_page_both(a + b + c + n + d + text + counts + e + body, z, false);
    assert(none + none + none + none + none + text =~= text);
}

/// What the page shows of some files, one after the other.
pub open spec fn files_text(files: Seq<OutputFileView>, kept: Seq<KeptView>, width: nat) -> Seq<
    char,
>
    decreases files.len(),
{
    if files.len() == 0 {
        Seq::empty()
    } else {
        files_text(files.drop_last(), kept, width) + file_text(files.last(), kept, width)
    }
}

/// No file is left out: the page shows all of them, in order.
pub proof fn law_all_files_are_shown(
    files: Seq<OutputFileView>,
    kept: Seq<KeptView>,
    width: nat,
    stream: StreamView,
)
    requires
        forall|k: int|
            0 <= k < files.len() ==> can_show(
                (#[trigger] files[k]).lines,
                files[k].path,
                kept,
                width,
                files_html(files.take(k), kept, width, stream).stream,
            ),
    ensures
        page_text(files_html(files, kept, width, stream).text, false) == (
            files_text(files, kept, width),
            false,
        ),
    decreases files.len(),
{
    if files.len() > 0 {
        let front = files.drop_last();
        let k = files.len() - 1;
        let before = files_html(front, kept, width, stream);
        assert(files.take(k) =~= front);
        assert(files[k] == files.last());
        assert forall|i: int| 0 <= i < front.len() implies can_show(
            (#[trigger] front[i]).lines,
            front[i].path,
            kept,
            width,
            files_html(front.take(i), kept, width, stream).stream,
        ) by {
            assert(front[i] == files[i]);
            assert(front.take(i) =~= files.take(i));
        }
        law_all_files_are_shown(front, kept, width, stream);
        let next = file_html(k as nat, files.last(), kept, width, before.stream);
        law_every_file_is_shown(k as nat, files.last(), kept, width, before.stream);
        lemma_page_both(before.text, next.text, false);
    }
}

} // verus!

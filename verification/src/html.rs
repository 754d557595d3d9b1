//! The diff as a web page.
use image::DynamicImage;
use vstd::prelude::*;
use vstd::string::*;

use crate::diff::largest_line_number;
use crate::diff::largest_number;
use crate::diff::DiffLine;
use crate::diff::DiffLineView;
use crate::diff::InlineSpanView;
use crate::diff::LineSource;
use crate::html::page::FOOTER;
use crate::html::page::PAGE_SCRIPT;
use crate::html::page::PAGE_START;
use crate::html::page::PAGE_STYLES;
use crate::html::page::STATS_END;
use crate::html::page::STATS_START;
use crate::image_diff::keeps;
use crate::image_diff::picture;
use crate::image_diff::position_of;
use crate::image_diff::CachedImage;
use crate::image_diff::CachedImageView;
use crate::image_diff::ImageCache;
use crate::image_diff::ImageDiffStateView;
use crate::image_diff::KeptView;
use crate::output::OutputData;
use crate::output::OutputFile;
use crate::output::OutputFileView;
use crate::style::Color;
use crate::syntax::StreamView;
use crate::syntax::SyntaxHighlighter;
use crate::syntax::SyntaxSegmentView;
use crate::text::align_right;
use crate::text::append_number;
use crate::text::chars_of;
use crate::text::copies;
use crate::text::decimal;
use crate::text::number;
use crate::text::repeat_char;
use crate::text::right_aligned;
use crate::ui::spans::coalesce_spans;
use crate::ui::spans::coalesced;

pub mod page;
pub mod shown;

verus! {

/// A character as it is written in a page.
pub open spec fn escaped_char(c: char) -> Seq<char> {
    match c {
        '&' => "&amp;"@,
        '<' => "&lt;"@,
        '>' => "&gt;"@,
        '"' => "&quot;"@,
        '\'' => "&#39;"@,
        _ => seq![c],
    }
}

/// Text as it is written in a page.
pub open spec fn escaped(s: Seq<char>) -> Seq<char>
    decreases s.len(),
{
    if s.len() == 0 {
        Seq::empty()
    } else {
        escaped(s.drop_last()) + escaped_char(s.last())
    }
}

/// Text as it is written in a page.
pub fn html_escape(s: &str) -> (r: String)
    ensures
        r@ == escaped(s@),
{
    let cs = chars_of(s);
    let mut out = String::new();
    let mut i: usize = 0;
    assert(cs@.take(0).len() == 0);
    assert(out@ =~= Seq::empty());
    while i < cs.len()
        invariant
            i <= cs@.len(),
            out@ == escaped(cs@.take(i as int)),
        decreases cs.len() - i,
    {
        assert(cs@.take(i + 1).drop_last() =~= cs@.take(i as int));
        let c = cs[i];
        let ghost before = out@;
        match c {
            '&' => out.append("&amp;"),
            '<' => out.append("&lt;"),
            '>' => out.append("&gt;"),
            '"' => out.append("&quot;"),
            '\'' => out.append("&#39;"),
            _ => {
                out.push(c);
                assert(out@ =~= before + seq![c]);
            },
        }
        i = i + 1;
    }
    assert(cs@.take(cs@.len() as int) =~= cs@);
    out
}

/// A colour as it is written in a page, where it is given by its parts.
pub open spec fn css_color(color: Color) -> Option<Seq<char>> {
    match color {
        Color::Rgb(r, g, b) => Some(
            "rgb("@ + decimal(r as nat) + ","@ + decimal(g as nat) + ","@ + decimal(b as nat)
                + ")"@,
        ),
        _ => None,
    }
}

/// A colour as it is written in a page, where it is given by its parts.
pub fn color_to_css(color: Color) -> (r: Option<String>)
    ensures
        r.deep_view() == css_color(color),
{
    match color {
        Color::Rgb(r, g, b) => {
            let mut out = String::from_str("rgb(");
            append_number(&mut out, r as u64);
            out.append(",");
            append_number(&mut out, g as u64);
            out.append(",");
            append_number(&mut out, b as u64);
            out.append(")");
            Some(out)
        },
        _ => None,
    }
}

/// The style of a line.
pub open spec fn line_class(source: LineSource) -> Seq<char> {
    match source {
        LineSource::Base => "line-base"@,
        LineSource::Committed => "line-committed"@,
        LineSource::Staged => "line-staged"@,
        LineSource::Unstaged => "line-unstaged"@,
        LineSource::DeletedBase => "line-del-base"@,
        LineSource::DeletedCommitted => "line-del-committed"@,
        LineSource::DeletedStaged => "line-del-staged"@,
        LineSource::CanceledCommitted | LineSource::CanceledStaged => "line-canceled"@,
        LineSource::FileHeader => "line-header"@,
        LineSource::Elided => "line-elided"@,
    }
}

/// The style of a line.
pub fn source_line_class(source: LineSource) -> (r: &'static str)
    ensures
        r@ == line_class(source),
{
    match source {
        LineSource::Base => "line-base",
        LineSource::Committed => "line-committed",
        LineSource::Staged => "line-staged",
        LineSource::Unstaged => "line-unstaged",
        LineSource::DeletedBase => "line-del-base",
        LineSource::DeletedCommitted => "line-del-committed",
        LineSource::DeletedStaged => "line-del-staged",
        LineSource::CanceledCommitted | LineSource::CanceledStaged => "line-canceled",
        LineSource::FileHeader => "line-header",
        LineSource::Elided => "line-elided",
    }
}

/// The style of a change within a line.
pub open spec fn highlight_class(source: LineSource) -> Seq<char> {
    match source {
        LineSource::Committed => "hl-committed"@,
        LineSource::Staged => "hl-staged"@,
        LineSource::Unstaged => "hl-unstaged"@,
        LineSource::DeletedBase => "hl-del-base"@,
        LineSource::DeletedCommitted => "hl-del-committed"@,
        LineSource::DeletedStaged => "hl-del-staged"@,
        LineSource::CanceledCommitted | LineSource::CanceledStaged => "hl-canceled"@,
        _ => ""@,
    }
}

/// The style of a change within a line.
pub fn source_highlight_class(source: LineSource) -> (r: &'static str)
    ensures
        r@ == highlight_class(source),
{
    match source {
        LineSource::Committed => "hl-committed",
        LineSource::Staged => "hl-staged",
        LineSource::Unstaged => "hl-unstaged",
        LineSource::DeletedBase => "hl-del-base",
        LineSource::DeletedCommitted => "hl-del-committed",
        LineSource::DeletedStaged => "hl-del-staged",
        LineSource::CanceledCommitted | LineSource::CanceledStaged => "hl-canceled",
        _ => "",
    }
}

/// A stretch of a modified line.
pub open spec fn span_html(span: InlineSpanView) -> Seq<char> {
    let class = match span.source {
        Some(source) => highlight_class(source),
        None => ""@,
    };
    if class.len() == 0 && !span.is_deletion {
        escaped(span.text)
    } else {
        "<span class=\""@ + class + (if span.is_deletion {
            " del"@
        } else {
            ""@
        }) + "\">"@ + escaped(span.text) + "</span>"@
    }
}

/// The stretches of a modified line.
pub open spec fn spans_html(spans: Seq<InlineSpanView>) -> Seq<char>
    decreases spans.len(),
{
    if spans.len() == 0 {
        Seq::empty()
    } else {
        spans_html(spans.drop_last()) + span_html(spans.last())
    }
}

/// The stretches of a modified line.
pub fn write_inline_spans(line: &DiffLine) -> (r: String)
    ensures
        r@ == spans_html(coalesced(line.deep_view().inline_spans)),
{
    let given = line.inline_spans.as_slice();
    assert(given.deep_view() =~= line.deep_view().inline_spans);
    let spans = coalesce_spans(given);
    let ghost all = spans.deep_view();
    let mut out = String::new();
    let mut i: usize = 0;
    assert(all.take(0).len() == 0);
    assert(out@ =~= Seq::empty());
    while i < spans.len()
        invariant
            i <= spans@.len(),
            all == spans.deep_view(),
            out@ == spans_html(all.take(i as int)),
        decreases spans.len() - i,
    {
        assert(all.take(i + 1).drop_last() =~= all.take(i as int));
        assert(all[i as int] == spans@[i as int].deep_view());
        let span = &spans[i];
        let ghost before = out@;
        let class = match span.source {
            Some(source) => source_highlight_class(source),
            None => "",
        };
        let text = html_escape(span.text.as_str());
        if class.unicode_len() == 0 && !span.is_deletion {
            out.append(text.as_str());
        } else {
            out.append("<span class=\"");
            out.append(class);
            out.append(
                if span.is_deletion {
                    " del"
                } else {
                    ""
                },
            );
            out.append("\">");
            out.append(text.as_str());
            out.append("</span>");
            assert(out@ =~= before + span_html(span.deep_view()));
        }
        i = i + 1;
    }
    assert(all.take(all.len() as int) =~= all);
    out
}

/// A stretch of text in one colour.
pub open spec fn segment_html(segment: SyntaxSegmentView) -> Seq<char> {
    match css_color(segment.fg_color) {
        Some(color) => "<span style=\"color:"@ + color + "\">"@ + escaped(segment.text)
            + "</span>"@,
        None => escaped(segment.text),
    }
}

/// Stretches of text, each in one colour.
pub open spec fn segments_html(segments: Seq<SyntaxSegmentView>) -> Seq<char>
    decreases segments.len(),
{
    if segments.len() == 0 {
        Seq::empty()
    } else {
        segments_html(segments.drop_last()) + segment_html(segments.last())
    }
}

/// The text of a line as it is highlighted. Text that is all in the colour of plain text stands
/// without any.
pub open spec fn content_html(content: Seq<char>, segments: Seq<SyntaxSegmentView>) -> Seq<char> {
    if segments.len() == 0 || (segments.len() == 1 && segments[0].fg_color == Color::Rgb(
        200,
        200,
        200,
    )) {
        escaped(content)
    } else {
        segments_html(segments)
    }
}

/// The text of a line, highlighted.
pub fn write_syntax_highlighted(
    content: &str,
    file_path: Option<&str>,
    highlighter: &mut SyntaxHighlighter,
) -> (r: String)
    ensures
        r@ == content_html(content@, old(highlighter)@.shows(content@, file_path.deep_view())),
        final(highlighter)@ == old(highlighter)@.past(content@, file_path.deep_view()),
{
    let segments = highlighter.highlight_line(content, file_path);
    let ghost all = segments.deep_view();
    assert(all.len() == segments@.len());
    if segments.len() == 0 {
        return html_escape(content);
    }
    assert(all[0] == segments@[0].deep_view());
    let plain = match segments[0].fg_color {
        Color::Rgb(r, g, b) => r == 200 && g == 200 && b == 200,
        _ => false,
    };
    if segments.len() == 1 && plain {
        return html_escape(content);
    }
    let mut out = String::new();
    let mut i: usize = 0;
    assert(all.take(0).len() == 0);
    assert(out@ =~= Seq::empty());
    while i < segments.len()
        invariant
            i <= segments@.len(),
            all == segments.deep_view(),
            out@ == segments_html(all.take(i as int)),
        decreases segments.len() - i,
    {
        assert(all.take(i + 1).drop_last() =~= all.take(i as int));
        assert(all[i as int] == segments@[i as int].deep_view());
        let text = html_escape(segments[i].text.as_str());
        let ghost before = out@;
        match color_to_css(segments[i].fg_color) {
            Some(color) => {
                out.append("<span style=\"color:");
                out.append(color.as_str());
                out.append("\">");
                out.append(text.as_str());
                out.append("</span>");
                assert(out@ =~= before + segment_html(all[i as int]));
            },
            None => {
                out.append(text.as_str());
            },
        }
        i = i + 1;
    }
    assert(all.take(all.len() as int) =~= all);
    out
}

/// What an image is as a file of the format PNG; nothing where it cannot be written so.
pub uninterp spec fn png_of(picture: (u32, u32, Seq<u8>)) -> Option<Seq<u8>>;

/// `DynamicImage::write_to` in the format PNG, into memory.
#[verifier::external_body]
fn encode_png(image: &DynamicImage) -> (r: Option<Vec<u8>>)
    ensures
        match r {
            Some(bytes) => png_of(picture(*image)) == Some(bytes@),
            None => png_of(picture(*image)) is None,
        },
{
    let mut buffer = std::io::Cursor::new(Vec::new());
    image.write_to(&mut buffer, image::ImageFormat::Png).ok()?;
    Some(buffer.into_inner())
}

/// The character that stands for six bits.
pub open spec fn base64_char(n: nat) -> char {
    if n < 26 {
        (65 + n) as char
    } else if n < 52 {
        (97 + (n - 26)) as char
    } else if n < 62 {
        (48 + (n - 52)) as char
    } else if n == 62 {
        '+'
    } else {
        '/'
    }
}

/// Character `k` of the four that stand for the bytes from byte `at` on, three as far as there
/// are. Missing bytes are padded.
pub open spec fn base64_at(bytes: Seq<u8>, at: int, k: int) -> char {
    let a = bytes[at] as nat;
    let b = if at + 1 < bytes.len() {
        bytes[at + 1] as nat
    } else {
        0
    };
    let c = if at + 2 < bytes.len() {
        bytes[at + 2] as nat
    } else {
        0
    };
    if k >= 2 && at + k > bytes.len() {
        '='
    } else if k == 0 {
        base64_char(a / 4)
    } else if k == 1 {
        base64_char((a % 4) * 16 + b / 16)
    } else if k == 2 {
        base64_char((b % 16) * 4 + c / 64)
    } else {
        base64_char(c % 64)
    }
}

/// Bytes in base 64, with padding.
pub open spec fn base64_text(bytes: Seq<u8>) -> Seq<char> {
    Seq::new(4 * ((bytes.len() + 2) / 3), |i: int| base64_at(bytes, 3 * (i / 4), i % 4))
}

/// `base64::Engine::encode` of the standard engine.
#[verifier::external_body]
fn encode_base64(bytes: &[u8]) -> (r: String)
    ensures
        r@ == base64_text(bytes@),
{
    base64::Engine::encode(&base64::engine::general_purpose::STANDARD, bytes)
}

/// An image as text: a file of the format PNG in base 64.
pub fn encode_image_to_base64(image: &CachedImage) -> (r: Option<String>)
    ensures
        r.deep_view() == (match png_of(image.deep_view().picture) {
            Some(bytes) => Some(base64_text(bytes)),
            None => None,
        }),
{
    match encode_png(&image.display_image) {
        Some(bytes) => Some(encode_base64(bytes.as_slice())),
        None => None,
    }
}

/// An image with what is known of it.
pub open spec fn panel_html(
    image: CachedImageView,
    encoded: Option<Seq<char>>,
    label: Seq<char>,
) -> Seq<char> {
    "<div class=\"image-panel\">\n<div class=\"image-label\">"@ + label + "</div>\n"@ + (
    match encoded {
        Some(data) => "<img src=\"data:image/png;base64,"@ + data + "\" alt=\""@ + label
            + "\">\n"@,
        None => Seq::empty(),
    }) + "<div class=\"meta\">"@ + escaped(image.metadata()) + "</div>\n</div>\n"@
}

/// An image as it is written into the page.
pub open spec fn encoded_image(image: CachedImageView) -> Option<Seq<char>> {
    match png_of(image.picture) {
        Some(bytes) => Some(base64_text(bytes)),
        None => None,
    }
}

/// An image with what is known of it, given how it is written into the page.
pub fn write_encoded_panel(image: &CachedImage, encoded: Option<String>, label: &str) -> (r: String)
    ensures
        r@ == panel_html(image.deep_view(), encoded.deep_view(), label@),
{
    let mut out = String::from_str("<div class=\"image-panel\">\n<div class=\"image-label\">");
    out.append(label);
    out.append("</div>\n");
    let ghost start = out@;
    let mut img = String::new();
    assert(img@ =~= Seq::empty());
    if let Some(data) = &encoded {
        img = String::from_str("<img src=\"data:image/png;base64,");
        img.append(data.as_str());
        img.append("\" alt=\"");
        img.append(label);
        img.append("\">\n");
    }
    out.append(img.as_str());
    out.append("<div class=\"meta\">");
    let meta = image.metadata_string();
    let text = html_escape(meta.as_str());
    out.append(text.as_str());
    out.append("</div>\n</div>\n");
    out
}

/// An image with what is known of it.
pub fn write_image_panel(image: &CachedImage, label: &str) -> (r: String)
    ensures
        r@ == panel_html(image.deep_view(), encoded_image(image.deep_view()), label@),
{
    write_encoded_panel(image, encode_image_to_base64(image), label)
}

/// The images of a file side by side.
pub open spec fn image_html(state: ImageDiffStateView) -> Seq<char> {
    "<tr><td colspan=\"3\"><div class=\"image-container\">\n"@ + (match state.before {
        Some(image) => panel_html(image, encoded_image(image), "before"@),
        None => Seq::empty(),
    }) + (match state.after {
        Some(image) => panel_html(image, encoded_image(image), "after"@),
        None => Seq::empty(),
    }) + "</div></td></tr>\n"@
}

/// The line of an image: the images, or their file where they are not loaded.
pub open spec fn marker_html(path: Option<Seq<char>>, kept: Seq<KeptView>) -> Seq<char> {
    match path {
        Some(path) => if keeps(kept, path) {
            image_html(kept[position_of(kept, path, 0)].state)
        } else {
            "<tr><td colspan=\"3\" class=\"content\">[image: "@ + escaped(path) + "]</td></tr>"@
        },
        None => Seq::empty(),
    }
}

/// The line of an image.
pub fn write_image(line: &DiffLine, images: &ImageCache) -> (r: String)
    ensures
        r@ == marker_html(line.deep_view().file_path, images@),
{
    let mut out = String::new();
    assert(out@ =~= Seq::empty());
    if let Some(path) = &line.file_path {
        match images.peek(path.as_str()) {
            Some(state) => {
                out.append("<tr><td colspan=\"3\"><div class=\"image-container\">\n");
                let mut before = String::new();
                let mut after = String::new();
                assert(before@ =~= Seq::empty());
                assert(after@ =~= Seq::empty());
                if let Some(image) = &state.before {
                    before = write_image_panel(image, "before");
                }
                if let Some(image) = &state.after {
                    after = write_image_panel(image, "after");
                }
                out.append(before.as_str());
                out.append(after.as_str());
                out.append("</div></td></tr>\n");
            },
            None => {
                out.append("<tr><td colspan=\"3\" class=\"content\">[image: ");
                let text = html_escape(path.as_str());
                out.append(text.as_str());
                out.append("]</td></tr>");
            },
        }
    }
    assert(out@ =~= marker_html(line.deep_view().file_path, images@));
    out
}

/// How much of a file changed.
pub open spec fn counts_html(additions: nat, deletions: nat) -> Seq<char> {
    (if additions > 0 {
        " <span class=\"adds\">+"@ + decimal(additions) + "</span>"@
    } else {
        Seq::empty()
    }) + (if deletions > 0 {
        " <span class=\"dels\">-"@ + decimal(deletions) + "</span>"@
    } else {
        Seq::empty()
    })
}

fn write_counts(additions: usize, deletions: usize) -> (r: String)
    ensures
        r@ == counts_html(additions as nat, deletions as nat),
{
    let mut out = String::new();
    assert(out@ =~= Seq::empty());
    if additions > 0 {
        out.append(" <span class=\"adds\">+");
        append_number(&mut out, additions as u64);
        out.append("</span>");
    }
    let ghost added = out@;
    if deletions > 0 {
        let mut text = String::from_str(" <span class=\"dels\">-");
        append_number(&mut text, deletions as u64);
        text.append("</span>");
        out.append(text.as_str());
    }
    assert(out@ =~= counts_html(additions as nat, deletions as nat));
    out
}

/// Lines of a file, and where the highlighter stands behind them.
pub struct Written {
    pub text: Seq<char>,
    pub stream: StreamView,
}

/// A line of a file.
pub open spec fn line_html(
    line: DiffLineView,
    path: Seq<char>,
    kept: Seq<KeptView>,
    width: nat,
    stream: StreamView,
) -> Written {
    let class = if line.move_target is Some {
        "line-moved"@
    } else {
        line_class(line.source)
    };
    if line.source is FileHeader {
        Written { text: Seq::empty(), stream }
    } else if line.marks_image() {
        Written { text: marker_html(line.file_path, kept), stream }
    } else if line.source is Elided {
        Written {
            text: "<tr class=\""@ + class + "\"><td colspan=\"3\">┈┈ ⋮ "@ + escaped(line.content)
                + " ⋮ ┈┈</td></tr>\n"@,
            stream,
        }
    } else {
        let start = "<tr class=\""@ + class + "\"><td class=\"ln\">"@ + (match line.line_number {
            Some(n) => right_aligned(decimal(n as nat), width),
            None => copies(' ', width),
        }) + "</td><td class=\"gutter\">"@ + seq![
            if line.move_target is Some {
                'M'
            } else {
                line.prefix
            },
        ] + "</td><td class=\"content\">"@;
        if line.inline_spans.len() > 0 {
            Written {
                text: start + spans_html(coalesced(line.inline_spans)) + "</td></tr>\n"@,
                stream,
            }
        } else {
            Written {
                text: start + content_html(line.content, stream.shows(line.content, Some(path)))
                    + "</td></tr>\n"@,
                stream: stream.past(line.content, Some(path)),
            }
        }
    }
}

/// Lines of a file.
pub open spec fn lines_html(
    lines: Seq<DiffLineView>,
    path: Seq<char>,
    kept: Seq<KeptView>,
    width: nat,
    stream: StreamView,
) -> Written
    decreases lines.len(),
{
    if lines.len() == 0 {
        Written { text: Seq::empty(), stream }
    } else {
        let before = lines_html(lines.drop_last(), path, kept, width, stream);
        let next = line_html(lines.last(), path, kept, width, before.stream);
        Written { text: before.text + next.text, stream: next.stream }
    }
}

/// A file, which can be collapsed.
pub open spec fn file_html(
    index: nat,
    file: OutputFileView,
    kept: Seq<KeptView>,
    width: nat,
    stream: StreamView,
) -> Written {
    let body = lines_html(file.lines, file.path, kept, width, stream);
    Written {
        text: "<details"@ + (if file.collapsed {
            ""@
        } else {
            " open"@
        }) + " id=\"file-"@ + decimal(index) + "\"><summary>"@ + escaped(file.path) + counts_html(
            file.additions,
            file.deletions,
        ) + "</summary>\n<table>\n"@ + body.text + "</table>\n</details>\n"@,
        stream: body.stream,
    }
}

/// A line of a file.
fn write_line(
    line: &DiffLine,
    path: &str,
    images: &ImageCache,
    line_num_width: usize,
    highlighter: &mut SyntaxHighlighter,
) -> (r: String)
    ensures
        (Written { text: r@, stream: final(highlighter)@ }) == line_html(
            line.deep_view(),
            path@,
            images@,
            line_num_width as nat,
            old(highlighter)@,
        ),
{
    let ghost view = line.deep_view();
    if line.source.is_header() {
        let out = String::new();
        assert(out@ =~= Seq::empty());
        return out;
    }
    if line.is_image_marker() {
        return write_image(line, images);
    }
    let class = if line.move_target.is_some() {
        "line-moved"
    } else {
        source_line_class(line.source)
    };
    let mut out = String::from_str("<tr class=\"");
    out.append(class);
    if let LineSource::Elided = line.source {
        out.append("\"><td colspan=\"3\">┈┈ ⋮ ");
        let text = html_escape(line.content.as_str());
        out.append(text.as_str());
        out.append(" ⋮ ┈┈</td></tr>\n");
        return out;
    }
    out.append("\"><td class=\"ln\">");
    let num = match line.line_number {
        Some(n) => {
            let digits = number(n as u64);
            align_right(digits.as_str(), line_num_width)
        },
        None => repeat_char(' ', line_num_width),
    };
    out.append(num.as_str());
    out.append("</td><td class=\"gutter\">");
    let prefix = if line.move_target.is_some() {
        'M'
    } else {
        line.prefix
    };
    let ghost before = out@;
    out.push(prefix);
    assert(out@ =~= before + seq![prefix]);
    out.append("</td><td class=\"content\">");
    assert(view.inline_spans.len() == line.inline_spans@.len());
    if line.inline_spans.len() > 0 {
        let text = write_inline_spans(line);
        out.append(text.as_str());
    } else {
        let text = write_syntax_highlighted(line.content.as_str(), Some(path), highlighter);
        out.append(text.as_str());
    }
    out.append("</td></tr>\n");
    out
}

/// A file, which can be collapsed.
pub fn write_file(
    file_index: usize,
    file: &OutputFile,
    images: &ImageCache,
    line_num_width: usize,
    highlighter: &mut SyntaxHighlighter,
) -> (r: String)
    ensures
        (Written { text: r@, stream: final(highlighter)@ }) == file_html(
            file_index as nat,
            file.deep_view(),
            images@,
            line_num_width as nat,
            old(highlighter)@,
        ),
{
    let mut out = String::from_str("<details");
    out.append(
        if file.collapsed {
            ""
        } else {
            " open"
        },
    );
    out.append(" id=\"file-");
    append_number(&mut out, file_index as u64);
    out.append("\"><summary>");
    let path = html_escape(file.path.as_str());
    out.append(path.as_str());
    let counts = write_counts(file.additions, file.deletions);
    out.append(counts.as_str());
    out.append("</summary>\n<table>\n");
    let ghost all = file.lines.deep_view();
    let ghost start = highlighter@;
    let mut body = String::new();
    let mut i: usize = 0;
    assert(all.take(0).len() == 0);
    assert(body@ =~= Seq::empty());
    while i < file.lines.len()
        invariant
            i <= file.lines@.len(),
            all == file.lines.deep_view(),
            (Written { text: body@, stream: highlighter@ }) == lines_html(
                all.take(i as int),
                file.path@,
                images@,
                line_num_width as nat,
                start,
            ),
        decreases file.lines.len() - i,
    {
        assert(all.take(i + 1).drop_last() =~= all.take(i as int));
        assert(all[i as int] == file.lines@[i as int].deep_view());
        let line = write_line(
            &file.lines[i],
            file.path.as_str(),
            images,
            line_num_width,
            highlighter,
        );
        body.append(line.as_str());
        i = i + 1;
    }
    assert(all.take(all.len() as int) =~= all);
    out.append(body.as_str());
    out.append("</table>\n</details>\n");
    out
}

/// What is compared with what.
pub open spec fn page_title(data: OutputData) -> Seq<char> {
    data.repo_name@ + " | "@ + data.to_label@ + " vs "@ + data.from_label@
}

/// A line of the list of files.
pub open spec fn entry_html(index: nat, file: OutputFileView) -> Seq<char> {
    "<a href=\"#file-"@ + decimal(index) + "\">"@ + escaped(file.path) + counts_html(
        file.additions,
        file.deletions,
    ) + "</a>\n"@
}

/// The list of files.
pub open spec fn entries_html(files: Seq<OutputFileView>) -> Seq<char>
    decreases files.len(),
{
    if files.len() == 0 {
        Seq::empty()
    } else {
        entries_html(files.drop_last()) + entry_html((files.len() - 1) as nat, files.last())
    }
}

/// The page up to the files.
pub open spec fn header_html(data: OutputData) -> Seq<char> {
    let title = escaped(page_title(data));
    PAGE_START@ + title + PAGE_STYLES@ + title + STATS_START@ + decimal(data.files@.len())
        + " file"@ + (if data.files@.len() == 1 {
        ""@
    } else {
        "s"@
    }) + " · <span class=\"adds\">+"@ + decimal(data.total_additions as nat)
        + "</span> <span class=\"dels\">-"@ + decimal(data.total_deletions as nat) + STATS_END@
        + "<div class=\"toc\">\n<div class=\"toc-title\">Files</div>\n"@ + entries_html(
        data.files.deep_view(),
    ) + "</div>\n"@
}

/// The page up to the files: its styles, what is compared, and a list of the files.
pub fn write_header(data: &OutputData) -> (r: String)
    ensures
        r@ == header_html(*data),
{
    let mut info = data.repo_name.clone();
    info.append(" | ");
    info.append(data.to_label.as_str());
    info.append(" vs ");
    info.append(data.from_label.as_str());
    let title = html_escape(info.as_str());
    let mut out = String::from_str(PAGE_START);
    out.append(title.as_str());
    out.append(PAGE_STYLES);
    out.append(title.as_str());
    out.append(STATS_START);
    append_number(&mut out, data.files.len() as u64);
    out.append(" file");
    out.append(
        if data.files.len() == 1 {
            ""
        } else {
            "s"
        },
    );
    out.append(" · <span class=\"adds\">+");
    append_number(&mut out, data.total_additions as u64);
    out.append("</span> <span class=\"dels\">-");
    append_number(&mut out, data.total_deletions as u64);
    out.append(STATS_END);
    out.append("<div class=\"toc\">\n<div class=\"toc-title\">Files</div>\n");
    let ghost all = data.files.deep_view();
    let mut entries = String::new();
    let mut i: usize = 0;
    assert(all.take(0).len() == 0);
    assert(entries@ =~= Seq::empty());
    while i < data.files.len()
        invariant
            i <= data.files@.len(),
            all == data.files.deep_view(),
            entries@ == entries_html(all.take(i as int)),
        decreases data.files.len() - i,
    {
        assert(all.take(i + 1).drop_last() =~= all.take(i as int));
        assert(all[i as int] == data.files@[i as int].deep_view());
        let file = &data.files[i];
        let mut entry = String::from_str("<a href=\"#file-");
        append_number(&mut entry, i as u64);
        entry.append("\">");
        let path = html_escape(file.path.as_str());
        entry.append(path.as_str());
        let counts = write_counts(file.additions, file.deletions);
        entry.append(counts.as_str());
        entry.append("</a>\n");
        entries.append(entry.as_str());
        i = i + 1;
    }
    assert(all.take(all.len() as int) =~= all);
    out.append(entries.as_str());
    out.append("</div>\n");
    out
}

/// The end of the page.
pub fn write_footer() -> (r: String)
    ensures
        r@ == FOOTER@ + PAGE_SCRIPT@,
{
    let mut out = String::from_str(FOOTER);
    out.append(PAGE_SCRIPT);
    out
}

/// The largest line number in some files, or zero.
pub open spec fn largest_in_files(files: Seq<OutputFileView>) -> nat
    decreases files.len(),
{
    if files.len() == 0 {
        0
    } else {
        let before = largest_in_files(files.drop_last());
        let last = largest_number(files.last().lines);
        if last > before {
            last
        } else {
            before
        }
    }
}

/// Whether any line of some files has a number.
pub open spec fn any_number(files: Seq<OutputFileView>) -> bool {
    exists|i: int, k: int|
        0 <= i < files.len() && 0 <= k < files[i].lines.len() && (
        #[trigger] files[i].lines[k]).line_number is Some
}

/// How many columns line numbers take.
pub open spec fn numbers_width(files: Seq<OutputFileView>) -> nat {
    if any_number(files) {
        decimal(largest_in_files(files)).len()
    } else {
        0
    }
}

/// The files, one after the other.
pub open spec fn files_html(
    files: Seq<OutputFileView>,
    kept: Seq<KeptView>,
    width: nat,
    stream: StreamView,
) -> Written
    decreases files.len(),
{
    if files.len() == 0 {
        Written { text: Seq::empty(), stream }
    } else {
        let before = files_html(files.drop_last(), kept, width, stream);
        let next = file_html((files.len() - 1) as nat, files.last(), kept, width, before.stream);
        Written { text: before.text + next.text, stream: next.stream }
    }
}

/// How many columns line numbers take.
fn measure_numbers(files: &[OutputFile]) -> (r: usize)
    ensures
        r == numbers_width(files.deep_view()),
{
    let ghost all = files.deep_view();
    let mut widest: usize = 0;
    let mut found = false;
    let mut i: usize = 0;
    assert(all.take(0).len() == 0);
    while i < files.len()
        invariant
            i <= files@.len(),
            all == files.deep_view(),
            widest == largest_in_files(all.take(i as int)),
            found ==> any_number(all),
            !found ==> forall|j: int, k: int|
                0 <= j < i && 0 <= k < all[j].lines.len() ==> (
                #[trigger] all[j].lines[k]).line_number is None,
        decreases files.len() - i,
    {
        assert(all.take(i + 1).drop_last() =~= all.take(i as int));
        assert(all[i as int] == files@[i as int].deep_view());
        let lines = files[i].lines.as_slice();
        assert(lines.deep_view() =~= all[i as int].lines);
        let largest = largest_line_number(lines);
        if largest > widest {
            widest = largest;
        }
        let mut k: usize = 0;
        while k < lines.len()
            invariant
                i < files@.len(),
                k <= lines@.len(),
                all == files.deep_view(),
                lines.deep_view() == all[i as int].lines,
                found ==> any_number(all),
                !found ==> forall|j: int, h: int|
                    0 <= j < i && 0 <= h < all[j].lines.len() ==> (
                    #[trigger] all[j].lines[h]).line_number is None,
                !found ==> forall|h: int|
                    0 <= h < k ==> (#[trigger] all[i as int].lines[h]).line_number is None,
            decreases lines.len() - k,
        {
            assert(all[i as int].lines[k as int] == lines@[k as int].deep_view());
            if lines[k].line_number.is_some() {
                assert(all[i as int].lines[k as int].line_number is Some);
                found = true;
            }
            k = k + 1;
        }
        i = i + 1;
    }
    assert(all.take(all.len() as int) =~= all);
    if found {
        number(widest as u64).as_str().unicode_len()
    } else {
        0
    }
}

/// The page: its header, the files with their images, and its end.
pub fn render_html(
    data: &OutputData,
    images: &ImageCache,
    highlighter: &mut SyntaxHighlighter,
) -> (r: String)
    ensures
        ({
            let files = data.files.deep_view();
            let body = files_html(files, images@, numbers_width(files), old(highlighter)@);
            &&& r@ == header_html(*data) + body.text + FOOTER@ + PAGE_SCRIPT@
            &&& final(highlighter)@ == body.stream
        }),
{
    let ghost all = data.files.deep_view();
    let part = data.files.as_slice();
    assert(part.deep_view() =~= all);
    let width = measure_numbers(part);
    let ghost start = highlighter@;
    let mut body = String::new();
    let mut i: usize = 0;
    assert(all.take(0).len() == 0);
    assert(body@ =~= Seq::empty());
    while i < data.files.len()
        invariant
            i <= data.files@.len(),
            all == data.files.deep_view(),
            (Written { text: body@, stream: highlighter@ }) == files_html(
                all.take(i as int),
                images@,
                width as nat,
                start,
            ),
        decreases data.files.len() - i,
    {
        assert(all.take(i + 1).drop_last() =~= all.take(i as int));
        assert(all[i as int] == data.files@[i as int].deep_view());
        let file = write_file(i, &data.files[i], images, width, highlighter);
        body.append(file.as_str());
        i = i + 1;
    }
    assert(all.take(all.len() as int) =~= all);
    let mut out = write_header(data);
    out.append(body.as_str());
    let footer = write_footer();
    out.append(footer.as_str());
    assert(out@ =~= header_html(*data) + body@ + FOOTER@ + PAGE_SCRIPT@);
    out
}

/// Nothing that text holds can be taken for a part of the page: no tag and no quotation mark is
/// left in it.
pub proof fn law_escaped_text_is_inert(s: Seq<char>)
    ensures
        forall|i: int|
            0 <= i < escaped(s).len() ==> {
                let c = #[trigger] escaped(s)[i];
                c != '<' && c != '>' && c != '"' && c != '\''
            },
    decreases s.len(),
{
    if s.len() > 0 {
        law_escaped_text_is_inert(s.drop_last());
        reveal_strlit("&amp;");
        reveal_strlit("&lt;");
        reveal_strlit("&gt;");
        reveal_strlit("&quot;");
        reveal_strlit("&#39;");
        let before = escaped(s.drop_last());
        let last = escaped_char(s.last());
        assert forall|i: int| 0 <= i < escaped(s).len() implies {
            let c = #[trigger] escaped(s)[i];
            c != '<' && c != '>' && c != '"' && c != '\''
        } by {
            if i < before.len() {
                assert(escaped(s)[i] == before[i]);
            } else {
                assert(escaped(s)[i] == last[i - before.len()]);
            }
        }
    }
}

/// Text without any of the characters that are escaped is written as it is.
pub proof fn law_plain_text_is_kept(s: Seq<char>)
    requires
        forall|i: int|
            0 <= i < s.len() ==> {
                let c = #[trigger] s[i];
                c != '&' && c != '<' && c != '>' && c != '"' && c != '\''
            },
    ensures
        escaped(s) == s,
    decreases s.len(),
{
    if s.len() > 0 {
        law_plain_text_is_kept(s.drop_last());
        assert(escaped(s) =~= s);
    }
}

} // verus!

//! The diff as text for a terminal, with escape sequences for the colours.
use vstd::prelude::*;
use vstd::string::*;

use crate::app::App;
use crate::diff::largest_line_number;
use crate::diff::law_largest_number;
use crate::diff::LineSource;
use crate::diff::largest_number;
use crate::diff::DiffLine;
use crate::diff::DiffLineView;
use crate::diff::InlineSpanView;
use crate::scan::is_digit;
use crate::scan::law_numbers_are_read_back;
use crate::scan::lemma_first_piece;
use crate::scan::pieces;
use crate::style::Color;
use crate::style::Style;
use crate::text::align_right;
use crate::text::append_number;
use crate::text::copies;
use crate::text::decimal;
use crate::text::law_alignment_only_adds_spaces;
use crate::text::lemma_larger_numbers_are_longer;
use crate::text::number;
use crate::text::repeat_char;
use crate::text::right_aligned;
use crate::ui::colors::print_line_style;
use crate::ui::colors::style_of_print;
use crate::ui::spans::coalesce_spans;
use crate::ui::spans::coalesced;

verus! {

/// The escape sequence that ends a colour.
pub const RESET: &'static str = "\x1b[0m";

/// The escape sequence of a colour. Colours that are not among those of the terminal have none.
pub open spec fn ansi_color(color: Color) -> Option<Seq<char>> {
    match color {
        Color::Black => Some("\x1b[30m"@),
        Color::Red => Some("\x1b[31m"@),
        Color::Green => Some("\x1b[32m"@),
        Color::Yellow => Some("\x1b[33m"@),
        Color::Blue => Some("\x1b[34m"@),
        Color::Magenta => Some("\x1b[35m"@),
        Color::Cyan => Some("\x1b[36m"@),
        Color::Gray => Some("\x1b[37m"@),
        Color::DarkGray => Some("\x1b[90m"@),
        Color::LightRed => Some("\x1b[91m"@),
        Color::LightGreen => Some("\x1b[92m"@),
        Color::LightYellow => Some("\x1b[93m"@),
        Color::LightBlue => Some("\x1b[94m"@),
        Color::LightMagenta => Some("\x1b[95m"@),
        Color::LightCyan => Some("\x1b[96m"@),
        Color::White => Some("\x1b[97m"@),
        Color::Reset | Color::Rgb(_, _, _) | Color::Indexed(_) => None,
    }
}

/// The escape sequence of a colour.
pub fn color_to_ansi(color: Color) -> (r: Option<&'static str>)
    ensures
        r.deep_view() == ansi_color(color),
{
    match color {
        Color::Black => Some("\x1b[30m"),
        Color::Red => Some("\x1b[31m"),
        Color::Green => Some("\x1b[32m"),
        Color::Yellow => Some("\x1b[33m"),
        Color::Blue => Some("\x1b[34m"),
        Color::Magenta => Some("\x1b[35m"),
        Color::Cyan => Some("\x1b[36m"),
        Color::Gray => Some("\x1b[37m"),
        Color::DarkGray => Some("\x1b[90m"),
        Color::LightRed => Some("\x1b[91m"),
        Color::LightGreen => Some("\x1b[92m"),
        Color::LightYellow => Some("\x1b[93m"),
        Color::LightBlue => Some("\x1b[94m"),
        Color::LightMagenta => Some("\x1b[95m"),
        Color::LightCyan => Some("\x1b[96m"),
        Color::White => Some("\x1b[97m"),
        _ => None,
    }
}

/// The escape sequences of a style: those of its foreground, of bold and of dim text.
pub open spec fn ansi(style: Style) -> Seq<char> {
    (match style.fg {
        Some(color) => match ansi_color(color) {
            Some(code) => code,
            None => Seq::empty(),
        },
        None => Seq::empty(),
    }) + (if style.add_modifier.bold {
        "\x1b[1m"@
    } else {
        Seq::empty()
    }) + (if style.add_modifier.dim {
        "\x1b[2m"@
    } else {
        Seq::empty()
    })
}

/// The escape sequences of a style.
pub fn style_to_ansi(style: Style) -> (r: String)
    ensures
        r@ == ansi(style),
{
    let mut out = String::new();
    assert(out@ =~= Seq::empty());
    if let Some(fg) = style.fg {
        if let Some(code) = color_to_ansi(fg) {
            out.append(code);
        }
    }
    if style.add_modifier.bold {
        out.append("\x1b[1m");
    }
    if style.add_modifier.dim {
        out.append("\x1b[2m");
    }
    assert(out@ =~= ansi(style));
    out
}

/// How many columns line numbers take.
pub open spec fn number_width(lines: Seq<DiffLineView>) -> nat {
    if largest_number(lines) > 0 {
        decimal(largest_number(lines)).len()
    } else {
        0
    }
}

/// A line number in its column, or the empty column.
pub open spec fn printed_number(line: DiffLineView, width: nat) -> Seq<char> {
    match line.line_number {
        Some(n) => right_aligned(decimal(n as nat), width),
        None => copies(' ', width),
    }
}

/// The column of the line number, where there is one.
pub open spec fn number_column(line: DiffLineView, width: nat) -> Seq<char> {
    let text = printed_number(line, width);
    if text.len() > 0 {
        "\x1b[90m"@ + text + " "@ + RESET@
    } else {
        Seq::empty()
    }
}

/// The stretches of a modified line, each in its colour.
pub open spec fn printed_spans(spans: Seq<InlineSpanView>, style: Style) -> Seq<char>
    decreases spans.len(),
{
    if spans.len() == 0 {
        Seq::empty()
    } else {
        let span = spans.last();
        printed_spans(spans.drop_last(), style) + ansi(
            match span.source {
                Some(source) => style_of_print(source),
                None => style,
            },
        ) + span.text + RESET@
    }
}

/// A line of the diff.
pub open spec fn printed_line(line: DiffLineView, width: nat) -> Seq<char> {
    let style = style_of_print(line.source);
    let start = number_column(line, width) + ansi(style);
    if line.source is FileHeader {
        start + "── "@ + line.content + " ──"@ + RESET@ + "\n"@
    } else if line.source is Elided {
        start + "┈┈ ⋮ "@ + line.content + " ⋮ ┈┈"@ + RESET@ + "\n"@
    } else if line.inline_spans.len() > 0 {
        start + seq![line.prefix] + " "@ + printed_spans(coalesced(line.inline_spans), style)
            + "\n"@
    } else {
        start + seq![line.prefix] + " "@ + line.content + RESET@ + "\n"@
    }
}

/// Lines of the diff, one after the other.
pub open spec fn printed_lines(lines: Seq<DiffLineView>, width: nat) -> Seq<char>
    decreases lines.len(),
{
    if lines.len() == 0 {
        Seq::empty()
    } else {
        printed_lines(lines.drop_last(), width) + printed_line(lines.last(), width)
    }
}

/// How many of some lines are changes.
pub open spec fn count_changes(lines: Seq<DiffLineView>) -> nat
    decreases lines.len(),
{
    if lines.len() == 0 {
        0
    } else {
        count_changes(lines.drop_last()) + (if lines.last().source.changes() {
            1nat
        } else {
            0
        })
    }
}

/// The ending of a word that stands for so many things.
pub open spec fn plural(n: nat) -> Seq<char> {
    if n == 1 {
        ""@
    } else {
        "s"@
    }
}

/// What is compared with what, and how much of it changed.
pub open spec fn summary(app: App) -> Seq<char> {
    let files = app.files@.len();
    let changed = count_changes(app.lines.deep_view());
    app.comparison.to_label@ + " vs "@ + app.comparison.from_label@ + " | "@ + decimal(files)
        + " file"@ + plural(files) + " | "@ + decimal(changed) + " line"@ + plural(changed)
}

/// The diff as it is printed.
pub open spec fn printed(app: App) -> Seq<char> {
    let lines = app.lines.deep_view();
    "\x1b[36m"@ + summary(app) + RESET@ + "\n\n"@ + printed_lines(lines, number_width(lines))
}

fn plural_ending(n: usize) -> (r: &'static str)
    ensures
        r@ == plural(n as nat),
{
    if n == 1 {
        ""
    } else {
        "s"
    }
}

/// The stretches of a modified line, each in its colour.
fn print_spans(line: &DiffLine, style: Style) -> (r: String)
    ensures
        r@ == printed_spans(coalesced(line.deep_view().inline_spans), style),
{
    let given = line.inline_spans.as_slice();
    assert(given.deep_view() =~= line.deep_view().inline_spans);
    let spans = coalesce_spans(given);
    let ghost all = spans.deep_view();
    let mut out = String::new();
    let mut i: usize = 0;
    assert(all.take(0).len() == 0);
    assert(out@ =~= Seq::empty());
    while i < spans.len()
        invariant
            i <= spans@.len(),
            all == spans.deep_view(),
            out@ == printed_spans(all.take(i as int), style),
        decreases spans.len() - i,
    {
        assert(all.take(i + 1).drop_last() =~= all.take(i as int));
        assert(all[i as int] == spans@[i as int].deep_view());
        let code = style_to_ansi(
            match spans[i].source {
                Some(source) => print_line_style(source),
                None => style,
            },
        );
        out.append(code.as_str());
        out.append(spans[i].text.as_str());
        out.append(RESET);
        i = i + 1;
    }
    assert(all.take(all.len() as int) =~= all);
    out
}

/// A line of the diff.
pub fn print_line(line: &DiffLine, line_num_width: usize) -> (r: String)
    ensures
        r@ == printed_line(line.deep_view(), line_num_width as nat),
{
    let ghost view = line.deep_view();
    let style = print_line_style(line.source);
    let code = style_to_ansi(style);
    let num = match line.line_number {
        Some(n) => {
            let digits = number(n as u64);
            align_right(digits.as_str(), line_num_width)
        },
        None => repeat_char(' ', line_num_width),
    };
    assert(num@ == printed_number(view, line_num_width as nat));
    let mut out = String::new();
    if num.as_str().unicode_len() > 0 {
        out.append("\x1b[90m");
        out.append(num.as_str());
        out.append(" ");
        out.append(RESET);
    }
    assert(out@ =~= number_column(view, line_num_width as nat));
    out.append(code.as_str());
    match line.source {
        crate::diff::LineSource::FileHeader => {
            out.append("── ");
            out.append(line.content.as_str());
            out.append(" ──");
            out.append(RESET);
            out.append("\n");
            return out;
        },
        crate::diff::LineSource::Elided => {
            out.append("┈┈ ⋮ ");
            out.append(line.content.as_str());
            out.append(" ⋮ ┈┈");
            out.append(RESET);
            out.append("\n");
            return out;
        },
        _ => {},
    }
    let ghost start = out@;
    out.push(line.prefix);
    assert(out@ =~= start + seq![line.prefix]);
    out.append(" ");
    assert(view.inline_spans.len() == line.inline_spans@.len());
    if line.inline_spans.len() > 0 {
        let text = print_spans(line, style);
        out.append(text.as_str());
        out.append("\n");
    } else {
        out.append(line.content.as_str());
        out.append(RESET);
        out.append("\n");
    }
    out
}

/// The diff as it is printed: a summary, and all lines.
pub fn print_diff(app: &App) -> (r: String)
    ensures
        r@ == printed(*app),
{
    let ghost all = app.lines.deep_view();
    let part = app.lines.as_slice();
    assert(part.deep_view() =~= all);
    let widest = largest_line_number(part);
    let mut changed: usize = 0;
    let mut i: usize = 0;
    assert(all.take(0).len() == 0);
    while i < app.lines.len()
        invariant
            i <= app.lines@.len(),
            all == app.lines.deep_view(),
            changed == count_changes(all.take(i as int)),
            changed <= i,
        decreases app.lines.len() - i,
    {
        assert(all.take(i + 1).drop_last() =~= all.take(i as int));
        assert(all[i as int] == app.lines@[i as int].deep_view());
        if app.lines[i].source.is_change() {
            changed = changed + 1;
        }
        i = i + 1;
    }
    assert(all.take(all.len() as int) =~= all);
    let width = if widest > 0 {
        number(widest as u64).as_str().unicode_len()
    } else {
        0
    };
    let files = app.files.len();
    let mut status = app.comparison.to_label.clone();
    status.append(" vs ");
    status.append(app.comparison.from_label.as_str());
    status.append(" | ");
    append_number(&mut status, files as u64);
    status.append(" file");
    status.append(plural_ending(files));
    status.append(" | ");
    append_number(&mut status, changed as u64);
    status.append(" line");
    status.append(plural_ending(changed));
    assert(status@ =~= summary(*app));
    let mut out = String::from_str("\x1b[36m");
    out.append(status.as_str());
    out.append(RESET);
    out.append("\n\n");
    let ghost start = out@;
    i = 0;
    assert(all.take(0).len() == 0);
    assert(out@ =~= start + printed_lines(all.take(0), width as nat));
    while i < app.lines.len()
        invariant
            i <= app.lines@.len(),
            all == app.lines.deep_view(),
            out@ =~= start + printed_lines(all.take(i as int), width as nat),
        decreases app.lines.len() - i,
    {
        assert(all.take(i + 1).drop_last() =~= all.take(i as int));
        assert(all[i as int] == app.lines@[i as int].deep_view());
        let text = print_line(&app.lines[i], width);
        out.append(text.as_str());
        i = i + 1;
    }
    assert(all.take(all.len() as int) =~= all);
    out
}

/// What a terminal shows of a text, and whether an escape sequence is open behind it. A sequence goes
/// from the escape character to the next letter `m`.
pub open spec fn shown_text(s: Seq<char>) -> (Seq<char>, bool)
    decreases s.len(),
{
    if s.len() == 0 {
        (Seq::empty(), false)
    } else {
        let (before, open) = shown_text(s.drop_last());
        if open {
            (before, s.last() != 'm')
        } else if s.last() == '\x1b' {
            (before, true)
        } else {
            (before.push(s.last()), false)
        }
    }
}

/// Whether a text has neither line ends nor escape characters in it.
pub open spec fn is_plain(s: Seq<char>) -> bool {
    !s.contains('\n') && !s.contains('\x1b')
}

/// Whether a line, and the stretches in it, have neither line ends nor escape characters.
pub open spec fn is_plain_line(line: DiffLineView) -> bool {
    &&& is_plain(line.content)
    &&& line.prefix != '\n' && line.prefix != '\x1b'
    &&& forall|i: int|
        0 <= i < coalesced(line.inline_spans).len() ==> is_plain(
            (#[trigger] coalesced(line.inline_spans)[i]).text,
        )
}

/// The texts of stretches, in order.
pub open spec fn texts_of(spans: Seq<InlineSpanView>) -> Seq<char>
    decreases spans.len(),
{
    if spans.len() == 0 {
        Seq::empty()
    } else {
        texts_of(spans.drop_last()) + spans.last().text
    }
}

/// What a terminal shows of a line: its number, aligned to the right, and behind a space its prefix
/// and its text, with the deleted stretches of a modified line. Headings and marks for lines that
/// are left out have no prefix.
pub open spec fn shown_row(line: DiffLineView, width: nat) -> Seq<char> {
    (match line.line_number {
        Some(n) => right_aligned(decimal(n as nat), width) + " "@,
        None => if width > 0 {
            copies(' ', width) + " "@
        } else {
            Seq::empty()
        },
    }) + (match line.source {
        LineSource::FileHeader => "── "@ + line.content + " ──"@,
        LineSource::Elided => "┈┈ ⋮ "@ + line.content + " ⋮ ┈┈"@,
        _ => seq![line.prefix] + " "@ + (if line.inline_spans.len() > 0 {
            texts_of(coalesced(line.inline_spans))
        } else {
            line.content
        }),
    })
}

proof fn lemma_shown_concat(a: Seq<char>, b: Seq<char>)
    requires
        !shown_text(a).1,
    ensures
        shown_text(a + b) == (shown_text(a).0 + shown_text(b).0, shown_text(b).1),
    decreases b.len(),
{
    if b.len() == 0 {
        assert(a + b =~= a);
        assert(shown_text(a).0 + shown_text(b).0 =~= shown_text(a).0);
    } else {
        lemma_shown_concat(a, b.drop_last());
        assert((a + b).drop_last() =~= a + b.drop_last());
        assert(shown_text(a + b).0 =~= shown_text(a).0 + shown_text(b).0);
    }
}

proof fn lemma_shown_plain(s: Seq<char>)
    requires
        !s.contains('\x1b'),
    ensures
        shown_text(s) == (s, false),
    decreases s.len(),
{
    if s.len() == 0 {
        assert(s =~= Seq::empty());
    } else {
        let front = s.drop_last();
        assert forall|k: int| 0 <= k < front.len() implies front[k] != '\x1b' by {
            assert(s.contains(s[k]));
        }
        lemma_shown_plain(front);
        assert(s.contains(s[s.len() - 1]));
        assert(front.push(s.last()) =~= s);
    }
}

/// An escape sequence shows nothing.
proof fn lemma_code_shows_nothing(code: Seq<char>)
    requires
        code.len() >= 2,
        code[0] == '\x1b',
        code.last() == 'm',
        forall|i: int| 0 < i < code.len() - 1 ==> #[trigger] code[i] != 'm',
        !code.contains('\n'),
    ensures
        shown_text(code) == (Seq::<char>::empty(), false),
{
    lemma_code_is_open(code, code.len() - 1);
    assert(code.take(code.len() - 1) =~= code.drop_last());
}

proof fn lemma_code_is_open(code: Seq<char>, n: int)
    requires
        1 <= n < code.len(),
        code[0] == '\x1b',
        forall|i: int| 0 < i < code.len() - 1 ==> #[trigger] code[i] != 'm',
    ensures
        shown_text(code.take(n)) == (Seq::<char>::empty(), true),
    decreases n,
{
    let part = code.take(n);
    assert(part.drop_last() =~= code.take(n - 1));
    if n == 1 {
        reveal_with_fuel(shown_text, 2);
        assert(code.take(0).len() == 0);
    } else {
        lemma_code_is_open(code, n - 1);
        assert(code[n - 1] != 'm');
    }
}

/// Whether a text shows nothing and does not end the line.
spec fn shows_nothing(s: Seq<char>) -> bool {
    shown_text(s) == (Seq::<char>::empty(), false) && !s.contains('\n')
}

proof fn lemma_nothing_twice(a: Seq<char>, b: Seq<char>)
    requires
        shows_nothing(a),
        shows_nothing(b),
    ensures
        shows_nothing(a + b),
{
    lemma_shown_concat(a, b);
    lemma_no_line_end(a, b);
    assert(shown_text(a).0 + shown_text(b).0 =~= Seq::empty());
}

proof fn lemma_no_line_end(a: Seq<char>, b: Seq<char>)
    requires
        !a.contains('\n'),
        !b.contains('\n'),
    ensures
        !(a + b).contains('\n'),
{
    let all = a + b;
    assert forall|k: int| 0 <= k < all.len() implies all[k] != '\n' by {
        if k < a.len() {
            assert(a.contains(a[k]));
        } else {
            assert(b.contains(b[k - a.len()]));
        }
    }
}

proof fn lemma_color_shows_nothing(color: Color)
    ensures
        ansi_color(color) matches Some(code) ==> shows_nothing(code),
{
    reveal_strlit("\x1b[30m");
    reveal_strlit("\x1b[31m");
    reveal_strlit("\x1b[32m");
    reveal_strlit("\x1b[33m");
    reveal_strlit("\x1b[34m");
    reveal_strlit("\x1b[35m");
    reveal_strlit("\x1b[36m");
    reveal_strlit("\x1b[37m");
    reveal_strlit("\x1b[90m");
    reveal_strlit("\x1b[91m");
    reveal_strlit("\x1b[92m");
    reveal_strlit("\x1b[93m");
    reveal_strlit("\x1b[94m");
    reveal_strlit("\x1b[95m");
    reveal_strlit("\x1b[96m");
    reveal_strlit("\x1b[97m");
    if let Some(code) = ansi_color(color) {
        lemma_code_shows_nothing(code);
    }
}

proof fn lemma_style_shows_nothing(style: Style)
    ensures
        shows_nothing(ansi(style)),
{
    reveal_strlit("\x1b[1m");
    reveal_strlit("\x1b[2m");
    lemma_code_shows_nothing("\x1b[1m"@);
    lemma_code_shows_nothing("\x1b[2m"@);
    let none = Seq::<char>::empty();
    assert(shows_nothing(none));
    let fg = match style.fg {
        Some(color) => match ansi_color(color) {
            Some(code) => code,
            None => none,
        },
        None => none,
    };
    if let Some(color) = style.fg {
        lemma_color_shows_nothing(color);
    }
    let bold = if style.add_modifier.bold {
        "\x1b[1m"@
    } else {
        none
    };
    let dim = if style.add_modifier.dim {
        "\x1b[2m"@
    } else {
        none
    };
    lemma_nothing_twice(fg, bold);
    lemma_nothing_twice(fg + bold, dim);
}

proof fn lemma_reset_shows_nothing()
    ensures
        shows_nothing(RESET@),
{
    reveal_strlit("\x1b[0m");
    lemma_code_shows_nothing(RESET@);
}

/// What is shown of a text, behind another one.
proof fn lemma_then_plain(a: Seq<char>, b: Seq<char>)
    requires
        !shown_text(a).1,
        !a.contains('\n'),
        is_plain(b),
    ensures
        shown_text(a + b) == (shown_text(a).0 + b, false),
        !(a + b).contains('\n'),
{
    lemma_shown_plain(b);
    lemma_shown_concat(a, b);
    lemma_no_line_end(a, b);
}

proof fn lemma_then_nothing(a: Seq<char>, b: Seq<char>)
    requires
        !shown_text(a).1,
        !a.contains('\n'),
        shows_nothing(b),
    ensures
        shown_text(a + b) == (shown_text(a).0, false),
        !(a + b).contains('\n'),
{
    lemma_shown_concat(a, b);
    lemma_no_line_end(a, b);
    assert(shown_text(a).0 + shown_text(b).0 =~= shown_text(a).0);
}

proof fn lemma_printed_spans(spans: Seq<InlineSpanView>, style: Style)
    requires
        forall|i: int| 0 <= i < spans.len() ==> is_plain((#[trigger] spans[i]).text),
    ensures
        shown_text(printed_spans(spans, style)) == (texts_of(spans), false),
        !printed_spans(spans, style).contains('\n'),
    decreases spans.len(),
{
    if spans.len() > 0 {
        let front = spans.drop_last();
        let span = spans.last();
        assert forall|i: int| 0 <= i < front.len() implies is_plain((#[trigger] front[i]).text) by {
            assert(front[i] == spans[i]);
        }
        lemma_printed_spans(front, style);
        assert(is_plain(spans[spans.len() - 1].text));
        let own = match span.source {
            Some(source) => style_of_print(source),
            None => style,
        };
        let start = printed_spans(front, style);
        lemma_style_shows_nothing(own);
        lemma_reset_shows_nothing();
        lemma_then_nothing(start, ansi(own));
        lemma_then_plain(start + ansi(own), span.text);
        lemma_then_nothing(start + ansi(own) + span.text, RESET@);
    }
}

proof fn lemma_number_column(line: DiffLineView, width: nat)
    ensures
        ({
            let column = number_column(line, width);
            &&& shown_text(column) == (
                match line.line_number {
                    Some(n) => right_aligned(decimal(n as nat), width) + " "@,
                    None => if width > 0 {
                        copies(' ', width) + " "@
                    } else {
                        Seq::empty()
                    },
                },
                false,
            )
            &&& !column.contains('\n')
        }),
{
    reveal_strlit(" ");
    let text = printed_number(line, width);
    if let Some(n) = line.line_number {
        law_numbers_are_read_back(n as nat);
        law_alignment_only_adds_spaces(decimal(n as nat), width);
        let digits = decimal(n as nat);
        let pad = text.len() - digits.len();
        assert forall|k: int| 0 <= k < text.len() implies text[k] != '\n' && text[k] != '\x1b' by {
            if k >= pad {
                assert(text.skip(pad)[k - pad] == digits[k - pad]);
                assert(is_digit(digits[k - pad]));
            } else {
                assert(right_aligned(digits, width)[k] == ' ');
            }
        }
    }
    assert(is_plain(text));
    lemma_color_shows_nothing(Color::DarkGray);
    lemma_reset_shows_nothing();
    let start = "\x1b[90m"@;
    lemma_then_plain(start, text);
    lemma_then_plain(start + text, " "@);
    lemma_then_nothing(start + text + " "@, RESET@);
    assert(shown_text(start).0 + text + " "@ =~= text + " "@);
}

proof fn lemma_printed_line(line: DiffLineView, width: nat)
    requires
        is_plain_line(line),
    ensures
        exists|row: Seq<char>|
            #![trigger row.push('\n')]
            printed_line(line, width) == row.push('\n') && !row.contains('\n') && shown_text(row)
                == (shown_row(line, width), false),
{
    reveal_strlit("\n");
    reveal_strlit(" ");
    reveal_strlit("── ");
    reveal_strlit(" ──");
    reveal_strlit("┈┈ ⋮ ");
    reveal_strlit(" ⋮ ┈┈");
    let style = style_of_print(line.source);
    let column = number_column(line, width);
    let start = column + ansi(style);
    lemma_number_column(line, width);
    lemma_style_shows_nothing(style);
    lemma_reset_shows_nothing();
    lemma_then_nothing(column, ansi(style));
    let shown = shown_text(start).0;
    if line.source is FileHeader {
        let (a, b) = ("── "@, " ──"@);
        lemma_then_plain(start, a);
        lemma_then_plain(start + a, line.content);
        lemma_then_plain(start + a + line.content, b);
        let row = start + a + line.content + b + RESET@;
        lemma_then_nothing(start + a + line.content + b, RESET@);
        assert(shown_text(row).0 =~= shown + (a + line.content + b));
        assert(printed_line(line, width) =~= row.push('\n'));
    } else if line.source is Elided {
        let (a, b) = ("┈┈ ⋮ "@, " ⋮ ┈┈"@);
        lemma_then_plain(start, a);
        lemma_then_plain(start + a, line.content);
        lemma_then_plain(start + a + line.content, b);
        let row = start + a + line.content + b + RESET@;
        lemma_then_nothing(start + a + line.content + b, RESET@);
        assert(shown_text(row).0 =~= shown + (a + line.content + b));
        assert(printed_line(line, width) =~= row.push('\n'));
    } else {
        let mark = seq![line.prefix];
        assert(is_plain(mark));
        lemma_then_plain(start, mark);
        lemma_then_plain(start + mark, " "@);
        let lead = start + mark + " "@;
        if line.inline_spans.len() > 0 {
            let spans = coalesced(line.inline_spans);
            let text = printed_spans(spans, style);
            lemma_printed_spans(spans, style);
            lemma_shown_concat(lead, text);
            lemma_no_line_end(lead, text);
            let row = lead + text;
            assert(shown_text(row).0 =~= shown + (mark + " "@ + texts_of(spans)));
            assert(printed_line(line, width) =~= row.push('\n'));
        } else {
            lemma_then_plain(lead, line.content);
            lemma_then_nothing(lead + line.content, RESET@);
            let row = lead + line.content + RESET@;
            assert(shown_text(row).0 =~= shown + (mark + " "@ + line.content));
            assert(printed_line(line, width) =~= row.push('\n'));
        }
    }
}

proof fn lemma_printed_lines_concat(a: Seq<DiffLineView>, b: Seq<DiffLineView>, width: nat)
    ensures
        printed_lines(a + b, width) == printed_lines(a, width) + printed_lines(b, width),
    decreases b.len(),
{
    if b.len() == 0 {
        assert(a + b =~= a);
        assert(printed_lines(a, width) + printed_lines(b, width) =~= printed_lines(a, width));
    } else {
        lemma_printed_lines_concat(a, b.drop_last(), width);
        assert((a + b).drop_last() =~= a + b.drop_last());
        assert(printed_lines(a + b, width) =~= printed_lines(a, width) + printed_lines(b, width));
    }
}

/// Every line is printed once, in order, whatever its source: each has a row of its own, on which a
/// terminal shows its number, its prefix and its text.
pub proof fn law_every_line_is_printed(lines: Seq<DiffLineView>, width: nat)
    requires
        forall|i: int| 0 <= i < lines.len() ==> is_plain_line(#[trigger] lines[i]),
    ensures
        ({
            let rows = pieces(printed_lines(lines, width), '\n');
            &&& rows.len() == lines.len() + 1
            &&& rows.last().len() == 0
            &&& forall|i: int|
                0 <= i < lines.len() ==> shown_text(#[trigger] rows[i]) == (
                    shown_row(lines[i], width),
                    false,
                )
        }),
    decreases lines.len(),
{
    let text = printed_lines(lines, width);
    let rows = pieces(text, '\n');
    if lines.len() > 0 {
        let line = lines[0];
        let tail = lines.skip(1);
        assert(is_plain_line(line));
        assert forall|i: int| 0 <= i < tail.len() implies is_plain_line(#[trigger] tail[i]) by {
            assert(tail[i] == lines[i + 1]);
        }
        law_every_line_is_printed(tail, width);
        lemma_printed_line(line, width);
        let row = choose|row: Seq<char>|
            #![trigger row.push('\n')]
            printed_line(line, width) == row.push('\n') && !row.contains('\n') && shown_text(row)
                == (shown_row(line, width), false);
        let one = seq![line];
        assert(lines =~= one + tail);
        lemma_printed_lines_concat(one, tail, width);
        assert(one.drop_last().len() == 0);
        assert(printed_lines(one, width) =~= row.push('\n')) by {
            reveal_with_fuel(printed_lines, 2);
        }
        lemma_first_piece(row, printed_lines(tail, width), '\n');
        let rest = pieces(printed_lines(tail, width), '\n');
        assert(rows == seq![row] + rest);
        assert forall|i: int| 0 <= i < lines.len() implies shown_text(#[trigger] rows[i]) == (
            shown_row(lines[i], width),
            false,
        ) by {
            if i > 0 {
                assert(rows[i] == rest[i - 1]);
                assert(tail[i - 1] == lines[i]);
            }
        }
        assert(rows.last() == rest.last());
    }
}

/// The column of the line numbers is as wide as the longest of them.
pub proof fn law_numbers_fit_their_column(lines: Seq<DiffLineView>)
    ensures
        forall|i: int|
            0 <= i < lines.len() ==> ((#[trigger] lines[i]).line_number matches Some(n) ==> n > 0
                ==> decimal(n as nat).len() <= number_width(lines)),
        number_width(lines) > 0 ==> exists|i: int|
            0 <= i < lines.len() && (#[trigger] lines[i]).line_number is Some && decimal(
                lines[i].line_number->0 as nat,
            ).len() == number_width(lines),
{
    law_largest_number(lines);
    assert forall|i: int| 0 <= i < lines.len() implies ((
    #[trigger] lines[i]).line_number matches Some(n) ==> n > 0 ==> decimal(n as nat).len()
        <= number_width(lines)) by {
        if let Some(n) = lines[i].line_number {
            lemma_larger_numbers_are_longer(n as nat, largest_number(lines));
        }
    }
    if largest_number(lines) > 0 {
        let i = choose|i: int|
            0 <= i < lines.len() && (#[trigger] lines[i]).line_number == Some(
                largest_number(lines) as usize,
            );
        assert(lines[i].line_number is Some);
    }
}

/// Whether a line counts as changed: added and deleted lines do, and those that were both.
pub open spec fn is_changed_line(line: DiffLineView) -> bool {
    match line.source {
        LineSource::Base | LineSource::FileHeader | LineSource::Elided => false,
        _ => true,
    }
}

proof fn lemma_count_changes(lines: Seq<DiffLineView>)
    ensures
        count_changes(lines) == lines.filter(|line: DiffLineView| is_changed_line(line)).len(),
    decreases lines.len(),
{
    reveal(Seq::filter);
    if lines.len() > 0 {
        lemma_count_changes(lines.drop_last());
    }
}

/// What is printed begins with a row that tells what is compared with what, how many files there
/// are and how many lines changed; behind an empty row follow the lines.
#[verifier::rlimit(40)]
#[verifier::spinoff_prover]
pub proof fn law_printed_diff_begins_with_a_summary(app: App)
    requires
        is_plain(app.comparison.to_label@),
        is_plain(app.comparison.from_label@),
    ensures
        ({
            let lines = app.lines.deep_view();
            let rows = pieces(printed(app), '\n');
            let files = app.files@.len();
            let changed = lines.filter(|line: DiffLineView| is_changed_line(line)).len();
            &&& rows == seq![rows[0], Seq::<char>::empty()] + pieces(
                printed_lines(lines, number_width(lines)),
                '\n',
            )
            &&& shown_text(rows[0]) == (
                app.comparison.to_label@ + " vs "@ + app.comparison.from_label@ + " | "@ + decimal(
                    files,
                ) + (if files == 1 {
                    " file | "@
                } else {
                    " files | "@
                }) + decimal(changed) + (if changed == 1 {
                    " line"@
                } else {
                    " lines"@
                }),
                false,
            )
        }),
{
    reveal_strlit(" vs ");
    reveal_strlit(" | ");
    reveal_strlit(" file");
    reveal_strlit(" line");
    reveal_strlit("s");
    reveal_strlit("");
    reveal_strlit(" file | ");
    reveal_strlit(" files | ");
    reveal_strlit(" lines");
    reveal_strlit("\n\n");
    let lines = app.lines.deep_view();
    let files = app.files@.len();
    let changed = count_changes(lines);
    lemma_count_changes(lines);
    lemma_color_shows_nothing(Color::Cyan);
    lemma_reset_shows_nothing();
    lemma_plain_number(files);
    lemma_plain_number(changed);
    let start = "\x1b[36m"@;
    let (to, from) = (app.comparison.to_label@, app.comparison.from_label@);
    let (count, number) = (decimal(files), decimal(changed));
    lemma_plain_concat(to, " vs "@);
    lemma_plain_concat(to + " vs "@, from);
    lemma_plain_concat(to + " vs "@ + from, " | "@);
    let labels = to + " vs "@ + from + " | "@;
    lemma_plain_concat(labels, count);
    lemma_plain_concat(labels + count, " file"@);
    lemma_plain_concat(labels + count + " file"@, plural(files));
    lemma_plain_concat(labels + count + " file"@ + plural(files), " | "@);
    let middle = labels + count + " file"@ + plural(files) + " | "@;
    lemma_plain_concat(middle, number);
    lemma_plain_concat(middle + number, " line"@);
    lemma_plain_concat(middle + number + " line"@, plural(changed));
    let text = summary(app);
    assert(text == middle + number + " line"@ + plural(changed));
    lemma_then_plain(start, text);
    lemma_then_nothing(start + text, RESET@);
    let row = start + text + RESET@;
    let none = Seq::<char>::empty();
    let rest = printed_lines(lines, number_width(lines));
    assert(printed(app) =~= row.push('\n') + (none.push('\n') + rest));
    lemma_first_piece(row, none.push('\n') + rest, '\n');
    lemma_first_piece(none, rest, '\n');
    assert(shown_text(start).0 + text =~= text);
    assert(" file"@ + plural(files) + " | "@ =~= (if files == 1 {
        " file | "@
    } else {
        " files | "@
    }));
    assert(" line"@ + plural(changed) =~= (if changed == 1 {
        " line"@
    } else {
        " lines"@
    }));
    assert(text =~= labels + count + (" file"@ + plural(files) + " | "@) + number + (" line"@
        + plural(changed)));
    assert(pieces(printed(app), '\n') =~= seq![row, none] + pieces(rest, '\n'));
}

proof fn lemma_plain_concat(a: Seq<char>, b: Seq<char>)
    requires
        is_plain(a),
        is_plain(b),
    ensures
        is_plain(a + b),
{
    let all = a + b;
    assert forall|k: int| 0 <= k < all.len() implies all[k] != '\n' && all[k] != '\x1b' by {
        if k < a.len() {
            assert(a.contains(a[k]));
        } else {
            assert(b.contains(b[k - a.len()]));
        }
    }
}

proof fn lemma_plain_number(n: nat)
    ensures
        is_plain(decimal(n)),
{
    law_numbers_are_read_back(n);
    let text = decimal(n);
    assert forall|k: int| 0 <= k < text.len() implies text[k] != '\n' && text[k] != '\x1b' by {
        assert(is_digit(text[k]));
    }
}

} // verus!

//! The keys, and what the colours mean.
use vstd::prelude::*;
use vstd::string::*;

use crate::app::VcsBackend;
use crate::diff::LineSource;
use crate::style::plain_style;
use crate::style::raw;
use crate::style::styled;
use crate::style::Color;
use crate::style::Line;
use crate::style::Rect;
use crate::style::Span;
use crate::style::SpanView;
use crate::style::Style;
use crate::text::align_left;
use crate::text::left_aligned;
use crate::ui::colors::highlight_bg;
use crate::ui::colors::highlight_bg_color;
use crate::ui::colors::line_bg;
use crate::ui::colors::line_bg_color;
use crate::ui::diff_view::gutter_symbol;

verus! {

/// What the colours and the marks of the gutter are called.
#[derive(Clone, Copy, Debug)]
pub struct ColorLabels {
    pub committed: &'static str,
    pub committed_sym: &'static str,
    pub staged: &'static str,
    pub staged_sym: &'static str,
    pub unstaged: &'static str,
    pub del_committed: &'static str,
    pub del_committed_sym: &'static str,
    pub del_staged: &'static str,
    pub del_staged_sym: &'static str,
    pub del_unstaged: &'static str,
}

/// What the colours and the marks of the gutter are called: in Git after the states of a change,
/// in Jujutsu after the commits that it is in.
#[verifier::allow_in_spec]
pub fn color_labels(backend: VcsBackend) -> ColorLabels
    returns
        (match backend {
            VcsBackend::Jj => (ColorLabels {
                committed: "Added (earlier commits)",
                committed_sym: " ",
                staged: "Added (current commit)",
                staged_sym: "@",
                unstaged: "Added (later commits)",
                del_committed: "Deleted (earlier commits)",
                del_committed_sym: " ",
                del_staged: "Deleted (current commit)",
                del_staged_sym: "@",
                del_unstaged: "Deleted (later commits)",
            }),
            VcsBackend::Git => (ColorLabels {
                committed: "Added (committed)",
                committed_sym: "C",
                staged: "Added (staged)",
                staged_sym: "S",
                unstaged: "Added (unstaged)",
                del_committed: "Deleted (committed)",
                del_committed_sym: "C",
                del_staged: "Deleted (staged)",
                del_staged_sym: "S",
                del_unstaged: "Deleted (unstaged)",
            }),
        }),
{
    match backend {
        VcsBackend::Jj => ColorLabels {
            committed: "Added (earlier commits)",
            committed_sym: " ",
            staged: "Added (current commit)",
            staged_sym: "@",
            unstaged: "Added (later commits)",
            del_committed: "Deleted (earlier commits)",
            del_committed_sym: " ",
            del_staged: "Deleted (current commit)",
            del_staged_sym: "@",
            del_unstaged: "Deleted (later commits)",
        },
        VcsBackend::Git => ColorLabels {
            committed: "Added (committed)",
            committed_sym: "C",
            staged: "Added (staged)",
            staged_sym: "S",
            unstaged: "Added (unstaged)",
            del_committed: "Deleted (committed)",
            del_committed_sym: "C",
            del_staged: "Deleted (staged)",
            del_staged_sym: "S",
            del_unstaged: "Deleted (unstaged)",
        },
    }
}

/// A heading.
pub open spec fn heading(text: Seq<char>) -> Seq<SpanView> {
    seq![styled(text, plain_style().with_bold().with_fg(Color::White))]
}

/// Keys and what they do.
pub open spec fn key_row(keys: Seq<char>, text: Seq<char>) -> Seq<SpanView> {
    seq![styled(keys, plain_style().with_fg(Color::Cyan)), raw(text)]
}

/// A colour and what it means, as a line of the diff would show it.
pub open spec fn swatch(sign: char, symbol: Seq<char>, label: Seq<char>, bg: Color) -> Seq<
    SpanView,
> {
    colored(" "@ + seq![sign] + " "@ + symbol + " "@ + left_aligned(label, 32), bg)
}

/// Text on a background.
pub open spec fn colored(text: Seq<char>, bg: Color) -> Seq<SpanView> {
    seq![raw("   "@), styled(text, plain_style().with_bg(bg))]
}

pub open spec fn empty_row() -> Seq<SpanView> {
    Seq::empty()
}

/// How to move.
pub open spec fn navigation_rows() -> Seq<Seq<SpanView>> {
    seq![
        empty_row(),
        heading("  Navigation"@),
        empty_row(),
        key_row("    j / k       "@, "  Next / previous file"@),
        key_row("    ↓ / ↑       "@, "  Scroll up/down"@),
        key_row("    Ctrl+d / u  "@, "  Page down / up"@),
        key_row("    g / G       "@, "  Go to top / bottom"@),
        key_row("    Mouse       "@, "  Scroll, select, collapse"@),
    ]
}

/// What can be done.
pub open spec fn action_rows() -> Seq<Seq<SpanView>> {
    seq![
        empty_row(),
        heading("  Actions"@),
        empty_row(),
        key_row("    c           "@, "  Cycle view (full/ctx/chg/cmt/bm)"@),
        key_row("    m           "@, "  Toggle diff base (fork/tip)"@),
        key_row("    r           "@, "  Mark file reviewed"@),
        key_row("    R           "@, "  Review/unreview all files"@),
        key_row("    p           "@, "  Copy file path"@),
        key_row("    Y           "@, "  Copy entire diff"@),
        key_row("    D           "@, "  Copy git patch format"@),
        key_row("    q / Esc / ^c"@, "  Quit"@),
        key_row("    / or Ctrl+f "@, "  Search in diff"@),
        key_row("    Enter       "@, "  Next search match"@),
        key_row("    Shift+Enter "@, "  Previous search match"@),
        key_row("    ?           "@, "  Toggle this help"@),
    ]
}

/// What the colours of lines mean.
pub open spec fn color_rows(labels: ColorLabels) -> Seq<Seq<SpanView>> {
    seq![
        empty_row(),
        heading("  Line Colors"@),
        empty_row(),
        seq![raw("   "@), raw("     Base (unchanged context)        "@)],
        swatch('+', labels.committed_sym@, labels.committed@, line_bg(LineSource::Committed)),
        swatch('+', labels.staged_sym@, labels.staged@, line_bg(LineSource::Staged)),
        swatch('+', " "@, labels.unstaged@, line_bg(LineSource::Unstaged)),
        swatch('-', labels.del_committed_sym@, labels.del_committed@, line_bg(LineSource::DeletedBase)),
        swatch('-', labels.del_staged_sym@, labels.del_staged@, line_bg(LineSource::DeletedCommitted)),
        swatch('-', " "@, labels.del_unstaged@, line_bg(LineSource::DeletedStaged)),
        colored(" ±   Canceled (added then removed)   "@, line_bg(LineSource::CanceledCommitted)),
    ]
}

/// What the colours within lines mean.
pub open spec fn highlight_rows(labels: ColorLabels) -> Seq<Seq<SpanView>> {
    seq![
        empty_row(),
        heading("  Inline Highlights"@),
        empty_row(),
        swatch('+', labels.committed_sym@, labels.committed@ + " highlight"@, highlight_bg(LineSource::Committed)),
        swatch('+', labels.staged_sym@, labels.staged@ + " highlight"@, highlight_bg(LineSource::Staged)),
        swatch('+', " "@, labels.unstaged@ + " highlight"@, highlight_bg(LineSource::Unstaged)),
        swatch('-', labels.del_committed_sym@, labels.del_committed@ + " highlight"@, highlight_bg(LineSource::DeletedBase)),
        swatch('-', labels.del_staged_sym@, labels.del_staged@ + " highlight"@, highlight_bg(LineSource::DeletedCommitted)),
        swatch('-', " "@, labels.del_unstaged@ + " highlight"@, highlight_bg(LineSource::DeletedStaged)),
    ]
}

/// All that the help shows.
pub open spec fn help_rows(backend: VcsBackend) -> Seq<Seq<SpanView>> {
    let labels = color_labels(backend);
    navigation_rows() + action_rows() + color_rows(labels) + highlight_rows(labels)
}

/// The middle of an area, as large as asked for or as the area is.
pub open spec fn centered(area: Rect, width: u16, height: u16) -> Rect {
    Rect {
        x: if area.width >= width {
            ((area.width - width) / 2) as u16
        } else {
            0
        },
        y: if area.height >= height {
            ((area.height - height) / 2) as u16
        } else {
            0
        },
        width: if width <= area.width {
            width
        } else {
            area.width
        },
        height: if height <= area.height {
            height
        } else {
            area.height
        },
    }
}

/// The middle of an area.
pub fn modal_area(area: Rect, width: u16, height: u16) -> (r: Rect)
    ensures
        r == centered(area, width, height),
{
    Rect {
        x: area.width.saturating_sub(width) / 2,
        y: area.height.saturating_sub(height) / 2,
        width: if width <= area.width {
            width
        } else {
            area.width
        },
        height: if height <= area.height {
            height
        } else {
            area.height
        },
    }
}

fn push_row(out: &mut Vec<Line>, spans: Vec<Span>)
    ensures
        final(out).deep_view() == old(out).deep_view().push(spans.deep_view()),
{
    let ghost before = out.deep_view();
    let line = Line { spans };
    out.push(line);
    assert(out.deep_view() =~= before.push(line.deep_view()));
}

fn push_empty(out: &mut Vec<Line>)
    ensures
        final(out).deep_view() == old(out).deep_view().push(empty_row()),
{
    let spans: Vec<Span> = Vec::new();
    assert(spans.deep_view() =~= empty_row());
    push_row(out, spans);
}

fn push_heading(out: &mut Vec<Line>, text: &str)
    ensures
        final(out).deep_view() == old(out).deep_view().push(empty_row()).push(heading(text@)).push(
            empty_row(),
        ),
{
    push_empty(out);
    let mut spans: Vec<Span> = Vec::new();
    spans.push(Span::styled(text.to_string(), Style::default().bold().fg(Color::White)));
    assert(spans.deep_view() =~= heading(text@));
    push_row(out, spans);
    push_empty(out);
}

fn push_key(out: &mut Vec<Line>, keys: &str, text: &str)
    ensures
        final(out).deep_view() == old(out).deep_view().push(key_row(keys@, text@)),
{
    let mut spans: Vec<Span> = Vec::new();
    spans.push(Span::styled(keys.to_string(), Style::default().fg(Color::Cyan)));
    spans.push(Span::raw(text.to_string()));
    assert(spans.deep_view() =~= key_row(keys@, text@));
    push_row(out, spans);
}

fn push_colored(out: &mut Vec<Line>, text: String, bg: Color)
    ensures
        final(out).deep_view() == old(out).deep_view().push(colored(text@, bg)),
{
    let mut spans: Vec<Span> = Vec::new();
    spans.push(Span::raw(String::from_str("   ")));
    spans.push(Span::styled(text, Style::default().bg(bg)));
    assert(spans.deep_view() =~= colored(text@, bg));
    push_row(out, spans);
}

fn push_swatch(
    out: &mut Vec<Line>,
    sign: char,
    symbol: &str,
    label: &str,
    highlight: bool,
    bg: Color,
)
    ensures
        final(out).deep_view() == old(out).deep_view().push(
            swatch(
                sign,
                symbol@,
                if highlight {
                    label@ + " highlight"@
                } else {
                    label@
                },
                bg,
            ),
        ),
{
    let mut text = String::from_str(" ");
    let ghost start = text@;
    text.push(sign);
    assert(text@ =~= start + seq![sign]);
    text.append(" ");
    text.append(symbol);
    text.append(" ");
    let mut name = label.to_string();
    if highlight {
        name.append(" highlight");
    }
    let padded = align_left(name.as_str(), 32);
    text.append(padded.as_str());
    push_colored(out, text, bg);
}

/// How to move.
fn draw_navigation() -> (r: Vec<Line>)
    ensures
        r.deep_view() == navigation_rows(),
{
    let mut out: Vec<Line> = Vec::new();
    assert(out.deep_view() =~= Seq::empty());
    push_heading(&mut out, "  Navigation");
    push_key(&mut out, "    j / k       ", "  Next / previous file");
    push_key(&mut out, "    ↓ / ↑       ", "  Scroll up/down");
    push_key(&mut out, "    Ctrl+d / u  ", "  Page down / up");
    push_key(&mut out, "    g / G       ", "  Go to top / bottom");
    push_key(&mut out, "    Mouse       ", "  Scroll, select, collapse");
    assert(out.deep_view() =~= navigation_rows());
    out
}

/// What can be done.
fn draw_actions() -> (r: Vec<Line>)
    ensures
        r.deep_view() == action_rows(),
{
    let mut out: Vec<Line> = Vec::new();
    assert(out.deep_view() =~= Seq::empty());
    push_heading(&mut out, "  Actions");
    push_key(&mut out, "    c           ", "  Cycle view (full/ctx/chg/cmt/bm)");
    push_key(&mut out, "    m           ", "  Toggle diff base (fork/tip)");
    push_key(&mut out, "    r           ", "  Mark file reviewed");
    push_key(&mut out, "    R           ", "  Review/unreview all files");
    push_key(&mut out, "    p           ", "  Copy file path");
    push_key(&mut out, "    Y           ", "  Copy entire diff");
    push_key(&mut out, "    D           ", "  Copy git patch format");
    push_key(&mut out, "    q / Esc / ^c", "  Quit");
    push_key(&mut out, "    / or Ctrl+f ", "  Search in diff");
    push_key(&mut out, "    Enter       ", "  Next search match");
    push_key(&mut out, "    Shift+Enter ", "  Previous search match");
    push_key(&mut out, "    ?           ", "  Toggle this help");
    assert(out.deep_view() =~= action_rows());
    out
}

/// What the colours of lines mean.
fn draw_colors(labels: &ColorLabels) -> (r: Vec<Line>)
    ensures
        r.deep_view() == color_rows(*labels),
{
    let mut out: Vec<Line> = Vec::new();
    assert(out.deep_view() =~= Seq::empty());
    push_heading(&mut out, "  Line Colors");
    let mut base: Vec<Span> = Vec::new();
    base.push(Span::raw(String::from_str("   ")));
    base.push(Span::raw(String::from_str("     Base (unchanged context)        ")));
    assert(base.deep_view() =~= seq![
        raw("   "@),
        raw("     Base (unchanged context)        "@),
    ]);
    push_row(&mut out, base);
    push_swatch(&mut out, '+', labels.committed_sym, labels.committed, false, line_bg_color(LineSource::Committed));
    push_swatch(&mut out, '+', labels.staged_sym, labels.staged, false, line_bg_color(LineSource::Staged));
    push_swatch(&mut out, '+', " ", labels.unstaged, false, line_bg_color(LineSource::Unstaged));
    push_swatch(&mut out, '-', labels.del_committed_sym, labels.del_committed, false, line_bg_color(LineSource::DeletedBase));
    push_swatch(&mut out, '-', labels.del_staged_sym, labels.del_staged, false, line_bg_color(LineSource::DeletedCommitted));
    push_swatch(&mut out, '-', " ", labels.del_unstaged, false, line_bg_color(LineSource::DeletedStaged));
    push_colored(
        &mut out,
        String::from_str(" ±   Canceled (added then removed)   "),
        line_bg_color(LineSource::CanceledCommitted),
    );
    assert(out.deep_view() =~= color_rows(*labels));
    out
}

/// What the colours within lines mean.
fn draw_highlights(labels: &ColorLabels) -> (r: Vec<Line>)
    ensures
        r.deep_view() == highlight_rows(*labels),
{
    let mut out: Vec<Line> = Vec::new();
    assert(out.deep_view() =~= Seq::empty());
    push_heading(&mut out, "  Inline Highlights");
    push_swatch(&mut out, '+', labels.committed_sym, labels.committed, true, highlight_bg_color(LineSource::Committed));
    push_swatch(&mut out, '+', labels.staged_sym, labels.staged, true, highlight_bg_color(LineSource::Staged));
    push_swatch(&mut out, '+', " ", labels.unstaged, true, highlight_bg_color(LineSource::Unstaged));
    push_swatch(&mut out, '-', labels.del_committed_sym, labels.del_committed, true, highlight_bg_color(LineSource::DeletedBase));
    push_swatch(&mut out, '-', labels.del_staged_sym, labels.del_staged, true, highlight_bg_color(LineSource::DeletedCommitted));
    push_swatch(&mut out, '-', " ", labels.del_unstaged, true, highlight_bg_color(LineSource::DeletedStaged));
    assert(out.deep_view() =~= highlight_rows(*labels));
    out
}

/// Rows behind others.
fn join(out: &mut Vec<Line>, rows: Vec<Line>)
    ensures
        final(out).deep_view() == old(out).deep_view() + rows.deep_view(),
{
    let ghost before = out.deep_view();
    let ghost added = rows.deep_view();
    let mut rows = rows;
    out.append(&mut rows);
    assert(out.deep_view() =~= before + added);
}

/// The help, in the middle of the screen.
#[derive(Debug)]
pub struct HelpModal {
    pub area: Rect,
    pub title: &'static str,
    /// The colour of the border.
    pub border: Color,
    /// The rows inside the border.
    pub lines: Vec<Line>,
}

/// The keys and what the colours mean, in the middle of an area.
pub fn draw_help_modal(area: Rect, backend: VcsBackend) -> (r: HelpModal)
    ensures
        r.area == centered(area, 54, 53),
        r.title@ == " Help "@,
        r.border == Color::Cyan,
        r.lines.deep_view() == help_rows(backend),
{
    let labels = color_labels(backend);
    let mut lines = draw_navigation();
    join(&mut lines, draw_actions());
    join(&mut lines, draw_colors(&labels));
    join(&mut lines, draw_highlights(&labels));
    HelpModal { area: modal_area(area, 54, 53), title: " Help ", border: Color::Cyan, lines }
}

/// What the colours are called, in the order in which the help shows them.
pub fn build_color_labels(backend: VcsBackend) -> (r: Vec<String>)
    ensures
        ({
            let labels = color_labels(backend);
            r.deep_view() == seq![
                labels.committed@,
                labels.staged@,
                labels.unstaged@,
                labels.del_committed@,
                labels.del_staged@,
                labels.del_unstaged@,
            ]
        }),
{
    let labels = color_labels(backend);
    let mut out: Vec<String> = Vec::new();
    out.push(labels.committed.to_string());
    out.push(labels.staged.to_string());
    out.push(labels.unstaged.to_string());
    out.push(labels.del_committed.to_string());
    out.push(labels.del_staged.to_string());
    out.push(labels.del_unstaged.to_string());
    assert(out.deep_view() =~= seq![
        labels.committed@,
        labels.staged@,
        labels.unstaged@,
        labels.del_committed@,
        labels.del_staged@,
        labels.del_unstaged@,
    ]);
    out
}

/// How to move, and what can be done, in short. The key for the view does what `view` says.
pub open spec fn short_help_rows(view: Seq<char>) -> Seq<Seq<SpanView>> {
    seq![
        empty_row(),
        heading("  Navigation"@),
        empty_row(),
        key_row("    j / ↓       "@, "Scroll down"@),
        key_row("    k / ↑       "@, "Scroll up"@),
        key_row("    Ctrl+d / PgDn"@, " Page down"@),
        key_row("    Ctrl+u / PgUp"@, " Page up"@),
        key_row("    g / Home    "@, "Go to top"@),
        key_row("    G / End     "@, "Go to bottom"@),
        key_row("    Mouse scroll"@, " Scroll up/down"@),
        key_row("    Mouse drag  "@, " Select text"@),
        empty_row(),
        heading("  Actions"@),
        empty_row(),
        key_row("    r           "@, "Refresh"@),
        key_row("    c           "@, view),
        key_row("    y           "@, "Copy selection"@),
        key_row("    q / Esc     "@, "Quit"@),
        key_row("    ?           "@, "Toggle this help"@),
    ]
}

/// The keys, in the middle of an area. The key for the view does what `view` says.
pub fn draw_short_help(area: Rect, view: &str) -> (r: HelpModal)
    ensures
        r.area == centered(area, 50, 22),
        r.title@ == " Help "@,
        r.border == Color::Cyan,
        r.lines.deep_view() == short_help_rows(view@),
{
    let mut out: Vec<Line> = Vec::new();
    assert(out.deep_view() =~= Seq::empty());
    push_heading(&mut out, "  Navigation");
    push_key(&mut out, "    j / ↓       ", "Scroll down");
    push_key(&mut out, "    k / ↑       ", "Scroll up");
    push_key(&mut out, "    Ctrl+d / PgDn", " Page down");
    push_key(&mut out, "    Ctrl+u / PgUp", " Page up");
    push_key(&mut out, "    g / Home    ", "Go to top");
    push_key(&mut out, "    G / End     ", "Go to bottom");
    push_key(&mut out, "    Mouse scroll", " Scroll up/down");
    push_key(&mut out, "    Mouse drag  ", " Select text");
    push_heading(&mut out, "  Actions");
    push_key(&mut out, "    r           ", "Refresh");
    push_key(&mut out, "    c           ", view);
    push_key(&mut out, "    y           ", "Copy selection");
    push_key(&mut out, "    q / Esc     ", "Quit");
    push_key(&mut out, "    ?           ", "Toggle this help");
    assert(out.deep_view() =~= short_help_rows(view@));
    HelpModal {
        area: modal_area(area, 50, 22),
        title: " Help ",
        border: Color::Cyan,
        lines: out,
    }
}

/// The help stays inside an area at the origin, with as much space before it as behind it, but for
/// one cell.
pub proof fn law_help_is_centered(area: Rect, width: u16, height: u16)
    ensures
        ({
            let modal = centered(area, width, height);
            let right = area.width - (modal.x + modal.width);
            let below = area.height - (modal.y + modal.height);
            &&& modal.x <= right <= modal.x + 1
            &&& modal.y <= below <= modal.y + 1
        }),
{
}

/// The help shows a line of every source as the diff shows it: with its sign, its mark in the gutter
/// and its background; and the background of what changed within it.
pub proof fn law_help_shows_lines_as_they_are(backend: VcsBackend, source: LineSource) -> (k: int)
    requires
        !(source is Base || source is FileHeader || source is Elided),
        !source.cancels(),
    ensures
        ({
            let rows = help_rows(backend);
            let sign = if source is Committed || source is Staged || source is Unstaged {
                '+'
            } else {
                '-'
            };
            let start = seq![' ', sign, ' '] + gutter_symbol(source, backend) + seq![' '];
            let line = rows[k];
            let within = rows[k + 10];
            &&& 0 <= k && k + 10 < rows.len()
            &&& line.len() == 2 && within.len() == 2
            &&& line[1].style == plain_style().with_bg(line_bg(source))
            &&& within[1].style == plain_style().with_bg(highlight_bg(source))
            &&& line[1].content.take(start.len() as int) == start
            &&& within[1].content.take(start.len() as int) == start
        }),
{
    let labels = color_labels(backend);
    let rows = help_rows(backend);
    let first: int = navigation_rows().len() as int + action_rows().len() as int;
    let place: int = match source {
        LineSource::Committed => 4,
        LineSource::Staged => 5,
        LineSource::Unstaged => 6,
        LineSource::DeletedBase => 7,
        LineSource::DeletedCommitted => 8,
        _ => 9,
    };
    let k = first + place;
    reveal_strlit(" ");
    reveal_strlit("C");
    reveal_strlit("S");
    reveal_strlit("@");
    assert(rows[k] == color_rows(labels)[place]);
    assert(rows[k + 10] == highlight_rows(labels)[place - 1]);
    let sign = if source is Committed || source is Staged || source is Unstaged {
        '+'
    } else {
        '-'
    };
    let symbol = gutter_symbol(source, backend);
    let start = seq![' ', sign, ' '] + symbol + seq![' '];
    assert(" "@ + seq![sign] + " "@ + symbol + " "@ =~= start);
    let line = rows[k][1].content;
    let within = rows[k + 10][1].content;
    assert(line.take(start.len() as int) =~= start);
    assert(within.take(start.len() as int) =~= start);
    k
}

} // verus!

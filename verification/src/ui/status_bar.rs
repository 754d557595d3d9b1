//! The status bar: what is compared, how much changed, and the most important keys.
use vstd::prelude::*;
use vstd::string::*;
use vstd::utf8::is_ascii_chars;

use crate::app::App;
use crate::app::Selection;
use crate::app::ViewMode;
use crate::path::file_name;
use crate::path::name_in;
use crate::style::plain_style;
use crate::style::raw;
use crate::style::styled;
use crate::style::text_of_spans;
use crate::style::Color;
use crate::style::Line;
use crate::style::Rect;
use crate::style::Span;
use crate::style::SpanView;
use crate::style::Style;
use crate::text::append_number;
use crate::text::chars_of;
use crate::text::copies;
use crate::text::decimal;
use crate::text::number;
use crate::text::repeat_char;
use crate::text::substring;
use crate::ui::selection::apply_selection_to_spans;
use crate::ui::selection::get_line_selection_range;
use crate::ui::selection::marked_spans;
use crate::ui::selection::selected_range;

verus! {

/// The keys, where there is room for them.
pub open spec fn help_text() -> Seq<char> {
    " q:quit  j/k:files  g/G:top/bottom  ?:help "@
}

/// The one key that tells of the others.
pub open spec fn short_help_text() -> Seq<char> {
    " ?:help "@
}

/// The length of a text in bytes.
pub open spec fn bytes(s: Seq<char>) -> nat {
    (vstd::utf8::encode_utf8(s).len() as usize) as nat
}

/// Which lines are shown.
pub open spec fn mode_text(app: App) -> Seq<char> {
    match app.view.view_mode {
        ViewMode::Full => " [all lines]"@,
        ViewMode::Context => " [context]"@,
        ViewMode::ChangesOnly => " [changed lines only]"@,
        ViewMode::CommitOnly => " [commit "@ + app.comparison.to_label@ + "]"@,
        ViewMode::BookmarkOnly => match app.comparison.bookmark_name {
            Some(name) => " [bookmark "@ + name@ + "]"@,
            None => " [bookmark]"@,
        },
    }
}

/// The name of the directory that the repository is in.
pub open spec fn repo_text(app: App) -> Seq<char> {
    match name_in(app.repo_path@) {
        Some(name) => name,
        None => "repo"@,
    }
}

/// What is compared with what, and where the current commit stands in its stack.
pub open spec fn branch_text(app: App) -> Seq<char> {
    let base = repo_text(app) + " | "@ + app.comparison.to_label@ + " vs "@
        + app.comparison.from_label@;
    match app.comparison.stack_position {
        Some(pos) => if pos.head_count > 1 {
            base + " ["@ + decimal(pos.current as nat) + "/"@ + decimal(pos.total as nat)
                + " head 1/"@ + decimal(pos.head_count as nat) + "]"@
        } else {
            base + " ["@ + decimal(pos.current as nat) + "/"@ + decimal(pos.total as nat) + "]"@
        },
        None => base,
    }
}

/// The ending of a plural.
pub open spec fn plural(n: nat) -> Seq<char> {
    if n == 1 {
        ""@
    } else {
        "s"@
    }
}

/// How many files there are.
pub open spec fn files_text(app: App) -> Seq<char> {
    decimal(app.files@.len()) + " file"@ + plural(app.files@.len()) + " | "@
}

pub open spec fn additions_text(app: App) -> Seq<char> {
    "+"@ + decimal(app.additions as nat)
}

pub open spec fn deletions_text(app: App) -> Seq<char> {
    "-"@ + decimal(app.deletions as nat)
}

/// Which lines are shown, and how far they are scrolled.
pub open spec fn progress_text(app: App) -> Seq<char> {
    mode_text(app) + " | "@ + decimal(app.scroll_percentage as nat) + "%"@
}

/// How much changed.
pub open spec fn stats_text(app: App) -> Seq<char> {
    files_text(app) + additions_text(app) + " "@ + deletions_text(app) + progress_text(app)
}

/// What is compared, and how much changed.
pub open spec fn status_text(app: App) -> Seq<char> {
    branch_text(app) + " | "@ + stats_text(app)
}

/// The number of lines that the status bar needs: one, if everything fits.
pub open spec fn bar_height(app: App, width: u16) -> u16 {
    if bytes(status_text(app)) + bytes(help_text()) + 2 <= width {
        1
    } else {
        2
    }
}

/// Text of at most `max` characters: where it is longer, dots stand for what is left out.
pub open spec fn truncated(s: Seq<char>, max: nat) -> Seq<char> {
    if s.len() <= max {
        s
    } else if max <= 3 {
        copies('.', max)
    } else {
        s.take(max - 3) + "..."@
    }
}

/// As many spaces as are left of `width` behind texts of `used` bytes.
pub open spec fn padding(width: nat, used: nat) -> Seq<char> {
    copies(
        ' ',
        if used < width {
            (width - used) as nat
        } else {
            0
        },
    )
}

pub open spec fn cyan() -> Style {
    plain_style().with_fg(Color::Cyan)
}

pub open spec fn faint() -> Style {
    plain_style().with_fg(Color::DarkGray)
}

/// The counts of added and deleted lines in their colours, behind `lead`, with a warning where
/// there is one.
pub open spec fn counts_spans(app: App, lead: Seq<char>) -> Seq<SpanView> {
    let counts = seq![
        styled(lead, cyan()),
        styled(additions_text(app), plain_style().with_fg(Color::LightGreen)),
        styled(" "@, cyan()),
        styled(deletions_text(app), plain_style().with_fg(Color::Red)),
        styled(progress_text(app), cyan()),
    ];
    match app.performance_warning {
        Some(warning) => counts.push(
            styled(" ["@ + warning@ + "]"@, plain_style().with_fg(Color::Yellow)),
        ),
        None => counts,
    }
}

/// A text with the keys at the end of the line.
pub open spec fn with_help(spans: Seq<SpanView>, used: nat, help: Seq<char>, width: nat) -> Seq<
    SpanView,
> {
    spans.push(raw(padding(width, used + bytes(help)))).push(styled(help, faint()))
}

/// The first of two lines: what is compared, and as many keys as fit.
pub open spec fn first_line(app: App, width: nat) -> Seq<SpanView> {
    let branch = branch_text(app);
    let help = help_text();
    let short = short_help_text();
    if bytes(branch) + bytes(help) + 2 <= width {
        with_help(seq![styled(branch, cyan())], bytes(branch), help, width)
    } else if bytes(branch) + bytes(short) + 2 <= width {
        with_help(seq![styled(branch, cyan())], bytes(branch), short, width)
    } else {
        let room = if bytes(short) + 1 < width {
            (width - (bytes(short) + 1)) as nat
        } else {
            0
        };
        let cut = truncated(branch, room);
        with_help(seq![styled(cut, cyan())], bytes(cut), short, width)
    }
}

/// The second of two lines: how much changed.
pub open spec fn second_line(app: App, width: nat) -> Seq<SpanView> {
    if bytes(stats_text(app)) <= width {
        counts_spans(app, files_text(app))
    } else {
        seq![styled(truncated(stats_text(app), width), cyan())]
    }
}

/// The only line: everything, or as much of it as fits.
pub open spec fn only_line(app: App, width: nat) -> Seq<SpanView> {
    let status = status_text(app);
    let stats = stats_text(app);
    let help = help_text();
    let short = short_help_text();
    let spans = counts_spans(app, branch_text(app) + " | "@ + files_text(app));
    if bytes(status) + bytes(help) + 2 <= width {
        with_help(spans, bytes(status), help, width)
    } else if bytes(status) + bytes(short) + 2 <= width {
        with_help(spans, bytes(status), short, width)
    } else if bytes(status) <= width {
        spans
    } else if bytes(stats) + 3 <= width {
        let room = if bytes(stats) + 4 < width {
            (width - (bytes(stats) + 4)) as nat
        } else {
            0
        };
        seq![styled(truncated(branch_text(app), room) + " | "@ + stats, cyan())]
    } else {
        seq![styled(truncated(status, width), cyan())]
    }
}

/// A line with the selection marked in it.
pub open spec fn with_selection(
    line: Seq<SpanView>,
    selection: Option<Selection>,
    row: usize,
) -> Seq<SpanView> {
    match selected_range(selection, row) {
        Some(range) => marked_spans(line, range.0, range.1),
        None => line,
    }
}

/// The lines of the status bar in an area. Their rows count on from those of the diff.
pub open spec fn bar_lines(app: App, area: Rect) -> Seq<Seq<SpanView>> {
    let width = area.width as nat;
    let row = app.view.row_map@.len();
    if area.height >= 2 {
        seq![
            with_selection(first_line(app, width), app.view.selection, row as usize),
            with_selection(second_line(app, width), app.view.selection, next_row(row)),
        ]
    } else {
        seq![with_selection(only_line(app, width), app.view.selection, row as usize)]
    }
}

/// The row behind `row`, as far as rows can be counted.
pub open spec fn next_row(row: nat) -> usize {
    if row < usize::MAX {
        (row + 1) as usize
    } else {
        usize::MAX
    }
}

/// Which lines are shown.
pub fn view_mode_label(app: &App) -> (r: String)
    ensures
        r@ == mode_text(*app),
{
    match app.view.view_mode {
        ViewMode::Full => " [all lines]".to_owned(),
        ViewMode::Context => " [context]".to_owned(),
        ViewMode::ChangesOnly => " [changed lines only]".to_owned(),
        ViewMode::CommitOnly => {
            let mut out = " [commit ".to_owned();
            out.append(app.comparison.to_label.as_str());
            out.append("]");
            out
        },
        ViewMode::BookmarkOnly => match &app.comparison.bookmark_name {
            Some(name) => {
                let mut out = " [bookmark ".to_owned();
                out.append(name.as_str());
                out.append("]");
                out
            },
            None => " [bookmark]".to_owned(),
        },
    }
}

/// The name of the directory that the repository is in.
pub fn repo_name(app: &App) -> (r: String)
    ensures
        r@ == repo_text(*app),
{
    match file_name(app.repo_path.as_str()) {
        Some(name) => name,
        None => "repo".to_owned(),
    }
}

/// What is compared with what, and where the current commit stands in its stack.
pub fn branch_info(app: &App) -> (r: String)
    ensures
        r@ == branch_text(*app),
{
    let mut out = repo_name(app);
    out.append(" | ");
    out.append(app.comparison.to_label.as_str());
    out.append(" vs ");
    out.append(app.comparison.from_label.as_str());
    if let Some(pos) = app.comparison.stack_position {
        out.append(" [");
        append_number(&mut out, pos.current as u64);
        out.append("/");
        append_number(&mut out, pos.total as u64);
        if pos.head_count > 1 {
            out.append(" head 1/");
            append_number(&mut out, pos.head_count as u64);
        }
        out.append("]");
    }
    out
}

fn files_lead(app: &App) -> (r: String)
    ensures
        r@ == files_text(*app),
{
    let mut out = number(app.files.len() as u64);
    out.append(" file");
    if app.files.len() == 1 {
        out.append("");
    } else {
        out.append("s");
    }
    out.append(" | ");
    out
}

fn additions_label(app: &App) -> (r: String)
    ensures
        r@ == additions_text(*app),
{
    let mut out = "+".to_owned();
    append_number(&mut out, app.additions as u64);
    out
}

fn deletions_label(app: &App) -> (r: String)
    ensures
        r@ == deletions_text(*app),
{
    let mut out = "-".to_owned();
    append_number(&mut out, app.deletions as u64);
    out
}

fn progress_label(app: &App) -> (r: String)
    ensures
        r@ == progress_text(*app),
{
    let mut out = view_mode_label(app);
    out.append(" | ");
    append_number(&mut out, app.scroll_percentage as u64);
    out.append("%");
    out
}

fn stats_line(app: &App) -> (r: String)
    ensures
        r@ == stats_text(*app),
{
    let mut out = files_lead(app);
    out.append(additions_label(app).as_str());
    out.append(" ");
    out.append(deletions_label(app).as_str());
    out.append(progress_label(app).as_str());
    out
}

fn status_line(app: &App) -> (r: String)
    ensures
        r@ == status_text(*app),
{
    let mut out = branch_info(app);
    out.append(" | ");
    out.append(stats_line(app).as_str());
    out
}

/// Whether texts of `a` and `b` bytes fit into `width` columns with `spare` more.
fn fit(a: usize, b: usize, spare: usize, width: usize) -> (r: bool)
    ensures
        r == (a + b + spare <= width),
{
    a <= width && b <= width - a && spare <= width - a - b
}

/// The number of lines that the status bar needs.
pub fn status_bar_height(app: &App, width: u16) -> (r: u16)
    ensures
        r == bar_height(*app, width),
{
    let help = " q:quit  j/k:files  g/G:top/bottom  ?:help ";
    let status = status_line(app);
    if fit(status.as_str().len(), help.len(), 2, width as usize) {
        1
    } else {
        2
    }
}

/// Text of at most `max_len` characters.
pub fn truncate_with_ellipsis(s: &str, max_len: usize) -> (r: String)
    ensures
        r@ == truncated(s@, max_len as nat),
{
    let cs = chars_of(s);
    if cs.len() <= max_len {
        s.to_owned()
    } else if max_len <= 3 {
        repeat_char('.', max_len)
    } else {
        let mut out = substring(cs.as_slice(), 0, max_len - 3);
        assert(out@ =~= s@.take(max_len - 3));
        out.append("...");
        out
    }
}

/// The counts of added and deleted lines in their colours, behind `lead`.
fn build_counts_spans(app: &App, lead: String) -> (r: Vec<Span>)
    ensures
        r.deep_view() == counts_spans(*app, lead@),
{
    let cyan = Style::default().fg(Color::Cyan);
    let mut spans: Vec<Span> = Vec::new();
    spans.push(Span::styled(lead, cyan));
    spans.push(Span::styled(additions_label(app), Style::default().fg(Color::LightGreen)));
    spans.push(Span::styled(" ".to_owned(), cyan));
    spans.push(Span::styled(deletions_label(app), Style::default().fg(Color::Red)));
    spans.push(Span::styled(progress_label(app), cyan));
    if let Some(warning) = &app.performance_warning {
        let mut text = " [".to_owned();
        text.append(warning.as_str());
        text.append("]");
        spans.push(Span::styled(text, Style::default().fg(Color::Yellow)));
    }
    assert(spans.deep_view() =~= counts_spans(*app, lead@));
    spans
}

/// How much changed, with the counts in their colours.
pub fn build_stats_spans(app: &App) -> (r: Vec<Span>)
    ensures
        r.deep_view() == counts_spans(*app, files_text(*app)),
{
    build_counts_spans(app, files_lead(app))
}

/// What is compared and how much changed, with the counts in their colours.
pub fn build_full_status_spans(app: &App) -> (r: Vec<Span>)
    ensures
        r.deep_view() == counts_spans(*app, branch_text(*app) + " | "@ + files_text(*app)),
{
    let mut lead = branch_info(app);
    lead.append(" | ");
    lead.append(files_lead(app).as_str());
    build_counts_spans(app, lead)
}

fn spaces_left(width: usize, a: usize, b: usize) -> (r: String)
    ensures
        r@ == padding(width as nat, (a + b) as nat),
{
    if a <= width && b <= width - a {
        repeat_char(' ', width - a - b)
    } else {
        repeat_char(' ', 0)
    }
}

/// Puts the keys at the end of a line.
fn push_help(spans: &mut Vec<Span>, used: usize, help: &str, width: usize)
    ensures
        final(spans).deep_view() == with_help(
            old(spans).deep_view(),
            used as nat,
            help@,
            width as nat,
        ),
{
    let ghost before = spans.deep_view();
    spans.push(Span::raw(spaces_left(width, used, help.len())));
    spans.push(Span::styled(help.to_owned(), Style::default().fg(Color::DarkGray)));
    assert(spans.deep_view() =~= with_help(before, used as nat, help@, width as nat));
}

fn one_span(text: String) -> (r: Vec<Span>)
    ensures
        r.deep_view() == seq![styled(text@, cyan())],
{
    let mut spans: Vec<Span> = Vec::new();
    spans.push(Span::styled(text, Style::default().fg(Color::Cyan)));
    assert(spans.deep_view() =~= seq![styled(text@, cyan())]);
    spans
}

/// What is left of `width` behind `used` and `more` columns.
fn room_behind(width: usize, used: usize, more: usize) -> (r: usize)
    ensures
        r == (if used + more < width {
            width - (used + more)
        } else {
            0
        }),
{
    if used <= width && more <= width - used {
        width - used - more
    } else {
        0
    }
}

fn draw_first_line(app: &App, width: usize) -> (r: Vec<Span>)
    ensures
        r.deep_view() == first_line(*app, width as nat),
{
    let help = " q:quit  j/k:files  g/G:top/bottom  ?:help ";
    let short = " ?:help ";
    let branch = branch_info(app);
    let len = branch.as_str().len();
    if fit(len, help.len(), 2, width) {
        let mut spans = one_span(branch);
        push_help(&mut spans, len, help, width);
        spans
    } else if fit(len, short.len(), 2, width) {
        let mut spans = one_span(branch);
        push_help(&mut spans, len, short, width);
        spans
    } else {
        let room = room_behind(width, short.len(), 1);
        let cut = truncate_with_ellipsis(branch.as_str(), room);
        let cut_len = cut.as_str().len();
        let mut spans = one_span(cut);
        push_help(&mut spans, cut_len, short, width);
        spans
    }
}

fn draw_second_line(app: &App, width: usize) -> (r: Vec<Span>)
    ensures
        r.deep_view() == second_line(*app, width as nat),
{
    let stats = stats_line(app);
    if stats.as_str().len() <= width {
        build_stats_spans(app)
    } else {
        one_span(truncate_with_ellipsis(stats.as_str(), width))
    }
}

fn draw_only_line(app: &App, width: usize) -> (r: Vec<Span>)
    ensures
        r.deep_view() == only_line(*app, width as nat),
{
    let help = " q:quit  j/k:files  g/G:top/bottom  ?:help ";
    let short = " ?:help ";
    let stats = stats_line(app);
    let status = status_line(app);
    let len = status.as_str().len();
    if fit(len, help.len(), 2, width) {
        let mut spans = build_full_status_spans(app);
        push_help(&mut spans, len, help, width);
        spans
    } else if fit(len, short.len(), 2, width) {
        let mut spans = build_full_status_spans(app);
        push_help(&mut spans, len, short, width);
        spans
    } else if len <= width {
        build_full_status_spans(app)
    } else if fit(stats.as_str().len(), 3, 0, width) {
        let room = room_behind(width, stats.as_str().len(), 4);
        let branch = branch_info(app);
        let mut text = truncate_with_ellipsis(branch.as_str(), room);
        text.append(" | ");
        text.append(stats.as_str());
        one_span(text)
    } else {
        one_span(truncate_with_ellipsis(status.as_str(), width))
    }
}

/// Marks the selection in a line of the status bar.
pub fn apply_status_bar_selection(
    line: Vec<Span>,
    selection: &Option<Selection>,
    virtual_row: usize,
) -> (r: Vec<Span>)
    ensures
        r.deep_view() == with_selection(line.deep_view(), *selection, virtual_row),
{
    match get_line_selection_range(selection, virtual_row) {
        Some((from, to)) => {
            let part = line.as_slice();
            assert(part.deep_view() =~= line.deep_view());
            apply_selection_to_spans(part, from, to)
        },
        None => line,
    }
}

/// The lines of the status bar in an area: two where there is room for them.
pub fn draw_status_bar(app: &App, area: Rect) -> (r: Vec<Line>)
    ensures
        r.deep_view() == bar_lines(*app, area),
{
    let width = area.width as usize;
    let row = app.view.row_map.len();
    let mut lines: Vec<Line> = Vec::new();
    if area.height >= 2 {
        let first = draw_first_line(app, width);
        let second = draw_second_line(app, width);
        lines.push(Line { spans: apply_status_bar_selection(first, &app.view.selection, row) });
        lines.push(
            Line {
                spans: apply_status_bar_selection(
                    second,
                    &app.view.selection,
                    row.saturating_add(1),
                ),
            },
        );
    } else {
        let only = draw_only_line(app, width);
        lines.push(Line { spans: apply_status_bar_selection(only, &app.view.selection, row) });
    }
    assert(lines.deep_view() =~= bar_lines(*app, area));
    lines
}

/// The text of a line with the keys at its end.
pub open spec fn text_with_help(text: Seq<char>, help: Seq<char>, width: nat) -> Seq<char> {
    text + padding(width, bytes(text) + bytes(help)) + help
}

/// The text of the status bar, as it is copied: the same lines that are drawn.
pub open spec fn bar_text(app: App, width: u16) -> Seq<Seq<char>> {
    let branch = branch_text(app);
    let stats = stats_text(app);
    let status = status_text(app);
    let help = help_text();
    let short = short_help_text();
    let w = width as nat;
    if bar_height(app, width) >= 2 {
        let first = if bytes(branch) + bytes(help) + 2 <= w {
            text_with_help(branch, help, w)
        } else if bytes(branch) + bytes(short) + 2 <= w {
            text_with_help(branch, short, w)
        } else {
            let room = if bytes(short) + 1 < w {
                (w - (bytes(short) + 1)) as nat
            } else {
                0
            };
            text_with_help(truncated(branch, room), short, w)
        };
        let second = if bytes(stats) <= w {
            stats
        } else {
            truncated(stats, w)
        };
        seq![first, second]
    } else {
        let line = if bytes(status) + bytes(help) + 2 <= w {
            text_with_help(status, help, w)
        } else if bytes(status) + bytes(short) + 2 <= w {
            text_with_help(status, short, w)
        } else if bytes(status) <= w {
            status
        } else if bytes(stats) + 3 <= w {
            let room = if bytes(stats) + 4 < w {
                (w - (bytes(stats) + 4)) as nat
            } else {
                0
            };
            truncated(branch, room) + " | "@ + stats
        } else {
            truncated(status, w)
        };
        seq![line]
    }
}

fn text_and_help(text: String, help: &str, width: usize) -> (r: String)
    ensures
        r@ == text_with_help(text@, help@, width as nat),
{
    let pad = spaces_left(width, text.as_str().len(), help.len());
    let mut out = text;
    out.append(pad.as_str());
    out.append(help);
    out
}

/// The text of the status bar, as it is copied.
pub fn status_bar_plain_text(app: &App, width: u16) -> (r: Vec<String>)
    ensures
        r.deep_view() == bar_text(*app, width),
{
    let help = " q:quit  j/k:files  g/G:top/bottom  ?:help ";
    let short = " ?:help ";
    let room = width as usize;
    let stats = stats_line(app);
    let branch = branch_info(app);
    let status = status_line(app);
    let mut out: Vec<String> = Vec::new();
    if status_bar_height(app, width) >= 2 {
        let len = branch.as_str().len();
        let first = if fit(len, help.len(), 2, room) {
            text_and_help(branch, help, room)
        } else if fit(len, short.len(), 2, room) {
            text_and_help(branch, short, room)
        } else {
            let left = room_behind(room, short.len(), 1);
            text_and_help(truncate_with_ellipsis(branch.as_str(), left), short, room)
        };
        let second = if stats.as_str().len() <= room {
            stats
        } else {
            truncate_with_ellipsis(stats.as_str(), room)
        };
        out.push(first);
        out.push(second);
    } else {
        let len = status.as_str().len();
        let line = if fit(len, help.len(), 2, room) {
            text_and_help(status, help, room)
        } else if fit(len, short.len(), 2, room) {
            text_and_help(status, short, room)
        } else if len <= room {
            status
        } else if fit(stats.as_str().len(), 3, 0, room) {
            let left = room_behind(room, stats.as_str().len(), 4);
            let mut text = truncate_with_ellipsis(branch.as_str(), left);
            text.append(" | ");
            text.append(stats.as_str());
            text
        } else {
            truncate_with_ellipsis(status.as_str(), room)
        };
        out.push(line);
    }
    assert(out.deep_view() =~= bar_text(*app, width));
    out
}

proof fn lemma_counts_text(app: App, lead: Seq<char>)
    requires
        app.performance_warning is None,
    ensures
        text_of_spans(counts_spans(app, lead)) == lead + additions_text(app) + " "@
            + deletions_text(app) + progress_text(app),
{
    reveal_with_fuel(text_of_spans, 6);
    let s = counts_spans(app, lead);
    assert(s.drop_last().drop_last().drop_last().drop_last().drop_last() =~= Seq::empty());
    assert(s.drop_last().last() == s[3]);
    assert(s.drop_last().drop_last().last() == s[2]);
    assert(s.drop_last().drop_last().drop_last().last() == s[1]);
    assert(s.drop_last().drop_last().drop_last().drop_last().last() == s[0]);
    assert(text_of_spans(s) =~= lead + additions_text(app) + " "@ + deletions_text(app)
        + progress_text(app));
}

proof fn lemma_one_text(span: SpanView)
    ensures
        text_of_spans(seq![span]) == span.content,
{
    reveal_with_fuel(text_of_spans, 2);
    assert(seq![span].drop_last() =~= Seq::empty());
    assert(text_of_spans(seq![span]) =~= span.content);
}

proof fn lemma_help_text(spans: Seq<SpanView>, used: nat, help: Seq<char>, width: nat)
    ensures
        text_of_spans(with_help(spans, used, help, width)) == text_of_spans(spans) + padding(
            width,
            used + bytes(help),
        ) + help,
{
    let pad = raw(padding(width, used + bytes(help)));
    crate::style::lemma_text_of_push(spans, pad);
    crate::style::lemma_text_of_push(spans.push(pad), styled(help, faint()));
}

/// What is copied from the status bar is what is drawn in it, with the lines that it needs and
/// without a warning about performance. (A warning is drawn, but not copied.)
pub proof fn law_copied_status_is_the_drawn_one(app: App, area: Rect, i: int)
    requires
        app.performance_warning is None,
        (area.height >= 2) == (bar_height(app, area.width) >= 2),
        0 <= i < bar_text(app, area.width).len(),
    ensures
        bar_lines(app, area).len() == bar_text(app, area.width).len(),
        text_of_spans(bar_lines(app, area)[i]) == bar_text(app, area.width)[i],
{
    let width = area.width as nat;
    lemma_counts_text(app, files_text(app));
    let lead = branch_text(app) + " | "@ + files_text(app);
    lemma_counts_text(app, lead);
    assert(lead + additions_text(app) + " "@ + deletions_text(app) + progress_text(app)
        =~= status_text(app));
    let line = if area.height >= 2 {
        if i == 0 {
            first_line(app, width)
        } else {
            second_line(app, width)
        }
    } else {
        only_line(app, width)
    };
    lemma_bar_line(app, area, i, line);
    let row = if i == 0 {
        app.view.row_map@.len() as usize
    } else {
        next_row(app.view.row_map@.len())
    };
    if let Some(range) = selected_range(app.view.selection, row) {
        crate::ui::selection::law_selected_range_is_ordered(app.view.selection, row);
        crate::ui::selection::law_marking_spans_keeps_text(line, range.0, range.1);
    }
}

proof fn lemma_bar_line(app: App, area: Rect, i: int, line: Seq<SpanView>)
    requires
        (area.height >= 2) == (bar_height(app, area.width) >= 2),
        0 <= i < bar_text(app, area.width).len(),
        text_of_spans(counts_spans(app, files_text(app))) == stats_text(app),
        text_of_spans(counts_spans(app, branch_text(app) + " | "@ + files_text(app)))
            == status_text(app),
        line == (if area.height >= 2 {
            if i == 0 {
                first_line(app, area.width as nat)
            } else {
                second_line(app, area.width as nat)
            }
        } else {
            only_line(app, area.width as nat)
        }),
    ensures
        text_of_spans(line) == bar_text(app, area.width)[i],
{
    let width = area.width as nat;
    let branch = branch_text(app);
    let status = status_text(app);
    let stats = stats_text(app);
    let help = help_text();
    let short = short_help_text();
    let room = if bytes(short) + 1 < width {
        (width - (bytes(short) + 1)) as nat
    } else {
        0
    };
    let cut = truncated(branch, room);
    let spans = counts_spans(app, branch + " | "@ + files_text(app));
    if area.height >= 2 {
        if i == 0 {
            lemma_one_text(styled(branch, cyan()));
            lemma_one_text(styled(cut, cyan()));
            lemma_help_text(seq![styled(branch, cyan())], bytes(branch), help, width);
            lemma_help_text(seq![styled(branch, cyan())], bytes(branch), short, width);
            lemma_help_text(seq![styled(cut, cyan())], bytes(cut), short, width);
        } else {
            lemma_one_text(styled(truncated(stats, width), cyan()));
        }
    } else {
        lemma_help_text(spans, bytes(status), help, width);
        lemma_help_text(spans, bytes(status), short, width);
        lemma_one_text(styled(truncated(status, width), cyan()));
        let left = if bytes(stats) + 4 < width {
            (width - (bytes(stats) + 4)) as nat
        } else {
            0
        };
        lemma_one_text(styled(truncated(branch, left) + " | "@ + stats, cyan()));
    }
}

proof fn lemma_ascii_join(a: Seq<char>, b: Seq<char>)
    requires
        is_ascii_chars(a),
        is_ascii_chars(b),
    ensures
        is_ascii_chars(a + b),
{
    let all = a + b;
    assert forall|i: int| 0 <= i < all.len() implies '\0' <= #[trigger] all[i] <= '\u{7f}' by {
        if i < a.len() {
            assert('\0' <= a[i] <= '\u{7f}');
        } else {
            assert('\0' <= b[i - a.len()] <= '\u{7f}');
        }
    }
}

proof fn lemma_ascii_decimal(n: nat)
    ensures
        is_ascii_chars(decimal(n)),
    decreases n,
{
    if n >= 10 {
        lemma_ascii_decimal(n / 10);
        let front = decimal(n / 10);
        let all = decimal(n);
        assert forall|i: int| 0 <= i < all.len() implies '\0' <= #[trigger] all[i] <= '\u{7f}' by {
            if i < front.len() {
                assert('\0' <= front[i] <= '\u{7f}');
            }
        }
    }
}

/// Text of one byte for each character has as many bytes as characters.
proof fn lemma_ascii_bytes(s: Seq<char>)
    requires
        is_ascii_chars(s),
        s.len() <= usize::MAX,
    ensures
        bytes(s) == s.len(),
{
    vstd::utf8::is_ascii_chars_encode_utf8(s);
}

/// Whether the names and labels in the status bar have one byte for each character.
pub open spec fn has_ascii_labels(app: App) -> bool {
    &&& is_ascii_chars(repo_text(app))
    &&& is_ascii_chars(app.comparison.to_label@)
    &&& is_ascii_chars(app.comparison.from_label@)
    &&& app.comparison.bookmark_name matches Some(name) ==> is_ascii_chars(name@)
}

proof fn lemma_ascii_branch(app: App)
    requires
        has_ascii_labels(app),
    ensures
        is_ascii_chars(branch_text(app)),
{
    reveal_strlit(" | ");
    reveal_strlit(" vs ");
    reveal_strlit(" [");
    reveal_strlit("/");
    reveal_strlit(" head 1/");
    reveal_strlit("]");
    let repo = repo_text(app);
    let to = app.comparison.to_label@;
    let from = app.comparison.from_label@;
    lemma_ascii_join(repo, " | "@);
    lemma_ascii_join(repo + " | "@, to);
    lemma_ascii_join(repo + " | "@ + to, " vs "@);
    lemma_ascii_join(repo + " | "@ + to + " vs "@, from);
    let base = repo + " | "@ + to + " vs "@ + from;
    if let Some(pos) = app.comparison.stack_position {
        let (current, total) = (decimal(pos.current as nat), decimal(pos.total as nat));
        let heads = decimal(pos.head_count as nat);
        lemma_ascii_decimal(pos.current as nat);
        lemma_ascii_decimal(pos.total as nat);
        lemma_ascii_decimal(pos.head_count as nat);
        lemma_ascii_join(base, " ["@);
        lemma_ascii_join(base + " ["@, current);
        lemma_ascii_join(base + " ["@ + current, "/"@);
        lemma_ascii_join(base + " ["@ + current + "/"@, total);
        let place = base + " ["@ + current + "/"@ + total;
        lemma_ascii_join(place, "]"@);
        lemma_ascii_join(place, " head 1/"@);
        lemma_ascii_join(place + " head 1/"@, heads);
        lemma_ascii_join(place + " head 1/"@ + heads, "]"@);
    }
}

proof fn lemma_ascii_mode(app: App)
    requires
        has_ascii_labels(app),
    ensures
        is_ascii_chars(mode_text(app)),
{
    reveal_strlit(" [all lines]");
    reveal_strlit(" [context]");
    reveal_strlit(" [changed lines only]");
    reveal_strlit(" [commit ");
    reveal_strlit(" [bookmark ");
    reveal_strlit(" [bookmark]");
    reveal_strlit("]");
    lemma_ascii_join(" [commit "@, app.comparison.to_label@);
    lemma_ascii_join(" [commit "@ + app.comparison.to_label@, "]"@);
    if let Some(name) = app.comparison.bookmark_name {
        lemma_ascii_join(" [bookmark "@, name@);
        lemma_ascii_join(" [bookmark "@ + name@, "]"@);
    }
}

proof fn lemma_ascii_stats(app: App)
    requires
        has_ascii_labels(app),
    ensures
        is_ascii_chars(stats_text(app)),
{
    reveal_strlit(" | ");
    reveal_strlit(" file");
    reveal_strlit("s");
    reveal_strlit("");
    reveal_strlit("+");
    reveal_strlit("-");
    reveal_strlit(" ");
    reveal_strlit("%");
    let count = decimal(app.files@.len());
    let ending = plural(app.files@.len());
    lemma_ascii_decimal(app.files@.len());
    lemma_ascii_join(count, " file"@);
    lemma_ascii_join(count + " file"@, ending);
    lemma_ascii_join(count + " file"@ + ending, " | "@);
    lemma_ascii_decimal(app.additions as nat);
    lemma_ascii_join("+"@, decimal(app.additions as nat));
    lemma_ascii_decimal(app.deletions as nat);
    lemma_ascii_join("-"@, decimal(app.deletions as nat));
    lemma_ascii_mode(app);
    lemma_ascii_decimal(app.scroll_percentage as nat);
    let percent = decimal(app.scroll_percentage as nat);
    lemma_ascii_join(mode_text(app), " | "@);
    lemma_ascii_join(mode_text(app) + " | "@, percent);
    lemma_ascii_join(mode_text(app) + " | "@ + percent, "%"@);
    let (files, added) = (files_text(app), additions_text(app));
    let deleted = deletions_text(app);
    lemma_ascii_join(files, added);
    lemma_ascii_join(files + added, " "@);
    lemma_ascii_join(files + added + " "@, deleted);
    lemma_ascii_join(files + added + " "@ + deleted, progress_text(app));
}

proof fn lemma_ascii_truncated(s: Seq<char>, max: nat)
    requires
        is_ascii_chars(s),
    ensures
        is_ascii_chars(truncated(s, max)),
{
    reveal_strlit("...");
    if s.len() > max && max > 3 {
        let front = s.take(max - 3);
        assert forall|i: int| 0 <= i < front.len() implies '\0' <= #[trigger] front[i]
            <= '\u{7f}' by {
            assert('\0' <= s[i] <= '\u{7f}');
        }
        lemma_ascii_join(front, "..."@);
    }
}

/// The copied status bar has the rows that it needs, and its first row fills the width exactly: it
/// is padded or cut to it. A second row is no longer than that. (Names and labels with characters of
/// several bytes are padded as if each byte took a column.)
pub proof fn law_copied_status_fills_the_width(app: App, width: u16)
    requires
        width >= 8,
        has_ascii_labels(app),
        status_text(app).len() <= usize::MAX,
    ensures
        bar_text(app, width).len() == bar_height(app, width),
        bar_text(app, width)[0].len() == width,
        bytes(bar_text(app, width)[0]) == width,
        bar_text(app, width).len() == 2 ==> bar_text(app, width)[1].len() <= width && bytes(
            bar_text(app, width)[1],
        ) <= width,
{
    reveal_strlit(" | ");
    reveal_strlit(" q:quit  j/k:files  g/G:top/bottom  ?:help ");
    reveal_strlit(" ?:help ");
    let branch = branch_text(app);
    let stats = stats_text(app);
    lemma_ascii_branch(app);
    lemma_ascii_stats(app);
    lemma_ascii_join(branch, " | "@);
    lemma_ascii_join(branch + " | "@, stats);
    lemma_ascii_bytes(branch);
    lemma_ascii_bytes(stats);
    lemma_ascii_bytes(status_text(app));
    lemma_ascii_bytes(help_text());
    lemma_ascii_bytes(short_help_text());
    let room = if width > 9 {
        (width - 9) as nat
    } else {
        0
    };
    lemma_ascii_truncated(branch, room);
    law_truncated_text_fits(branch, room);
    lemma_ascii_bytes(truncated(branch, room));
    law_truncated_text_fits(stats, width as nat);
    lemma_ascii_truncated(stats, width as nat);
    lemma_ascii_bytes(truncated(stats, width as nat));
    lemma_ascii_with_help(branch, help_text(), width as nat);
    lemma_ascii_with_help(branch, short_help_text(), width as nat);
    lemma_ascii_with_help(truncated(branch, room), short_help_text(), width as nat);
    lemma_ascii_with_help(status_text(app), help_text(), width as nat);
    lemma_ascii_bytes(bar_text(app, width)[0]);
}

proof fn lemma_ascii_with_help(text: Seq<char>, help: Seq<char>, width: nat)
    requires
        is_ascii_chars(text),
        is_ascii_chars(help),
    ensures
        is_ascii_chars(text_with_help(text, help, width)),
{
    let pad = padding(width, bytes(text) + bytes(help));
    lemma_ascii_join(text, pad);
    lemma_ascii_join(text + pad, help);
}

/// Truncated text never has more characters than it is allowed to.
pub proof fn law_truncated_text_fits(s: Seq<char>, max: nat)
    ensures
        truncated(s, max).len() <= max,
{
    reveal_strlit("...");
}

/// What the status bar tells: the repository, what is compared with what, where the current commit
/// stands in its stack, how many files there are, how many lines were added and deleted, which
/// lines are shown, and how far they are scrolled.
pub open spec fn told_status(app: App) -> Seq<char> {
    (match name_in(app.repo_path@) {
        Some(name) => name,
        None => "repo"@,
    }) + " | "@ + app.comparison.to_label@ + " vs "@ + app.comparison.from_label@ + (
    match app.comparison.stack_position {
        Some(pos) => " ["@ + decimal(pos.current as nat) + "/"@ + decimal(pos.total as nat) + (
        if pos.head_count > 1 {
            " head 1/"@ + decimal(pos.head_count as nat)
        } else {
            Seq::empty()
        }) + "]"@,
        None => Seq::empty(),
    }) + " | "@ + told_stats(app)
}

/// What the status bar tells of how much changed, and of what is shown.
pub open spec fn told_stats(app: App) -> Seq<char> {
    decimal(app.files@.len()) + (if app.files@.len() == 1 {
        " file | +"@
    } else {
        " files | +"@
    }) + decimal(app.additions as nat) + " -"@ + decimal(app.deletions as nat) + (
    match app.view.view_mode {
        ViewMode::Full => " [all lines]"@,
        ViewMode::Context => " [context]"@,
        ViewMode::ChangesOnly => " [changed lines only]"@,
        ViewMode::CommitOnly => " [commit "@ + app.comparison.to_label@ + "]"@,
        ViewMode::BookmarkOnly => match app.comparison.bookmark_name {
            Some(name) => " [bookmark "@ + name@ + "]"@,
            None => " [bookmark]"@,
        },
    }) + " | "@ + decimal(app.scroll_percentage as nat) + "%"@
}

/// The warning behind the status, where there is one.
pub open spec fn told_warning(app: App) -> Seq<char> {
    match app.performance_warning {
        Some(warning) => " ["@ + warning@ + "]"@,
        None => Seq::empty(),
    }
}

proof fn lemma_told(app: App)
    ensures
        stats_text(app) == told_stats(app),
        status_text(app) == told_status(app),
{
    reveal_strlit(" file | +");
    reveal_strlit(" files | +");
    reveal_strlit(" file");
    reveal_strlit("");
    reveal_strlit("s");
    reveal_strlit(" | ");
    reveal_strlit("+");
    reveal_strlit(" -");
    reveal_strlit(" ");
    reveal_strlit("-");
    let n = app.files@.len();
    assert(" file"@ + plural(n) + " | "@ + "+"@ =~= (if n == 1 {
        " file | +"@
    } else {
        " files | +"@
    }));
    assert(" "@ + "-"@ =~= " -"@);
    let count = decimal(n);
    let (added, deleted) = (decimal(app.additions as nat), decimal(app.deletions as nat));
    let progress = progress_text(app);
    assert(stats_text(app) =~= count + (" file"@ + plural(n) + " | "@ + "+"@) + added + (" "@
        + "-"@) + deleted + progress);
    assert(stats_text(app) =~= told_stats(app));
    if let Some(pos) = app.comparison.stack_position {
        let none = Seq::<char>::empty();
        let base = repo_text(app) + " | "@ + app.comparison.to_label@ + " vs "@
            + app.comparison.from_label@;
        let heads = if pos.head_count > 1 {
            " head 1/"@ + decimal(pos.head_count as nat)
        } else {
            none
        };
        let place = " ["@ + decimal(pos.current as nat) + "/"@ + decimal(pos.total as nat);
        assert(branch_text(app) =~= base + (place + heads + "]"@));
    } else {
        assert(branch_text(app) + Seq::<char>::empty() =~= branch_text(app));
    }
    assert(status_text(app) =~= told_status(app));
}

proof fn lemma_counts_and_warning(app: App, lead: Seq<char>)
    ensures
        text_of_spans(counts_spans(app, lead)) == lead + additions_text(app) + " "@
            + deletions_text(app) + progress_text(app) + told_warning(app),
{
    let calm = App { performance_warning: None, ..app };
    lemma_counts_text(calm, lead);
    assert(counts_spans(calm, lead).len() == 5);
    let text = lead + additions_text(app) + " "@ + deletions_text(app) + progress_text(app);
    match app.performance_warning {
        Some(warning) => {
            crate::style::lemma_text_of_push(
                counts_spans(calm, lead),
                styled(" ["@ + warning@ + "]"@, plain_style().with_fg(Color::Yellow)),
            );
        },
        None => {
            assert(counts_spans(calm, lead) =~= counts_spans(app, lead));
            assert(text + told_warning(app) =~= text);
        },
    }
}

proof fn lemma_selected_line(line: Seq<SpanView>, selection: Option<Selection>, row: usize)
    ensures
        text_of_spans(with_selection(line, selection, row)) == text_of_spans(line),
{
    if let Some(range) = selected_range(selection, row) {
        crate::ui::selection::law_selected_range_is_ordered(selection, row);
        crate::ui::selection::law_marking_spans_keeps_text(line, range.0, range.1);
    }
}

/// Where all of it fits into one line, the status bar tells everything, a warning too, and ends with
/// the keys.
pub proof fn law_status_bar_tells_everything(app: App, area: Rect)
    requires
        area.height < 2,
        bytes(told_status(app)) + bytes(" q:quit  j/k:files  g/G:top/bottom  ?:help "@) + 2
            <= area.width,
    ensures
        bar_height(app, area.width) == 1,
        bar_lines(app, area).len() == 1,
        text_of_spans(bar_lines(app, area)[0]) == told_status(app) + told_warning(app) + copies(
            ' ',
            (area.width - (bytes(told_status(app)) + bytes(
                " q:quit  j/k:files  g/G:top/bottom  ?:help "@,
            ))) as nat,
        ) + " q:quit  j/k:files  g/G:top/bottom  ?:help "@,
{
    lemma_told(app);
    let width = area.width as nat;
    let lead = branch_text(app) + " | "@ + files_text(app);
    let spans = counts_spans(app, lead);
    lemma_counts_and_warning(app, lead);
    assert(lead + additions_text(app) + " "@ + deletions_text(app) + progress_text(app)
        =~= status_text(app));
    lemma_help_text(spans, bytes(status_text(app)), help_text(), width);
    lemma_selected_line(
        only_line(app, width),
        app.view.selection,
        app.view.row_map@.len() as usize,
    );
}

/// In two lines, the first one tells what is compared and ends with the keys, all of them or the
/// most important one, and the second one tells how much changed, a warning too. What does not fit
/// is cut, and dots tell so.
pub proof fn law_two_status_lines_tell_everything(app: App, area: Rect)
    requires
        area.height >= 2,
    ensures
        ({
            let lines = bar_lines(app, area);
            let first = text_of_spans(lines[0]);
            let second = text_of_spans(lines[1]);
            let keys = " q:quit  j/k:files  g/G:top/bottom  ?:help "@;
            let short = " ?:help "@;
            let what = branch_text(app);
            let used = bytes(what);
            let width = area.width as nat;
            &&& told_status(app) == what + " | "@ + told_stats(app)
            &&& lines.len() == 2
            &&& used + bytes(keys) + 2 <= width ==> first == what + copies(
                ' ',
                (width - (used + bytes(keys))) as nat,
            ) + keys
            &&& used + bytes(keys) + 2 > width && used + bytes(short) + 2 <= width ==> first == what
                + copies(' ', (width - (used + bytes(short))) as nat) + short
            &&& first.len() >= short.len() && first.skip(first.len() - short.len()) == short
            &&& bytes(told_stats(app)) <= width ==> second == told_stats(app) + told_warning(app)
            &&& bytes(told_stats(app)) > width ==> second == truncated(told_stats(app), width)
        }),
{
    lemma_told(app);
    reveal_strlit(" q:quit  j/k:files  g/G:top/bottom  ?:help ");
    reveal_strlit(" ?:help ");
    let width = area.width as nat;
    let branch = branch_text(app);
    let (keys, short) = (help_text(), short_help_text());
    let room = if bytes(short) + 1 < width {
        (width - (bytes(short) + 1)) as nat
    } else {
        0
    };
    let cut = truncated(branch, room);
    lemma_one_text(styled(branch, cyan()));
    lemma_one_text(styled(cut, cyan()));
    lemma_one_text(styled(truncated(stats_text(app), width), cyan()));
    lemma_help_text(seq![styled(branch, cyan())], bytes(branch), keys, width);
    lemma_help_text(seq![styled(branch, cyan())], bytes(branch), short, width);
    lemma_help_text(seq![styled(cut, cyan())], bytes(cut), short, width);
    lemma_counts_and_warning(app, files_text(app));
    let row = app.view.row_map@.len();
    lemma_selected_line(first_line(app, width), app.view.selection, row as usize);
    lemma_selected_line(second_line(app, width), app.view.selection, next_row(row));
    let first = text_of_spans(bar_lines(app, area)[0]);
    assert(keys.skip(keys.len() - short.len()) =~= short);
    let front = first.take(first.len() - short.len());
    assert(first.skip(first.len() - short.len()) =~= short);
}

/// Text that is cut keeps its beginning, and dots stand in place of the rest; text that fits is kept
/// as it is.
pub proof fn law_truncated_text_keeps_its_beginning(s: Seq<char>, max: nat)
    ensures
        s.len() <= max ==> truncated(s, max) == s,
        s.len() > max > 3 ==> truncated(s, max).len() == max && truncated(s, max).take(max - 3)
            == s.take(max - 3) && truncated(s, max).skip(max - 3) == seq!['.', '.', '.'],
        s.len() > max && max <= 3 ==> truncated(s, max).len() == max && (forall|i: int|
            0 <= i < max ==> #[trigger] truncated(s, max)[i] == '.'),
{
    reveal_strlit("...");
    if s.len() > max && max > 3 {
        assert(truncated(s, max).take(max - 3) =~= s.take(max - 3));
        assert(truncated(s, max).skip(max - 3) =~= seq!['.', '.', '.']);
    }
}

/// The counts stand out: that of the added lines in green, that of the deleted ones in red, and a
/// warning in yellow.
pub proof fn law_counts_have_their_colours(app: App, lead: Seq<char>)
    ensures
        ({
            let spans = counts_spans(app, lead);
            &&& spans[1].style == plain_style().with_fg(Color::LightGreen)
            &&& spans[1].content == seq!['+'] + decimal(app.additions as nat)
            &&& spans[3].style == plain_style().with_fg(Color::Red)
            &&& spans[3].content == seq!['-'] + decimal(app.deletions as nat)
            &&& app.performance_warning is Some ==> spans.len() == 6 && spans[5].style
                == plain_style().with_fg(Color::Yellow)
        }),
{
    reveal_strlit("+");
    reveal_strlit("-");
    assert("+"@ =~= seq!['+']);
    assert("-"@ =~= seq!['-']);
}

} // verus!

//! What is written out of a diff: the files with the lines that the view mode shows.
use vstd::prelude::*;
use vstd::string::*;

use crate::app::App;
use crate::app::ViewMode;
use crate::diff::LineSource;
use crate::diff::copy_lines;
use crate::diff::elided_line;
use crate::diff::DiffLine;
use crate::diff::DiffLineView;
use crate::diff::FileDiff;
use crate::patch::stands_in_new;
use crate::patch::stands_in_old;
use crate::path::file_name;
use crate::path::name_in;
use crate::text::among;
use crate::ui::wrapping::clip;

verus! {

/// How many lines around a change are shown with it.
pub const CONTEXT_LINES: usize = 5;

/// A file with the lines that are shown of it.
#[derive(Debug)]
pub struct OutputFile {
    pub path: String,
    pub lines: Vec<DiffLine>,
    pub additions: usize,
    pub deletions: usize,
    /// Whether the lines are hidden at first.
    pub collapsed: bool,
}

/// What an `OutputFile` holds.
pub struct OutputFileView {
    pub path: Seq<char>,
    pub lines: Seq<DiffLineView>,
    pub additions: nat,
    pub deletions: nat,
    pub collapsed: bool,
}

impl DeepView for OutputFile {
    type V = OutputFileView;

    open spec fn deep_view(&self) -> OutputFileView {
        OutputFileView {
            path: self.path@,
            lines: self.lines.deep_view(),
            additions: self.additions as nat,
            deletions: self.deletions as nat,
            collapsed: self.collapsed,
        }
    }
}

/// All that is written out, in whatever format.
#[derive(Debug)]
pub struct OutputData {
    pub repo_name: String,
    pub to_label: String,
    pub from_label: String,
    pub files: Vec<OutputFile>,
    pub total_additions: usize,
    pub total_deletions: usize,
}

/// Whether a line is shown for its own sake: headings and changes are.
pub open spec fn interesting(line: DiffLineView) -> bool {
    line.source is FileHeader || line.old_content is Some || line.inline_spans.len() > 0
        || line.source.changes()
}

/// Whether line `k` is shown for its own sake and near enough to line `i`.
pub open spec fn near(lines: Seq<DiffLineView>, i: int, k: int) -> bool {
    0 <= k < lines.len() && k - CONTEXT_LINES <= i <= k + CONTEXT_LINES && interesting(lines[k])
}

/// Whether a line is shown for its own sake or for that of a line near it.
pub open spec fn in_context(lines: Seq<DiffLineView>, i: int) -> bool {
    exists|k: int| #[trigger] near(lines, i, k)
}

/// For each line, whether it is shown.
pub fn context_visibility(lines: &[DiffLine]) -> (r: Vec<bool>)
    ensures
        r@.len() == lines@.len(),
        forall|i: int| 0 <= i < r@.len() ==> #[trigger] r@[i] == in_context(lines.deep_view(), i),
{
    let ghost all = lines.deep_view();
    let mut show: Vec<bool> = Vec::new();
    let mut i: usize = 0;
    while i < lines.len()
        invariant
            i <= lines@.len(),
            all == lines.deep_view(),
            show@.len() == i,
            forall|j: int| 0 <= j < i ==> #[trigger] show@[j] == in_context(all, j),
        decreases lines.len() - i,
    {
        let mut k: usize = i.saturating_sub(CONTEXT_LINES);
        let mut shown = false;
        while k < lines.len() && (k <= i || k - i <= CONTEXT_LINES)
            invariant
                i < lines@.len(),
                k <= lines@.len(),
                i <= k + CONTEXT_LINES,
                k <= i + CONTEXT_LINES + 1,
                all == lines.deep_view(),
                shown ==> in_context(all, i as int),
                !shown ==> forall|j: int| 0 <= j < k ==> !#[trigger] near(all, i as int, j),
            decreases lines.len() - k,
        {
            let line = &lines[k];
            assert(all[k as int] == line.deep_view());
            assert(line.deep_view().inline_spans.len() == line.inline_spans@.len());
            if line.source.is_header() || line.old_content.is_some() || line.inline_spans.len() > 0
                || line.source.is_change() {
                assert(near(all, i as int, k as int));
                shown = true;
            }
            k = k + 1;
        }
        show.push(shown);
        i = i + 1;
    }
    show
}

/// A line of what is shown: one of the given lines, or a mark in place of so many.
pub enum Kept {
    Line(int),
    Gap(nat),
}

/// What is shown so far, and how many lines were left out since.
pub struct Plan {
    pub items: Seq<Kept>,
    pub hidden: nat,
}

/// What is shown of some lines.
pub open spec fn planned(show: Seq<bool>) -> Plan
    decreases show.len(),
{
    if show.len() == 0 {
        Plan { items: Seq::empty(), hidden: 0 }
    } else {
        let before = planned(show.drop_last());
        if show.last() {
            Plan { items: before.closed().push(Kept::Line(show.len() - 1)), hidden: 0 }
        } else {
            Plan { items: before.items, hidden: before.hidden + 1 }
        }
    }
}

impl Plan {
    /// What is shown, with a mark in place of the lines that were left out last.
    pub open spec fn closed(self) -> Seq<Kept> {
        if self.hidden > 0 {
            self.items.push(Kept::Gap(self.hidden))
        } else {
            self.items
        }
    }

    /// What is shown once there are no more lines. Where none is shown, there is no mark either.
    pub open spec fn finished(self) -> Seq<Kept> {
        if self.items.len() > 0 {
            self.closed()
        } else {
            Seq::empty()
        }
    }
}

/// The lines that are shown.
pub open spec fn written(lines: Seq<DiffLineView>, items: Seq<Kept>) -> Seq<DiffLineView> {
    items.map_values(
        |item: Kept|
            match item {
                Kept::Line(i) => lines[i],
                Kept::Gap(n) => elided_line(n),
            },
    )
}

/// The lines that are shown, with marks in place of the others.
pub open spec fn with_gaps(lines: Seq<DiffLineView>, show: Seq<bool>) -> Seq<DiffLineView> {
    written(lines, planned(show).finished())
}

/// The lines that are shown, with marks in place of the others.
pub fn filter_with_elided(lines: &[DiffLine], show: &[bool]) -> (r: Vec<DiffLine>)
    requires
        show@.len() >= lines@.len(),
    ensures
        r.deep_view() == with_gaps(lines.deep_view(), show@.take(lines@.len() as int)),
{
    let ghost all = lines.deep_view();
    let mut out: Vec<DiffLine> = Vec::new();
    let mut hidden: usize = 0;
    let mut i: usize = 0;
    assert(show@.take(0).len() == 0);
    assert(out.deep_view() =~= written(all, Seq::empty()));
    while i < lines.len()
        invariant
            i <= lines@.len(),
            lines@.len() <= show@.len(),
            all == lines.deep_view(),
            hidden <= i,
            hidden == planned(show@.take(i as int)).hidden,
            out.deep_view() == written(all, planned(show@.take(i as int)).items),
        decreases lines.len() - i,
    {
        let ghost plan = planned(show@.take(i as int));
        assert(show@.take(i + 1).drop_last() =~= show@.take(i as int));
        if show[i] {
            if hidden > 0 {
                let gap = DiffLine::elided(hidden);
                let ghost before = out.deep_view();
                out.push(gap);
                assert(out.deep_view() =~= before.push(gap.deep_view()));
            }
            assert(out.deep_view() =~= written(all, plan.closed()));
            let line = lines[i].clone();
            assert(all[i as int] == line.deep_view());
            let ghost before = out.deep_view();
            out.push(line);
            assert(out.deep_view() =~= before.push(line.deep_view()));
            assert(out.deep_view() =~= written(all, plan.closed().push(Kept::Line(i as int))));
            hidden = 0;
        } else {
            hidden = hidden + 1;
        }
        i = i + 1;
    }
    let ghost plan = planned(show@.take(lines@.len() as int));
    assert(out.deep_view().len() == out@.len());
    if out.len() > 0 && hidden > 0 {
        let gap = DiffLine::elided(hidden);
        let ghost before = out.deep_view();
        out.push(gap);
        assert(out.deep_view() =~= before.push(gap.deep_view()));
    }
    assert(out.deep_view() =~= written(all, plan.finished()));
    out
}

/// The changes and the headings among some lines.
pub open spec fn only_changes(lines: Seq<DiffLineView>) -> Seq<DiffLineView>
    decreases lines.len(),
{
    if lines.len() == 0 {
        Seq::empty()
    } else {
        let before = only_changes(lines.drop_last());
        if lines.last().source.changes() || lines.last().source is FileHeader {
            before.push(lines.last())
        } else {
            before
        }
    }
}

/// The lines that a view mode shows. What is written out of the current commit or bookmark is the
/// whole diff, with the lines around its changes.
pub open spec fn shown_lines(lines: Seq<DiffLineView>, mode: ViewMode) -> Seq<DiffLineView> {
    match mode {
        ViewMode::Full => lines,
        ViewMode::ChangesOnly => only_changes(lines),
        ViewMode::Context | ViewMode::CommitOnly | ViewMode::BookmarkOnly => with_gaps(
            lines,
            Seq::new(lines.len(), |i: int| in_context(lines, i)),
        ),
    }
}

/// The lines that a view mode shows.
pub fn apply_view_mode(lines: &[DiffLine], view_mode: ViewMode) -> (r: Vec<DiffLine>)
    ensures
        r.deep_view() == shown_lines(lines.deep_view(), view_mode),
{
    match view_mode {
        ViewMode::Full => copy_lines(lines),
        ViewMode::ChangesOnly => {
            let ghost all = lines.deep_view();
            let mut out: Vec<DiffLine> = Vec::new();
            let mut i: usize = 0;
            assert(all.take(0).len() == 0);
            assert(out.deep_view() =~= Seq::empty());
            while i < lines.len()
                invariant
                    i <= lines@.len(),
                    all == lines.deep_view(),
                    out.deep_view() == only_changes(all.take(i as int)),
                decreases lines.len() - i,
            {
                assert(all.take(i + 1).drop_last() =~= all.take(i as int));
                assert(all[i as int] == lines@[i as int].deep_view());
                if lines[i].source.is_change() || lines[i].source.is_header() {
                    let line = lines[i].clone();
                    let ghost before = out.deep_view();
                    out.push(line);
                    assert(out.deep_view() =~= before.push(line.deep_view()));
                }
                i = i + 1;
            }
            assert(all.take(all.len() as int) =~= all);
            out
        },
        ViewMode::Context | ViewMode::CommitOnly | ViewMode::BookmarkOnly => {
            let show = context_visibility(lines);
            let ghost all = lines.deep_view();
            assert(show@.take(lines@.len() as int) =~= Seq::new(
                all.len(),
                |i: int| in_context(all, i),
            ));
            filter_with_elided(lines, show.as_slice())
        },
    }
}

/// How many of some lines were added.
pub open spec fn count_added(lines: Seq<DiffLineView>) -> nat
    decreases lines.len(),
{
    if lines.len() == 0 {
        0
    } else {
        count_added(lines.drop_last()) + (if lines.last().source.adds() {
            1nat
        } else {
            0
        })
    }
}

/// How many of some lines were deleted.
pub open spec fn count_deleted(lines: Seq<DiffLineView>) -> nat
    decreases lines.len(),
{
    if lines.len() == 0 {
        0
    } else {
        count_deleted(lines.drop_last()) + (if lines.last().source.deletes() {
            1nat
        } else {
            0
        })
    }
}

fn count_lines(lines: &[DiffLine]) -> (r: (usize, usize))
    ensures
        r.0 == count_added(lines.deep_view()),
        r.1 == count_deleted(lines.deep_view()),
{
    let ghost all = lines.deep_view();
    let mut added: usize = 0;
    let mut deleted: usize = 0;
    let mut i: usize = 0;
    assert(all.take(0).len() == 0);
    while i < lines.len()
        invariant
            i <= lines@.len(),
            all == lines.deep_view(),
            added <= i,
            deleted <= i,
            added == count_added(all.take(i as int)),
            deleted == count_deleted(all.take(i as int)),
        decreases lines.len() - i,
    {
        assert(all.take(i + 1).drop_last() =~= all.take(i as int));
        assert(all[i as int] == lines@[i as int].deep_view());
        if lines[i].source.is_addition() {
            added = added + 1;
        }
        if lines[i].source.is_deletion() {
            deleted = deleted + 1;
        }
        i = i + 1;
    }
    assert(all.take(all.len() as int) =~= all);
    (added, deleted)
}

/// The path in the heading of a file.
pub open spec fn heading_path(lines: Seq<DiffLineView>) -> Seq<char> {
    if lines.len() > 0 && lines[0].source is FileHeader {
        lines[0].content
    } else {
        Seq::empty()
    }
}

/// Whether there is more of a file than headings.
pub open spec fn has_content(lines: Seq<DiffLineView>) -> bool {
    exists|i: int| 0 <= i < lines.len() && !((#[trigger] lines[i]).source is FileHeader)
}

/// What is written out of a file.
pub open spec fn output_file(
    lines: Seq<DiffLineView>,
    mode: ViewMode,
    collapsed: Seq<Seq<char>>,
) -> OutputFileView {
    let shown = shown_lines(lines, mode);
    OutputFileView {
        path: heading_path(lines),
        lines: shown,
        additions: count_added(shown),
        deletions: count_deleted(shown),
        collapsed: collapsed.contains(heading_path(lines)),
    }
}

/// What is written out of the files. Those of which there are only headings are left out.
pub open spec fn output_files(
    files: Seq<Seq<DiffLineView>>,
    mode: ViewMode,
    collapsed: Seq<Seq<char>>,
) -> Seq<OutputFileView>
    decreases files.len(),
{
    if files.len() == 0 {
        Seq::empty()
    } else {
        let before = output_files(files.drop_last(), mode, collapsed);
        if has_content(files.last()) {
            before.push(output_file(files.last(), mode, collapsed))
        } else {
            before
        }
    }
}

/// How many lines were added in all files.
pub open spec fn all_added(files: Seq<OutputFileView>) -> nat
    decreases files.len(),
{
    if files.len() == 0 {
        0
    } else {
        all_added(files.drop_last()) + files.last().additions
    }
}

/// How many lines were deleted in all files.
pub open spec fn all_deleted(files: Seq<OutputFileView>) -> nat
    decreases files.len(),
{
    if files.len() == 0 {
        0
    } else {
        all_deleted(files.drop_last()) + files.last().deletions
    }
}

/// What is written out of a file, where there is more of it than headings.
fn prepare_file(file: &FileDiff, mode: ViewMode, collapsed: &[String]) -> (r: Option<OutputFile>)
    ensures
        r is Some <==> has_content(file.deep_view()),
        r matches Some(out) ==> out.deep_view() == output_file(
            file.deep_view(),
            mode,
            collapsed.deep_view(),
        ),
{
    let ghost all = file.deep_view();
    let mut found = false;
    let mut i: usize = 0;
    while i < file.lines.len() && !found
        invariant
            i <= file.lines@.len(),
            all == file.deep_view(),
            found ==> has_content(all),
            !found ==> forall|j: int| 0 <= j < i ==> (#[trigger] all[j]).source is FileHeader,
        decreases file.lines.len() - i,
    {
        assert(all[i as int] == file.lines@[i as int].deep_view());
        if !file.lines[i].source.is_header() {
            found = true;
        }
        i = i + 1;
    }
    if !found {
        return None;
    }
    assert(all[0] == file.lines@[0].deep_view());
    let path = if file.lines[0].source.is_header() {
        file.lines[0].content.clone()
    } else {
        String::new()
    };
    assert(path@ =~= heading_path(all));
    let part = file.lines.as_slice();
    assert(part.deep_view() =~= all);
    let lines = apply_view_mode(part, mode);
    let shown = lines.as_slice();
    assert(shown.deep_view() =~= lines.deep_view());
    let (additions, deletions) = count_lines(shown);
    let is_collapsed = among(collapsed, path.as_str());
    Some(OutputFile { path, lines, additions, deletions, collapsed: is_collapsed })
}

/// What is written out of a diff, whatever the format. The inline spans of its lines are those that
/// it was given: lines with older text show what changed within them only where their inline spans
/// were computed before, since nothing computes them here.
pub fn prepare(app: &App) -> (r: OutputData)
    ensures
        r.repo_name@ == (match name_in(app.repo_path@) {
            Some(name) => name,
            None => "repo"@,
        }),
        r.to_label@ == app.comparison.to_label@,
        r.from_label@ == app.comparison.from_label@,
        r.files.deep_view() == output_files(
            app.files.deep_view(),
            app.view.view_mode,
            app.view.collapsed_files.deep_view(),
        ),
        r.total_additions == clip(all_added(r.files.deep_view())),
        r.total_deletions == clip(all_deleted(r.files.deep_view())),
{
    let ghost given = app.files.deep_view();
    let ghost collapsed = app.view.collapsed_files.deep_view();
    let mode = app.view.view_mode;
    let mut files: Vec<OutputFile> = Vec::new();
    let mut total_additions: usize = 0;
    let mut total_deletions: usize = 0;
    let mut i: usize = 0;
    assert(given.take(0).len() == 0);
    assert(files.deep_view() =~= Seq::empty());
    while i < app.files.len()
        invariant
            i <= app.files@.len(),
            given == app.files.deep_view(),
            collapsed == app.view.collapsed_files.deep_view(),
            files.deep_view() == output_files(given.take(i as int), mode, collapsed),
            total_additions == clip(all_added(files.deep_view())),
            total_deletions == clip(all_deleted(files.deep_view())),
        decreases app.files.len() - i,
    {
        assert(given.take(i + 1).drop_last() =~= given.take(i as int));
        assert(given[i as int] == app.files@[i as int].deep_view());
        let hidden = app.view.collapsed_files.as_slice();
        assert(hidden.deep_view() =~= collapsed);
        if let Some(file) = prepare_file(&app.files[i], mode, hidden) {
            let ghost before = files.deep_view();
            total_additions = total_additions.saturating_add(file.additions);
            total_deletions = total_deletions.saturating_add(file.deletions);
            files.push(file);
            assert(files.deep_view() =~= before.push(file.deep_view()));
            assert(files.deep_view().drop_last() =~= before);
        }
        i = i + 1;
    }
    assert(given.take(given.len() as int) =~= given);
    let repo_name = match file_name(app.repo_path.as_str()) {
        Some(name) => name,
        None => String::from_str("repo"),
    };
    OutputData {
        repo_name,
        to_label: app.comparison.to_label.clone(),
        from_label: app.comparison.from_label.clone(),
        files,
        total_additions,
        total_deletions,
    }
}

/// How many of the given lines some items stand for.
pub open spec fn covered(items: Seq<Kept>) -> nat
    decreases items.len(),
{
    if items.len() == 0 {
        0
    } else {
        covered(items.drop_last()) + (match items.last() {
            Kept::Line(_) => 1,
            Kept::Gap(n) => n,
        })
    }
}

proof fn lemma_plan(show: Seq<bool>)
    ensures
        covered(planned(show).items) + planned(show).hidden == show.len(),
        covered(planned(show).closed()) == show.len(),
        planned(show).items.len() == 0 ==> planned(show).hidden == show.len(),
        forall|k: int|
            0 <= k < planned(show).items.len() ==> (#[trigger] planned(show).items[k] matches Kept::Line(
                i,
            ) ==> 0 <= i < show.len() && show[i]),
        forall|i: int|
            0 <= i < show.len() && #[trigger] show[i] ==> planned(show).items.contains(
                Kept::Line(i),
            ),
    decreases show.len(),
{
    let plan = planned(show);
    if show.len() > 0 {
        let earlier = show.drop_last();
        let before = planned(earlier);
        lemma_plan(earlier);
        if before.hidden > 0 {
            assert(before.closed().drop_last() =~= before.items);
        }
        if show.last() {
            assert(plan.items.drop_last() =~= before.closed());
            assert(plan.items.last() == Kept::Line(show.len() - 1));
        }
        assert forall|i: int| 0 <= i < show.len() && #[trigger] show[i] implies plan.items.contains(
            Kept::Line(i),
        ) by {
            if i < earlier.len() {
                assert(earlier[i]);
                let k = choose|k: int|
                    0 <= k < before.items.len() && before.items[k] == Kept::Line(i);
                assert(plan.items[k] == Kept::Line(i));
            } else {
                assert(plan.items[plan.items.len() - 1] == Kept::Line(i));
            }
        }
        assert forall|k: int| 0 <= k < plan.items.len() implies (
        #[trigger] plan.items[k] matches Kept::Line(i) ==> 0 <= i < show.len() && show[i]) by {
            if k < before.items.len() {
                assert(plan.items[k] == before.items[k]);
            }
        }
    }
    if plan.hidden > 0 {
        assert(plan.closed().drop_last() =~= plan.items);
    }
}

/// Nothing goes missing: the lines that are shown and those that the marks stand for are as many
/// as there are, where any line is shown at all. Exactly the lines that are to be shown are.
pub proof fn law_marks_count_what_is_left_out(show: Seq<bool>)
    ensures
        planned(show).items.len() > 0 ==> covered(planned(show).finished()) == show.len(),
        planned(show).items.len() == 0 <==> (forall|i: int| 0 <= i < show.len() ==> !show[i]),
        forall|i: int|
            0 <= i < show.len() ==> (#[trigger] show[i] <==> planned(show).finished().contains(
                Kept::Line(i),
            )),
{
    lemma_plan(show);
    let plan = planned(show);
    assert forall|i: int| 0 <= i < show.len() implies (#[trigger] show[i]
        <==> plan.finished().contains(Kept::Line(i))) by {
        if show[i] {
            assert(plan.items.contains(Kept::Line(i)));
            let k = choose|k: int| 0 <= k < plan.items.len() && plan.items[k] == Kept::Line(i);
            assert(plan.finished()[k] == Kept::Line(i));
        }
        if plan.finished().contains(Kept::Line(i)) {
            let k = choose|k: int|
                0 <= k < plan.finished().len() && plan.finished()[k] == Kept::Line(i);
            assert(plan.items[k] == Kept::Line(i));
        }
    }
    if plan.items.len() == 0 {
        assert forall|i: int| 0 <= i < show.len() implies !show[i] by {
            if show[i] {
                assert(plan.items.contains(Kept::Line(i)));
            }
        }
    } else {
        if forall|i: int| 0 <= i < show.len() ==> !show[i] {
            lemma_nothing_shown(show);
        }
    }
}

proof fn lemma_nothing_shown(show: Seq<bool>)
    requires
        forall|i: int| 0 <= i < show.len() ==> !show[i],
    ensures
        planned(show).items.len() == 0,
    decreases show.len(),
{
    if show.len() > 0 {
        lemma_nothing_shown(show.drop_last());
    }
}

/// No change is left out, whatever the view mode.
pub proof fn law_changes_are_always_shown(lines: Seq<DiffLineView>, mode: ViewMode, i: int)
    requires
        0 <= i < lines.len(),
        lines[i].source.changes(),
    ensures
        shown_lines(lines, mode).contains(lines[i]),
{
    match mode {
        ViewMode::Full => {},
        ViewMode::ChangesOnly => {
            lemma_only_changes(lines, i);
        },
        _ => {
            let show = Seq::new(lines.len(), |i: int| in_context(lines, i));
            assert(near(lines, i, i));
            assert(show[i]);
            law_marks_count_what_is_left_out(show);
            let items = planned(show).finished();
            assert(items.contains(Kept::Line(i)));
            let k = choose|k: int| 0 <= k < items.len() && items[k] == Kept::Line(i);
            assert(written(lines, items)[k] == lines[i]);
        },
    }
}

proof fn lemma_only_changes(lines: Seq<DiffLineView>, i: int)
    requires
        0 <= i < lines.len(),
        lines[i].source.changes(),
    ensures
        only_changes(lines).contains(lines[i]),
    decreases lines.len(),
{
    let kept = only_changes(lines);
    if i == lines.len() - 1 {
        assert(kept[kept.len() - 1] == lines[i]);
    } else {
        lemma_only_changes(lines.drop_last(), i);
        let before = only_changes(lines.drop_last());
        let k = choose|k: int| 0 <= k < before.len() && before[k] == lines[i];
        assert(kept[k] == lines[i]);
    }
}

/// For each line that some items stand for, whether it is shown.
pub open spec fn spread(items: Seq<Kept>) -> Seq<bool>
    decreases items.len(),
{
    if items.len() == 0 {
        Seq::empty()
    } else {
        spread(items.drop_last()) + (match items.last() {
            Kept::Line(_) => seq![true],
            Kept::Gap(n) => not_shown(n),
        })
    }
}

/// So many lines that are not shown.
pub open spec fn not_shown(n: nat) -> Seq<bool> {
    Seq::new(n, |i: int| false)
}

/// Whether each line that is shown stands where it did among all lines, and no mark stands for
/// nothing or beside another one.
pub open spec fn in_place(items: Seq<Kept>) -> bool {
    &&& forall|k: int|
        0 <= k < items.len() ==> (#[trigger] items[k] matches Kept::Line(i) ==> i == covered(
            items.take(k),
        ))
    &&& forall|k: int|
        0 <= k < items.len() ==> (#[trigger] items[k] matches Kept::Gap(n) ==> n > 0 && (k > 0
            ==> items[k - 1] is Line))
}

proof fn lemma_in_place_push(items: Seq<Kept>, item: Kept)
    requires
        in_place(items),
        item matches Kept::Line(i) ==> i == covered(items),
        item matches Kept::Gap(n) ==> n > 0 && (items.len() > 0 ==> items.last() is Line),
    ensures
        in_place(items.push(item)),
{
    let all = items.push(item);
    assert forall|k: int| 0 <= k < all.len() implies (#[trigger] all[k] matches Kept::Line(i)
        ==> i == covered(all.take(k))) by {
        if k < items.len() {
            assert(all[k] == items[k]);
            assert(all.take(k) =~= items.take(k));
        } else {
            assert(all.take(k) =~= items);
        }
    }
    assert forall|k: int| 0 <= k < all.len() implies (#[trigger] all[k] matches Kept::Gap(n) ==> n
        > 0 && (k > 0 ==> all[k - 1] is Line)) by {
        if k < items.len() {
            assert(all[k] == items[k]);
        }
    }
}

proof fn lemma_spread(show: Seq<bool>)
    ensures
        spread(planned(show).closed()) == show,
        spread(planned(show).items) + not_shown(planned(show).hidden) == show,
    decreases show.len(),
{
    let plan = planned(show);
    if show.len() == 0 {
        assert(spread(plan.items) + not_shown(plan.hidden) =~= show);
    } else {
        let earlier = show.drop_last();
        let before = planned(earlier);
        lemma_spread(earlier);
        if show.last() {
            assert(plan.items.drop_last() =~= before.closed());
            assert(spread(plan.items) =~= earlier + seq![true]);
            assert(earlier + seq![true] =~= show);
            assert(spread(plan.items) + not_shown(0) =~= show);
        } else {
            assert(not_shown(plan.hidden) =~= not_shown(before.hidden) + seq![false]);
            assert(spread(plan.items) + not_shown(plan.hidden) =~= earlier + seq![false]);
            assert(earlier + seq![false] =~= show);
        }
    }
    if plan.hidden > 0 {
        assert(plan.closed().drop_last() =~= plan.items);
    } else {
        assert(spread(plan.items) + not_shown(plan.hidden) =~= spread(plan.items));
    }
}

proof fn lemma_in_place(show: Seq<bool>)
    ensures
        in_place(planned(show).items),
        in_place(planned(show).closed()),
        planned(show).items.len() > 0 ==> planned(show).items.last() is Line,
    decreases show.len(),
{
    let plan = planned(show);
    if show.len() > 0 {
        let earlier = show.drop_last();
        lemma_in_place(earlier);
        lemma_plan(earlier);
        if show.last() {
            lemma_in_place_push(planned(earlier).closed(), Kept::Line(show.len() - 1));
        }
    }
    if plan.hidden > 0 {
        lemma_in_place_push(plan.items, Kept::Gap(plan.hidden));
    }
}

/// What is shown of some lines, read in order, tells of every line whether it is shown, as long as
/// one is: the lines stand in the order that they had, and each mark stands for as many lines as
/// are left out at its place.
pub proof fn law_shown_lines_stay_in_place(show: Seq<bool>)
    ensures
        show.contains(true) ==> spread(planned(show).finished()) == show && in_place(
            planned(show).finished(),
        ),
        !show.contains(true) ==> planned(show).finished().len() == 0,
{
    lemma_spread(show);
    lemma_in_place(show);
    law_marks_count_what_is_left_out(show);
    if show.contains(true) {
        let i = choose|i: int| 0 <= i < show.len() && show[i] == true;
        assert(show[i]);
    } else {
        assert forall|i: int| 0 <= i < show.len() implies !show[i] by {
            if show[i] {
                assert(show.contains(true));
            }
        }
    }
}

/// Whether a line is one of those that a diff is about: a heading, or a line that was added,
/// deleted, both, or modified.
pub open spec fn tells_of_change(line: DiffLineView) -> bool {
    match line.source {
        LineSource::Base | LineSource::Elided => line.old_content is Some || line.inline_spans.len()
            > 0,
        _ => true,
    }
}

/// With their context, the lines are shown that are at most five lines away from a heading or a
/// change; the lines that stand in place of the others count them.
pub proof fn law_context_is_five_lines(lines: Seq<DiffLineView>, mode: ViewMode, i: int)
    requires
        mode is Context || mode is CommitOnly || mode is BookmarkOnly,
        0 <= i < lines.len(),
    ensures
        ({
            let show = Seq::new(lines.len(), |i: int| in_context(lines, i));
            &&& shown_lines(lines, mode) == planned(show).finished().map_values(
                |item: Kept|
                    match item {
                        Kept::Line(i) => lines[i],
                        Kept::Gap(n) => elided_line(n),
                    },
            )
            &&& show[i] <==> exists|k: int|
                0 <= k < lines.len() && i - 5 <= k <= i + 5 && tells_of_change(
                    #[trigger] lines[k],
                )
        }),
{
    if in_context(lines, i) {
        let k = choose|k: int| #[trigger] near(lines, i, k);
        assert(tells_of_change(lines[k]));
    }
    if exists|k: int|
        0 <= k < lines.len() && i - 5 <= k <= i + 5 && tells_of_change(#[trigger] lines[k]) {
        let k = choose|k: int|
            0 <= k < lines.len() && i - 5 <= k <= i + 5 && tells_of_change(#[trigger] lines[k]);
        assert(near(lines, i, k));
    }
}

/// Without context, what is shown is every heading and every line that was added, deleted, or both,
/// in order, and nothing else; in full, it is every line.
pub proof fn law_other_modes_show_all_changes(lines: Seq<DiffLineView>)
    ensures
        shown_lines(lines, ViewMode::Full) == lines,
        shown_lines(lines, ViewMode::ChangesOnly) == lines.filter(
            |line: DiffLineView| !(line.source is Base) && !(line.source is Elided),
        ),
    decreases lines.len(),
{
    reveal(Seq::filter);
    if lines.len() > 0 {
        law_other_modes_show_all_changes(lines.drop_last());
    }
}

/// The counts are those of the lines that stand in one of the two files alone: the new one for the
/// additions, the old one for the deletions.
pub proof fn law_counts_are_those_of_the_lines(lines: Seq<DiffLineView>)
    ensures
        count_added(lines) == lines.filter(
            |line: DiffLineView| stands_in_new(line.source) && !stands_in_old(line.source),
        ).len(),
        count_deleted(lines) == lines.filter(
            |line: DiffLineView| stands_in_old(line.source) && !stands_in_new(line.source),
        ).len(),
    decreases lines.len(),
{
    reveal(Seq::filter);
    if lines.len() > 0 {
        law_counts_are_those_of_the_lines(lines.drop_last());
    }
}

/// What is written out of a file: the path in its heading, the lines that its view mode shows, how
/// many of those were added and deleted, and whether it is collapsed. A file with a heading alone
/// is left out.
pub proof fn law_files_are_written_out(
    lines: Seq<DiffLineView>,
    mode: ViewMode,
    collapsed: Seq<Seq<char>>,
)
    requires
        lines.len() > 0,
        lines[0].source is FileHeader,
    ensures
        output_files(seq![lines], mode, collapsed) == (if forall|i: int|
            0 <= i < lines.len() ==> (#[trigger] lines[i]).source is FileHeader {
            Seq::empty()
        } else {
            seq![
                OutputFileView {
                    path: lines[0].content,
                    lines: shown_lines(lines, mode),
                    additions: count_added(shown_lines(lines, mode)),
                    deletions: count_deleted(shown_lines(lines, mode)),
                    collapsed: collapsed.contains(lines[0].content),
                },
            ]
        }),
{
    reveal_with_fuel(output_files, 2);
    assert(seq![lines].drop_last() =~= Seq::empty());
    assert(seq![lines].last() == lines);
    assert(output_files(Seq::<Seq<DiffLineView>>::empty(), mode, collapsed) =~= Seq::empty());
    if has_content(lines) {
        let i = choose|i: int|
            0 <= i < lines.len() && !((#[trigger] lines[i]).source is FileHeader);
        assert(!(lines[i].source is FileHeader));
    }
    assert(output_files(seq![lines], mode, collapsed) =~= (if has_content(lines) {
        seq![output_file(lines, mode, collapsed)]
    } else {
        Seq::empty()
    }));
}

/// Files are written out one after the other, and the totals are the sums of their counts.
pub proof fn law_files_are_written_out_in_order(
    a: Seq<Seq<DiffLineView>>,
    b: Seq<Seq<DiffLineView>>,
    mode: ViewMode,
    collapsed: Seq<Seq<char>>,
    files: Seq<OutputFileView>,
    file: OutputFileView,
)
    ensures
        output_files(a + b, mode, collapsed) == output_files(a, mode, collapsed) + output_files(
            b,
            mode,
            collapsed,
        ),
        all_added(files.push(file)) == all_added(files) + file.additions,
        all_deleted(files.push(file)) == all_deleted(files) + file.deletions,
        all_added(Seq::empty()) == 0,
        all_deleted(Seq::empty()) == 0,
    decreases b.len(),
{
    assert(files.push(file).drop_last() =~= files);
    if b.len() == 0 {
        assert(a + b =~= a);
        assert(output_files(a, mode, collapsed) + output_files(b, mode, collapsed) =~= output_files(
            a,
            mode,
            collapsed,
        ));
    } else {
        law_files_are_written_out_in_order(a, b.drop_last(), mode, collapsed, files, file);
        assert((a + b).drop_last() =~= a + b.drop_last());
        assert(output_files(a + b, mode, collapsed) =~= output_files(a, mode, collapsed)
            + output_files(b, mode, collapsed));
    }
}

} // verus!

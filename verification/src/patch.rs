//! Unified patches, in the format that `git apply` reads.
use vstd::prelude::*;
use vstd::string::*;

use crate::diff::{DiffLine, DiffLineView, LineSource};
use crate::scan::{
    is_digit, law_numbers_are_read_back, lemma_first_piece, lemma_one_piece, lemma_pieces_of_both,
    pieces, value_of,
};
use crate::text::{append_number, decimal, number, same_text};

verus! {

/// Number of unchanged lines that a hunk shows on each side of a change.
pub const CONTEXT_LINES: usize = 3;

/// A line of a patch.
#[derive(Debug)]
pub struct PatchLine {
    /// `' '` for context, `'+'` for an addition, `'-'` for a deletion.
    pub prefix: char,
    /// The text, without its line end.
    pub content: String,
    /// The line's number in the old file, for context and deletions.
    pub old_line: Option<usize>,
    /// The line's number in the new file, for context and additions.
    pub new_line: Option<usize>,
}

/// What a `PatchLine` holds.
pub struct PatchLineView {
    pub prefix: char,
    pub content: Seq<char>,
    pub old_line: Option<usize>,
    pub new_line: Option<usize>,
}

impl DeepView for PatchLine {
    type V = PatchLineView;

    open spec fn deep_view(&self) -> PatchLineView {
        PatchLineView {
            prefix: self.prefix,
            content: self.content@,
            old_line: self.old_line,
            new_line: self.new_line,
        }
    }
}

impl Clone for PatchLine {
    fn clone(&self) -> (r: Self)
        ensures
            r == *self,
    {
        PatchLine {
            prefix: self.prefix,
            content: self.content.clone(),
            old_line: self.old_line,
            new_line: self.new_line,
        }
    }
}

impl PatchLineView {
    /// Whether the line stands in the old file.
    pub open spec fn in_old(self) -> bool {
        self.prefix == ' ' || self.prefix == '-'
    }

    /// Whether the line stands in the new file.
    pub open spec fn in_new(self) -> bool {
        self.prefix == ' ' || self.prefix == '+'
    }

    /// Whether the line was added or deleted.
    pub open spec fn changes(self) -> bool {
        self.prefix == '+' || self.prefix == '-'
    }
}

/// A contiguous section of changes with the context round them.
#[derive(Debug)]
pub struct Hunk {
    /// Number of the first line in the old file, counted from 1.
    pub old_start: usize,
    /// Number of lines of the old file in the hunk.
    pub old_count: usize,
    /// Number of the first line in the new file, counted from 1.
    pub new_start: usize,
    /// Number of lines of the new file in the hunk.
    pub new_count: usize,
    pub lines: Vec<PatchLine>,
}

/// What a `Hunk` holds.
pub struct HunkView {
    pub old_start: nat,
    pub old_count: nat,
    pub new_start: nat,
    pub new_count: nat,
    pub lines: Seq<PatchLineView>,
}

impl DeepView for Hunk {
    type V = HunkView;

    open spec fn deep_view(&self) -> HunkView {
        HunkView {
            old_start: self.old_start as nat,
            old_count: self.old_count as nat,
            new_start: self.new_start as nat,
            new_count: self.new_count as nat,
            lines: self.lines.deep_view(),
        }
    }
}

/// A range in a hunk header: the start alone where the count is 1.
pub open spec fn range_text(start: nat, count: nat) -> Seq<char> {
    if count == 1 {
        decimal(start)
    } else {
        decimal(start) + ","@ + decimal(count)
    }
}

/// A hunk header, such as `@@ -10,5 +12,7 @@`.
pub open spec fn header_text(h: HunkView) -> Seq<char> {
    "@@ -"@ + range_text(h.old_start, h.old_count) + " +"@ + range_text(h.new_start, h.new_count)
        + " @@"@
}

/// Lines of a patch, each with its prefix in front and a line end behind.
pub open spec fn lines_text(lines: Seq<PatchLineView>) -> Seq<char>
    decreases lines.len(),
{
    if lines.len() == 0 {
        Seq::empty()
    } else {
        lines_text(lines.drop_last()).push(lines.last().prefix) + lines.last().content + "\n"@
    }
}

/// A hunk: its header and its lines.
pub open spec fn hunk_text(h: HunkView) -> Seq<char> {
    header_text(h) + "\n"@ + lines_text(h.lines)
}

/// Formats a range for a hunk header; the count is left out where it is 1.
pub fn format_range(start: usize, count: usize) -> (r: String)
    ensures
        r@ == range_text(start as nat, count as nat),
{
    if count == 1 {
        number(start as u64)
    } else {
        let mut out = number(start as u64);
        out.append(",");
        append_number(&mut out, count as u64);
        out
    }
}

impl Hunk {
    /// The hunk's header.
    pub fn header(&self) -> (r: String)
        ensures
            r@ == header_text(self.deep_view()),
    {
        let mut out = "@@ -".to_owned();
        let old_range = format_range(self.old_start, self.old_count);
        out.append(old_range.as_str());
        out.append(" +");
        let new_range = format_range(self.new_start, self.new_count);
        out.append(new_range.as_str());
        out.append(" @@");
        out
    }

    /// The hunk as it stands in a patch.
    pub fn to_text(&self) -> (r: String)
        ensures
            r@ == hunk_text(self.deep_view()),
    {
        let mut out = self.header();
        out.append("\n");
        let ghost head = out@;
        let ghost lines = self.lines.deep_view();
        let mut i: usize = 0;
        while i < self.lines.len()
            invariant
                i <= self.lines.len(),
                lines == self.lines.deep_view(),
                out@ =~= head + lines_text(lines.take(i as int)),
            decreases self.lines.len() - i,
        {
            let line = &self.lines[i];
            out.push(line.prefix);
            out.append(line.content.as_str());
            out.append("\n");
            i = i + 1;
            assert(lines.take(i as int).drop_last() =~= lines.take(i - 1));
        }
        assert(lines.take(lines.len() as int) =~= lines);
        out
    }
}

/// The patch of one file.
#[derive(Debug)]
pub struct FilePatch {
    pub path: String,
    pub hunks: Vec<Hunk>,
    pub is_new_file: bool,
    pub is_deleted_file: bool,
}

/// What a `FilePatch` holds.
pub struct FilePatchView {
    pub path: Seq<char>,
    pub hunks: Seq<HunkView>,
    pub is_new_file: bool,
    pub is_deleted_file: bool,
}

impl DeepView for FilePatch {
    type V = FilePatchView;

    open spec fn deep_view(&self) -> FilePatchView {
        FilePatchView {
            path: self.path@,
            hunks: self.hunks.deep_view(),
            is_new_file: self.is_new_file,
            is_deleted_file: self.is_deleted_file,
        }
    }
}

/// The patch of a file: the file is new where no hunk holds a line of the old file, deleted
/// where none holds a line of the new one.
pub open spec fn file_patch(path: Seq<char>, hunks: Seq<HunkView>) -> FilePatchView {
    FilePatchView {
        path,
        hunks,
        is_new_file: hunks.len() > 0 && forall|i: int|
            0 <= i < hunks.len() ==> (#[trigger] hunks[i]).old_count == 0,
        is_deleted_file: hunks.len() > 0 && forall|i: int|
            0 <= i < hunks.len() ==> (#[trigger] hunks[i]).new_count == 0,
    }
}

/// Hunks one behind the other.
pub open spec fn hunks_text(hunks: Seq<HunkView>) -> Seq<char>
    decreases hunks.len(),
{
    if hunks.len() == 0 {
        Seq::empty()
    } else {
        hunks_text(hunks.drop_last()) + hunk_text(hunks.last())
    }
}

/// The headings that stand above the hunks of a file.
pub open spec fn file_heading(p: FilePatchView) -> Seq<char> {
    let first = "diff --git a/"@ + p.path + " b/"@ + p.path + "\n"@;
    if p.is_new_file {
        first + "new file mode 100644\n--- /dev/null\n+++ b/"@ + p.path + "\n"@
    } else if p.is_deleted_file {
        first + "deleted file mode 100644\n--- a/"@ + p.path + "\n+++ /dev/null\n"@
    } else {
        first + "--- a/"@ + p.path + "\n+++ b/"@ + p.path + "\n"@
    }
}

/// The patch of a file; nothing where there is no hunk.
pub open spec fn file_patch_text(p: FilePatchView) -> Seq<char> {
    if p.hunks.len() == 0 {
        Seq::empty()
    } else {
        file_heading(p) + hunks_text(p.hunks)
    }
}

impl FilePatch {
    /// The patch of the file `path` with these hunks.
    pub fn new(path: String, hunks: Vec<Hunk>) -> (r: Self)
        ensures
            r.deep_view() == file_patch(path@, hunks.deep_view()),
    {
        let ghost view = hunks.deep_view();
        let mut no_old = true;
        let mut no_new = true;
        let mut i: usize = 0;
        while i < hunks.len()
            invariant
                i <= hunks.len(),
                view == hunks.deep_view(),
                no_old == (forall|k: int| 0 <= k < i ==> (#[trigger] view[k]).old_count == 0),
                no_new == (forall|k: int| 0 <= k < i ==> (#[trigger] view[k]).new_count == 0),
            decreases hunks.len() - i,
        {
            assert(view[i as int] == hunks@[i as int].deep_view());
            if hunks[i].old_count != 0 {
                no_old = false;
            }
            if hunks[i].new_count != 0 {
                no_new = false;
            }
            i = i + 1;
        }
        let some = hunks.len() > 0;
        FilePatch { path, hunks, is_new_file: some && no_old, is_deleted_file: some && no_new }
    }

    /// The patch as text.
    pub fn to_text(&self) -> (r: String)
        ensures
            r@ == file_patch_text(self.deep_view()),
    {
        if self.hunks.len() == 0 {
            return String::new();
        }
        let path = self.path.as_str();
        let mut out = "diff --git a/".to_owned();
        out.append(path);
        out.append(" b/");
        out.append(path);
        out.append("\n");
        if self.is_new_file {
            out.append("new file mode 100644\n--- /dev/null\n+++ b/");
            out.append(path);
            out.append("\n");
        } else if self.is_deleted_file {
            out.append("deleted file mode 100644\n--- a/");
            out.append(path);
            out.append("\n+++ /dev/null\n");
        } else {
            out.append("--- a/");
            out.append(path);
            out.append("\n+++ b/");
            out.append(path);
            out.append("\n");
        }
        let ghost head = out@;
        let ghost hunks = self.hunks.deep_view();
        let mut i: usize = 0;
        while i < self.hunks.len()
            invariant
                i <= self.hunks.len(),
                hunks == self.hunks.deep_view(),
                out@ =~= head + hunks_text(hunks.take(i as int)),
            decreases self.hunks.len() - i,
        {
            let part = self.hunks[i].to_text();
            out.append(part.as_str());
            i = i + 1;
            assert(hunks.take(i as int).drop_last() =~= hunks.take(i - 1));
            assert(hunks.take(i as int).last() == hunks[i - 1]);
        }
        assert(hunks.take(hunks.len() as int) =~= hunks);
        out
    }
}

/// The prefix of a line in a patch, or nothing where the line has no place in one.
pub open spec fn prefix_of(source: LineSource) -> Option<char> {
    if source is Base {
        Some(' ')
    } else if source.adds() {
        Some('+')
    } else if source.deletes() {
        Some('-')
    } else {
        None
    }
}

/// The prefix of a line in a patch; nothing for headings, elided lines and lines that were added
/// and deleted again.
pub fn line_source_to_prefix(source: &LineSource) -> (r: Option<char>)
    ensures
        r == prefix_of(*source),
{
    match source {
        LineSource::Base => Some(' '),
        LineSource::Committed | LineSource::Staged | LineSource::Unstaged => Some('+'),
        LineSource::DeletedBase | LineSource::DeletedCommitted | LineSource::DeletedStaged => Some(
            '-',
        ),
        LineSource::CanceledCommitted
        | LineSource::CanceledStaged
        | LineSource::FileHeader
        | LineSource::Elided => None,
    }
}

/// Number of lines that stand in the old file.
pub open spec fn old_count(lines: Seq<PatchLineView>) -> nat
    decreases lines.len(),
{
    if lines.len() == 0 {
        0
    } else {
        old_count(lines.drop_last()) + (if lines.last().in_old() {
            1nat
        } else {
            0nat
        })
    }
}

/// Number of lines that stand in the new file.
pub open spec fn new_count(lines: Seq<PatchLineView>) -> nat
    decreases lines.len(),
{
    if lines.len() == 0 {
        0
    } else {
        new_count(lines.drop_last()) + (if lines.last().in_new() {
            1nat
        } else {
            0nat
        })
    }
}

/// The lines of a patch: those that have a prefix, each with its number in the two files.
pub open spec fn patch_lines(lines: Seq<DiffLineView>) -> Seq<PatchLineView>
    decreases lines.len(),
{
    if lines.len() == 0 {
        Seq::empty()
    } else {
        let before = patch_lines(lines.drop_last());
        match prefix_of(lines.last().source) {
            None => before,
            Some(prefix) => before.push(
                PatchLineView {
                    prefix,
                    content: lines.last().content,
                    old_line: if prefix == '+' {
                        None
                    } else {
                        Some((old_count(before) + 1) as usize)
                    },
                    new_line: if prefix == '-' {
                        None
                    } else {
                        Some((new_count(before) + 1) as usize)
                    },
                },
            ),
        }
    }
}

proof fn lemma_counts_bounded(lines: Seq<PatchLineView>)
    ensures
        old_count(lines) <= lines.len(),
        new_count(lines) <= lines.len(),
    decreases lines.len(),
{
    if lines.len() > 0 {
        lemma_counts_bounded(lines.drop_last());
    }
}

/// The lines of a patch, numbered, without those that have no place in one.
pub fn diff_lines_to_patch_lines(lines: &[DiffLine]) -> (r: Vec<PatchLine>)
    ensures
        r.deep_view() == patch_lines(lines.deep_view()),
{
    let mut out: Vec<PatchLine> = Vec::new();
    let mut old_line_num: usize = 0;
    let mut new_line_num: usize = 0;
    let ghost all = lines.deep_view();
    assert(out.deep_view() =~= patch_lines(all.take(0)));
    let mut i: usize = 0;
    while i < lines.len()
        invariant
            i <= lines.len(),
            all == lines.deep_view(),
            out.deep_view() == patch_lines(all.take(i as int)),
            out@.len() <= i,
            old_line_num == old_count(out.deep_view()),
            new_line_num == new_count(out.deep_view()),
        decreases lines.len() - i,
    {
        let diff_line = &lines[i];
        let ghost before = out.deep_view();
        assert(all.take(i + 1).drop_last() =~= all.take(i as int));
        proof {
            lemma_counts_bounded(before);
        }
        i = i + 1;
        match line_source_to_prefix(&diff_line.source) {
            None => {},
            Some(prefix) => {
                let mut old_line: Option<usize> = None;
                let mut new_line: Option<usize> = None;
                if prefix != '+' {
                    old_line_num = old_line_num + 1;
                    old_line = Some(old_line_num);
                }
                if prefix != '-' {
                    new_line_num = new_line_num + 1;
                    new_line = Some(new_line_num);
                }
                out.push(
                    PatchLine { prefix, content: diff_line.content.clone(), old_line, new_line },
                );
                assert(out.deep_view() =~= before.push(out@.last().deep_view()));
                assert(out.deep_view().drop_last() =~= before);
            },
        }
    }
    assert(all.take(all.len() as int) =~= all);
    out
}

/// Whether `r` lists, in ascending order, the positions of all lines that are changes.
pub open spec fn lists_changes(lines: Seq<PatchLineView>, r: Seq<usize>) -> bool {
    &&& forall|k: int|
        0 <= k < r.len() ==> 0 <= #[trigger] r[k] < lines.len() && lines[r[k] as int].changes()
    &&& forall|a: int, b: int| 0 <= a < b < r.len() ==> r[a] < r[b]
    &&& forall|i: int|
        0 <= i < lines.len() && (#[trigger] lines[i]).changes() ==> exists|k: int|
            0 <= k < r.len() && r[k] == i
}

/// The positions of the lines that are additions or deletions.
pub fn find_change_indices(lines: &[PatchLine]) -> (r: Vec<usize>)
    ensures
        lists_changes(lines.deep_view(), r@),
{
    let ghost all = lines.deep_view();
    let mut out: Vec<usize> = Vec::new();
    let mut i: usize = 0;
    while i < lines.len()
        invariant
            i <= lines.len(),
            all == lines.deep_view(),
            forall|k: int|
                0 <= k < out@.len() ==> 0 <= #[trigger] out@[k] < i && all[out@[k] as int].changes(),
            forall|a: int, b: int| 0 <= a < b < out@.len() ==> out@[a] < out@[b],
            forall|j: int|
                0 <= j < i && (#[trigger] all[j]).changes() ==> exists|k: int|
                    0 <= k < out@.len() && out@[k] == j,
        decreases lines.len() - i,
    {
        let ghost before = out@;
        let prefix = lines[i].prefix;
        assert(all[i as int] == lines@[i as int].deep_view());
        if prefix == '+' || prefix == '-' {
            out.push(i);
            assert(out@[before.len() as int] == i);
            assert forall|j: int| 0 <= j < i && (#[trigger] all[j]).changes() implies exists|k: int|
                0 <= k < out@.len() && out@[k] == j by {
                let k = choose|k: int| 0 <= k < before.len() && before[k] == j;
                assert(out@[k] == j);
            }
        }
        i = i + 1;
    }
    out
}

/// Whether a line is a change or stands within the context of one.
pub open spec fn near_change(lines: Seq<PatchLineView>, i: int) -> bool {
    exists|j: int|
        0 <= j < lines.len() && (#[trigger] lines[j]).changes() && -CONTEXT_LINES <= i - j
            <= CONTEXT_LINES
}

/// For each line whether a hunk shows it.
pub open spec fn shown(lines: Seq<PatchLineView>) -> Seq<bool> {
    Seq::new(lines.len(), |i: int| near_change(lines, i))
}

/// The first position from `i` on that holds `want`; the length where there is none.
pub open spec fn next_at(flags: Seq<bool>, want: bool, i: int) -> int
    decreases flags.len() - i,
{
    if i >= flags.len() {
        flags.len() as int
    } else if flags[i] == want {
        i
    } else {
        next_at(flags, want, i + 1)
    }
}

/// What `next_at` finds: nothing before it holds `want`.
pub proof fn lemma_next_at(flags: Seq<bool>, want: bool, i: int)
    requires
        0 <= i <= flags.len(),
    ensures
        i <= next_at(flags, want, i) <= flags.len(),
        forall|k: int| i <= k < next_at(flags, want, i) ==> flags[k] != want,
        next_at(flags, want, i) < flags.len() ==> flags[next_at(flags, want, i)] == want,
    decreases flags.len() - i,
{
    if i < flags.len() && flags[i] != want {
        lemma_next_at(flags, want, i + 1);
    }
}

proof fn lemma_next_at_is(flags: Seq<bool>, want: bool, i: int, at: int)
    requires
        0 <= i <= at <= flags.len(),
        forall|k: int| i <= k < at ==> flags[k] != want,
        at < flags.len() ==> flags[at] == want,
    ensures
        next_at(flags, want, i) == at,
    decreases at - i,
{
    if i < at {
        lemma_next_at_is(flags, want, i + 1, at);
    }
}

/// The first number that a line of the old file has.
pub open spec fn first_old(lines: Seq<PatchLineView>) -> Option<usize>
    decreases lines.len(),
{
    if lines.len() == 0 {
        None
    } else {
        match first_old(lines.drop_last()) {
            Some(n) => Some(n),
            None => if lines.last().in_old() {
                lines.last().old_line
            } else {
                None
            },
        }
    }
}

/// The first number that a line of the new file has.
pub open spec fn first_new(lines: Seq<PatchLineView>) -> Option<usize>
    decreases lines.len(),
{
    if lines.len() == 0 {
        None
    } else {
        match first_new(lines.drop_last()) {
            Some(n) => Some(n),
            None => if lines.last().in_new() {
                lines.last().new_line
            } else {
                None
            },
        }
    }
}

/// Where a side of a hunk starts: 0 where the side is empty, 1 where no line has a number.
pub open spec fn start_of(count: nat, first: Option<usize>) -> nat {
    if count == 0 {
        0
    } else {
        match first {
            Some(n) => n as nat,
            None => 1,
        }
    }
}

/// The hunk that shows these lines.
pub open spec fn hunk_of(lines: Seq<PatchLineView>) -> HunkView {
    HunkView {
        old_start: start_of(old_count(lines), first_old(lines)),
        old_count: old_count(lines),
        new_start: start_of(new_count(lines), first_new(lines)),
        new_count: new_count(lines),
        lines,
    }
}

/// The hunks of the lines from `i` on: one for each longest stretch of lines that are shown.
pub open spec fn hunks_from(lines: Seq<PatchLineView>, i: int) -> Seq<HunkView>
    decreases lines.len() - i,
    when 0 <= i <= lines.len()
{
    let flags = shown(lines);
    let a = next_at(flags, true, i);
    proof {
        lemma_next_at(flags, true, i);
        if a < lines.len() {
            lemma_next_at(flags, false, a);
        }
    }
    if a >= lines.len() {
        Seq::empty()
    } else {
        let b = next_at(flags, false, a);
        seq![hunk_of(lines.subrange(a, b))] + hunks_from(lines, b)
    }
}

/// The hunks of the lines of a file.
pub open spec fn hunks_of(lines: Seq<PatchLineView>) -> Seq<HunkView> {
    hunks_from(lines, 0)
}

/// The hunk that shows these lines.
pub fn create_hunk(lines: &[PatchLine]) -> (r: Hunk)
    ensures
        r.deep_view() == hunk_of(lines.deep_view()),
{
    let ghost all = lines.deep_view();
    let mut old_count: usize = 0;
    let mut new_count: usize = 0;
    let mut old_start: Option<usize> = None;
    let mut new_start: Option<usize> = None;
    let mut copied: Vec<PatchLine> = Vec::new();
    let mut i: usize = 0;
    while i < lines.len()
        invariant
            i <= lines.len(),
            all == lines.deep_view(),
            old_count == self::old_count(all.take(i as int)),
            new_count == self::new_count(all.take(i as int)),
            old_count <= i,
            new_count <= i,
            old_start == first_old(all.take(i as int)),
            new_start == first_new(all.take(i as int)),
            copied@ =~= lines@.take(i as int),
        decreases lines.len() - i,
    {
        let line = &lines[i];
        assert(all.take(i + 1).drop_last() =~= all.take(i as int));
        if line.prefix == ' ' || line.prefix == '-' {
            old_count = old_count + 1;
            if old_start.is_none() {
                old_start = line.old_line;
            }
        }
        if line.prefix == ' ' || line.prefix == '+' {
            new_count = new_count + 1;
            if new_start.is_none() {
                new_start = line.new_line;
            }
        }
        copied.push(line.clone());
        i = i + 1;
    }
    assert(all.take(all.len() as int) =~= all);
    assert(copied.deep_view() =~= all);
    Hunk {
        old_start: if old_count == 0 {
            0
        } else {
            old_start.unwrap_or(1)
        },
        old_count,
        new_start: if new_count == 0 {
            0
        } else {
            new_start.unwrap_or(1)
        },
        new_count,
        lines: copied,
    }
}

/// For each line whether a hunk shows it.
fn mark_shown(lines: &[PatchLine]) -> (r: Vec<bool>)
    ensures
        r@ == shown(lines.deep_view()),
{
    let ghost all = lines.deep_view();
    let changes = find_change_indices(lines);
    let mut flags: Vec<bool> = Vec::new();
    let mut n: usize = 0;
    while n < lines.len()
        invariant
            n <= lines.len(),
            flags@.len() == n,
            forall|k: int| 0 <= k < n ==> !flags@[k],
        decreases lines.len() - n,
    {
        flags.push(false);
        n = n + 1;
    }
    let mut m: usize = 0;
    while m < changes.len()
        invariant
            m <= changes.len(),
            all == lines.deep_view(),
            lists_changes(all, changes@),
            flags@.len() == lines.len(),
            forall|k: int|
                0 <= k < flags@.len() ==> (#[trigger] flags@[k] <==> exists|t: int|
                    0 <= t < m && -CONTEXT_LINES <= k - #[trigger] changes@[t] <= CONTEXT_LINES),
        decreases changes.len() - m,
    {
        let idx = changes[m];
        let start: usize = if idx < CONTEXT_LINES {
            0
        } else {
            idx - CONTEXT_LINES
        };
        let end: usize = if lines.len() - idx <= CONTEXT_LINES {
            lines.len()
        } else {
            idx + CONTEXT_LINES + 1
        };
        let ghost before = flags@;
        let mut k: usize = start;
        while k < end
            invariant
                start <= k <= end <= flags@.len(),
                flags@.len() == before.len(),
                forall|q: int|
                    0 <= q < before.len() ==> (#[trigger] flags@[q] <==> before[q] || start <= q
                        < k),
            decreases end - k,
        {
            flags.set(k, true);
            k = k + 1;
        }
        m = m + 1;
        assert forall|q: int| 0 <= q < flags@.len() implies (#[trigger] flags@[q] <==> exists|t: int|
            0 <= t < m && -CONTEXT_LINES <= q - #[trigger] changes@[t] <= CONTEXT_LINES) by {
            if before[q] {
                let t = choose|t: int|
                    0 <= t < m - 1 && -CONTEXT_LINES <= q - #[trigger] changes@[t]
                        <= CONTEXT_LINES;
                assert(0 <= t < m && -CONTEXT_LINES <= q - changes@[t] <= CONTEXT_LINES);
            } else if start <= q < end {
                assert(changes@[m - 1] == idx);
                assert(0 <= m - 1 < m && -CONTEXT_LINES <= q - changes@[m - 1] <= CONTEXT_LINES);
            } else {
                assert forall|t: int| 0 <= t < m implies !(-CONTEXT_LINES <= q
                    - #[trigger] changes@[t] <= CONTEXT_LINES) by {
                    if t == m - 1 {
                        assert(changes@[t] == idx);
                    }
                }
            }
        }
    }
    assert forall|q: int| 0 <= q < flags@.len() implies flags@[q] == near_change(all, q) by {
        if flags@[q] {
            let t = choose|t: int|
                0 <= t < m && -CONTEXT_LINES <= q - #[trigger] changes@[t] <= CONTEXT_LINES;
            assert(all[changes@[t] as int].changes());
        }
        if near_change(all, q) {
            let j = choose|j: int|
                0 <= j < all.len() && (#[trigger] all[j]).changes() && -CONTEXT_LINES <= q - j
                    <= CONTEXT_LINES;
            let t = choose|t: int| 0 <= t < changes@.len() && changes@[t] == j;
            assert(0 <= t < m && -CONTEXT_LINES <= q - changes@[t] <= CONTEXT_LINES);
        }
    }
    assert(flags@ =~= shown(all));
    flags
}

/// The hunks of the lines of a file: the changes, each with its context.
pub fn build_hunks(lines: &[PatchLine]) -> (r: Vec<Hunk>)
    ensures
        r.deep_view() == hunks_of(lines.deep_view()),
{
    let ghost all = lines.deep_view();
    let flags = mark_shown(lines);
    let mut hunks: Vec<Hunk> = Vec::new();
    let mut hunk_start: Option<usize> = None;
    assert(hunks.deep_view() =~= Seq::empty());
    assert(hunks_of(all) =~= hunks.deep_view() + hunks_from(all, 0));
    let mut i: usize = 0;
    while i < lines.len()
        invariant
            i <= lines.len(),
            all == lines.deep_view(),
            flags@ == shown(all),
            match hunk_start {
                None => hunks_of(all) == hunks.deep_view() + hunks_from(all, i as int),
                Some(start) => start < i && hunks_of(all) == hunks.deep_view() + hunks_from(
                    all,
                    start as int,
                ) && forall|k: int| start <= k < i ==> flags@[k],
            },
        decreases lines.len() - i,
    {
        if flags[i] {
            if hunk_start.is_none() {
                hunk_start = Some(i);
            }
        } else {
            match hunk_start {
                Some(start) => {
                    let ghost before = hunks.deep_view();
                    proof {
                        lemma_next_at_is(flags@, true, start as int, start as int);
                        lemma_next_at_is(flags@, false, start as int, i as int);
                        assert(hunks_from(all, start as int) == seq![
                            hunk_of(all.subrange(start as int, i as int)),
                        ] + hunks_from(all, i as int));
                        lemma_skip_hidden(all, i as int);
                    }
                    let part = vstd::slice::slice_subrange(lines, start, i);
                    assert(part.deep_view() =~= all.subrange(start as int, i as int));
                    let hunk = create_hunk(part);
                    hunks.push(hunk);
                    assert(hunks.deep_view() =~= before.push(hunk.deep_view()));
                    assert(hunks_of(all) =~= hunks.deep_view() + hunks_from(all, i + 1));
                    hunk_start = None;
                },
                None => {
                    proof {
                        lemma_skip_hidden(all, i as int);
                    }
                },
            }
        }
        i = i + 1;
    }
    match hunk_start {
        Some(start) => {
            let ghost before = hunks.deep_view();
            proof {
                lemma_next_at_is(flags@, true, start as int, start as int);
                lemma_next_at_is(flags@, false, start as int, i as int);
                lemma_next_at_is(flags@, true, i as int, i as int);
                assert(hunks_from(all, i as int) =~= Seq::empty());
                assert(hunks_from(all, start as int) == seq![
                    hunk_of(all.subrange(start as int, i as int)),
                ] + hunks_from(all, i as int));
            }
            let part = vstd::slice::slice_subrange(lines, start, i);
            assert(part.deep_view() =~= all.subrange(start as int, i as int));
            let hunk = create_hunk(part);
            hunks.push(hunk);
            assert(hunks.deep_view() =~= before.push(hunk.deep_view()));
            assert(hunks_of(all) =~= hunks.deep_view());
        },
        None => {
            proof {
                lemma_next_at_is(flags@, true, i as int, i as int);
            }
            assert(hunks_of(all) =~= hunks.deep_view());
        },
    }
    hunks
}

proof fn lemma_skip_hidden(lines: Seq<PatchLineView>, i: int)
    requires
        0 <= i < lines.len(),
        !shown(lines)[i],
    ensures
        hunks_from(lines, i) == hunks_from(lines, i + 1),
{
    assert(next_at(shown(lines), true, i) == next_at(shown(lines), true, i + 1));
    lemma_next_at(shown(lines), true, i + 1);
}

/// The lines of one file.
pub struct FileGroup {
    pub path: String,
    pub lines: Vec<DiffLine>,
}

/// What a `FileGroup` holds.
pub struct FileGroupView {
    pub path: Seq<char>,
    pub lines: Seq<DiffLineView>,
}

impl DeepView for FileGroup {
    type V = FileGroupView;

    open spec fn deep_view(&self) -> FileGroupView {
        FileGroupView { path: self.path@, lines: self.lines.deep_view() }
    }
}

/// Lines grouped by file: neighbours with the same path stand in one group. Lines without a path
/// are left out.
pub open spec fn file_groups(lines: Seq<DiffLineView>) -> Seq<FileGroupView>
    decreases lines.len(),
{
    if lines.len() == 0 {
        Seq::empty()
    } else {
        let before = file_groups(lines.drop_last());
        let line = lines.last();
        match line.file_path {
            None => before,
            Some(path) => if path.len() == 0 {
                before
            } else if before.len() > 0 && before.last().path == path {
                before.drop_last().push(
                    FileGroupView { path, lines: before.last().lines.push(line) },
                )
            } else {
                before.push(FileGroupView { path, lines: seq![line] })
            },
        }
    }
}

/// Groups lines by file, without those that have no path.
pub fn group_by_file(lines: &[DiffLine]) -> (r: Vec<FileGroup>)
    ensures
        r.deep_view() == file_groups(lines.deep_view()),
{
    let ghost all = lines.deep_view();
    let mut files: Vec<FileGroup> = Vec::new();
    assert(files.deep_view() =~= file_groups(all.take(0)));
    let mut i: usize = 0;
    while i < lines.len()
        invariant
            i <= lines.len(),
            all == lines.deep_view(),
            files.deep_view() == file_groups(all.take(i as int)),
        decreases lines.len() - i,
    {
        let line = &lines[i];
        let ghost before = files.deep_view();
        assert(all.take(i + 1).drop_last() =~= all.take(i as int));
        assert(all[i as int] == line.deep_view());
        match &line.file_path {
            Some(path) => {
                if !path.as_str().is_empty() {
                    let n = files.len();
                    let same = n > 0 && same_text(files[n - 1].path.as_str(), path.as_str());
                    if same {
                        let mut group = files.pop().unwrap();
                        let ghost had = group.lines.deep_view();
                        group.lines.push(line.clone());
                        assert(group.lines.deep_view() =~= had.push(line.deep_view()));
                        files.push(group);
                        assert(files.deep_view() =~= before.drop_last().push(group.deep_view()));
                    } else {
                        let mut first: Vec<DiffLine> = Vec::new();
                        first.push(line.clone());
                        assert(first.deep_view() =~= seq![line.deep_view()]);
                        files.push(FileGroup { path: path.clone(), lines: first });
                        assert(files.deep_view() =~= before.push(files@.last().deep_view()));
                    }
                }
            },
            None => {},
        }
        i = i + 1;
    }
    assert(all.take(all.len() as int) =~= all);
    files
}

/// The patches of files, one behind the other.
pub open spec fn groups_text(groups: Seq<FileGroupView>) -> Seq<char>
    decreases groups.len(),
{
    if groups.len() == 0 {
        Seq::empty()
    } else {
        groups_text(groups.drop_last()) + file_patch_text(
            file_patch(groups.last().path, hunks_of(patch_lines(groups.last().lines))),
        )
    }
}

/// The patch that these lines make.
pub open spec fn patch_text(lines: Seq<DiffLineView>) -> Seq<char> {
    groups_text(file_groups(lines))
}

/// Writes the lines of a diff as a unified patch, for `git apply` or a `.diff` file. Lines
/// without a path are left out: a patch is a patch of files.
pub fn generate_patch(lines: &[DiffLine]) -> (r: String)
    ensures
        r@ == patch_text(lines.deep_view()),
{
    let files = group_by_file(lines);
    let ghost groups = files.deep_view();
    let mut output = String::new();
    let mut i: usize = 0;
    while i < files.len()
        invariant
            i <= files.len(),
            groups == files.deep_view(),
            output@ =~= groups_text(groups.take(i as int)),
        decreases files.len() - i,
    {
        let group = &files[i];
        let group_lines = group.lines.as_slice();
        assert(group_lines.deep_view() =~= groups[i as int].lines);
        let lines = diff_lines_to_patch_lines(group_lines);
        let line_slice = lines.as_slice();
        assert(line_slice.deep_view() =~= lines.deep_view());
        let hunks = build_hunks(line_slice);
        let file = FilePatch::new(group.path.clone(), hunks);
        let part = file.to_text();
        output.append(part.as_str());
        i = i + 1;
        assert(groups.take(i as int).drop_last() =~= groups.take(i - 1));
        assert(groups.take(i as int).last() == groups[i - 1]);
    }
    assert(groups.take(groups.len() as int) =~= groups);
    output
}


/// The texts of the lines that stand in the old file.
pub open spec fn old_side(lines: Seq<PatchLineView>) -> Seq<Seq<char>>
    decreases lines.len(),
{
    if lines.len() == 0 {
        Seq::empty()
    } else if lines.last().in_old() {
        old_side(lines.drop_last()).push(lines.last().content)
    } else {
        old_side(lines.drop_last())
    }
}

/// The texts of the lines that stand in the new file.
pub open spec fn new_side(lines: Seq<PatchLineView>) -> Seq<Seq<char>>
    decreases lines.len(),
{
    if lines.len() == 0 {
        Seq::empty()
    } else if lines.last().in_new() {
        new_side(lines.drop_last()).push(lines.last().content)
    } else {
        new_side(lines.drop_last())
    }
}

/// What becomes of the lines of `old` from position `at` on when hunks are applied to them, in
/// order and at the places that their headers name; `made` lines of the new file stand before.
/// There is no result where the old lines of a hunk are not found at their place, where hunks
/// overlap, or where a header gives a wrong place in the new file.
pub open spec fn apply_hunks(old: Seq<Seq<char>>, hunks: Seq<HunkView>, at: int, made: int) -> Option<
    Seq<Seq<char>>,
>
    decreases hunks.len(),
{
    if hunks.len() == 0 {
        Some(old.skip(at))
    } else {
        let h = hunks[0];
        let start = if h.old_count == 0 {
            h.old_start as int
        } else {
            h.old_start - 1
        };
        let end = start + h.old_count;
        if at <= start && end <= old.len() && old.subrange(start, end) == old_side(h.lines) && (
        h.new_count > 0 ==> h.new_start == made + (start - at) + 1) {
            match apply_hunks(old, hunks.drop_first(), end, made + (start - at) + h.new_count) {
                Some(rest) => Some(old.subrange(at, start) + new_side(h.lines) + rest),
                None => None,
            }
        } else {
            None
        }
    }
}

/// Whether each line is context, an addition or a deletion, with its number in each file that it
/// stands in.
#[verifier::opaque]
pub open spec fn numbered(lines: Seq<PatchLineView>) -> bool {
    forall|i: int|
        #![trigger lines[i]]
        0 <= i < lines.len() ==> {
            &&& lines[i].prefix == ' ' || lines[i].prefix == '+' || lines[i].prefix == '-'
            &&& lines[i].in_old() ==> lines[i].old_line == Some(
                (old_count(lines.take(i)) + 1) as usize,
            )
            &&& lines[i].in_new() ==> lines[i].new_line == Some(
                (new_count(lines.take(i)) + 1) as usize,
            )
        }
}

proof fn lemma_patch_lines_len(lines: Seq<DiffLineView>)
    ensures
        patch_lines(lines).len() <= lines.len(),
    decreases lines.len(),
{
    if lines.len() > 0 {
        lemma_patch_lines_len(lines.drop_last());
    }
}

proof fn lemma_patch_lines_numbered(lines: Seq<DiffLineView>)
    ensures
        numbered(patch_lines(lines)),
    decreases lines.len(),
{
    reveal(numbered);
    if lines.len() > 0 {
        lemma_patch_lines_numbered(lines.drop_last());
        let before = patch_lines(lines.drop_last());
        let after = patch_lines(lines);
        if after.len() > before.len() {
            assert forall|i: int| #![trigger after[i]] 0 <= i < after.len() implies after.take(i)
                == before.take(i) by {
                assert(after.take(i) =~= before.take(i));
            }
            assert(before.take(before.len() as int) =~= before);
            assert forall|i: int| 0 <= i < before.len() implies #[trigger] after[i]
                == before[i] by {}
        }
    }
}

proof fn lemma_sides_concat(a: Seq<PatchLineView>, b: Seq<PatchLineView>)
    ensures
        old_side(a + b) == old_side(a) + old_side(b),
        new_side(a + b) == new_side(a) + new_side(b),
        old_count(a + b) == old_count(a) + old_count(b),
        new_count(a + b) == new_count(a) + new_count(b),
    decreases b.len(),
{
    if b.len() == 0 {
        assert(a + b =~= a);
        assert(old_side(a) + old_side(b) =~= old_side(a));
        assert(new_side(a) + new_side(b) =~= new_side(a));
    } else {
        lemma_sides_concat(a, b.drop_last());
        assert((a + b).drop_last() =~= a + b.drop_last());
        assert(old_side(a + b) =~= old_side(a) + old_side(b));
        assert(new_side(a + b) =~= new_side(a) + new_side(b));
    }
}

proof fn lemma_side_lengths(lines: Seq<PatchLineView>)
    ensures
        old_side(lines).len() == old_count(lines),
        new_side(lines).len() == new_count(lines),
    decreases lines.len(),
{
    if lines.len() > 0 {
        lemma_side_lengths(lines.drop_last());
    }
}

/// Lines that are all context are the same in both files.
proof fn lemma_context_sides(lines: Seq<PatchLineView>)
    requires
        forall|i: int| 0 <= i < lines.len() ==> (#[trigger] lines[i]).prefix == ' ',
    ensures
        old_side(lines) == new_side(lines),
        old_count(lines) == lines.len(),
        new_count(lines) == lines.len(),
    decreases lines.len(),
{
    if lines.len() > 0 {
        lemma_context_sides(lines.drop_last());
    }
}

proof fn lemma_none_counted(lines: Seq<PatchLineView>)
    ensures
        old_count(lines) == 0 ==> first_old(lines) is None && forall|i: int|
            0 <= i < lines.len() ==> !(#[trigger] lines[i]).in_old(),
        new_count(lines) == 0 ==> first_new(lines) is None && forall|i: int|
            0 <= i < lines.len() ==> !(#[trigger] lines[i]).in_new(),
    decreases lines.len(),
{
    if lines.len() > 0 {
        lemma_none_counted(lines.drop_last());
        assert forall|i: int| 0 <= i < lines.len() - 1 implies #[trigger] lines[i]
            == lines.drop_last()[i] by {}
    }
}

proof fn lemma_number(lines: Seq<PatchLineView>, i: int)
    requires
        numbered(lines),
        0 <= i < lines.len(),
    ensures
        lines[i].in_old() ==> lines[i].old_line == Some((old_count(lines.take(i)) + 1) as usize),
        lines[i].in_new() ==> lines[i].new_line == Some((new_count(lines.take(i)) + 1) as usize),
{
    reveal(numbered);
}

proof fn lemma_counts_concat(a: Seq<PatchLineView>, b: Seq<PatchLineView>)
    ensures
        old_count(a + b) == old_count(a) + old_count(b),
        new_count(a + b) == new_count(a) + new_count(b),
{
    lemma_sides_concat(a, b);
    lemma_side_lengths(a);
    lemma_side_lengths(b);
    lemma_side_lengths(a + b);
}

/// A stretch of numbered lines starts, in each file, behind the lines that stand before it.
proof fn lemma_first_number(lines: Seq<PatchLineView>, a: int, b: int)
    requires
        numbered(lines),
        lines.len() <= usize::MAX,
        0 <= a <= b <= lines.len(),
    ensures
        old_count(lines.subrange(a, b)) > 0 ==> first_old(lines.subrange(a, b)) == Some(
            (old_count(lines.take(a)) + 1) as usize,
        ),
        new_count(lines.subrange(a, b)) > 0 ==> first_new(lines.subrange(a, b)) == Some(
            (new_count(lines.take(a)) + 1) as usize,
        ),
    decreases b - a,
{
    if a < b {
        let part = lines.subrange(a, b);
        let init = lines.subrange(a, b - 1);
        assert(part.drop_last() =~= init);
        assert(part.last() == lines[b - 1]);
        lemma_first_number(lines, a, b - 1);
        lemma_none_counted(init);
        lemma_number(lines, b - 1);
        assert(lines.take(b - 1) =~= lines.take(a) + init);
        lemma_counts_concat(lines.take(a), init);
    }
}

proof fn lemma_changes_are_shown(lines: Seq<PatchLineView>, j: int, i: int)
    requires
        0 <= j < lines.len(),
        lines[j].changes(),
        0 <= i < lines.len(),
        -CONTEXT_LINES <= i - j <= CONTEXT_LINES,
    ensures
        shown(lines)[i],
{
    assert(lines[j].changes());
}

/// What stands before the first line that is shown is context, the same in both files.
proof fn lemma_gap(lines: Seq<PatchLineView>, i: int, a: int)
    requires
        numbered(lines),
        0 <= i <= a <= lines.len(),
        forall|k: int| i <= k < a ==> !shown(lines)[k],
    ensures
        old_side(lines.subrange(i, a)) == new_side(lines.subrange(i, a)),
        old_count(lines.subrange(i, a)) == a - i,
        new_count(lines.subrange(i, a)) == a - i,
{
    reveal(numbered);
    let gap = lines.subrange(i, a);
    assert forall|k: int| 0 <= k < gap.len() implies (#[trigger] gap[k]).prefix == ' ' by {
        assert(gap[k] == lines[i + k]);
        assert(!shown(lines)[i + k]);
        if lines[i + k].changes() {
            lemma_changes_are_shown(lines, i + k, i + k);
        }
    }
    lemma_context_sides(gap);
}

/// A stretch that is shown and holds no line of the old file starts the file: anything before it
/// would be its context.
proof fn lemma_additions_alone(lines: Seq<PatchLineView>, i: int, a: int, b: int)
    requires
        numbered(lines),
        0 <= i <= a < b <= lines.len(),
        i == 0 || !shown(lines)[i],
        shown(lines)[a],
        forall|k: int| i <= k < a ==> !shown(lines)[k],
        old_count(lines.subrange(a, b)) == 0,
    ensures
        a == 0,
{
    reveal(numbered);
    let part = lines.subrange(a, b);
    lemma_none_counted(part);
    assert(part[0] == lines[a]);
    assert(!part[0].in_old());
    assert(lines[a].changes());
    if a > i {
        lemma_changes_are_shown(lines, a, a - 1);
        assert(!shown(lines)[a - 1]);
    }
}

/// How the sides of a file fall into what stands before position `a`, from there to `b`, and
/// behind.
proof fn lemma_cut(lines: Seq<PatchLineView>, a: int, b: int)
    requires
        0 <= a <= b <= lines.len(),
    ensures
        old_side(lines.take(b)) == old_side(lines.take(a)) + old_side(lines.subrange(a, b)),
        new_side(lines.skip(a)) == new_side(lines.subrange(a, b)) + new_side(lines.skip(b)),
        old_count(lines.take(b)) == old_count(lines.take(a)) + old_count(lines.subrange(a, b)),
        new_count(lines.take(b)) == new_count(lines.take(a)) + new_count(lines.subrange(a, b)),
        old_count(lines.take(b)) <= old_side(lines).len(),
        old_side(lines).subrange(
            old_count(lines.take(a)) as int,
            old_count(lines.take(b)) as int,
        ) == old_side(lines.subrange(a, b)),
{
    let part = lines.subrange(a, b);
    assert(lines.take(b) =~= lines.take(a) + part);
    lemma_sides_concat(lines.take(a), part);
    assert(lines.skip(a) =~= part + lines.skip(b));
    lemma_sides_concat(part, lines.skip(b));
    assert(lines =~= lines.take(b) + lines.skip(b));
    lemma_sides_concat(lines.take(b), lines.skip(b));
    lemma_side_lengths(lines.take(a));
    lemma_side_lengths(lines.take(b));
    lemma_side_lengths(part);
    let left = old_side(lines.take(a));
    let mid = old_side(part);
    let right = old_side(lines.skip(b));
    assert(old_side(lines) == left + mid + right);
    assert((left + mid + right).subrange(left.len() as int, (left + mid).len() as int) =~= mid);
}

/// One hunk that fits, and what is left behind it.
proof fn lemma_apply_one(
    old: Seq<Seq<char>>,
    h: HunkView,
    hunks: Seq<HunkView>,
    at: int,
    made: int,
    start: int,
    rest: Seq<Seq<char>>,
)
    requires
        0 <= at <= start,
        start == if h.old_count == 0 {
            h.old_start as int
        } else {
            h.old_start - 1
        },
        start + h.old_count <= old.len(),
        old.subrange(start, start + h.old_count) == old_side(h.lines),
        h.new_count > 0 ==> h.new_start == made + (start - at) + 1,
        apply_hunks(old, hunks, start + h.old_count, made + (start - at) + h.new_count) == Some(
            rest,
        ),
    ensures
        apply_hunks(old, seq![h] + hunks, at, made) == Some(
            old.subrange(at, start) + new_side(h.lines) + rest,
        ),
{
    assert((seq![h] + hunks).drop_first() =~= hunks);
}

proof fn lemma_hunks_step(lines: Seq<PatchLineView>, i: int, a: int, b: int)
    requires
        0 <= i <= a < lines.len(),
        a == next_at(shown(lines), true, i),
        b == next_at(shown(lines), false, a),
    ensures
        hunks_from(lines, i) == seq![hunk_of(lines.subrange(a, b))] + hunks_from(lines, b),
{
    lemma_next_at(shown(lines), true, i);
    lemma_next_at(shown(lines), false, a);
}

proof fn lemma_hunks_end(lines: Seq<PatchLineView>, i: int)
    requires
        0 <= i <= lines.len(),
        next_at(shown(lines), true, i) == lines.len(),
    ensures
        hunks_from(lines, i) == Seq::<HunkView>::empty(),
{
}

/// The hunk of the lines from `a` up to `b` stands where its header says, and applies.
proof fn lemma_hunk_fits(lines: Seq<PatchLineView>, i: int, a: int, b: int, h: HunkView)
    requires
        numbered(lines),
        lines.len() <= usize::MAX,
        0 <= i <= a < b <= lines.len(),
        i == 0 || !shown(lines)[i],
        shown(lines)[a],
        forall|k: int| i <= k < a ==> !shown(lines)[k],
        h == hunk_of(lines.subrange(a, b)),
    ensures
        old_count(lines.take(a)) == if h.old_count == 0 {
            h.old_start as int
        } else {
            h.old_start - 1
        },
        h.new_count > 0 ==> h.new_start == new_count(lines.take(a)) + 1,
{
    lemma_first_number(lines, a, b);
    lemma_counts_bounded(lines.take(a));
    lemma_counts_bounded(lines.take(b));
    lemma_cut(lines, a, b);
    if h.old_count == 0 {
        lemma_additions_alone(lines, i, a, b);
        assert(lines.take(0).len() == 0);
    }
}

proof fn lemma_apply_last(lines: Seq<PatchLineView>, i: int)
    requires
        numbered(lines),
        0 <= i <= lines.len(),
        next_at(shown(lines), true, i) == lines.len(),
    ensures
        apply_hunks(
            old_side(lines),
            hunks_from(lines, i),
            old_count(lines.take(i)) as int,
            new_count(lines.take(i)) as int,
        ) == Some(new_side(lines.skip(i))),
{
    let a = lines.len() as int;
    let old = old_side(lines);
    let at = old_count(lines.take(i)) as int;
    lemma_next_at(shown(lines), true, i);
    lemma_gap(lines, i, a);
    lemma_cut(lines, i, a);
    lemma_hunks_end(lines, i);
    assert(lines.skip(a) =~= Seq::empty());
    assert(lines.take(a) =~= lines);
    lemma_side_lengths(lines);
    assert(old.skip(at) =~= old.subrange(at, old.len() as int));
    assert(new_side(lines.skip(i)) =~= new_side(lines.subrange(i, a)));
}

proof fn lemma_apply_next(lines: Seq<PatchLineView>, i: int, a: int, b: int)
    requires
        numbered(lines),
        lines.len() <= usize::MAX,
        0 <= i <= a < b <= lines.len(),
        i == 0 || !shown(lines)[i],
        shown(lines)[a],
        a == next_at(shown(lines), true, i),
        b == next_at(shown(lines), false, a),
        forall|k: int| i <= k < a ==> !shown(lines)[k],
        apply_hunks(
            old_side(lines),
            hunks_from(lines, b),
            old_count(lines.take(b)) as int,
            new_count(lines.take(b)) as int,
        ) == Some(new_side(lines.skip(b))),
    ensures
        apply_hunks(
            old_side(lines),
            hunks_from(lines, i),
            old_count(lines.take(i)) as int,
            new_count(lines.take(i)) as int,
        ) == Some(new_side(lines.skip(i))),
{
    let old = old_side(lines);
    let at = old_count(lines.take(i)) as int;
    let made = new_count(lines.take(i)) as int;
    let start = old_count(lines.take(a)) as int;
    let h = hunk_of(lines.subrange(a, b));
    lemma_gap(lines, i, a);
    lemma_cut(lines, i, a);
    lemma_cut(lines, a, b);
    lemma_hunks_step(lines, i, a, b);
    lemma_hunk_fits(lines, i, a, b, h);
    lemma_apply_one(old, h, hunks_from(lines, b), at, made, start, new_side(lines.skip(b)));
    assert(new_side(lines.skip(i)) =~= old.subrange(at, start) + new_side(h.lines) + new_side(
        lines.skip(b),
    ));
}

proof fn lemma_apply_from(lines: Seq<PatchLineView>, i: int)
    requires
        numbered(lines),
        lines.len() <= usize::MAX,
        0 <= i <= lines.len(),
        i == 0 || i == lines.len() || !shown(lines)[i],
    ensures
        apply_hunks(
            old_side(lines),
            hunks_from(lines, i),
            old_count(lines.take(i)) as int,
            new_count(lines.take(i)) as int,
        ) == Some(new_side(lines.skip(i))),
    decreases lines.len() - i,
{
    let a = next_at(shown(lines), true, i);
    lemma_next_at(shown(lines), true, i);
    if a >= lines.len() {
        lemma_apply_last(lines, i);
    } else {
        let b = next_at(shown(lines), false, a);
        lemma_next_at(shown(lines), false, a);
        lemma_apply_from(lines, b);
        lemma_apply_next(lines, i, a, b);
    }
}

/// Whether a line of a diff stands in the old file: unchanged and deleted lines do.
pub open spec fn stands_in_old(source: LineSource) -> bool {
    match source {
        LineSource::Base => true,
        LineSource::DeletedBase => true,
        LineSource::DeletedCommitted => true,
        LineSource::DeletedStaged => true,
        LineSource::Committed => false,
        LineSource::Staged => false,
        LineSource::Unstaged => false,
        LineSource::CanceledCommitted => false,
        LineSource::CanceledStaged => false,
        LineSource::FileHeader => false,
        LineSource::Elided => false,
    }
}

/// Whether a line of a diff stands in the new file: unchanged and added lines do.
pub open spec fn stands_in_new(source: LineSource) -> bool {
    match source {
        LineSource::Base => true,
        LineSource::Committed => true,
        LineSource::Staged => true,
        LineSource::Unstaged => true,
        LineSource::DeletedBase => false,
        LineSource::DeletedCommitted => false,
        LineSource::DeletedStaged => false,
        LineSource::CanceledCommitted => false,
        LineSource::CanceledStaged => false,
        LineSource::FileHeader => false,
        LineSource::Elided => false,
    }
}

/// The texts of the old file: those of its lines in the diff, in order.
pub open spec fn old_file(lines: Seq<DiffLineView>) -> Seq<Seq<char>> {
    lines.filter(|line: DiffLineView| stands_in_old(line.source)).map_values(
        |line: DiffLineView| line.content,
    )
}

/// The texts of the new file: those of its lines in the diff, in order.
pub open spec fn new_file(lines: Seq<DiffLineView>) -> Seq<Seq<char>> {
    lines.filter(|line: DiffLineView| stands_in_new(line.source)).map_values(
        |line: DiffLineView| line.content,
    )
}

/// The lines of a patch hold the lines of both files as they are: what stands in the old file, and
/// what stands in the new one, each with the text that it has in the diff.
pub proof fn law_patch_lines_hold_both_files(lines: Seq<DiffLineView>)
    ensures
        old_side(patch_lines(lines)) == old_file(lines),
        new_side(patch_lines(lines)) == new_file(lines),
    decreases lines.len(),
{
    reveal(Seq::filter);
    let in_old = |line: DiffLineView| stands_in_old(line.source);
    let in_new = |line: DiffLineView| stands_in_new(line.source);
    if lines.len() == 0 {
        assert(old_side(patch_lines(lines)) =~= old_file(lines));
        assert(new_side(patch_lines(lines)) =~= new_file(lines));
    } else {
        let front = lines.drop_last();
        let line = lines.last();
        law_patch_lines_hold_both_files(front);
        let before = patch_lines(front);
        let after = patch_lines(lines);
        if prefix_of(line.source) is Some {
            assert(after.drop_last() =~= before);
        }
        assert(old_file(lines) =~= (if in_old(line) {
            old_file(front).push(line.content)
        } else {
            old_file(front)
        }));
        assert(new_file(lines) =~= (if in_new(line) {
            new_file(front).push(line.content)
        } else {
            new_file(front)
        }));
        assert(old_side(after) =~= old_file(lines));
        assert(new_side(after) =~= new_file(lines));
    }
}

/// A patch applies: the hunks of a file's lines, applied to the old file, are found at the places
/// that their headers name and leave the new file.
pub proof fn law_patch_applies(lines: Seq<DiffLineView>)
    requires
        lines.len() <= usize::MAX,
    ensures
        apply_hunks(old_side(patch_lines(lines)), hunks_of(patch_lines(lines)), 0, 0) == Some(
            new_side(patch_lines(lines)),
        ),
        apply_hunks(old_file(lines), hunks_of(patch_lines(lines)), 0, 0) == Some(new_file(lines)),
        forall|i: int|
            0 <= i < hunks_of(patch_lines(lines)).len() ==> {
                let h = #[trigger] hunks_of(patch_lines(lines))[i];
                h.old_count == old_side(h.lines).len() && h.new_count == new_side(h.lines).len()
            },
{
    let patched = patch_lines(lines);
    lemma_hunk_counts(patched, 0);
    lemma_patch_lines_numbered(lines);
    lemma_patch_lines_len(lines);
    lemma_apply_from(patched, 0);
    assert(patched.take(0).len() == 0);
    assert(patched.skip(0) =~= patched);
    law_patch_lines_hold_both_files(lines);
}

/// A file without additions and deletions has no hunk, and its patch is empty.
pub proof fn law_no_changes_no_patch(path: Seq<char>, lines: Seq<DiffLineView>)
    requires
        forall|i: int|
            0 <= i < lines.len() ==> !(#[trigger] lines[i]).source.adds()
                && !lines[i].source.deletes(),
    ensures
        hunks_of(patch_lines(lines)).len() == 0,
        file_patch_text(file_patch(path, hunks_of(patch_lines(lines)))).len() == 0,
{
    let patched = patch_lines(lines);
    lemma_only_context(lines);
    lemma_next_at(shown(patched), true, 0);
}

proof fn lemma_only_context(lines: Seq<DiffLineView>)
    requires
        forall|i: int|
            0 <= i < lines.len() ==> !(#[trigger] lines[i]).source.adds()
                && !lines[i].source.deletes(),
    ensures
        forall|i: int|
            0 <= i < patch_lines(lines).len() ==> !(#[trigger] patch_lines(lines)[i]).changes(),
    decreases lines.len(),
{
    if lines.len() > 0 {
        assert forall|i: int| 0 <= i < lines.len() - 1 implies !(
        #[trigger] lines.drop_last()[i]).source.adds()
            && !lines.drop_last()[i].source.deletes() by {
            assert(lines.drop_last()[i] == lines[i]);
        }
        lemma_only_context(lines.drop_last());
        assert(lines.last() == lines[lines.len() - 1]);
        let before = patch_lines(lines.drop_last());
        let after = patch_lines(lines);
        assert forall|i: int| 0 <= i < after.len() implies !(#[trigger] after[i]).changes() by {
            if i < before.len() {
                assert(after[i] == before[i]);
            }
        }
    }
}

proof fn lemma_hunk_counts(lines: Seq<PatchLineView>, i: int)
    requires
        0 <= i <= lines.len(),
    ensures
        forall|k: int|
            0 <= k < hunks_from(lines, i).len() ==> {
                let h = #[trigger] hunks_from(lines, i)[k];
                h.old_count == old_side(h.lines).len() && h.new_count == new_side(h.lines).len()
            },
    decreases lines.len() - i,
{
    let a = next_at(shown(lines), true, i);
    lemma_next_at(shown(lines), true, i);
    if a < lines.len() {
        let b = next_at(shown(lines), false, a);
        lemma_next_at(shown(lines), false, a);
        lemma_hunk_counts(lines, b);
        lemma_side_lengths(lines.subrange(a, b));
        let rest = hunks_from(lines, b);
        assert forall|k: int| 0 <= k < hunks_from(lines, i).len() implies ({
            let h = #[trigger] hunks_from(lines, i)[k];
            h.old_count == old_side(h.lines).len() && h.new_count == new_side(h.lines).len()
        }) by {
            if k > 0 {
                assert(hunks_from(lines, i)[k] == rest[k - 1]);
            }
        }
    }
}

/// Whether a line has no line end inside it.
pub open spec fn is_one_line(line: PatchLineView) -> bool {
    line.prefix != '\n' && !line.content.contains('\n')
}

/// The rows of a hunk: its header, and each line behind its prefix.
pub open spec fn hunk_rows(h: HunkView) -> Seq<Seq<char>> {
    seq![header_text(h)] + h.lines.map_values(|line: PatchLineView| seq![line.prefix] + line.content)
}

/// The rows of hunks, one hunk behind the other.
pub open spec fn rows_of_hunks(hunks: Seq<HunkView>) -> Seq<Seq<char>>
    decreases hunks.len(),
{
    if hunks.len() == 0 {
        Seq::empty()
    } else {
        hunk_rows(hunks[0]) + rows_of_hunks(hunks.skip(1))
    }
}

proof fn lemma_range_is_one_line(start: nat, count: nat)
    ensures
        !range_text(start, count).contains('\n'),
        !range_text(start, count).contains(' '),
        pieces(range_text(start, count), ',') == (if count == 1 {
            seq![decimal(start)]
        } else {
            seq![decimal(start), decimal(count)]
        }),
{
    law_numbers_are_read_back(start);
    law_numbers_are_read_back(count);
    reveal_strlit(",");
    let (a, b) = (decimal(start), decimal(count));
    assert forall|c: char| !is_digit(c) implies !a.contains(c) && !b.contains(c) by {
        if a.contains(c) {
            let i = choose|i: int| 0 <= i < a.len() && a[i] == c;
            assert(is_digit(a[i]));
        }
        if b.contains(c) {
            let i = choose|i: int| 0 <= i < b.len() && b[i] == c;
            assert(is_digit(b[i]));
        }
    }
    assert(!is_digit(','));
    assert(!is_digit('\n'));
    assert(!is_digit(' '));
    lemma_one_piece(a, ',');
    lemma_one_piece(b, ',');
    if count != 1 {
        let text = range_text(start, count);
        assert(text =~= a.push(',') + b);
        lemma_pieces_of_both(a, b, ',');
        assert(pieces(text, ',') =~= seq![a, b]);
        assert forall|c: char| text.contains(c) implies a.contains(c) || c == ',' || b.contains(
            c,
        ) by {
            let i = choose|i: int| 0 <= i < text.len() && text[i] == c;
            if i > a.len() {
                assert(b[i - a.len() - 1] == c);
            } else if i < a.len() {
                assert(a[i] == c);
            }
        }
    }
}

/// The header of a hunk is read back: between two marks stand the places of the hunk in the old file
/// and in the new one, each as the number of its first line and, unless it is one, the number of
/// its lines.
pub proof fn law_header_is_read_back(h: HunkView)
    ensures
        pieces(header_text(h), ' ') == seq![
            "@@"@,
            "-"@ + range_text(h.old_start, h.old_count),
            "+"@ + range_text(h.new_start, h.new_count),
            "@@"@,
        ],
        !header_text(h).contains('\n'),
        ({
            let parts = pieces(range_text(h.old_start, h.old_count), ',');
            &&& value_of(parts[0]) == h.old_start
            &&& if parts.len() == 1 {
                h.old_count == 1
            } else {
                parts.len() == 2 && value_of(parts[1]) == h.old_count
            }
        }),
        ({
            let parts = pieces(range_text(h.new_start, h.new_count), ',');
            &&& value_of(parts[0]) == h.new_start
            &&& if parts.len() == 1 {
                h.new_count == 1
            } else {
                parts.len() == 2 && value_of(parts[1]) == h.new_count
            }
        }),
{
    let old_range = range_text(h.old_start, h.old_count);
    let new_range = range_text(h.new_start, h.new_count);
    lemma_range_is_one_line(h.old_start, h.old_count);
    lemma_range_is_one_line(h.new_start, h.new_count);
    law_numbers_are_read_back(h.old_start);
    law_numbers_are_read_back(h.old_count);
    law_numbers_are_read_back(h.new_start);
    law_numbers_are_read_back(h.new_count);
    reveal_strlit("@@ -");
    reveal_strlit(" +");
    reveal_strlit(" @@");
    reveal_strlit("@@");
    reveal_strlit("-");
    reveal_strlit("+");
    let text = header_text(h);
    let (first, second) = ("-"@ + old_range, "+"@ + new_range);
    assert forall|c: char| first.contains(c) implies c == '-' || old_range.contains(c) by {
        let i = choose|i: int| 0 <= i < first.len() && first[i] == c;
        if i > 0 {
            assert(old_range[i - 1] == c);
        }
    }
    assert forall|c: char| second.contains(c) implies c == '+' || new_range.contains(c) by {
        let i = choose|i: int| 0 <= i < second.len() && second[i] == c;
        if i > 0 {
            assert(new_range[i - 1] == c);
        }
    }
    let tail = second.push(' ') + "@@"@;
    let rest = first.push(' ') + tail;
    assert(text =~= "@@"@.push(' ') + rest);
    lemma_first_piece("@@"@, rest, ' ');
    lemma_first_piece(first, tail, ' ');
    lemma_first_piece(second, "@@"@, ' ');
    lemma_one_piece("@@"@, ' ');
    assert(pieces(text, ' ') =~= seq!["@@"@, first, second, "@@"@]);
    assert forall|i: int| 0 <= i < text.len() implies text[i] != '\n' by {
        if 4 <= i < 4 + old_range.len() {
            assert(old_range.contains(old_range[i - 4]));
            assert(text[i] == old_range[i - 4]);
        } else if 6 + old_range.len() <= i < 6 + old_range.len() + new_range.len() {
            assert(new_range.contains(new_range[i - 6 - old_range.len()]));
            assert(text[i] == new_range[i - 6 - old_range.len()]);
        }
    }
}

proof fn lemma_lines_text_concat(a: Seq<PatchLineView>, b: Seq<PatchLineView>)
    ensures
        lines_text(a + b) == lines_text(a) + lines_text(b),
    decreases b.len(),
{
    if b.len() == 0 {
        assert(a + b =~= a);
        assert(lines_text(a) + lines_text(b) =~= lines_text(a));
    } else {
        lemma_lines_text_concat(a, b.drop_last());
        assert((a + b).drop_last() =~= a + b.drop_last());
        assert(lines_text(a + b) =~= lines_text(a) + lines_text(b));
    }
}

proof fn lemma_lines_are_read_back(lines: Seq<PatchLineView>, rest: Seq<char>)
    requires
        forall|i: int| 0 <= i < lines.len() ==> is_one_line(#[trigger] lines[i]),
    ensures
        pieces(lines_text(lines) + rest, '\n') == lines.map_values(
            |line: PatchLineView| seq![line.prefix] + line.content,
        ) + pieces(rest, '\n'),
    decreases lines.len(),
{
    let row = |line: PatchLineView| seq![line.prefix] + line.content;
    if lines.len() == 0 {
        assert(lines_text(lines) + rest =~= rest);
        assert(lines.map_values(row) + pieces(rest, '\n') =~= pieces(rest, '\n'));
    } else {
        reveal_strlit("\n");
        let line = lines[0];
        let tail = lines.skip(1);
        assert(is_one_line(line));
        assert forall|i: int| 0 <= i < tail.len() implies is_one_line(#[trigger] tail[i]) by {
            assert(tail[i] == lines[i + 1]);
        }
        lemma_lines_are_read_back(tail, rest);
        let one = seq![line];
        assert(lines =~= one + tail);
        lemma_lines_text_concat(one, tail);
        assert(one.drop_last().len() == 0);
        assert(lines_text(one) =~= row(line).push('\n')) by {
            reveal_with_fuel(lines_text, 2);
        }
        let text = lines_text(lines) + rest;
        assert(text =~= row(line).push('\n') + (lines_text(tail) + rest));
        assert(!row(line).contains('\n')) by {
            let text = row(line);
            assert forall|k: int| 0 <= k < text.len() implies text[k] != '\n' by {
                if k > 0 {
                    assert(line.content.contains(line.content[k - 1]));
                }
            }
        }
        lemma_first_piece(row(line), lines_text(tail) + rest, '\n');
        assert(lines.map_values(row) =~= seq![row(line)] + tail.map_values(row));
        assert(pieces(text, '\n') =~= lines.map_values(row) + pieces(rest, '\n'));
    }
}

proof fn lemma_hunk_is_read_back(h: HunkView, rest: Seq<char>)
    requires
        forall|i: int| 0 <= i < h.lines.len() ==> is_one_line(#[trigger] h.lines[i]),
    ensures
        pieces(hunk_text(h) + rest, '\n') == hunk_rows(h) + pieces(rest, '\n'),
{
    reveal_strlit("\n");
    law_header_is_read_back(h);
    let behind = lines_text(h.lines) + rest;
    assert(hunk_text(h) + rest =~= header_text(h).push('\n') + behind);
    lemma_first_piece(header_text(h), behind, '\n');
    lemma_lines_are_read_back(h.lines, rest);
    assert(pieces(hunk_text(h) + rest, '\n') =~= hunk_rows(h) + pieces(rest, '\n'));
}

proof fn lemma_hunks_text_concat(a: Seq<HunkView>, b: Seq<HunkView>)
    ensures
        hunks_text(a + b) == hunks_text(a) + hunks_text(b),
    decreases b.len(),
{
    if b.len() == 0 {
        assert(a + b =~= a);
        assert(hunks_text(a) + hunks_text(b) =~= hunks_text(a));
    } else {
        lemma_hunks_text_concat(a, b.drop_last());
        assert((a + b).drop_last() =~= a + b.drop_last());
        assert(hunks_text(a + b) =~= hunks_text(a) + hunks_text(b));
    }
}

/// The hunks of a patch are read back from its text: its rows are the header of each hunk and the
/// lines of the hunk, each behind its prefix, and nothing else.
pub proof fn law_hunks_are_read_back(hunks: Seq<HunkView>)
    requires
        forall|i: int, k: int|
            0 <= i < hunks.len() && 0 <= k < hunks[i].lines.len() ==> is_one_line(
                #[trigger] hunks[i].lines[k],
            ),
    ensures
        pieces(hunks_text(hunks), '\n') == rows_of_hunks(hunks).push(Seq::empty()),
{
    let none = Seq::<char>::empty();
    lemma_hunks_are_read_back(hunks, none);
    assert(hunks_text(hunks) + none =~= hunks_text(hunks));
    assert(pieces(hunks_text(hunks), '\n') =~= rows_of_hunks(hunks).push(none));
}

/// All lines of some groups, in order.
pub open spec fn lines_in_groups(groups: Seq<FileGroupView>) -> Seq<DiffLineView>
    decreases groups.len(),
{
    if groups.len() == 0 {
        Seq::empty()
    } else {
        lines_in_groups(groups.drop_last()) + groups.last().lines
    }
}

/// Whether a line belongs to a file.
pub open spec fn has_file(line: DiffLineView) -> bool {
    line.file_path matches Some(path) && path.len() > 0
}

/// Grouping loses no line of a file and mixes no files: the lines of the groups, in order, are all
/// lines that belong to a file, each stands in a group of its path, and neighbouring groups are of
/// different files.
pub proof fn law_groups_hold_every_line(lines: Seq<DiffLineView>)
    ensures
        lines_in_groups(file_groups(lines)) == lines.filter(|line: DiffLineView| has_file(line)),
        forall|i: int, k: int|
            0 <= i < file_groups(lines).len() && 0 <= k < file_groups(lines)[i].lines.len()
                ==> (#[trigger] file_groups(lines)[i].lines[k]).file_path == Some(
                file_groups(lines)[i].path,
            ),
        forall|i: int|
            0 <= i < file_groups(lines).len() ==> (#[trigger] file_groups(lines)[i]).lines.len() > 0,
        forall|i: int|
            0 < i < file_groups(lines).len() ==> (#[trigger] file_groups(lines)[i]).path
                != file_groups(lines)[i - 1].path,
    decreases lines.len(),
{
    reveal(Seq::filter);
    let all = file_groups(lines);
    let wanted = |line: DiffLineView| has_file(line);
    if lines.len() > 0 {
        let front = lines.drop_last();
        let line = lines.last();
        let before = file_groups(front);
        law_groups_hold_every_line(front);
        if has_file(line) {
            let path = line.file_path->0;
            let last = all.last();
            if before.len() > 0 && before.last().path == path {
                let kept = before.drop_last();
                assert(all.drop_last() =~= kept);
                assert(last.lines =~= before.last().lines.push(line));
                assert(lines_in_groups(all) =~= lines_in_groups(before).push(line));
                assert forall|i: int, k: int|
                    0 <= i < all.len() && 0 <= k < all[i].lines.len() implies (
                #[trigger] all[i].lines[k]).file_path == Some(all[i].path) by {
                    if i < kept.len() || k < before.last().lines.len() {
                        assert(all[i].lines[k] == before[i].lines[k]);
                        assert(before[i].lines[k].file_path == Some(before[i].path));
                    }
                }
                assert forall|i: int| 0 < i < all.len() implies (#[trigger] all[i]).path
                    != all[i - 1].path by {
                    assert(before[i].path != before[i - 1].path);
                }
            } else {
                assert(all.drop_last() =~= before);
                assert(lines_in_groups(all) =~= lines_in_groups(before).push(line));
                assert forall|i: int, k: int|
                    0 <= i < all.len() && 0 <= k < all[i].lines.len() implies (
                #[trigger] all[i].lines[k]).file_path == Some(all[i].path) by {
                    if i < before.len() {
                        assert(all[i].lines[k] == before[i].lines[k]);
                        assert(before[i].lines[k].file_path == Some(before[i].path));
                    }
                }
                assert forall|i: int| 0 < i < all.len() implies (#[trigger] all[i]).path
                    != all[i - 1].path by {
                    if i < before.len() {
                        assert(before[i].path != before[i - 1].path);
                    }
                }
            }
        }
    } else {
        assert(lines_in_groups(all) =~= lines.filter(wanted));
    }
}

proof fn lemma_hunk_counts_bounded(lines: Seq<PatchLineView>, i: int)
    requires
        0 <= i <= lines.len(),
    ensures
        forall|k: int|
            0 <= k < hunks_from(lines, i).len() ==> {
                let h = #[trigger] hunks_from(lines, i)[k];
                h.old_count <= old_count(lines) && h.new_count <= new_count(lines)
            },
    decreases lines.len() - i,
{
    let a = next_at(shown(lines), true, i);
    lemma_next_at(shown(lines), true, i);
    if a < lines.len() {
        let b = next_at(shown(lines), false, a);
        lemma_next_at(shown(lines), false, a);
        lemma_hunk_counts_bounded(lines, b);
        let part = lines.subrange(a, b);
        assert(lines.take(b) =~= lines.take(a) + part);
        assert(lines =~= lines.take(b) + lines.skip(b));
        lemma_counts_concat(lines.take(a), part);
        lemma_counts_concat(lines.take(b), lines.skip(b));
        let rest = hunks_from(lines, b);
        assert forall|k: int| 0 <= k < hunks_from(lines, i).len() implies ({
            let h = #[trigger] hunks_from(lines, i)[k];
            h.old_count <= old_count(lines) && h.new_count <= new_count(lines)
        }) by {
            if k > 0 {
                assert(hunks_from(lines, i)[k] == rest[k - 1]);
            }
        }
    }
}

/// A stretch of changes alone that a hunk shows is the whole file: anything beside it would be its
/// context.
proof fn lemma_changes_alone(lines: Seq<PatchLineView>, a: int, b: int)
    requires
        a == next_at(shown(lines), true, 0),
        a < lines.len(),
        b == next_at(shown(lines), false, a),
        forall|k: int| a <= k < b ==> (#[trigger] lines[k]).changes(),
    ensures
        a == 0,
        b == lines.len(),
{
    lemma_next_at(shown(lines), true, 0);
    lemma_next_at(shown(lines), false, a);
    assert(shown(lines)[a]);
    assert(lines[a].changes());
    if a > 0 {
        lemma_changes_are_shown(lines, a, a - 1);
    }
    assert(lines[b - 1].changes());
    if b < lines.len() {
        lemma_changes_are_shown(lines, b - 1, b);
    }
}

proof fn lemma_only_changes(lines: Seq<PatchLineView>, a: int, b: int)
    requires
        numbered(lines),
        0 <= a <= b <= lines.len(),
        old_count(lines.subrange(a, b)) == 0 || new_count(lines.subrange(a, b)) == 0,
    ensures
        forall|k: int| a <= k < b ==> (#[trigger] lines[k]).changes(),
{
    reveal(numbered);
    let part = lines.subrange(a, b);
    assert forall|k: int| a <= k < b implies (#[trigger] lines[k]).changes() by {
        assert(part[k - a] == lines[k]);
        lemma_counted(part, k - a);
    }
}

proof fn lemma_counted(lines: Seq<PatchLineView>, k: int)
    requires
        0 <= k < lines.len(),
    ensures
        lines[k].in_old() ==> old_count(lines) > 0,
        lines[k].in_new() ==> new_count(lines) > 0,
    decreases lines.len(),
{
    if k < lines.len() - 1 {
        lemma_counted(lines.drop_last(), k);
        assert(lines.drop_last()[k] == lines[k]);
    }
}

/// A file that has a patch is new in it exactly where nothing of it stands in the old file, and
/// deleted exactly where nothing of it stands in the new one.
pub proof fn law_new_and_deleted_files(path: Seq<char>, lines: Seq<DiffLineView>)
    requires
        hunks_of(patch_lines(lines)).len() > 0,
    ensures
        ({
            let p = file_patch(path, hunks_of(patch_lines(lines)));
            &&& p.is_new_file <==> old_file(lines).len() == 0
            &&& p.is_deleted_file <==> new_file(lines).len() == 0
        }),
{
    let patched = patch_lines(lines);
    let hunks = hunks_of(patched);
    let p = file_patch(path, hunks);
    law_patch_lines_hold_both_files(lines);
    lemma_side_lengths(patched);
    lemma_hunk_counts_bounded(patched, 0);
    lemma_patch_lines_numbered(lines);
    let a = next_at(shown(patched), true, 0);
    let b = next_at(shown(patched), false, a);
    lemma_next_at(shown(patched), true, 0);
    lemma_next_at(shown(patched), false, a);
    assert(hunks[0] == hunk_of(patched.subrange(a, b)));
    if hunks[0].old_count == 0 || hunks[0].new_count == 0 {
        lemma_only_changes(patched, a, b);
        lemma_changes_alone(patched, a, b);
        assert(patched.subrange(a, b) =~= patched);
    }
}

/// The lines of hunks, one hunk behind the other.
pub open spec fn lines_in_hunks(hunks: Seq<HunkView>) -> Seq<PatchLineView>
    decreases hunks.len(),
{
    if hunks.len() == 0 {
        Seq::empty()
    } else {
        hunks[0].lines + lines_in_hunks(hunks.skip(1))
    }
}

/// The lines from `i` on that are changes or stand at most three lines from one.
pub open spec fn around_changes(lines: Seq<PatchLineView>, i: int) -> Seq<PatchLineView>
    decreases lines.len() - i,
{
    if i < 0 || i >= lines.len() {
        Seq::empty()
    } else {
        (if exists|j: int|
            0 <= j < lines.len() && (lines[j].prefix == '+' || lines[j].prefix == '-') && i - 3 <= j
                <= i + 3 {
            seq![lines[i]]
        } else {
            Seq::empty()
        }) + around_changes(lines, i + 1)
    }
}

proof fn lemma_shown(lines: Seq<PatchLineView>, i: int)
    requires
        0 <= i < lines.len(),
    ensures
        around_changes(lines, i) == (if shown(lines)[i] {
            seq![lines[i]] + around_changes(lines, i + 1)
        } else {
            around_changes(lines, i + 1)
        }),
{
    if shown(lines)[i] {
        let j = choose|j: int|
            0 <= j < lines.len() && (#[trigger] lines[j]).changes() && -CONTEXT_LINES <= i - j
                <= CONTEXT_LINES;
        assert((lines[j].prefix == '+' || lines[j].prefix == '-') && i - 3 <= j <= i + 3);
    } else {
        assert forall|j: int|
            0 <= j < lines.len() && i - 3 <= j <= i + 3 implies !((#[trigger] lines[j]).prefix
            == '+' || lines[j].prefix == '-') by {
            if lines[j].changes() {
                lemma_changes_are_shown(lines, j, i);
            }
        }
        assert(Seq::<PatchLineView>::empty() + around_changes(lines, i + 1) =~= around_changes(
            lines,
            i + 1,
        ));
    }
}

proof fn lemma_hidden_run(lines: Seq<PatchLineView>, i: int, a: int)
    requires
        0 <= i <= a <= lines.len(),
        forall|k: int| i <= k < a ==> !shown(lines)[k],
    ensures
        around_changes(lines, i) == around_changes(lines, a),
    decreases a - i,
{
    if i < a {
        lemma_shown(lines, i);
        lemma_hidden_run(lines, i + 1, a);
    }
}

proof fn lemma_shown_run(lines: Seq<PatchLineView>, a: int, b: int)
    requires
        0 <= a <= b <= lines.len(),
        forall|k: int| a <= k < b ==> shown(lines)[k],
    ensures
        around_changes(lines, a) == lines.subrange(a, b) + around_changes(lines, b),
    decreases b - a,
{
    if a < b {
        lemma_shown(lines, a);
        lemma_shown_run(lines, a + 1, b);
        assert(lines.subrange(a, b) =~= seq![lines[a]] + lines.subrange(a + 1, b));
    }
    assert(around_changes(lines, a) =~= lines.subrange(a, b) + around_changes(lines, b));
}

proof fn lemma_hunk_lines(lines: Seq<PatchLineView>, i: int)
    requires
        0 <= i <= lines.len(),
    ensures
        lines_in_hunks(hunks_from(lines, i)) == around_changes(lines, i),
    decreases lines.len() - i,
{
    let a = next_at(shown(lines), true, i);
    lemma_next_at(shown(lines), true, i);
    lemma_hidden_run(lines, i, a);
    if a < lines.len() {
        let b = next_at(shown(lines), false, a);
        lemma_next_at(shown(lines), false, a);
        lemma_hunk_lines(lines, b);
        lemma_shown_run(lines, a, b);
        let rest = hunks_from(lines, b);
        assert(hunks_from(lines, i).skip(1) =~= rest);
    }
}

/// The hunks of a patch hold the changes with three lines of context around them, in order, and no
/// other line.
pub proof fn law_hunks_show_changes_in_context(lines: Seq<PatchLineView>)
    ensures
        lines_in_hunks(hunks_of(lines)) == around_changes(lines, 0),
{
    lemma_hunk_lines(lines, 0);
}

/// The rows that stand above the hunks of a file.
pub open spec fn heading_rows(path: Seq<char>, is_new: bool, is_deleted: bool) -> Seq<Seq<char>> {
    let first = "diff --git a/"@ + path + " b/"@ + path;
    if is_new {
        seq![first, "new file mode 100644"@, "--- /dev/null"@, "+++ b/"@ + path]
    } else if is_deleted {
        seq![first, "deleted file mode 100644"@, "--- a/"@ + path, "+++ /dev/null"@]
    } else {
        seq![first, "--- a/"@ + path, "+++ b/"@ + path]
    }
}

/// The rows of the patches of some files: for each file that has a hunk a heading, and its hunks.
pub open spec fn rows_of_groups(groups: Seq<FileGroupView>) -> Seq<Seq<char>>
    decreases groups.len(),
{
    if groups.len() == 0 {
        Seq::empty()
    } else {
        let group = groups[0];
        let hunks = hunks_of(patch_lines(group.lines));
        (if hunks.len() == 0 {
            Seq::empty()
        } else {
            heading_rows(
                group.path,
                old_file(group.lines).len() == 0,
                new_file(group.lines).len() == 0,
            ) + rows_of_hunks(hunks)
        }) + rows_of_groups(groups.skip(1))
    }
}

proof fn lemma_no_line_end(a: Seq<char>, b: Seq<char>)
    requires
        !a.contains('\n'),
        !b.contains('\n'),
    ensures
        !(a + b).contains('\n'),
{
    let all = a + b;
    assert forall|k: int| 0 <= k < all.len() implies all[k] != '\n' by {
        if k < a.len() {
            assert(a.contains(a[k]));
        } else {
            assert(b.contains(b[k - a.len()]));
        }
    }
}

proof fn lemma_heading_is_read_back(p: FilePatchView, rest: Seq<char>)
    requires
        !p.path.contains('\n'),
    ensures
        pieces(file_heading(p) + rest, '\n') == heading_rows(
            p.path,
            p.is_new_file,
            p.is_deleted_file,
        ) + pieces(rest, '\n'),
{
    reveal_strlit("\n");
    reveal_strlit("diff --git a/");
    reveal_strlit(" b/");
    reveal_strlit("--- a/");
    reveal_strlit("+++ b/");
    reveal_strlit("\n+++ b/");
    let first = "diff --git a/"@ + p.path + " b/"@ + p.path;
    lemma_no_line_end("diff --git a/"@, p.path);
    lemma_no_line_end("diff --git a/"@ + p.path, " b/"@);
    lemma_no_line_end("diff --git a/"@ + p.path + " b/"@, p.path);
    lemma_no_line_end("--- a/"@, p.path);
    lemma_no_line_end("+++ b/"@, p.path);
    let (from, to) = ("--- a/"@ + p.path, "+++ b/"@ + p.path);
    let text = file_heading(p) + rest;
    if p.is_new_file {
        reveal_strlit("new file mode 100644\n--- /dev/null\n+++ b/");
        reveal_strlit("new file mode 100644");
        reveal_strlit("--- /dev/null");
        let (mode, none) = ("new file mode 100644"@, "--- /dev/null"@);
        let last = to.push('\n') + rest;
        let third = none.push('\n') + last;
        let second = mode.push('\n') + third;
        assert(text =~= first.push('\n') + second);
        lemma_first_piece(first, second, '\n');
        lemma_first_piece(mode, third, '\n');
        lemma_first_piece(none, last, '\n');
        lemma_first_piece(to, rest, '\n');
        assert(pieces(text, '\n') =~= seq![first, mode, none, to] + pieces(rest, '\n'));
    } else if p.is_deleted_file {
        reveal_strlit("deleted file mode 100644\n--- a/");
        reveal_strlit("\n+++ /dev/null\n");
        reveal_strlit("deleted file mode 100644");
        reveal_strlit("+++ /dev/null");
        let (mode, none) = ("deleted file mode 100644"@, "+++ /dev/null"@);
        let last = none.push('\n') + rest;
        let third = from.push('\n') + last;
        let second = mode.push('\n') + third;
        assert(text =~= first.push('\n') + second);
        lemma_first_piece(first, second, '\n');
        lemma_first_piece(mode, third, '\n');
        lemma_first_piece(from, last, '\n');
        lemma_first_piece(none, rest, '\n');
        assert(pieces(text, '\n') =~= seq![first, mode, from, none] + pieces(rest, '\n'));
    } else {
        let last = to.push('\n') + rest;
        let second = from.push('\n') + last;
        assert(text =~= first.push('\n') + second);
        lemma_first_piece(first, second, '\n');
        lemma_first_piece(from, last, '\n');
        lemma_first_piece(to, rest, '\n');
        assert(pieces(text, '\n') =~= seq![first, from, to] + pieces(rest, '\n'));
    }
}

proof fn lemma_patch_lines_are_lines(lines: Seq<DiffLineView>)
    requires
        forall|i: int| 0 <= i < lines.len() ==> !(#[trigger] lines[i]).content.contains('\n'),
    ensures
        forall|i: int|
            0 <= i < patch_lines(lines).len() ==> is_one_line(#[trigger] patch_lines(lines)[i]),
    decreases lines.len(),
{
    if lines.len() > 0 {
        let front = lines.drop_last();
        assert forall|i: int| 0 <= i < front.len() implies !(
        #[trigger] front[i]).content.contains('\n') by {
            assert(front[i] == lines[i]);
        }
        lemma_patch_lines_are_lines(front);
        assert(!lines[lines.len() - 1].content.contains('\n'));
        let before = patch_lines(front);
        let after = patch_lines(lines);
        assert forall|i: int| 0 <= i < after.len() implies is_one_line(#[trigger] after[i]) by {
            if i < before.len() {
                assert(after[i] == before[i]);
            }
        }
    }
}

proof fn lemma_hunks_hold_lines(lines: Seq<PatchLineView>, i: int)
    requires
        0 <= i <= lines.len(),
        forall|k: int| 0 <= k < lines.len() ==> is_one_line(#[trigger] lines[k]),
    ensures
        forall|n: int, k: int|
            0 <= n < hunks_from(lines, i).len() && 0 <= k < hunks_from(lines, i)[n].lines.len()
                ==> is_one_line(#[trigger] hunks_from(lines, i)[n].lines[k]),
    decreases lines.len() - i,
{
    let a = next_at(shown(lines), true, i);
    lemma_next_at(shown(lines), true, i);
    if a < lines.len() {
        let b = next_at(shown(lines), false, a);
        lemma_next_at(shown(lines), false, a);
        lemma_hunks_hold_lines(lines, b);
        let rest = hunks_from(lines, b);
        let all = hunks_from(lines, i);
        assert forall|n: int, k: int|
            0 <= n < all.len() && 0 <= k < all[n].lines.len() implies is_one_line(
            #[trigger] all[n].lines[k],
        ) by {
            if n > 0 {
                assert(all[n] == rest[n - 1]);
                assert(is_one_line(rest[n - 1].lines[k]));
            } else {
                assert(all[n].lines[k] == lines[a + k]);
            }
        }
    }
}

proof fn lemma_hunks_are_read_back(hunks: Seq<HunkView>, rest: Seq<char>)
    requires
        forall|i: int, k: int|
            0 <= i < hunks.len() && 0 <= k < hunks[i].lines.len() ==> is_one_line(
                #[trigger] hunks[i].lines[k],
            ),
    ensures
        pieces(hunks_text(hunks) + rest, '\n') == rows_of_hunks(hunks) + pieces(rest, '\n'),
    decreases hunks.len(),
{
    if hunks.len() == 0 {
        assert(hunks_text(hunks) + rest =~= rest);
        assert(rows_of_hunks(hunks) + pieces(rest, '\n') =~= pieces(rest, '\n'));
    } else {
        let h = hunks[0];
        let tail = hunks.skip(1);
        assert forall|i: int, k: int|
            0 <= i < tail.len() && 0 <= k < tail[i].lines.len() implies is_one_line(
            #[trigger] tail[i].lines[k],
        ) by {
            assert(is_one_line(hunks[i + 1].lines[k]));
        }
        lemma_hunks_are_read_back(tail, rest);
        assert forall|k: int| 0 <= k < h.lines.len() implies is_one_line(#[trigger] h.lines[k]) by {
            assert(is_one_line(hunks[0].lines[k]));
        }
        lemma_hunk_is_read_back(h, hunks_text(tail) + rest);
        let one = seq![h];
        assert(hunks =~= one + tail);
        lemma_hunks_text_concat(one, tail);
        assert(one.drop_last().len() == 0);
        assert(hunks_text(one) =~= hunk_text(h)) by {
            reveal_with_fuel(hunks_text, 2);
        }
        assert(hunks_text(hunks) + rest =~= hunk_text(h) + (hunks_text(tail) + rest));
        assert(rows_of_hunks(hunks) + pieces(rest, '\n') =~= hunk_rows(h) + (rows_of_hunks(tail)
            + pieces(rest, '\n')));
    }
}

proof fn lemma_groups_text_concat(a: Seq<FileGroupView>, b: Seq<FileGroupView>)
    ensures
        groups_text(a + b) == groups_text(a) + groups_text(b),
    decreases b.len(),
{
    if b.len() == 0 {
        assert(a + b =~= a);
        assert(groups_text(a) + groups_text(b) =~= groups_text(a));
    } else {
        lemma_groups_text_concat(a, b.drop_last());
        assert((a + b).drop_last() =~= a + b.drop_last());
        assert(groups_text(a + b) =~= groups_text(a) + groups_text(b));
    }
}

proof fn lemma_groups_are_read_back(groups: Seq<FileGroupView>)
    requires
        forall|i: int| 0 <= i < groups.len() ==> !(#[trigger] groups[i]).path.contains('\n'),
        forall|i: int, k: int|
            0 <= i < groups.len() && 0 <= k < groups[i].lines.len() ==> !(
            #[trigger] groups[i].lines[k]).content.contains('\n'),
    ensures
        pieces(groups_text(groups), '\n') == rows_of_groups(groups).push(Seq::empty()),
    decreases groups.len(),
{
    if groups.len() == 0 {
        assert(pieces(groups_text(groups), '\n') =~= rows_of_groups(groups).push(Seq::empty()));
    } else {
        let group = groups[0];
        let tail = groups.skip(1);
        assert forall|i: int| 0 <= i < tail.len() implies !(#[trigger] tail[i]).path.contains(
            '\n',
        ) by {
            assert(!groups[i + 1].path.contains('\n'));
        }
        assert forall|i: int, k: int|
            0 <= i < tail.len() && 0 <= k < tail[i].lines.len() implies !(
        #[trigger] tail[i].lines[k]).content.contains('\n') by {
            assert(!groups[i + 1].lines[k].content.contains('\n'));
        }
        lemma_groups_are_read_back(tail);
        let one = seq![group];
        assert(groups =~= one + tail);
        lemma_groups_text_concat(one, tail);
        assert(one.drop_last().len() == 0);
        let hunks = hunks_of(patch_lines(group.lines));
        let p = file_patch(group.path, hunks);
        assert(groups_text(one) =~= file_patch_text(p)) by {
            reveal_with_fuel(groups_text, 2);
        }
        let rest = groups_text(tail);
        let text = groups_text(groups);
        if hunks.len() == 0 {
            assert(text =~= rest);
            assert(rows_of_groups(groups) =~= rows_of_groups(tail));
        } else {
            let behind = hunks_text(hunks) + rest;
            assert(text =~= file_heading(p) + behind);
            assert(!groups[0].path.contains('\n'));
            lemma_heading_is_read_back(p, behind);
            assert forall|k: int| 0 <= k < group.lines.len() implies !(
            #[trigger] group.lines[k]).content.contains('\n') by {
                assert(!groups[0].lines[k].content.contains('\n'));
            }
            lemma_patch_lines_are_lines(group.lines);
            lemma_hunks_hold_lines(patch_lines(group.lines), 0);
            lemma_hunks_are_read_back(hunks, rest);
            law_new_and_deleted_files(group.path, group.lines);
            assert(pieces(text, '\n') =~= rows_of_groups(groups).push(Seq::empty()));
        }
    }
}

/// A patch is read back from its text, where no path and no line holds a line end: its rows are, for
/// each file that changed, the heading that says whether the file is new, deleted or modified, and
/// the hunks of the file.
pub proof fn law_patch_is_read_back(lines: Seq<DiffLineView>)
    requires
        forall|i: int| 0 <= i < lines.len() ==> !(#[trigger] lines[i]).content.contains('\n'),
        forall|i: int|
            0 <= i < lines.len() ==> ((#[trigger] lines[i]).file_path matches Some(path)
                ==> !path.contains('\n')),
    ensures
        pieces(patch_text(lines), '\n') == rows_of_groups(file_groups(lines)).push(Seq::empty()),
{
    lemma_groups_come_from_lines(lines);
    let groups = file_groups(lines);
    assert forall|i: int| 0 <= i < groups.len() implies !(#[trigger] groups[i]).path.contains(
        '\n',
    ) by {
        law_groups_hold_every_line(lines);
        let line = groups[i].lines[0];
        assert(lines.contains(line));
        let n = choose|n: int| 0 <= n < lines.len() && lines[n] == line;
        assert(lines[n].file_path == Some(groups[i].path));
    }
    assert forall|i: int, k: int|
        0 <= i < groups.len() && 0 <= k < groups[i].lines.len() implies !(
    #[trigger] groups[i].lines[k]).content.contains('\n') by {
        let line = groups[i].lines[k];
        assert(lines.contains(line));
        let n = choose|n: int| 0 <= n < lines.len() && lines[n] == line;
        assert(!lines[n].content.contains('\n'));
    }
    lemma_groups_are_read_back(groups);
}

proof fn lemma_groups_come_from_lines(lines: Seq<DiffLineView>)
    ensures
        forall|i: int, k: int|
            0 <= i < file_groups(lines).len() && 0 <= k < file_groups(lines)[i].lines.len()
                ==> lines.contains(#[trigger] file_groups(lines)[i].lines[k]),
    decreases lines.len(),
{
    if lines.len() > 0 {
        let front = lines.drop_last();
        lemma_groups_come_from_lines(front);
        let before = file_groups(front);
        let all = file_groups(lines);
        assert forall|i: int, k: int|
            0 <= i < all.len() && 0 <= k < all[i].lines.len() implies lines.contains(
            #[trigger] all[i].lines[k],
        ) by {
            if i < before.len() && k < before[i].lines.len() {
                let line = before[i].lines[k];
                assert(all[i].lines[k] == line);
                assert(front.contains(line));
                let n = choose|n: int| 0 <= n < front.len() && front[n] == line;
                assert(lines[n] == line);
            } else {
                assert(all[i].lines[k] == lines[lines.len() - 1]);
            }
        }
    }
}

} // verus!

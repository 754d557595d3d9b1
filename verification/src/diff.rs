//! The lines of a diff and where each of them comes from.
use vstd::prelude::*;

use crate::text::copy_text;
use crate::text::same_text;

verus! {

/// Where a line of a diff comes from. A deletion is named after the state that the line was in
/// before it was deleted.
#[derive(Clone, Copy, Debug, PartialEq, Eq, Structural)]
pub enum LineSource {
    Base,
    Committed,
    Staged,
    Unstaged,
    DeletedBase,
    DeletedCommitted,
    DeletedStaged,
    CanceledCommitted,
    CanceledStaged,
    FileHeader,
    Elided,
}

impl LineSource {
    pub open spec fn adds(self) -> bool {
        self is Committed || self is Staged || self is Unstaged
    }

    pub open spec fn deletes(self) -> bool {
        self is DeletedBase || self is DeletedCommitted || self is DeletedStaged
    }

    pub open spec fn cancels(self) -> bool {
        self is CanceledCommitted || self is CanceledStaged
    }

    pub open spec fn changes(self) -> bool {
        self.adds() || self.deletes() || self.cancels()
    }

    /// Whether the line is the heading of a file.
    pub fn is_header(&self) -> (r: bool)
        ensures
            r == (*self is FileHeader),
    {
        matches!(*self, LineSource::FileHeader)
    }

    /// Whether the line was added, deleted, or both.
    pub fn is_change(&self) -> (r: bool)
        ensures
            r == self.changes(),
    {
        self.is_addition() || self.is_deletion() || matches!(
            *self,
            LineSource::CanceledCommitted | LineSource::CanceledStaged
        )
    }

    /// Whether the line was added.
    pub fn is_addition(&self) -> (r: bool)
        ensures
            r == self.adds(),
    {
        matches!(*self, LineSource::Committed | LineSource::Staged | LineSource::Unstaged)
    }

    /// Whether the line was deleted.
    pub fn is_deletion(&self) -> (r: bool)
        ensures
            r == self.deletes(),
    {
        matches!(
            *self,
            LineSource::DeletedBase | LineSource::DeletedCommitted | LineSource::DeletedStaged
        )
    }
}

/// A stretch of a modified line: unchanged text (no source), inserted text or deleted text.
#[derive(Debug)]
pub struct InlineSpan {
    pub text: String,
    pub source: Option<LineSource>,
    pub is_deletion: bool,
}

/// What an `InlineSpan` holds.
pub struct InlineSpanView {
    pub text: Seq<char>,
    pub source: Option<LineSource>,
    pub is_deletion: bool,
}

impl DeepView for InlineSpan {
    type V = InlineSpanView;

    open spec fn deep_view(&self) -> InlineSpanView {
        InlineSpanView { text: self.text@, source: self.source, is_deletion: self.is_deletion }
    }
}

impl Clone for InlineSpan {
    fn clone(&self) -> (r: Self)
        ensures
            r == *self,
    {
        InlineSpan { text: self.text.clone(), source: self.source, is_deletion: self.is_deletion }
    }
}

/// The spans again, one by one.
pub fn copy_spans(spans: &[InlineSpan]) -> (r: Vec<InlineSpan>)
    ensures
        r@ == spans@,
{
    let mut out: Vec<InlineSpan> = Vec::new();
    let mut i: usize = 0;
    while i < spans.len()
        invariant
            i <= spans@.len(),
            out@ =~= spans@.take(i as int),
        decreases spans.len() - i,
    {
        out.push(spans[i].clone());
        i = i + 1;
    }
    assert(spans@.take(spans@.len() as int) =~= spans@);
    out
}

/// One line of a diff.
#[derive(Debug)]
pub struct DiffLine {
    pub source: LineSource,
    pub content: String,
    pub prefix: char,
    pub line_number: Option<usize>,
    pub file_path: Option<String>,
    /// The stretches of the line, where it is a modification of an older line.
    pub inline_spans: Vec<InlineSpan>,
    /// The text of the older line, where this line is a modification of one.
    pub old_content: Option<String>,
    pub change_source: Option<LineSource>,
    pub in_current_bookmark: Option<bool>,
    pub block_idx: Option<usize>,
    /// Where the line was moved to or from.
    pub move_target: Option<usize>,
}

/// What a `DiffLine` holds.
pub struct DiffLineView {
    pub source: LineSource,
    pub content: Seq<char>,
    pub prefix: char,
    pub line_number: Option<usize>,
    pub file_path: Option<Seq<char>>,
    pub inline_spans: Seq<InlineSpanView>,
    pub old_content: Option<Seq<char>>,
    pub change_source: Option<LineSource>,
    pub in_current_bookmark: Option<bool>,
    pub block_idx: Option<usize>,
    pub move_target: Option<usize>,
}

impl DeepView for DiffLine {
    type V = DiffLineView;

    open spec fn deep_view(&self) -> DiffLineView {
        DiffLineView {
            source: self.source,
            content: self.content@,
            prefix: self.prefix,
            line_number: self.line_number,
            file_path: self.file_path.deep_view(),
            inline_spans: self.inline_spans.deep_view(),
            old_content: self.old_content.deep_view(),
            change_source: self.change_source,
            in_current_bookmark: self.in_current_bookmark,
            block_idx: self.block_idx,
            move_target: self.move_target,
        }
    }
}

/// A line that has a source, a text, a prefix and a number, and nothing else.
pub open spec fn plain_line(
    source: LineSource,
    content: Seq<char>,
    prefix: char,
    line_number: Option<usize>,
) -> DiffLineView {
    DiffLineView {
        source,
        content,
        prefix,
        line_number,
        file_path: None,
        inline_spans: Seq::empty(),
        old_content: None,
        change_source: None,
        in_current_bookmark: None,
        block_idx: None,
        move_target: None,
    }
}

/// The text of the line that stands for an image.
pub open spec fn image_text() -> Seq<char> {
    "[image]"@
}

impl DiffLineView {
    pub open spec fn marks_image(self) -> bool {
        self.content == image_text()
    }
}

impl Clone for DiffLine {
    fn clone(&self) -> (r: Self)
        ensures
            r.deep_view() == self.deep_view(),
    {
        let inline_spans = copy_spans(self.inline_spans.as_slice());
        assert(inline_spans.deep_view() =~= self.inline_spans.deep_view());
        DiffLine {
            source: self.source,
            content: self.content.clone(),
            prefix: self.prefix,
            line_number: self.line_number,
            file_path: copy_text(&self.file_path),
            inline_spans,
            old_content: copy_text(&self.old_content),
            change_source: self.change_source,
            in_current_bookmark: self.in_current_bookmark,
            block_idx: self.block_idx,
            move_target: self.move_target,
        }
    }
}

impl DiffLine {
    /// A line with a source, a text, a prefix and a number.
    pub fn new(source: LineSource, content: String, prefix: char, line_number: Option<usize>) -> (r:
        Self)
        ensures
            r.deep_view() == plain_line(source, content@, prefix, line_number),
    {
        let r = DiffLine {
            source,
            content,
            prefix,
            line_number,
            file_path: None,
            inline_spans: Vec::new(),
            old_content: None,
            change_source: None,
            in_current_bookmark: None,
            block_idx: None,
            move_target: None,
        };
        assert(r.inline_spans.deep_view() =~= Seq::empty());
        r
    }

    /// The heading of a file.
    pub fn file_header(path: &str) -> (r: Self)
        ensures
            r.deep_view() == (DiffLineView {
                file_path: Some(path@),
                ..plain_line(LineSource::FileHeader, path@, ' ', None)
            }),
    {
        let mut r = DiffLine::new(LineSource::FileHeader, path.to_owned(), ' ', None);
        r.file_path = Some(path.to_owned());
        r
    }

    /// The line that stands for the image in the file `path`.
    pub fn image_marker(path: &str) -> (r: Self)
        ensures
            r.deep_view() == (DiffLineView {
                file_path: Some(path@),
                ..plain_line(LineSource::Base, image_text(), ' ', None)
            }),
    {
        let mut r = DiffLine::new(LineSource::Base, "[image]".to_owned(), ' ', None);
        r.file_path = Some(path.to_owned());
        r
    }

    /// Whether the line stands for an image.
    pub fn is_image_marker(&self) -> (r: bool)
        ensures
            r == self.deep_view().marks_image(),
    {
        same_text(self.content.as_str(), "[image]")
    }

    /// The line that stands for `count` lines that are left out.
    pub fn elided(count: usize) -> (r: Self)
        ensures
            r.deep_view() == elided_line(count as nat),
    {
        let mut content = crate::text::number(count as u64);
        vstd::string::StringExecFns::append(&mut content, " lines");
        DiffLine::new(LineSource::Elided, content, ' ', None)
    }
}

/// The line that stands for `count` lines that are left out.
pub open spec fn elided_line(count: nat) -> DiffLineView {
    plain_line(LineSource::Elided, crate::text::decimal(count) + " lines"@, ' ', None)
}

/// The lines of one file.
#[derive(Debug)]
pub struct FileDiff {
    pub lines: Vec<DiffLine>,
}

impl DeepView for FileDiff {
    type V = Seq<DiffLineView>;

    open spec fn deep_view(&self) -> Seq<DiffLineView> {
        self.lines.deep_view()
    }
}

/// The lines again, one by one.
pub fn copy_lines(lines: &[DiffLine]) -> (r: Vec<DiffLine>)
    ensures
        r.deep_view() == lines.deep_view(),
{
    let mut out: Vec<DiffLine> = Vec::new();
    let mut i: usize = 0;
    while i < lines.len()
        invariant
            i <= lines@.len(),
            out@.len() == i,
            forall|k: int| 0 <= k < i ==> (#[trigger] out@[k]).deep_view() == lines@[k].deep_view(),
        decreases lines.len() - i,
    {
        out.push(lines[i].clone());
        i = i + 1;
    }
    assert(out.deep_view() =~= lines.deep_view());
    out
}

/// The largest line number, or zero.
pub open spec fn largest_number(lines: Seq<DiffLineView>) -> nat
    decreases lines.len(),
{
    if lines.len() == 0 {
        0
    } else {
        let before = largest_number(lines.drop_last());
        match lines.last().line_number {
            Some(n) => if n > before {
                n as nat
            } else {
                before
            },
            None => before,
        }
    }
}

/// The largest line number, or zero.
pub fn largest_line_number(lines: &[DiffLine]) -> (r: usize)
    ensures
        r == largest_number(lines.deep_view()),
{
    let ghost all = lines.deep_view();
    let mut widest: usize = 0;
    let mut i: usize = 0;
    assert(all.take(0).len() == 0);
    while i < lines.len()
        invariant
            i <= lines@.len(),
            all == lines.deep_view(),
            widest == largest_number(all.take(i as int)),
        decreases lines.len() - i,
    {
        assert(all.take(i + 1).drop_last() =~= all.take(i as int));
        assert(all[i as int] == lines@[i as int].deep_view());
        if let Some(n) = lines[i].line_number {
            if n > widest {
                widest = n;
            }
        }
        i = i + 1;
    }
    assert(all.take(all.len() as int) =~= all);
    widest
}

/// No line has a number above the largest one, and some line has that number, unless it is zero.
pub proof fn law_largest_number(lines: Seq<DiffLineView>)
    ensures
        forall|i: int|
            0 <= i < lines.len() ==> ((#[trigger] lines[i]).line_number matches Some(n) ==> n
                <= largest_number(lines)),
        largest_number(lines) > 0 ==> exists|i: int|
            0 <= i < lines.len() && (#[trigger] lines[i]).line_number == Some(
                largest_number(lines) as usize,
            ),
        largest_number(lines) <= usize::MAX,
    decreases lines.len(),
{
    if lines.len() > 0 {
        let front = lines.drop_last();
        law_largest_number(front);
        assert forall|i: int| 0 <= i < lines.len() implies ((
        #[trigger] lines[i]).line_number matches Some(n) ==> n <= largest_number(lines)) by {
            if i < front.len() {
                assert(front[i] == lines[i]);
            }
        }
        if largest_number(lines) > 0 {
            if largest_number(lines) == largest_number(front) {
                let i = choose|i: int|
                    0 <= i < front.len() && (#[trigger] front[i]).line_number == Some(
                        largest_number(front) as usize,
                    );
                assert(lines[i] == front[i]);
            } else {
                assert(lines[lines.len() - 1].line_number == Some(
                    largest_number(lines) as usize,
                ));
            }
        }
    }
}

} // verus!

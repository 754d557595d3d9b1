//! The state of the program that the views read.
use vstd::prelude::*;

use crate::diff::DiffLine;
use crate::diff::FileDiff;
use crate::image_diff::ImageCache;
use crate::ui::ScreenRowInfo;

verus! {

/// A place on the screen, by row and column.
#[derive(Clone, Copy, Debug, PartialEq, Eq, Structural)]
pub struct Position {
    pub row: usize,
    pub col: usize,
}

impl Position {
    /// Whether the place comes before another one in reading order, or is the same.
    pub open spec fn not_after(self, other: Position) -> bool {
        self.row < other.row || (self.row == other.row && self.col <= other.col)
    }
}

/// Selected text, from where the selection was begun to where it was drawn.
#[derive(Clone, Copy, Debug, PartialEq, Eq, Structural)]
pub struct Selection {
    pub start: Position,
    pub end: Position,
    pub active: bool,
}

impl Selection {
    /// The first of the two ends in reading order.
    pub open spec fn first(self) -> Position {
        if self.start.not_after(self.end) {
            self.start
        } else {
            self.end
        }
    }

    /// The last of the two ends in reading order.
    pub open spec fn last(self) -> Position {
        if self.start.not_after(self.end) {
            self.end
        } else {
            self.start
        }
    }
}

/// Which lines are shown.
#[derive(Clone, Copy, Debug, PartialEq, Eq, Structural)]
pub enum ViewMode {
    /// All lines.
    Full,
    /// Changed lines and those around them.
    Context,
    ChangesOnly,
    /// The changes of the current commit.
    CommitOnly,
    /// The changes of the current bookmark.
    BookmarkOnly,
}

/// The version control system of the repository.
#[derive(Clone, Copy, Debug, PartialEq, Eq, Structural)]
pub enum VcsBackend {
    Git,
    Jj,
}

/// Where the current commit stands in a stack of commits.
#[derive(Clone, Copy, Debug, PartialEq, Eq, Structural)]
pub struct StackPosition {
    pub current: usize,
    pub total: usize,
    pub head_count: usize,
}

/// What is compared with what.
#[derive(Debug)]
pub struct ComparisonContext {
    pub from_label: String,
    pub to_label: String,
    pub bookmark_name: Option<String>,
    pub stack_position: Option<StackPosition>,
    pub vcs_backend: VcsBackend,
    /// The files that also changed upstream, where that is known.
    pub upstream_files: Option<Vec<String>>,
}

/// A place where the text that is searched for stands, in characters of a line.
#[derive(Clone, Copy, Debug, PartialEq, Eq, Structural)]
pub struct SearchMatch {
    pub line_idx: usize,
    pub char_start: usize,
    pub char_len: usize,
}

/// A search and what it found.
#[derive(Debug)]
pub struct SearchState {
    pub query: String,
    pub matches: Vec<SearchMatch>,
    /// The match that was gone to last.
    pub current: usize,
    /// How many of the matches are in lines that are shown.
    pub visible_count: usize,
    /// Whether the text to search for is still being entered.
    pub input_active: bool,
}

/// One item of what is shown.
#[derive(Debug)]
pub enum DisplayableItem {
    /// A line, by its number.
    Line(usize),
    /// A mark in place of so many lines.
    Elided(usize),
    /// A note.
    Message(String),
}

/// How the diff is looked at.
#[derive(Debug)]
pub struct ViewState {
    pub view_mode: ViewMode,
    pub show_help: bool,
    pub selection: Option<Selection>,
    /// What the rows of the screen show.
    pub row_map: Vec<ScreenRowInfo>,
    pub collapsed_files: Vec<String>,
    pub reviewed_files: Vec<String>,
    /// How many rows of the first item are scrolled past.
    pub sub_row: usize,
}

/// The state of the program that the views read.
pub struct App {
    pub repo_path: String,
    pub comparison: ComparisonContext,
    pub files: Vec<FileDiff>,
    pub lines: Vec<DiffLine>,
    /// How many lines were added.
    pub additions: usize,
    /// How many lines were deleted.
    pub deletions: usize,
    /// How far the diff is scrolled, in percent.
    pub scroll_percentage: usize,
    pub error: Option<String>,
    pub conflict_warning: Option<String>,
    pub performance_warning: Option<String>,
    pub search: Option<SearchState>,
    pub image_cache: ImageCache,
    /// The size of a cell of the terminal in pixels.
    pub font_size: (u16, u16),
    /// Whether to tell that something was copied.
    pub show_copied_flash: bool,
    pub view: ViewState,
}

} // verus!

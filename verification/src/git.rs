//! What Git is asked, and what its answers mean.
use vstd::prelude::*;
use vstd::string::*;

use crate::bytes::cut;
use crate::bytes::find_cut;
use crate::bytes::lemma_bytes_concat;
use crate::bytes::text_bytes;
use crate::scan::begins_with;
use crate::scan::ended_lines;
use crate::scan::find_text;
use crate::scan::first_word;
use crate::scan::is_digit;
use crate::scan::law_lines_are_read_back;
use crate::scan::law_numbers_are_read_back;
use crate::scan::law_words_are_read_back;
use crate::scan::lemma_first_piece;
use crate::scan::lemma_first_place;
use crate::scan::lemma_one_piece;
use crate::scan::lines_of;
use crate::scan::parse_number;
use crate::scan::parsed;
use crate::scan::pieces;
use crate::scan::place_of;
use crate::scan::split;
use crate::scan::split_lines;
use crate::scan::starts_with;
use crate::scan::trim;
use crate::scan::trimmed;
use crate::scan::trimmed_start;
use crate::scan::word;
use crate::text::append_number;
use crate::text::chars_of;
use crate::text::decimal;
use crate::text::has_text;
use crate::text::is_space;
use crate::text::number;
use crate::text::same_text;
use crate::text::stands_at;
use crate::text::substring;

verus! {

/// The first version of Git that tells whether a merge has conflicts: the major number.
pub const MERGE_TREE_MAJOR: u32 = 2;

/// The first version of Git that tells whether a merge has conflicts: the minor number.
pub const MERGE_TREE_MINOR: u32 = 38;

/// How long fetching may take, in nanoseconds.
pub const FETCH_TIMEOUT_NANOS: u128 = 30_000_000_000;

/// How long to wait before looking again whether fetching is done, in milliseconds.
pub const FETCH_POLL_MILLIS: u64 = 100;

/// What a command answered.
#[derive(Debug)]
pub struct CommandOutput {
    pub success: bool,
    pub stdout: String,
    pub stderr: String,
}

/// What can go wrong with Git.
#[derive(Debug)]
pub enum GitError {
    /// The version was not told in the usual way.
    UnexpectedVersion(String),
    /// The version has less than two numbers.
    UnparsedVersion(String),
    InvalidMajor,
    InvalidMinor,
    VersionFailed(String),
    NotARepository(String),
    NoBaseBranch,
    NoMergeBase(String),
    DiffFailed(String),
    FetchFailed(String),
    FetchTimedOut,
    WaitFailed(String),
}

/// What a `GitError` holds.
pub enum GitErrorView {
    UnexpectedVersion(Seq<char>),
    UnparsedVersion(Seq<char>),
    InvalidMajor,
    InvalidMinor,
    VersionFailed(Seq<char>),
    NotARepository(Seq<char>),
    NoBaseBranch,
    NoMergeBase(Seq<char>),
    DiffFailed(Seq<char>),
    FetchFailed(Seq<char>),
    FetchTimedOut,
    WaitFailed(Seq<char>),
}

impl DeepView for GitError {
    type V = GitErrorView;

    open spec fn deep_view(&self) -> GitErrorView {
        match self {
            GitError::UnexpectedVersion(s) => GitErrorView::UnexpectedVersion(s@),
            GitError::UnparsedVersion(s) => GitErrorView::UnparsedVersion(s@),
            GitError::InvalidMajor => GitErrorView::InvalidMajor,
            GitError::InvalidMinor => GitErrorView::InvalidMinor,
            GitError::VersionFailed(s) => GitErrorView::VersionFailed(s@),
            GitError::NotARepository(s) => GitErrorView::NotARepository(s@),
            GitError::NoBaseBranch => GitErrorView::NoBaseBranch,
            GitError::NoMergeBase(s) => GitErrorView::NoMergeBase(s@),
            GitError::DiffFailed(s) => GitErrorView::DiffFailed(s@),
            GitError::FetchFailed(s) => GitErrorView::FetchFailed(s@),
            GitError::FetchTimedOut => GitErrorView::FetchTimedOut,
            GitError::WaitFailed(s) => GitErrorView::WaitFailed(s@),
        }
    }
}

impl GitErrorView {
    /// The error in words.
    pub open spec fn text(self) -> Seq<char> {
        match self {
            GitErrorView::UnexpectedVersion(s) => "Unexpected git version format: "@ + s,
            GitErrorView::UnparsedVersion(s) => "Cannot parse git version: "@ + s,
            GitErrorView::InvalidMajor => "Invalid major version"@,
            GitErrorView::InvalidMinor => "Invalid minor version"@,
            GitErrorView::VersionFailed(s) => "git --version failed: "@ + s,
            GitErrorView::NotARepository(s) => "Not a git repository: "@ + s,
            GitErrorView::NoBaseBranch => "Could not find 'main' or 'master' branch"@,
            GitErrorView::NoMergeBase(s) => "Failed to find merge-base: "@ + s,
            GitErrorView::DiffFailed(s) => "git diff failed: "@ + s,
            GitErrorView::FetchFailed(s) => "git fetch failed: "@ + s,
            GitErrorView::FetchTimedOut => "git fetch timed out"@,
            GitErrorView::WaitFailed(s) => "Error waiting for git fetch: "@ + s,
        }
    }
}

fn joined(start: &str, rest: &String) -> (r: String)
    ensures
        r@ == start@ + rest@,
{
    let mut out = start.to_string();
    out.append(rest.as_str());
    out
}

impl GitError {
    /// The error in words.
    pub fn message(&self) -> (r: String)
        ensures
            r@ == self.deep_view().text(),
    {
        match self {
            GitError::UnexpectedVersion(s) => joined("Unexpected git version format: ", s),
            GitError::UnparsedVersion(s) => joined("Cannot parse git version: ", s),
            GitError::InvalidMajor => String::from_str("Invalid major version"),
            GitError::InvalidMinor => String::from_str("Invalid minor version"),
            GitError::VersionFailed(s) => joined("git --version failed: ", s),
            GitError::NotARepository(s) => joined("Not a git repository: ", s),
            GitError::NoBaseBranch => String::from_str("Could not find 'main' or 'master' branch"),
            GitError::NoMergeBase(s) => joined("Failed to find merge-base: ", s),
            GitError::DiffFailed(s) => joined("git diff failed: ", s),
            GitError::FetchFailed(s) => joined("git fetch failed: ", s),
            GitError::FetchTimedOut => String::from_str("git fetch timed out"),
            GitError::WaitFailed(s) => joined("Error waiting for git fetch: ", s),
        }
    }
}

/// A version of Git.
#[derive(Clone, Copy, Debug, PartialEq, Eq, Structural)]
pub struct GitVersion {
    pub major: u32,
    pub minor: u32,
    pub patch: u32,
}

impl GitVersion {
    /// Whether the version is no older than another one, by its first two numbers.
    pub open spec fn reaches(self, major: u32, minor: u32) -> bool {
        self.major > major || (self.major == major && self.minor >= minor)
    }

    /// Whether the version is no older than another one, by its first two numbers.
    pub fn at_least(&self, major: u32, minor: u32) -> (r: bool)
        ensures
            r == self.reaches(major, minor),
    {
        self.major > major || (self.major == major && self.minor >= minor)
    }

    /// The version in words.
    pub fn display(&self) -> (r: String)
        ensures
            r@ == decimal(self.major as nat) + "."@ + decimal(self.minor as nat) + "."@ + decimal(
                self.patch as nat,
            ),
    {
        let mut out = number(self.major as u64);
        out.append(".");
        append_number(&mut out, self.minor as u64);
        out.append(".");
        append_number(&mut out, self.patch as u64);
        out
    }
}

/// The version that Git tells: up to three numbers with dots between them, behind the words `git
/// version` and before the next space.
pub open spec fn told_version(s: Seq<char>) -> Result<GitVersion, GitErrorView> {
    let line = trimmed(s);
    let start = "git version "@;
    if !begins_with(line, start) {
        Err(GitErrorView::UnexpectedVersion(s))
    } else {
        let parts = pieces(first_word(line.skip(start.len() as int)), '.');
        if parts.len() < 2 {
            Err(GitErrorView::UnparsedVersion(s))
        } else if parsed(parts[0]) is None {
            Err(GitErrorView::InvalidMajor)
        } else if parsed(parts[1]) is None {
            Err(GitErrorView::InvalidMinor)
        } else {
            Ok(
                GitVersion {
                    major: parsed(parts[0])->0 as u32,
                    minor: parsed(parts[1])->0 as u32,
                    patch: if parts.len() > 2 && parsed(parts[2]) is Some {
                        parsed(parts[2])->0 as u32
                    } else {
                        0
                    },
                },
            )
        }
    }
}

/// The version that Git tells.
pub fn parse_git_version(s: &str) -> (r: Result<GitVersion, GitError>)
    ensures
        match r {
            Ok(version) => told_version(s@) == Ok::<GitVersion, GitErrorView>(version),
            Err(error) => told_version(s@) == Err::<GitVersion, GitErrorView>(error.deep_view()),
        },
{
    let line = trim(s);
    let start = "git version ";
    if !starts_with(line.as_str(), start) {
        return Err(GitError::UnexpectedVersion(s.to_string()));
    }
    let cs = chars_of(line.as_str());
    let rest = substring(cs.as_slice(), start.unicode_len(), cs.len());
    assert(rest@ =~= line@.skip(start@.len() as int));
    let version = word(rest.as_str());
    let parts = split(version.as_str(), '.');
    let ghost all = parts.deep_view();
    assert(all.len() == parts@.len());
    if parts.len() < 2 {
        return Err(GitError::UnparsedVersion(s.to_string()));
    }
    assert(all[0] == parts@[0]@);
    assert(all[1] == parts@[1]@);
    let major = match parse_number(parts[0].as_str()) {
        Some(n) => n,
        None => {
            return Err(GitError::InvalidMajor);
        },
    };
    let minor = match parse_number(parts[1].as_str()) {
        Some(n) => n,
        None => {
            return Err(GitError::InvalidMinor);
        },
    };
    let mut patch: u32 = 0;
    if parts.len() > 2 {
        assert(all[2] == parts@[2]@);
        if let Some(n) = parse_number(parts[2].as_str()) {
            patch = n;
        }
    }
    Ok(GitVersion { major, minor, patch })
}

/// The version that `git --version` tells.
pub fn get_git_version(output: &CommandOutput) -> (r: Result<GitVersion, GitError>)
    ensures
        match r {
            Ok(version) => output.success && told_version(output.stdout@) == Ok::<
                GitVersion,
                GitErrorView,
            >(version),
            Err(error) => error.deep_view() == (if output.success {
                told_version(output.stdout@)->Err_0
            } else {
                GitErrorView::VersionFailed(trimmed(output.stderr@))
            }) && (output.success ==> told_version(output.stdout@) is Err),
        },
{
    if !output.success {
        return Err(GitError::VersionFailed(trim(output.stderr.as_str())));
    }
    parse_git_version(output.stdout.as_str())
}

/// The root of the repository that `git rev-parse --show-toplevel` tells.
pub fn get_repo_root(output: &CommandOutput) -> (r: Result<String, GitError>)
    ensures
        match r {
            Ok(root) => output.success && root@ == trimmed(output.stdout@),
            Err(error) => !output.success && error.deep_view() == GitErrorView::NotARepository(
                output.stderr@,
            ),
        },
{
    if output.success {
        Ok(trim(output.stdout.as_str()))
    } else {
        Err(GitError::NotARepository(output.stderr.clone()))
    }
}

/// The branch that others are compared with: `main` where there is one, or else `master`.
pub fn detect_base_branch(main_exists: bool, master_exists: bool) -> (r: Result<
    &'static str,
    GitError,
>)
    ensures
        match r {
            Ok(branch) => if main_exists {
                branch@ == "main"@
            } else {
                master_exists && branch@ == "master"@
            },
            Err(error) => !main_exists && !master_exists && error is NoBaseBranch,
        },
{
    if main_exists {
        Ok("main")
    } else if master_exists {
        Ok("master")
    } else {
        Err(GitError::NoBaseBranch)
    }
}

/// A branch as the remote repository has it.
pub open spec fn on_origin(branch: Seq<char>) -> Seq<char> {
    "origin/"@ + branch
}

/// A branch as the remote repository has it.
pub fn remote_ref(branch: &str) -> (r: String)
    ensures
        r@ == on_origin(branch@),
{
    let mut out = String::from_str("origin/");
    out.append(branch);
    out
}

/// The commit that `git merge-base` tells.
pub fn get_merge_base(output: &CommandOutput) -> (r: Result<String, GitError>)
    ensures
        match r {
            Ok(commit) => output.success && commit@ == trimmed(output.stdout@),
            Err(error) => !output.success && error.deep_view() == GitErrorView::NoMergeBase(
                output.stderr@,
            ),
        },
{
    if output.success {
        Ok(trim(output.stdout.as_str()))
    } else {
        Err(GitError::NoMergeBase(output.stderr.clone()))
    }
}

/// The commit that two branches have in common: the one with the branch of the remote repository,
/// or else the one with the local branch.
pub fn get_merge_base_preferring_origin(
    with_origin: Result<String, GitError>,
    with_local: Result<String, GitError>,
) -> (r: Result<String, GitError>)
    ensures
        r == (if with_origin is Ok {
            with_origin
        } else {
            with_local
        }),
{
    match with_origin {
        Ok(commit) => Ok(commit),
        Err(_) => with_local,
    }
}

/// A file in a commit, or in the index where no commit is given.
pub fn ref_path(git_ref: &str, file_path: &str) -> (r: String)
    ensures
        r@ == git_ref@ + ":"@ + file_path@,
{
    let mut out = git_ref.to_string();
    out.append(":");
    out.append(file_path);
    out
}

/// The text of a file that `git show` tells; nothing where there is no such file.
pub fn get_file_at_ref(output: CommandOutput) -> (r: Option<String>)
    ensures
        r == (if output.success {
            Some(output.stdout)
        } else {
            None
        }),
{
    if output.success {
        Some(output.stdout)
    } else {
        None
    }
}

/// What came of reading a file.
#[derive(Debug)]
pub enum FileRead {
    Text(String),
    /// The file is not there.
    Missing,
    Failed(String),
}

/// The text of a file in the working tree; nothing where there is no such file.
pub fn get_working_tree_file(exists: bool, read: FileRead) -> (r: Result<Option<String>, String>)
    ensures
        r == (if !exists {
            Ok(None)
        } else {
            match read {
                FileRead::Text(text) => Ok(Some(text)),
                FileRead::Missing => Ok(None),
                FileRead::Failed(message) => Err(message),
            }
        }),
{
    if !exists {
        return Ok(None);
    }
    match read {
        FileRead::Text(text) => Ok(Some(text)),
        FileRead::Missing => Ok(None),
        FileRead::Failed(message) => Err(message),
    }
}

/// A file that changed, was added, deleted or renamed.
#[derive(Debug, PartialEq, Eq)]
pub struct FileTransition {
    /// The path that it had, unless it was added.
    pub from: Option<String>,
    /// The path that it has, unless it was deleted.
    pub to: Option<String>,
}

/// What a `FileTransition` holds.
pub struct FileTransitionView {
    pub from: Option<Seq<char>>,
    pub to: Option<Seq<char>>,
}

impl DeepView for FileTransition {
    type V = FileTransitionView;

    open spec fn deep_view(&self) -> FileTransitionView {
        FileTransitionView { from: self.from.deep_view(), to: self.to.deep_view() }
    }
}

impl FileTransitionView {
    /// The path that a file has, or that it had where it was deleted.
    pub open spec fn current(self) -> Option<Seq<char>> {
        match self.to {
            Some(path) => Some(path),
            None => self.from,
        }
    }
}

impl FileTransition {
    /// The path that a file has, or that it had where it was deleted.
    pub fn current_path(&self) -> (r: Option<&str>)
        ensures
            r.deep_view() == self.deep_view().current(),
    {
        match &self.to {
            Some(path) => Some(path.as_str()),
            None => match &self.from {
                Some(path) => Some(path.as_str()),
                None => None,
            },
        }
    }
}

/// What a line of `git diff --name-status` tells: a status and one path, or a status and two where
/// a file was renamed, with tabs between them.
pub open spec fn told_transition(line: Seq<char>) -> Option<FileTransitionView> {
    let parts = pieces(line, '\t');
    if parts.len() == 2 && parts[0].len() > 0 && parts[0][0] == 'A' {
        Some(FileTransitionView { from: None, to: Some(parts[1]) })
    } else if parts.len() == 2 && parts[0].len() > 0 && parts[0][0] == 'D' {
        Some(FileTransitionView { from: Some(parts[1]), to: None })
    } else if parts.len() == 2 && parts[0].len() > 0 && parts[0][0] == 'M' {
        Some(FileTransitionView { from: Some(parts[1]), to: Some(parts[1]) })
    } else if parts.len() == 3 && parts[0].len() > 0 && parts[0][0] == 'R' {
        Some(FileTransitionView { from: Some(parts[1]), to: Some(parts[2]) })
    } else {
        None
    }
}

/// What a line of `git diff --name-status` tells.
pub fn parse_diff_line(line: &str) -> (r: Option<FileTransition>)
    ensures
        r.deep_view() == told_transition(line@),
{
    let parts = split(line, '\t');
    let ghost all = parts.deep_view();
    assert(all.len() == parts@.len());
    assert(all[0] == parts@[0]@);
    let status = chars_of(parts[0].as_str());
    if status.len() == 0 {
        return None;
    }
    if parts.len() == 2 {
        assert(all[1] == parts@[1]@);
        match status[0] {
            'A' => Some(FileTransition { from: None, to: Some(parts[1].clone()) }),
            'D' => Some(FileTransition { from: Some(parts[1].clone()), to: None }),
            'M' => Some(
                FileTransition { from: Some(parts[1].clone()), to: Some(parts[1].clone()) },
            ),
            _ => None,
        }
    } else if parts.len() == 3 && status[0] == 'R' {
        assert(all[1] == parts@[1]@);
        assert(all[2] == parts@[2]@);
        Some(FileTransition { from: Some(parts[1].clone()), to: Some(parts[2].clone()) })
    } else {
        None
    }
}

/// The files that lines of `git diff --name-status` tell.
pub open spec fn told_files(lines: Seq<Seq<char>>) -> Seq<Seq<char>>
    decreases lines.len(),
{
    if lines.len() == 0 {
        Seq::empty()
    } else {
        let before = told_files(lines.drop_last());
        match told_transition(lines.last()) {
            Some(transition) => match transition.current() {
                Some(path) => before.push(path),
                None => before,
            },
            None => before,
        }
    }
}

/// The files that `git diff --name-status` tells.
pub fn get_diff_files(output: &CommandOutput) -> (r: Result<Vec<String>, GitError>)
    ensures
        match r {
            Ok(files) => output.success && files.deep_view() == told_files(
                lines_of(output.stdout@),
            ),
            Err(error) => !output.success && error.deep_view() == GitErrorView::DiffFailed(
                output.stderr@,
            ),
        },
{
    if !output.success {
        return Err(GitError::DiffFailed(output.stderr.clone()));
    }
    let lines = split_lines(output.stdout.as_str());
    let ghost all = lines.deep_view();
    let mut out: Vec<String> = Vec::new();
    let mut i: usize = 0;
    assert(all.take(0).len() == 0);
    assert(out.deep_view() =~= Seq::empty());
    while i < lines.len()
        invariant
            i <= lines@.len(),
            all == lines.deep_view(),
            out.deep_view() == told_files(all.take(i as int)),
        decreases lines.len() - i,
    {
        assert(all.take(i + 1).drop_last() =~= all.take(i as int));
        assert(all[i as int] == lines@[i as int]@);
        if let Some(transition) = parse_diff_line(lines[i].as_str()) {
            if let Some(path) = transition.current_path() {
                let path = path.to_string();
                let ghost before = out.deep_view();
                out.push(path);
                assert(out.deep_view() =~= before.push(path@));
            }
        }
        i = i + 1;
    }
    assert(all.take(all.len() as int) =~= all);
    Ok(out)
}

/// Whether `git diff --numstat` tells that a file is binary: it counts no lines then.
pub fn is_binary_file(stdout: &str) -> (r: bool)
    ensures
        r == begins_with(stdout@, "-\t-\t"@),
{
    starts_with(stdout, "-\t-\t")
}

/// The branch that `git rev-parse --abbrev-ref HEAD` tells; none where no branch is checked out.
pub fn get_current_branch(output: &CommandOutput) -> (r: Option<String>)
    ensures
        r.deep_view() == (if !output.success || trimmed(output.stdout@) == "HEAD"@ {
            None
        } else {
            Some(trimmed(output.stdout@))
        }),
{
    if !output.success {
        return None;
    }
    let branch = trim(output.stdout.as_str());
    if same_text(branch.as_str(), "HEAD") {
        None
    } else {
        Some(branch)
    }
}

/// What to fetch: the branch alone where it is checked out, or else into the local branch.
pub fn fetch_arg(current_branch: Option<&str>, base_branch: &str) -> (r: String)
    ensures
        r@ == (if current_branch is Some && current_branch->0@ == base_branch@ {
            base_branch@
        } else {
            base_branch@ + ":"@ + base_branch@
        }),
{
    let checked_out = match current_branch {
        Some(current) => same_text(current, base_branch),
        None => false,
    };
    let mut out = base_branch.to_string();
    if !checked_out {
        out.append(":");
        out.append(base_branch);
    }
    out
}

/// How far fetching is.
#[derive(Debug)]
pub enum FetchPoll {
    Finished { success: bool, stderr: String },
    /// It goes on since so many nanoseconds.
    Running { elapsed_nanos: u128 },
    /// It is not known.
    Failed(String),
}

/// What to do next about fetching.
#[derive(Debug)]
pub enum FetchStep {
    Done,
    Fail(GitError),
    /// Look again in so many milliseconds.
    Wait(u64),
    /// Stop it.
    Kill(GitError),
}

/// What to do next about fetching: wait until it is done, but not too long.
pub fn fetch_base_branch(poll: FetchPoll) -> (r: FetchStep)
    ensures
        match poll {
            FetchPoll::Finished { success, stderr } => if success {
                r is Done
            } else {
                r == FetchStep::Fail(GitError::FetchFailed(stderr))
            },
            FetchPoll::Running { elapsed_nanos } => if elapsed_nanos > FETCH_TIMEOUT_NANOS {
                r == FetchStep::Kill(GitError::FetchTimedOut)
            } else {
                r == FetchStep::Wait(FETCH_POLL_MILLIS)
            },
            FetchPoll::Failed(message) => r == FetchStep::Fail(GitError::WaitFailed(message)),
        },
{
    match poll {
        FetchPoll::Finished { success, stderr } => if success {
            FetchStep::Done
        } else {
            FetchStep::Fail(GitError::FetchFailed(stderr))
        },
        FetchPoll::Running { elapsed_nanos } => if elapsed_nanos > FETCH_TIMEOUT_NANOS {
            FetchStep::Kill(GitError::FetchTimedOut)
        } else {
            FetchStep::Wait(FETCH_POLL_MILLIS)
        },
        FetchPoll::Failed(message) => FetchStep::Fail(GitError::WaitFailed(message)),
    }
}

/// What is known of a merge with the remote branch.
#[derive(Clone, Copy, Debug, PartialEq, Eq, Structural)]
pub enum ConflictCheck {
    /// Nothing yet.
    Start,
    RemoteBranch { exists: bool },
    MergeTree { success: bool },
}

/// What to do next to find out whether a merge has conflicts.
#[derive(Clone, Copy, Debug, PartialEq, Eq, Structural)]
pub enum ConflictStep {
    FindRemoteBranch,
    TryMerge,
    Known { conflicts: bool },
}

/// What to do next to find out whether a merge with the remote branch has conflicts. Old versions
/// of Git do not tell; then, and where there is no remote branch, there are none.
pub fn has_merge_conflicts(version: &GitVersion, check: ConflictCheck) -> (r: ConflictStep)
    ensures
        r == (if !version.reaches(MERGE_TREE_MAJOR, MERGE_TREE_MINOR) {
            ConflictStep::Known { conflicts: false }
        } else {
            match check {
                ConflictCheck::Start => ConflictStep::FindRemoteBranch,
                ConflictCheck::RemoteBranch { exists } => if exists {
                    ConflictStep::TryMerge
                } else {
                    ConflictStep::Known { conflicts: false }
                },
                ConflictCheck::MergeTree { success } => ConflictStep::Known {
                    conflicts: !success,
                },
            }
        }),
{
    if !version.at_least(MERGE_TREE_MAJOR, MERGE_TREE_MINOR) {
        return ConflictStep::Known { conflicts: false };
    }
    match check {
        ConflictCheck::Start => ConflictStep::FindRemoteBranch,
        ConflictCheck::RemoteBranch { exists } => if exists {
            ConflictStep::TryMerge
        } else {
            ConflictStep::Known { conflicts: false }
        },
        ConflictCheck::MergeTree { success } => ConflictStep::Known { conflicts: !success },
    }
}

/// A version that reaches another one reaches all versions that the other one reaches.
pub proof fn law_versions_are_ordered(a: GitVersion, b: GitVersion, major: u32, minor: u32)
    ensures
        a.reaches(b.major, b.minor) && b.reaches(major, minor) ==> a.reaches(major, minor),
        a.reaches(b.major, b.minor) || b.reaches(a.major, a.minor),
        a.reaches(b.major, b.minor) && b.reaches(a.major, a.minor) ==> a.major == b.major
            && a.minor == b.minor,
{
}

/// A file that changed.
#[derive(Debug)]
pub struct ChangedFile {
    pub path: String,
}

impl DeepView for ChangedFile {
    type V = Seq<char>;

    open spec fn deep_view(&self) -> Seq<char> {
        self.path@
    }
}

/// The path that a file has of those that a line of `git status` tells: the second one where a file
/// was renamed.
pub open spec fn renamed(path: Seq<char>) -> Seq<char> {
    let arrow = " -> "@;
    let at = place_of(path, arrow, 0);
    if at < path.len() {
        let rest = path.skip(at + arrow.len());
        rest.take(place_of(rest, arrow, 0))
    } else {
        path
    }
}

/// Whether a line of `git status` can be read: its third byte ends a character.
pub open spec fn readable(line: Seq<char>) -> bool {
    text_bytes(line) >= 3 ==> cut(line, 3, 0) is Some
}

/// The file that a line of `git status` tells, behind two letters and a space.
pub open spec fn status_path(line: Seq<char>) -> Option<Seq<char>> {
    if text_bytes(line) < 3 {
        None
    } else {
        Some(renamed(line.skip(cut(line, 3, 0)->0)))
    }
}

/// Whether a file is among those that lines of `git status` tell.
pub open spec fn in_status(lines: Seq<Seq<char>>, path: Seq<char>) -> bool {
    exists|i: int| 0 <= i < lines.len() && status_path(#[trigger] lines[i]) == Some(path)
}

/// Whether text comes before other text in the order of their characters.
pub open spec fn before(a: Seq<char>, b: Seq<char>) -> bool
    decreases b.len(),
{
    if b.len() == 0 {
        false
    } else if a.len() == 0 {
        true
    } else if a[0] == b[0] {
        before(a.skip(1), b.skip(1))
    } else {
        a[0] < b[0]
    }
}

/// Whether texts stand in order, none of them twice.
pub open spec fn ordered(texts: Seq<Seq<char>>) -> bool {
    forall|i: int, j: int| 0 <= i < j < texts.len() ==> before(#[trigger] texts[i], #[trigger] texts[j])
}

/// Whether a file changed: it did where a commit changed it, as far as there are commits, or where
/// it is among those of `git status`.
pub open spec fn changed(
    merge_base: Seq<char>,
    committed: Option<Seq<Seq<char>>>,
    status: Option<Seq<char>>,
    path: Seq<char>,
) -> bool {
    ||| merge_base.len() > 0 && committed is Some && committed->0.contains(path)
    ||| status is Some && in_status(lines_of(status->0), path)
}

proof fn lemma_before_chain(a: Seq<char>, b: Seq<char>, c: Seq<char>)
    requires
        before(a, b),
        before(b, c),
    ensures
        before(a, c),
    decreases c.len(),
{
    if a.len() > 0 && a[0] == b[0] && b[0] == c[0] {
        lemma_before_chain(a.skip(1), b.skip(1), c.skip(1));
    }
}

proof fn lemma_before_not_self(a: Seq<char>)
    ensures
        !before(a, a),
    decreases a.len(),
{
    if a.len() > 0 {
        lemma_before_not_self(a.skip(1));
    }
}

proof fn lemma_before_total(a: Seq<char>, b: Seq<char>)
    ensures
        before(a, b) || before(b, a) || a == b,
    decreases b.len(),
{
    if a.len() == 0 && b.len() == 0 {
        assert(a =~= b);
    } else if a.len() > 0 && b.len() > 0 && a[0] == b[0] {
        lemma_before_total(a.skip(1), b.skip(1));
        if a.skip(1) == b.skip(1) {
            assert(seq![a[0]] + a.skip(1) =~= a);
            assert(seq![b[0]] + b.skip(1) =~= b);
        }
    }
}

/// Whether text comes before other text in the order of their characters.
fn comes_before(a: &str, b: &str) -> (r: bool)
    ensures
        r == before(a@, b@),
{
    let left = chars_of(a);
    let right = chars_of(b);
    let mut i: usize = 0;
    assert(a@.skip(0) =~= a@);
    assert(b@.skip(0) =~= b@);
    while i < left.len() && i < right.len()
        invariant
            i <= left@.len(),
            i <= right@.len(),
            left@ == a@,
            right@ == b@,
            before(a@.skip(i as int), b@.skip(i as int)) == before(a@, b@),
        decreases left.len() - i,
    {
        assert(a@.skip(i as int)[0] == left@[i as int]);
        assert(b@.skip(i as int)[0] == right@[i as int]);
        if left[i] != right[i] {
            return left[i] < right[i];
        }
        assert(a@.skip(i as int).skip(1) =~= a@.skip(i + 1));
        assert(b@.skip(i as int).skip(1) =~= b@.skip(i + 1));
        i = i + 1;
    }
    i < right.len()
}

/// Puts a file among others, in order.
fn insert_file(files: &mut Vec<ChangedFile>, path: String)
    requires
        ordered(old(files).deep_view()),
    ensures
        ordered(final(files).deep_view()),
        forall|p: Seq<char>| #[trigger]
            final(files).deep_view().contains(p) <==> old(files).deep_view().contains(p) || p
                == path@,
{
    let ghost all = files.deep_view();
    let mut i: usize = 0;
    while i < files.len() && comes_before(files[i].path.as_str(), path.as_str())
        invariant
            i <= files@.len(),
            all == files.deep_view(),
            forall|k: int| 0 <= k < i ==> before(#[trigger] all[k], path@),
        decreases files.len() - i,
    {
        assert(all[i as int] == files@[i as int].path@);
        i = i + 1;
    }
    if i < files.len() {
        assert(all[i as int] == files@[i as int].path@);
        if same_text(files[i].path.as_str(), path.as_str()) {
            assert forall|p: Seq<char>| p == path@ implies all.contains(p) by {
                assert(all[i as int] == p);
            }
            return ;
        }
    }
    proof {
        if i < all.len() {
            lemma_before_total(all[i as int], path@);
            assert forall|k: int| i <= k < all.len() implies before(path@, #[trigger] all[k]) by {
                if k > i {
                    assert(before(all[i as int], all[k]));
                    lemma_before_chain(path@, all[i as int], all[k]);
                }
            }
        }
    }
    let ghost added = path@;
    files.insert(i, ChangedFile { path });
    proof {
        let now = files.deep_view();
        assert(now =~= all.insert(i as int, added));
        assert forall|p: Seq<char>| #[trigger] now.contains(p) <==> all.contains(p) || p
            == added by {
            if all.contains(p) {
                let k = choose|k: int| 0 <= k < all.len() && all[k] == p;
                if k < i {
                    assert(now[k] == p);
                } else {
                    assert(now[k + 1] == p);
                }
            }
            if p == added {
                assert(now[i as int] == p);
            }
            if now.contains(p) {
                let k = choose|k: int| 0 <= k < now.len() && now[k] == p;
                if k < i {
                    assert(all[k] == p);
                } else if k > i {
                    assert(all[k - 1] == p);
                }
            }
        }
    }
}

/// The file that a line of `git status` tells.
fn parse_status_line(line: &str) -> (r: Option<String>)
    requires
        readable(line@),
    ensures
        r.deep_view() == status_path(line@),
{
    let cs = chars_of(line);
    let size = crate::bytes::bytes_in(cs.as_slice());
    if size < 3 {
        return None;
    }
    let k = find_cut(cs.as_slice(), 3);
    proof {
        crate::bytes::lemma_cut(line@, 3, 0);
    }
    let path = vstd::slice::slice_subrange(cs.as_slice(), k, cs.len());
    assert(path@ =~= line@.skip(k as int));
    let arrow = chars_of(" -> ");
    proof {
        reveal_strlit(" -> ");
    }
    let at = find_text(path, arrow.as_slice(), 0);
    if at < path.len() {
        assert(stands_at(path@, arrow@, at as int)) by {
            lemma_place_of(path@, arrow@, 0);
        }
        let rest = vstd::slice::slice_subrange(path, at + arrow.len(), path.len());
        assert(rest@ =~= path@.skip(at + arrow@.len()));
        let end = find_text(rest, arrow.as_slice(), 0);
        let name = substring(rest, 0, end);
        assert(name@ =~= rest@.take(end as int));
        Some(name)
    } else {
        let name = substring(path, 0, path.len());
        assert(name@ =~= path@);
        Some(name)
    }
}

proof fn lemma_place_of(s: Seq<char>, needle: Seq<char>, i: int)
    requires
        0 <= i,
    ensures
        place_of(s, needle, i) < s.len() ==> stands_at(s, needle, place_of(s, needle, i)),
    decreases s.len() - i,
{
    if i < s.len() && !stands_at(s, needle, i) {
        lemma_place_of(s, needle, i + 1);
    }
}

/// All files that changed, in order, each of them once: those that commits changed, which are left
/// out where there is no commit to compare with, and those of `git status`, where it told any.
pub fn get_all_changed_files(
    merge_base: &str,
    committed: Option<Vec<String>>,
    status: Option<&str>,
) -> (r: Vec<ChangedFile>)
    requires
        status is Some ==> forall|i: int|
            0 <= i < lines_of(status->0@).len() ==> readable(#[trigger] lines_of(status->0@)[i]),
    ensures
        ordered(r.deep_view()),
        forall|path: Seq<char>| #[trigger]
            r.deep_view().contains(path) <==> changed(
                merge_base@,
                committed.deep_view(),
                status.deep_view(),
                path,
            ),
{
    let mut files: Vec<ChangedFile> = Vec::new();
    assert(files.deep_view() =~= Seq::empty());
    if merge_base.unicode_len() > 0 {
        if let Some(paths) = &committed {
            let ghost all = paths.deep_view();
            let mut i: usize = 0;
            while i < paths.len()
                invariant
                    i <= paths@.len(),
                    all == paths.deep_view(),
                    ordered(files.deep_view()),
                    forall|p: Seq<char>| #[trigger]
                        files.deep_view().contains(p) <==> all.take(i as int).contains(p),
                decreases paths.len() - i,
            {
                let path = paths[i].clone();
                assert(all[i as int] == path@);
                insert_file(&mut files, path);
                proof {
                    let earlier = all.take(i as int);
                    let now = all.take(i + 1);
                    assert forall|p: Seq<char>| #[trigger] now.contains(p) <==> earlier.contains(p)
                        || p == path@ by {
                        if earlier.contains(p) {
                            let k = choose|k: int| 0 <= k < earlier.len() && earlier[k] == p;
                            assert(now[k] == p);
                        }
                        if p == path@ {
                            assert(now[i as int] == p);
                        }
                        if now.contains(p) {
                            let k = choose|k: int| 0 <= k < now.len() && now[k] == p;
                            if k < i {
                                assert(earlier[k] == p);
                            }
                        }
                    }
                }
                i = i + 1;
            }
            assert(all.take(all.len() as int) =~= all);
        }
    }
    let ghost first = files.deep_view();
    if let Some(text) = status {
        let lines = split_lines(text);
        let ghost all = lines.deep_view();
        let mut i: usize = 0;
        assert(forall|p: Seq<char>| !in_status(all.take(0), p));
        while i < lines.len()
            invariant
                i <= lines@.len(),
                all == lines.deep_view(),
                forall|k: int| 0 <= k < all.len() ==> readable(#[trigger] all[k]),
                ordered(files.deep_view()),
                forall|p: Seq<char>| #[trigger]
                    files.deep_view().contains(p) <==> first.contains(p) || in_status(
                        all.take(i as int),
                        p,
                    ),
            decreases lines.len() - i,
        {
            let ghost earlier = all.take(i as int);
            let ghost now = all.take(i + 1);
            assert(all[i as int] == lines@[i as int]@);
            let found = parse_status_line(lines[i].as_str());
            proof {
                assert forall|p: Seq<char>| #[trigger] in_status(now, p) <==> in_status(earlier, p)
                    || found.deep_view() == Some(p) by {
                    if in_status(earlier, p) {
                        let k = choose|k: int|
                            0 <= k < earlier.len() && status_path(#[trigger] earlier[k]) == Some(p);
                        assert(now[k] == earlier[k]);
                    }
                    if found.deep_view() == Some(p) {
                        assert(now[i as int] == all[i as int]);
                    }
                    if in_status(now, p) {
                        let k = choose|k: int|
                            0 <= k < now.len() && status_path(#[trigger] now[k]) == Some(p);
                        if k < i {
                            assert(earlier[k] == now[k]);
                        }
                    }
                }
            }
            if let Some(path) = found {
                insert_file(&mut files, path);
            }
            i = i + 1;
        }
        assert(all.take(all.len() as int) =~= all);
    }
    files
}

/// The order of the files is one: no two files stand in either order, and of two files one comes
/// first.
pub proof fn law_paths_are_ordered(a: Seq<char>, b: Seq<char>, c: Seq<char>)
    ensures
        before(a, b) && before(b, c) ==> before(a, c),
        !before(a, a),
        before(a, b) || before(b, a) || a == b,
{
    if before(a, b) && before(b, c) {
        lemma_before_chain(a, b, c);
    }
    lemma_before_not_self(a);
    lemma_before_total(a, b);
}

/// A text comes before a longer one that begins with it, and else the first character in which two
/// texts differ decides.
pub proof fn law_first_difference_decides(start: Seq<char>, a: Seq<char>, b: Seq<char>)
    requires
        a.len() > 0 && b.len() > 0 ==> a[0] != b[0],
    ensures
        before(start + a, start + b) == (b.len() > 0 && (a.len() == 0 || a[0] < b[0])),
    decreases start.len(),
{
    if start.len() == 0 {
        assert(start + a =~= a);
        assert(start + b =~= b);
    } else {
        law_first_difference_decides(start.skip(1), a, b);
        assert((start + a).skip(1) =~= start.skip(1) + a);
        assert((start + b).skip(1) =~= start.skip(1) + b);
    }
}

/// Whatever two letters stand in front of it, a line of `git status` tells the path behind them;
/// of two paths with an arrow between them, it tells the second one.
pub proof fn law_status_lines_tell_the_path(x: char, y: char, a: Seq<char>, b: Seq<char>)
    requires
        (x as u32) < 0x80,
        (y as u32) < 0x80,
        !has_text(b, " -> "@),
    ensures
        status_path(seq![x, y, ' '] + b) == Some(b),
        !has_text(a.push(' '), " -> "@) ==> status_path(seq![x, y, ' '] + a + " -> "@ + b) == Some(
            b,
        ),
{
    let arrow = " -> "@;
    reveal_strlit(" -> ");
    lemma_status_rest(x, y, b);
    lemma_no_arrow(b);
    if !has_text(a.push(' '), arrow) {
        let path = a + arrow + b;
        let n: int = a.len() as int;
        lemma_status_rest(x, y, path);
        assert(seq![x, y, ' '] + path =~= seq![x, y, ' '] + a + arrow + b);
        assert(path.subrange(n, n + arrow.len()) =~= arrow);
        assert forall|k: int| 0 <= k < a.len() implies !#[trigger] stands_at(path, arrow, k) by {
            if stands_at(path, arrow, k) {
                let found = path.subrange(k, k + arrow.len());
                if k + 4 <= a.len() + 1 {
                    assert(a.push(' ').subrange(k, k + 4) =~= found);
                    assert(stands_at(a.push(' '), arrow, k));
                } else {
                    assert(found[n - k] == path[n]);
                    assert(found[n - k + 1] == path[n + 1]);
                    assert(path[n] == arrow[0]);
                    assert(path[n + 1] == arrow[1]);
                }
            }
        }
        lemma_first_place(path, arrow, 0, n);
        assert(path.skip(n + arrow.len()) =~= b);
        assert(b.take(b.len() as int) =~= b);
    }
}

proof fn lemma_status_rest(x: char, y: char, path: Seq<char>)
    requires
        (x as u32) < 0x80,
        (y as u32) < 0x80,
    ensures
        status_path(seq![x, y, ' '] + path) == Some(renamed(path)),
{
    let front = seq![x, y, ' '];
    let line = front + path;
    lemma_bytes_concat(front, path);
    assert(front.drop_last() =~= seq![x, y]);
    assert(seq![x, y].drop_last() =~= seq![x]);
    assert(seq![x].drop_last() =~= Seq::empty());
    reveal_with_fuel(text_bytes, 4);
    assert(text_bytes(front) == 3);
    reveal_with_fuel(cut, 4);
    assert(line[0] == x && line[1] == y && line[2] == ' ');
    assert(cut(line, 3, 0) == Some(3int));
    assert(line.skip(3) =~= path);
}

proof fn lemma_no_arrow(b: Seq<char>)
    requires
        !has_text(b, " -> "@),
    ensures
        place_of(b, " -> "@, 0) == b.len(),
        renamed(b) == b,
{
    let arrow = " -> "@;
    assert forall|k: int| 0 <= k < b.len() implies !#[trigger] stands_at(b, arrow, k) by {
        if stands_at(b, arrow, k) {
            assert(has_text(b, arrow));
        }
    }
    lemma_first_place(b, arrow, 0, b.len() as int);
}

/// No line of `git status` is passed over: the files that changed are those that commits changed,
/// as far as there is a commit to compare with, and those behind the two letters of each line.
pub proof fn law_every_status_line_counts(
    merge_base: Seq<char>,
    committed: Option<Seq<Seq<char>>>,
    letters: Seq<(char, char)>,
    paths: Seq<Seq<char>>,
    path: Seq<char>,
)
    requires
        letters.len() == paths.len(),
        forall|i: int|
            0 <= i < letters.len() ==> ((#[trigger] letters[i]).0 as u32) < 0x80 && (
            letters[i].1 as u32) < 0x80 && letters[i].0 != '\n' && letters[i].1 != '\n',
        forall|i: int|
            0 <= i < paths.len() ==> !(#[trigger] paths[i]).contains('\n') && !has_text(
                paths[i],
                " -> "@,
            ) && (paths[i].len() > 0 ==> paths[i].last() != '\r'),
    ensures
        changed(
            merge_base,
            committed,
            Some(
                ended_lines(
                    Seq::new(
                        paths.len(),
                        |i: int| seq![letters[i].0, letters[i].1, ' '] + paths[i],
                    ),
                ),
            ),
            path,
        ) <==> paths.contains(path) || changed(merge_base, committed, None, path),
        changed(merge_base, committed, None, path) <==> merge_base.len() > 0 && (
        committed matches Some(files) && files.contains(path)),
{
    let lines = Seq::new(
        paths.len(),
        |i: int| seq![letters[i].0, letters[i].1, ' '] + paths[i],
    );
    assert forall|i: int| 0 <= i < lines.len() implies !(#[trigger] lines[i]).contains('\n') by {
        let front = seq![letters[i].0, letters[i].1, ' '];
        assert(lines[i] == front + paths[i]);
        assert forall|k: int| 0 <= k < lines[i].len() implies lines[i][k] != '\n' by {
            if k >= 3 {
                assert(paths[i].contains(paths[i][k - 3]));
            }
        }
    }
    let read = lines_of(ended_lines(lines));
    law_lines_are_read_back(lines, Seq::empty());
    assert forall|i: int| 0 <= i < paths.len() implies status_path(#[trigger] read[i]) == Some(
        paths[i],
    ) by {
        assert(lines[i] == seq![letters[i].0, letters[i].1, ' '] + paths[i]);
        assert(lines[i].last() != '\r');
        assert(read[i] == lines[i]);
        law_status_lines_tell_the_path(letters[i].0, letters[i].1, Seq::empty(), paths[i]);
    }
    if paths.contains(path) {
        let k = choose|k: int| 0 <= k < paths.len() && paths[k] == path;
        assert(status_path(read[k]) == Some(path));
        assert(in_status(read, path));
    }
    if in_status(read, path) {
        let k = choose|k: int|
            0 <= k < read.len() && status_path(#[trigger] read[k]) == Some(path);
        assert(paths[k] == path);
    }
}

/// A line of `git diff --name-status` tells the path behind the status, as the one that the file
/// has, unless it was deleted, and as the one that it had, unless it was added. Of a renamed file
/// it tells both. Only the first letter of the status counts.
pub proof fn law_changes_are_told(status: Seq<char>, a: Seq<char>, b: Seq<char>)
    requires
        status.len() > 0,
        !status.contains('\t'),
        !a.contains('\t'),
        !b.contains('\t'),
    ensures
        status[0] == 'A' ==> told_transition(status.push('\t') + a) == Some(
            FileTransitionView { from: None, to: Some(a) },
        ),
        status[0] == 'D' ==> told_transition(status.push('\t') + a) == Some(
            FileTransitionView { from: Some(a), to: None },
        ),
        status[0] == 'M' ==> told_transition(status.push('\t') + a) == Some(
            FileTransitionView { from: Some(a), to: Some(a) },
        ),
        status[0] == 'R' ==> told_transition(status.push('\t') + a.push('\t') + b) == Some(
            FileTransitionView { from: Some(a), to: Some(b) },
        ),
        seq!['A', 'D', 'M'].contains(status[0]) ==> told_transition(
            status.push('\t') + a,
        )->0.current() == Some(a),
        status[0] == 'R' ==> told_transition(
            status.push('\t') + a.push('\t') + b,
        )->0.current() == Some(b),
{
    lemma_first_piece(status, a, '\t');
    lemma_one_piece(a, '\t');
    assert(pieces(status.push('\t') + a, '\t') =~= seq![status, a]);
    lemma_first_piece(a, b, '\t');
    lemma_one_piece(b, '\t');
    lemma_first_piece(status, a.push('\t') + b, '\t');
    assert(status.push('\t') + (a.push('\t') + b) =~= status.push('\t') + a.push('\t') + b);
    assert(pieces(status.push('\t') + a.push('\t') + b, '\t') =~= seq![status, a, b]);
}

/// Every added, deleted or modified file that Git tells is among the files, in the order in which
/// they are told.
pub proof fn law_every_told_file_counts(statuses: Seq<Seq<char>>, paths: Seq<Seq<char>>)
    requires
        statuses.len() == paths.len(),
        forall|i: int|
            0 <= i < statuses.len() ==> (#[trigger] statuses[i]).len() > 0 && seq!['A', 'D', 'M'].contains(
                statuses[i][0],
            ) && !statuses[i].contains('\t') && !statuses[i].contains('\n'),
        forall|i: int|
            0 <= i < paths.len() ==> !(#[trigger] paths[i]).contains('\t') && !paths[i].contains(
                '\n',
            ) && (paths[i].len() > 0 ==> paths[i].last() != '\r'),
    ensures
        told_files(
            lines_of(
                ended_lines(
                    Seq::new(paths.len(), |i: int| statuses[i].push('\t') + paths[i]),
                ),
            ),
        ) == paths,
{
    let lines = Seq::new(paths.len(), |i: int| statuses[i].push('\t') + paths[i]);
    assert forall|i: int| 0 <= i < lines.len() implies !(#[trigger] lines[i]).contains('\n') by {
        let front = statuses[i].push('\t');
        assert forall|k: int| 0 <= k < lines[i].len() implies lines[i][k] != '\n' by {
            if k < statuses[i].len() {
                assert(statuses[i].contains(statuses[i][k]));
            } else if k >= front.len() {
                assert(paths[i].contains(paths[i][k - front.len()]));
            }
        }
    }
    law_lines_are_read_back(lines, Seq::empty());
    assert forall|i: int| 0 <= i < lines.len() implies lines_of(ended_lines(lines))[i]
        == lines[i] by {
        assert(lines[i].last() == (if paths[i].len() > 0 {
            paths[i].last()
        } else {
            '\t'
        }));
    }
    assert(lines_of(ended_lines(lines)) =~= lines);
    lemma_told_files(statuses, paths, lines, lines.len());
    assert(lines.take(lines.len() as int) =~= lines);
    assert(paths.take(paths.len() as int) =~= paths);
}

proof fn lemma_told_files(
    statuses: Seq<Seq<char>>,
    paths: Seq<Seq<char>>,
    lines: Seq<Seq<char>>,
    n: nat,
)
    requires
        n <= lines.len(),
        statuses.len() == paths.len(),
        lines.len() == paths.len(),
        forall|i: int|
            0 <= i < lines.len() ==> #[trigger] lines[i] == statuses[i].push('\t') + paths[i],
        forall|i: int|
            0 <= i < statuses.len() ==> (#[trigger] statuses[i]).len() > 0 && seq!['A', 'D', 'M'].contains(
                statuses[i][0],
            ) && !statuses[i].contains('\t'),
        forall|i: int| 0 <= i < paths.len() ==> !(#[trigger] paths[i]).contains('\t'),
    ensures
        told_files(lines.take(n as int)) == paths.take(n as int),
    decreases n,
{
    if n == 0 {
        assert(told_files(lines.take(0)) =~= paths.take(0));
    } else {
        let i = n - 1;
        lemma_told_files(statuses, paths, lines, i as nat);
        assert(lines.take(n as int).drop_last() =~= lines.take(i));
        assert(lines.take(n as int).last() == lines[i]);
        let letter = statuses[i][0];
        law_changes_are_told(statuses[i], paths[i], paths[i]);
        assert(letter == 'A' || letter == 'D' || letter == 'M');
        assert(paths.take(n as int) =~= paths.take(i).push(paths[i]));
    }
}

/// The version that Git tells is read back, whatever stands behind it. A version of two numbers is
/// the one whose third number is zero.
pub proof fn law_versions_are_read_back(version: GitVersion, rest: Seq<char>)
    requires
        rest.len() > 0 ==> is_space(rest[0]),
    ensures
        told_version(
            "git version "@ + decimal(version.major as nat).push('.') + decimal(
                version.minor as nat,
            ).push('.') + decimal(version.patch as nat) + rest,
        ) == Ok::<GitVersion, GitErrorView>(version),
        version.patch == 0 ==> told_version(
            "git version "@ + decimal(version.major as nat).push('.') + decimal(
                version.minor as nat,
            ) + rest,
        ) == Ok::<GitVersion, GitErrorView>(version),
{
    let a = decimal(version.major as nat);
    let b = decimal(version.minor as nat);
    let c = decimal(version.patch as nat);
    let start = "git version "@;
    law_numbers_are_read_back(version.major as nat);
    law_numbers_are_read_back(version.minor as nat);
    law_numbers_are_read_back(version.patch as nat);
    lemma_digits_hold_no_mark(a);
    lemma_digits_hold_no_mark(b);
    lemma_digits_hold_no_mark(c);
    lemma_one_piece(b, '.');
    lemma_one_piece(c, '.');
    lemma_first_piece(b, c, '.');
    lemma_first_piece(a, b.push('.') + c, '.');
    lemma_first_piece(a, b, '.');
    let three = a.push('.') + (b.push('.') + c);
    let two = a.push('.') + b;
    assert(pieces(three, '.') =~= seq![a, b, c]);
    assert(pieces(two, '.') =~= seq![a, b]);
    assert forall|i: int| 0 <= i < three.len() implies !is_space(#[trigger] three[i]) by {
        if i < a.len() {
            assert(is_digit(a[i]));
        } else if a.len() < i < a.len() + 1 + b.len() {
            assert(is_digit(b[i - a.len() - 1]));
        } else if i > a.len() + 1 + b.len() {
            assert(is_digit(c[i - a.len() - b.len() - 2]));
        }
    }
    assert forall|i: int| 0 <= i < two.len() implies !is_space(#[trigger] two[i]) by {
        if i < a.len() {
            assert(is_digit(a[i]));
        } else if i > a.len() {
            assert(is_digit(b[i - a.len() - 1]));
        }
    }
    lemma_told_word(three, rest);
    lemma_told_word(two, rest);
    assert(start + three + rest =~= start + a.push('.') + b.push('.') + c + rest);
    assert(start + two + rest =~= start + a.push('.') + b + rest);
}

proof fn lemma_digits_hold_no_mark(s: Seq<char>)
    requires
        forall|i: int| 0 <= i < s.len() ==> is_digit(#[trigger] s[i]),
    ensures
        !s.contains('.'),
{
    assert forall|i: int| 0 <= i < s.len() implies s[i] != '.' by {
        assert(is_digit(s[i]));
    }
}

proof fn lemma_told_word(first: Seq<char>, rest: Seq<char>)
    requires
        first.len() > 0,
        forall|i: int| 0 <= i < first.len() ==> !is_space(#[trigger] first[i]),
        rest.len() > 0 ==> is_space(rest[0]),
    ensures
        ({
            let line = trimmed("git version "@ + first + rest);
            begins_with(line, "git version "@) && first_word(line.skip("git version "@.len() as int))
                == first
        }),
{
    let start = "git version "@;
    reveal_strlit("git version ");
    let s = start + first;
    let line = trimmed(s + rest);
    assert(s[0] == 'g');
    assert(s.last() == first[first.len() - 1]);
    let left = lemma_trimmed_front(s, rest);
    assert(line.subrange(0, start.len() as int) =~= start);
    assert(line.skip(start.len() as int) =~= first + left);
    law_words_are_read_back(first, left);
}

proof fn lemma_trimmed_front(front: Seq<char>, rest: Seq<char>) -> (left: Seq<char>)
    requires
        front.len() > 0,
        !is_space(front[0]),
        !is_space(front.last()),
        rest.len() > 0 ==> is_space(rest[0]),
    ensures
        trimmed(front + rest) == front + left,
        left.len() > 0 ==> is_space(left[0]),
    decreases rest.len(),
{
    let s = front + rest;
    assert(s[0] == front[0]);
    assert(trimmed_start(s) == s);
    if rest.len() == 0 {
        assert(s =~= front);
        assert(front + rest =~= front);
        rest
    } else if is_space(rest.last()) {
        let shorter = rest.drop_last();
        assert(s.drop_last() =~= front + shorter);
        assert((front + shorter)[0] == front[0]);
        assert(trimmed_start(front + shorter) == front + shorter);
        lemma_trimmed_front(front, shorter)
    } else {
        assert(s.last() == rest.last());
        rest
    }
}

} // verus!

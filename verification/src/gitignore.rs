//! Which files a repository ignores.
use ignore::gitignore::Gitignore;
use ignore::gitignore::GitignoreBuilder;
use vstd::prelude::*;
use vstd::string::*;

use crate::path::file_name;
use crate::path::law_names_stand_at_the_end;
use crate::path::name_in;
use crate::scan::lemma_first_piece;
use crate::scan::lemma_one_piece;
use crate::scan::lemma_pieces_of_both;
use crate::scan::pieces;
use crate::scan::split;
use crate::text::chars_of;
use crate::text::same_text;
use crate::text::substring;

verus! {

/// The patterns of a file, ready to be matched.
#[verifier::external_type_specification]
#[verifier::external_body]
pub struct ExGitignore(Gitignore);

/// The lines that patterns are made of.
#[verifier::external_type_specification]
#[verifier::external_body]
pub struct ExGitignoreBuilder(GitignoreBuilder);

/// The lines that were added to a builder.
pub uninterp spec fn added_lines(builder: GitignoreBuilder) -> Seq<Seq<char>>;

/// What patterns decide of paths, which may lead to directories or not: that they are ignored, or
/// that they are not, or nothing.
pub uninterp spec fn decisions(patterns: Gitignore) -> Map<(Seq<char>, bool), Option<bool>>;

/// What the lines of a file with patterns decide of paths.
pub uninterp spec fn decisions_of(lines: Seq<Seq<char>>) -> Map<
    (Seq<char>, bool),
    Option<bool>,
>;

/// Whether there are any patterns.
pub uninterp spec fn has_patterns(patterns: Gitignore) -> bool;

/// Whether any line of a file with patterns is one.
pub uninterp spec fn hold_patterns(lines: Seq<Seq<char>>) -> bool;

/// `GitignoreBuilder::new` with no directory in front of the paths: no lines yet.
#[verifier::external_body]
fn new_builder() -> (r: GitignoreBuilder)
    ensures
        added_lines(r) == Seq::<Seq<char>>::empty(),
{
    GitignoreBuilder::new("")
}

/// `GitignoreBuilder::add_line`: one more line. One that is no pattern is passed over.
#[verifier::external_body]
fn add_line(builder: &mut GitignoreBuilder, line: &str)
    ensures
        added_lines(*final(builder)) == added_lines(*old(builder)).push(line@),
{
    let _ = builder.add_line(None, line);
}

/// `GitignoreBuilder::build`: the patterns in the lines; none where there are no lines. Where they
/// cannot be matched at all, there are none either.
#[verifier::external_body]
fn build(builder: &GitignoreBuilder) -> (r: Gitignore)
    ensures
        decisions(r) == decisions_of(added_lines(*builder)),
        has_patterns(r) == hold_patterns(added_lines(*builder)),
        added_lines(*builder).len() == 0 ==> !has_patterns(r),
{
    builder.build().unwrap_or_else(|_| Gitignore::empty())
}

/// `Gitignore::is_empty`: whether there are no patterns.
#[verifier::external_body]
fn is_empty(patterns: &Gitignore) -> (r: bool)
    ensures
        r == !has_patterns(*patterns),
{
    patterns.is_empty()
}

/// `Gitignore::matched_path_or_any_parents`: what the last pattern decides that matches the path,
/// or else the closest directory above it. The path is a relative one. What separates its names is
/// what the system takes for that: on Windows a backslash, too.
#[verifier::external_body]
fn decide(patterns: &Gitignore, path: &str, is_dir: bool) -> (r: Option<bool>)
    requires
        is_relative(path@),
    ensures
        r == decisions(*patterns)[(path@, is_dir)],
{
    match patterns.matched_path_or_any_parents(path, is_dir) {
        ignore::Match::None => None,
        ignore::Match::Ignore(_) => Some(true),
        ignore::Match::Whitelist(_) => Some(false),
    }
}

/// Whether a path leads on from a directory, with a name at its start.
pub open spec fn is_relative(path: Seq<char>) -> bool {
    &&& path.len() > 0 ==> path[0] != '/'
    &&& path.len() > 1 ==> !(path[0] == '.' && path[1] == '/')
}

/// Whether a part of a path is a name: neither empty nor the directory itself.
pub open spec fn is_name(part: Seq<char>) -> bool {
    part.len() > 0 && part != "."@
}

/// The names among the parts of a path.
pub open spec fn names_among(parts: Seq<Seq<char>>) -> Seq<Seq<char>>
    decreases parts.len(),
{
    if parts.len() == 0 {
        Seq::empty()
    } else if is_name(parts.last()) {
        names_among(parts.drop_last()).push(parts.last())
    } else {
        names_among(parts.drop_last())
    }
}

/// The names in a path, from its start to the file.
pub open spec fn names_in(path: Seq<char>) -> Seq<Seq<char>> {
    names_among(pieces(path, '/'))
}

/// Whether a path begins at the root of the file system.
pub open spec fn is_rooted(path: Seq<char>) -> bool {
    path.len() > 0 && path[0] == '/'
}

/// Names as a path.
pub open spec fn joined(names: Seq<Seq<char>>) -> Seq<char>
    decreases names.len(),
{
    if names.len() == 0 {
        Seq::empty()
    } else if names.len() == 1 {
        names[0]
    } else {
        joined(names.drop_last()) + "/"@ + names.last()
    }
}

/// Whether names begin with others.
pub open spec fn begins_with_names(names: Seq<Seq<char>>, start: Seq<Seq<char>>) -> bool {
    start.len() <= names.len() && names.take(start.len() as int) == start
}

/// Whether a path lies in a directory: both begin at the same place, and the path goes on from
/// there.
pub open spec fn lies_under(path: Seq<char>, root: Seq<char>) -> bool {
    is_rooted(path) == is_rooted(root) && begins_with_names(names_in(path), names_in(root))
}

/// The names of a path behind a directory that it lies in.
pub open spec fn names_behind(path: Seq<char>, root: Seq<char>) -> Seq<Seq<char>> {
    if lies_under(path, root) {
        names_in(path).skip(names_in(root).len() as int)
    } else {
        names_in(path)
    }
}

/// A path has no slash within its names.
pub open spec fn no_slash(names: Seq<Seq<char>>) -> bool {
    forall|i: int, k: int|
        0 <= i < names.len() && 0 <= k < names[i].len() ==> #[trigger] names[i][k] != '/'
}

/// Names of a path.
pub open spec fn are_names(names: Seq<Seq<char>>) -> bool {
    no_slash(names) && forall|i: int| 0 <= i < names.len() ==> is_name(#[trigger] names[i])
}

proof fn lemma_pieces_hold_no_slash(s: Seq<char>)
    ensures
        no_slash(pieces(s, '/')),
        pieces(s, '/').len() > 0,
    decreases s.len(),
{
    if s.len() > 0 {
        let before = pieces(s.drop_last(), '/');
        lemma_pieces_hold_no_slash(s.drop_last());
        if s.last() != '/' {
            let all = pieces(s, '/');
            assert forall|i: int, k: int|
                0 <= i < all.len() && 0 <= k < all[i].len() implies #[trigger] all[i][k]
                != '/' by {
                if i < all.len() - 1 {
                    assert(all[i] == before[i]);
                } else if k < before.last().len() {
                    assert(all[i][k] == before[before.len() - 1][k]);
                }
            }
        }
    }
}

proof fn lemma_names_among(parts: Seq<Seq<char>>)
    requires
        no_slash(parts),
    ensures
        are_names(names_among(parts)),
    decreases parts.len(),
{
    if parts.len() > 0 {
        let earlier = parts.drop_last();
        assert(no_slash(earlier)) by {
            assert forall|i: int, k: int|
                0 <= i < earlier.len() && 0 <= k < earlier[i].len() implies #[trigger] earlier[i][k]
                != '/' by {
                assert(parts[i][k] != '/');
            }
        }
        lemma_names_among(earlier);
        let before = names_among(earlier);
        let all = names_among(parts);
        if is_name(parts.last()) {
            assert forall|i: int, k: int|
                0 <= i < all.len() && 0 <= k < all[i].len() implies #[trigger] all[i][k]
                != '/' by {
                if i < before.len() {
                    assert(before[i][k] != '/');
                } else {
                    assert(parts[parts.len() - 1][k] != '/');
                }
            }
        }
    }
}

proof fn lemma_names_in(path: Seq<char>)
    ensures
        are_names(names_in(path)),
{
    lemma_pieces_hold_no_slash(path);
    lemma_names_among(pieces(path, '/'));
}

/// Names make a relative path.
proof fn lemma_joined_is_relative(names: Seq<Seq<char>>)
    requires
        are_names(names),
    ensures
        is_relative(joined(names)),
        names.len() > 0 ==> joined(names).len() >= names[0].len() && joined(names).take(
            names[0].len() as int,
        ) == names[0],
    decreases names.len(),
{
    reveal_strlit(".");
    if names.len() == 1 {
        assert(joined(names).take(names[0].len() as int) =~= names[0]);
    } else if names.len() > 1 {
        let earlier = names.drop_last();
        assert(are_names(earlier)) by {
            assert forall|i: int, k: int|
                0 <= i < earlier.len() && 0 <= k < earlier[i].len() implies #[trigger] earlier[i][k]
                != '/' by {
                assert(names[i][k] != '/');
            }
        }
        lemma_joined_is_relative(earlier);
        assert(joined(names).take(names[0].len() as int) =~= joined(earlier).take(
            names[0].len() as int,
        ));
    }
    if names.len() > 0 {
        let first = names[0];
        assert(is_name(first));
        assert(first[0] != '/');
        assert(joined(names)[0] == joined(names).take(first.len() as int)[0]);
        if first.len() > 1 {
            assert(first[1] != '/');
            assert(joined(names)[1] == joined(names).take(first.len() as int)[1]);
        } else {
            assert(first[0] != '.') by {
                if first[0] == '.' {
                    assert(first =~= "."@);
                }
            }
        }
    }
}

/// The names in a path.
fn path_names(path: &str) -> (r: Vec<String>)
    ensures
        r.deep_view() == names_in(path@),
        are_names(r.deep_view()),
{
    let parts = split(path, '/');
    let ghost all = parts.deep_view();
    let mut out: Vec<String> = Vec::new();
    let mut i: usize = 0;
    assert(all.take(0).len() == 0);
    assert(out.deep_view() =~= Seq::empty());
    while i < parts.len()
        invariant
            i <= parts@.len(),
            all == parts.deep_view(),
            out.deep_view() == names_among(all.take(i as int)),
        decreases parts.len() - i,
    {
        assert(all.take(i + 1).drop_last() =~= all.take(i as int));
        assert(all[i as int] == parts@[i as int]@);
        if parts[i].as_str().unicode_len() > 0 && !same_text(parts[i].as_str(), ".") {
            let name = parts[i].clone();
            let ghost before = out.deep_view();
            out.push(name);
            assert(out.deep_view() =~= before.push(name@));
        }
        i = i + 1;
    }
    assert(all.take(all.len() as int) =~= all);
    proof {
        lemma_names_in(path@);
    }
    out
}

/// Names from `from` up to `to` as a path.
fn join(names: &[String], from: usize, to: usize) -> (r: String)
    requires
        from <= to <= names@.len(),
    ensures
        r@ == joined(names.deep_view().subrange(from as int, to as int)),
{
    let ghost all = names.deep_view();
    let mut out = String::new();
    let mut i: usize = from;
    assert(out@ =~= joined(all.subrange(from as int, from as int)));
    while i < to
        invariant
            from <= i <= to <= names@.len(),
            all == names.deep_view(),
            out@ == joined(all.subrange(from as int, i as int)),
        decreases to - i,
    {
        let ghost part = all.subrange(from as int, i + 1);
        assert(part.drop_last() =~= all.subrange(from as int, i as int));
        assert(all[i as int] == names@[i as int]@);
        if i > from {
            out.append("/");
            out.append(names[i].as_str());
        } else {
            out = names[i].clone();
            assert(part.len() == 1);
        }
        assert(out@ =~= joined(part));
        i = i + 1;
    }
    out
}

/// Whether names begin with others.
fn start_with_names(names: &[String], start: &[String]) -> (r: bool)
    ensures
        r == begins_with_names(names.deep_view(), start.deep_view()),
{
    if start.len() > names.len() {
        return false;
    }
    let ghost all = names.deep_view();
    let ghost wanted = start.deep_view();
    let mut i: usize = 0;
    while i < start.len()
        invariant
            i <= start@.len() <= names@.len(),
            all == names.deep_view(),
            wanted == start.deep_view(),
            forall|k: int| 0 <= k < i ==> #[trigger] wanted[k] == all[k],
        decreases start.len() - i,
    {
        assert(all[i as int] == names@[i as int]@);
        assert(wanted[i as int] == start@[i as int]@);
        if !same_text(names[i].as_str(), start[i].as_str()) {
            assert(all.take(wanted.len() as int)[i as int] != wanted[i as int]);
            return false;
        }
        i = i + 1;
    }
    assert(all.take(wanted.len() as int) =~= wanted);
    true
}

/// The lines of a file with patterns, and the directory that it is for.
#[derive(Debug)]
pub struct IgnoreFile {
    /// The path of the directory from the root of the repository on.
    pub dir: String,
    pub lines: Vec<String>,
}

/// What an `IgnoreFile` holds.
pub struct IgnoreFileView {
    pub dir: Seq<char>,
    pub lines: Seq<Seq<char>>,
}

impl DeepView for IgnoreFile {
    type V = IgnoreFileView;

    open spec fn deep_view(&self) -> IgnoreFileView {
        IgnoreFileView { dir: self.dir@, lines: self.lines.deep_view() }
    }
}

/// The patterns for a directory.
struct Matcher {
    dir: String,
    patterns: Gitignore,
}

/// What the patterns for a directory decide.
pub struct RulesView {
    pub dir: Seq<char>,
    pub rules: Map<(Seq<char>, bool), Option<bool>>,
}

/// Text without byte order marks in front of it.
pub open spec fn without_marks(s: Seq<char>) -> Seq<char>
    decreases s.len(),
{
    if s.len() > 0 && s[0] == '\u{feff}' {
        without_marks(s.skip(1))
    } else {
        s
    }
}

/// Lines as they are read: the first one without byte order marks.
pub open spec fn read_lines(lines: Seq<Seq<char>>) -> Seq<Seq<char>> {
    if lines.len() > 0 {
        lines.update(0, without_marks(lines[0]))
    } else {
        lines
    }
}

/// What the lines of a file decide.
pub open spec fn rules_of(lines: Seq<Seq<char>>) -> Map<(Seq<char>, bool), Option<bool>> {
    decisions_of(read_lines(lines))
}

/// Whether there are any patterns in the lines of a file.
pub open spec fn any_patterns(lines: Seq<Seq<char>>) -> bool {
    hold_patterns(read_lines(lines))
}

/// Text without byte order marks in front of it.
fn strip_marks(s: &str) -> (r: String)
    ensures
        r@ == without_marks(s@),
{
    let cs = chars_of(s);
    let mut i: usize = 0;
    assert(cs@.skip(0) =~= cs@);
    while i < cs.len() && cs[i] == '\u{feff}'
        invariant
            i <= cs@.len(),
            without_marks(cs@.skip(i as int)) == without_marks(cs@),
        decreases cs.len() - i,
    {
        assert(cs@.skip(i as int).skip(1) =~= cs@.skip(i + 1));
        i = i + 1;
    }
    let out = substring(cs.as_slice(), i, cs.len());
    assert(out@ =~= cs@.skip(i as int));
    out
}

/// The patterns in the lines of a file.
fn compile_lines(lines: &[String]) -> (r: Gitignore)
    ensures
        decisions(r) == rules_of(lines.deep_view()),
        has_patterns(r) == any_patterns(lines.deep_view()),
        lines@.len() == 0 ==> !has_patterns(r),
{
    let ghost all = lines.deep_view();
    let mut builder = new_builder();
    let mut i: usize = 0;
    while i < lines.len()
        invariant
            i <= lines@.len(),
            all == lines.deep_view(),
            added_lines(builder) =~= read_lines(all).take(i as int),
        decreases lines.len() - i,
    {
        assert(all[i as int] == lines@[i as int]@);
        if i == 0 {
            add_line(&mut builder, strip_marks(lines[i].as_str()).as_str());
        } else {
            add_line(&mut builder, lines[i].as_str());
        }
        i = i + 1;
    }
    assert(added_lines(builder) =~= read_lines(all));
    build(&builder)
}

/// Which files are ignored: by the patterns of the directories above them, by those that are kept
/// with the repository alone, and by those of the user.
pub struct GitignoreFilter {
    matchers: Vec<Matcher>,
    exclude_matcher: Gitignore,
    global_matcher: Gitignore,
    repo_root: String,
}

/// What a `GitignoreFilter` holds.
pub struct FilterView {
    pub repo_root: Seq<char>,
    pub matchers: Seq<RulesView>,
    pub exclude: Map<(Seq<char>, bool), Option<bool>>,
    pub global: Map<(Seq<char>, bool), Option<bool>>,
    /// Whether there are patterns that are kept with the repository alone.
    pub has_exclude: bool,
    /// Whether there are patterns of the user.
    pub has_global: bool,
}

impl View for GitignoreFilter {
    type V = FilterView;

    closed spec fn view(&self) -> FilterView {
        FilterView {
            repo_root: self.repo_root@,
            matchers: rules_in(self.matchers@),
            exclude: decisions(self.exclude_matcher),
            global: decisions(self.global_matcher),
            has_exclude: has_patterns(self.exclude_matcher),
            has_global: has_patterns(self.global_matcher),
        }
    }
}

spec fn rules_in(matchers: Seq<Matcher>) -> Seq<RulesView> {
    Seq::new(
        matchers.len(),
        |i: int| RulesView { dir: matchers[i].dir@, rules: decisions(matchers[i].patterns) },
    )
}

/// What files with patterns decide, each for its directory.
pub open spec fn rules_of_files(files: Seq<IgnoreFileView>) -> Seq<RulesView> {
    Seq::new(
        files.len(),
        |i: int| RulesView { dir: files[i].dir, rules: rules_of(files[i].lines) },
    )
}

/// The rules for a directory among the first `n`: the last ones, where there are several.
pub open spec fn rules_for(
    matchers: Seq<RulesView>,
    dir: Seq<char>,
    n: int,
) -> Option<Map<(Seq<char>, bool), Option<bool>>>
    decreases n,
{
    if n <= 0 || n > matchers.len() {
        None
    } else if matchers[n - 1].dir == dir {
        Some(matchers[n - 1].rules)
    } else {
        rules_for(matchers, dir, n - 1)
    }
}

impl FilterView {
    /// Whether there are patterns beside those of the directories.
    pub open spec fn has_outer(self) -> bool {
        self.has_exclude || self.has_global
    }

    /// What the patterns of the directories above a file decide, the closest first, from the first
    /// `k` names of its path upwards.
    pub open spec fn decided_above(
        self,
        names: Seq<Seq<char>>,
        is_dir: bool,
        k: int,
    ) -> Option<bool>
        decreases k + 1,
    {
        if k < 0 {
            None
        } else {
            match rules_for(self.matchers, joined(names.take(k)), self.matchers.len() as int) {
                Some(rules) => match rules[(joined(names.skip(k)), is_dir)] {
                    Some(ignored) => Some(ignored),
                    None => self.decided_above(names, is_dir, k - 1),
                },
                None => self.decided_above(names, is_dir, k - 1),
            }
        }
    }

    /// Whether a file is ignored: the patterns of the directories above it decide, or else those
    /// that are kept with the repository alone, or else those of the user. A file elsewhere in the
    /// file system is not ignored.
    pub open spec fn ignores(self, path: Seq<char>, is_dir: bool) -> bool {
        let names = names_behind(path, self.repo_root);
        if is_rooted(path) && !lies_under(path, self.repo_root) {
            false
        } else {
            match self.decided_above(names, is_dir, names.len() - 1) {
                Some(ignored) => ignored,
                None => match self.exclude[(joined(names), is_dir)] {
                    Some(ignored) => ignored,
                    None => self.global[(joined(names), is_dir)] == Some(true),
                },
            }
        }
    }
}

fn build_matchers(files: &[IgnoreFile]) -> (r: Vec<Matcher>)
    ensures
        rules_in(r@) == rules_of_files(files.deep_view()),
{
    let ghost all = files.deep_view();
    let mut out: Vec<Matcher> = Vec::new();
    let mut i: usize = 0;
    while i < files.len()
        invariant
            i <= files@.len(),
            all == files.deep_view(),
            rules_in(out@) =~= rules_of_files(all).take(i as int),
        decreases files.len() - i,
    {
        let lines = files[i].lines.as_slice();
        assert(all[i as int] == files@[i as int].deep_view());
        assert(lines.deep_view() =~= all[i as int].lines);
        let ghost before = out@;
        out.push(Matcher { dir: files[i].dir.clone(), patterns: compile_lines(lines) });
        assert(rules_in(out@) =~= rules_in(before).push(
            RulesView { dir: all[i as int].dir, rules: rules_of(all[i as int].lines) },
        ));
        i = i + 1;
    }
    assert(rules_of_files(all).take(all.len() as int) =~= rules_of_files(all));
    out
}

impl GitignoreFilter {
    /// The filter of a repository: the files with patterns in its directories, the lines of
    /// `.git/info/exclude`, and those of the file of the user.
    pub fn new(
        repo_root: &str,
        files: &[IgnoreFile],
        exclude: &[String],
        global: &[String],
    ) -> (r: GitignoreFilter)
        ensures
            r@ == (FilterView {
                repo_root: repo_root@,
                matchers: rules_of_files(files.deep_view()),
                exclude: rules_of(exclude.deep_view()),
                global: rules_of(global.deep_view()),
                has_exclude: any_patterns(exclude.deep_view()),
                has_global: any_patterns(global.deep_view()),
            }),
            exclude@.len() == 0 ==> !r@.has_exclude,
            global@.len() == 0 ==> !r@.has_global,
    {
        GitignoreFilter {
            matchers: build_matchers(files),
            exclude_matcher: compile_lines(exclude),
            global_matcher: compile_lines(global),
            repo_root: repo_root.to_string(),
        }
    }

    /// Takes in the patterns of the repository anew. Those of the user stay as they are.
    pub fn rebuild(&mut self, files: &[IgnoreFile], exclude: &[String])
        ensures
            final(self)@ == (FilterView {
                matchers: rules_of_files(files.deep_view()),
                exclude: rules_of(exclude.deep_view()),
                has_exclude: any_patterns(exclude.deep_view()),
                ..old(self)@
            }),
            exclude@.len() == 0 ==> !final(self)@.has_exclude,
    {
        self.matchers = build_matchers(files);
        self.exclude_matcher = compile_lines(exclude);
    }

    /// The patterns for a directory.
    fn find(&self, dir: &str) -> (r: Option<&Gitignore>)
        ensures
            r is Some <==> rules_for(self@.matchers, dir@, self@.matchers.len() as int) is Some,
            r matches Some(patterns) ==> Some(decisions(*patterns)) == rules_for(
                self@.matchers,
                dir@,
                self@.matchers.len() as int,
            ),
    {
        let mut n: usize = self.matchers.len();
        while n > 0
            invariant
                n <= self.matchers@.len(),
                rules_for(self@.matchers, dir@, n as int) == rules_for(
                    self@.matchers,
                    dir@,
                    self@.matchers.len() as int,
                ),
            decreases n,
        {
            assert(self@.matchers[n - 1].dir == self.matchers@[n - 1].dir@);
            if same_text(self.matchers[n - 1].dir.as_str(), dir) {
                return Some(&self.matchers[n - 1].patterns);
            }
            n = n - 1;
        }
        None
    }

    /// Whether there are patterns beside those of the directories: ones that are kept with the
    /// repository alone, or ones of the user. They are for files in the repository only.
    pub fn has_outer_patterns(&self) -> (r: bool)
        ensures
            r == self@.has_outer(),
    {
        !is_empty(&self.exclude_matcher) || !is_empty(&self.global_matcher)
    }

    /// Whether a file is ignored. The path leads to it from the root of the repository or of the
    /// file system on; in the latter case it lies in the repository, unless only directories have
    /// patterns.
    pub fn is_ignored(&self, path: &str, is_dir: bool) -> (r: bool)
        requires
            is_rooted(path@) && self@.has_outer() ==> lies_under(path@, self@.repo_root),
        ensures
            r == self@.ignores(path@, is_dir),
    {
        let all = path_names(path);
        let root = path_names(self.repo_root.as_str());
        let rooted = path.unicode_len() > 0 && path.get_char(0) == '/';
        let root_rooted = self.repo_root.as_str().unicode_len() > 0
            && self.repo_root.as_str().get_char(0) == '/';
        let part = all.as_slice();
        let root_part = root.as_slice();
        assert(part.deep_view() =~= names_in(path@));
        assert(root_part.deep_view() =~= names_in(self@.repo_root));
        let under = rooted == root_rooted && start_with_names(part, root_part);
        if rooted && !under {
            return false;
        }
        let from: usize = if under {
            root.len()
        } else {
            0
        };
        assert(root.deep_view().len() == root@.len());
        let ghost names = names_behind(path@, self@.repo_root);
        let names_left = vstd::slice::slice_subrange(part, from, part.len());
        assert(names_left.deep_view() =~= names);
        proof {
            let given = names_in(path@);
            assert forall|i: int, k: int|
                0 <= i < names.len() && 0 <= k < names[i].len() implies #[trigger] names[i][k]
                != '/' by {
                assert(given[i + from][k] != '/');
            }
            assert forall|i: int| 0 <= i < names.len() implies is_name(#[trigger] names[i]) by {
                assert(is_name(given[i + from]));
            }
        }
        let n: usize = names_left.len();
        let mut k: usize = n;
        while k > 0
            invariant
                k <= n,
                n == names_left@.len(),
                names_left.deep_view() == names,
                are_names(names),
                self@.decided_above(names, is_dir, k - 1) == self@.decided_above(
                    names,
                    is_dir,
                    names.len() - 1,
                ),
                names == names_behind(path@, self@.repo_root),
                is_rooted(path@) ==> lies_under(path@, self@.repo_root),
            decreases k,
        {
            let dir = join(names_left, 0, k - 1);
            assert(names.subrange(0, k - 1) =~= names.take(k - 1));
            if let Some(patterns) = self.find(dir.as_str()) {
                let rest = join(names_left, k - 1, n);
                assert(names.subrange(k - 1, n as int) =~= names.skip(k - 1));
                proof {
                    lemma_skip_names(names, k - 1);
                    lemma_joined_is_relative(names.skip(k - 1));
                }
                if let Some(ignored) = decide(patterns, rest.as_str(), is_dir) {
                    return ignored;
                }
            }
            k = k - 1;
        }
        let whole = join(names_left, 0, n);
        assert(names.subrange(0, n as int) =~= names);
        proof {
            lemma_joined_is_relative(names);
        }
        if let Some(ignored) = decide(&self.exclude_matcher, whole.as_str(), is_dir) {
            return ignored;
        }
        match decide(&self.global_matcher, whole.as_str(), is_dir) {
            Some(ignored) => ignored,
            None => false,
        }
    }

    /// Whether a file holds patterns, so that the filter has to be built anew when it changes.
    pub fn is_gitignore_file(path: &str) -> (r: bool)
        ensures
            r == holds_patterns(path@),
    {
        let named = match file_name(path) {
            Some(name) => same_text(name.as_str(), ".gitignore"),
            None => false,
        };
        if named {
            return true;
        }
        let names = path_names(path);
        let ghost all = names.deep_view();
        assert(all.len() == names@.len());
        let n: usize = names.len();
        if n < 3 {
            return false;
        }
        assert(all[n - 3] == names@[n - 3]@);
        assert(all[n - 2] == names@[n - 2]@);
        assert(all[n - 1] == names@[n - 1]@);
        same_text(names[n - 3].as_str(), ".git") && same_text(names[n - 2].as_str(), "info")
            && same_text(names[n - 1].as_str(), "exclude")
    }
}

/// Whether a file holds patterns: it is named `.gitignore`, or it is the file `.git/info/exclude`.
pub open spec fn holds_patterns(path: Seq<char>) -> bool {
    let names = names_in(path);
    let n = names.len() as int;
    ||| name_in(path) == Some(".gitignore"@)
    ||| n >= 3 && names[n - 3] == ".git"@ && names[n - 2] == "info"@ && names[n - 1]
        == "exclude"@
}

proof fn lemma_skip_names(names: Seq<Seq<char>>, k: int)
    requires
        are_names(names),
        0 <= k <= names.len(),
    ensures
        are_names(names.skip(k)),
{
    let rest = names.skip(k);
    assert forall|i: int, h: int| 0 <= i < rest.len() && 0 <= h < rest[i].len() implies #[trigger] rest[i][h]
        != '/' by {
        assert(names[i + k][h] != '/');
    }
    assert forall|i: int| 0 <= i < rest.len() implies is_name(#[trigger] rest[i]) by {
        assert(is_name(names[i + k]));
    }
}

/// The closest directory decides: where its patterns decide of a file, nothing else counts.
pub proof fn law_closest_patterns_decide(filter: FilterView, path: Seq<char>, is_dir: bool)
    requires
        is_rooted(path) ==> lies_under(path, filter.repo_root),
        names_behind(path, filter.repo_root).len() > 0,
    ensures
        ({
            let names = names_behind(path, filter.repo_root);
            let dir = joined(names.drop_last());
            let name = joined(names.skip(names.len() - 1));
            rules_for(filter.matchers, dir, filter.matchers.len() as int) matches Some(rules)
                ==> rules[(name, is_dir)] matches Some(ignored) ==> filter.ignores(path, is_dir)
                == ignored
        }),
{
    let names = names_behind(path, filter.repo_root);
    assert(names.take(names.len() - 1) =~= names.drop_last());
}

/// Patterns in a directory decide of nothing outside it: files that have no directory with
/// patterns above them are ignored only by those of the repository alone and of the user.
pub proof fn law_patterns_keep_to_their_directory(filter: FilterView, path: Seq<char>, is_dir: bool)
    requires
        is_rooted(path) ==> lies_under(path, filter.repo_root),
        forall|k: int|
            0 <= k < names_behind(path, filter.repo_root).len() ==> rules_for(
                filter.matchers,
                joined(#[trigger] names_behind(path, filter.repo_root).take(k)),
                filter.matchers.len() as int,
            ) is None,
    ensures
        ({
            let file = (joined(names_behind(path, filter.repo_root)), is_dir);
            filter.ignores(path, is_dir) == (match filter.exclude[file] {
                Some(ignored) => ignored,
                None => filter.global[file] == Some(true),
            })
        }),
{
    let names = names_behind(path, filter.repo_root);
    lemma_nothing_above(filter, names, is_dir, names.len() - 1);
}

proof fn lemma_nothing_above(filter: FilterView, names: Seq<Seq<char>>, is_dir: bool, k: int)
    requires
        k < names.len(),
        forall|j: int|
            0 <= j < names.len() ==> rules_for(
                filter.matchers,
                joined(#[trigger] names.take(j)),
                filter.matchers.len() as int,
            ) is None,
    ensures
        filter.decided_above(names, is_dir, k) is None,
    decreases k + 1,
{
    if k >= 0 {
        assert(rules_for(
            filter.matchers,
            joined(names.take(k)),
            filter.matchers.len() as int,
        ) is None);
        lemma_nothing_above(filter, names, is_dir, k - 1);
    }
}

/// Whether a path may be watched because it appeared: it leads to a directory in the repository,
/// and not to one that Git keeps for itself.
pub fn is_new_directory(repo_root: &str, path: &str, is_dir: bool) -> (r: bool)
    ensures
        r == (is_dir && lies_under(path@, repo_root@) && !names_behind(path@, repo_root@).contains(
            ".git"@,
        )),
{
    if !is_dir {
        return false;
    }
    let names = path_names(path);
    let root = path_names(repo_root);
    let names_part = names.as_slice();
    let root_part = root.as_slice();
    assert(names_part.deep_view() =~= names_in(path@));
    assert(root_part.deep_view() =~= names_in(repo_root@));
    let path_rooted = path.unicode_len() > 0 && path.get_char(0) == '/';
    let root_rooted = repo_root.unicode_len() > 0 && repo_root.get_char(0) == '/';
    if path_rooted != root_rooted || !start_with_names(names_part, root_part) {
        return false;
    }
    assert(root.deep_view().len() == root@.len());
    let rest = vstd::slice::slice_subrange(names_part, root.len(), names_part.len());
    assert(rest.deep_view() =~= names_behind(path@, repo_root@));
    !crate::text::among(rest, ".git")
}

proof fn lemma_names_of_both(a: Seq<Seq<char>>, b: Seq<Seq<char>>)
    ensures
        names_among(a + b) == names_among(a) + names_among(b),
    decreases b.len(),
{
    if b.len() == 0 {
        assert(a + b =~= a);
        assert(names_among(a) + names_among(b) =~= names_among(a));
    } else {
        lemma_names_of_both(a, b.drop_last());
        assert((a + b).drop_last() =~= a + b.drop_last());
        assert(names_among(a + b) =~= names_among(a) + names_among(b));
    }
}

proof fn lemma_all_names(parts: Seq<Seq<char>>)
    requires
        forall|i: int| 0 <= i < parts.len() ==> is_name(#[trigger] parts[i]),
    ensures
        names_among(parts) == parts,
    decreases parts.len(),
{
    if parts.len() > 0 {
        let front = parts.drop_last();
        assert forall|i: int| 0 <= i < front.len() implies is_name(#[trigger] front[i]) by {
            assert(front[i] == parts[i]);
        }
        lemma_all_names(front);
        assert(is_name(parts[parts.len() - 1]));
        assert(front.push(parts.last()) =~= parts);
    } else {
        assert(names_among(parts) =~= parts);
    }
}

proof fn lemma_pieces_of_names(names: Seq<Seq<char>>)
    requires
        names.len() > 0,
        no_slash(names),
    ensures
        pieces(joined(names), '/') == names,
    decreases names.len(),
{
    reveal_strlit("/");
    let last = names[names.len() - 1];
    assert forall|k: int| 0 <= k < last.len() implies last[k] != '/' by {
        assert(names[names.len() - 1][k] != '/');
    }
    lemma_one_piece(last, '/');
    if names.len() == 1 {
        assert(names =~= seq![last]);
    } else {
        let front = names.drop_last();
        assert forall|i: int, k: int|
            0 <= i < front.len() && 0 <= k < front[i].len() implies #[trigger] front[i][k]
            != '/' by {
            assert(names[i][k] != '/');
        }
        lemma_pieces_of_names(front);
        lemma_pieces_of_both(joined(front), last, '/');
        assert(joined(front) + "/"@ + last =~= joined(front).push('/') + last);
        assert(front + seq![last] =~= names);
    }
}

/// The names of a path are read back from it, and those of a file in a directory are the names of
/// the directory and its own: the path lies in the directory, and its own names are what leads on
/// from there.
pub proof fn law_names_are_read_back(root: Seq<char>, names: Seq<Seq<char>>)
    requires
        names.len() > 0,
        are_names(names),
        root.len() > 0,
    ensures
        names_in(joined(names)) == names,
        names_in(root.push('/') + joined(names)) == names_in(root) + names,
        lies_under(root.push('/') + joined(names), root),
        names_behind(root.push('/') + joined(names), root) == names,
{
    let path = root.push('/') + joined(names);
    lemma_pieces_of_names(names);
    lemma_all_names(names);
    lemma_pieces_of_both(root, joined(names), '/');
    lemma_names_of_both(pieces(root, '/'), names);
    let start = names_in(root);
    assert(path[0] == root[0]);
    assert((start + names).take(start.len() as int) =~= start);
    assert((start + names).skip(start.len() as int) =~= names);
}

/// Of all patterns that decide of a file, those of the closest directory count; those that are kept
/// with the repository alone count only where no directory decides, and those of the user last.
pub proof fn law_patterns_decide_in_order(
    filter: FilterView,
    path: Seq<char>,
    is_dir: bool,
    k: int,
    ignored: bool,
)
    requires
        is_rooted(path) ==> lies_under(path, filter.repo_root),
    ensures
        ({
            let names = names_behind(path, filter.repo_root);
            let file = (joined(names), is_dir);
            let nothing_from = |from: int|
                forall|j: int|
                    from <= j < names.len() ==> #[trigger] decided_in(filter, names, is_dir, j)
                        is None;
            &&& 0 <= k < names.len() && decided_in(filter, names, is_dir, k) == Some(ignored)
                && nothing_from(k + 1) ==> filter.ignores(path, is_dir) == ignored
            &&& nothing_from(0) && filter.exclude[file] == Some(ignored) ==> filter.ignores(
                path,
                is_dir,
            ) == ignored
            &&& nothing_from(0) && filter.exclude[file] is None && filter.global[file] == Some(
                ignored,
            ) ==> filter.ignores(path, is_dir) == ignored
            &&& nothing_from(0) && filter.exclude[file] is None && filter.global[file] is None
                ==> !filter.ignores(path, is_dir)
        }),
{
    let names = names_behind(path, filter.repo_root);
    let n = names.len() - 1;
    if 0 <= k <= n && decided_in(filter, names, is_dir, k) == Some(ignored) && (forall|j: int|
        k + 1 <= j < names.len() ==> #[trigger] decided_in(filter, names, is_dir, j) is None) {
        lemma_decided(filter, names, is_dir, k, n);
    }
    if forall|j: int| 0 <= j < names.len() ==> #[trigger] decided_in(filter, names, is_dir, j) is None {
        lemma_decided(filter, names, is_dir, -1, n);
    }
}

/// What the patterns of the directory that the first `k` names lead to decide of a file.
pub open spec fn decided_in(
    filter: FilterView,
    names: Seq<Seq<char>>,
    is_dir: bool,
    k: int,
) -> Option<bool> {
    match rules_for(filter.matchers, joined(names.take(k)), filter.matchers.len() as int) {
        Some(rules) => rules[(joined(names.skip(k)), is_dir)],
        None => None,
    }
}

proof fn lemma_decided(
    filter: FilterView,
    names: Seq<Seq<char>>,
    is_dir: bool,
    k: int,
    from: int,
)
    requires
        -1 <= k <= from < names.len(),
        k >= 0 ==> decided_in(filter, names, is_dir, k) is Some,
        forall|j: int|
            k < j < names.len() ==> #[trigger] decided_in(filter, names, is_dir, j) is None,
    ensures
        filter.decided_above(names, is_dir, from) == (if k >= 0 {
            decided_in(filter, names, is_dir, k)
        } else {
            None
        }),
    decreases from + 1,
{
    if from > k {
        assert(decided_in(filter, names, is_dir, from) is None);
        lemma_decided(filter, names, is_dir, k, from - 1);
    }
}

/// Of several files with patterns for one directory the last one counts, and those for other
/// directories do not.
pub proof fn law_last_patterns_of_a_directory_count(
    matchers: Seq<RulesView>,
    more: RulesView,
    dir: Seq<char>,
)
    ensures
        rules_for(matchers.push(more), dir, matchers.push(more).len() as int) == (if more.dir == dir {
            Some(more.rules)
        } else {
            rules_for(matchers, dir, matchers.len() as int)
        }),
        rules_for(Seq::empty(), dir, 0) is None,
{
    lemma_rules_of_first(matchers, more, dir, matchers.len() as int);
}

proof fn lemma_rules_of_first(matchers: Seq<RulesView>, more: RulesView, dir: Seq<char>, n: int)
    requires
        0 <= n <= matchers.len(),
    ensures
        rules_for(matchers.push(more), dir, n) == rules_for(matchers, dir, n),
    decreases n,
{
    if n > 0 {
        assert(matchers.push(more)[n - 1] == matchers[n - 1]);
        lemma_rules_of_first(matchers, more, dir, n - 1);
    }
}

/// A file elsewhere in the file system is not ignored, whatever the patterns are.
pub proof fn law_files_elsewhere_are_not_ignored(filter: FilterView, path: Seq<char>, is_dir: bool)
    requires
        is_rooted(path),
        !lies_under(path, filter.repo_root),
    ensures
        !filter.ignores(path, is_dir),
{
}

/// The files that hold patterns are known wherever they are: those named `.gitignore` in any
/// directory, and the one that Git keeps for the repository alone.
pub proof fn law_files_with_patterns_are_known(dir: Seq<char>)
    requires
        dir.len() > 0,
        dir.last() == '/',
    ensures
        holds_patterns(".gitignore"@),
        holds_patterns(dir + ".gitignore"@),
        holds_patterns(dir + ".git/info/exclude"@),
        !holds_patterns(dir + "exclude"@) || names_in(dir).contains("info"@),
{
    let ignore = ".gitignore"@;
    let none = Seq::<char>::empty();
    reveal_strlit(".gitignore");
    reveal_strlit(".git/info/exclude");
    reveal_strlit(".git");
    reveal_strlit("info");
    reveal_strlit("exclude");
    reveal_strlit(".");
    law_names_stand_at_the_end(dir, ignore);
    law_names_stand_at_the_end(none, ignore);
    assert(none + ignore =~= ignore);
    let root = dir.drop_last();
    assert(root.push('/') =~= dir);
    let parts = seq![".git"@, "info"@, "exclude"@];
    let rest = ".git/info/exclude"@;
    lemma_first_piece(".git"@, "info"@.push('/') + "exclude"@, '/');
    lemma_first_piece("info"@, "exclude"@, '/');
    lemma_one_piece("exclude"@, '/');
    assert(".git"@.push('/') + ("info"@.push('/') + "exclude"@) =~= rest);
    assert(pieces(rest, '/') =~= parts);
    lemma_pieces_of_both(root, rest, '/');
    lemma_pieces_of_both(root, "exclude"@, '/');
    assert forall|i: int| 0 <= i < parts.len() implies is_name(#[trigger] parts[i]) by {
        assert(parts[i].len() > 1);
    }
    lemma_all_names(parts);
    lemma_names_of_both(pieces(root, '/'), parts);
    let one = seq!["exclude"@];
    assert(is_name(one[0]));
    lemma_all_names(one);
    lemma_names_of_both(pieces(root, '/'), one);
    law_names_stand_at_the_end(dir, "exclude"@);
    lemma_pieces_of_both(root, none, '/');
    assert(root.push('/') + none =~= dir);
    assert(pieces(none, '/') =~= seq![none]);
    lemma_names_of_both(pieces(root, '/'), seq![none]);
    reveal_with_fuel(names_among, 2);
    assert(names_among(seq![none]) =~= Seq::empty());
    let outer = names_in(dir);
    assert(outer =~= names_among(pieces(root, '/')));
    let all = names_in(dir + "exclude"@);
    assert(all =~= outer.push("exclude"@));
    if holds_patterns(dir + "exclude"@) {
        assert(ignore.len() != "exclude"@.len());
        assert(outer[all.len() - 2] == "info"@);
    }
    let whole = names_in(dir + rest);
    assert(whole =~= outer + parts);
}

/// A file with patterns is read the same with and without byte order marks at its beginning.
pub proof fn law_byte_order_marks_do_not_count(first: Seq<char>, rest: Seq<Seq<char>>)
    requires
        first.len() > 0 ==> first[0] != '\u{feff}',
    ensures
        rules_of(seq![seq!['\u{feff}'] + first] + rest) == rules_of(seq![first] + rest),
        read_lines(seq![first] + rest) == seq![first] + rest,
{
    let marked = seq!['\u{feff}'] + first;
    assert(marked.skip(1) =~= first);
    reveal_with_fuel(without_marks, 2);
    assert(without_marks(marked) == first);
    assert(read_lines(seq![marked] + rest) =~= seq![first] + rest);
    assert(read_lines(seq![first] + rest) =~= seq![first] + rest);
}

} // verus!

//! Which files a repository ignores.
use branchdiff::gitignore::is_new_directory;
use branchdiff::gitignore::GitignoreFilter;
use branchdiff::gitignore::IgnoreFile;

fn lines(text: &str) -> Vec<String> {
    text.lines().map(|line| line.to_string()).collect()
}

/// A repository in memory: its files with patterns, and its directories.
struct Repo {
    files: Vec<(String, String)>,
    dirs: Vec<String>,
}

const ROOT: &str = "/tmp/repo";

impl Repo {
    fn new() -> Repo {
        Repo { files: Vec::new(), dirs: Vec::new() }
    }

    fn write(&mut self, path: &str, text: &str) {
        self.files.retain(|(p, _)| p != path);
        self.files.push((path.to_string(), text.to_string()));
    }

    fn create_dir_all(&mut self, path: &str) {
        let mut dir = String::new();
        for name in path.split('/') {
            if !dir.is_empty() {
                dir.push('/');
            }
            dir.push_str(name);
            self.dirs.push(dir.clone());
        }
    }

    fn patterns(&self) -> Vec<IgnoreFile> {
        self.files
            .iter()
            .filter(|(path, _)| path.ends_with(".gitignore"))
            .map(|(path, text)| IgnoreFile {
                dir: path.strip_suffix(".gitignore").unwrap().trim_end_matches('/').to_string(),
                lines: lines(text),
            })
            .collect()
    }

    fn exclude(&self) -> Vec<String> {
        match self.files.iter().find(|(path, _)| path == ".git/info/exclude") {
            Some((_, text)) => lines(text),
            None => Vec::new(),
        }
    }

    fn filter(&self) -> GitignoreFilter {
        GitignoreFilter::new(ROOT, &self.patterns(), &self.exclude(), &[])
    }

    fn rebuild(&self, filter: &mut GitignoreFilter) {
        filter.rebuild(&self.patterns(), &self.exclude());
    }

    fn ignores(&self, filter: &GitignoreFilter, path: &str) -> bool {
        let is_dir = self.dirs.iter().any(|dir| dir == path);
        filter.is_ignored(&format!("{ROOT}/{path}"), is_dir)
    }
}

#[test]
fn test_user_patterns_decide_last() {
    let mut repo = Repo::new();
    repo.write(".gitignore", "!keep.tmp\n");
    let global = lines("*.tmp\n*.bak\n");
    let filter = GitignoreFilter::new(ROOT, &repo.patterns(), &lines("!a.bak\n"), &global);
    assert!(repo.ignores(&filter, "x.tmp"));
    assert!(!repo.ignores(&filter, "keep.tmp"));
    assert!(!repo.ignores(&filter, "a.bak"));
    assert!(repo.ignores(&filter, "b.bak"));
}

#[test]
fn test_marks_and_other_lines_are_passed_over() {
    let mut repo = Repo::new();
    repo.write(".gitignore", "\u{feff}*.log\n# *.rs\n\n");
    let filter = repo.filter();
    assert!(repo.ignores(&filter, "a.log"));
    assert!(!repo.ignores(&filter, "a.rs"));
    assert!(filter.is_ignored("./src//./a.log", false));
}

#[test]
fn test_files_elsewhere_are_not_ignored() {
    let mut repo = Repo::new();
    repo.write(".gitignore", "*.log\n");
    let mut filter = repo.filter();
    assert!(!filter.has_outer_patterns());
    assert!(!filter.is_ignored("/tmp/other/a.log", false));
    assert!(repo.ignores(&filter, "a.log"));
    filter.rebuild(&repo.patterns(), &lines("# nothing\n"));
    assert!(!filter.has_outer_patterns());
    filter.rebuild(&repo.patterns(), &lines("*.bak\n"));
    assert!(filter.has_outer_patterns());
    assert!(repo.ignores(&filter, "a.bak"));
    filter.rebuild(&repo.patterns(), &[]);
    assert!(!filter.has_outer_patterns());
    assert!(GitignoreFilter::new(ROOT, &[], &[], &lines("*.bak\n")).has_outer_patterns());
}

#[test]
fn test_new_directories_are_watched() {
    assert!(is_new_directory(ROOT, "/tmp/repo/src", true));
    assert!(!is_new_directory(ROOT, "/tmp/repo/src", false));
    assert!(!is_new_directory(ROOT, "/tmp/other/src", true));
    assert!(!is_new_directory(ROOT, "/tmp/repo/.git/refs", true));
    assert!(is_new_directory(ROOT, "/tmp/repo/.github", true));
}

#[test]
fn test_basic_gitignore_matching() {
    let mut repo = Repo::new();

    repo.write(".gitignore", "*.log\ntarget/\n");

    let filter = repo.filter();

    assert!(repo.ignores(&filter, "debug.log"));
    assert!(repo.ignores(&filter, "target/release/binary"));
    assert!(!repo.ignores(&filter, "src/main.rs"));
}

#[test]
fn test_negation_patterns() {
    let mut repo = Repo::new();

    repo.write(".gitignore", "*.log\n!important.log\n");

    let filter = repo.filter();

    assert!(repo.ignores(&filter, "debug.log"));
    assert!(!repo.ignores(&filter, "important.log"));
}

#[test]
fn test_subdirectory_patterns() {
    let mut repo = Repo::new();

    // Test patterns that match subdirectories from root .gitignore
    repo.write(".gitignore", "subdir/*.tmp\n");
    repo.create_dir_all("subdir");

    let filter = repo.filter();

    assert!(repo.ignores(&filter, "subdir/file.tmp"));
    // Root level .tmp should not be ignored (pattern only matches subdir/)
    assert!(!repo.ignores(&filter, "file.tmp"));
}

#[test]
fn test_git_info_exclude() {
    let mut repo = Repo::new();

    repo.write(".git/info/exclude", "*.secret\n");

    let filter = repo.filter();

    assert!(repo.ignores(&filter, "passwords.secret"));
    assert!(!repo.ignores(&filter, "passwords.txt"));
}

#[test]
fn test_rebuild_on_gitignore_change() {
    let mut repo = Repo::new();

    repo.write(".gitignore", "");
    let mut filter = repo.filter();

    assert!(!repo.ignores(&filter, "test.log"));

    repo.write(".gitignore", "*.log\n");
    repo.rebuild(&mut filter);

    assert!(repo.ignores(&filter, "test.log"));
}

#[test]
fn test_is_gitignore_file() {
    assert!(GitignoreFilter::is_gitignore_file(".gitignore"));
    assert!(GitignoreFilter::is_gitignore_file("subdir/.gitignore"));
    assert!(GitignoreFilter::is_gitignore_file(".git/info/exclude"));
    assert!(GitignoreFilter::is_gitignore_file("/repo/.git/info/exclude"));
    assert!(!GitignoreFilter::is_gitignore_file("src/main.rs"));
    assert!(!GitignoreFilter::is_gitignore_file(".gitignore.bak"));
}

#[test]
fn test_directory_patterns() {
    let mut repo = Repo::new();

    repo.write(".gitignore", "node_modules/\n");
    repo.create_dir_all("node_modules/pkg");

    let filter = repo.filter();

    assert!(repo.ignores(&filter, "node_modules"));
    assert!(repo.ignores(&filter, "node_modules/pkg/index.js"));
}

#[test]
fn test_empty_repo_no_gitignore() {
    let repo = Repo::new();

    let filter = repo.filter();

    assert!(!repo.ignores(&filter, "any_file.txt"));
    assert!(!repo.ignores(&filter, "node_modules/pkg.js"));
}

#[test]
fn test_nested_gitignore_scoping() {
    let mut repo = Repo::new();

    // Root ignores *.log
    repo.write(".gitignore", "*.log\n");

    // subdir ignores *.txt (should only apply to subdir/)
    repo.create_dir_all("subdir");
    repo.write("subdir/.gitignore", "*.txt\n");

    let filter = repo.filter();

    // Root patterns apply everywhere
    assert!(repo.ignores(&filter, "test.log"));
    assert!(repo.ignores(&filter, "subdir/test.log"));

    // Subdir patterns only apply to subdir
    assert!(
        !repo.ignores(&filter, "test.txt"),
        "Root .txt should NOT be ignored"
    );
    assert!(
        repo.ignores(&filter, "subdir/test.txt"),
        "subdir .txt SHOULD be ignored"
    );
}

#[test]
fn test_nested_gitignore_negation() {
    let mut repo = Repo::new();

    // Root ignores all *.log
    repo.write(".gitignore", "*.log\n");

    // subdir un-ignores important.log
    repo.create_dir_all("subdir");
    repo.write("subdir/.gitignore", "!important.log\n");

    let filter = repo.filter();

    assert!(repo.ignores(&filter, "test.log"));
    assert!(repo.ignores(&filter, "subdir/test.log"));
    assert!(
        !repo.ignores(&filter, "subdir/important.log"),
        "Nested negation should un-ignore important.log"
    );
}

#[test]
fn test_deeply_nested_gitignore() {
    let mut repo = Repo::new();

    repo.create_dir_all("a/b/c");
    repo.write("a/.gitignore", "*.a\n");
    repo.write("a/b/.gitignore", "*.b\n");
    repo.write("a/b/c/.gitignore", "*.c\n");

    let filter = repo.filter();

    // *.a pattern only applies at a/ and below
    assert!(!repo.ignores(&filter, "test.a"));
    assert!(repo.ignores(&filter, "a/test.a"));
    assert!(repo.ignores(&filter, "a/b/test.a"));
    assert!(repo.ignores(&filter, "a/b/c/test.a"));

    // *.b pattern only applies at a/b/ and below
    assert!(!repo.ignores(&filter, "test.b"));
    assert!(!repo.ignores(&filter, "a/test.b"));
    assert!(repo.ignores(&filter, "a/b/test.b"));
    assert!(repo.ignores(&filter, "a/b/c/test.b"));

    // *.c pattern only applies at a/b/c/
    assert!(!repo.ignores(&filter, "test.c"));
    assert!(!repo.ignores(&filter, "a/test.c"));
    assert!(!repo.ignores(&filter, "a/b/test.c"));
    assert!(repo.ignores(&filter, "a/b/c/test.c"));
}

#[test]
fn test_nested_gitignore_rebuild() {
    let mut repo = Repo::new();

    repo.create_dir_all("subdir");
    repo.write(".gitignore", "");

    let mut filter = repo.filter();

    // Initially nothing is ignored
    assert!(!repo.ignores(&filter, "subdir/test.txt"));

    // Add nested gitignore
    repo.write("subdir/.gitignore", "*.txt\n");
    repo.rebuild(&mut filter);

    // Now subdir .txt files should be ignored
    assert!(repo.ignores(&filter, "subdir/test.txt"));
}

#[test]
fn test_nested_gitignore_directory_pattern() {
    let mut repo = Repo::new();

    // subdir/.gitignore ignores build/
    repo.create_dir_all("subdir/build/output");
    repo.write("subdir/.gitignore", "build/\n");

    let filter = repo.filter();

    // Root build/ should NOT be ignored (pattern is in subdir/)
    assert!(!repo.ignores(&filter, "build"));
    assert!(!repo.ignores(&filter, "build/output/file"));

    // subdir/build/ SHOULD be ignored
    assert!(repo.ignores(&filter, "subdir/build"));
    assert!(repo.ignores(&filter, "subdir/build/output"));
    assert!(repo.ignores(&filter, "subdir/build/output/file.txt"));
}

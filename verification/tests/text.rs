//! Taking text apart: lines, words, numbers and paths.
use branchdiff::path::extension;
use branchdiff::path::file_name;
use branchdiff::scan::parse_number;
use branchdiff::scan::split;
use branchdiff::scan::split_lines;
use branchdiff::scan::starts_with;
use branchdiff::scan::trim;
use branchdiff::scan::word;
use branchdiff::text::is_whitespace;
use branchdiff::text::number;

#[test]
fn test_trim_agrees_with_the_standard_library() {
    for text in ["", " ", "  a b\t\n", "a", "\u{a0}x\u{2003}", "\u{200b}x\u{200b}", "日本 "] {
        assert_eq!(trim(text), text.trim());
    }
}

#[test]
fn test_split_agrees_with_the_standard_library() {
    for text in ["", "a", "a\tb", "\ta\t\tb\t"] {
        let expected: Vec<&str> = text.split('\t').collect();
        assert_eq!(split(text, '\t'), expected);
    }
}

#[test]
fn test_split_lines_agrees_with_the_standard_library() {
    for text in ["", "\n", "a", "a\n", "a\nb", "a\r\nb\r\n", "a\r", "\n\na\r\r\n", "a\rb\n"] {
        let expected: Vec<&str> = text.lines().collect();
        assert_eq!(split_lines(text), expected, "lines of {:?}", text);
    }
}

#[test]
fn test_word_is_the_first_one() {
    for text in ["", "  ", "git", " git version", "2.39.2\n", "\ta b"] {
        assert_eq!(word(text), text.split_whitespace().next().unwrap_or(""));
    }
}

#[test]
fn test_parse_number_agrees_with_the_standard_library() {
    for text in [
        "", "+", "-", "0", "7", "+7", "-7", "007", "4294967295", "4294967296", "99999999999999999999",
        "12a", " 1", "1 ", "++1", "٣",
    ] {
        assert_eq!(parse_number(text), text.parse::<u32>().ok(), "number in {:?}", text);
    }
}

#[test]
fn test_starts_with_agrees_with_the_standard_library() {
    for (text, start) in [("", ""), ("a", ""), ("", "a"), ("abc", "ab"), ("ab", "abc"), ("äb", "ä")] {
        assert_eq!(starts_with(text, start), text.starts_with(start));
    }
}

#[test]
fn test_paths_agree_with_the_standard_library() {
    for path in [
        "", "/", "a", "a/b", "a/b/", "a//b", "/tmp/test", "..", "a/..", "a/.", ".", "./a", ".gitignore",
        "a.rs", "a.b.rs", "a.", "a/.hidden.txt", "dir.d/file",
    ] {
        let expected = std::path::Path::new(path);
        let name = expected.file_name().map(|s| s.to_str().unwrap().to_string());
        assert_eq!(file_name(path), name, "name in {:?}", path);
        let ext = expected.extension().map(|s| s.to_str().unwrap().to_string());
        assert_eq!(extension(path), ext, "extension in {:?}", path);
    }
}

#[test]
fn test_whitespace_agrees_with_the_standard_library() {
    for c in '\0'..='\u{ffff}' {
        assert_eq!(is_whitespace(c), c.is_whitespace(), "{:?}", c);
    }
}

#[test]
fn test_numbers_are_decimal() {
    for n in [0, 9, 10, 99, 100, 12345, u64::MAX] {
        assert_eq!(number(n), n.to_string());
    }
}

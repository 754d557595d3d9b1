//! The syntax of lines that are read in any order.
use branchdiff::diff::DiffLine;
use branchdiff::diff::LineSource;
use branchdiff::syntax::MAX_HIGHLIGHT_LINE_LEN;
use branchdiff::syntax::SyntaxHighlighter;
use branchdiff::syntax::SyntaxSegment;
use branchdiff::syntax::cache::HighlightCache;
use branchdiff::syntax::highlight_line;
use std::sync::Arc;

fn line(content: &str, path: &str) -> DiffLine {
    let mut line = DiffLine::new(LineSource::Base, content.to_string(), ' ', None);
    line.file_path = Some(path.to_string());
    line
}

fn text_of(segments: &[SyntaxSegment]) -> String {
    segments.iter().map(|s| s.text.as_str()).collect()
}

/// Content chosen to poke at the ways a segment split can go wrong:
/// multi-byte text, wide glyphs, combining marks, tabs, unterminated
/// constructs, blank and whitespace-only lines.
const AWKWARD: &[&str] = &[
    "fn main() { let s = \"hi\"; }",
    "",
    "   ",
    "\tindented\twith\ttabs",
    "let s = \"日本語のテキスト\";",
    "// emoji 🎉 and a combining é",
    "let s = \"unterminated",
    "still inside it",
    "closed\"; // done",
    "**bold** and `code` and [a link](http://example.com)",
    "- a list item",
    "```rust",
    "let inside_a_fence = 1;",
    "```",
];

/// Fragments that open and close constructs of more than one line.
const FRAGMENTS: &[&str] = &[
    "\"", "'", "`", "/*", "*/", "//", "```", "```rust",
    "#", "<!--", "-->", "let x = 1;", "fn f() {", "}",
    "   ", "\t", "日本語", "🎉", "- item", "",
];

/// Over arbitrary lines, read in the order in which a scroll reads them, the cache reproduces each
/// line and colours it as the streaming highlighter does.
#[test]
fn agrees_with_the_streaming_highlighter_over_arbitrary_lines() {
    let mut seed: u64 = 7;
    let mut next = |below: u64| {
        seed = seed.wrapping_mul(6364136223846793005).wrapping_add(1442695040888963407);
        (seed >> 33) % below
    };
    let mut highlighter = SyntaxHighlighter::new();
    let mut cache = HighlightCache::new();
    for _ in 0..64 {
        let mut contents: Vec<String> = Vec::new();
        for _ in 0..1 + next(19) {
            let mut content = String::new();
            for _ in 0..next(6) {
                content.push_str(FRAGMENTS[next(FRAGMENTS.len() as u64) as usize]);
            }
            contents.push(content);
        }
        // Some behaviours are invisible in Rust and Markdown and only show up in the others.
        for path in ["a.rs", "notes.md", "s.js", "p.py", "q.sql"] {
            let lines: Vec<DiffLine> = contents.iter().map(|s| line(s, path)).collect();
            highlighter.reset();
            cache.invalidate();
            for (i, content) in contents.iter().enumerate() {
                let want = highlight_line(&mut highlighter, content, Some(path));
                let got = cache.segments(&lines, i);
                assert_eq!(text_of(&got), *content);
                assert_eq!(
                    got.iter().map(|s| (s.text.clone(), s.fg_color)).collect::<Vec<_>>(),
                    want.iter().map(|s| (s.text.clone(), s.fg_color)).collect::<Vec<_>>(),
                    "line {} of {} is coloured differently", i, path
                );
            }
        }
    }
}

#[test]
fn segments_reproduce_the_line_exactly() {
    for path in ["a.rs", "notes.md", "no_extension", "x.unknownext"] {
        let mut samples: Vec<String> = AWKWARD.iter().map(|s| s.to_string()).collect();
        samples.push("x".repeat(MAX_HIGHLIGHT_LINE_LEN + 5));
        let lines: Vec<DiffLine> = samples.iter().map(|s| line(s, path)).collect();

        let mut cache = HighlightCache::new();
        for (i, sample) in samples.iter().enumerate() {
            let segments = cache.segments(&lines, i);
            assert_eq!(
                text_of(&segments),
                *sample,
                "segments did not reproduce line {i} of {path}"
            );
        }
    }
}

#[test]
fn deletion_side_segments_reproduce_their_text_exactly() {
    let lines: Vec<DiffLine> = AWKWARD.iter().map(|s| line(s, "notes.md")).collect();
    let mut cache = HighlightCache::new();
    for (i, sample) in AWKWARD.iter().enumerate() {
        let segments = cache.alt_segments(&lines, i, sample);
        assert_eq!(text_of(&segments), *sample, "deletion side dropped text on line {i}");
    }
}

#[test]
fn matches_the_streaming_highlighter_it_replaced() {
    for path in ["a.rs", "notes.md"] {
        let lines: Vec<DiffLine> = AWKWARD.iter().map(|s| line(s, path)).collect();

        let mut highlighter = SyntaxHighlighter::new();
        let expected: Vec<Vec<SyntaxSegment>> = AWKWARD
            .iter()
            .map(|s| highlight_line(&mut highlighter, s, Some(path)))
            .collect();

        let mut cache = HighlightCache::new();
        for (i, want) in expected.iter().enumerate() {
            let got = cache.segments(&lines, i);
            assert_eq!(
                got.iter().map(|s| (s.text.clone(), s.fg_color)).collect::<Vec<_>>(),
                want.iter().map(|s| (s.text.clone(), s.fg_color)).collect::<Vec<_>>(),
                "line {i} of {path} is coloured differently than by the streaming highlighter"
            );
        }
    }
}

#[test]
fn a_line_terminated_construct_does_not_bleed_into_the_lines_below() {
    let lines = vec![
        line("const s = \"unterminated", "test.js"),
        line("const AFTER = [];", "test.js"),
    ];

    let mut cache = HighlightCache::new();
    let opener = cache.segments(&lines, 0);
    let after = cache.segments(&lines, 1);

    let string_colour = opener
        .iter()
        .find(|s| s.text.contains("unterminated"))
        .expect("the opening line should have string content")
        .fg_color;

    assert!(
        after.iter().any(|s| s.fg_color != string_colour),
        "the line below is entirely coloured as the unterminated string: {after:?}"
    );
}

#[test]
fn highlights_a_line() {
    let lines = vec![line("fn main() {}", "a.rs")];
    let mut cache = HighlightCache::new();
    let segments = cache.segments(&lines, 0);
    assert!(segments.iter().any(|s| s.text == "fn"));
}

#[test]
fn repeat_lookup_returns_the_cached_arc() {
    let lines = vec![line("fn main() {}", "a.rs")];
    let mut cache = HighlightCache::new();
    let first = cache.segments(&lines, 0);
    let second = cache.segments(&lines, 0);
    assert!(
        Arc::ptr_eq(&first, &second),
        "second lookup re-parsed instead of hitting the cache"
    );
}

#[test]
fn scrolling_forward_parses_only_the_newly_exposed_line() {
    let lines: Vec<DiffLine> = (0..50).map(|i| line(&format!("let x{i} = {i};"), "a.rs")).collect();
    let mut cache = HighlightCache::new();

    // Prime a window, as a first frame would.
    for i in 0..40 {
        cache.segments(&lines, i);
    }
    let before: Vec<_> = (0..40).map(|i| cache.segments(&lines, i)).collect();

    // The next row down: only line 40 is new.
    cache.segments(&lines, 40);

    for (i, segments) in before.iter().enumerate() {
        assert!(
            Arc::ptr_eq(segments, &cache.segments(&lines, i)),
            "line {i} was re-parsed by a one-row scroll"
        );
    }
}

#[test]
fn state_carries_across_lines_scrolled_through_in_order() {
    // The string opens on one line and closes on the next; the middle line
    // is only coloured as a string if the parser state carried over.
    let lines = vec![
        line("let s = \"open", "a.rs"),
        line("still inside the string", "a.rs"),
        line("closed\";", "a.rs"),
    ];
    let mut cache = HighlightCache::new();
    cache.segments(&lines, 0);
    let middle = cache.segments(&lines, 1);

    let plain = {
        let solo = vec![line("still inside the string", "a.rs")];
        HighlightCache::new().segments(&solo, 0)
    };
    assert_ne!(
        middle.iter().map(|s| s.fg_color).collect::<Vec<_>>(),
        plain.iter().map(|s| s.fg_color).collect::<Vec<_>>(),
        "continuation line was not coloured in its predecessor's context"
    );
}

#[test]
fn a_cold_jump_parses_only_the_line_it_landed_on() {
    let lines: Vec<DiffLine> = (0..500)
        .map(|i| line(&format!("let x{i} = {i};"), "a.rs"))
        .collect();

    let mut cache = HighlightCache::new();
    cache.segments(&lines, 400);

    assert_eq!(
        cache.parse_count(),
        1,
        "the jump parsed lines behind the one it landed on"
    );
}

#[test]
fn context_is_inherited_from_already_cached_lines() {
    let lines = vec![
        line("/* block comment opens", "a.rs"),
        line("still commented", "a.rs"),
        line("closes */ let x = 1;", "a.rs"),
    ];

    let mut cache = HighlightCache::new();
    cache.segments(&lines, 0);
    cache.segments(&lines, 1);
    let after_scrolling = cache.segments(&lines, 2);

    // Cold, the same line has no predecessor to inherit from.
    let cold = HighlightCache::new().segments(&lines, 2);

    assert_ne!(
        after_scrolling.iter().map(|s| s.fg_color).collect::<Vec<_>>(),
        cold.iter().map(|s| s.fg_color).collect::<Vec<_>>(),
        "scrolling in gained no context over landing cold"
    );
    assert_eq!(cache.parse_count(), 3, "inheriting context re-parsed something");
}

#[test]
fn a_files_chain_does_not_leak_into_the_next() {
    let lines = vec![
        line("let s = \"unterminated", "a.rs"),
        line("fn main() {}", "b.rs"),
    ];
    let mut cache = HighlightCache::new();
    let second = cache.segments(&lines, 1);

    let alone = HighlightCache::new().segments(&[line("fn main() {}", "b.rs")], 0);
    assert_eq!(
        second.iter().map(|s| s.fg_color).collect::<Vec<_>>(),
        alone.iter().map(|s| s.fg_color).collect::<Vec<_>>(),
        "the previous file's open string bled across the file boundary"
    );
}

#[test]
fn a_header_does_not_change_the_colours_below_it() {
    let mut header = DiffLine::file_header("a.rs");
    header.file_path = Some("a.rs".to_string());
    let lines = vec![header, line("fn main() {}", "a.rs")];

    let mut cache = HighlightCache::new();
    cache.segments(&lines, 0);
    let after_header = cache.segments(&lines, 1);
    let alone = HighlightCache::new().segments(&[line("fn main() {}", "a.rs")], 0);

    assert_eq!(
        after_header.iter().map(|s| s.fg_color).collect::<Vec<_>>(),
        alone.iter().map(|s| s.fg_color).collect::<Vec<_>>(),
    );
}

#[test]
fn over_long_lines_are_not_parsed() {
    let huge = "a".repeat(MAX_HIGHLIGHT_LINE_LEN + 1);
    let lines = vec![line(&huge, "a.rs")];
    let mut cache = HighlightCache::new();
    let segments = cache.segments(&lines, 0);
    assert_eq!(segments.len(), 1);
    // Asserted on the parser, not the colour: `DEFAULT_FG` is the same
    // RGB the theme gives unstyled text, so a colour check here passes
    // whether or not the line was parsed.
    assert_eq!(cache.parse_count(), 0, "an over-long line was parsed");
}

#[test]
fn the_length_threshold_includes_the_line_that_sits_exactly_on_it() {
    let at = "a".repeat(MAX_HIGHLIGHT_LINE_LEN);
    let over = "a".repeat(MAX_HIGHLIGHT_LINE_LEN + 1);
    let lines = vec![line(&at, "a.rs"), line(&over, "a.rs")];

    let mut cache = HighlightCache::new();
    cache.segments(&lines, 0);
    assert_eq!(
        cache.parse_count(),
        1,
        "a line exactly at the threshold was skipped"
    );
    cache.segments(&lines, 1);
    assert_eq!(
        cache.parse_count(),
        1,
        "a line one byte past the threshold was parsed"
    );
}

#[test]
fn chrome_lines_are_never_handed_to_the_parser() {
    let mut header = DiffLine::file_header("a.rs");
    header.file_path = Some("a.rs".to_string());

    let mut elided = DiffLine::new(LineSource::Elided, "42 lines hidden".into(), ' ', None);
    elided.file_path = Some("a.rs".to_string());

    let mut image = DiffLine::new(LineSource::Base, "[image]".into(), ' ', None);
    image.file_path = Some("a.rs".to_string());

    let lines = vec![header, elided, image];
    let mut cache = HighlightCache::new();
    for i in 0..lines.len() {
        cache.segments(&lines, i);
    }

    assert_eq!(cache.parse_count(), 0, "chrome was parsed as source");
}

#[test]
fn over_long_lines_do_not_disturb_the_lines_after_them() {
    let huge = "a".repeat(MAX_HIGHLIGHT_LINE_LEN + 1);
    let lines = vec![line(&huge, "a.rs"), line("fn main() {}", "a.rs")];
    let mut cache = HighlightCache::new();
    let after = cache.segments(&lines, 1);
    assert!(after.iter().any(|s| s.text == "fn"));
}

#[test]
fn empty_lines_produce_no_segments() {
    let lines = vec![line("", "a.rs")];
    assert!(HighlightCache::new().segments(&lines, 0).is_empty());
}

#[test]
fn blank_lines_are_never_parsed() {
    let lines = vec![
        line("# Heading", "notes.md"),
        line("", "notes.md"),
        line("Some prose.", "notes.md"),
        line("", "notes.md"),
        line("More prose.", "notes.md"),
    ];

    let mut cache = HighlightCache::new();
    for i in 0..lines.len() {
        cache.segments(&lines, i);
    }

    assert_eq!(
        cache.parse_count(),
        3,
        "the two blank lines were handed to the parser"
    );
}

#[test]
fn out_of_range_index_is_empty() {
    let lines = vec![line("fn main() {}", "a.rs")];
    assert!(HighlightCache::new().segments(&lines, 7).is_empty());
}

#[test]
fn revisiting_cached_lines_parses_nothing() {
    let lines: Vec<DiffLine> = (0..400)
        .map(|i| line(&format!("let x{i} = {i};"), "a.rs"))
        .collect();

    let mut cache = HighlightCache::new();
    for i in 0..400 {
        cache.segments(&lines, i);
    }

    // Every line is cached, so re-reading any of them parses nothing,
    // however large the region or whichever direction it is read in.
    let settled = cache.parse_count();
    for i in (0..400).rev() {
        cache.segments(&lines, i);
    }
    assert_eq!(cache.parse_count(), settled);
}

#[test]
fn scrolling_over_modified_lines_stays_at_a_constant_cost() {
    let lines: Vec<DiffLine> = (0..120)
        .map(|i| line(&format!("let x{i} = new_value_{i};"), "a.rs"))
        .collect();

    let mut cache = HighlightCache::new();
    // Prime a viewport's worth.
    for i in 0..40 {
        cache.segments(&lines, i);
        cache.alt_segments(&lines, i, &format!("let x{i} = old_value_{i};"));
    }

    let before = cache.parse_count();
    for i in 40..80 {
        cache.segments(&lines, i);
        cache.alt_segments(&lines, i, &format!("let x{i} = old_value_{i};"));
    }
    let per_line = (cache.parse_count() - before) as f64 / 40.0;

    assert!(
        per_line <= 3.0,
        "each newly exposed modified line cost {per_line} parses; \
         expected ~2 (the line itself plus its deletion side)"
    );
}

#[test]
fn exit_states_are_kept_sparsely() {
    let lines: Vec<DiffLine> = (0..200).map(|i| line(&format!("let x{i} = {i};"), "a.rs")).collect();
    let mut cache = HighlightCache::new();
    for i in 0..200 {
        cache.segments(&lines, i);
    }

    let kept = cache.stored_states();
    // 13 checkpoints across 200 lines on a 16-line grid, plus the two-line
    // frontier window. Written flat rather than derived from
    // `CHECKPOINT_EVERY`, so widening the grid cannot move the bound and
    // the expectation together.
    assert_eq!(
        kept, 15,
        "expected 15 stored exit states across 200 lines, found {kept}"
    );
}

#[test]
fn deletion_side_is_coloured_in_the_context_its_line_was_entered_in() {
    // The deleted text sat inside a string that opens on the line above,
    // so it must be coloured as string contents — not as fresh code.
    let lines = vec![
        line("let s = \"open", "a.rs"),
        line("let x = 1;", "a.rs"),
    ];
    let mut cache = HighlightCache::new();
    cache.segments(&lines, 0);
    let inside_string = cache.alt_segments(&lines, 1, "let y = 2;");

    let solo = vec![line("let y = 2;", "a.rs")];
    let standalone = HighlightCache::new().alt_segments(&solo, 0, "let y = 2;");

    assert_ne!(
        inside_string.iter().map(|s| s.fg_color).collect::<Vec<_>>(),
        standalone.iter().map(|s| s.fg_color).collect::<Vec<_>>(),
        "deletion side ignored the context its line sat in"
    );
}

#[test]
fn invalidate_drops_cached_segments() {
    let lines = vec![line("fn main() {}", "a.rs")];
    let mut cache = HighlightCache::new();
    let first = cache.segments(&lines, 0);
    cache.invalidate();
    let second = cache.segments(&lines, 0);
    assert!(!Arc::ptr_eq(&first, &second));
    assert_eq!(text_of(&first), text_of(&second));
}

#[test]
fn a_change_in_line_count_drops_stale_entries() {
    let mut cache = HighlightCache::new();
    let before = vec![line("fn main() {}", "a.rs")];
    let first = cache.segments(&before, 0);

    let after = vec![line("fn other() {}", "a.rs"), line("let x = 1;", "a.rs")];
    let second = cache.segments(&after, 0);

    assert!(!Arc::ptr_eq(&first, &second));
    assert_eq!(text_of(&second), "fn other() {}");
}

#[test]
fn alt_segments_highlight_the_deletion_side() {
    let lines = vec![line("let x = 2;", "a.rs")];
    let mut cache = HighlightCache::new();
    let del = cache.alt_segments(&lines, 0, "let x = 1;");
    assert_eq!(text_of(&del), "let x = 1;");
    assert!(del.iter().any(|s| s.text == "let"));
}

#[test]
fn alt_segments_do_not_advance_the_main_chain() {
    let lines = vec![line("let a = 1;", "a.rs"), line("fn main() {}", "a.rs")];
    let mut cache = HighlightCache::new();

    let expected = HighlightCache::new().segments(&lines, 1);
    cache.alt_segments(&lines, 0, "let s = \"unterminated");
    let actual = cache.segments(&lines, 1);

    assert_eq!(
        actual.iter().map(|s| s.fg_color).collect::<Vec<_>>(),
        expected.iter().map(|s| s.fg_color).collect::<Vec<_>>(),
        "deletion-side text leaked into the following line's context"
    );
}

#[test]
fn a_change_in_line_count_drops_stale_alt_entries() {
    let mut cache = HighlightCache::new();
    let before = vec![line("let x = 2;", "a.rs")];
    cache.alt_segments(&before, 0, "let x = 1;");

    let after = vec![line("let y = 2;", "a.rs"), line("let z = 3;", "a.rs")];
    let second = cache.alt_segments(&after, 0, "let y = 1;");

    assert_eq!(
        text_of(&second),
        "let y = 1;",
        "the deletion side served text from the previous set of lines"
    );
}

#[test]
fn alt_segments_are_cached() {
    let lines = vec![line("let x = 2;", "a.rs")];
    let mut cache = HighlightCache::new();
    let first = cache.alt_segments(&lines, 0, "let x = 1;");
    let second = cache.alt_segments(&lines, 0, "let x = 1;");
    assert!(Arc::ptr_eq(&first, &second));
}

#[test]
fn alt_segments_skip_over_long_content() {
    let huge = "a".repeat(MAX_HIGHLIGHT_LINE_LEN + 1);
    let lines = vec![line("let x = 2;", "a.rs")];
    let mut cache = HighlightCache::new();
    cache.segments(&lines, 0);
    let before = cache.parse_count();

    let del = cache.alt_segments(&lines, 0, &huge);
    assert_eq!(del.len(), 1);
    assert_eq!(
        cache.parse_count(),
        before,
        "over-long deletion text was parsed"
    );
}

#[test]
fn the_deletion_side_threshold_includes_the_length_that_sits_exactly_on_it() {
    let at = "a".repeat(MAX_HIGHLIGHT_LINE_LEN);
    let over = "a".repeat(MAX_HIGHLIGHT_LINE_LEN + 1);
    let lines = vec![line("let a = 1;", "a.rs"), line("let b = 2;", "a.rs")];

    let mut cache = HighlightCache::new();
    cache.segments(&lines, 0);
    cache.segments(&lines, 1);
    let before = cache.parse_count();

    cache.alt_segments(&lines, 0, &at);
    assert_eq!(
        cache.parse_count(),
        before + 1,
        "deletion text exactly at the threshold was skipped"
    );

    cache.alt_segments(&lines, 1, &over);
    assert_eq!(
        cache.parse_count(),
        before + 1,
        "deletion text past the threshold was parsed"
    );
}

#[test]
fn the_longest_possible_context_walk_still_reaches_a_checkpoint() {
    let lines: Vec<DiffLine> = (0..400)
        .map(|i| line(&format!("let x{i} = {i};"), "a.rs"))
        .collect();

    let mut cache = HighlightCache::new();
    for i in 0..400 {
        cache.segments(&lines, i);
    }
    let before = cache.parse_count();

    // Line 47 sits 15 past the checkpoint at 32 — the furthest a walk can
    // ever be from one. Re-deriving its entry state replays lines 33..=46,
    // and the deleted text itself is the fifteenth parse. Written flat: if
    // it were derived from the constants, shrinking the backstop below the
    // grid spacing would move the expectation along with the behaviour.
    cache.alt_segments(&lines, 47, "let x47 = was;");

    assert_eq!(
        cache.parse_count() - before,
        15,
        "the walk back gave up before reaching the checkpoint behind it"
    );
}

#[test]
fn the_deletion_side_counts_its_own_parse_and_the_context_it_re_derives() {
    let lines: Vec<DiffLine> = (0..40)
        .map(|i| line(&format!("let x{i} = {i};"), "a.rs"))
        .collect();

    let mut cache = HighlightCache::new();
    for i in 0..40 {
        cache.segments(&lines, i);
    }
    let before = cache.parse_count();

    // Line 35 is cached but holds no exit state: it is neither a
    // checkpoint (32 is the nearest behind it) nor inside the two-line
    // frontier window left at 38/39. So reaching its entry state re-derives
    // lines 33 and 34, and the deleted text itself is the third parse.
    cache.alt_segments(&lines, 35, "let x35 = was;");

    assert_eq!(
        cache.parse_count() - before,
        3,
        "the deletion side did not count its re-derived context"
    );
}

/// Also around lines that are too long, the cache agrees with the streaming highlighter.
#[test]
fn agrees_with_the_streaming_highlighter_around_lines_that_are_too_long() {
    let long = format!("/* {}", "a".repeat(MAX_HIGHLIGHT_LINE_LEN));
    let contents = ["let s = \"open", long.as_str(), "still open", "closed\"; let x = 1;"];
    let lines: Vec<DiffLine> = contents.iter().map(|s| line(s, "a.rs")).collect();
    let mut highlighter = SyntaxHighlighter::new();
    let mut cache = HighlightCache::new();
    for (i, content) in contents.iter().enumerate() {
        let want = highlight_line(&mut highlighter, content, Some("a.rs"));
        let got = cache.segments(&lines, i);
        assert_eq!(
            got.iter().map(|s| (s.text.clone(), s.fg_color)).collect::<Vec<_>>(),
            want.iter().map(|s| (s.text.clone(), s.fg_color)).collect::<Vec<_>>(),
        );
    }
}

//! Modified lines: what changed in them, and how that is shown.
use branchdiff::diff::InlineSpan;
use branchdiff::diff::LineSource;
use branchdiff::style::Color;
use branchdiff::style::Style;
use branchdiff::syntax::SyntaxHighlighter;
use branchdiff::ui::colors::line_style;
use branchdiff::ui::colors::line_style_with_highlight;
use branchdiff::ui::spans::InlineChangeType;
use branchdiff::ui::spans::build_deletion_spans_with_highlight;
use branchdiff::ui::spans::build_insertion_spans_with_highlight;
use branchdiff::ui::spans::classify_inline_change;
use branchdiff::ui::simple_view;
use branchdiff::ui::spans::coalesce_spans;
use branchdiff::ui::spans::get_deletion_source;
use branchdiff::ui::spans::get_insertion_source;
use branchdiff::ui::spans::inline_display_width;
use branchdiff::ui::spans::is_fragmented;
use branchdiff::ui::spans::should_preserve_as_prefix;
use branchdiff::ui::spans::should_preserve_as_suffix;
use branchdiff::ui::spans::syntax_highlight_content;
use branchdiff::ui::spans::syntax_highlight_inline_spans;

fn make_span(text: &str, source: Option<LineSource>, is_deletion: bool) -> InlineSpan {
    InlineSpan {
        text: text.to_string(),
        source,
        is_deletion,
    }
}

/// Compares two lines character by character: what they have in common is as long as can be.
fn inline_diff(before: &str, after: &str, source: LineSource) -> Vec<InlineSpan> {
    let a: Vec<char> = before.chars().collect();
    let b: Vec<char> = after.chars().collect();
    let mut common = vec![vec![0usize; b.len() + 1]; a.len() + 1];
    for i in (0..a.len()).rev() {
        for j in (0..b.len()).rev() {
            common[i][j] = if a[i] == b[j] {
                common[i + 1][j + 1] + 1
            } else {
                common[i + 1][j].max(common[i][j + 1])
            };
        }
    }
    let mut spans: Vec<InlineSpan> = Vec::new();
    let (mut i, mut j) = (0, 0);
    while i < a.len() || j < b.len() {
        let (c, kind, is_deletion) = if i < a.len() && j < b.len() && a[i] == b[j] {
            i += 1;
            j += 1;
            (b[j - 1], None, false)
        } else if i < a.len() && (j == b.len() || common[i + 1][j] >= common[i][j + 1]) {
            i += 1;
            (a[i - 1], Some(LineSource::DeletedBase), true)
        } else {
            j += 1;
            (b[j - 1], Some(source), false)
        };
        match spans.last_mut() {
            Some(last) if last.source == kind && last.is_deletion == is_deletion => last.text.push(c),
            _ => spans.push(make_span(&c.to_string(), kind, is_deletion)),
        }
    }
    spans
}

/// Coalescing rearranges the text of both sides and loses none of it.
#[test]
fn coalescing_keeps_both_texts() {
    let before = "context \"when cancellation clause value is given\" do";
    let after = "context \"when bond cannot be expired\" do";
    let spans = coalesce_spans(&inline_diff(before, after, LineSource::Committed));
    let mut texts = (String::new(), String::new());
    for span in &spans {
        if span.is_deletion {
            texts.0.push_str(&span.text);
        } else if span.source.is_some() {
            texts.1.push_str(&span.text);
        } else {
            texts.0.push_str(&span.text);
            texts.1.push_str(&span.text);
        }
    }
    assert_eq!(texts.0, before);
    assert_eq!(texts.1, after);
}

#[test]
fn preserved_prefixes_and_suffixes() {
    assert!(should_preserve_as_prefix("  "));
    assert!(should_preserve_as_prefix("prefix"));
    assert!(should_preserve_as_prefix("äöüßé"));
    assert!(!should_preserve_as_prefix("c"));
    assert!(!should_preserve_as_prefix("äöü"));
    assert!(should_preserve_as_suffix(");"));
    assert!(should_preserve_as_suffix("suffix"));
    assert!(!should_preserve_as_suffix("d"));
}

#[test]
fn test_syntax_highlight_content_rust() {
    let mut highlighter = SyntaxHighlighter::new();
    let base_style = Style::default().bg(Color::Rgb(25, 50, 50));
    let spans = syntax_highlight_content("fn main() {}", Some("test.rs"), base_style, &mut highlighter);

    assert!(!spans.is_empty());
    // Should preserve background from base_style
    for span in &spans {
        assert_eq!(span.style.bg, Some(Color::Rgb(25, 50, 50)));
    }
}

#[test]
fn test_syntax_highlight_content_empty() {
    let mut highlighter = SyntaxHighlighter::new();
    let base_style = Style::default();
    let spans = syntax_highlight_content("", Some("test.rs"), base_style, &mut highlighter);

    assert!(spans.is_empty());
}

#[test]
fn test_syntax_highlight_content_no_file_path() {
    let mut highlighter = SyntaxHighlighter::new();
    let base_style = Style::default();
    let spans = syntax_highlight_content("some text", None, base_style, &mut highlighter);

    // Should still work without file path (plain text)
    assert!(!spans.is_empty());
}

#[test]
fn test_syntax_highlight_inline_spans_unchanged() {
    let mut highlighter = SyntaxHighlighter::new();
    let inline_spans = vec![
        InlineSpan {
            text: "fn test()".to_string(),
            source: None,
            is_deletion: false,
        },
    ];

    let base_style = Style::default().bg(Color::Rgb(25, 50, 50));
    let highlight_style = Style::default().bg(Color::Rgb(50, 100, 100));

    let spans = syntax_highlight_inline_spans(
        &inline_spans,
        "fn test()",
        Some("test.rs"),
        base_style,
        highlight_style,
        &mut highlighter,
    );

    assert!(!spans.is_empty());
    // Unchanged spans should use base_style background
    for span in &spans {
        assert_eq!(span.style.bg, Some(Color::Rgb(25, 50, 50)));
    }
}

#[test]
fn test_syntax_highlight_inline_spans_with_changes() {
    let mut highlighter = SyntaxHighlighter::new();
    let inline_spans = vec![
        InlineSpan {
            text: "let ".to_string(),
            source: None,
            is_deletion: false,
        },
        InlineSpan {
            text: "x".to_string(),
            source: Some(LineSource::Committed),
            is_deletion: false,
        },
        InlineSpan {
            text: " = 1;".to_string(),
            source: None,
            is_deletion: false,
        },
    ];

    let base_style = Style::default().bg(Color::Rgb(25, 50, 50));
    let highlight_style = Style::default().bg(Color::Rgb(50, 100, 100));

    let spans = syntax_highlight_inline_spans(
        &inline_spans,
        "let x = 1;",
        Some("test.rs"),
        base_style,
        highlight_style,
        &mut highlighter,
    );

    assert!(!spans.is_empty());
    // Should have mix of base and highlight backgrounds
    let has_base_bg = spans.iter().any(|s| s.style.bg == Some(Color::Rgb(25, 50, 50)));
    let has_highlight_bg = spans.iter().any(|s| s.style.bg == Some(Color::Rgb(50, 100, 100)));
    assert!(has_base_bg, "Should have spans with base background");
    assert!(has_highlight_bg, "Should have spans with highlight background");
}

#[test]
fn test_syntax_highlight_inline_spans_skips_deletions() {
    let mut highlighter = SyntaxHighlighter::new();
    let inline_spans = vec![
        InlineSpan {
            text: "old".to_string(),
            source: Some(LineSource::DeletedBase),
            is_deletion: true,
        },
        InlineSpan {
            text: "new".to_string(),
            source: Some(LineSource::Committed),
            is_deletion: false,
        },
    ];

    let base_style = Style::default();
    let highlight_style = Style::default().bg(Color::Rgb(50, 100, 100));

    let spans = syntax_highlight_inline_spans(
        &inline_spans,
        "new",
        Some("test.rs"),
        base_style,
        highlight_style,
        &mut highlighter,
    );

    // Should only contain "new", not "old"
    let all_text: String = spans.iter().map(|s| s.content.to_string()).collect();
    assert_eq!(all_text, "new");
}

#[test]
fn test_syntax_highlight_inline_spans_empty_input() {
    let mut highlighter = SyntaxHighlighter::new();
    let inline_spans: Vec<InlineSpan> = vec![];

    let base_style = Style::default();
    let highlight_style = Style::default().bg(Color::Rgb(50, 100, 100));

    let spans = syntax_highlight_inline_spans(
        &inline_spans,
        "",
        Some("test.rs"),
        base_style,
        highlight_style,
        &mut highlighter,
    );

    assert!(spans.is_empty());
}

#[test]
fn spans_test_is_fragmented_few_spans_not_fragmented() {
    // Only 2 spans - not fragmented
    let spans = vec![
        make_span("hello", Some(LineSource::DeletedBase), true),
        make_span("world", Some(LineSource::Committed), false),
    ];
    assert!(!is_fragmented(&spans));
}

#[test]
fn spans_test_is_fragmented_single_change_region_not_fragmented() {
    // Single change region (deletion + insertion together) - not fragmented
    // Pattern: change, change, unchanged - one contiguous change region
    let spans = vec![
        make_span("world", Some(LineSource::DeletedBase), true),
        make_span("earth", Some(LineSource::Committed), false),
        make_span(" hello ", None, false),
    ];
    assert!(!is_fragmented(&spans));
}

#[test]
fn spans_test_is_fragmented_two_change_regions_is_fragmented() {
    // Two separate change regions - fragmented
    // Pattern: unchanged, change, unchanged, change (two change regions)
    let spans = vec![
        make_span("c", None, false),                                    // unchanged
        make_span("b", Some(LineSource::Committed), false),             // change region 1
        make_span("ommercial_renewal", None, false),                    // unchanged
        make_span("d", Some(LineSource::Committed), false),             // change region 2
    ];
    assert!(is_fragmented(&spans));
}

#[test]
fn spans_test_is_fragmented_commercial_renewal_to_bond() {
    // Real case: commercial_renewal -> bond with scattered char matches
    // Pattern: unchanged(c), deleted+inserted, unchanged(on), inserted(d)
    let spans = vec![
        make_span("c", None, false),                                    // unchanged
        make_span("ommercial_renewal", Some(LineSource::DeletedBase), true), // change region 1
        make_span("b", Some(LineSource::Committed), false),             // still in change region 1
        make_span("on", None, false),                                   // unchanged - exits region 1
        make_span("d", Some(LineSource::Committed), false),             // change region 2
    ];
    assert!(is_fragmented(&spans));
}

#[test]
fn spans_test_coalesce_spans_not_fragmented_returns_original() {
    let spans = vec![
        make_span("hello ", None, false),
        make_span("world", Some(LineSource::DeletedBase), true),
        make_span("earth", Some(LineSource::Committed), false),
    ];
    let result = coalesce_spans(&spans);
    assert_eq!(result.len(), 3);
    assert_eq!(result[0].text, "hello ");
    assert_eq!(result[1].text, "world");
    assert_eq!(result[2].text, "earth");
}

#[test]
fn spans_test_coalesce_spans_fragmented_preserves_structural_prefix_suffix() {
    // Fragmented case with structural prefix (whitespace) and suffix (punctuation)
    // Only structural chars (whitespace, punctuation) are preserved as prefix/suffix
    // Non-structural chars like letters get included in coalesced region

    let spans = vec![
        make_span("  ", None, false),       // structural prefix (spaces) - KEEP
        make_span("bc", Some(LineSource::DeletedBase), true),  // deleted - first change
        make_span("x", Some(LineSource::Committed), false),    // inserted
        make_span("d", None, false),        // unchanged (in fragmented region)
        make_span("e", Some(LineSource::DeletedBase), true),   // deleted
        make_span("yz", Some(LineSource::Committed), false),   // inserted - last change
        make_span(");", None, false),       // structural suffix (punctuation) - KEEP
    ];

    let result = coalesce_spans(&spans);

    // Should be: spaces, coalesced_old, coalesced_new, punctuation
    assert_eq!(result.len(), 4, "Expected structural_prefix + old + new + structural_suffix");
    assert_eq!(result[0].text, "  ");
    assert!(result[0].source.is_none()); // unchanged
    assert!(result[1].is_deletion);
    assert_eq!(result[1].text, "bcde"); // coalesced old
    assert!(!result[2].is_deletion);
    assert_eq!(result[2].text, "xdyz"); // coalesced new
    assert_eq!(result[3].text, ");");
    assert!(result[3].source.is_none()); // unchanged
}

#[test]
fn spans_test_coalesce_spans_includes_nonstructural_prefix_in_coalesce() {
    // Non-structural prefix chars (like a single 'c') should be included in coalesced region
    // This handles the "cancellation" -> "clause" case where 'c' is coincidental
    // Need 4+ spans and 2+ change regions to trigger fragmentation detection

    let spans = vec![
        make_span("c", None, false),        // non-structural - gets coalesced
        make_span("ancellation", Some(LineSource::DeletedBase), true), // change region 1
        make_span("l", None, false),        // unchanged in middle
        make_span("ause", Some(LineSource::Committed), false), // change region 2
    ];

    let result = coalesce_spans(&spans);

    // Should coalesce everything since 'c' is not structural
    assert_eq!(result.len(), 2);
    assert!(result[0].is_deletion);
    assert_eq!(result[0].text, "cancellationl"); // c + ancellation + l
    assert!(!result[1].is_deletion);
    assert_eq!(result[1].text, "clause"); // c + l + ause
}

#[test]
fn spans_test_coalesce_spans_preserves_good_inline_diff() {
    // Good inline diff: do_thing(data) -> do_thing(data, params)
    // Should have large unchanged segment "do_thing(data" and small insertion ", params"
    let spans = vec![
        make_span("do_thing(data", None, false),
        make_span(", params", Some(LineSource::Committed), false),
        make_span(")", None, false),
    ];
    let result = coalesce_spans(&spans);

    // Should NOT coalesce - good readable diff
    assert_eq!(result.len(), 3);
    assert_eq!(result[0].text, "do_thing(data");
    assert_eq!(result[1].text, ", params");
    assert_eq!(result[2].text, ")");
}

#[test]
fn spans_test_real_world_commercial_renewal_to_bond() {
    // Real example: "  commercial_renewal.principal_mailing_address" -> "  bond.description"
    // The character diff would scatter shared chars (o, n, i, etc.)
    // Simulate what a character diff might produce (simplified):
    let spans = vec![
        make_span("  ", None, false),           // structural prefix (spaces) - PRESERVED
        make_span("c", None, false),            // non-structural - gets coalesced (coincidental match)
        make_span("ommercial_renewal.principal_mailing_address", Some(LineSource::DeletedBase), true),
        make_span("b", Some(LineSource::Committed), false),
        make_span("o", None, false),
        make_span("n", None, false),
        make_span("d.des", Some(LineSource::Committed), false),
        make_span("c", None, false),
        make_span("r", Some(LineSource::Committed), false),
        make_span("i", None, false),
        make_span("ption", Some(LineSource::Committed), false),
    ];

    let result = coalesce_spans(&spans);

    // Should preserve only structural prefix (spaces), coalesce everything else
    // The 'c' gets included in coalesced region since it's not structural
    assert_eq!(result.len(), 3, "Should have: spaces + coalesced_old + coalesced_new");
    assert_eq!(result[0].text, "  ");
    assert!(result[1].is_deletion);
    // Old text includes: c + ommercial... + o + n + c + i = "commercial_renewal..."
    assert!(result[1].text.starts_with("commercial_renewal"));
    assert!(!result[2].is_deletion);
    // New text includes: c + b + o + n + d.des + c + r + i + ption = "bond.description"
}

#[test]
fn spans_test_inline_diff_commercial_renewal_to_bond_coalesces() {
    let old = "BDEFF: date_for_display(commercial_renewal.effective_date),";
    let new = "BDEFF: date_for_display(bond.effective_date),";

    let result = inline_diff(old, new, LineSource::Committed);


    let coalesced = coalesce_spans(&result);


    // We should have structural prefix preserved, then coalesced old/new, then structural suffix
    // Prefix: "BDEFF: date_for_display("
    // Old: "commercial_renewal"
    // New: "bond"
    // Suffix: ".effective_date),"

    // Find the deletion span
    let deletion = coalesced.iter().find(|s| s.is_deletion);
    assert!(deletion.is_some(), "Should have a deletion span");
    let deletion = deletion.unwrap();

    // The deletion should contain "commercial_renewal", not scattered chars
    assert!(
        deletion.text.contains("commercial_renewal") || deletion.text == "commercial_renewal",
        "Deletion should be 'commercial_renewal', got: {:?}", deletion.text
    );

    // Find the insertion span
    let insertion = coalesced.iter().find(|s| s.source.is_some() && !s.is_deletion);
    assert!(insertion.is_some(), "Should have an insertion span");
    let insertion = insertion.unwrap();

    // The insertion should contain "bond", not scattered chars
    assert!(
        insertion.text.contains("bond") || insertion.text == "bond",
        "Insertion should be 'bond', got: {:?}", insertion.text
    );
}

#[test]
fn spans_test_inline_diff_commercial_bond_to_bond() {
    // Exact user case: "@commercial_bond = commercial_bond" -> "@bond = bond"
    // The display was showing: "@commercial_bond = commercial_bondbond = bond"

    let old = "@commercial_bond = commercial_bond";
    let new = "@bond = bond";

    let result = inline_diff(old, new, LineSource::Committed);


    let coalesced = coalesce_spans(&result);


    // Build display string to verify no garbled output
    let display: String = coalesced.iter().map(|s| s.text.as_str()).collect();

    // The display should NOT contain the old text concatenated with new text
    assert!(
        !display.contains("commercial_bondbond"),
        "Display should NOT contain 'commercial_bondbond' (garbled), got: {}",
        display
    );
}

#[test]
fn spans_test_inline_diff_cancellation_to_clause_coalesces() {
    let old = "context \"when cancellation clause value is given\" do";
    let new = "context \"when bond cannot be expired\" do";

    let result = inline_diff(old, new, LineSource::Committed);


    let coalesced = coalesce_spans(&result);


    // Find the deletion span
    let deletion = coalesced.iter().find(|s| s.is_deletion);
    assert!(deletion.is_some(), "Should have a deletion span");
    let deletion = deletion.unwrap();

    // The deletion should NOT start with "ancellation" - it should include the 'c'
    assert!(
        !deletion.text.starts_with("ancellation"),
        "Deletion should NOT start with 'ancellation' (missing 'c'), got: {:?}", deletion.text
    );

    // Should contain the full word being replaced
    assert!(
        deletion.text.contains("cancellation"),
        "Deletion should contain 'cancellation', got: {:?}", deletion.text
    );
}

#[test]
fn test_coalesce_describe_inactive_to_authorization() {
    let old = r#"describe "inactive account" do"#;
    let new = r#"describe "authorization" do"#;

    let result = inline_diff(old, new, LineSource::Committed);


    let coalesced = coalesce_spans(&result);


    let deletion = coalesced.iter().find(|s| s.is_deletion);
    assert!(deletion.is_some(), "Should have a deletion span");
    let deletion = deletion.unwrap();

    assert!(
        deletion.text.contains("inactive account"),
        "Deletion should contain 'inactive account', got: {:?}", deletion.text
    );

    let insertion = coalesced.iter().find(|s| !s.is_deletion && s.source.is_some());
    assert!(insertion.is_some(), "Should have an insertion span");
    let insertion = insertion.unwrap();

    assert!(
        insertion.text.contains("authorization"),
        "Insertion should contain 'authorization', got: {:?}", insertion.text
    );

    let prefix = coalesced.first().filter(|s| s.source.is_none());
    assert!(prefix.is_some(), "Should have unchanged prefix");
    assert!(
        prefix.unwrap().text.contains("describe"),
        "Prefix should contain 'describe', got: {:?}", prefix.unwrap().text
    );

    let suffix = coalesced.last().filter(|s| s.source.is_none());
    assert!(suffix.is_some(), "Should have unchanged suffix");
    assert!(
        suffix.unwrap().text.contains(" do"),
        "Suffix should contain ' do', got: {:?}", suffix.unwrap().text
    );
}

#[test]
fn test_coalesce_let_variable_rename() {
    let old = "let(:letters_of_bondability_requests_policy)";
    let new = "let(:principal)";

    let result = inline_diff(old, new, LineSource::Committed);


    let coalesced = coalesce_spans(&result);


    let deletion = coalesced.iter().find(|s| s.is_deletion);
    assert!(deletion.is_some(), "Should have a deletion span");
    let deletion = deletion.unwrap();

    assert!(
        deletion.text.contains("letters_of_bondability_requests_policy"),
        "Deletion should contain the full variable name, got: {:?}", deletion.text
    );

    let insertion = coalesced.iter().find(|s| !s.is_deletion && s.source.is_some());
    assert!(insertion.is_some(), "Should have an insertion span");
    let insertion = insertion.unwrap();

    assert!(
        insertion.text.contains("principal"),
        "Insertion should contain 'principal', got: {:?}", insertion.text
    );

    let prefix = coalesced.first().filter(|s| s.source.is_none());
    assert!(prefix.is_some(), "Should have unchanged prefix");
    assert!(
        prefix.unwrap().text.starts_with("let(:"),
        "Prefix should start with 'let(:', got: {:?}", prefix.unwrap().text
    );

    let suffix = coalesced.last().filter(|s| s.source.is_none());
    assert!(suffix.is_some(), "Should have unchanged suffix");
    assert!(
        suffix.unwrap().text == ")",
        "Suffix should be ')', got: {:?}", suffix.unwrap().text
    );
}

#[test]
fn test_inline_display_width_simple() {
    let spans = vec![
        make_span("hello ", None, false),
        make_span("world", Some(LineSource::DeletedBase), true),
        make_span("earth", Some(LineSource::Committed), false),
    ];
    // "hello " + "world" + "earth" = 6 + 5 + 5 = 16
    assert_eq!(inline_display_width(&spans), 16);
}

#[test]
fn test_inline_display_width_with_coalesce() {
    // When spans are coalesced, the width should be the coalesced width
    let spans = vec![
        make_span("c", None, false),
        make_span("ancellation", Some(LineSource::DeletedBase), true),
        make_span("l", None, false),
        make_span("ause", Some(LineSource::Committed), false),
    ];
    // After coalesce: "cancellationl" + "clause" = 13 + 6 = 19
    let width = inline_display_width(&spans);
    assert_eq!(width, 19);
}

#[test]
fn test_get_deletion_source_finds_correct_source() {
    let spans = vec![
        make_span("unchanged", None, false),
        make_span("deleted", Some(LineSource::DeletedCommitted), true),
        make_span("inserted", Some(LineSource::Staged), false),
    ];
    assert_eq!(get_deletion_source(&spans), LineSource::DeletedCommitted);
}

#[test]
fn test_get_deletion_source_defaults_to_deleted_base() {
    let spans = vec![
        make_span("unchanged", None, false),
        make_span("inserted", Some(LineSource::Committed), false),
    ];
    assert_eq!(get_deletion_source(&spans), LineSource::DeletedBase);
}

#[test]
fn test_get_insertion_source_finds_correct_source() {
    let spans = vec![
        make_span("unchanged", None, false),
        make_span("deleted", Some(LineSource::DeletedBase), true),
        make_span("inserted", Some(LineSource::Staged), false),
    ];
    assert_eq!(get_insertion_source(&spans), LineSource::Staged);
}

#[test]
fn test_get_insertion_source_defaults_to_committed() {
    let spans = vec![
        make_span("unchanged", None, false),
        make_span("deleted", Some(LineSource::DeletedBase), true),
    ];
    assert_eq!(get_insertion_source(&spans), LineSource::Committed);
}

#[test]
fn test_build_deletion_spans_includes_deletions_and_unchanged() {
    let mut highlighter = SyntaxHighlighter::new();
    let spans = vec![
        make_span("unchanged ", None, false),
        make_span("deleted", Some(LineSource::DeletedBase), true),
        make_span("inserted", Some(LineSource::Committed), false),
    ];

    let result = build_deletion_spans_with_highlight(&spans, LineSource::DeletedBase, "unchanged deleted", None, &mut highlighter);

    // Should include unchanged and deletion, but NOT insertion
    assert_eq!(result.len(), 2, "Should have 2 spans (unchanged + deletion)");
    assert_eq!(result[0].content, "unchanged ");
    assert_eq!(result[1].content, "deleted");
}

#[test]
fn test_build_deletion_spans_applies_highlight_to_deletions() {
    let mut highlighter = SyntaxHighlighter::new();
    let spans = vec![
        make_span("unchanged ", None, false),
        make_span("deleted", Some(LineSource::DeletedBase), true),
    ];

    let result = build_deletion_spans_with_highlight(&spans, LineSource::DeletedBase, "unchanged deleted", None, &mut highlighter);

    // Unchanged should have base style (no background highlight)
    let base_style = line_style(LineSource::DeletedBase);
    assert_eq!(result[0].style, base_style, "Unchanged span should have base style");

    // Deleted should have highlighted style (with background)
    let highlight_style = line_style_with_highlight(LineSource::DeletedBase);
    assert_eq!(result[1].style, highlight_style, "Deleted span should have highlight style");
}

#[test]
fn test_build_insertion_spans_includes_insertions_and_unchanged() {
    let mut highlighter = SyntaxHighlighter::new();
    let spans = vec![
        make_span("unchanged ", None, false),
        make_span("deleted", Some(LineSource::DeletedBase), true),
        make_span("inserted", Some(LineSource::Committed), false),
    ];

    let result = build_insertion_spans_with_highlight(&spans, LineSource::Committed, "unchanged inserted", None, &mut highlighter);

    // Should include unchanged and insertion, but NOT deletion
    assert_eq!(result.len(), 2, "Should have 2 spans (unchanged + insertion)");
    assert_eq!(result[0].content, "unchanged ");
    assert_eq!(result[1].content, "inserted");
}

#[test]
fn test_build_insertion_spans_applies_highlight_to_insertions() {
    let mut highlighter = SyntaxHighlighter::new();
    let spans = vec![
        make_span("unchanged ", None, false),
        make_span("inserted", Some(LineSource::Committed), false),
    ];

    let result = build_insertion_spans_with_highlight(&spans, LineSource::Committed, "unchanged inserted", None, &mut highlighter);

    // Unchanged should have base style (no background highlight)
    let base_style = line_style(LineSource::Committed);
    assert_eq!(result[0].style, base_style, "Unchanged span should have base style");

    // Inserted should have highlighted style (with background)
    let highlight_style = line_style_with_highlight(LineSource::Committed);
    assert_eq!(result[1].style, highlight_style, "Inserted span should have highlight style");
}

#[test]
fn test_build_spans_with_highlight_empty_input() {
    let mut highlighter = SyntaxHighlighter::new();
    let spans: Vec<InlineSpan> = vec![];

    let del_result = build_deletion_spans_with_highlight(&spans, LineSource::DeletedBase, "", None, &mut highlighter);
    let ins_result = build_insertion_spans_with_highlight(&spans, LineSource::Committed, "", None, &mut highlighter);

    assert!(del_result.is_empty(), "Empty input should produce empty deletion spans");
    assert!(ins_result.is_empty(), "Empty input should produce empty insertion spans");
}

#[test]
fn test_build_spans_preserves_text_content() {
    let mut highlighter = SyntaxHighlighter::new();
    // Verify the actual text content is preserved when building highlighted spans
    let spans = vec![
        make_span("hello ", None, false),
        make_span("world", Some(LineSource::DeletedBase), true),
        make_span("earth", Some(LineSource::Committed), false),
    ];

    let del_spans = build_deletion_spans_with_highlight(&spans, LineSource::DeletedBase, "hello world", None, &mut highlighter);
    let ins_spans = build_insertion_spans_with_highlight(&spans, LineSource::Committed, "hello earth", None, &mut highlighter);

    // Deletion line should be "hello world"
    let del_text: String = del_spans.iter().map(|s| s.content.as_str()).collect();
    assert_eq!(del_text, "hello world");

    // Insertion line should be "hello earth"
    let ins_text: String = ins_spans.iter().map(|s| s.content.as_str()).collect();
    assert_eq!(ins_text, "hello earth");
}

#[test]
fn test_build_spans_with_multiple_changes() {
    let mut highlighter = SyntaxHighlighter::new();
    // Multiple deletions and insertions interspersed with short gaps
    // Since gaps are < 5 chars and not structural, they get coalesced
    let spans = vec![
        make_span("a", None, false),
        make_span("old1", Some(LineSource::DeletedBase), true),
        make_span("new1", Some(LineSource::Committed), false),
        make_span("b", None, false),
        make_span("old2", Some(LineSource::DeletedBase), true),
        make_span("new2", Some(LineSource::Committed), false),
        make_span("c", None, false),
    ];

    let del_spans = build_deletion_spans_with_highlight(&spans, LineSource::DeletedBase, "aold1bold2c", None, &mut highlighter);
    let ins_spans = build_insertion_spans_with_highlight(&spans, LineSource::Committed, "anew1bnew2c", None, &mut highlighter);

    // After coalescing, short gaps get absorbed
    // Deletion text should be: aold1bold2c (coalesced into fewer spans)
    let del_text: String = del_spans.iter().map(|s| s.content.as_str()).collect();
    assert_eq!(del_text, "aold1bold2c");

    // Insertion text should be: anew1bnew2c
    let ins_text: String = ins_spans.iter().map(|s| s.content.as_str()).collect();
    assert_eq!(ins_text, "anew1bnew2c");
}

#[test]
fn test_classify_inline_change_pure_deletion() {
    // Only deletions (is_deletion: true) and unchanged (source: None)
    let spans = vec![
        make_span("unchanged ", None, false),
        make_span("deleted text", Some(LineSource::DeletedBase), true),
        make_span(" more unchanged", None, false),
    ];
    assert_eq!(classify_inline_change(&spans), InlineChangeType::PureDeletion);
}

#[test]
fn test_classify_inline_change_pure_addition() {
    // Only insertions (source: Some(_), is_deletion: false) and unchanged
    let spans = vec![
        make_span("unchanged ", None, false),
        make_span("inserted text", Some(LineSource::Committed), false),
        make_span(" more unchanged", None, false),
    ];
    assert_eq!(classify_inline_change(&spans), InlineChangeType::PureAddition);
}

#[test]
fn test_classify_inline_change_mixed() {
    // Both deletions and insertions present
    let spans = vec![
        make_span("unchanged ", None, false),
        make_span("deleted", Some(LineSource::DeletedBase), true),
        make_span("inserted", Some(LineSource::Committed), false),
    ];
    assert_eq!(classify_inline_change(&spans), InlineChangeType::Mixed);
}

#[test]
fn test_classify_inline_change_no_change() {
    // Only unchanged content (source: None, is_deletion: false)
    let spans = vec![
        make_span("all ", None, false),
        make_span("unchanged ", None, false),
        make_span("content", None, false),
    ];
    assert_eq!(classify_inline_change(&spans), InlineChangeType::NoChange);
}

#[test]
fn test_classify_real_world_pure_deletion() {
    // Real-world case: "foo bar baz" -> "foo"
    // This removes " bar baz" - pure deletion
    let result = inline_diff("foo bar baz", "foo", LineSource::Committed);
    assert_eq!(classify_inline_change(&result), InlineChangeType::PureDeletion);
}

#[test]
fn test_classify_real_world_pure_addition() {
    // Real-world case: "foo" -> "foo bar baz"
    // This adds " bar baz" - pure addition
    let result = inline_diff("foo", "foo bar baz", LineSource::Committed);
    assert_eq!(classify_inline_change(&result), InlineChangeType::PureAddition);
}

#[test]
fn test_classify_real_world_mixed() {
    // Real-world case: "hello world" -> "goodbye world"
    // This replaces "hello" with "goodbye" - mixed change
    let result = inline_diff("hello world", "goodbye world", LineSource::Committed);
    assert_eq!(classify_inline_change(&result), InlineChangeType::Mixed);
}

#[test]
fn test_build_insertion_spans_unstaged_uses_dark_foreground() {
    let mut highlighter = SyntaxHighlighter::new();
    // Test that unstaged insertion spans have dark foreground for contrast
    let spans = vec![
        make_span("unchanged ", None, false),
        make_span("inserted", Some(LineSource::Unstaged), false),
    ];

    let result = build_insertion_spans_with_highlight(&spans, LineSource::Unstaged, "unchanged inserted", None, &mut highlighter);

    // The inserted span should have dark foreground
    let inserted_span = &result[1];
    assert_eq!(
        inserted_span.style.fg,
        Some(Color::Rgb(30, 30, 30)),
        "Unstaged inserted span should have dark foreground, got {:?}",
        inserted_span.style.fg
    );
}

#[test]
fn test_build_insertion_spans_unstaged_with_syntax_highlighting() {
    let mut highlighter = SyntaxHighlighter::new();
    // Test with a Rust file path to trigger syntax highlighting
    // This simulates a comment line like "// some comment"
    let spans = vec![
        make_span("// unchanged ", None, false),
        make_span("inserted", Some(LineSource::Unstaged), false),
    ];

    let result = build_insertion_spans_with_highlight(
        &spans,
        LineSource::Unstaged,
        "// unchanged inserted",
        Some("test.rs"),  // Rust file triggers syntax highlighting
        &mut highlighter,
    );

    // Find the span that contains "inserted" - it should have dark foreground
    let inserted_span = result.iter().find(|s| s.content.contains("inserted"));
    assert!(inserted_span.is_some(), "Should have a span containing 'inserted'");
    let inserted_span = inserted_span.unwrap();

    assert_eq!(
        inserted_span.style.fg,
        Some(Color::Rgb(30, 30, 30)),
        "Unstaged inserted span with syntax highlighting should have dark foreground, got {:?}",
        inserted_span.style.fg
    );
}

#[test]
fn test_build_deletion_spans_applies_contrast_check() {
    let mut highlighter = SyntaxHighlighter::new();
    // Test that deletion spans apply contrast checking
    // DeletedStaged has a reddish background Rgb(115, 55, 45) that works
    // better with light foreground, so light should be preserved/chosen
    let spans = vec![
        make_span("unchanged ", None, false),
        make_span("deleted", Some(LineSource::DeletedStaged), true),
    ];

    let result = build_deletion_spans_with_highlight(&spans, LineSource::DeletedStaged, "unchanged deleted", None, &mut highlighter);

    // The deleted span should have light foreground (reddish bg works with light text)
    let deleted_span = &result[1];
    assert_eq!(
        deleted_span.style.fg,
        Some(Color::Rgb(220, 220, 220)),
        "DeletedStaged span should have light foreground for contrast with reddish bg, got {:?}",
        deleted_span.style.fg
    );

    // Also verify the highlight background is applied
    assert_eq!(
        deleted_span.style.bg,
        Some(Color::Rgb(115, 55, 45)),
        "DeletedStaged span should have the correct highlight background"
    );
}

#[test]
fn test_pure_deletion_builds_correct_deletion_and_insertion_spans() {
    let mut highlighter = SyntaxHighlighter::new();
    let old_content = "hello world";
    let new_content = "hello wrld";

    let result = inline_diff(old_content, new_content, LineSource::Committed);

    assert_eq!(classify_inline_change(&result), InlineChangeType::PureDeletion);

    let del_spans = build_deletion_spans_with_highlight(
        &result,
        LineSource::DeletedBase,
        old_content,
        None,
        &mut highlighter,
    );
    let del_text: String = del_spans.iter().map(|s| s.content.as_str()).collect();
    assert_eq!(del_text, old_content, "deletion line should show old content");

    let ins_spans = build_insertion_spans_with_highlight(
        &result,
        LineSource::Committed,
        new_content,
        None,
        &mut highlighter,
    );
    let ins_text: String = ins_spans.iter().map(|s| s.content.as_str()).collect();
    assert_eq!(ins_text, new_content, "insertion line should show new content");
}

#[test]
fn test_pure_deletion_highlights_removed_character() {
    let mut highlighter = SyntaxHighlighter::new();
    let old_content = ".*}o)";
    let new_content = ".*})";

    let result = inline_diff(old_content, new_content, LineSource::Committed);
    assert_eq!(classify_inline_change(&result), InlineChangeType::PureDeletion);

    let del_spans = build_deletion_spans_with_highlight(
        &result,
        LineSource::DeletedBase,
        old_content,
        None,
        &mut highlighter,
    );
    let del_text: String = del_spans.iter().map(|s| s.content.as_str()).collect();
    assert_eq!(del_text, ".*}o)");

    let highlight_style = line_style_with_highlight(LineSource::DeletedBase);
    let highlighted: String = del_spans
        .iter()
        .filter(|s| s.style.bg == highlight_style.bg)
        .map(|s| s.content.as_str())
        .collect();
    assert_eq!(highlighted, "o", "only the removed 'o' should be highlighted");
}

#[test]
fn test_get_insertion_source_ignores_deletions() {
    let spans = vec![
        InlineSpan { text: "deleted".to_string(), source: Some(LineSource::DeletedBase), is_deletion: true },
        InlineSpan { text: "inserted".to_string(), source: Some(LineSource::Unstaged), is_deletion: false },
    ];

    let source = get_insertion_source(&spans);
    assert_eq!(source, LineSource::Unstaged);
}

#[test]
fn ui_test_is_fragmented_few_spans_not_fragmented() {
    // Only 2 spans - not fragmented
    let spans = vec![
        make_span("hello", Some(LineSource::DeletedBase), true),
        make_span("world", Some(LineSource::Committed), false),
    ];
    assert!(!is_fragmented(&spans));
}

#[test]
fn ui_test_is_fragmented_single_change_region_not_fragmented() {
    // Single change region (deletion + insertion together) - not fragmented
    // Pattern: change, change, unchanged - one contiguous change region
    let spans = vec![
        make_span("world", Some(LineSource::DeletedBase), true),
        make_span("earth", Some(LineSource::Committed), false),
        make_span(" hello ", None, false),
    ];
    assert!(!is_fragmented(&spans));
}

#[test]
fn ui_test_is_fragmented_two_change_regions_is_fragmented() {
    // Two separate change regions - fragmented
    // Pattern: unchanged, change, unchanged, change (two change regions)
    let spans = vec![
        make_span("c", None, false),                                    // unchanged
        make_span("b", Some(LineSource::Committed), false),             // change region 1
        make_span("ommercial_renewal", None, false),                    // unchanged
        make_span("d", Some(LineSource::Committed), false),             // change region 2
    ];
    assert!(is_fragmented(&spans));
}

#[test]
fn ui_test_is_fragmented_commercial_renewal_to_bond() {
    // Real case: commercial_renewal -> bond with scattered char matches
    // Pattern: unchanged(c), deleted+inserted, unchanged(on), inserted(d)
    let spans = vec![
        make_span("c", None, false),                                    // unchanged
        make_span("ommercial_renewal", Some(LineSource::DeletedBase), true), // change region 1
        make_span("b", Some(LineSource::Committed), false),             // still in change region 1
        make_span("on", None, false),                                   // unchanged - exits region 1
        make_span("d", Some(LineSource::Committed), false),             // change region 2
    ];
    assert!(is_fragmented(&spans));
}

#[test]
fn ui_test_coalesce_spans_not_fragmented_returns_original() {
    let spans = vec![
        make_span("hello ", None, false),
        make_span("world", Some(LineSource::DeletedBase), true),
        make_span("earth", Some(LineSource::Committed), false),
    ];
    let result = simple_view::coalesce_spans(&spans);
    assert_eq!(result.len(), 3);
    assert_eq!(result[0].text, "hello ");
    assert_eq!(result[1].text, "world");
    assert_eq!(result[2].text, "earth");
}

#[test]
fn ui_test_coalesce_spans_fragmented_preserves_structural_prefix_suffix() {
    // Fragmented case with structural prefix (whitespace) and suffix (punctuation)
    // Only structural chars (whitespace, punctuation) are preserved as prefix/suffix
    // Non-structural chars like letters get included in coalesced region

    let spans = vec![
        make_span("  ", None, false),       // structural prefix (spaces) - KEEP
        make_span("bc", Some(LineSource::DeletedBase), true),  // deleted - first change
        make_span("x", Some(LineSource::Committed), false),    // inserted
        make_span("d", None, false),        // unchanged (in fragmented region)
        make_span("e", Some(LineSource::DeletedBase), true),   // deleted
        make_span("yz", Some(LineSource::Committed), false),   // inserted - last change
        make_span(");", None, false),       // structural suffix (punctuation) - KEEP
    ];

    let result = simple_view::coalesce_spans(&spans);

    // Should be: spaces, coalesced_old, coalesced_new, punctuation
    assert_eq!(result.len(), 4, "Expected structural_prefix + old + new + structural_suffix");
    assert_eq!(result[0].text, "  ");
    assert!(result[0].source.is_none()); // unchanged
    assert!(result[1].is_deletion);
    assert_eq!(result[1].text, "bcde"); // coalesced old
    assert!(!result[2].is_deletion);
    assert_eq!(result[2].text, "xdyz"); // coalesced new
    assert_eq!(result[3].text, ");");
    assert!(result[3].source.is_none()); // unchanged
}

#[test]
fn ui_test_coalesce_spans_includes_nonstructural_prefix_in_coalesce() {
    // Non-structural prefix chars (like a single 'c') should be included in coalesced region
    // This handles the "cancellation" -> "clause" case where 'c' is coincidental
    // Need 4+ spans and 2+ change regions to trigger fragmentation detection

    let spans = vec![
        make_span("c", None, false),        // non-structural - gets coalesced
        make_span("ancellation", Some(LineSource::DeletedBase), true), // change region 1
        make_span("l", None, false),        // unchanged in middle
        make_span("ause", Some(LineSource::Committed), false), // change region 2
    ];

    let result = simple_view::coalesce_spans(&spans);

    // Should coalesce everything since 'c' is not structural
    assert_eq!(result.len(), 2);
    assert!(result[0].is_deletion);
    assert_eq!(result[0].text, "cancellationl"); // c + ancellation + l
    assert!(!result[1].is_deletion);
    assert_eq!(result[1].text, "clause"); // c + l + ause
}

#[test]
fn ui_test_coalesce_spans_preserves_good_inline_diff() {
    // Good inline diff: do_thing(data) -> do_thing(data, params)
    // Should have large unchanged segment "do_thing(data" and small insertion ", params"
    let spans = vec![
        make_span("do_thing(data", None, false),
        make_span(", params", Some(LineSource::Committed), false),
        make_span(")", None, false),
    ];
    let result = simple_view::coalesce_spans(&spans);

    // Should NOT coalesce - good readable diff
    assert_eq!(result.len(), 3);
    assert_eq!(result[0].text, "do_thing(data");
    assert_eq!(result[1].text, ", params");
    assert_eq!(result[2].text, ")");
}

#[test]
fn ui_test_real_world_commercial_renewal_to_bond() {
    // Real example: "  commercial_renewal.principal_mailing_address" -> "  bond.description"
    // The character diff would scatter shared chars (o, n, i, etc.)
    // Simulate what a character diff might produce (simplified):
    let spans = vec![
        make_span("  ", None, false),           // structural prefix (spaces) - PRESERVED
        make_span("c", None, false),            // non-structural - gets coalesced (coincidental match)
        make_span("ommercial_renewal.principal_mailing_address", Some(LineSource::DeletedBase), true),
        make_span("b", Some(LineSource::Committed), false),
        make_span("o", None, false),
        make_span("n", None, false),
        make_span("d.des", Some(LineSource::Committed), false),
        make_span("c", None, false),
        make_span("r", Some(LineSource::Committed), false),
        make_span("i", None, false),
        make_span("ption", Some(LineSource::Committed), false),
    ];

    let result = simple_view::coalesce_spans(&spans);

    // Should preserve only structural prefix (spaces), coalesce everything else
    // The 'c' gets included in coalesced region since it's not structural
    assert_eq!(result.len(), 3, "Should have: spaces + coalesced_old + coalesced_new");
    assert_eq!(result[0].text, "  ");
    assert!(result[1].is_deletion);
    // Old text includes: c + ommercial... + o + n + c + i = "commercial_renewal..."
    assert!(result[1].text.starts_with("commercial_renewal"));
    assert!(!result[2].is_deletion);
    // New text includes: c + b + o + n + d.des + c + r + i + ption = "bond.description"
}

#[test]
fn ui_test_inline_diff_commercial_renewal_to_bond_coalesces() {
    // the actual diff output for commercial_renewal -> bond
    // The display should show:
    //   "BDEFF: date_for_display(" (gray) + "commercial_renewal" (red) + "bond" (cyan) + ".effective_date)," (gray)
    // NOT the entire old line red and entire new line cyan

    let old = "BDEFF: date_for_display(commercial_renewal.effective_date),";
    let new = "BDEFF: date_for_display(bond.effective_date),";

    let result = inline_diff(old, new, LineSource::Committed);


    let coalesced = simple_view::coalesce_spans(&result);


    // We should have structural prefix preserved, then coalesced old/new, then structural suffix
    // Prefix: "BDEFF: date_for_display("
    // Old: "commercial_renewal"
    // New: "bond"
    // Suffix: ".effective_date),"

    // Find the deletion span
    let deletion = coalesced.iter().find(|s| s.is_deletion);
    assert!(deletion.is_some(), "Should have a deletion span");
    let deletion = deletion.unwrap();

    // The deletion should contain "commercial_renewal", not scattered chars
    assert!(
        deletion.text.contains("commercial_renewal") || deletion.text == "commercial_renewal",
        "Deletion should be 'commercial_renewal', got: {:?}", deletion.text
    );

    // Find the insertion span
    let insertion = coalesced.iter().find(|s| s.source.is_some() && !s.is_deletion);
    assert!(insertion.is_some(), "Should have an insertion span");
    let insertion = insertion.unwrap();

    // The insertion should contain "bond", not scattered chars
    assert!(
        insertion.text.contains("bond") || insertion.text == "bond",
        "Insertion should be 'bond', got: {:?}", insertion.text
    );
}

#[test]
fn ui_test_inline_diff_commercial_bond_to_bond() {
    // Exact user case: "@commercial_bond = commercial_bond" -> "@bond = bond"
    // The display was showing: "@commercial_bond = commercial_bondbond = bond"

    let old = "@commercial_bond = commercial_bond";
    let new = "@bond = bond";

    let result = inline_diff(old, new, LineSource::Committed);


    let coalesced = simple_view::coalesce_spans(&result);


    // Build display string to verify no garbled output
    let display: String = coalesced.iter().map(|s| s.text.as_str()).collect();

    // The display should NOT contain the old text concatenated with new text
    assert!(
        !display.contains("commercial_bondbond"),
        "Display should NOT contain 'commercial_bondbond' (garbled), got: {}",
        display
    );
}

#[test]
fn ui_test_inline_diff_cancellation_to_clause_coalesces() {
    // "cancellation" -> "clause"
    // The display should show "cancellation" (red) not "ancellation c" (red)

    let old = "context \"when cancellation clause value is given\" do";
    let new = "context \"when bond cannot be expired\" do";

    let result = inline_diff(old, new, LineSource::Committed);


    let coalesced = simple_view::coalesce_spans(&result);


    // Find the deletion span
    let deletion = coalesced.iter().find(|s| s.is_deletion);
    assert!(deletion.is_some(), "Should have a deletion span");
    let deletion = deletion.unwrap();

    // The deletion should NOT start with "ancellation" - it should include the 'c'
    assert!(
        !deletion.text.starts_with("ancellation"),
        "Deletion should NOT start with 'ancellation' (missing 'c'), got: {:?}", deletion.text
    );

    // Should contain the full word being replaced
    assert!(
        deletion.text.contains("cancellation"),
        "Deletion should contain 'cancellation', got: {:?}", deletion.text
    );
}

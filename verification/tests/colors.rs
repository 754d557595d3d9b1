//! The colours of lines and how well they stand out.
use branchdiff::diff::LineSource;
use branchdiff::float::Float;
use branchdiff::style::Color;
use branchdiff::ui::colors::contrast_ratio;
use branchdiff::ui::colors::contrasting_fg;
use branchdiff::ui::colors::ensure_contrast;
use branchdiff::ui::colors::highlight_bg_color;
use branchdiff::ui::colors::line_bg_color;
use branchdiff::ui::colors::line_fg_color;
use branchdiff::ui::colors::line_style;
use branchdiff::ui::colors::line_style_with_highlight;
use branchdiff::ui::colors::luminance;
use branchdiff::ui::colors::print_line_style;
use branchdiff::ui::colors::status_symbol;

const MIN_CONTRAST_RATIO: f64 = 3.0;

fn value(x: Float) -> f64 {
    x.m as f64 / x.d as f64
}

/// Weights the parts of a colour in the order in which the library does, in single precision.
fn weighed(r: u8, g: u8, b: u8) -> f32 {
    (0.299 * r as f32 + 0.587 * g as f32 + 0.114 * b as f32) / 255.0
}

#[test]
fn test_luminance_is_that_of_single_precision() {
    for r in (0..=255u8).step_by(5) {
        for g in (0..=255u8).step_by(15) {
            for b in (0..=255u8).step_by(17) {
                let expected = weighed(r, g, b);
                assert_eq!(value(luminance(Color::Rgb(r, g, b))), expected as f64);
            }
        }
    }
}

#[test]
fn test_contrast_ratio_is_that_of_single_precision() {
    for x in (0..=255u8).step_by(3) {
        for y in (0..=255u8).step_by(7) {
            let (a, b) = (weighed(x, y, 40), weighed(y, 90, x));
            let expected = (a.max(b) + 0.05) / (a.min(b) + 0.05);
            let ratio = contrast_ratio(Color::Rgb(x, y, 40), Color::Rgb(y, 90, x));
            assert_eq!(value(ratio), expected as f64);
            let other = contrast_ratio(Color::Rgb(y, 90, x), Color::Rgb(x, y, 40));
            assert_eq!(ratio, other);
        }
    }
}

#[test]
fn test_contrasting_fg_is_light_on_dark_and_dark_on_light() {
    assert_eq!(contrasting_fg(Color::Black), Color::Rgb(220, 220, 220));
    assert_eq!(contrasting_fg(Color::White), Color::Rgb(30, 30, 30));
    assert_eq!(ensure_contrast(Color::Black, Color::Black), Color::Rgb(220, 220, 220));
    assert_eq!(line_fg_color(LineSource::Base), Color::Rgb(200, 200, 200));
}

#[test]
fn test_luminance_black() {
    assert!((value(luminance(Color::Black)) - 0.0).abs() < 0.01);
}

#[test]
fn test_luminance_white() {
    assert!((value(luminance(Color::White)) - 1.0).abs() < 0.01);
}

#[test]
fn test_luminance_rgb_black() {
    assert!((value(luminance(Color::Rgb(0, 0, 0))) - 0.0).abs() < 0.01);
}

#[test]
fn test_luminance_rgb_white() {
    assert!((value(luminance(Color::Rgb(255, 255, 255))) - 1.0).abs() < 0.01);
}

#[test]
fn test_luminance_rgb_mid_gray() {
    let lum = value(luminance(Color::Rgb(128, 128, 128)));
    // Should be around 0.5
    assert!(lum > 0.4 && lum < 0.6, "Mid gray luminance: {}", lum);
}

#[test]
fn test_luminance_green_brighter_than_blue() {
    // Green has higher perceptual luminance than blue
    let green_lum = value(luminance(Color::Rgb(0, 255, 0)));
    let blue_lum = value(luminance(Color::Rgb(0, 0, 255)));
    assert!(green_lum > blue_lum, "Green ({}) should be brighter than blue ({})", green_lum, blue_lum);
}

#[test]
fn test_luminance_named_colors() {
    // Verify named colors return reasonable values
    assert!(value(luminance(Color::Red)) > 0.0 && value(luminance(Color::Red)) < 1.0);
    assert!(value(luminance(Color::Green)) > 0.0 && value(luminance(Color::Green)) < 1.0);
    assert!(value(luminance(Color::Blue)) > 0.0 && value(luminance(Color::Blue)) < 1.0);
    assert!(value(luminance(Color::Yellow)) > value(luminance(Color::Blue))); // Yellow is bright
}

#[test]
fn test_contrast_ratio_black_white() {
    let ratio = value(contrast_ratio(Color::Black, Color::White));
    // Maximum contrast should be close to 21:1
    assert!(ratio > 20.0, "Black/white contrast: {}", ratio);
}

#[test]
fn test_contrast_ratio_same_color() {
    let ratio = value(contrast_ratio(Color::Rgb(100, 100, 100), Color::Rgb(100, 100, 100)));
    // Same color should have ratio 1.0
    assert!((ratio - 1.0).abs() < 0.01, "Same color contrast: {}", ratio);
}

#[test]
fn test_contrast_ratio_symmetric() {
    let ratio1 = value(contrast_ratio(Color::Red, Color::Blue));
    let ratio2 = value(contrast_ratio(Color::Blue, Color::Red));
    assert!((ratio1 - ratio2).abs() < 0.01, "Contrast should be symmetric");
}

#[test]
fn test_contrast_ratio_similar_colors_low() {
    // Similar colors should have low contrast
    let ratio = value(contrast_ratio(Color::Rgb(100, 100, 100), Color::Rgb(110, 110, 110)));
    assert!(ratio < 1.5, "Similar colors contrast: {}", ratio);
}

#[test]
fn test_ensure_contrast_good_contrast_unchanged() {
    // White on black has great contrast - should remain unchanged
    let result = ensure_contrast(Color::White, Color::Black);
    assert_eq!(result, Color::White);
}

#[test]
fn test_ensure_contrast_bad_contrast_fixed() {
    // Black on dark gray has poor contrast - should be fixed
    let dark_gray = Color::Rgb(30, 30, 30);
    let result = ensure_contrast(Color::Black, dark_gray);
    // Result should have good contrast with dark_gray
    let ratio = value(contrast_ratio(result, dark_gray));
    assert!(ratio >= MIN_CONTRAST_RATIO, "Fixed contrast ratio: {}", ratio);
}

#[test]
fn test_ensure_contrast_light_on_light_fixed() {
    // Light gray on white - should switch to dark
    let light = Color::Rgb(240, 240, 240);
    let result = ensure_contrast(light, Color::White);
    // Result should be darker
    let ratio = value(contrast_ratio(result, Color::White));
    assert!(ratio >= MIN_CONTRAST_RATIO, "Fixed light-on-light ratio: {}", ratio);
}

#[test]
fn test_line_bg_color_base_is_reset() {
    assert_eq!(line_bg_color(LineSource::Base), Color::Reset);
}

#[test]
fn test_line_bg_color_file_header_is_reset() {
    assert_eq!(line_bg_color(LineSource::FileHeader), Color::Reset);
}

#[test]
fn test_line_bg_color_additions_have_distinct_colors() {
    let committed = line_bg_color(LineSource::Committed);
    let staged = line_bg_color(LineSource::Staged);
    let unstaged = line_bg_color(LineSource::Unstaged);

    assert_ne!(committed, staged);
    assert_ne!(staged, unstaged);
    assert_ne!(committed, unstaged);
}

#[test]
fn test_line_bg_color_deletions_have_distinct_colors() {
    let del_base = line_bg_color(LineSource::DeletedBase);
    let del_committed = line_bg_color(LineSource::DeletedCommitted);
    let del_staged = line_bg_color(LineSource::DeletedStaged);

    assert_ne!(del_base, del_committed);
    assert_ne!(del_committed, del_staged);
    assert_ne!(del_base, del_staged);
}

#[test]
fn test_line_bg_color_canceled_same_color() {
    // Both canceled sources use the same color
    assert_eq!(
        line_bg_color(LineSource::CanceledCommitted),
        line_bg_color(LineSource::CanceledStaged)
    );
}

#[test]
fn test_highlight_bg_color_brighter_than_line_bg() {
    // Highlight colors should generally be brighter/more saturated
    let line_bg = line_bg_color(LineSource::Committed);
    let highlight_bg = highlight_bg_color(LineSource::Committed);
    assert_ne!(line_bg, highlight_bg, "Highlight should differ from line bg");

    // For sources that fall through to line_bg_color, they should be equal
    assert_eq!(
        highlight_bg_color(LineSource::Base),
        line_bg_color(LineSource::Base)
    );
}

#[test]
fn test_highlight_bg_color_all_sources_have_values() {
    // Verify all sources return valid colors
    let sources = [
        LineSource::Committed,
        LineSource::Staged,
        LineSource::Unstaged,
        LineSource::DeletedBase,
        LineSource::DeletedCommitted,
        LineSource::DeletedStaged,
        LineSource::CanceledCommitted,
        LineSource::CanceledStaged,
    ];

    for source in sources {
        let color = highlight_bg_color(source);
        // Just verify it returns something (not panicking)
        assert!(!matches!(color, Color::Reset) || source == LineSource::Base);
    }
}

#[test]
fn test_line_style_file_header_bold() {
    let style = line_style(LineSource::FileHeader);
    assert!(style.add_modifier.bold);
}

#[test]
fn test_line_style_elided_dim() {
    let style = line_style(LineSource::Elided);
    assert!(style.add_modifier.dim);
}

#[test]
fn test_line_style_has_fg_and_bg() {
    let style = line_style(LineSource::Committed);
    assert!(style.fg.is_some(), "Style should have foreground color");
    assert!(style.bg.is_some(), "Style should have background color");
}

#[test]
fn test_line_style_with_highlight_uses_contrast_correction() {
    // Verify ensure_contrast is applied - fg should differ from raw line_fg_color
    // when the highlight bg doesn't have sufficient contrast
    let style = line_style_with_highlight(LineSource::Committed);
    let highlight_bg = highlight_bg_color(LineSource::Committed);
    let raw_fg = Color::Rgb(200, 200, 200); // line_fg_color default

    if let (Some(fg), Some(bg)) = (style.fg, style.bg) {
        assert_eq!(bg, highlight_bg, "Should use highlight bg color");
        // If raw contrast was bad, ensure_contrast should have corrected it
        let raw_contrast = value(contrast_ratio(raw_fg, bg));
        if raw_contrast < MIN_CONTRAST_RATIO {
            // The corrected fg should have better or equal contrast
            let corrected_contrast = value(contrast_ratio(fg, bg));
            assert!(corrected_contrast >= raw_contrast,
                "Corrected contrast ({}) should be >= raw ({})",
                corrected_contrast, raw_contrast);
        }
    }
}

#[test]
fn test_line_style_with_highlight_all_sources() {
    let sources = [
        LineSource::Committed,
        LineSource::Staged,
        LineSource::Unstaged,
        LineSource::DeletedBase,
        LineSource::DeletedCommitted,
        LineSource::DeletedStaged,
    ];

    for source in sources {
        let style = line_style_with_highlight(source);
        assert!(style.fg.is_some(), "{:?} should have fg", source);
        assert!(style.bg.is_some(), "{:?} should have bg", source);
    }
}

#[test]
fn test_status_symbol_committed() {
    assert_eq!(status_symbol(LineSource::Committed), "C");
}

#[test]
fn test_status_symbol_staged() {
    assert_eq!(status_symbol(LineSource::Staged), "S");
}

#[test]
fn test_status_symbol_base() {
    assert_eq!(status_symbol(LineSource::Base), " ");
}

#[test]
fn test_status_symbol_unstaged() {
    assert_eq!(status_symbol(LineSource::Unstaged), " ");
}

#[test]
fn test_status_symbol_deletions() {
    // Deletion symbols reflect where deletion happened
    assert_eq!(status_symbol(LineSource::DeletedBase), "C"); // committed deletion
    assert_eq!(status_symbol(LineSource::DeletedCommitted), "S"); // staged deletion
    assert_eq!(status_symbol(LineSource::DeletedStaged), " "); // working tree deletion
}

#[test]
fn test_status_symbol_canceled() {
    assert_eq!(status_symbol(LineSource::CanceledCommitted), "C");
    assert_eq!(status_symbol(LineSource::CanceledStaged), "S");
}

#[test]
fn test_print_line_style_base() {
    let style = print_line_style(LineSource::Base);
    assert_eq!(style.fg, Some(Color::DarkGray));
}

#[test]
fn test_print_line_style_committed() {
    let style = print_line_style(LineSource::Committed);
    assert_eq!(style.fg, Some(Color::Cyan));
}

#[test]
fn test_print_line_style_staged() {
    let style = print_line_style(LineSource::Staged);
    assert_eq!(style.fg, Some(Color::Green));
}

#[test]
fn test_print_line_style_unstaged() {
    let style = print_line_style(LineSource::Unstaged);
    assert_eq!(style.fg, Some(Color::Yellow));
}

#[test]
fn test_print_line_style_deletions_red() {
    assert_eq!(print_line_style(LineSource::DeletedBase).fg, Some(Color::Red));
    assert_eq!(print_line_style(LineSource::DeletedCommitted).fg, Some(Color::Red));
    assert_eq!(print_line_style(LineSource::DeletedStaged).fg, Some(Color::Red));
}

#[test]
fn test_print_line_style_deleted_base_dim() {
    let style = print_line_style(LineSource::DeletedBase);
    assert!(style.add_modifier.dim);
}

#[test]
fn test_print_line_style_canceled_magenta() {
    assert_eq!(print_line_style(LineSource::CanceledCommitted).fg, Some(Color::Magenta));
    assert_eq!(print_line_style(LineSource::CanceledStaged).fg, Some(Color::Magenta));
}

#[test]
fn test_print_line_style_file_header_bold_white() {
    let style = print_line_style(LineSource::FileHeader);
    assert_eq!(style.fg, Some(Color::White));
    assert!(style.add_modifier.bold);
}

#[test]
fn test_print_line_style_elided_dim() {
    let style = print_line_style(LineSource::Elided);
    assert_eq!(style.fg, Some(Color::DarkGray));
    assert!(style.add_modifier.dim);
}

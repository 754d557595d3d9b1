//! How images are laid out.
use branchdiff::image_diff::ImageDiffState;
use branchdiff::image_diff::MAX_IMAGE_HEIGHT_ROWS;
use branchdiff::image_diff::fit_dimensions;
use branchdiff::image_diff::load_and_cache;
use branchdiff::style::Rect;
use branchdiff::ui::image_view::ImageDiffLayout;
use branchdiff::ui::image_view::METADATA_HEIGHT;
use branchdiff::ui::image_view::MIN_IMAGE_HEIGHT;
use branchdiff::ui::layout::split_in_half;
use branchdiff::ui::image_view::PanelBody;
use branchdiff::ui::image_view::calculate_image_height;
use branchdiff::ui::image_view::calculate_image_height_for_images;
use branchdiff::ui::image_view::inner_area;
use branchdiff::ui::image_view::render_image_diff;

// Default font size for tests (matches FONT_WIDTH_PX, FONT_HEIGHT_PX)
const TEST_FONT_SIZE: (u16, u16) = (8, 16);

fn png(width: u32, height: u32) -> Vec<u8> {
    let mut buffer = std::io::Cursor::new(Vec::new());
    let image = image::DynamicImage::new_rgba8(width, height);
    image.write_to(&mut buffer, image::ImageFormat::Png).unwrap();
    buffer.into_inner()
}

#[test]
fn test_low_areas_hold_one_line() {
    let state = ImageDiffState { before: None, after: None };
    let area = Rect { x: 0, y: 0, width: 40, height: 7 };
    let (layout, height) = render_image_diff(area, &state, "a/b.png", 2, TEST_FONT_SIZE);
    assert_eq!(height, 7);
    match layout {
        ImageDiffLayout::Compact(text) => assert_eq!(text, "[image: a/b.png]"),
        ImageDiffLayout::Panels(..) => panic!("two panels in seven rows"),
    }
}

#[test]
fn test_panels_stand_side_by_side() {
    let bytes = png(64, 64);
    let after = load_and_cache(&bytes, "PNG").unwrap();
    let state = ImageDiffState { before: None, after: Some(after) };
    let area = Rect { x: 2, y: 3, width: 61, height: 20 };
    let (layout, height) = render_image_diff(area, &state, "a.png", 15, TEST_FONT_SIZE);
    assert_eq!(height, 20);
    let (before, after) = match layout {
        ImageDiffLayout::Panels(before, after) => (before, after),
        ImageDiffLayout::Compact(_) => panic!("no room in twenty rows"),
    };
    assert_eq!(before.area, Rect { x: 2, y: 3, width: 31, height: 20 });
    assert_eq!(after.area, Rect { x: 33, y: 3, width: 30, height: 20 });
    assert_eq!(before.inner, inner_area(before.area));
    assert_eq!(before.label, "Before (base)");
    assert_eq!(after.label, "After (working)");
    assert!(matches!(before.body, PanelBody::Missing("(new file)")));
    match after.body {
        PanelBody::Picture { image_area, size, centered, placeholder, metadata, metadata_area } => {
            assert_eq!(image_area, Rect { x: 34, y: 4, width: 28, height: 17 });
            assert_eq!(size, (8, 4));
            assert_eq!(centered, Rect { x: 44, y: 10, width: 8, height: 4 });
            assert_eq!(placeholder, "64x64 PNG");
            assert!(metadata.contains("64x64"));
            assert_eq!(metadata_area, Rect { x: 34, y: 21, width: 28, height: METADATA_HEIGHT });
        }
        PanelBody::Missing(_) => panic!("no image"),
    }
}

#[test]
fn test_cut_off_images_keep_their_size() {
    let before = load_and_cache(&png(400, 240), "PNG").unwrap();
    let state = ImageDiffState { before: Some(before), after: None };
    let picture = |height: u16, font: (u16, u16)| {
        let area = Rect { x: 0, y: 10, width: 120, height };
        match render_image_diff(area, &state, "a.png", 15, font).0 {
            ImageDiffLayout::Panels(before, _) => match before.body {
                PanelBody::Picture { size, centered, .. } => (size, centered),
                PanelBody::Missing(_) => panic!("no image"),
            },
            ImageDiffLayout::Compact(_) => panic!("no room"),
        }
    };
    let (size, whole) = picture(20, (8, 16));
    assert_eq!(size, (50, 15));
    assert_eq!(whole, Rect { x: 5, y: 12, width: 50, height: 15 });
    let (size, cut) = picture(13, (8, 16));
    assert_eq!(size, (50, 15));
    assert_eq!(cut, Rect { x: 5, y: 12, width: 50, height: 9 });
    let (size, small) = picture(13, (10, 20));
    assert_eq!(size, (40, 12));
    assert_eq!(small, Rect { x: 10, y: 13, width: 40, height: 8 });
}

#[test]
fn test_image_heights_are_exact() {
    assert_eq!(calculate_image_height_for_images(Some((192, 192)), None, 100, TEST_FONT_SIZE), 16);
    assert_eq!(calculate_image_height_for_images(Some((1024, 1024)), None, 120, TEST_FONT_SIZE), 33);
    assert_eq!(calculate_image_height_for_images(Some((800, 200)), None, 120, TEST_FONT_SIZE), 12);
}

#[test]
fn test_calculate_image_height() {
    // Small terminal
    let height = calculate_image_height(24);
    assert!(height >= MIN_IMAGE_HEIGHT + 4);
    assert!(height <= 24 - 6);

    // Large terminal
    let height = calculate_image_height(80);
    assert!(height >= MIN_IMAGE_HEIGHT + 4);
    assert!(height <= 80 - 6);
}

#[test]
fn test_calculate_image_height_for_images_with_dimensions() {
    // 192x192 image in 100-char wide panel (50 per side, minus borders = 46)
    let height = calculate_image_height_for_images(Some((192, 192)), None, 100, TEST_FONT_SIZE);
    // With 8x16 font: 192/8=24 cells wide, 192/16=12 cells tall
    // Since 24 < 46 (available width), no scaling needed
    // Height = 12 + 4 (borders/metadata) = 16
    assert!(height >= MIN_IMAGE_HEIGHT + 4);
    assert!(height < 100); // Should be much less than panel width
}

#[test]
fn test_calculate_image_height_small_image_no_upscale() {
    // Small 64x64 image should NOT be upscaled to fill panel
    // At 8x16 font: 64/8=8 cells wide, 64/16=4 cells tall
    let height = calculate_image_height_for_images(Some((64, 64)), None, 120, TEST_FONT_SIZE);
    // Height should be 4 (image) + 4 (borders) = 8
    assert_eq!(height, MIN_IMAGE_HEIGHT + 4);
}

#[test]
fn test_calculate_image_height_large_image_scales_down() {
    // Large 1024x1024 image in 120-char panel
    // Available width per panel: (120-4)/2 = 58 cells
    // Image in cells: 1024/8 = 128 cells wide, 1024/16 = 64 cells tall
    // Scale to fit width: 58/128 = 0.453
    // Scaled height: 64 * 0.453 = 29 cells
    let height = calculate_image_height_for_images(Some((1024, 1024)), None, 120, TEST_FONT_SIZE);
    // Height should be 29 (image) + 4 (borders) = 33
    assert!(height >= 30); // At least 30 rows for a large scaled image
    assert!(height <= 40); // But not excessive
}

#[test]
fn test_calculate_image_height_for_images_uses_larger_dimension() {
    // Before is 100x100, After is 200x200 - should use 200x200
    let height_both = calculate_image_height_for_images(Some((100, 100)), Some((200, 200)), 100, TEST_FONT_SIZE);
    let height_large_only = calculate_image_height_for_images(None, Some((200, 200)), 100, TEST_FONT_SIZE);
    assert_eq!(height_both, height_large_only);
}

#[test]
fn test_calculate_image_height_for_images_no_dimensions() {
    // No image dimensions - should return minimum
    let height = calculate_image_height_for_images(None, None, 100, TEST_FONT_SIZE);
    assert_eq!(height, MIN_IMAGE_HEIGHT + 4);
}

#[test]
fn test_calculate_image_height_for_images_narrow_panel() {
    // Very narrow panel - should still work
    let height = calculate_image_height_for_images(Some((192, 192)), None, 20, TEST_FONT_SIZE);
    assert!(height >= MIN_IMAGE_HEIGHT + 4);
}

#[test]
fn test_calculate_image_height_landscape_image() {
    // Wide landscape image: 800x200 pixels
    // At 8x16 font: 800/8 = 100 cells wide, 200/16 = 12.5 cells tall
    // In 120-char panel: available = (120-4)/2 = 58 cells
    // Image needs 100 cells but only 58 available, so scale = 58/100 = 0.58
    // Scaled height: 12.5 * 0.58 = 7.25, ceil = 8 cells
    let height = calculate_image_height_for_images(Some((800, 200)), None, 120, TEST_FONT_SIZE);
    // Height should be modest: 8 (image) + 4 (borders) = 12
    assert!(height >= MIN_IMAGE_HEIGHT + 4);
    assert!(height <= 20); // Landscape should not be tall
}

#[test]
fn test_calculate_image_height_portrait_image() {
    // Tall portrait image: 200x800 pixels
    // At 8x16 font: 25 cells wide, 50 cells tall (800/16 = 50)
    // In 120-char panel: available = (120-4)/2 = 58 cells
    // Image fits at natural width (25 < 58), no scaling needed
    // Height: 50 cells + 4 (borders) = 54, but capped at MAX_IMAGE_HEIGHT_ROWS
    let height = calculate_image_height_for_images(Some((200, 800)), None, 120, TEST_FONT_SIZE);
    assert!(height <= MAX_IMAGE_HEIGHT_ROWS);
}

#[test]
fn test_calculate_image_height_respects_max_cap() {
    // Very tall image: 64x4096 pixels
    // At 8x16 font: 8 cells wide, 256 cells tall
    // Without cap, this would be 256 + 4 = 260 rows
    let height = calculate_image_height_for_images(Some((64, 4096)), None, 120, TEST_FONT_SIZE);
    assert_eq!(height, MAX_IMAGE_HEIGHT_ROWS);
}

#[test]
fn test_image_diff_state_creation() {
    let state = ImageDiffState {
        before: None,
        after: None,
    };
    assert!(state.before.is_none());
    assert!(state.after.is_none());
}

#[test]
fn test_height_calculation_consistent_with_fit_dimensions() {
    // Verify that calculate_image_height_for_images and fit_dimensions
    // produce consistent results for the same image and width constraint.
    //
    // calculate_image_height_for_images: calculates required height given width
    // fit_dimensions: fits into area, constrained by both dimensions
    //
    // When fit_dimensions is given an unconstrained height (very large),
    // it should produce the same height as calculate_image_height_for_images.

    let test_cases = [
        (192, 192, 120),   // Square, fits without scaling
        (1024, 1024, 120), // Square, needs scaling
        (800, 200, 120),   // Landscape
        (200, 800, 120),   // Portrait
        (64, 64, 120),     // Small, no upscale
    ];

    for (img_w, img_h, panel_width) in test_cases {
        // Available width per panel (same calculation as in calculate_image_height_for_images)
        let available_w = (panel_width - 4) / 2;

        // Get height from calculate_image_height_for_images (subtract 4 for borders/metadata)
        let calc_total = calculate_image_height_for_images(Some((img_w, img_h)), None, panel_width, TEST_FONT_SIZE);
        let calc_image_h = calc_total.saturating_sub(4);

        // Get height from fit_dimensions with unconstrained height
        let (_, fit_h) = fit_dimensions(img_w, img_h, available_w, 1000);

        // They should match (within the bounds of MAX cap)
        if calc_total < MAX_IMAGE_HEIGHT_ROWS {
            assert_eq!(
                calc_image_h, fit_h,
                "Mismatch for {}x{} in {} panel: calc={}, fit={}",
                img_w, img_h, panel_width, calc_image_h, fit_h
            );
        }
    }
}

/// The halves of an area meet in its middle, the left one taking the column in between.
#[test]
fn test_halves_meet_in_the_middle() {
    let mut sizes: Vec<(u16, u16)> = Vec::new();
    for x in 0..4 {
        for width in 0..200 {
            sizes.push((x, width));
        }
    }
    for width in [999, 1000, 4095, 10001, 32767, 32768, 65000, 65001] {
        sizes.push((0, width));
        sizes.push((3, width));
        sizes.push((u16::MAX - width, width));
    }
    for (x, width) in sizes {
        let (left, right) = split_in_half(Rect { x, y: 7, width, height: 9 });
        let middle = width - width / 2;
        assert_eq!(left, Rect { x, y: 7, width: middle, height: 9 }, "at {} of {}", x, width);
        assert_eq!(right, Rect { x: x + middle, y: 7, width: width / 2, height: 9 });
    }
}

//! Images: their sizes, their files, and those that are kept.
use branchdiff::image_diff::center_in_area;
use branchdiff::image_diff::cache_image;
use branchdiff::image_diff::fit_dimensions;
use branchdiff::image_diff::fit_dimensions_in_cells;
use branchdiff::image_diff::format_file_size;
use branchdiff::image_diff::format_name_from_path;
use branchdiff::image_diff::is_image_file;
use branchdiff::image_diff::is_lfs_pointer;
use branchdiff::image_diff::is_svg;
use branchdiff::image_diff::load_and_cache;
use branchdiff::image_diff::CachedImage;
use branchdiff::image_diff::ImageCache;
use branchdiff::image_diff::ImageDiffState;
use branchdiff::image_diff::LoadError;
use branchdiff::image_diff::MAX_CACHED_IMAGES;
use branchdiff::image_diff::MAX_CACHE_DIMENSION;
use branchdiff::style::Rect;
use image::DynamicImage;

fn rect(x: u16, y: u16, width: u16, height: u16) -> Rect {
    Rect { x, y, width, height }
}

fn png(width: u32, height: u32) -> Vec<u8> {
    let mut buffer = std::io::Cursor::new(Vec::new());
    DynamicImage::new_rgba8(width, height).write_to(&mut buffer, image::ImageFormat::Png).unwrap();
    buffer.into_inner()
}

#[test]
fn test_load_and_cache_reads_sizes() {
    let bytes = png(3, 2);
    let image = load_and_cache(&bytes, "PNG").unwrap();
    assert_eq!((image.original_width, image.original_height), (3, 2));
    assert_eq!(image.file_size, bytes.len() as u64);
    assert_eq!(image.format_name, "PNG");
    assert_eq!(image.display_image.width(), 3);
}

#[test]
fn test_load_and_cache_scales_large_images_down() {
    let bytes = png(2048, 512);
    let image = load_and_cache(&bytes, "PNG").unwrap();
    assert_eq!((image.original_width, image.original_height), (2048, 512));
    assert_eq!(image.display_image.width(), MAX_CACHE_DIMENSION);
    assert_eq!(image.display_image.height(), 256);
    let image = load_and_cache(&png(1500, 1001), "PNG").unwrap();
    assert_eq!((image.display_image.width(), image.display_image.height()), (1023, 683));
    // A side that would have no pixels left leaves a single one.
    let image = load_and_cache(&png(1, 3000), "PNG").unwrap();
    assert_eq!((image.original_width, image.original_height), (1, 3000));
    assert_eq!((image.display_image.width(), image.display_image.height()), (1, 1));
}

#[test]
fn test_images_are_fitted_into_cells_of_their_size() {
    assert_eq!(fit_dimensions_in_cells(100, 100, 80, 24, (10, 20)), (10, 5));
    assert_eq!(fit_dimensions_in_cells(100, 100, 5, 24, (10, 20)), (5, 3));
    assert_eq!(fit_dimensions_in_cells(100, 100, 80, 24, (0, 20)), (1, 1));
    assert_eq!(
        fit_dimensions_in_cells(1920, 1080, 80, 24, (8, 16)),
        fit_dimensions(1920, 1080, 80, 24)
    );
}

#[test]
fn test_cache_image_keeps_the_samples_of_small_images() {
    let mut original = image::RgbaImage::new(2, 1);
    original.put_pixel(1, 0, image::Rgba([1, 2, 3, 4]));
    let image = cache_image(DynamicImage::ImageRgba8(original.clone()), 77, "PNG");
    assert_eq!(image.display_image.to_rgba8(), original);
    assert_eq!((image.original_width, image.original_height, image.file_size), (2, 1, 77));
    let image = cache_image(DynamicImage::new_rgba8(512, 4096), 5, "BMP");
    assert_eq!((image.display_image.width(), image.display_image.height()), (128, 1024));
    assert_eq!((image.original_width, image.original_height), (512, 4096));
    assert_eq!(image.format_name, "BMP");
}

#[test]
fn test_load_and_cache_tells_what_is_wrong() {
    let pointer = b"version https://git-lfs.github.com/spec/v1\noid sha256:abc123\nsize 12345";
    assert!(matches!(load_and_cache(pointer, "PNG"), Err(LoadError::Decode)));
    assert!(matches!(load_and_cache(b"not an image", "PNG"), Err(LoadError::Decode)));
}

#[test]
fn test_format_file_size_rounds_half_to_even() {
    assert_eq!(format_file_size(1280), "1.2 KB");
    assert_eq!(format_file_size(1792), "1.8 KB");
    assert_eq!(format_file_size(0), "0 B");
    assert_eq!(format_file_size(1023), "1023 B");
    assert_eq!(format_file_size(1024 * 1024 - 1), "1024.0 KB");
}

#[test]
fn test_format_name_follows_unicode() {
    assert_eq!(format_name_from_path("x.ß"), "SS");
    assert_eq!(format_name_from_path(".hidden"), "Unknown");
}

#[test]
fn test_used_images_stay() {
    let mut cache = ImageCache::new();
    for i in 0..MAX_CACHED_IMAGES {
        cache.insert(format!("image{}.png", i), ImageDiffState { before: None, after: None });
    }
    assert!(cache.get("image0.png").is_some());
    cache.insert("new.png".to_string(), ImageDiffState { before: None, after: None });
    assert!(cache.contains("image0.png"));
    assert!(!cache.contains("image1.png"));
    assert!(cache.peek("image1.png").is_none());
    cache.clear();
    assert!(cache.is_empty());
}

#[test]
fn test_is_image_file_common_formats() {
    assert!(is_image_file("photo.png"));
    assert!(is_image_file("photo.PNG")); // Case insensitive
    assert!(is_image_file("icon.jpeg"));
    assert!(is_image_file("icon.jpg"));
    assert!(is_image_file("anim.gif"));
    assert!(is_image_file("modern.webp"));
    assert!(is_image_file("icon.bmp"));
    assert!(is_image_file("favicon.ico"));
}

#[test]
fn test_is_image_file_svg() {
    assert!(is_image_file("LOGO.SVG"));
    assert!(is_image_file("diagram.svg"));
}

#[test]
fn test_is_image_file_not_images() {
    assert!(!is_image_file("document.pdf"));
    assert!(!is_image_file("code.rs"));
    assert!(!is_image_file("data.json"));
    assert!(!is_image_file("video.mp4"));
    assert!(!is_image_file("noextension"));
}

#[test]
fn test_is_svg() {
    assert!(is_svg("logo.svg"));
    assert!(is_svg("DIAGRAM.SVG"));
    assert!(!is_svg("photo.png"));
}

#[test]
fn test_is_lfs_pointer() {
    let lfs_content = b"version https://git-lfs.github.com/spec/v1\noid sha256:abc123\nsize 12345";
    assert!(is_lfs_pointer(lfs_content));

    let normal_content = b"\x89PNG\r\n\x1a\n"; // PNG header
    assert!(!is_lfs_pointer(normal_content));
}

#[test]
fn test_fit_dimensions_landscape() {
    // 1920x1080 into 80x24 panel
    let (w, h) = fit_dimensions(1920, 1080, 80, 24);
    assert!(w <= 80);
    assert!(h <= 24);
}

#[test]
fn test_fit_dimensions_portrait() {
    // 600x1200 into 40x30 panel
    let (w, h) = fit_dimensions(600, 1200, 40, 30);
    assert!(w <= 40);
    assert!(h <= 30);
}

#[test]
fn test_fit_dimensions_no_upscale() {
    // 10x10 into 80x24 - should stay small (no upscaling)
    let (w, h) = fit_dimensions(10, 10, 80, 24);
    assert!(w <= 10);
    assert!(h <= 10);
}

#[test]
fn test_fit_dimensions_zero_input() {
    // Should not panic, should return minimum valid size
    let (w, h) = fit_dimensions(0, 0, 80, 24);
    assert!(w >= 1);
    assert!(h >= 1);
}

#[test]
fn test_fit_dimensions_zero_container() {
    // Container has no space - should handle gracefully
    let (w, h) = fit_dimensions(100, 100, 0, 0);
    assert!(w >= 1);
    assert!(h >= 1);
}

#[test]
fn test_fit_dimensions_huge_image() {
    // 100k x 100k image - should not overflow
    let (w, h) = fit_dimensions(100_000, 100_000, 80, 24);
    assert!(w <= 80);
    assert!(h <= 24);
}

#[test]
fn test_center_in_area() {
    let area = rect(0, 0, 80, 24);
    let centered = center_in_area(20, 10, area);
    assert_eq!(centered.x, 30); // (80-20)/2
    assert_eq!(centered.y, 7); // (24-10)/2
    assert_eq!(centered.width, 20);
    assert_eq!(centered.height, 10);
}

#[test]
fn test_format_file_size() {
    assert_eq!(format_file_size(512), "512 B");
    assert_eq!(format_file_size(1024), "1.0 KB");
    assert_eq!(format_file_size(1536), "1.5 KB");
    assert_eq!(format_file_size(1024 * 1024), "1.0 MB");
    assert_eq!(format_file_size(2 * 1024 * 1024 + 512 * 1024), "2.5 MB");
}

#[test]
fn test_format_name_from_path() {
    assert_eq!(format_name_from_path("photo.png"), "PNG");
    assert_eq!(format_name_from_path("icon.jpeg"), "JPEG");
    assert_eq!(format_name_from_path("logo.svg"), "SVG");
    assert_eq!(format_name_from_path("noextension"), "Unknown");
}

#[test]
fn test_image_cache_lru_eviction() {
    let mut cache = ImageCache::new();

    // Fill cache to capacity
    for i in 0..MAX_CACHED_IMAGES {
        let path = format!("image{}.png", i);
        cache.insert(
            path,
            ImageDiffState {
                before: None,
                after: None,
            },
        );
    }

    assert_eq!(cache.len(), MAX_CACHED_IMAGES);

    // Insert one more - should evict oldest
    cache.insert(
        "new_image.png".to_string(),
        ImageDiffState {
            before: None,
            after: None,
        },
    );

    assert_eq!(cache.len(), MAX_CACHED_IMAGES);
    assert!(!cache.contains("image0.png")); // First one evicted
    assert!(cache.contains("new_image.png")); // New one present
}

#[test]
fn test_image_cache_evict_stale() {
    let mut cache = ImageCache::new();

    cache.insert(
        "keep.png".to_string(),
        ImageDiffState {
            before: None,
            after: None,
        },
    );
    cache.insert(
        "remove.png".to_string(),
        ImageDiffState {
            before: None,
            after: None,
        },
    );

    let current = ["keep.png"];
    cache.evict_stale(&current);

    assert!(cache.contains("keep.png"));
    assert!(!cache.contains("remove.png"));
}

#[test]
fn test_cached_image_metadata_string() {
    let cached = CachedImage {
        display_image: DynamicImage::new_rgba8(1, 1),
        original_width: 1920,
        original_height: 1080,
        file_size: 2 * 1024 * 1024,
        format_name: "PNG".to_string(),
    };

    assert_eq!(cached.metadata_string(), "1920x1080 PNG, 2.0 MB");
}

#[test]
fn test_image_cache_get_mut_counts_as_use() {
    let mut cache = ImageCache::new();
    for i in 0..MAX_CACHED_IMAGES {
        cache.insert(format!("img{i}.png"), ImageDiffState { before: None, after: None });
    }
    cache.get_mut("img0.png").unwrap().after = Some(load_and_cache(&png(2, 2), "PNG").unwrap());
    assert!(cache.get_mut("other.png").is_none());
    cache.insert("one_more.png".to_string(), ImageDiffState { before: None, after: None });
    assert!(cache.peek("img0.png").unwrap().after.is_some());
    assert!(!cache.contains("img1.png"), "the image that was used longest ago makes room");
    assert_eq!(cache.len(), MAX_CACHED_IMAGES);
}

#[test]
fn test_images_are_those_that_can_be_decoded() {
    for extension in [
        "png", "PNG", "jpg", "jpeg", "jfif", "Jpg", "gif", "webp", "tif", "tiff", "tga", "dds", "bmp",
        "ico", "hdr", "exr", "pbm", "pam", "ppm", "pgm", "pnm", "ff", "farbfeld", "qoi", "avif", "pcx",
        "apng", "heic", "txt", "rs", "",
    ] {
        let format = image::ImageFormat::from_extension(extension);
        let expected = format.is_some_and(|format| format.can_read());
        assert_eq!(is_image_file(&format!("a.{extension}")), expected, "{extension:?}");
    }
}

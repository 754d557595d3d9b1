//! Images in a diff: which files are images, how large they are drawn, and the loaded images that
//! are kept.
use vstd::prelude::*;
use vstd::string::*;

use crate::float::nearest;
use crate::float::nearest_integer;
use crate::float::product;
use crate::float::rounded;
use crate::float::Float;
use crate::float::DOUBLE;
use crate::path::extension;
use crate::path::extension_in;
use crate::style::Rect;
use crate::text::append_number;
use crate::text::chars_of;
use crate::text::decimal;
use crate::text::lower;
use crate::text::lower_text;
use crate::text::number;
use crate::text::same_text;

use image::DynamicImage;

verus! {

/// The largest width and height of an image that is kept; larger ones are scaled down.
pub const MAX_CACHE_DIMENSION: u32 = 1024;

/// How many images are kept.
pub const MAX_CACHED_IMAGES: usize = 10;

/// Width of a cell of the terminal in pixels, where it is not known.
pub const FONT_WIDTH_PX: u32 = 8;

/// Height of a cell of the terminal in pixels, where it is not known.
pub const FONT_HEIGHT_PX: u32 = 16;

/// The rows that an image diff takes up besides the images: borders, a title, and a line of
/// metadata.
pub const IMAGE_PANEL_OVERHEAD: u16 = 5;

/// The most rows that an image diff takes up.
pub const MAX_IMAGE_HEIGHT_ROWS: u16 = 50;

/// Whether files with an extension hold images that can be read.
pub open spec fn is_readable(extension: Seq<char>) -> bool {
    let s = lower_text(extension);
    ||| s == "avif"@
    ||| s == "jpg"@
    ||| s == "jpeg"@
    ||| s == "jfif"@
    ||| s == "png"@
    ||| s == "apng"@
    ||| s == "gif"@
    ||| s == "webp"@
    ||| s == "tif"@
    ||| s == "tiff"@
    ||| s == "tga"@
    ||| s == "bmp"@
    ||| s == "ico"@
    ||| s == "hdr"@
    ||| s == "exr"@
    ||| s == "pbm"@
    ||| s == "pam"@
    ||| s == "ppm"@
    ||| s == "pgm"@
    ||| s == "pnm"@
    ||| s == "ff"@
    ||| s == "qoi"@
}

/// `image::ImageFormat::from_extension` and `ImageFormat::can_read`: whether an extension, upper and
/// lower case of ASCII being the same, belongs to a format that can be decoded.
#[verifier::external_body]
fn can_read_extension(extension: &str) -> (r: bool)
    ensures
        r == is_readable(extension@),
{
    image::ImageFormat::from_extension(extension).is_some_and(|format| format.can_read())
}

/// Whether the name of a file ends in `.svg`, in upper or lower case.
pub open spec fn ends_in_svg(path: Seq<char>) -> bool {
    path.len() >= 4 && lower_text(path.skip(path.len() - 4)) =~= seq!['.', 's', 'v', 'g']
}

/// Whether a file holds an image that can be shown.
pub open spec fn shows_as_image(path: Seq<char>) -> bool {
    ends_in_svg(path) || (extension_in(path) is Some && is_readable(extension_in(path)->0))
}

/// Whether a file holds an image that can be shown.
pub fn is_image_file(path: &str) -> (r: bool)
    ensures
        r == shows_as_image(path@),
{
    if is_svg(path) {
        return true;
    }
    match extension(path) {
        Some(extension) => can_read_extension(extension.as_str()),
        None => false,
    }
}

/// Whether a file holds a vector image.
pub fn is_svg(path: &str) -> (r: bool)
    ensures
        r == ends_in_svg(path@),
{
    let cs = chars_of(path);
    let n = cs.len();
    if n < 4 {
        return false;
    }
    let (a, b, c, d) = (cs[n - 4], cs[n - 3], cs[n - 2], cs[n - 1]);
    proof {
        let tail = lower_text(path@.skip(path@.len() - 4));
        assert(tail.len() == 4);
        assert(tail[0] == lower(a) && tail[1] == lower(b) && tail[2] == lower(c) && tail[3]
            == lower(d));
        if tail =~= seq!['.', 's', 'v', 'g'] {
            assert(seq!['.', 's', 'v', 'g'][0] == '.');
            assert(tail[0] == '.' && tail[1] == 's' && tail[2] == 'v' && tail[3] == 'g');
        }
    }
    a == '.' && (b == 's' || b == 'S') && (c == 'v' || c == 'V') && (d == 'g' || d == 'G')
}

/// What a file begins with that stands for a large file kept elsewhere.
pub open spec fn lfs_prefix() -> Seq<u8> {
    vstd::utf8::encode_utf8("version https://git-lfs.github.com/spec/"@)
}

/// Whether the content of a file only stands for a large file that is kept elsewhere.
pub fn is_lfs_pointer(content: &[u8]) -> (r: bool)
    ensures
        r == lfs_prefix().is_prefix_of(content@),
{
    let prefix = "version https://git-lfs.github.com/spec/".as_bytes();
    if content.len() < prefix.len() {
        return false;
    }
    let mut i: usize = 0;
    while i < prefix.len()
        invariant
            i <= prefix@.len() <= content@.len(),
            prefix@ == lfs_prefix(),
            forall|k: int| 0 <= k < i ==> prefix@[k] == content@[k],
        decreases prefix.len() - i,
    {
        if content[i] != prefix[i] {
            assert(content@.subrange(0, prefix@.len() as int)[i as int] == content@[i as int]);
            return false;
        }
        i = i + 1;
    }
    assert(content@.subrange(0, prefix@.len() as int) =~= prefix@);
    true
}

/// A size in tenths of a unit, as text.
pub open spec fn tenths_text(tenths: nat) -> Seq<char> {
    decimal(tenths / 10) + "."@ + decimal(tenths % 10)
}

/// The size of a file in bytes, kilobytes or megabytes, the latter two to one decimal place.
/// A size halfway between two tenths goes to the even one. Sizes from 2^53 bytes on are first
/// rounded to double precision.
pub open spec fn size_text(bytes: u64) -> Seq<char> {
    if bytes < 1024 {
        decimal(bytes as nat) + " B"@
    } else if bytes < 1048576 {
        tenths_text(nearest_integer(bytes as nat * 10, 1024)) + " KB"@
    } else {
        tenths_text(nearest_integer(crate::float::as_double(bytes as nat, 1) * 10, 1048576)) + " MB"@
    }
}

/// The integer nearest to `num / den`, the even one of two.
fn round(num: u128, den: u128) -> (r: u128)
    requires
        0 < den <= 0x1_0000_0000,
        num <= 0x1000_0000_0000_0000_0000,
    ensures
        r == nearest_integer(num as nat, den as nat),
        r <= num + 1,
{
    let q: u128 = num / den;
    let rest: u128 = num % den;
    assert(q <= num) by (nonlinear_arith)
        requires
            q == num / den,
            den > 0,
    ;
    if rest * 2 < den || (rest * 2 == den && q % 2 == 0) {
        q
    } else {
        q + 1
    }
}

/// The double-precision value of a number of bytes.
fn double_of(bytes: u64) -> (r: u128)
    ensures
        r == crate::float::as_double(bytes as nat, 1),
        r <= 0x2_0000_0000_0000_0000,
{
    let mut unit: u128 = 1;
    while bytes as u128 >= 0x20_0000_0000_0000 * unit
        invariant
            1 <= unit <= 0x1000,
            crate::float::as_double(bytes as nat, 1) == crate::float::as_double(
                bytes as nat,
                unit as nat,
            ),
        decreases 0x2000 - unit,
    {
        unit = unit * 2;
    }
    let q = round(bytes as u128, unit);
    proof {
        assert(q <= 0x20_0000_0000_0000) by (nonlinear_arith)
            requires
                q == nearest_integer(bytes as nat, unit as nat),
                bytes < 0x20_0000_0000_0000 * unit,
                unit >= 1,
        ;
        assert(q * unit <= 0x20_0000_0000_0000 * 0x1000) by (nonlinear_arith)
            requires
                0 <= q <= 0x20_0000_0000_0000,
                1 <= unit <= 0x1000,
        ;
    }
    q * unit
}

fn append_tenths(out: &mut String, tenths: u64)
    ensures
        final(out)@ == old(out)@ + tenths_text(tenths as nat),
{
    append_number(out, tenths / 10);
    out.append(".");
    append_number(out, tenths % 10);
    assert(out@ =~= old(out)@ + tenths_text(tenths as nat));
}

/// The size of a file, for people to read.
pub fn format_file_size(bytes: u64) -> (r: String)
    ensures
        r@ == size_text(bytes),
{
    if bytes < 1024 {
        let mut out = number(bytes);
        out.append(" B");
        out
    } else {
        let mut out = String::new();
        if bytes < 1048576 {
            let tenths = round(bytes as u128 * 10, 1024);
            append_tenths(&mut out, tenths as u64);
            assert(out@ =~= tenths_text(tenths as nat));
            out.append(" KB");
        } else {
            let value = double_of(bytes);
            let tenths = round(value * 10, 1048576);
            assert(tenths <= 0x10_0000_0000_0000) by (nonlinear_arith)
                requires
                    tenths == nearest_integer((value * 10) as nat, 1048576),
                    value <= 0x2_0000_0000_0000_0000,
            ;
            append_tenths(&mut out, tenths as u64);
            assert(out@ =~= tenths_text(tenths as nat));
            out.append(" MB");
        }
        out
    }
}

/// The cells of the terminal that a number of pixels takes, in double precision.
pub open spec fn cell_count(pixels: nat, font: nat) -> (nat, nat) {
    rounded(pixels, font, DOUBLE as nat)
}

/// What a number of cells is multiplied by to fill `room` cells, in double precision.
pub open spec fn scale_to(room: nat, cells: (nat, nat)) -> (nat, nat) {
    rounded(room * cells.1, cells.0, DOUBLE as nat)
}

/// A number of cells scaled down, in double precision. Nothing is ever scaled up.
pub open spec fn scaled(cells: (nat, nat), scale: (nat, nat)) -> (nat, nat) {
    if scale.0 >= scale.1 {
        cells
    } else {
        rounded(cells.0 * scale.0, cells.1 * scale.1, DOUBLE as nat)
    }
}

/// The smaller of two values in full precision: the one over the larger power of two, or with the
/// smaller significand over the same.
pub open spec fn smaller(a: (nat, nat), b: (nat, nat)) -> (nat, nat) {
    if b.1 > a.1 || (b.1 == a.1 && b.0 < a.0) {
        b
    } else {
        a
    }
}

/// A value rounded down, but at least one and at most `most`.
pub open spec fn cells_down(v: (nat, nat), most: nat) -> nat {
    if v.0 / v.1 > most {
        most
    } else if v.0 / v.1 < 1 {
        1
    } else {
        v.0 / v.1
    }
}

/// A value rounded up, but at most `most`.
pub open spec fn cells_up(v: (nat, nat), most: nat) -> nat {
    let n = v.0 / v.1 + if v.0 % v.1 > 0 {
        1nat
    } else {
        0
    };
    if n > most {
        most
    } else {
        n
    }
}

/// The size in cells that an image is drawn in: that of the image, scaled down where it does not
/// fit, with its aspect ratio kept. Its height is rounded up. A cell is `font.0` pixels wide and
/// `font.1` pixels high.
pub open spec fn fitted_in_cells(
    img_width: u32,
    img_height: u32,
    max_w: u16,
    max_h: u16,
    font: (u16, u16),
) -> (nat, nat) {
    if img_width == 0 || img_height == 0 || max_w == 0 || max_h == 0 || font.0 == 0 || font.1
        == 0 {
        (1, 1)
    } else {
        let w = cell_count(img_width as nat, font.0 as nat);
        let h = cell_count(img_height as nat, font.1 as nat);
        let scale = smaller(scale_to(max_w as nat, w), scale_to(max_h as nat, h));
        (
            cells_down(scaled(w, scale), max_w as nat),
            cells_up(scaled(h, scale), max_h as nat),
        )
    }
}

/// The size in cells that an image is drawn in, with cells of the usual size.
pub open spec fn fitted(img_width: u32, img_height: u32, max_w: u16, max_h: u16) -> (nat, nat) {
    fitted_in_cells(
        img_width,
        img_height,
        max_w,
        max_h,
        (FONT_WIDTH_PX as u16, FONT_HEIGHT_PX as u16),
    )
}

/// What is known of a number of cells.
pub(crate) open spec fn is_cell_count(v: Float) -> bool {
    &&& DOUBLE <= v.m <= 2 * DOUBLE
    &&& 0x10_0000 <= v.d <= 0x20_0000_0000_0000_0000
    &&& crate::float::is_power(v.d as nat)
}

/// What is known of a scale.
pub(crate) open spec fn is_scale(v: Float) -> bool {
    &&& DOUBLE <= v.m <= 2 * DOUBLE
    &&& 1 <= v.d <= 0x40_0000_0000_0000_0000_0000
    &&& crate::float::is_power(v.d as nat)
}

/// The cells that a number of pixels takes.
pub(crate) fn count_cells(pixels: u32, font: u16) -> (r: Float)
    requires
        pixels > 0,
        font > 0,
    ensures
        r.fraction() == cell_count(pixels as nat, font as nat),
        is_cell_count(r),
{
    assert(pixels < 2 * DOUBLE * font) by (nonlinear_arith)
        requires
            pixels <= 0xffff_ffff,
            font >= 1,
            DOUBLE == 0x10_0000_0000_0000,
    ;
    let r = nearest(pixels as u128, font as u128, DOUBLE);
    proof {
        assert(r.d >= 0x10_0000) by (nonlinear_arith)
            requires
                r.m * font <= pixels * r.d + font,
                r.m >= 0x10_0000_0000_0000,
                1 <= pixels <= 0xffff_ffff,
                font >= 1,
        ;
        assert(r.d <= 0x20_0000_0000_0000_0000) by (nonlinear_arith)
            requires
                r.d == 1 || pixels * r.d < 2 * 0x10_0000_0000_0000 * font,
                pixels >= 1,
                font <= 0xffff,
        ;
    }
    r
}

/// What a number of cells is multiplied by to fill `room` cells.
pub(crate) fn find_scale(room: u16, cells: Float) -> (r: Float)
    requires
        room > 0,
        is_cell_count(cells),
    ensures
        r.fraction() == scale_to(room as nat, cells.fraction()),
        is_scale(r),
{
    proof {
        assert(0 < room * cells.d <= 0x1_0000 * 0x20_0000_0000_0000_0000) by (nonlinear_arith)
            requires
                1 <= room <= 0x1_0000,
                1 <= cells.d <= 0x20_0000_0000_0000_0000,
        ;
        assert(room * cells.d >= 0x10_0000) by (nonlinear_arith)
            requires
                room >= 1,
                cells.d >= 0x10_0000,
        ;
        assert(room as nat * cells.d as nat == room * cells.d);
    }
    let r = nearest(room as u128 * cells.d, cells.m, DOUBLE);
    proof {
        let num = room * cells.d;
        assert(r.d <= 0x40_0000_0000_0000_0000_0000) by (nonlinear_arith)
            requires
                r.d == 1 || num * r.d < 2 * 0x10_0000_0000_0000 * cells.m,
                num >= 0x10_0000,
                cells.m <= 0x20_0000_0000_0000,
        ;
    }
    r
}

/// A number of cells scaled down.
pub(crate) fn scale_cells(cells: Float, scale: Float) -> (r: Float)
    requires
        is_cell_count(cells),
        is_scale(scale),
    ensures
        r.fraction() == scaled(cells.fraction(), scale.fraction()),
        r.d >= 1,
        r.m <= 2 * DOUBLE,
{
    if scale.m >= scale.d {
        cells
    } else {
        assert(cells.d * scale.d >= 0x80_0000_0000_0000) by (nonlinear_arith)
            requires
                cells.d >= 0x10_0000,
                scale.d > scale.m,
                scale.m >= 0x10_0000_0000_0000,
        ;
        product(cells, scale)
    }
}

/// A value rounded up, but at most `most`.
pub(crate) fn round_up(v: Float, most: u16) -> (r: u16)
    requires
        v.d >= 1,
        v.m <= 2 * DOUBLE,
    ensures
        r == cells_up(v.fraction(), most as nat),
{
    let down: u128 = v.m / v.d;
    assert(down <= v.m) by (nonlinear_arith)
        requires
            down == v.m / v.d,
            v.d >= 1,
    ;
    let n: u128 = if v.m % v.d > 0 {
        down + 1
    } else {
        down
    };
    if n > most as u128 {
        most
    } else {
        n as u16
    }
}

/// The size in cells that an image is drawn in, in an area of `max_w` by `max_h` cells.
pub fn fit_dimensions(img_width: u32, img_height: u32, max_w: u16, max_h: u16) -> (r: (u16, u16))
    ensures
        (r.0 as nat, r.1 as nat) == fitted(img_width, img_height, max_w, max_h),
{
    let font = (FONT_WIDTH_PX as u16, FONT_HEIGHT_PX as u16);
    fit_dimensions_in_cells(img_width, img_height, max_w, max_h, font)
}

/// The size in cells that an image is drawn in, in an area of `max_w` by `max_h` cells of a given
/// size in pixels.
pub fn fit_dimensions_in_cells(
    img_width: u32,
    img_height: u32,
    max_w: u16,
    max_h: u16,
    font: (u16, u16),
) -> (r: (u16, u16))
    ensures
        (r.0 as nat, r.1 as nat) == fitted_in_cells(img_width, img_height, max_w, max_h, font),
{
    if img_width == 0 || img_height == 0 || max_w == 0 || max_h == 0 || font.0 == 0 || font.1
        == 0 {
        return (1, 1);
    }
    let w = count_cells(img_width, font.0);
    let h = count_cells(img_height, font.1);
    let scale_w = find_scale(max_w, w);
    let scale_h = find_scale(max_h, h);
    let scale = if scale_h.d > scale_w.d || (scale_h.d == scale_w.d && scale_h.m < scale_w.m) {
        scale_h
    } else {
        scale_w
    };
    let wide = scale_cells(w, scale);
    let high = scale_cells(h, scale);
    let down: u128 = wide.m / wide.d;
    let display_w: u16 = if down > max_w as u128 {
        max_w
    } else if down < 1 {
        1
    } else {
        down as u16
    };
    (display_w, round_up(high, max_h))
}

proof fn lemma_some_cells(v: (nat, nat))
    requires
        v.0 > 0,
        v.1 > 0,
    ensures
        v.0 / v.1 + (if v.0 % v.1 > 0 {
            1nat
        } else {
            0
        }) >= 1,
{
    if v.0 / v.1 == 0 {
        vstd::arithmetic::div_mod::lemma_fundamental_div_mod(v.0 as int, v.1 as int);
        assert(v.1 * (v.0 / v.1) == 0) by (nonlinear_arith)
            requires
                v.0 / v.1 == 0,
        ;
    }
}

/// An image is drawn at least one cell wide and high, and never larger than the area it is drawn in.
pub proof fn law_fitted_images_stay_inside(
    img_width: u32,
    img_height: u32,
    max_w: u16,
    max_h: u16,
    font: (u16, u16),
)
    requires
        max_w > 0,
        max_h > 0,
    ensures
        1 <= fitted_in_cells(img_width, img_height, max_w, max_h, font).0 <= max_w,
        1 <= fitted_in_cells(img_width, img_height, max_w, max_h, font).1 <= max_h,
{
    if img_width > 0 && img_height > 0 && font.0 > 0 && font.1 > 0 {
        let half = DOUBLE as nat;
        let w = cell_count(img_width as nat, font.0 as nat);
        let h = cell_count(img_height as nat, font.1 as nat);
        crate::float::lemma_rounded_positive(img_width as nat, font.0 as nat, half);
        crate::float::lemma_rounded_positive(img_height as nat, font.1 as nat, half);
        assert(max_w as nat * w.1 > 0) by (nonlinear_arith)
            requires
                max_w > 0,
                w.1 > 0,
        ;
        assert(max_h as nat * h.1 > 0) by (nonlinear_arith)
            requires
                max_h > 0,
                h.1 > 0,
        ;
        crate::float::lemma_rounded_positive(max_w as nat * w.1, w.0, half);
        crate::float::lemma_rounded_positive(max_h as nat * h.1, h.0, half);
        let scale = smaller(scale_to(max_w as nat, w), scale_to(max_h as nat, h));
        assert(h.0 * scale.0 > 0) by (nonlinear_arith)
            requires
                h.0 > 0,
                scale.0 > 0,
        ;
        assert(h.1 * scale.1 > 0) by (nonlinear_arith)
            requires
                h.1 > 0,
                scale.1 > 0,
        ;
        crate::float::lemma_rounded_positive(h.0 * scale.0, h.1 * scale.1, half);
        lemma_some_cells(scaled(h, scale));
    }
}

/// A rectangle of a given size in the middle of an area; at its start where it is larger.
pub fn center_in_area(img_w: u16, img_h: u16, area: Rect) -> (r: Rect)
    requires
        area.x + (if area.width > img_w {
            (area.width - img_w) / 2
        } else {
            0
        }) <= u16::MAX,
        area.y + (if area.height > img_h {
            (area.height - img_h) / 2
        } else {
            0
        }) <= u16::MAX,
    ensures
        r == centered(img_w, img_h, area),
{
    let x = area.x + area.width.saturating_sub(img_w) / 2;
    let y = area.y + area.height.saturating_sub(img_h) / 2;
    Rect { x, y, width: img_w, height: img_h }
}

/// A rectangle of a given size in the middle of an area.
pub open spec fn centered(width: u16, height: u16, area: Rect) -> Rect {
    Rect {
        x: (area.x + (if area.width > width {
            (area.width - width) / 2
        } else {
            0
        })) as u16,
        y: (area.y + (if area.height > height {
            (area.height - height) / 2
        } else {
            0
        })) as u16,
        width,
        height,
    }
}

/// What `str::to_uppercase` makes of a text.
pub uninterp spec fn uppercase(s: Seq<char>) -> Seq<char>;

/// `str::to_uppercase`: the text in upper case, as Unicode has it.
#[verifier::external_body]
fn to_upper(s: &str) -> (r: String)
    ensures
        r@ == uppercase(s@),
{
    s.to_uppercase()
}

/// The name of the format of an image file: its extension in upper case.
pub open spec fn format_name(path: Seq<char>) -> Seq<char> {
    match extension_in(path) {
        Some(extension) => uppercase(extension),
        None => "Unknown"@,
    }
}

/// The name of the format of an image file.
pub fn format_name_from_path(path: &str) -> (r: String)
    ensures
        r@ == format_name(path@),
{
    match extension(path) {
        Some(extension) => to_upper(extension.as_str()),
        None => "Unknown".to_owned(),
    }
}

/// An image in memory.
#[verifier::external_type_specification]
#[verifier::external_body]
pub struct ExDynamicImage(DynamicImage);

/// Why an image could not be decoded.
#[verifier::external_type_specification]
#[verifier::external_body]
pub struct ExImageError(image::ImageError);

/// What an image in memory holds: its width, its height, and its colour type and samples as bytes.
pub uninterp spec fn picture(image: DynamicImage) -> (u32, u32, Seq<u8>);

/// The width and height of the image that some bytes encode; nothing where they encode none.
pub uninterp spec fn decoded_size(bytes: Seq<u8>) -> Option<(u32, u32)>;

/// Whether a size is that of an image scaled to the largest size that fits into another one: one of
/// the sides fills it, and the sides keep their ratio up to a pixel. Where there is nothing to fit
/// into, a single pixel is left.
pub open spec fn fills(size: (u32, u32), original: (u32, u32), within: (u32, u32)) -> bool {
    let longer = if original.0 >= original.1 {
        original.0
    } else {
        original.1
    };
    if within.0 == 0 || within.1 == 0 {
        size == (1u32, 1u32)
    } else {
        &&& 1 <= size.0 <= within.0
        &&& 1 <= size.1 <= within.1
        &&& size.0 == within.0 || size.1 == within.1
        &&& -longer <= size.1 * original.0 - size.0 * original.1 <= longer
    }
}

/// `image::load_from_memory`: the image that some bytes encode, in a format that is told from them.
/// Its size is a matter of the bytes alone. Nothing is said of the samples: some formats are decoded
/// in floating point, by instructions that differ between machines.
#[verifier::external_body]
fn decode(bytes: &[u8]) -> (r: Result<DynamicImage, image::ImageError>)
    ensures
        match r {
            Ok(image) => decoded_size(bytes@) == Some((picture(image).0, picture(image).1)),
            Err(_) => decoded_size(bytes@) is None,
        },
{
    image::load_from_memory(bytes)
}

/// `DynamicImage::width` and `DynamicImage::height`.
#[verifier::external_body]
fn size_of(image: &DynamicImage) -> (r: (u32, u32))
    ensures
        r.0 == picture(*image).0,
        r.1 == picture(*image).1,
{
    (image.width(), image.height())
}

/// `DynamicImage::resize` with the filter `Lanczos3`: the image, scaled to the largest size with its
/// aspect ratio that fits into a width and a height. Nothing is said of the samples: the filter
/// takes sines in single precision, whose last bits differ between machines.
#[verifier::external_body]
fn resize(image: &DynamicImage, width: u32, height: u32) -> (r: DynamicImage)
    requires
        width <= u16::MAX,
        height <= u16::MAX,
    ensures
        picture(*image).0 > 0 && picture(*image).1 > 0 ==> fills(
            (picture(r).0, picture(r).1),
            (picture(*image).0, picture(*image).1),
            (width, height),
        ),
{
    image.resize(width, height, image::imageops::FilterType::Lanczos3)
}

/// A loaded image.
pub struct CachedImage {
    /// The image, scaled down to fit into `MAX_CACHE_DIMENSION` pixels.
    pub display_image: DynamicImage,
    /// The size of the image in its file.
    pub original_width: u32,
    pub original_height: u32,
    /// The size of the file in bytes.
    pub file_size: u64,
    /// The name of the format.
    pub format_name: String,
}

/// What a `CachedImage` holds.
pub struct CachedImageView {
    pub picture: (u32, u32, Seq<u8>),
    pub original_width: u32,
    pub original_height: u32,
    pub file_size: u64,
    pub format_name: Seq<char>,
}

impl DeepView for CachedImage {
    type V = CachedImageView;

    open spec fn deep_view(&self) -> CachedImageView {
        CachedImageView {
            picture: picture(self.display_image),
            original_width: self.original_width,
            original_height: self.original_height,
            file_size: self.file_size,
            format_name: self.format_name@,
        }
    }
}

impl CachedImageView {
    /// The size of the image, its format and the size of its file.
    pub open spec fn metadata(self) -> Seq<char> {
        decimal(self.original_width as nat) + "x"@ + decimal(self.original_height as nat) + " "@
            + self.format_name + ", "@ + size_text(self.file_size)
    }
}

impl CachedImage {
    /// The size of the image, its format and the size of its file.
    pub fn metadata_string(&self) -> (r: String)
        ensures
            r@ == self.deep_view().metadata(),
    {
        let mut out = number(self.original_width as u64);
        out.append("x");
        append_number(&mut out, self.original_height as u64);
        out.append(" ");
        out.append(self.format_name.as_str());
        out.append(", ");
        let size = format_file_size(self.file_size);
        out.append(size.as_str());
        out
    }
}

/// One side of an image, scaled by as much as the larger one has to be scaled to fit into
/// `MAX_CACHE_DIMENSION` pixels, in double precision and rounded down.
pub open spec fn reduced(side: nat, larger: nat) -> nat {
    let scale = rounded(MAX_CACHE_DIMENSION as nat, larger, DOUBLE as nat);
    let v = rounded(side * scale.0, scale.1, DOUBLE as nat);
    v.0 / v.1
}

impl CachedImageView {
    /// Whether this is how an image of a given size is kept: in its size where it fits into
    /// `MAX_CACHE_DIMENSION` pixels, and else scaled down to fit, with the size that it has in its
    /// file.
    pub open spec fn keeps_size(
        self,
        original: (u32, u32),
        file_size: nat,
        format_name: Seq<char>,
    ) -> bool {
        let larger = if original.0 >= original.1 {
            original.0
        } else {
            original.1
        };
        let kept = (self.picture.0, self.picture.1);
        &&& self.original_width == original.0
        &&& self.original_height == original.1
        &&& self.file_size == file_size
        &&& self.format_name == format_name
        &&& larger <= MAX_CACHE_DIMENSION ==> kept == original
        &&& larger > MAX_CACHE_DIMENSION && original.0 > 0 && original.1 > 0 ==> fills(
            kept,
            original,
            (
                reduced(original.0 as nat, larger as nat) as u32,
                reduced(original.1 as nat, larger as nat) as u32,
            ),
        )
    }

    /// Whether this is how an image is kept: as `keeps_size` says, and with its samples where it is
    /// not scaled.
    pub open spec fn keeps_image(
        self,
        original: (u32, u32, Seq<u8>),
        file_size: nat,
        format_name: Seq<char>,
    ) -> bool {
        &&& self.keeps_size((original.0, original.1), file_size, format_name)
        &&& original.0 <= MAX_CACHE_DIMENSION && original.1 <= MAX_CACHE_DIMENSION ==> self.picture
            == original
    }
}

/// Why an image could not be loaded.
#[derive(Clone, Copy, Debug, PartialEq, Eq, Structural)]
pub enum LoadError {
    /// The bytes encode no image that can be read.
    Decode,
}

/// One side of an image, scaled to fit.
fn reduce(side: u32, larger: u32) -> (r: u32)
    requires
        side <= larger,
        larger > MAX_CACHE_DIMENSION,
    ensures
        r as nat == reduced(side as nat, larger as nat),
        r <= u16::MAX,
{
    assert(1024 < 2 * DOUBLE * larger) by (nonlinear_arith)
        requires
            larger >= 1,
            DOUBLE == 0x10_0000_0000_0000,
    ;
    let scale = nearest(MAX_CACHE_DIMENSION as u128, larger as u128, DOUBLE);
    proof {
        let (m, d) = (scale.m as int, scale.d as int);
        assert(d <= 0x8_0000_0000_0000_0000_0000) by (nonlinear_arith)
            requires
                d == 1 || 1024 * d < 2 * 0x10_0000_0000_0000 * larger,
                larger <= 0xffff_ffff,
        ;
        assert(larger <= d) by (nonlinear_arith)
            requires
                m * larger <= 1024 * d + larger,
                m >= 0x10_0000_0000_0000,
                larger >= 1,
        ;
        assert(side * m <= 1025 * d) by (nonlinear_arith)
            requires
                m * larger <= 1024 * d + larger,
                larger <= d,
                0 <= side <= larger,
                m >= 0,
        ;
        assert(side * m <= 0x1_0000_0000 * 0x20_0000_0000_0000) by (nonlinear_arith)
            requires
                0 <= side <= 0x1_0000_0000,
                0 <= m <= 0x20_0000_0000_0000,
        ;
        assert(side * m < 2 * 0x10_0000_0000_0000 * d) by (nonlinear_arith)
            requires
                side * m <= 1025 * d,
                d >= 1,
        ;
        if side > 0 {
            assert(side * m >= 0x10_0000_0000_0000) by (nonlinear_arith)
                requires
                    side >= 1,
                    m >= 0x10_0000_0000_0000,
            ;
        } else {
            assert(side * m == 0) by (nonlinear_arith)
                requires
                    side == 0,
            ;
        }
        assert(side as nat * scale.m as nat == side * scale.m);
    }
    let v = nearest(side as u128 * scale.m, scale.d, DOUBLE);
    proof {
        assert(v.m / v.d <= 1026) by (nonlinear_arith)
            requires
                v.m * scale.d <= (side * scale.m) * v.d + scale.d,
                side * scale.m <= 1025 * scale.d,
                scale.d >= 1,
                v.d >= 1,
        ;
    }
    (v.m / v.d) as u32
}

/// An image from a file, as it is kept: scaled down where it is larger than `MAX_CACHE_DIMENSION`.
/// The samples of an image that is scaled down may differ between machines.
pub fn cache_image(original: DynamicImage, file_size: u64, format_name: &str) -> (r: CachedImage)
    ensures
        r.deep_view().keeps_image(picture(original), file_size as nat, format_name@),
{
    let (width, height) = size_of(&original);
    let larger = if width >= height {
        width
    } else {
        height
    };
    let display_image = if larger > MAX_CACHE_DIMENSION {
        resize(&original, reduce(width, larger), reduce(height, larger))
    } else {
        original
    };
    CachedImage {
        display_image,
        original_width: width,
        original_height: height,
        file_size,
        format_name: format_name.to_owned(),
    }
}

/// The image that some bytes encode, as it is kept. Which samples it has is left to the decoder.
pub fn load_and_cache(bytes: &[u8], format_name: &str) -> (r: Result<CachedImage, LoadError>)
    ensures
        match r {
            Ok(image) => decoded_size(bytes@) is Some && image.deep_view().keeps_size(
                decoded_size(bytes@)->0,
                bytes@.len(),
                format_name@,
            ),
            Err(error) => error == LoadError::Decode && decoded_size(bytes@) is None,
        },
{
    match decode(bytes) {
        Err(_) => Err(LoadError::Decode),
        Ok(original) => Ok(cache_image(original, bytes.len() as u64, format_name)),
    }
}

/// The image in a file, before and after the changes.
pub struct ImageDiffState {
    /// Missing where the file is new.
    pub before: Option<CachedImage>,
    /// Missing where the file is deleted.
    pub after: Option<CachedImage>,
}

/// What an `ImageDiffState` holds.
pub struct ImageDiffStateView {
    pub before: Option<CachedImageView>,
    pub after: Option<CachedImageView>,
}

impl DeepView for ImageDiffState {
    type V = ImageDiffStateView;

    open spec fn deep_view(&self) -> ImageDiffStateView {
        ImageDiffStateView { before: self.before.deep_view(), after: self.after.deep_view() }
    }
}

struct Kept {
    path: String,
    state: ImageDiffState,
}

/// The images that are kept, the one that was used last at the end.
pub struct ImageCache {
    items: Vec<Kept>,
}

/// A file and its image.
pub struct KeptView {
    pub path: Seq<char>,
    pub state: ImageDiffStateView,
}

/// The first position from `i` on where the file `path` stands.
pub open spec fn position_of(items: Seq<KeptView>, path: Seq<char>, i: int) -> int
    decreases items.len() - i,
{
    if 0 <= i < items.len() && items[i].path != path {
        position_of(items, path, i + 1)
    } else {
        i
    }
}

/// Whether the file `path` is among some.
pub open spec fn keeps(items: Seq<KeptView>, path: Seq<char>) -> bool {
    position_of(items, path, 0) < items.len()
}

/// The file `path` was used, and so stands at the end.
pub open spec fn used(items: Seq<KeptView>, path: Seq<char>) -> Seq<KeptView> {
    let at = position_of(items, path, 0);
    items.remove(at).push(items[at])
}

/// What is left of some files, to make room for one more: the files that were used least recently
/// go.
pub open spec fn with_room(items: Seq<KeptView>) -> Seq<KeptView> {
    if items.len() >= MAX_CACHED_IMAGES {
        items.skip(items.len() - (MAX_CACHED_IMAGES - 1))
    } else {
        items
    }
}

/// The file `path` is put at the end, and nowhere else.
pub open spec fn inserted(items: Seq<KeptView>, path: Seq<char>, state: ImageDiffStateView) -> Seq<
    KeptView,
> {
    let rest = with_room(items);
    (if keeps(rest, path) {
        rest.remove(position_of(rest, path, 0))
    } else {
        rest
    }).push(KeptView { path, state })
}

/// The files that are among `current`.
pub open spec fn still_current(items: Seq<KeptView>, current: Seq<Seq<char>>) -> Seq<KeptView>
    decreases items.len(),
{
    if items.len() == 0 {
        Seq::empty()
    } else {
        let before = still_current(items.drop_last(), current);
        if current.contains(items.last().path) {
            before.push(items.last())
        } else {
            before
        }
    }
}

/// No file is kept twice, and there are no more than `MAX_CACHED_IMAGES`.
pub open spec fn is_kept_list(items: Seq<KeptView>) -> bool {
    &&& items.len() <= MAX_CACHED_IMAGES
    &&& forall|i: int, j: int|
        0 <= i < j < items.len() ==> (#[trigger] items[i]).path != (#[trigger] items[j]).path
}

pub proof fn lemma_position(items: Seq<KeptView>, path: Seq<char>, i: int)
    requires
        0 <= i <= items.len(),
    ensures
        i <= position_of(items, path, i) <= items.len(),
        position_of(items, path, i) < items.len() ==> items[position_of(items, path, i)].path
            == path,
        forall|k: int|
            i <= k < position_of(items, path, i) ==> (#[trigger] items[k]).path != path,
    decreases items.len() - i,
{
    if i < items.len() && items[i].path != path {
        lemma_position(items, path, i + 1);
    }
}

impl DeepView for Kept {
    type V = KeptView;

    closed spec fn deep_view(&self) -> KeptView {
        KeptView { path: self.path@, state: self.state.deep_view() }
    }
}

impl View for ImageCache {
    type V = Seq<KeptView>;

    closed spec fn view(&self) -> Seq<KeptView> {
        self.items.deep_view()
    }
}

impl Default for ImageCache {
    fn default() -> (r: Self)
        ensures
            r@ == Seq::<KeptView>::empty(),
    {
        ImageCache::new()
    }
}

impl ImageCache {
    /// A cache that keeps nothing.
    pub fn new() -> (r: Self)
        ensures
            r@ == Seq::<KeptView>::empty(),
    {
        let r = ImageCache { items: Vec::new() };
        assert(r@ =~= Seq::empty());
        r
    }

    fn find(&self, path: &str) -> (r: usize)
        ensures
            r == position_of(self@, path@, 0),
            r <= self.items@.len(),
            self.items@.len() == self@.len(),
    {
        let mut i: usize = 0;
        while i < self.items.len()
            invariant
                i <= self.items@.len(),
                position_of(self@, path@, 0) == position_of(self@, path@, i as int),
            decreases self.items.len() - i,
        {
            assert(self@[i as int] == self.items@[i as int].deep_view());
            if same_text(self.items[i].path.as_str(), path) {
                return i;
            }
            i = i + 1;
        }
        i
    }

    /// Puts the file at position `at` at the end.
    fn touch(&mut self, at: usize)
        requires
            at < old(self).items@.len(),
        ensures
            final(self)@ == old(self)@.remove(at as int).push(old(self)@[at as int]),
            final(self).items@.len() == old(self).items@.len(),
            final(self).items@.last() == old(self).items@[at as int],
    {
        let ghost before = self.items@;
        let item = self.items.remove(at);
        self.items.push(item);
        assert(self.items@ == before.remove(at as int).push(before[at as int]));
        assert(self@ =~= old(self)@.remove(at as int).push(old(self)@[at as int]));
    }

    /// The image in a file, which counts as used then.
    pub fn get(&mut self, path: &str) -> (r: Option<&ImageDiffState>)
        ensures
            r is Some <==> keeps(old(self)@, path@),
            r is Some ==> r->0.deep_view() == old(self)@[position_of(old(self)@, path@, 0)].state,
            final(self)@ == (if keeps(old(self)@, path@) {
                used(old(self)@, path@)
            } else {
                old(self)@
            }),
    {
        let at = self.find(path);
        if at < self.items.len() {
            assert(self@[at as int] == self.items@[at as int].deep_view());
            self.touch(at);
            let last: usize = self.items.len() - 1;
            Some(&self.items[last].state)
        } else {
            None
        }
    }

    /// The image in a file, to be changed. It counts as used then.
    pub fn get_mut(&mut self, path: &str) -> (r: Option<&mut ImageDiffState>)
        ensures
            r is Some <==> keeps(old(self)@, path@),
            r is None ==> final(self)@ == old(self)@,
            r is Some ==> {
                &&& (*r->0).deep_view() == old(self)@[position_of(old(self)@, path@, 0)].state
                &&& final(self)@ == used(old(self)@, path@).drop_last().push(
                    KeptView { path: path@, state: (*final(r->0)).deep_view() },
                )
            },
    {
        let at = self.find(path);
        if at < self.items.len() {
            proof {
                lemma_position(self@, path@, 0);
                assert(self@[at as int] == self.items@[at as int].deep_view());
            }
            self.touch(at);
            let last: usize = self.items.len() - 1;
            Some(&mut self.items[last].state)
        } else {
            None
        }
    }

    /// The image in a file.
    pub fn peek(&self, path: &str) -> (r: Option<&ImageDiffState>)
        ensures
            r is Some <==> keeps(self@, path@),
            r is Some ==> r->0.deep_view() == self@[position_of(self@, path@, 0)].state,
    {
        let at = self.find(path);
        if at < self.items.len() {
            assert(self@[at as int] == self.items@[at as int].deep_view());
            Some(&self.items[at].state)
        } else {
            None
        }
    }

    /// Whether the image in a file is kept.
    pub fn contains(&self, path: &str) -> (r: bool)
        ensures
            r == keeps(self@, path@),
    {
        self.find(path) < self.items.len()
    }

    /// Keeps the image in a file. To make room, the images go that were used least recently.
    pub fn insert(&mut self, path: String, state: ImageDiffState)
        ensures
            final(self)@ == inserted(old(self)@, path@, state.deep_view()),
    {
        let ghost given = self@;
        while self.items.len() >= MAX_CACHED_IMAGES
            invariant
                self.items@.len() == self@.len(),
                with_room(self@) == with_room(given),
            decreases self.items.len(),
        {
            let ghost before = self@;
            let ghost items = self.items@;
            let _ = self.items.remove(0);
            assert(self.items@ == items.remove(0));
            assert(self@ =~= before.skip(1));
            assert(with_room(self@) =~= with_room(before));
        }
        assert(self@ == with_room(given));
        let at = self.find(path.as_str());
        let ghost before = self@;
        if at < self.items.len() {
            let ghost items = self.items@;
            let _ = self.items.remove(at);
            assert(self.items@ == items.remove(at as int));
            assert(self@ =~= before.remove(at as int));
        }
        let ghost middle = self@;
        let item = Kept { path, state };
        self.items.push(item);
        assert(self@ =~= middle.push(item.deep_view()));
    }

    /// Drops the images whose files are not among the current ones.
    pub fn evict_stale(&mut self, current_image_paths: &[&str])
        ensures
            final(self)@ == still_current(old(self)@, current_image_paths.deep_view()),
    {
        let ghost given = self@;
        let ghost current = current_image_paths.deep_view();
        let mut i: usize = 0;
        let ghost mut seen: int = 0;
        assert(given.take(0) =~= Seq::empty());
        assert(self@ =~= still_current(given.take(0), current) + given.skip(0));
        while i < self.items.len()
            invariant
                i <= self.items@.len(),
                self.items@.len() == self@.len(),
                0 <= seen <= given.len(),
                current == current_image_paths.deep_view(),
                i == still_current(given.take(seen), current).len(),
                self@ == still_current(given.take(seen), current) + given.skip(seen),
            decreases self.items.len() - i,
        {
            let ghost before = self@;
            let ghost items = self.items@;
            proof {
                assert(given.take(seen + 1).drop_last() =~= given.take(seen));
                assert(self@[i as int] == self.items@[i as int].deep_view());
                assert(self@[i as int] == given[seen]);
            }
            let mut found = false;
            let mut k: usize = 0;
            while k < current_image_paths.len()
                invariant
                    k <= current_image_paths@.len(),
                    i < self.items@.len(),
                    current == current_image_paths.deep_view(),
                    found == exists|n: int|
                        0 <= n < k && #[trigger] current[n] == self.items@[i as int].path@,
                decreases current_image_paths.len() - k,
            {
                assert(current[k as int] == current_image_paths@[k as int]@);
                if same_text(self.items[i].path.as_str(), current_image_paths[k]) {
                    found = true;
                }
                k = k + 1;
            }
            assert(found == current.contains(given[seen].path));
            if found {
                i = i + 1;
                assert(before =~= still_current(given.take(seen + 1), current) + given.skip(
                    seen + 1,
                ));
            } else {
                let _ = self.items.remove(i);
                assert(self.items@ == items.remove(i as int));
                assert(self@ =~= before.remove(i as int));
                assert(self@ =~= still_current(given.take(seen + 1), current) + given.skip(
                    seen + 1,
                ));
            }
            proof {
                seen = seen + 1;
            }
        }
        assert(given.take(given.len() as int) =~= given);
        assert(self@ =~= still_current(given, current));
    }

    /// Drops all images.
    pub fn clear(&mut self)
        ensures
            final(self)@ == Seq::<KeptView>::empty(),
    {
        self.items = Vec::new();
        assert(self@ =~= Seq::empty());
    }

    /// How many images are kept.
    pub fn len(&self) -> (r: usize)
        ensures
            r == self@.len(),
    {
        self.items.len()
    }

    /// Whether no image is kept.
    pub fn is_empty(&self) -> (r: bool)
        ensures
            r == (self@.len() == 0),
    {
        self.items.len() == 0
    }
}

/// Using an image, keeping one more and dropping the ones that are no longer current all leave no
/// file kept twice and no more than `MAX_CACHED_IMAGES`.
pub proof fn law_kept_images_stay_few_and_distinct(
    items: Seq<KeptView>,
    path: Seq<char>,
    state: ImageDiffStateView,
    current: Seq<Seq<char>>,
)
    requires
        is_kept_list(items),
    ensures
        keeps(items, path) ==> is_kept_list(used(items, path)),
        is_kept_list(inserted(items, path, state)),
        is_kept_list(still_current(items, current)),
{
    if keeps(items, path) {
        let at = position_of(items, path, 0);
        lemma_position(items, path, 0);
        let u = used(items, path);
        assert forall|i: int, j: int| 0 <= i < j < u.len() implies (#[trigger] u[i]).path != (
        #[trigger] u[j]).path by {
            let a = if i < at {
                i
            } else {
                i + 1
            };
            assert(u[i] == items[a]);
            if j == u.len() - 1 {
                assert(u[j] == items[at]);
                if a < at {
                    assert(items[a].path != items[at].path);
                } else {
                    assert(items[at].path != items[a].path);
                }
            } else {
                let b = if j < at {
                    j
                } else {
                    j + 1
                };
                assert(u[j] == items[b]);
            }
        }
    }
    lemma_inserted(items, path, state);
    lemma_still_current(items, current);
}

proof fn lemma_inserted(items: Seq<KeptView>, path: Seq<char>, state: ImageDiffStateView)
    requires
        is_kept_list(items),
    ensures
        is_kept_list(inserted(items, path, state)),
{
    let rest = with_room(items);
    assert forall|i: int, j: int| 0 <= i < j < rest.len() implies (#[trigger] rest[i]).path != (
    #[trigger] rest[j]).path by {
        let n = items.len() - rest.len();
        assert(rest[i] == items[i + n] && rest[j] == items[j + n]);
    }
    lemma_position(rest, path, 0);
    let at = position_of(rest, path, 0);
    let left = if keeps(rest, path) {
        rest.remove(at)
    } else {
        rest
    };
    assert forall|i: int| 0 <= i < left.len() implies (#[trigger] left[i]).path != path by {
        if keeps(rest, path) {
            if i >= at {
                assert(rest[at].path != rest[i + 1].path);
            }
        }
    }
    let all = inserted(items, path, state);
    assert forall|i: int, j: int| 0 <= i < j < all.len() implies (#[trigger] all[i]).path != (
    #[trigger] all[j]).path by {
        assert(all[i] == left[i]);
        if j < left.len() {
            assert(all[j] == left[j]);
            if keeps(rest, path) {
                let a = if i < at {
                    i
                } else {
                    i + 1
                };
                let b = if j < at {
                    j
                } else {
                    j + 1
                };
                assert(left[i] == rest[a] && left[j] == rest[b]);
            }
        }
    }
}

proof fn lemma_still_current(items: Seq<KeptView>, current: Seq<Seq<char>>)
    requires
        is_kept_list(items),
    ensures
        is_kept_list(still_current(items, current)),
        still_current(items, current).len() <= items.len(),
        forall|i: int|
            0 <= i < still_current(items, current).len() ==> exists|j: int|
                0 <= j < items.len() && items[j] == #[trigger] still_current(items, current)[i],
    decreases items.len(),
{
    if items.len() > 0 {
        let d = items.drop_last();
        assert forall|i: int, j: int| 0 <= i < j < d.len() implies (#[trigger] d[i]).path != (
        #[trigger] d[j]).path by {
            assert(d[i] == items[i] && d[j] == items[j]);
        }
        lemma_still_current(d, current);
        let before = still_current(d, current);
        let all = still_current(items, current);
        assert forall|i: int| 0 <= i < all.len() implies exists|j: int|
            0 <= j < items.len() && items[j] == #[trigger] all[i] by {
            if i < before.len() {
                assert(all[i] == before[i]);
                let j = choose|j: int| 0 <= j < d.len() && d[j] == before[i];
                assert(items[j] == all[i]);
            } else {
                assert(items[items.len() - 1] == all[i]);
            }
        }
        assert forall|i: int, j: int| 0 <= i < j < all.len() implies (#[trigger] all[i]).path != (
        #[trigger] all[j]).path by {
            assert(all[i] == before[i]);
            if j < before.len() {
                assert(all[j] == before[j]);
            } else {
                let k = choose|k: int| 0 <= k < d.len() && d[k] == before[i];
                assert(items[k].path != items[items.len() - 1].path);
            }
        }
    }
}

/// The image that was kept or used last is never the one that goes: it is the last to make room.
pub proof fn law_kept_image_is_there_and_used_last(
    items: Seq<KeptView>,
    path: Seq<char>,
    state: ImageDiffStateView,
)
    ensures
        keeps(inserted(items, path, state), path),
        inserted(items, path, state).last() == (KeptView { path, state }),
        keeps(items, path) ==> keeps(used(items, path), path) && used(items, path).last().path
            == path,
{
    let all = inserted(items, path, state);
    lemma_position(all, path, 0);
    assert(all[all.len() - 1].path == path);
    if keeps(items, path) {
        lemma_position(items, path, 0);
        let u = used(items, path);
        lemma_position(u, path, 0);
        assert(u[u.len() - 1].path == path);
    }
}

/// The size of a file is told exactly in bytes below a kilobyte, and above that to the nearest tenth
/// of a kilobyte or megabyte.
pub proof fn law_file_sizes_are_rounded(bytes: u64) -> (tenths: nat)
    ensures
        bytes < 1024 ==> size_text(bytes) == decimal(bytes as nat) + " B"@,
        1024 <= bytes < 1048576 ==> size_text(bytes) == decimal(tenths / 10) + "."@ + decimal(
            tenths % 10,
        ) + " KB"@ && -1024 <= 2 * (tenths * 1024 - bytes * 10) <= 1024,
        1048576 <= bytes < 0x20_0000_0000_0000 ==> size_text(bytes) == decimal(tenths / 10) + "."@
            + decimal(tenths % 10) + " MB"@ && -1048576 <= 2 * (tenths * 1048576 - bytes * 10)
            <= 1048576,
{
    if bytes < 1048576 {
        crate::float::law_nearest_integer_is_nearest(bytes as nat * 10, 1024);
        nearest_integer(bytes as nat * 10, 1024)
    } else {
        if bytes < 0x20_0000_0000_0000 {
            crate::float::law_small_numbers_are_exact(bytes as nat);
        }
        let value = crate::float::as_double(bytes as nat, 1);
        crate::float::law_nearest_integer_is_nearest(value * 10, 1048576);
        nearest_integer(value * 10, 1048576)
    }
}

/// What is drawn in the middle of an area has as much room on one side as on the other, up to one
/// cell.
pub proof fn law_centered_means_even_margins(width: u16, height: u16, area: Rect)
    requires
        area.x + area.width <= u16::MAX,
        area.y + area.height <= u16::MAX,
        width <= area.width,
        height <= area.height,
    ensures
        ({
            let r = centered(width, height, area);
            let left = r.x - area.x;
            let right = area.x + area.width - (r.x + r.width);
            let above = r.y - area.y;
            let below = area.y + area.height - (r.y + r.height);
            &&& r.width == width && r.height == height
            &&& 0 <= left <= right <= left + 1
            &&& 0 <= above <= below <= above + 1
        }),
{
}

/// Files that hold no image any more are forgotten, and no others: what is left are those that are
/// still current, in their order.
pub proof fn law_only_stale_images_are_forgotten(items: Seq<KeptView>, current: Seq<Seq<char>>)
    ensures
        still_current(items, current) == items.filter(
            |item: KeptView| current.contains(item.path),
        ),
    decreases items.len(),
{
    reveal(Seq::filter);
    if items.len() > 0 {
        law_only_stale_images_are_forgotten(items.drop_last(), current);
    }
}

/// Using an image loses none: it goes to the end, and the others keep their order.
pub proof fn law_using_an_image_loses_none(items: Seq<KeptView>, path: Seq<char>, k: int)
    requires
        0 <= k < items.len(),
        items[k].path == path,
        forall|i: int, j: int|
            0 <= i < j < items.len() ==> (#[trigger] items[i]).path != (#[trigger] items[j]).path,
    ensures
        used(items, path) == items.take(k) + items.skip(k + 1) + seq![items[k]],
{
    lemma_position(items, path, 0);
    let at = position_of(items, path, 0);
    if at < k {
        assert(items[at].path != items[k].path);
    } else if at > k {
        assert(items[k].path != path);
    }
    assert(used(items, path) =~= items.take(k) + items.skip(k + 1) + seq![items[k]]);
}

/// Keeping one more image makes at most the one go that was used least recently, and an older image
/// of the same file.
pub proof fn law_keeping_an_image_drops_at_most_the_oldest(
    items: Seq<KeptView>,
    path: Seq<char>,
    state: ImageDiffStateView,
    k: int,
)
    requires
        is_kept_list(items),
        0 <= k < items.len(),
        items[k].path != path,
        items.len() < MAX_CACHED_IMAGES || k > 0,
    ensures
        inserted(items, path, state).contains(items[k]),
        inserted(items, path, state).last() == (KeptView { path, state }),
{
    let rest = with_room(items);
    let from = if items.len() >= MAX_CACHED_IMAGES {
        1int
    } else {
        0
    };
    assert(rest[k - from] == items[k]);
    lemma_position(rest, path, 0);
    let at = position_of(rest, path, 0);
    let all = inserted(items, path, state);
    if keeps(rest, path) {
        if k - from < at {
            assert(all[k - from] == items[k]);
        } else {
            assert(all[k - from - 1] == items[k]);
        }
    } else {
        assert(all[k - from] == items[k]);
    }
}

/// A file holds an image that can be shown where its extension says so, and a vector image where the
/// extension is `svg`, in upper or lower case.
pub proof fn law_images_are_known_by_their_extension(
    dir: Seq<char>,
    stem: Seq<char>,
    extension: Seq<char>,
)
    requires
        !stem.contains('/'),
        stem.len() > 0,
        !extension.contains('/'),
        !extension.contains('.'),
        extension.len() > 0,
        dir.len() > 0 ==> dir.last() == '/',
    ensures
        shows_as_image(dir + (stem.push('.') + extension)) == (lower_text(extension) == seq![
            's',
            'v',
            'g',
        ] || is_readable(extension)),
        ends_in_svg(dir + (stem.push('.') + extension)) == (lower_text(extension) == seq![
            's',
            'v',
            'g',
        ]),
{
    let path = dir + (stem.push('.') + extension);
    let n = path.len();
    crate::path::law_extensions_stand_behind_the_last_dot(dir, stem, extension);
    let svg = seq!['s', 'v', 'g'];
    let small = lower_text(extension);
    if extension.len() == 3 {
        let tail = path.skip(n - 4);
        assert(tail =~= seq!['.'] + extension);
        assert(lower_text(tail) =~= seq!['.'] + small);
        if small == svg {
            assert(lower_text(tail) =~= seq!['.', 's', 'v', 'g']);
        } else if lower_text(tail) =~= seq!['.', 's', 'v', 'g'] {
            assert(lower_text(tail).skip(1) =~= small);
            assert(seq!['.', 's', 'v', 'g'].skip(1) =~= svg);
        }
    } else if n >= 4 {
        let tail = path.skip(n - 4);
        if lower_text(tail) =~= seq!['.', 's', 'v', 'g'] {
            let low = lower_text(tail);
            assert(low[0] == '.' && low[1] == 's' && low[2] == 'v' && low[3] == 'g');
            if extension.len() > 3 {
                assert(tail[0] == extension[extension.len() - 4]);
                assert(extension.contains(tail[0]));
            } else {
                let at = 3 - extension.len();
                assert(tail[at] == '.');
                assert(lower('.') == '.');
                assert(low[at] == '.');
            }
        }
        assert(small.len() == extension.len());
    }
}

} // verus!

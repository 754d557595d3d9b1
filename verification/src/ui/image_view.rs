//! Images side by side, before and after the changes.
use vstd::prelude::*;
use vstd::string::*;

use crate::float::single;
use crate::float::single_quotient;
use crate::image_diff::cell_count;
use crate::image_diff::cells_up;
use crate::image_diff::center_in_area;
use crate::image_diff::centered;
use crate::image_diff::count_cells;
use crate::image_diff::find_scale;
use crate::image_diff::fit_dimensions_in_cells;
use crate::image_diff::fitted;
use crate::image_diff::fitted_in_cells;
use crate::image_diff::round_up;
use crate::image_diff::scale_cells;
use crate::image_diff::scale_to;
use crate::image_diff::scaled;
use crate::image_diff::CachedImage;
use crate::image_diff::CachedImageView;
use crate::image_diff::ImageDiffState;
use crate::image_diff::ImageDiffStateView;
use crate::image_diff::IMAGE_PANEL_OVERHEAD;
use crate::image_diff::MAX_IMAGE_HEIGHT_ROWS;
use crate::style::Color;
use crate::style::Rect;
use crate::text::append_number;
use crate::text::decimal;
use crate::text::number;
use crate::ui::layout::halves_of;
use crate::ui::layout::is_area;
use crate::ui::layout::split_in_half;

verus! {

/// Height of the line of metadata below an image.
pub const METADATA_HEIGHT: u16 = 1;

/// The fewest rows that an image is drawn in.
pub const MIN_IMAGE_HEIGHT: u16 = 4;

/// The rows of an image that is `height` pixels high, scaled down to fit into `room` cells across,
/// with cells of `font_w` by `font_h` pixels: in double precision, rounded up, at most what 16 bits
/// hold. Cells without a width make the image infinitely wide, cells without a height make it
/// infinitely high, and an image without a width or a height takes no room.
pub open spec fn rows_at_width(
    width: u32,
    height: u32,
    room: u16,
    font_w: u16,
    font_h: u16,
) -> nat {
    if height == 0 || (font_w == 0 && width > 0) {
        0
    } else if font_h == 0 {
        u16::MAX as nat
    } else {
        let high = cell_count(height as nat, font_h as nat);
        if width == 0 {
            cells_up(high, u16::MAX as nat)
        } else {
            let wide = cell_count(width as nat, font_w as nat);
            cells_up(scaled(high, scale_to(room as nat, wide)), u16::MAX as nat)
        }
    }
}

pub open spec fn larger(a: u32, b: u32) -> u32 {
    if a >= b {
        a
    } else {
        b
    }
}

/// The rows that an image diff takes up in a view of a given width: those of the larger image, each
/// panel having half of the view, with four rows for borders, title and metadata.
pub open spec fn image_rows(
    before: Option<(u32, u32)>,
    after: Option<(u32, u32)>,
    panel_width: u16,
    font_size: (u16, u16),
) -> nat {
    let least = (MIN_IMAGE_HEIGHT + 4) as nat;
    let size = match (before, after) {
        (Some(b), Some(a)) => Some((larger(b.0, a.0), larger(b.1, a.1))),
        (Some(b), None) => Some(b),
        (None, Some(a)) => Some(a),
        (None, None) => None,
    };
    let room = if panel_width >= 4 {
        (panel_width - 4) / 2
    } else {
        0
    };
    if size is None || room == 0 {
        least
    } else {
        let (width, height) = size->0;
        let rows = rows_at_width(
            width,
            height,
            room as u16,
            font_size.0,
            font_size.1,
        ) + 4;
        if rows < least {
            least
        } else if rows > MAX_IMAGE_HEIGHT_ROWS {
            MAX_IMAGE_HEIGHT_ROWS as nat
        } else {
            rows
        }
    }
}

/// The rows of an image that is scaled down to fit a width.
fn count_rows(width: u32, height: u32, room: u16, font_w: u16, font_h: u16) -> (r: u16)
    requires
        room > 0,
    ensures
        r == rows_at_width(width, height, room, font_w, font_h),
{
    if height == 0 || (font_w == 0 && width > 0) {
        return 0;
    }
    if font_h == 0 {
        return u16::MAX;
    }
    let high = count_cells(height, font_h);
    if width == 0 {
        return round_up(high, u16::MAX);
    }
    let wide = count_cells(width, font_w);
    let scale = find_scale(room, wide);
    round_up(scale_cells(high, scale), u16::MAX)
}

fn max_of(a: u32, b: u32) -> (r: u32)
    ensures
        r == larger(a, b),
{
    if a >= b {
        a
    } else {
        b
    }
}

/// The rows that an image diff takes up, from the sizes of its images in pixels.
pub fn calculate_image_height_for_images(
    before: Option<(u32, u32)>,
    after: Option<(u32, u32)>,
    panel_width: u16,
    font_size: (u16, u16),
) -> (r: u16)
    ensures
        r == image_rows(before, after, panel_width, font_size),
{
    let (width, height) = match (before, after) {
        (Some((bw, bh)), Some((aw, ah))) => (max_of(bw, aw), max_of(bh, ah)),
        (Some((w, h)), None) => (w, h),
        (None, Some((w, h))) => (w, h),
        (None, None) => {
            return MIN_IMAGE_HEIGHT + 4;
        },
    };
    let room: u16 = panel_width.saturating_sub(4) / 2;
    if room == 0 {
        return MIN_IMAGE_HEIGHT + 4;
    }
    let rows = count_rows(width, height, room, font_size.0, font_size.1).saturating_add(4);
    if rows < MIN_IMAGE_HEIGHT + 4 {
        MIN_IMAGE_HEIGHT + 4
    } else if rows > MAX_IMAGE_HEIGHT_ROWS {
        MAX_IMAGE_HEIGHT_ROWS
    } else {
        rows
    }
}

/// The rows that an image diff takes up where the sizes of its images are not known: two fifths of
/// the terminal, in single precision and rounded down, but no less than an image needs and no more
/// than leaves six rows; half of the terminal where both cannot be had.
pub open spec fn rows_for_terminal(terminal_height: u16) -> nat {
    let two_fifths = single(13421773 * terminal_height as nat, 33554432);
    let ideal = two_fifths.0 / two_fifths.1;
    let least = (MIN_IMAGE_HEIGHT + 4) as nat;
    let most = terminal_height - 6;
    if most < least {
        let half = terminal_height as nat / 2;
        if half > MIN_IMAGE_HEIGHT {
            half
        } else {
            MIN_IMAGE_HEIGHT as nat
        }
    } else if ideal < least {
        least
    } else if ideal > most {
        most as nat
    } else {
        ideal
    }
}

/// The rows that an image diff takes up where the sizes of its images are not known.
pub fn calculate_image_height(terminal_height: u16) -> (r: u16)
    ensures
        r == rows_for_terminal(terminal_height),
{
    let num: u128 = 13421773 * terminal_height as u128;
    let two_fifths = single_quotient(num, 33554432, Ghost(0x1_0000), Ghost(33554432));
    let ideal: u128 = two_fifths.m / two_fifths.d;
    let least: u16 = MIN_IMAGE_HEIGHT + 4;
    let most: u16 = terminal_height.saturating_sub(6);
    if most < least {
        let half: u16 = terminal_height / 2;
        if half > MIN_IMAGE_HEIGHT {
            half
        } else {
            MIN_IMAGE_HEIGHT
        }
    } else if ideal < least as u128 {
        least
    } else if ideal > most as u128 {
        most
    } else {
        ideal as u16
    }
}

/// What is left of an area inside a border.
pub open spec fn inside_border(area: Rect) -> Rect {
    Rect {
        x: if area.width == 0 {
            area.x
        } else {
            (area.x + 1) as u16
        },
        y: if area.height == 0 {
            area.y
        } else {
            (area.y + 1) as u16
        },
        width: if area.width < 2 {
            0
        } else {
            (area.width - 2) as u16
        },
        height: if area.height < 2 {
            0
        } else {
            (area.height - 2) as u16
        },
    }
}

/// What is left of an area inside a border.
pub fn inner_area(area: Rect) -> (r: Rect)
    requires
        is_area(area),
    ensures
        r == inside_border(area),
        is_area(r),
{
    let x: u16 = if area.width == 0 {
        area.x
    } else {
        area.x + 1
    };
    let y: u16 = if area.height == 0 {
        area.y
    } else {
        area.y + 1
    };
    Rect { x, y, width: area.width.saturating_sub(2), height: area.height.saturating_sub(2) }
}

/// What a panel shows.
#[derive(Debug)]
pub enum PanelBody {
    /// That there is no image.
    Missing(&'static str),
    /// An image of `size` cells, in the middle of its area, over a line of metadata. Of an image
    /// that is cut off, the rows `centered` are visible, from its top on. Where the terminal cannot
    /// draw it, a box in its place holds the text `placeholder`.
    Picture {
        image_area: Rect,
        size: (u16, u16),
        centered: Rect,
        placeholder: String,
        metadata: String,
        metadata_area: Rect,
    },
}

/// A panel with one of the images of a diff.
#[derive(Debug)]
pub struct ImagePanel {
    pub area: Rect,
    pub inner: Rect,
    pub label: &'static str,
    pub border_color: Color,
    pub body: PanelBody,
}

/// What a `PanelBody` holds.
pub enum PanelBodyView {
    Missing(Seq<char>),
    Picture {
        image_area: Rect,
        size: (u16, u16),
        centered: Rect,
        placeholder: Seq<char>,
        metadata: Seq<char>,
        metadata_area: Rect,
    },
}

/// What an `ImagePanel` holds.
pub struct ImagePanelView {
    pub area: Rect,
    pub inner: Rect,
    pub label: Seq<char>,
    pub border_color: Color,
    pub body: PanelBodyView,
}

impl DeepView for PanelBody {
    type V = PanelBodyView;

    open spec fn deep_view(&self) -> PanelBodyView {
        match self {
            PanelBody::Missing(text) => PanelBodyView::Missing(text@),
            PanelBody::Picture {
                image_area,
                size,
                centered,
                placeholder,
                metadata,
                metadata_area,
            } => PanelBodyView::Picture {
                image_area: *image_area,
                size: *size,
                centered: *centered,
                placeholder: placeholder@,
                metadata: metadata@,
                metadata_area: *metadata_area,
            },
        }
    }
}

impl DeepView for ImagePanel {
    type V = ImagePanelView;

    open spec fn deep_view(&self) -> ImagePanelView {
        ImagePanelView {
            area: self.area,
            inner: self.inner,
            label: self.label@,
            border_color: self.border_color,
            body: self.body.deep_view(),
        }
    }
}

/// The area above the line of metadata.
pub open spec fn above_metadata(inner: Rect) -> Rect {
    Rect {
        height: if inner.height < METADATA_HEIGHT {
            0
        } else {
            (inner.height - METADATA_HEIGHT) as u16
        },
        ..inner
    }
}

/// The rows above the line of metadata in a panel that is not cut off, where an image may take
/// `expected` of them.
pub open spec fn whole_rows(expected: u16) -> nat {
    let rows = (expected + IMAGE_PANEL_OVERHEAD - 2 - METADATA_HEIGHT) as nat;
    if rows > u16::MAX {
        u16::MAX as nat
    } else {
        rows
    }
}

/// Where an image of a given size stands in an area that may be cut off at the bottom: in the middle
/// of what the area is without that, and no lower than the area goes.
pub open spec fn visible_rows_of(size: (u16, u16), image_area: Rect, expected: u16) -> Rect {
    let whole = Rect {
        x: image_area.x,
        y: 0,
        width: image_area.width,
        height: whole_rows(expected) as u16,
    };
    let place = centered(size.0, size.1, whole);
    let above = if place.y <= image_area.height {
        place.y
    } else {
        image_area.height
    };
    Rect {
        x: place.x,
        y: (image_area.y + above) as u16,
        width: size.0,
        height: if size.1 <= image_area.height - above {
            size.1
        } else {
            (image_area.height - above) as u16
        },
    }
}

/// Where an image stands in an area that may be cut off.
fn place_picture(size: (u16, u16), image_area: Rect, expected: u16) -> (r: Rect)
    requires
        is_area(image_area),
    ensures
        r == visible_rows_of(size, image_area, expected),
{
    let height = expected.saturating_add(IMAGE_PANEL_OVERHEAD - 2 - METADATA_HEIGHT);
    let whole = Rect { x: image_area.x, y: 0, width: image_area.width, height };
    let place = center_in_area(size.0, size.1, whole);
    let above = if place.y <= image_area.height {
        place.y
    } else {
        image_area.height
    };
    let room: u16 = image_area.height - above;
    let height = if size.1 <= room {
        size.1
    } else {
        room
    };
    Rect { x: place.x, y: image_area.y + above, width: size.0, height }
}

/// The size of an image and its format.
pub open spec fn placeholder_text(image: CachedImageView) -> Seq<char> {
    decimal(image.original_width as nat) + "x"@ + decimal(image.original_height as nat) + " "@
        + image.format_name
}

/// A panel with an image, red for the one before the changes and green for the one after them. The
/// image is fitted into `expected` rows of cells of a given size, however much of the panel is
/// visible.
pub open spec fn panel_of(
    area: Rect,
    image: Option<CachedImageView>,
    label: Seq<char>,
    is_before: bool,
    expected: u16,
    font_size: (u16, u16),
) -> ImagePanelView {
    let inner = inside_border(area);
    ImagePanelView {
        area,
        inner,
        label,
        border_color: if is_before {
            Color::Red
        } else {
            Color::Green
        },
        body: match image {
            None => PanelBodyView::Missing(
                if is_before {
                    "(new file)"@
                } else {
                    "(deleted)"@
                },
            ),
            Some(image) => {
                let image_area = above_metadata(inner);
                let fit = fitted_in_cells(
                    image.original_width,
                    image.original_height,
                    image_area.width,
                    expected,
                    font_size,
                );
                let size = (fit.0 as u16, fit.1 as u16);
                PanelBodyView::Picture {
                    image_area,
                    size,
                    centered: visible_rows_of(size, image_area, expected),
                    placeholder: placeholder_text(image),
                    metadata: image.metadata(),
                    metadata_area: Rect {
                        y: (inner.y + image_area.height) as u16,
                        height: METADATA_HEIGHT,
                        ..inner
                    },
                }
            },
        },
    }
}

/// A panel with an image, or with a note that there is none.
pub fn render_image_panel(
    area: Rect,
    image: Option<&CachedImage>,
    label: &'static str,
    is_before: bool,
    expected: u16,
    font_size: (u16, u16),
) -> (r: ImagePanel)
    requires
        is_area(area),
    ensures
        r.deep_view() == panel_of(
            area,
            image.deep_view(),
            label@,
            is_before,
            expected,
            font_size,
        ),
{
    let border_color = if is_before {
        Color::Red
    } else {
        Color::Green
    };
    let inner = inner_area(area);
    let body = match image {
        None => {
            let text = if is_before {
                "(new file)"
            } else {
                "(deleted)"
            };
            PanelBody::Missing(text)
        },
        Some(image) => {
            let image_area = Rect {
                x: inner.x,
                y: inner.y,
                width: inner.width,
                height: inner.height.saturating_sub(METADATA_HEIGHT),
            };
            let size = fit_dimensions_in_cells(
                image.original_width,
                image.original_height,
                image_area.width,
                expected,
                font_size,
            );
            let mut placeholder = number(image.original_width as u64);
            placeholder.append("x");
            append_number(&mut placeholder, image.original_height as u64);
            placeholder.append(" ");
            placeholder.append(image.format_name.as_str());
            PanelBody::Picture {
                image_area,
                size,
                centered: place_picture(size, image_area, expected),
                placeholder,
                metadata: image.metadata_string(),
                metadata_area: Rect {
                    x: inner.x,
                    y: inner.y + image_area.height,
                    width: inner.width,
                    height: METADATA_HEIGHT,
                },
            }
        },
    };
    ImagePanel { area, inner, label, border_color, body }
}

/// An image diff: both panels, or one line where there is no room for them.
#[derive(Debug)]
pub enum ImageDiffLayout {
    Compact(String),
    Panels(ImagePanel, ImagePanel),
}

/// What an `ImageDiffLayout` holds.
pub enum ImageDiffLayoutView {
    Compact(Seq<char>),
    Panels(ImagePanelView, ImagePanelView),
}

impl DeepView for ImageDiffLayout {
    type V = ImageDiffLayoutView;

    open spec fn deep_view(&self) -> ImageDiffLayoutView {
        match self {
            ImageDiffLayout::Compact(text) => ImageDiffLayoutView::Compact(text@),
            ImageDiffLayout::Panels(before, after) => ImageDiffLayoutView::Panels(
                before.deep_view(),
                after.deep_view(),
            ),
        }
    }
}

/// An image diff in two given halves of its area, with `expected` rows for the images.
pub open spec fn layout_of(
    area: Rect,
    halves: (Rect, Rect),
    state: ImageDiffStateView,
    file_path: Seq<char>,
    expected: u16,
    font_size: (u16, u16),
) -> ImageDiffLayoutView {
    if area.height < MIN_IMAGE_HEIGHT + 4 {
        ImageDiffLayoutView::Compact("[image: "@ + file_path + "]"@)
    } else {
        ImageDiffLayoutView::Panels(
            panel_of(halves.0, state.before, "Before (base)"@, true, expected, font_size),
            panel_of(halves.1, state.after, "After (working)"@, false, expected, font_size),
        )
    }
}

/// An image diff in two given halves of its area, with `expected` rows for the images.
pub fn lay_out_image_diff(
    area: Rect,
    halves: (Rect, Rect),
    state: &ImageDiffState,
    file_path: &str,
    expected: u16,
    font_size: (u16, u16),
) -> (r: ImageDiffLayout)
    requires
        is_area(halves.0),
        is_area(halves.1),
    ensures
        r.deep_view() == layout_of(
            area,
            halves,
            state.deep_view(),
            file_path@,
            expected,
            font_size,
        ),
{
    if area.height.saturating_sub(4) < MIN_IMAGE_HEIGHT {
        let mut text = "[image: ".to_owned();
        text.append(file_path);
        text.append("]");
        return ImageDiffLayout::Compact(text);
    }
    let (left, right) = ("Before (base)", "After (working)");
    let before = match &state.before {
        Some(image) => render_image_panel(halves.0, Some(image), left, true, expected, font_size),
        None => render_image_panel(halves.0, None, left, true, expected, font_size),
    };
    let after = match &state.after {
        Some(image) => render_image_panel(halves.1, Some(image), right, false, expected, font_size),
        None => render_image_panel(halves.1, None, right, false, expected, font_size),
    };
    ImageDiffLayout::Panels(before, after)
}

/// An image diff in an area, with the height that it takes up. The images are fitted into
/// `expected_available_height` rows, also where the area is lower because it is cut off.
pub fn render_image_diff(
    area: Rect,
    state: &ImageDiffState,
    file_path: &str,
    expected_available_height: u16,
    font_size: (u16, u16),
) -> (r: (ImageDiffLayout, u16))
    requires
        is_area(area),
    ensures
        r.0.deep_view() == layout_of(
            area,
            halves_of(area),
            state.deep_view(),
            file_path@,
            expected_available_height,
            font_size,
        ),
        r.1 == area.height,
{
    let layout = lay_out_image_diff(
        area,
        split_in_half(area),
        state,
        file_path,
        expected_available_height,
        font_size,
    );
    (layout, area.height)
}

impl PanelBodyView {
    /// Whether this shows the first rows of what another panel shows: of the same image in the same
    /// size at the same place, as many rows as there is room for.
    pub open spec fn shows_part_of(self, other: PanelBodyView) -> bool {
        match (self, other) {
            (PanelBodyView::Picture { image_area, size, centered, .. }, PanelBodyView::Picture {
                size: whole_size,
                centered: whole,
                ..
            }) => {
                let bottom = image_area.y + image_area.height;
                &&& size == whole_size
                &&& centered.x == whole.x && centered.width == whole.width
                &&& if whole.y < bottom {
                    &&& centered.y == whole.y
                    &&& centered.height == (if whole.y + whole.height <= bottom {
                        whole.height as int
                    } else {
                        bottom - whole.y
                    })
                } else {
                    centered.height == 0
                }
            },
            (PanelBodyView::Missing(text), PanelBodyView::Missing(whole_text)) => text
                == whole_text,
            _ => false,
        }
    }
}

/// An image keeps its size and its place where the view cuts it off: a panel that is cut off at the
/// bottom shows the first rows of the image that the whole panel shows.
pub proof fn law_cut_off_images_keep_their_size(
    area: Rect,
    height: u16,
    image: Option<CachedImageView>,
    label: Seq<char>,
    is_before: bool,
    expected: u16,
    font_size: (u16, u16),
)
    requires
        is_area(area),
        height <= area.height,
    ensures
        ({
            let cut = Rect { height, ..area };
            panel_of(cut, image, label, is_before, expected, font_size).body.shows_part_of(
                panel_of(area, image, label, is_before, expected, font_size).body,
            )
        }),
{
}

/// The height that is set apart for an image is the one that it is then drawn with: the rows that
/// fitting it into half of the view takes where the height is no constraint.
pub proof fn law_image_height_matches_fitted_height(
    width: u32,
    height: u32,
    panel_width: u16,
    max_h: u16,
)
    requires
        width > 0,
        height > 0,
        panel_width >= 6,
        ({
            let room = ((panel_width - 4) / 2) as nat;
            let wide = scale_to(room, cell_count(width as nat, 8));
            let high = scale_to(max_h as nat, cell_count(height as nat, 16));
            crate::image_diff::smaller(wide, high) == wide
        }),
        rows_at_width(width, height, ((panel_width - 4) / 2) as u16, 8, 16) <= max_h,
        4 <= rows_at_width(width, height, ((panel_width - 4) / 2) as u16, 8, 16),
        rows_at_width(width, height, ((panel_width - 4) / 2) as u16, 8, 16) + 4
            <= MAX_IMAGE_HEIGHT_ROWS,
    ensures
        image_rows(Some((width, height)), None, panel_width, (8, 16)) == fitted(
            width,
            height,
            ((panel_width - 4) / 2) as u16,
            max_h,
        ).1 + 4,
{
}

/// A border takes one cell on each side of an area.
pub proof fn law_borders_take_one_cell(area: Rect)
    requires
        is_area(area),
        area.width >= 2,
        area.height >= 2,
    ensures
        ({
            let inner = inside_border(area);
            &&& inner.x == area.x + 1 && inner.y == area.y + 1
            &&& inner.x + inner.width + 1 == area.x + area.width
            &&& inner.y + inner.height + 1 == area.y + area.height
        }),
{
}

/// The image before the changes stands in the left panel, in red, and the one after them in the right
/// panel, in green; a panel without an image tells that the file is new or was deleted. Where there
/// is no room for images, the file is named.
pub proof fn law_both_images_have_their_panel(
    area: Rect,
    halves: (Rect, Rect),
    state: ImageDiffStateView,
    file_path: Seq<char>,
    expected: u16,
    font_size: (u16, u16),
)
    ensures
        match layout_of(area, halves, state, file_path, expected, font_size) {
            ImageDiffLayoutView::Compact(text) => area.height < 8 && text == "[image: "@ + file_path
                + "]"@,
            ImageDiffLayoutView::Panels(before, after) => {
                &&& area.height >= 8
                &&& before.area == halves.0 && before.border_color is Red
                &&& after.area == halves.1 && after.border_color is Green
                &&& before.body == PanelBodyView::Missing("(new file)"@) <==> state.before is None
                &&& after.body == PanelBodyView::Missing("(deleted)"@) <==> state.after is None
                &&& state.before is Some ==> before.body is Picture
                &&& state.after is Some ==> after.body is Picture
            },
        },
{
}

/// An image diff never takes less than eight rows, nor more than an image may.
pub proof fn law_image_rows_are_bounded(
    before: Option<(u32, u32)>,
    after: Option<(u32, u32)>,
    panel_width: u16,
    font_size: (u16, u16),
)
    ensures
        8 <= image_rows(before, after, panel_width, font_size) <= MAX_IMAGE_HEIGHT_ROWS,
        image_rows(None, None, panel_width, font_size) == 8,
        image_rows(before, after, panel_width, font_size) == image_rows(
            after,
            before,
            panel_width,
            font_size,
        ),
        before is Some ==> image_rows(before, before, panel_width, font_size) == image_rows(
            before,
            None,
            panel_width,
            font_size,
        ),
{
}

/// Where the sizes of images are not known, they leave at least six rows of a terminal that is high
/// enough, and never take less than four rows.
pub proof fn law_images_leave_room_in_the_terminal(terminal_height: u16)
    ensures
        terminal_height >= 14 ==> 8 <= rows_for_terminal(terminal_height) <= terminal_height - 6,
        terminal_height < 14 ==> rows_for_terminal(terminal_height) == (if terminal_height >= 10 {
            (terminal_height / 2) as nat
        } else {
            4
        }),
{
}

} // verus!

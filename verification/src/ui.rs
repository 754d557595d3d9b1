//! What the views draw: colours, spans, wrapped rows, panels and bars.
use vstd::prelude::*;

use crate::app::App;
use crate::app::DisplayableItem;
use crate::app::ViewState;
use crate::style::Color;
use crate::style::Line;
use crate::style::Rect;
use crate::syntax::SyntaxHighlighter;
use crate::text::copy_text;
use crate::ui::diff_view::draw_diff_view_with_frame;
use crate::ui::diff_view::placed;
use crate::ui::diff_view::DiffFrame;
use crate::ui::diff_view::DiffViewModel;
use crate::ui::diff_view::PlacedImage;
use crate::ui::layout::is_area;
use crate::ui::layout::lies_in;
use crate::ui::layout::needed;
use crate::ui::layout::one_takes_the_rest;
use crate::ui::layout::split_area;
use crate::ui::layout::stacked;
use crate::ui::layout::Direction;
use crate::ui::layout::Part;
use crate::ui::modals::help::centered;
use crate::ui::modals::help::draw_help_modal;
use crate::ui::modals::help::help_rows;
use crate::ui::modals::help::HelpModal;
use crate::ui::modals::warning::banner;
use crate::ui::modals::warning::draw_warning_banner;
use crate::ui::status_bar::bar_height;
use crate::ui::status_bar::bar_lines;
use crate::ui::status_bar::draw_status_bar;
use crate::ui::status_bar::status_bar_height;

pub mod colors;
pub mod diff_view;
pub mod image_view;
pub mod layout;
pub mod modals;
pub mod search;
pub mod selection;
pub mod shown_rows;
pub mod simple_view;
pub mod spans;
pub mod status_bar;
pub mod wrapping;

verus! {

/// Width of what stands between the line number and the text of a line: the prefix, a space, the
/// status symbol and a space.
pub const PREFIX_CHAR_WIDTH: usize = 4;

/// What one row of the screen shows of a line of the diff.
#[derive(Debug)]
pub struct ScreenRowInfo {
    /// The text of the row, as it is copied.
    pub content: String,
    /// Whether the row is the heading of a file.
    pub is_file_header: bool,
    /// The file that the heading is of.
    pub file_path: Option<String>,
    /// Whether the row goes on with the line of the row above it.
    pub is_continuation: bool,
}

/// What a `ScreenRowInfo` holds.
pub struct ScreenRowInfoView {
    pub content: Seq<char>,
    pub is_file_header: bool,
    pub file_path: Option<Seq<char>>,
    pub is_continuation: bool,
}

impl DeepView for ScreenRowInfo {
    type V = ScreenRowInfoView;

    open spec fn deep_view(&self) -> ScreenRowInfoView {
        ScreenRowInfoView {
            content: self.content@,
            is_file_header: self.is_file_header,
            file_path: self.file_path.deep_view(),
            is_continuation: self.is_continuation,
        }
    }
}

impl Clone for ScreenRowInfo {
    fn clone(&self) -> (r: Self)
        ensures
            r.deep_view() == self.deep_view(),
    {
        ScreenRowInfo {
            content: self.content.clone(),
            is_file_header: self.is_file_header,
            file_path: copy_text(&self.file_path),
            is_continuation: self.is_continuation,
        }
    }
}

/// The areas of the screen.
#[derive(Clone, Copy, Debug, PartialEq, Eq, Structural)]
pub struct FrameAreas {
    /// A row for a banner, where there is one.
    pub warning: Option<Rect>,
    pub diff: Rect,
    pub status: Rect,
}

impl FrameAreas {
    /// Whether the areas divide the screen: a row for a banner at the top, where there is one, the
    /// status bar at the bottom, and the diff between them, each over the full width. Where there
    /// is no room for all of them, they still lie inside the screen.
    pub open spec fn divide(self, size: Rect, has_warning: bool, status_height: int) -> bool {
        let top = if has_warning {
            1int
        } else {
            0
        };
        &&& self.warning is Some <==> has_warning
        &&& self.warning matches Some(warning) ==> lies_in(warning, size) && warning.x == size.x
            && warning.width == size.width
        &&& lies_in(self.diff, size)
        &&& lies_in(self.status, size)
        &&& self.diff.x == size.x && self.diff.width == size.width
        &&& self.status.x == size.x && self.status.width == size.width
        &&& size.height > top + status_height ==> {
            &&& has_warning ==> self.warning == Some(
                Rect { x: size.x, y: size.y, width: size.width, height: 1 },
            )
            &&& self.diff == (Rect {
                x: size.x,
                y: (size.y + top) as u16,
                width: size.width,
                height: (size.height - top - status_height) as u16,
            })
            &&& self.status == (Rect {
                x: size.x,
                y: (size.y + size.height - status_height) as u16,
                width: size.width,
                height: status_height as u16,
            })
        }
    }
}

/// Divides the screen: a row for a banner at the top, where there is one, the status bar at the
/// bottom, and the diff between them. Where there is no room for all of them, they still lie
/// inside the screen.
pub fn frame_areas(size: Rect, has_warning: bool, status_height: u16) -> (r: FrameAreas)
    requires
        is_area(size),
    ensures
        r.divide(size, has_warning, status_height as int),
{
    if has_warning {
        let parts: [Part; 3] = [Part::Length(1), Part::Min(1), Part::Length(status_height)];
        let areas = split_area(size, Direction::Down, parts.as_slice());
        proof {
            let p = parts@;
            reveal_with_fuel(needed, 4);
            assert(p.drop_last().drop_last().drop_last().len() == 0);
            assert(one_takes_the_rest(p, 1));
            assert(p.take(0).len() == 0);
            assert(p.take(1) =~= p.drop_last().drop_last());
            assert(p.take(2) =~= p.drop_last());
            assert(p.take(3) =~= p);
            let a = stacked(size, p, 1, 0);
            let b = stacked(size, p, 1, 1);
            let c = stacked(size, p, 1, 2);
        }
        FrameAreas { warning: Some(areas[0]), diff: areas[1], status: areas[2] }
    } else {
        let parts: [Part; 2] = [Part::Min(1), Part::Length(status_height)];
        let areas = split_area(size, Direction::Down, parts.as_slice());
        proof {
            let p = parts@;
            reveal_with_fuel(needed, 3);
            assert(p.drop_last().drop_last().len() == 0);
            assert(one_takes_the_rest(p, 0));
            assert(p.take(0).len() == 0);
            assert(p.take(1) =~= p.drop_last());
            assert(p.take(2) =~= p);
            let a = stacked(size, p, 0, 0);
            let b = stacked(size, p, 0, 1);
        }
        FrameAreas { warning: None, diff: areas[0], status: areas[1] }
    }
}

/// The screen as it is drawn.
#[derive(Debug)]
pub struct ScreenFrame {
    pub areas: FrameAreas,
    pub warning: Option<Line>,
    /// How many rows of the diff are visible.
    pub viewport_height: usize,
    pub diff: DiffFrame,
    pub images: Vec<PlacedImage>,
    pub status: Vec<Line>,
    pub help: Option<HelpModal>,
}

/// How many rows of the diff are visible in an area, inside the border and without the bar of a
/// search.
pub open spec fn visible_rows(area: Rect, searching: bool) -> nat {
    let taken = if searching {
        3int
    } else {
        2
    };
    if area.height >= taken {
        (area.height - taken) as nat
    } else {
        0
    }
}

/// The message of the banner: what went wrong, or else that there are conflicts.
pub open spec fn warning_text(app: App) -> Option<Seq<char>> {
    match app.error {
        Some(error) => Some(error@),
        None => match app.conflict_warning {
            Some(warning) => Some(warning@),
            None => None,
        },
    }
}

/// Draws the screen: the banner, the items of the diff that are shown, the status bar, and the help
/// over them.
pub fn draw_with_frame(
    app: &mut App,
    size: Rect,
    items: &[DisplayableItem],
    highlighter: &mut SyntaxHighlighter,
) -> (r: ScreenFrame)
    requires
        forall|i: int|
            0 <= i < items@.len() ==> (#[trigger] items@[i] matches DisplayableItem::Line(idx)
                ==> idx < old(app).lines@.len()),
        is_area(size),
        size.x < u16::MAX,
        size.y + size.height < u16::MAX,
        old(app).search matches Some(search) ==> search.current < u64::MAX,
    ensures
        r.areas.divide(
            size,
            warning_text(*old(app)) is Some,
            bar_height(*old(app), size.width) as int,
        ),
        r.warning is Some <==> warning_text(*old(app)) is Some,
        r.warning matches Some(line) ==> line.deep_view() == banner(
            warning_text(*old(app))->0,
            None,
        ),
        r.viewport_height == visible_rows(r.areas.diff, old(app).search is Some),
        exists|model: DiffViewModel| #[trigger]
            model.shows(*old(app), items@, r.areas.diff) && model.drawn_as(
                r.diff,
                old(highlighter)@.fresh(),
                final(highlighter)@,
            ),
        (r.images.deep_view(), final(app).image_cache@) == placed(
            old(app).image_cache@,
            r.diff.output.image_positions.deep_view(),
            r.diff.output.content_offset,
            r.areas.diff,
            old(app).font_size,
        ),
        r.status.deep_view() == bar_lines(*final(app), r.areas.status),
        r.help is Some <==> old(app).view.show_help,
        r.help matches Some(help) ==> help.area == centered(size, 54, 53) && help.title@ == " Help "@
            && help.border == Color::Cyan && help.lines.deep_view() == help_rows(old(app).comparison.vcs_backend),
        final(app).view.row_map.deep_view() == r.diff.output.row_map.deep_view(),
        *final(app) == (App {
            image_cache: final(app).image_cache,
            view: ViewState { row_map: final(app).view.row_map, ..old(app).view },
            ..*old(app)
        }),
{
    let has_warning = app.conflict_warning.is_some() || app.error.is_some();
    let areas = frame_areas(size, has_warning, status_bar_height(app, size.width));
    let warning = match &app.error {
        Some(error) => Some(draw_warning_banner(error.as_str())),
        None => match &app.conflict_warning {
            Some(warning) => Some(draw_warning_banner(warning.as_str())),
            None => None,
        },
    };
    let taken: u16 = if app.search.is_some() {
        3
    } else {
        2
    };
    let viewport_height = areas.diff.height.saturating_sub(taken) as usize;
    let (diff, images) = draw_diff_view_with_frame(app, items, areas.diff, highlighter);
    let status = draw_status_bar(app, areas.status);
    let help = if app.view.show_help {
        Some(draw_help_modal(size, app.comparison.vcs_backend))
    } else {
        None
    };
    ScreenFrame { areas, warning, viewport_height, diff, images, status, help }
}

/// The areas fill the screen from top to bottom, where there is room for all of them, and lie below
/// each other: a banner of one row, the diff, and the status bar with the rows that it needs.
pub proof fn law_areas_fill_the_screen(
    areas: FrameAreas,
    size: Rect,
    has_warning: bool,
    status_height: u16,
)
    requires
        is_area(size),
        areas.divide(size, has_warning, status_height as int),
        size.height > status_height + 1,
    ensures
        areas.diff.y + areas.diff.height == areas.status.y,
        areas.status.y + areas.status.height == size.y + size.height,
        areas.status.height == status_height,
        areas.diff.height >= 1,
        match areas.warning {
            Some(warning) => has_warning && warning.y == size.y && warning.height == 1 && warning.y
                + 1 == areas.diff.y,
            None => !has_warning && areas.diff.y == size.y,
        },
{
}

/// The rows that are visible are those of the area but for the border, and one more is taken while
/// something is searched for.
pub proof fn law_border_and_search_take_rows(area: Rect)
    ensures
        area.height >= 2 ==> visible_rows(area, false) + 2 == area.height,
        area.height >= 3 ==> visible_rows(area, true) + 1 == visible_rows(area, false),
        area.height < 2 ==> visible_rows(area, false) == 0,
        area.height < 3 ==> visible_rows(area, true) == 0,
{
}

/// What went wrong is told before anything else; a banner is there exactly where there is something
/// to tell.
pub proof fn law_errors_are_told_first(app: App)
    ensures
        app.error matches Some(error) ==> warning_text(app) == Some(error@),
        app.error is None ==> (app.conflict_warning matches Some(warning) ==> warning_text(app)
            == Some(warning@)),
        warning_text(app) is None <==> app.error is None && app.conflict_warning is None,
{
}

} // verus!

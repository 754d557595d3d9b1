//! What is drawn over the views or in their place.
use vstd::prelude::*;
use vstd::string::*;

use crate::style::plain_style;
use crate::style::Color;
use crate::style::Rect;
use crate::style::Style;
use crate::ui::modals::help::centered;
use crate::ui::modals::help::draw_short_help;
use crate::ui::modals::help::short_help_rows;
use crate::ui::modals::help::HelpModal;

pub mod help;
pub mod warning;

verus! {

/// Text in a frame with a title.
#[derive(Debug)]
pub struct Notice {
    pub area: Rect,
    pub title: &'static str,
    pub border: Color,
    pub text: String,
    pub style: Style,
}

/// That something went wrong.
pub fn draw_error(message: &str, area: Rect) -> (r: Notice)
    ensures
        r.area == area,
        r.title@ == " Error "@,
        r.border == Color::Red,
        r.text@ == message@,
        r.style == plain_style().with_fg(Color::Red),
{
    Notice {
        area,
        title: " Error ",
        border: Color::Red,
        text: message.to_string(),
        style: Style::default().fg(Color::Red),
    }
}

/// That there is nothing to show.
pub fn draw_no_changes(base_branch: &str, area: Rect) -> (r: Notice)
    ensures
        r.area == area,
        r.title@ == " branchdiff "@,
        r.border == Color::DarkGray,
        r.text@ == "No changes compared to "@ + base_branch@,
        r.style == plain_style().with_fg(Color::DarkGray),
{
    let mut text = String::from_str("No changes compared to ");
    text.append(base_branch);
    Notice {
        area,
        title: " branchdiff ",
        border: Color::DarkGray,
        text,
        style: Style::default().fg(Color::DarkGray),
    }
}

/// The keys of a view that can be cycled through its modes, in the middle of an area.
pub fn draw_help_modal(area: Rect) -> (r: HelpModal)
    ensures
        r.area == centered(area, 50, 22),
        r.title@ == " Help "@,
        r.border == Color::Cyan,
        r.lines.deep_view() == short_help_rows("Cycle view mode"@),
{
    draw_short_help(area, "Cycle view mode")
}

} // verus!

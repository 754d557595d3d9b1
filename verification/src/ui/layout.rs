//! How areas of the screen are divided.
use ratatui::layout::Constraint;
use ratatui::layout::Layout;
use vstd::prelude::*;

use crate::style::Rect;

verus! {

/// The way in which an area is divided.
#[derive(Clone, Copy, Debug, PartialEq, Eq, Structural)]
pub enum Direction {
    Across,
    Down,
}

/// What is asked of one of the parts that an area is divided into.
#[derive(Clone, Copy, Debug, PartialEq, Eq, Structural)]
pub enum Part {
    /// So many cells.
    Length(u16),
    /// So many cells, and all that is left.
    Min(u16),
    /// So much of the area.
    Percentage(u16),
}

/// An area whose right and bottom edges can be counted to.
pub open spec fn is_area(area: Rect) -> bool {
    area.x + area.width <= u16::MAX && area.y + area.height <= u16::MAX
}

/// Whether an area lies inside another one.
pub open spec fn lies_in(part: Rect, area: Rect) -> bool {
    &&& area.x <= part.x
    &&& part.x + part.width <= area.x + area.width
    &&& area.y <= part.y
    &&& part.y + part.height <= area.y + area.height
}

/// The left and the right half of an area. The left one is the larger one where the width is odd.
pub open spec fn halves_of(area: Rect) -> (Rect, Rect) {
    let left = (area.width + 1) / 2;
    (
        Rect { x: area.x, y: area.y, width: left as u16, height: area.height },
        Rect {
            x: (area.x + left) as u16,
            y: area.y,
            width: (area.width - left) as u16,
            height: area.height,
        },
    )
}

/// The cells that parts need at least. Parts that are asked for in percent need none.
pub open spec fn needed(parts: Seq<Part>) -> nat
    decreases parts.len(),
{
    if parts.len() == 0 {
        0
    } else {
        needed(parts.drop_last()) + (match parts.last() {
            Part::Length(n) => n as nat,
            Part::Min(n) => n as nat,
            Part::Percentage(_) => 0,
        })
    }
}

/// Whether a fixed number of cells is asked for each part but for part `at`, which takes the rest.
pub open spec fn one_takes_the_rest(parts: Seq<Part>, at: int) -> bool {
    &&& 0 <= at < parts.len()
    &&& parts[at] is Min
    &&& forall|i: int| 0 <= i < parts.len() && i != at ==> #[trigger] parts[i] is Length
}

/// Part `i` of an area that is divided downwards, with room for all parts. Part `at` takes the
/// rest.
pub open spec fn stacked(area: Rect, parts: Seq<Part>, at: int, i: int) -> Rect {
    let spare = area.height - needed(parts);
    Rect {
        x: area.x,
        y: (area.y + needed(parts.take(i)) + (if at < i {
            spare
        } else {
            0
        })) as u16,
        width: area.width,
        height: (needed(parts.take(i + 1)) - needed(parts.take(i)) + (if at == i {
            spare
        } else {
            0
        })) as u16,
    }
}

/// `ratatui::layout::Layout::split`. The parts lie inside the area, each as wide as it where it is
/// divided downwards and as high as it where it is divided across. Two parts of half the area each
/// meet in its middle. Where there is room for parts of fixed heights and one that takes the rest,
/// they stand below each other and fill the area. Nothing more is said of parts that there is no
/// room for: the documentation calls them indeterminate.
#[verifier::external_body]
pub(crate) fn split_area(area: Rect, direction: Direction, parts: &[Part]) -> (r: Vec<Rect>)
    requires
        is_area(area),
    ensures
        r@.len() == parts@.len(),
        forall|i: int| 0 <= i < r@.len() ==> lies_in(#[trigger] r@[i], area),
        forall|i: int|
            0 <= i < r@.len() ==> (if direction is Down {
                (#[trigger] r@[i]).x == area.x && r@[i].width == area.width
            } else {
                r@[i].y == area.y && r@[i].height == area.height
            }),
        direction is Across && parts@ == seq![Part::Percentage(50), Part::Percentage(50)] ==> r@ == seq![
            halves_of(area).0,
            halves_of(area).1,
        ],
        direction is Down && needed(parts@) <= area.height ==> forall|at: int, i: int|
            #![trigger stacked(area, parts@, at, i)]
            one_takes_the_rest(parts@, at) && 0 <= i < r@.len() ==> r@[i] == stacked(
                area,
                parts@,
                at,
                i,
            ),
{
    let whole = ratatui::layout::Rect { x: area.x, y: area.y, width: area.width, height: area.height };
    let asked = parts.iter().map(|part| match *part {
        Part::Length(n) => Constraint::Length(n),
        Part::Min(n) => Constraint::Min(n),
        Part::Percentage(n) => Constraint::Percentage(n),
    });
    let way = match direction {
        Direction::Across => ratatui::layout::Direction::Horizontal,
        Direction::Down => ratatui::layout::Direction::Vertical,
    };
    let split = Layout::new(way, asked).split(whole);
    split.iter().map(|r| Rect { x: r.x, y: r.y, width: r.width, height: r.height }).collect()
}

/// The left and the right half of an area.
pub fn split_in_half(area: Rect) -> (r: (Rect, Rect))
    requires
        is_area(area),
    ensures
        r == halves_of(area),
        is_area(r.0),
        is_area(r.1),
{
    let parts: [Part; 2] = [Part::Percentage(50), Part::Percentage(50)];
    assert(parts@ =~= seq![Part::Percentage(50), Part::Percentage(50)]);
    let halves = split_area(area, Direction::Across, parts.as_slice());
    (halves[0], halves[1])
}

/// The halves of an area lie side by side and fill it, and neither is wider than the other by more
/// than one cell.
pub proof fn law_halves_fill_the_area(area: Rect)
    requires
        is_area(area),
    ensures
        ({
            let (left, right) = halves_of(area);
            &&& left.x == area.x
            &&& right.x == left.x + left.width
            &&& right.x + right.width == area.x + area.width
            &&& right.width <= left.width <= right.width + 1
            &&& left.y == area.y && left.height == area.height
            &&& right.y == area.y && right.height == area.height
        }),
{
}

proof fn lemma_needed_to(parts: Seq<Part>, i: int)
    requires
        0 <= i < parts.len(),
    ensures
        needed(parts.take(i)) <= needed(parts.take(i + 1)) <= needed(parts),
        parts[i] matches Part::Length(n) ==> needed(parts.take(i + 1)) == needed(parts.take(i)) + n,
        parts[i] matches Part::Min(n) ==> needed(parts.take(i + 1)) == needed(parts.take(i)) + n,
    decreases parts.len() - i,
{
    assert(parts.take(i + 1).drop_last() =~= parts.take(i));
    if i + 1 < parts.len() {
        lemma_needed_to(parts, i + 1);
    } else {
        assert(parts.take(i + 1) =~= parts);
    }
}

/// Parts that an area is divided into downwards follow each other without a gap, from its top to its
/// bottom; each has the height that it asks for, and only the one that takes the rest may have more.
pub proof fn law_stacked_parts_fill_the_area(area: Rect, parts: Seq<Part>, at: int, i: int)
    requires
        is_area(area),
        one_takes_the_rest(parts, at),
        needed(parts) <= area.height,
        0 <= i < parts.len(),
    ensures
        ({
            let part = stacked(area, parts, at, i);
            &&& part.x == area.x && part.width == area.width
            &&& i == 0 ==> part.y == area.y
            &&& i + 1 < parts.len() ==> stacked(area, parts, at, i + 1).y == part.y + part.height
            &&& i + 1 == parts.len() ==> part.y + part.height == area.y + area.height
            &&& parts[i] matches Part::Length(n) ==> part.height == n
            &&& parts[i] matches Part::Min(n) ==> part.height >= n
        }),
{
    lemma_needed_to(parts, i);
    assert(parts.take(0).len() == 0);
    assert(parts.take(parts.len() as int) =~= parts);
    if i + 1 < parts.len() {
        lemma_needed_to(parts, i + 1);
    }
    lemma_needed_to(parts, at);
}

} // verus!

//! The colours of the views, and text that stays readable on its background.
use vstd::prelude::*;

use crate::diff::LineSource;
use crate::float::below;
use crate::float::less;
use crate::float::single;
use crate::float::single_quotient;
use crate::float::single_sum;
use crate::float::sum;
use crate::float::Float;
use crate::style::Color;
use crate::style::Style;
use crate::ui::spans::counterpart;

verus! {

/// Foreground of text that has no colour of its own: a neutral light gray.
#[verifier::allow_in_spec]
pub fn default_fg() -> Color
    returns
        Color::Rgb(200, 200, 200),
{
    Color::Rgb(200, 200, 200)
}

/// The background of the match that was gone to last.
#[verifier::allow_in_spec]
pub fn search_current_bg() -> Color
    returns
        Color::Rgb(200, 150, 40),
{
    Color::Rgb(200, 150, 40)
}

/// The background of the other matches.
#[verifier::allow_in_spec]
pub fn search_match_bg() -> Color
    returns
        Color::Rgb(110, 90, 40),
{
    Color::Rgb(110, 90, 40)
}

/// How bright a colour appears, from 0 for black to 1 for white, in single precision: the weighted
/// sum of red, green and blue with the weights 0.299, 0.587 and 0.114, for a colour given by its
/// parts, and a fixed value for a named colour.
pub open spec fn brightness(color: Color) -> (nat, nat) {
    match color {
        Color::Rgb(r, g, b) => {
            let red = single(10032775 * r as nat, 33554432);
            let green = single(4924113 * g as nat, 8388608);
            let blue = single(15300821 * b as nat, 134217728);
            let sum = single_sum(single_sum(red, green), blue);
            single(sum.0, 255 * sum.1)
        },
        Color::Black => (0, 1),
        Color::White => (1, 1),
        Color::DarkGray => (1, 4),
        Color::Gray => (1, 2),
        Color::Red | Color::LightRed => (5033165, 16777216),
        Color::Green | Color::LightGreen => (9898557, 16777216),
        Color::Yellow | Color::LightYellow => (7465861, 8388608),
        Color::Blue | Color::LightBlue => (7381975, 67108864),
        Color::Magenta | Color::LightMagenta => (13757317, 33554432),
        Color::Cyan | Color::LightCyan => (11744051, 16777216),
        _ => (1, 2),
    }
}

/// How far two colours stand apart: the brighter brightness over the darker one, each raised by
/// 0.05, in single precision.
pub open spec fn contrast(a: Color, b: Color) -> (nat, nat) {
    let (light, dark) = if below(brightness(b), brightness(a)) {
        (brightness(a), brightness(b))
    } else {
        (brightness(b), brightness(a))
    };
    let over = single_sum(light, (13421773, 268435456));
    let under = single_sum(dark, (13421773, 268435456));
    single(over.0 * under.1, under.0 * over.1)
}

/// Light or dark gray, whichever stands out more from the background.
pub open spec fn readable_on(bg: Color) -> Color {
    if below(contrast(Color::Rgb(30, 30, 30), bg), contrast(Color::Rgb(220, 220, 220), bg)) {
        Color::Rgb(220, 220, 220)
    } else {
        Color::Rgb(30, 30, 30)
    }
}

/// The foreground where its contrast with the background is at least 3, else a readable gray.
pub open spec fn contrasted(fg: Color, bg: Color) -> Color {
    if contrast(fg, bg).0 >= 3 * contrast(fg, bg).1 {
        fg
    } else {
        readable_on(bg)
    }
}

proof fn lemma_within(f: Float, top: int, low: int, top2: int, low2: int)
    requires
        f.within(top, low),
        0 <= top <= top2,
        1 <= low <= low2,
    ensures
        f.within(top2, low2),
{
    assert(f.m <= top2 * f.d) by (nonlinear_arith)
        requires
            f.m <= top * f.d,
            top <= top2,
            f.d >= 1,
    ;
    if f.m > 0 {
        assert(f.m * low2 >= f.d) by (nonlinear_arith)
            requires
                f.m * low >= f.d,
                low <= low2,
                f.m > 0,
        ;
    }
}

/// One part of a colour, weighted by `weight / den`.
fn weighted(weight: u128, den: u128, part: u8) -> (r: Float)
    requires
        0 < weight <= den <= 0x1000_0000,
        den <= 16 * weight,
    ensures
        r.fraction() == single(weight as nat * part as nat, den as nat),
        r.within(256, 32),
{
    proof {
        assert(weight * part <= 255 * den) by (nonlinear_arith)
            requires
                weight <= den,
                part <= 255,
        ;
        if part > 0 {
            assert(den <= weight * part * 16) by (nonlinear_arith)
                requires
                    den <= 16 * weight,
                    part >= 1,
            ;
        } else {
            assert(weight * part == 0) by (nonlinear_arith)
                requires
                    part == 0,
            ;
        }
    }
    single_quotient(weight * part as u128, den, Ghost(255), Ghost(16))
}

/// How bright a colour appears.
pub fn luminance(color: Color) -> (r: Float)
    ensures
        r.fraction() == brightness(color),
        r.within(5, 65536),
{
    match color {
        Color::Rgb(r, g, b) => {
            let red = weighted(10032775, 33554432, r);
            let green = weighted(4924113, 8388608, g);
            let blue = weighted(15300821, 134217728, b);
            let part = sum(red, green, Ghost(256), Ghost(256), Ghost(32));
            proof {
                lemma_within(blue, 256, 32, 256, 64);
            }
            let whole = sum(part, blue, Ghost(513), Ghost(256), Ghost(64));
            proof {
                assert(whole.m > 0 ==> 255 * whole.d <= whole.m * 32640) by (nonlinear_arith)
                    requires
                        whole.m > 0 ==> whole.m * 128 >= whole.d,
                ;
                assert(whole.m <= 4 * (255 * whole.d)) by (nonlinear_arith)
                    requires
                        whole.m <= 770 * whole.d,
                        whole.d >= 1,
                ;
            }
            let r = single_quotient(whole.m, 255 * whole.d, Ghost(4), Ghost(32640));
            proof {
                lemma_within(r, 5, 65280, 5, 65536);
            }
            r
        },
        Color::Black => Float { m: 0, d: 1 },
        Color::White => Float { m: 1, d: 1 },
        Color::DarkGray => Float { m: 1, d: 4 },
        Color::Gray => Float { m: 1, d: 2 },
        Color::Red | Color::LightRed => Float { m: 5033165, d: 16777216 },
        Color::Green | Color::LightGreen => Float { m: 9898557, d: 16777216 },
        Color::Yellow | Color::LightYellow => Float { m: 7465861, d: 8388608 },
        Color::Blue | Color::LightBlue => Float { m: 7381975, d: 67108864 },
        Color::Magenta | Color::LightMagenta => Float { m: 13757317, d: 33554432 },
        Color::Cyan | Color::LightCyan => Float { m: 11744051, d: 16777216 },
        _ => Float { m: 1, d: 2 },
    }
}

/// How far two colours stand apart.
pub fn contrast_ratio(color1: Color, color2: Color) -> (r: Float)
    ensures
        r.fraction() == contrast(color1, color2),
        r.within(0x100_0000, 0x100_0000),
{
    let l1 = luminance(color1);
    let l2 = luminance(color2);
    proof {
        lemma_within(l1, 5, 65536, 0x100_0000, 0x100_0000);
        lemma_within(l2, 5, 65536, 0x100_0000, 0x100_0000);
    }
    let (lighter, darker) = if less(l2, l1) {
        (l1, l2)
    } else {
        (l2, l1)
    };
    let raised = Float { m: 13421773, d: 268435456 };
    let over = sum(lighter, raised, Ghost(5), Ghost(1), Ghost(65536));
    let under = sum(darker, raised, Ghost(5), Ghost(1), Ghost(65536));
    proof {
        assert(over.m * under.d <= 0x100_0000 * 0x200_0000_0000) by (nonlinear_arith)
            requires
                over.m <= 0x100_0000,
                under.d <= 0x200_0000_0000,
        ;
        assert(0 < under.m * over.d <= 0x100_0000 * 0x200_0000_0000) by (nonlinear_arith)
            requires
                0 < under.m <= 0x100_0000,
                1 <= over.d <= 0x200_0000_0000,
        ;
        assert(over.m * under.d <= 917504 * (under.m * over.d)) by (nonlinear_arith)
            requires
                over.m <= 7 * over.d,
                under.d <= under.m * 131072,
                over.d >= 1,
                under.m >= 1,
        ;
        assert(under.m * over.d <= (over.m * under.d) * 917504) by (nonlinear_arith)
            requires
                under.m <= 7 * under.d,
                over.d <= over.m * 131072,
                under.d >= 1,
                over.m >= 1,
        ;
    }
    let r = single_quotient(over.m * under.d, under.m * over.d, Ghost(917504), Ghost(917504));
    proof {
        lemma_within(r, 917505, 1835008, 0x100_0000, 0x100_0000);
    }
    r
}

/// Light or dark gray, whichever stands out more from the background.
pub fn contrasting_fg(bg: Color) -> (r: Color)
    ensures
        r == readable_on(bg),
{
    let light = Color::Rgb(220, 220, 220);
    let dark = Color::Rgb(30, 30, 30);
    if less(contrast_ratio(dark, bg), contrast_ratio(light, bg)) {
        light
    } else {
        dark
    }
}

/// The foreground, where it can be read on the background; else a colour that can.
pub fn ensure_contrast(fg: Color, bg: Color) -> (r: Color)
    ensures
        r == contrasted(fg, bg),
{
    let ratio = contrast_ratio(fg, bg);
    if ratio.m >= 3 * ratio.d {
        fg
    } else {
        contrasting_fg(bg)
    }
}

/// The subtle background of a whole line. The brightness of a deletion grows from committed over
/// staged to unstaged.
pub open spec fn line_bg(source: LineSource) -> Color {
    match source {
        LineSource::Base => Color::Reset,
        LineSource::Committed => Color::Rgb(25, 50, 50),
        LineSource::Staged => Color::Rgb(25, 50, 25),
        LineSource::Unstaged => Color::Rgb(60, 60, 18),
        LineSource::DeletedBase => Color::Rgb(50, 30, 30),
        LineSource::DeletedCommitted => Color::Rgb(58, 30, 28),
        LineSource::DeletedStaged => Color::Rgb(65, 30, 25),
        LineSource::CanceledCommitted | LineSource::CanceledStaged => Color::Rgb(50, 25, 50),
        LineSource::FileHeader => Color::Reset,
        LineSource::Elided => Color::Reset,
    }
}

/// The stronger background of the characters that changed within a line.
pub open spec fn highlight_bg(source: LineSource) -> Color {
    match source {
        LineSource::Committed => Color::Rgb(50, 100, 100),
        LineSource::Staged => Color::Rgb(50, 100, 50),
        LineSource::Unstaged => Color::Rgb(130, 130, 35),
        LineSource::DeletedBase => Color::Rgb(95, 55, 55),
        LineSource::DeletedCommitted => Color::Rgb(105, 52, 52),
        LineSource::DeletedStaged => Color::Rgb(115, 55, 45),
        LineSource::CanceledCommitted | LineSource::CanceledStaged => Color::Rgb(100, 50, 100),
        _ => line_bg(source),
    }
}

/// The neutral foreground of a line.
pub open spec fn line_fg(source: LineSource) -> Color {
    match source {
        LineSource::FileHeader => Color::Rgb(220, 220, 220),
        LineSource::Elided => Color::Rgb(90, 90, 95),
        _ => default_fg(),
    }
}

/// The style of a line: headings are bold, elisions are dimmed.
pub open spec fn style_of_line(source: LineSource) -> Style {
    let style = crate::style::plain_style().with_fg(line_fg(source)).with_bg(line_bg(source));
    match source {
        LineSource::FileHeader => style.with_bold(),
        LineSource::Elided => style.with_dim(),
        _ => style,
    }
}

/// The style of the characters that changed within a line.
pub open spec fn style_of_highlight(source: LineSource) -> Style {
    style_of_line(source).with_fg(contrasted(line_fg(source), highlight_bg(source))).with_bg(
        highlight_bg(source),
    )
}

/// The mark of a source in the gutter: `C` where the change is committed, `S` where it is staged.
pub open spec fn symbol_of(source: LineSource) -> Seq<char> {
    match source {
        LineSource::Committed | LineSource::DeletedBase | LineSource::CanceledCommitted => "C"@,
        LineSource::Staged | LineSource::DeletedCommitted | LineSource::CanceledStaged => "S"@,
        _ => " "@,
    }
}

/// The style of a line that is printed, without a background.
pub open spec fn style_of_print(source: LineSource) -> Style {
    let plain = crate::style::plain_style();
    match source {
        LineSource::Base => plain.with_fg(Color::DarkGray),
        LineSource::Committed => plain.with_fg(Color::Cyan),
        LineSource::Staged => plain.with_fg(Color::Green),
        LineSource::Unstaged => plain.with_fg(Color::Yellow),
        LineSource::DeletedBase => plain.with_fg(Color::Red).with_dim(),
        LineSource::DeletedCommitted => plain.with_fg(Color::Red),
        LineSource::DeletedStaged => plain.with_fg(Color::Red),
        LineSource::CanceledCommitted => plain.with_fg(Color::Magenta),
        LineSource::CanceledStaged => plain.with_fg(Color::Magenta),
        LineSource::FileHeader => plain.with_fg(Color::White).with_bold(),
        LineSource::Elided => plain.with_fg(Color::DarkGray).with_dim(),
    }
}

/// The subtle background of a whole line.
pub fn line_bg_color(source: LineSource) -> (r: Color)
    ensures
        r == line_bg(source),
{
    match source {
        LineSource::Base => Color::Reset,
        LineSource::Committed => Color::Rgb(25, 50, 50),
        LineSource::Staged => Color::Rgb(25, 50, 25),
        LineSource::Unstaged => Color::Rgb(60, 60, 18),
        LineSource::DeletedBase => Color::Rgb(50, 30, 30),
        LineSource::DeletedCommitted => Color::Rgb(58, 30, 28),
        LineSource::DeletedStaged => Color::Rgb(65, 30, 25),
        LineSource::CanceledCommitted | LineSource::CanceledStaged => Color::Rgb(50, 25, 50),
        LineSource::FileHeader => Color::Reset,
        LineSource::Elided => Color::Reset,
    }
}

/// The stronger background of the characters that changed within a line.
pub fn highlight_bg_color(source: LineSource) -> (r: Color)
    ensures
        r == highlight_bg(source),
{
    match source {
        LineSource::Committed => Color::Rgb(50, 100, 100),
        LineSource::Staged => Color::Rgb(50, 100, 50),
        LineSource::Unstaged => Color::Rgb(130, 130, 35),
        LineSource::DeletedBase => Color::Rgb(95, 55, 55),
        LineSource::DeletedCommitted => Color::Rgb(105, 52, 52),
        LineSource::DeletedStaged => Color::Rgb(115, 55, 45),
        LineSource::CanceledCommitted | LineSource::CanceledStaged => Color::Rgb(100, 50, 100),
        _ => line_bg_color(source),
    }
}

/// The neutral foreground of a line.
pub fn line_fg_color(source: LineSource) -> (r: Color)
    ensures
        r == line_fg(source),
{
    match source {
        LineSource::FileHeader => Color::Rgb(220, 220, 220),
        LineSource::Elided => Color::Rgb(90, 90, 95),
        _ => default_fg(),
    }
}

/// The style of a line.
pub fn line_style(source: LineSource) -> (r: Style)
    ensures
        r == style_of_line(source),
{
    let style = Style::default().fg(line_fg_color(source)).bg(line_bg_color(source));
    match source {
        LineSource::FileHeader => style.bold(),
        LineSource::Elided => style.dim(),
        _ => style,
    }
}

/// The style of the characters that changed within a line.
pub fn line_style_with_highlight(source: LineSource) -> (r: Style)
    ensures
        r == style_of_highlight(source),
{
    let bg = highlight_bg_color(source);
    let fg = ensure_contrast(line_fg_color(source), bg);
    line_style(source).fg(fg).bg(bg)
}

/// The mark of a source in the gutter.
pub fn status_symbol(source: LineSource) -> (r: &'static str)
    ensures
        r@ == symbol_of(source),
{
    match source {
        LineSource::Committed | LineSource::DeletedBase | LineSource::CanceledCommitted => "C",
        LineSource::Staged | LineSource::DeletedCommitted | LineSource::CanceledStaged => "S",
        _ => " ",
    }
}

/// The style of a line that is printed, without a background.
pub fn print_line_style(source: LineSource) -> (r: Style)
    ensures
        r == style_of_print(source),
{
    let plain = Style::default();
    match source {
        LineSource::Base => plain.fg(Color::DarkGray),
        LineSource::Committed => plain.fg(Color::Cyan),
        LineSource::Staged => plain.fg(Color::Green),
        LineSource::Unstaged => plain.fg(Color::Yellow),
        LineSource::DeletedBase => plain.fg(Color::Red).dim(),
        LineSource::DeletedCommitted => plain.fg(Color::Red),
        LineSource::DeletedStaged => plain.fg(Color::Red),
        LineSource::CanceledCommitted => plain.fg(Color::Magenta),
        LineSource::CanceledStaged => plain.fg(Color::Magenta),
        LineSource::FileHeader => plain.fg(Color::White).bold(),
        LineSource::Elided => plain.fg(Color::DarkGray).dim(),
    }
}

proof fn lemma_sum_same_value(a: (nat, nat), b: (nat, nat), c: (nat, nat))
    requires
        a.0 * b.1 == b.0 * a.1,
        a.1 > 0,
        b.1 > 0,
        c.1 > 0,
    ensures
        single_sum(a, c) == single_sum(b, c),
{
    let n1 = a.0 * c.1 + c.0 * a.1;
    let d1 = a.1 * c.1;
    let n2 = b.0 * c.1 + c.0 * b.1;
    let d2 = b.1 * c.1;
    assert(n1 * d2 == n2 * d1) by (nonlinear_arith)
        requires
            a.0 * b.1 == b.0 * a.1,
            n1 == a.0 * c.1 + c.0 * a.1,
            d1 == a.1 * c.1,
            n2 == b.0 * c.1 + c.0 * b.1,
            d2 == b.1 * c.1,
    ;
    assert(d1 > 0) by (nonlinear_arith)
        requires
            d1 == a.1 * c.1,
            a.1 > 0,
            c.1 > 0,
    ;
    assert(d2 > 0) by (nonlinear_arith)
        requires
            d2 == b.1 * c.1,
            b.1 > 0,
            c.1 > 0,
    ;
    crate::float::lemma_rounded_same_value(n1, d1, n2, d2, crate::float::SINGLE as nat);
}

proof fn lemma_brightness_positive(c: Color)
    ensures
        brightness(c).1 > 0,
{
    if let Color::Rgb(r, g, b) = c {
        let red = single(10032775 * r as nat, 33554432);
        let green = single(4924113 * g as nat, 8388608);
        let blue = single(15300821 * b as nat, 134217728);
        let sum = single_sum(single_sum(red, green), blue);
        crate::float::lemma_growth_positive(sum.0, (crate::float::SINGLE * (255 * sum.1)) as nat);
    }
}

/// The contrast of two colours is the same in either order.
pub proof fn law_contrast_is_symmetric(a: Color, b: Color)
    ensures
        contrast(a, b) == contrast(b, a),
{
    let x = brightness(a);
    let y = brightness(b);
    if !below(x, y) && !below(y, x) {
        lemma_brightness_positive(a);
        lemma_brightness_positive(b);
        lemma_sum_same_value(x, y, (13421773, 268435456));
    }
}

/// The text of a deletion and that of what is put in its place carry the same mark: one that is
/// committed, one that is staged, or none.
pub proof fn law_marks_go_with_the_change(deletion: LineSource)
    ensures
        counterpart(Some(deletion)) matches Some(insertion) ==> symbol_of(insertion) == symbol_of(
            deletion,
        ),
        symbol_of(LineSource::Committed) == seq!['C'],
        symbol_of(LineSource::CanceledCommitted) == seq!['C'],
        symbol_of(LineSource::Staged) == seq!['S'],
        symbol_of(LineSource::CanceledStaged) == seq!['S'],
        symbol_of(LineSource::Unstaged) == seq![' '],
        symbol_of(LineSource::Base) == seq![' '],
        symbol_of(LineSource::FileHeader) == seq![' '],
        symbol_of(LineSource::Elided) == seq![' '],
{
    reveal_strlit("C");
    reveal_strlit("S");
    reveal_strlit(" ");
    assert("C"@ =~= seq!['C']);
    assert("S"@ =~= seq!['S']);
    assert(" "@ =~= seq![' ']);
}

/// Lines of different sources are told apart by their backgrounds, in the line and in what changed
/// within it, and what changed stands out: none of its parts is darker than that of the line, and
/// together they are at least half as strong again. Lines that were added are never redder than
/// they are green, and lines that were deleted always are.
pub proof fn law_backgrounds_tell_sources_apart(a: LineSource, b: LineSource)
    requires
        !(a is Base || a is FileHeader || a is Elided),
        !(b is Base || b is FileHeader || b is Elided),
    ensures
        line_bg(a) == line_bg(b) <==> a == b || (a.cancels() && b.cancels()),
        highlight_bg(a) == highlight_bg(b) <==> a == b || (a.cancels() && b.cancels()),
        line_bg(a) matches Color::Rgb(r, g, _) && (a is Committed || a is Staged || a is Unstaged
            ==> r <= g) && (a is DeletedBase || a is DeletedCommitted || a is DeletedStaged ==> r
            > g),
        highlight_bg(a) matches Color::Rgb(r, g, _) && (a is Committed || a is Staged || a
            is Unstaged ==> r <= g) && (a is DeletedBase || a is DeletedCommitted || a
            is DeletedStaged ==> r > g),
        line_bg(a) matches Color::Rgb(r, g, b) && (highlight_bg(a) matches Color::Rgb(
            red,
            green,
            blue,
        ) && r <= red && g <= green && b <= blue && 2 * (red + green + blue) >= 3 * (r + g + b)),
{
}

/// Deletions grow brighter red from those that are committed over those that are staged to the
/// others.
pub proof fn law_fresh_deletions_are_brighter(a: LineSource, b: LineSource)
    requires
        (a is DeletedBase && (b is DeletedCommitted || b is DeletedStaged)) || (a
            is DeletedCommitted && b is DeletedStaged),
    ensures
        line_bg(a) matches Color::Rgb(older, _, _) && (line_bg(b) matches Color::Rgb(fresher, _, _)
            && older < fresher),
        highlight_bg(a) matches Color::Rgb(older, _, _) && (highlight_bg(b) matches Color::Rgb(
            fresher,
            _,
            _,
        ) && older < fresher),
{
}

/// Text stays readable: its own colour is kept where it stands out enough, and else it gets one of
/// two grays, the one that stands out no less than the other.
pub proof fn law_text_stays_readable(fg: Color, bg: Color)
    ensures
        ({
            let enough = contrast(fg, bg).0 >= 3 * contrast(fg, bg).1;
            let (light, dark) = (Color::Rgb(220, 220, 220), Color::Rgb(30, 30, 30));
            let shown = contrasted(fg, bg);
            &&& enough ==> shown == fg
            &&& !enough ==> (shown == light && below(contrast(dark, bg), contrast(light, bg))) || (
            shown == dark && !below(contrast(dark, bg), contrast(light, bg)))
        }),
{
}

/// Printed lines have no background, and their colours tell added lines, deleted lines, lines that
/// were both, and all others apart.
pub proof fn law_printed_colours_tell_sources_apart(a: LineSource)
    ensures
        style_of_print(a).bg is None,
        style_of_print(a).fg == Some(Color::Red) <==> a is DeletedBase || a is DeletedCommitted || a
            is DeletedStaged,
        style_of_print(a).fg == Some(Color::Magenta) <==> a is CanceledCommitted || a
            is CanceledStaged,
        style_of_print(a).fg == Some(Color::Cyan) <==> a is Committed,
        style_of_print(a).fg == Some(Color::Green) <==> a is Staged,
        style_of_print(a).fg == Some(Color::Yellow) <==> a is Unstaged,
        style_of_print(a).fg == Some(Color::White) <==> a is FileHeader,
        style_of_print(a).fg == Some(Color::DarkGray) <==> a is Base || a is Elided,
{
}

} // verus!

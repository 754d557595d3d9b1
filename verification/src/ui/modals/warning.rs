//! The banner above the diff.
use vstd::prelude::*;
use vstd::string::*;

use crate::style::plain_style;
use crate::style::styled;
use crate::style::Color;
use crate::style::Line;
use crate::style::Span;
use crate::style::SpanView;
use crate::style::Style;
use crate::text::has_text;
use crate::text::stands_at;
use crate::update::RecoveryHint;

verus! {

/// The banner: the message, and the key that runs a command which would help.
pub open spec fn banner(message: Seq<char>, hint: Option<(char, Seq<char>)>) -> Seq<SpanView> {
    let warning = styled(" ⚠ "@ + message + " "@, plain_style().with_fg(Color::Yellow));
    match hint {
        Some((key, command)) => seq![
            warning,
            styled(
                "(press '"@ + seq![key] + "' to run `"@ + command + "`) "@,
                plain_style().with_fg(Color::Cyan).with_bold(),
            ),
        ],
        None => seq![warning],
    }
}

/// The banner with a message.
pub fn draw_warning_banner(message: &str) -> (r: Line)
    ensures
        r.deep_view() == banner(message@, None),
{
    draw_warning_banner_with_hint(message, None)
}

/// The banner with a message and, where there is one, a command that would help.
pub fn draw_warning_banner_with_hint(message: &str, hint: Option<&RecoveryHint>) -> (r: Line)
    ensures
        r.deep_view() == banner(
            message@,
            match hint {
                Some(hint) => Some((hint.key_hint, hint.command_label@)),
                None => None,
            },
        ),
{
    let mut text = String::from_str(" ⚠ ");
    text.append(message);
    text.append(" ");
    let mut spans: Vec<Span> = Vec::new();
    spans.push(Span::styled(text, Style::default().fg(Color::Yellow)));
    if let Some(hint) = hint {
        let mut action = String::from_str("(press '");
        let ghost start = action@;
        action.push(hint.key_hint);
        assert(action@ =~= start + seq![hint.key_hint]);
        action.append("' to run `");
        action.append(hint.command_label);
        action.append("`) ");
        spans.push(Span::styled(action, Style::default().fg(Color::Cyan).bold()));
    }
    let line = Line { spans };
    assert(line.deep_view() =~= banner(
        message@,
        match hint {
            Some(hint) => Some((hint.key_hint, hint.command_label@)),
            None => None,
        },
    ));
    line
}

/// The banner tells the whole message, and, where there is a command that would help, the key that
/// runs it and the command.
pub proof fn law_banner_tells_the_message(message: Seq<char>, hint: Option<(char, Seq<char>)>)
    ensures
        ({
            let line = banner(message, hint);
            &&& has_text(line[0].content, message)
            &&& hint is None <==> line.len() == 1
            &&& hint matches Some((key, command)) ==> line.len() == 2 && line[1].content
                == "(press '"@ + seq![key] + "' to run `"@ + command + "`) "@
        }),
{
    let front = " ⚠ "@;
    let text = front + message + " "@;
    let at: int = front.len() as int;
    assert(text.subrange(at, at + message.len()) =~= message);
    assert(stands_at(text, message, at));
}

} // verus!

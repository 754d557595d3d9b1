//! What keys and the mouse do.
use vstd::prelude::*;

verus! {

/// What can be done.
#[derive(Clone, Copy, Debug, PartialEq, Eq, Structural)]
pub enum AppAction {
    Quit,
    ScrollUp(usize),
    ScrollDown(usize),
    PageUp,
    PageDown,
    GoToTop,
    GoToBottom,
    NextFile,
    PrevFile,
    ToggleHelp,
    CycleViewMode,
    StartSelection(u16, u16),
    UpdateSelection(u16, u16),
    EndSelection,
    CopyPath,
    CopyDiff,
    CopyPatch,
    /// Copy what is selected, or quit where nothing is.
    CopyOrQuit,
    OpenSearch,
    ToggleDiffBase,
    ToggleReviewed,
    ToggleAllReviewed,
    OpenEditor,
    OpenRepo,
    /// Run the command that the banner offers, where it offers one.
    RunRecovery,
    Resize,
    /// Draw every cell of the screen anew.
    ForceRepaint,
    Nothing,
}

/// A key.
#[derive(Clone, Copy, Debug, PartialEq, Eq, Structural)]
pub enum KeyCode {
    Char(char),
    Esc,
    Up,
    Down,
    PageUp,
    PageDown,
    Home,
    End,
    /// Any other key.
    Other,
}

/// The keys that are held down with another one.
#[derive(Clone, Copy, Debug, PartialEq, Eq, Structural)]
pub struct KeyModifiers {
    pub shift: bool,
    pub control: bool,
    /// Any other such key.
    pub other: bool,
}

impl KeyModifiers {
    /// No key is held down.
    #[verifier::allow_in_spec]
    pub fn none() -> KeyModifiers
        returns
            (KeyModifiers { shift: false, control: false, other: false }),
    {
        KeyModifiers { shift: false, control: false, other: false }
    }

    /// Only Shift is held down.
    #[verifier::allow_in_spec]
    pub fn shift() -> KeyModifiers
        returns
            (KeyModifiers { shift: true, control: false, other: false }),
    {
        KeyModifiers { shift: true, control: false, other: false }
    }

    /// Only Control is held down.
    #[verifier::allow_in_spec]
    pub fn control() -> KeyModifiers
        returns
            (KeyModifiers { shift: false, control: true, other: false }),
    {
        KeyModifiers { shift: false, control: true, other: false }
    }
}

/// A button of the mouse.
#[derive(Clone, Copy, Debug, PartialEq, Eq, Structural)]
pub enum MouseButton {
    Left,
    Right,
    Middle,
}

/// What the mouse did.
#[derive(Clone, Copy, Debug, PartialEq, Eq, Structural)]
pub enum MouseEventKind {
    Down(MouseButton),
    Up(MouseButton),
    Drag(MouseButton),
    Moved,
    ScrollDown,
    ScrollUp,
    ScrollLeft,
    ScrollRight,
}

/// What the terminal tells.
#[derive(Clone, Copy, Debug, PartialEq, Eq, Structural)]
pub enum Event {
    Key { code: KeyCode, modifiers: KeyModifiers },
    Mouse { kind: MouseEventKind, column: u16, row: u16 },
    Resize(u16, u16),
    FocusGained,
    FocusLost,
    /// Text was pasted.
    Paste,
}

/// What keys do while others are held down. Letters that stand for something alone or with Control
/// do nothing with other keys; capital letters count with and without Shift.
pub open spec fn key_action(code: KeyCode, modifiers: KeyModifiers) -> AppAction {
    let alone = modifiers == KeyModifiers::none();
    let with_control = modifiers == KeyModifiers::control();
    let capital = modifiers == KeyModifiers::shift() || alone;
    match code {
        KeyCode::Esc => AppAction::Quit,
        KeyCode::Up => AppAction::ScrollUp(1),
        KeyCode::Down => AppAction::ScrollDown(1),
        KeyCode::PageUp => AppAction::PageUp,
        KeyCode::PageDown => AppAction::PageDown,
        KeyCode::Home => AppAction::GoToTop,
        KeyCode::End => AppAction::GoToBottom,
        KeyCode::Other => AppAction::Nothing,
        KeyCode::Char(c) => if c == 'q' {
            AppAction::Quit
        } else if c == 'j' {
            AppAction::NextFile
        } else if c == 'k' {
            AppAction::PrevFile
        } else if c == 'R' {
            AppAction::ToggleAllReviewed
        } else if c == '?' {
            AppAction::ToggleHelp
        } else if c == '/' {
            AppAction::OpenSearch
        } else if c == 'c' && with_control {
            AppAction::CopyOrQuit
        } else if c == 'l' && with_control {
            AppAction::ForceRepaint
        } else if c == 'u' && with_control {
            AppAction::PageUp
        } else if c == 'd' && with_control {
            AppAction::PageDown
        } else if c == 'f' && with_control {
            AppAction::OpenSearch
        } else if c == 'g' && alone {
            AppAction::GoToTop
        } else if c == 'c' && alone {
            AppAction::CycleViewMode
        } else if c == 'p' && alone {
            AppAction::CopyPath
        } else if c == 'm' && alone {
            AppAction::ToggleDiffBase
        } else if c == 'r' && alone {
            AppAction::ToggleReviewed
        } else if c == 'e' && alone {
            AppAction::OpenEditor
        } else if c == 'u' && alone {
            AppAction::RunRecovery
        } else if c == 'G' && capital {
            AppAction::GoToBottom
        } else if c == 'Y' && capital {
            AppAction::CopyDiff
        } else if c == 'D' && capital {
            AppAction::CopyPatch
        } else if c == 'E' && capital {
            AppAction::OpenRepo
        } else {
            AppAction::Nothing
        },
    }
}

/// What the mouse does: it scrolls, and its left button selects.
pub open spec fn mouse_action(kind: MouseEventKind, column: u16, row: u16) -> AppAction {
    match kind {
        MouseEventKind::ScrollUp => AppAction::ScrollUp(3),
        MouseEventKind::ScrollDown => AppAction::ScrollDown(3),
        MouseEventKind::Down(MouseButton::Left) => AppAction::StartSelection(column, row),
        MouseEventKind::Drag(MouseButton::Left) => AppAction::UpdateSelection(column, row),
        MouseEventKind::Up(MouseButton::Left) => AppAction::EndSelection,
        _ => AppAction::Nothing,
    }
}

/// What is done when the terminal tells something. When its size changes or when it comes to the
/// front, what it shows is not to be trusted.
pub open spec fn event_action(event: Event) -> AppAction {
    match event {
        Event::Key { code, modifiers } => key_action(code, modifiers),
        Event::Mouse { kind, column, row } => mouse_action(kind, column, row),
        Event::Resize(_, _) => AppAction::ForceRepaint,
        Event::FocusGained => AppAction::ForceRepaint,
        Event::FocusLost | Event::Paste => AppAction::Nothing,
    }
}

/// What is done when the terminal tells something.
pub fn handle_event(event: Event) -> (r: AppAction)
    ensures
        r == event_action(event),
{
    match event {
        Event::Key { code, modifiers } => handle_key_event(code, modifiers),
        Event::Mouse { kind, column, row } => handle_mouse_event(kind, column, row),
        Event::Resize(_, _) | Event::FocusGained => AppAction::ForceRepaint,
        Event::FocusLost | Event::Paste => AppAction::Nothing,
    }
}

/// What a key does.
pub fn handle_key_event(code: KeyCode, modifiers: KeyModifiers) -> (r: AppAction)
    ensures
        r == key_action(code, modifiers),
{
    let alone = !modifiers.shift && !modifiers.control && !modifiers.other;
    let with_control = !modifiers.shift && modifiers.control && !modifiers.other;
    let capital = !modifiers.control && !modifiers.other;
    match code {
        KeyCode::Char('q') | KeyCode::Esc => AppAction::Quit,
        KeyCode::Char('c') if with_control => AppAction::CopyOrQuit,
        KeyCode::Char('l') if with_control => AppAction::ForceRepaint,
        KeyCode::Up => AppAction::ScrollUp(1),
        KeyCode::Down => AppAction::ScrollDown(1),
        KeyCode::Char('j') => AppAction::NextFile,
        KeyCode::Char('k') => AppAction::PrevFile,
        KeyCode::PageUp => AppAction::PageUp,
        KeyCode::Char('u') if with_control => AppAction::PageUp,
        KeyCode::PageDown => AppAction::PageDown,
        KeyCode::Char('d') if with_control => AppAction::PageDown,
        KeyCode::Char('g') if alone => AppAction::GoToTop,
        KeyCode::Char('G') if capital => AppAction::GoToBottom,
        KeyCode::Home => AppAction::GoToTop,
        KeyCode::End => AppAction::GoToBottom,
        KeyCode::Char('R') => AppAction::ToggleAllReviewed,
        KeyCode::Char('?') => AppAction::ToggleHelp,
        KeyCode::Char('c') if alone => AppAction::CycleViewMode,
        KeyCode::Char('p') if alone => AppAction::CopyPath,
        KeyCode::Char('Y') if capital => AppAction::CopyDiff,
        KeyCode::Char('D') if capital => AppAction::CopyPatch,
        KeyCode::Char('/') => AppAction::OpenSearch,
        KeyCode::Char('f') if with_control => AppAction::OpenSearch,
        KeyCode::Char('m') if alone => AppAction::ToggleDiffBase,
        KeyCode::Char('r') if alone => AppAction::ToggleReviewed,
        KeyCode::Char('e') if alone => AppAction::OpenEditor,
        KeyCode::Char('E') if capital => AppAction::OpenRepo,
        KeyCode::Char('u') if alone => AppAction::RunRecovery,
        _ => AppAction::Nothing,
    }
}

/// What the mouse does.
pub fn handle_mouse_event(kind: MouseEventKind, column: u16, row: u16) -> (r: AppAction)
    ensures
        r == mouse_action(kind, column, row),
{
    match kind {
        MouseEventKind::ScrollUp => AppAction::ScrollUp(3),
        MouseEventKind::ScrollDown => AppAction::ScrollDown(3),
        MouseEventKind::Down(MouseButton::Left) => AppAction::StartSelection(column, row),
        MouseEventKind::Drag(MouseButton::Left) => AppAction::UpdateSelection(column, row),
        MouseEventKind::Up(MouseButton::Left) => AppAction::EndSelection,
        _ => AppAction::Nothing,
    }
}

/// There is always a way out: the keys that quit do so whatever is held down with them.
pub proof fn law_quitting_needs_no_other_key(modifiers: KeyModifiers)
    ensures
        key_action(KeyCode::Char('q'), modifiers) is Quit,
        key_action(KeyCode::Esc, modifiers) is Quit,
{
}

/// Capital letters do the same whether or not the terminal tells that Shift is held down.
pub proof fn law_capital_letters_need_no_shift(c: char)
    requires
        'A' <= c,
        c <= 'Z',
    ensures
        key_action(KeyCode::Char(c), KeyModifiers::shift()) == key_action(
            KeyCode::Char(c),
            KeyModifiers::none(),
        ),
{
}

/// The keys that move through the diff do so whatever is held down with them, and each way there is
/// one for the way back.
pub proof fn law_moving_needs_no_other_key(modifiers: KeyModifiers)
    ensures
        key_action(KeyCode::Up, modifiers) == AppAction::ScrollUp(1),
        key_action(KeyCode::Down, modifiers) == AppAction::ScrollDown(1),
        key_action(KeyCode::PageUp, modifiers) is PageUp,
        key_action(KeyCode::PageDown, modifiers) is PageDown,
        key_action(KeyCode::Home, modifiers) is GoToTop,
        key_action(KeyCode::End, modifiers) is GoToBottom,
        key_action(KeyCode::Char('j'), modifiers) is NextFile,
        key_action(KeyCode::Char('k'), modifiers) is PrevFile,
        key_action(KeyCode::Char('?'), modifiers) is ToggleHelp,
        key_action(KeyCode::Char('/'), modifiers) is OpenSearch,
        key_action(KeyCode::Char('R'), modifiers) is ToggleAllReviewed,
{
}

/// With Control held down, letters do what they do with it alone: copy or quit, draw anew, move by
/// pages, search.
pub proof fn law_keys_with_control(c: char)
    ensures
        ({
            let action = key_action(
                KeyCode::Char(c),
                KeyModifiers { shift: false, control: true, other: false },
            );
            &&& action is CopyOrQuit <==> c == 'c'
            &&& action is ForceRepaint <==> c == 'l'
            &&& action is PageUp <==> c == 'u'
            &&& action is PageDown <==> c == 'd'
            &&& action is OpenSearch <==> c == 'f' || c == '/'
            &&& action is Nothing <==> !seq!['c', 'l', 'u', 'd', 'f', '/', 'q', 'j', 'k', 'R', '?'].contains(
                c,
            )
        }),
{
    let known = seq!['c', 'l', 'u', 'd', 'f', '/', 'q', 'j', 'k', 'R', '?'];
    assert(known[0] == 'c' && known[1] == 'l' && known[2] == 'u' && known[3] == 'd' && known[4]
        == 'f' && known[5] == '/' && known[6] == 'q' && known[7] == 'j' && known[8] == 'k'
        && known[9] == 'R' && known[10] == '?');
}

/// With nothing held down, each letter has its own action, and no other key has it.
pub proof fn law_keys_alone(c: char)
    ensures
        ({
            let action = key_action(
                KeyCode::Char(c),
                KeyModifiers { shift: false, control: false, other: false },
            );
            &&& action is GoToTop <==> c == 'g'
            &&& action is GoToBottom <==> c == 'G'
            &&& action is CycleViewMode <==> c == 'c'
            &&& action is CopyPath <==> c == 'p'
            &&& action is CopyDiff <==> c == 'Y'
            &&& action is CopyPatch <==> c == 'D'
            &&& action is ToggleDiffBase <==> c == 'm'
            &&& action is ToggleReviewed <==> c == 'r'
            &&& action is ToggleAllReviewed <==> c == 'R'
            &&& action is OpenEditor <==> c == 'e'
            &&& action is OpenRepo <==> c == 'E'
            &&& action is RunRecovery <==> c == 'u'
            &&& action is Quit <==> c == 'q'
            &&& action is ToggleHelp <==> c == '?'
            &&& action is OpenSearch <==> c == '/'
            &&& !(action is ForceRepaint) && !(action is CopyOrQuit)
        }),
{
}

/// Only the left button of the mouse selects: where it goes down, from there to where it is dragged,
/// until it goes up. The wheel scrolls by three lines each way.
pub proof fn law_the_left_button_selects(kind: MouseEventKind, column: u16, row: u16)
    ensures
        ({
            let action = event_action(Event::Mouse { kind, column, row });
            &&& action == AppAction::StartSelection(column, row) <==> kind == MouseEventKind::Down(
                MouseButton::Left,
            )
            &&& action == AppAction::UpdateSelection(column, row) <==> kind == MouseEventKind::Drag(
                MouseButton::Left,
            )
            &&& action is EndSelection <==> kind == MouseEventKind::Up(MouseButton::Left)
            &&& action == AppAction::ScrollUp(3) <==> kind is ScrollUp
            &&& action == AppAction::ScrollDown(3) <==> kind is ScrollDown
            &&& action is Nothing <==> !(kind is ScrollUp || kind is ScrollDown || kind
                == MouseEventKind::Down(MouseButton::Left) || kind == MouseEventKind::Drag(
                MouseButton::Left,
            ) || kind == MouseEventKind::Up(MouseButton::Left))
        }),
{
}

/// Whenever what the terminal shows may have been lost, all of it is drawn anew; the terminal going
/// to the back, and pasted text, do nothing.
pub proof fn law_lost_screens_are_drawn_anew(event: Event)
    ensures
        event is Resize || event is FocusGained ==> event_action(event) is ForceRepaint,
        event is FocusLost || event is Paste ==> event_action(event) is Nothing,
        event matches Event::Key { code, modifiers } ==> event_action(event) == key_action(
            code,
            modifiers,
        ),
{
}

} // verus!

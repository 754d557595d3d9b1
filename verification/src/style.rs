//! Styled text: colours, styles, stretches of text in one style, and the areas that they are
//! drawn in.
use vstd::prelude::*;

verus! {

/// A colour of the terminal.
#[derive(Clone, Copy, Debug, PartialEq, Eq, Structural)]
pub enum Color {
    Reset,
    Black,
    Red,
    Green,
    Yellow,
    Blue,
    Magenta,
    Cyan,
    Gray,
    DarkGray,
    LightRed,
    LightGreen,
    LightYellow,
    LightBlue,
    LightMagenta,
    LightCyan,
    White,
    Rgb(u8, u8, u8),
    Indexed(u8),
}

/// The attributes that a style adds to its text.
#[derive(Clone, Copy, Debug, PartialEq, Eq, Structural)]
pub struct Modifier {
    pub bold: bool,
    pub dim: bool,
}

/// The colours and attributes of a stretch of text. A colour that is missing is left as it is.
#[derive(Clone, Copy, Debug, PartialEq, Eq, Structural)]
pub struct Style {
    pub fg: Option<Color>,
    pub bg: Option<Color>,
    pub add_modifier: Modifier,
}

/// The style that changes nothing.
pub open spec fn plain_style() -> Style {
    Style { fg: None, bg: None, add_modifier: Modifier { bold: false, dim: false } }
}

impl Default for Style {
    fn default() -> (r: Self)
        ensures
            r == plain_style(),
    {
        Style { fg: None, bg: None, add_modifier: Modifier { bold: false, dim: false } }
    }
}

impl Style {
    /// The style with another foreground.
    pub open spec fn with_fg(self, color: Color) -> Style {
        Style { fg: Some(color), ..self }
    }

    /// The style with another background.
    pub open spec fn with_bg(self, color: Color) -> Style {
        Style { bg: Some(color), ..self }
    }

    pub open spec fn with_bold(self) -> Style {
        Style { add_modifier: Modifier { bold: true, ..self.add_modifier }, ..self }
    }

    pub open spec fn with_dim(self) -> Style {
        Style { add_modifier: Modifier { dim: true, ..self.add_modifier }, ..self }
    }

    /// The style with another foreground.
    pub fn fg(self, color: Color) -> (r: Style)
        ensures
            r == self.with_fg(color),
    {
        Style { fg: Some(color), bg: self.bg, add_modifier: self.add_modifier }
    }

    /// The style with another background.
    pub fn bg(self, color: Color) -> (r: Style)
        ensures
            r == self.with_bg(color),
    {
        Style { fg: self.fg, bg: Some(color), add_modifier: self.add_modifier }
    }

    /// The style in bold.
    pub fn bold(self) -> (r: Style)
        ensures
            r == self.with_bold(),
    {
        Style {
            fg: self.fg,
            bg: self.bg,
            add_modifier: Modifier { bold: true, dim: self.add_modifier.dim },
        }
    }

    /// The style, dimmed.
    pub fn dim(self) -> (r: Style)
        ensures
            r == self.with_dim(),
    {
        Style {
            fg: self.fg,
            bg: self.bg,
            add_modifier: Modifier { bold: self.add_modifier.bold, dim: true },
        }
    }
}

/// A stretch of text in one style.
#[derive(Debug)]
pub struct Span {
    pub content: String,
    pub style: Style,
}

/// What a `Span` holds.
pub struct SpanView {
    pub content: Seq<char>,
    pub style: Style,
}

impl DeepView for Span {
    type V = SpanView;

    open spec fn deep_view(&self) -> SpanView {
        SpanView { content: self.content@, style: self.style }
    }
}

impl Clone for Span {
    fn clone(&self) -> (r: Self)
        ensures
            r == *self,
    {
        Span { content: self.content.clone(), style: self.style }
    }
}

/// A stretch of text in one style.
pub open spec fn styled(content: Seq<char>, style: Style) -> SpanView {
    SpanView { content, style }
}

/// A stretch of text in the plain style.
pub open spec fn raw(content: Seq<char>) -> SpanView {
    SpanView { content, style: plain_style() }
}

/// The text of some spans, in order.
pub open spec fn text_of_spans(spans: Seq<SpanView>) -> Seq<char>
    decreases spans.len(),
{
    if spans.len() == 0 {
        Seq::empty()
    } else {
        text_of_spans(spans.drop_last()) + spans.last().content
    }
}

impl Span {
    /// A stretch of text in one style.
    pub fn styled(content: String, style: Style) -> (r: Span)
        ensures
            r.deep_view() == styled(content@, style),
    {
        Span { content, style }
    }

    /// A stretch of text in the plain style.
    pub fn raw(content: String) -> (r: Span)
        ensures
            r.deep_view() == raw(content@),
    {
        Span { content, style: Style::default() }
    }
}

/// The spans again, one by one.
pub fn copy_styled(spans: &[Span]) -> (r: Vec<Span>)
    ensures
        r@ == spans@,
{
    let mut out: Vec<Span> = Vec::new();
    let mut i: usize = 0;
    while i < spans.len()
        invariant
            i <= spans@.len(),
            out@ =~= spans@.take(i as int),
        decreases spans.len() - i,
    {
        out.push(spans[i].clone());
        i = i + 1;
    }
    assert(spans@.take(spans@.len() as int) =~= spans@);
    out
}

pub proof fn lemma_text_of_push(spans: Seq<SpanView>, last: SpanView)
    ensures
        text_of_spans(spans.push(last)) == text_of_spans(spans) + last.content,
{
    assert(spans.push(last).drop_last() =~= spans);
}

pub proof fn lemma_text_of_concat(a: Seq<SpanView>, b: Seq<SpanView>)
    ensures
        text_of_spans(a + b) == text_of_spans(a) + text_of_spans(b),
    decreases b.len(),
{
    if b.len() == 0 {
        assert(a + b =~= a);
        assert(text_of_spans(a) + text_of_spans(b) =~= text_of_spans(a));
    } else {
        lemma_text_of_concat(a, b.drop_last());
        assert((a + b).drop_last() =~= a + b.drop_last());
        assert(text_of_spans(a + b) =~= text_of_spans(a) + text_of_spans(b));
    }
}

/// A line of styled text.
#[derive(Debug)]
pub struct Line {
    pub spans: Vec<Span>,
}

impl DeepView for Line {
    type V = Seq<SpanView>;

    open spec fn deep_view(&self) -> Seq<SpanView> {
        self.spans.deep_view()
    }
}

/// An area of the terminal.
#[derive(Clone, Copy, Debug, PartialEq, Eq, Structural)]
pub struct Rect {
    pub x: u16,
    pub y: u16,
    pub width: u16,
    pub height: u16,
}

/// The style of each character of some spans.
pub open spec fn styles_of(spans: Seq<SpanView>) -> Seq<Style>
    decreases spans.len(),
{
    if spans.len() == 0 {
        Seq::empty()
    } else {
        styles_of(spans.drop_last()) + Seq::new(
            spans.last().content.len(),
            |i: int| spans.last().style,
        )
    }
}

pub proof fn lemma_styles_of_concat(a: Seq<SpanView>, b: Seq<SpanView>)
    ensures
        styles_of(a + b) == styles_of(a) + styles_of(b),
    decreases b.len(),
{
    if b.len() == 0 {
        assert(a + b =~= a);
        assert(styles_of(a) + styles_of(b) =~= styles_of(a));
    } else {
        lemma_styles_of_concat(a, b.drop_last());
        assert((a + b).drop_last() =~= a + b.drop_last());
        assert(styles_of(a + b) =~= styles_of(a) + styles_of(b));
    }
}

/// Every character has one style.
pub proof fn lemma_styles_of_text(spans: Seq<SpanView>)
    ensures
        styles_of(spans).len() == text_of_spans(spans).len(),
    decreases spans.len(),
{
    if spans.len() > 0 {
        lemma_styles_of_text(spans.drop_last());
    }
}

pub proof fn lemma_styles_of_few(spans: Seq<SpanView>)
    requires
        spans.len() <= 3,
    ensures
        spans.len() == 0 ==> styles_of(spans) == Seq::<Style>::empty(),
        spans.len() == 1 ==> styles_of(spans) == one_style(spans[0]),
        spans.len() == 2 ==> styles_of(spans) == one_style(spans[0]) + one_style(spans[1]),
        spans.len() == 3 ==> styles_of(spans) == one_style(spans[0]) + one_style(spans[1])
            + one_style(spans[2]),
{
    reveal_with_fuel(styles_of, 4);
    let none = Seq::<Style>::empty();
    if spans.len() == 1 {
        assert(spans.drop_last() =~= Seq::empty());
        assert(none + one_style(spans[0]) =~= one_style(spans[0]));
    } else if spans.len() == 2 {
        assert(spans.drop_last().drop_last() =~= Seq::empty());
        assert(spans.drop_last().last() == spans[0]);
        assert(none + one_style(spans[0]) =~= one_style(spans[0]));
    } else if spans.len() == 3 {
        assert(spans.drop_last().drop_last().drop_last() =~= Seq::empty());
        assert(spans.drop_last().drop_last().last() == spans[0]);
        assert(spans.drop_last().last() == spans[1]);
        assert(none + one_style(spans[0]) =~= one_style(spans[0]));
    }
}

/// The style of a span, once for each of its characters.
pub open spec fn one_style(span: SpanView) -> Seq<Style> {
    Seq::new(span.content.len(), |i: int| span.style)
}

} // verus!

//! Wrapping styled text to the width of a view.
use vstd::prelude::*;
use vstd::string::*;

use crate::style::plain_style;
use crate::style::styled;
use crate::style::Color;
use crate::style::Line;
use crate::style::Span;
use crate::style::SpanView;
use crate::style::Style;
use crate::text::chars_of;
use crate::text::copies;
use crate::text::repeat_char;
use crate::text::substring;
use crate::ui::ScreenRowInfo;
use crate::ui::ScreenRowInfoView;

verus! {

/// What `UnicodeWidthChar::width` gives for a character from U+00A0 on.
pub uninterp spec fn table_width(c: char) -> usize;

/// What `UnicodeWidthStr::width` gives for text that is not printable ASCII throughout.
pub uninterp spec fn string_width(s: Seq<char>) -> usize;

/// Whether a character is printable ASCII.
pub open spec fn is_printable(c: char) -> bool {
    0x20 <= c as u32 && (c as u32) < 0x7f
}

/// Whether a character is a control character.
pub open spec fn is_control(c: char) -> bool {
    (c as u32) < 0x20 || 0x7f <= c as u32 && (c as u32) < 0xa0
}

pub open spec fn all_printable(s: Seq<char>) -> bool {
    forall|i: int| 0 <= i < s.len() ==> is_printable(#[trigger] s[i])
}

/// The columns that a character takes; none is known of a control character.
pub open spec fn char_width(c: char) -> Option<usize> {
    if is_printable(c) {
        Some(1)
    } else if is_control(c) {
        None
    } else {
        Some(table_width(c))
    }
}

/// The columns that a text takes.
pub open spec fn text_width(s: Seq<char>) -> nat {
    if all_printable(s) {
        s.len()
    } else {
        string_width(s) as nat
    }
}

/// `unicode_width::UnicodeWidthChar::width`: one column for printable ASCII, nothing for a control
/// character, and for every other character what the table of the crate says, at most three.
#[verifier::external_body]
pub(crate) fn width_of_char(c: char) -> (r: Option<usize>)
    ensures
        r == (if is_printable(c) {
            Some(1usize)
        } else if is_control(c) {
            None
        } else {
            Some(table_width(c))
        }),
        r is Some ==> r->0 <= 3,
{
    unicode_width::UnicodeWidthChar::width(c)
}

/// `unicode_width::UnicodeWidthStr::width`: one column for each character of printable ASCII, and
/// for any other text what the crate makes of its characters and of the sequences among them.
#[verifier::external_body]
pub(crate) fn width_of_text(s: &str) -> (r: usize)
    ensures
        r as nat == (if all_printable(s@) {
            s@.len()
        } else {
            string_width(s@) as nat
        }),
{
    unicode_width::UnicodeWidthStr::width(s)
}

/// A number, cut off at the largest that a `usize` holds.
pub open spec fn clip(n: nat) -> usize {
    if n <= usize::MAX {
        n as usize
    } else {
        usize::MAX
    }
}

/// The columns that a character takes once it is made displayable: four for a tab, one for a
/// control character.
pub open spec fn shown_width(c: char) -> nat {
    if c == '\t' {
        4
    } else {
        match char_width(c) {
            Some(w) => w as nat,
            None => 1,
        }
    }
}

/// The sum of the columns that the characters of a text take once it is made displayable.
pub open spec fn display_width(s: Seq<char>) -> nat
    decreases s.len(),
{
    if s.len() == 0 {
        0
    } else {
        display_width(s.drop_last()) + shown_width(s.last())
    }
}

/// The columns that a line of a diff takes once it is made displayable.
pub fn content_display_width(s: &str) -> (r: usize)
    ensures
        r == clip(display_width(s@)),
{
    let cs = chars_of(s);
    let mut total: usize = 0;
    let mut i: usize = 0;
    while i < cs.len()
        invariant
            i <= cs@.len(),
            cs@ == s@,
            total == clip(display_width(s@.take(i as int))),
        decreases cs.len() - i,
    {
        proof {
            assert(s@.take(i + 1).drop_last() =~= s@.take(i as int));
        }
        let c = cs[i];
        let width: usize = if c == '\t' {
            4
        } else {
            match width_of_char(c) {
                Some(w) => w,
                None => 1,
            }
        };
        total = total.saturating_add(width);
        i = i + 1;
    }
    assert(s@.take(s@.len() as int) =~= s@);
    total
}

/// Whether a character cannot be drawn as it is.
pub open spec fn needs_replacing(c: char) -> bool {
    c == '\t' || char_width(c) is None
}

/// Text with each tab as four spaces and each other control character as one.
pub open spec fn sanitized(s: Seq<char>) -> Seq<char>
    decreases s.len(),
{
    if s.len() == 0 {
        Seq::empty()
    } else if s.last() == '\t' {
        sanitized(s.drop_last()) + copies(' ', 4)
    } else if char_width(s.last()) is None {
        sanitized(s.drop_last()).push(' ')
    } else {
        sanitized(s.drop_last()).push(s.last())
    }
}

proof fn lemma_sanitized_unchanged(s: Seq<char>)
    requires
        forall|i: int| 0 <= i < s.len() ==> !needs_replacing(#[trigger] s[i]),
    ensures
        sanitized(s) == s,
    decreases s.len(),
{
    if s.len() > 0 {
        let d = s.drop_last();
        assert forall|i: int| 0 <= i < d.len() implies !needs_replacing(#[trigger] d[i]) by {
            assert(d[i] == s[i]);
        }
        lemma_sanitized_unchanged(d);
        assert(!needs_replacing(s[s.len() - 1]));
        assert(sanitized(s) =~= s);
    }
}

/// Text with the characters replaced that would garble the terminal; nothing where there are none.
pub fn sanitize_for_display(s: &str) -> (r: Option<String>)
    ensures
        r is None <==> forall|i: int| 0 <= i < s@.len() ==> !needs_replacing(#[trigger] s@[i]),
        match r {
            Some(t) => t@ == sanitized(s@),
            None => s@ == sanitized(s@),
        },
{
    let cs = chars_of(s);
    let mut found = false;
    let mut out = String::new();
    let mut i: usize = 0;
    while i < cs.len()
        invariant
            i <= cs@.len(),
            cs@ == s@,
            out@ == sanitized(s@.take(i as int)),
            found <==> exists|k: int| 0 <= k < i && needs_replacing(#[trigger] s@[k]),
        decreases cs.len() - i,
    {
        proof {
            assert(s@.take(i + 1).drop_last() =~= s@.take(i as int));
        }
        let c = cs[i];
        if c == '\t' {
            assert(needs_replacing(s@[i as int]));
            found = true;
            let four = repeat_char(' ', 4);
            out.append(four.as_str());
        } else if width_of_char(c).is_none() {
            assert(needs_replacing(s@[i as int]));
            found = true;
            out.push(' ');
        } else {
            out.push(c);
        }
        i = i + 1;
    }
    assert(s@.take(s@.len() as int) =~= s@);
    if found {
        Some(out)
    } else {
        proof {
            lemma_sanitized_unchanged(s@);
        }
        None
    }
}

/// The columns that a character is counted with where text is split.
pub open spec fn split_width(c: char) -> nat {
    match char_width(c) {
        Some(w) => w as nat,
        None => 0,
    }
}

/// How many characters from `i` on still fit, `used` of `room` columns being taken: the position
/// of the first that does not.
pub open spec fn fitting(s: Seq<char>, room: nat, i: int, used: nat) -> int
    decreases s.len() - i,
{
    if 0 <= i < s.len() && used + split_width(s[i]) <= room {
        fitting(s, room, i + 1, used + split_width(s[i]))
    } else {
        i
    }
}

/// Where the printable ASCII begins that a text ends in.
fn printable_from(cs: &[char]) -> (r: usize)
    ensures
        r <= cs@.len(),
        all_printable(cs@.skip(r as int)),
{
    let mut at: usize = cs.len();
    while at > 0 && ' ' <= cs[at - 1] && cs[at - 1] <= '~'
        invariant
            at <= cs@.len(),
            all_printable(cs@.skip(at as int)),
        decreases at,
    {
        at = at - 1;
        assert forall|k: int| 0 <= k < cs@.skip(at as int).len() implies is_printable(
            #[trigger] cs@.skip(at as int)[k],
        ) by {
            if k > 0 {
                assert(cs@.skip(at as int)[k] == cs@.skip(at + 1)[k - 1]);
            }
        }
    }
    at
}

/// The number of characters of a text that fit into `room` columns.
pub fn display_width_split(cs: &[char], from: usize, room: usize) -> (r: usize)
    requires
        from <= cs@.len(),
    ensures
        from <= r <= cs@.len(),
        r - from == fitting(cs@.skip(from as int), room as nat, 0, 0),
{
    let ghost s = cs@.skip(from as int);
    let mut used: usize = 0;
    let mut i: usize = from;
    while i < cs.len()
        invariant
            from <= i <= cs@.len(),
            s == cs@.skip(from as int),
            used <= room,
            fitting(s, room as nat, 0, 0) == fitting(s, room as nat, i - from, used as nat),
        decreases cs.len() - i,
    {
        let width: usize = match width_of_char(cs[i]) {
            Some(w) => w,
            None => 0,
        };
        assert(s[i - from] == cs@[i as int]);
        if width > room - used {
            return i;
        }
        used = used + width;
        i = i + 1;
    }
    i
}

/// One row of wrapped text.
pub struct WrapRow {
    pub spans: Seq<SpanView>,
    pub text: Seq<char>,
}

/// The rows that are complete, and the one that is being filled.
pub struct WrapState {
    pub rows: Seq<WrapRow>,
    pub spans: Seq<SpanView>,
    pub text: Seq<char>,
    pub width: nat,
}

impl WrapState {
    /// Nothing yet.
    pub open spec fn start() -> WrapState {
        WrapState { rows: Seq::empty(), spans: Seq::empty(), text: Seq::empty(), width: 0 }
    }

    /// The current row is complete, and the next one is begun.
    pub open spec fn next_row(self) -> WrapState {
        WrapState {
            rows: self.rows.push(WrapRow { spans: self.spans, text: self.text }),
            spans: Seq::empty(),
            text: Seq::empty(),
            width: 0,
        }
    }

    /// A piece of text stands at the end of the current row.
    pub open spec fn with(self, piece: Seq<char>, style: Style) -> WrapState {
        WrapState {
            spans: self.spans.push(styled(piece, style)),
            text: self.text + piece,
            ..self
        }
    }

    /// Fills rows of `width` columns with a text. What fits goes into the current row; where the
    /// text is too wide, as many characters as fit, but at least one, complete the row.
    pub open spec fn fill(self, s: Seq<char>, style: Style, width: nat) -> WrapState
        decreases
                s.len(),
                if self.width >= width {
                    1int
                } else {
                    0int
                },
    {
        if s.len() == 0 || width == 0 {
            self
        } else if self.width >= width {
            self.next_row().fill(s, style, width)
        } else if text_width(s) <= width - self.width {
            WrapState { width: self.width + text_width(s), ..self.with(s, style) }
        } else {
            let fits = fitting(s, (width - self.width) as nat, 0, 0);
            let n = if fits < 1 {
                1
            } else {
                fits
            };
            proof {
                lemma_fitting(s, (width - self.width) as nat, 0, 0);
            }
            self.with(s.take(n), style).next_row().fill(s.skip(n), style, width)
        }
    }

    /// Fills rows with one span after the other.
    pub open spec fn fill_all(self, spans: Seq<SpanView>, width: nat) -> WrapState
        decreases spans.len(),
    {
        if spans.len() == 0 {
            self
        } else {
            self.fill_all(spans.drop_last(), width).fill(
                spans.last().content,
                spans.last().style,
                width,
            )
        }
    }

    /// The rows, the current one with them if it holds anything or is the only one.
    pub open spec fn finished(self) -> Seq<WrapRow> {
        if self.spans.len() > 0 || self.rows.len() == 0 {
            self.next_row().rows
        } else {
            self.rows
        }
    }
}

pub proof fn lemma_fitting(s: Seq<char>, room: nat, i: int, used: nat)
    requires
        0 <= i <= s.len(),
    ensures
        i <= fitting(s, room, i, used) <= s.len(),
    decreases s.len() - i,
{
    if i < s.len() && used + split_width(s[i]) <= room {
        lemma_fitting(s, room, i + 1, used + split_width(s[i]));
    }
}

/// The spans with their text made displayable.
pub open spec fn sanitized_spans(spans: Seq<SpanView>) -> Seq<SpanView> {
    Seq::new(spans.len(), |i: int| styled(sanitized(spans[i].content), spans[i].style))
}

/// The sum of the columns that some spans take.
pub open spec fn spans_width(spans: Seq<SpanView>) -> nat
    decreases spans.len(),
{
    if spans.len() == 0 {
        0
    } else {
        spans_width(spans.drop_last()) + text_width(spans.last().content)
    }
}

/// The rows that spans are wrapped into, `content` being their text: a single row where they fit.
pub open spec fn wrap_rows(spans: Seq<SpanView>, content: Seq<char>, width: nat) -> Seq<WrapRow> {
    let clean = sanitized_spans(spans);
    if spans_width(clean) <= width {
        seq![WrapRow { spans: clean, text: sanitized(content) }]
    } else {
        WrapState::start().fill_all(clean, width).finished()
    }
}

/// What stands in front of the text of a row: the line number and the prefix of the line on its
/// first row, an indent of the same width on the others.
pub open spec fn row_lead(
    i: int,
    prefix_str: Seq<char>,
    prefix_char: Seq<char>,
    style: Style,
    prefix_width: nat,
) -> Seq<SpanView> {
    let faint = plain_style().with_fg(Color::DarkGray);
    if i == 0 {
        seq![styled(prefix_str, faint), styled(prefix_char, style)]
    } else {
        seq![styled(copies(' ', prefix_width), faint)]
    }
}

/// The rows as they are drawn.
pub open spec fn row_lines(
    rows: Seq<WrapRow>,
    prefix_str: Seq<char>,
    prefix_char: Seq<char>,
    style: Style,
    prefix_width: nat,
) -> Seq<Seq<SpanView>> {
    Seq::new(
        rows.len(),
        |i: int| row_lead(i, prefix_str, prefix_char, style, prefix_width) + rows[i].spans,
    )
}

/// What the rows show of the line.
pub open spec fn row_infos(rows: Seq<WrapRow>) -> Seq<ScreenRowInfoView> {
    Seq::new(
        rows.len(),
        |i: int|
            ScreenRowInfoView {
                content: rows[i].text,
                is_file_header: false,
                file_path: None,
                is_continuation: i > 0,
            },
    )
}

/// The rows so far, and what each of them begins with.
struct Rows {
    lines: Vec<Line>,
    infos: Vec<ScreenRowInfo>,
    spans: Vec<Span>,
    text: String,
    width: usize,
    prefix_str: String,
    prefix_char: String,
    style: Style,
    indent: String,
    prefix_width: usize,
}

impl Rows {
    spec fn holds(self, st: WrapState) -> bool {
        &&& self.lines.deep_view() == row_lines(
            st.rows,
            self.prefix_str@,
            self.prefix_char@,
            self.style,
            self.prefix_width as nat,
        )
        &&& self.infos.deep_view() == row_infos(st.rows)
        &&& self.spans.deep_view() == st.spans
        &&& self.text@ == st.text
        &&& self.width == st.width
        &&& self.indent@ == copies(' ', self.prefix_width as nat)
    }

    spec fn same_lead(self, other: Rows) -> bool {
        &&& self.prefix_str@ == other.prefix_str@
        &&& self.prefix_char@ == other.prefix_char@
        &&& self.style == other.style
        &&& self.prefix_width == other.prefix_width
    }

    /// Completes the current row.
    fn emit(&mut self, Ghost(st): Ghost<WrapState>)
        requires
            old(self).holds(st),
        ensures
            final(self).holds(st.next_row()),
            final(self).same_lead(*old(self)),
    {
        let faint = Style::default().fg(Color::DarkGray);
        let mut line: Vec<Span> = Vec::new();
        let first = self.lines.len() == 0;
        if first {
            line.push(Span::styled(self.prefix_str.clone(), faint));
            line.push(Span::styled(self.prefix_char.clone(), self.style));
        } else {
            line.push(Span::styled(self.indent.clone(), faint));
        }
        let ghost lead = row_lead(
            st.rows.len() as int,
            self.prefix_str@,
            self.prefix_char@,
            self.style,
            self.prefix_width as nat,
        );
        assert(self.lines.deep_view().len() == st.rows.len());
        assert(line.deep_view() =~= lead);
        let ghost before = line@;
        let ghost here = self.spans@;
        line.append(&mut self.spans);
        assert(line@ == before + here);
        assert(line.deep_view() =~= lead + st.spans);
        let ghost lines = self.lines.deep_view();
        let ghost infos = self.infos.deep_view();
        let drawn = Line { spans: line };
        self.lines.push(drawn);
        assert(self.lines.deep_view() =~= lines.push(drawn.deep_view()));
        let info = ScreenRowInfo {
            content: self.text.clone(),
            is_file_header: false,
            file_path: None,
            is_continuation: !first,
        };
        self.text = String::new();
        self.infos.push(info);
        assert(self.infos.deep_view() =~= infos.push(info.deep_view()));
        self.width = 0;
        proof {
            let next = st.next_row();
            assert(self.infos.deep_view() =~= row_infos(next.rows));
            assert(self.lines.deep_view() =~= row_lines(
                next.rows,
                self.prefix_str@,
                self.prefix_char@,
                self.style,
                self.prefix_width as nat,
            ));
            assert(self.spans.deep_view() =~= next.spans);
            assert(self.text@ =~= next.text);
        }
    }

    /// Puts a piece of text at the end of the current row.
    fn add_piece(&mut self, piece: String, style: Style, Ghost(st): Ghost<WrapState>)
        requires
            old(self).holds(st),
        ensures
            final(self).holds(st.with(piece@, style)),
            final(self).same_lead(*old(self)),
    {
        self.text.append(piece.as_str());
        self.spans.push(Span::styled(piece, style));
        assert(self.spans.deep_view() =~= st.spans.push(styled(piece@, style)));
    }

    /// Fills rows with a text. The characters behind the last that is not printable ASCII need not
    /// be measured each time.
    fn fill(&mut self, s: &str, style: Style, content_width: usize, Ghost(st): Ghost<WrapState>)
        requires
            old(self).holds(st),
            content_width > 0,
        ensures
            final(self).holds(st.fill(s@, style, content_width as nat)),
            final(self).same_lead(*old(self)),
    {
        let cs = chars_of(s);
        let simple = printable_from(cs.as_slice());
        let mut pos: usize = 0;
        let ghost mut now = st;
        assert(s@.skip(0) =~= s@);
        while pos < cs.len()
            invariant
                pos <= cs@.len(),
                cs@ == s@,
                simple <= cs@.len(),
                all_printable(s@.skip(simple as int)),
                content_width > 0,
                self.holds(now),
                self.same_lead(*old(self)),
                st.fill(s@, style, content_width as nat) == now.fill(
                    s@.skip(pos as int),
                    style,
                    content_width as nat,
                ),
            decreases
                    cs.len() - pos,
                    if self.width >= content_width {
                        1int
                    } else {
                        0int
                    },
        {
            let ghost rest = s@.skip(pos as int);
            if self.width >= content_width {
                self.emit(Ghost(now));
                proof {
                    now = now.next_row();
                }
            } else {
                let width: usize = if pos >= simple {
                    assert forall|k: int| 0 <= k < rest.len() implies is_printable(
                        #[trigger] rest[k],
                    ) by {
                        assert(rest[k] == s@.skip(simple as int)[k + pos - simple]);
                    }
                    cs.len() - pos
                } else {
                    let remaining = substring(cs.as_slice(), pos, cs.len());
                    assert(remaining@ =~= rest);
                    width_of_text(remaining.as_str())
                };
                let room: usize = content_width - self.width;
                if width <= room {
                    let remaining = substring(cs.as_slice(), pos, cs.len());
                    assert(remaining@ =~= rest);
                    self.add_piece(remaining, style, Ghost(now));
                    self.width = self.width + width;
                    proof {
                        now =
                        WrapState { width: now.width + text_width(rest), ..now.with(rest, style) };
                        assert(s@.skip(cs.len() as int) =~= Seq::empty());
                    }
                    pos = cs.len();
                } else {
                    let split = display_width_split(cs.as_slice(), pos, room);
                    let next: usize = if split > pos {
                        split
                    } else {
                        pos + 1
                    };
                    let piece = substring(cs.as_slice(), pos, next);
                    proof {
                        assert(piece@ =~= rest.take(next - pos));
                        assert(rest.skip(next - pos) =~= s@.skip(next as int));
                    }
                    self.add_piece(piece, style, Ghost(now));
                    self.emit(Ghost(now.with(piece@, style)));
                    proof {
                        now = now.with(rest.take(next - pos), style).next_row();
                    }
                    pos = next;
                }
            }
        }
        assert(s@.skip(pos as int) =~= Seq::empty());
    }
}

/// The spans with their text made displayable.
fn sanitize_spans(spans: Vec<Span>) -> (r: Vec<Span>)
    ensures
        r.deep_view() == sanitized_spans(spans.deep_view()),
{
    let mut out: Vec<Span> = Vec::new();
    let mut i: usize = 0;
    while i < spans.len()
        invariant
            i <= spans@.len(),
            out@.len() == i,
            forall|k: int|
                0 <= k < i ==> (#[trigger] out@[k]).deep_view() == styled(
                    sanitized(spans@[k].content@),
                    spans@[k].style,
                ),
        decreases spans.len() - i,
    {
        let content = match sanitize_for_display(spans[i].content.as_str()) {
            Some(clean) => clean,
            None => spans[i].content.clone(),
        };
        out.push(Span::styled(content, spans[i].style));
        i = i + 1;
    }
    assert(out.deep_view() =~= sanitized_spans(spans.deep_view()));
    out
}

/// Whether spans fit into `room` columns.
fn spans_fit(spans: &[Span], room: usize) -> (r: bool)
    ensures
        r == (spans_width(spans.deep_view()) <= room),
{
    let ghost all = spans.deep_view();
    let mut used: usize = 0;
    let mut i: usize = 0;
    while i < spans.len()
        invariant
            i <= spans@.len(),
            all == spans.deep_view(),
            used <= room,
            used == spans_width(all.take(i as int)),
        decreases spans.len() - i,
    {
        proof {
            assert(all.take(i + 1).drop_last() =~= all.take(i as int));
            assert(all[i as int] == spans@[i as int].deep_view());
        }
        let width = width_of_text(spans[i].content.as_str());
        if width > room - used {
            proof {
                lemma_spans_width_grows(all, i + 1);
            }
            return false;
        }
        used = used + width;
        i = i + 1;
    }
    assert(all.take(all.len() as int) =~= all);
    true
}

proof fn lemma_spans_width_grows(spans: Seq<SpanView>, i: int)
    requires
        0 <= i <= spans.len(),
    ensures
        spans_width(spans.take(i)) <= spans_width(spans),
    decreases spans.len() - i,
{
    if i < spans.len() {
        lemma_spans_width_grows(spans, i + 1);
        assert(spans.take(i + 1).drop_last() =~= spans.take(i));
    } else {
        assert(spans.take(i) =~= spans);
    }
}

/// Wraps spans to `content_width` columns: the rows as they are drawn, the first behind
/// `prefix_str` and `prefix_char`, the others behind an indent of `prefix_width` columns, and what
/// each of them shows. With no column at all, only text that takes none can be wrapped.
pub fn wrap_content(
    content_spans: Vec<Span>,
    content: &str,
    prefix_str: String,
    prefix_char: String,
    style: Style,
    content_width: usize,
    prefix_width: usize,
) -> (r: (Vec<Line>, Vec<ScreenRowInfo>))
    requires
        content_width > 0 || spans_width(sanitized_spans(content_spans.deep_view())) == 0,
    ensures
        r.0.deep_view() == row_lines(
            wrap_rows(content_spans.deep_view(), content@, content_width as nat),
            prefix_str@,
            prefix_char@,
            style,
            prefix_width as nat,
        ),
        r.1.deep_view() == row_infos(
            wrap_rows(content_spans.deep_view(), content@, content_width as nat),
        ),
{
    let ghost given = content_spans.deep_view();
    let clean = sanitize_spans(content_spans);
    let ghost cleaned = clean.deep_view();
    let mut rows = Rows {
        lines: Vec::new(),
        infos: Vec::new(),
        spans: Vec::new(),
        text: String::new(),
        width: 0,
        prefix_str,
        prefix_char,
        style,
        indent: repeat_char(' ', prefix_width),
        prefix_width,
    };
    let ghost mut st = WrapState::start();
    proof {
        assert(rows.lines.deep_view() =~= row_lines(
            st.rows,
            prefix_str@,
            prefix_char@,
            style,
            prefix_width as nat,
        ));
        assert(rows.infos.deep_view() =~= row_infos(st.rows));
        assert(rows.spans.deep_view() =~= st.spans);
        assert(rows.text@ =~= st.text);
    }
    if spans_fit(clean.as_slice(), content_width) {
        rows.text =
        match sanitize_for_display(content) {
            Some(text) => text,
            None => content.to_owned(),
        };
        rows.spans = clean;
        proof {
            st = WrapState { spans: cleaned, text: sanitized(content@), ..st };
        }
        rows.emit(Ghost(st));
        proof {
            assert(st.next_row().rows =~= wrap_rows(given, content@, content_width as nat));
        }
        return (rows.lines, rows.infos);
    }
    let mut i: usize = 0;
    while i < clean.len()
        invariant
            i <= clean@.len(),
            cleaned == clean.deep_view(),
            content_width > 0,
            rows.holds(st),
            rows.prefix_str@ == prefix_str@,
            rows.prefix_char@ == prefix_char@,
            rows.style == style,
            rows.prefix_width == prefix_width,
            st == WrapState::start().fill_all(cleaned.take(i as int), content_width as nat),
        decreases clean.len() - i,
    {
        proof {
            assert(cleaned.take(i + 1).drop_last() =~= cleaned.take(i as int));
            assert(cleaned[i as int] == clean@[i as int].deep_view());
        }
        rows.fill(clean[i].content.as_str(), clean[i].style, content_width, Ghost(st));
        proof {
            st = st.fill(cleaned[i as int].content, cleaned[i as int].style, content_width as nat);
        }
        i = i + 1;
    }
    assert(cleaned.take(cleaned.len() as int) =~= cleaned);
    proof {
        assert(rows.spans.deep_view().len() == rows.spans@.len());
        assert(rows.lines.deep_view().len() == rows.lines@.len());
    }
    if rows.spans.len() > 0 || rows.lines.len() == 0 {
        rows.emit(Ghost(st));
    }
    (rows.lines, rows.infos)
}

/// The sum of the columns that the characters of a text take one by one.
pub open spec fn char_widths(s: Seq<char>) -> nat
    decreases s.len(),
{
    if s.len() == 0 {
        0
    } else {
        char_widths(s.drop_last()) + split_width(s.last())
    }
}

proof fn lemma_char_widths_concat(a: Seq<char>, b: Seq<char>)
    ensures
        char_widths(a + b) == char_widths(a) + char_widths(b),
    decreases b.len(),
{
    if b.len() == 0 {
        assert(a + b =~= a);
    } else {
        lemma_char_widths_concat(a, b.drop_last());
        assert((a + b).drop_last() =~= a + b.drop_last());
    }
}

/// The width that a line is laid out with is the width of what is drawn in its place: the sum of
/// the widths of the characters that its own are replaced by.
pub proof fn law_display_width_is_that_of_sanitized_text(s: Seq<char>)
    ensures
        char_widths(sanitized(s)) == display_width(s),
        display_width(sanitized(s)) == display_width(s),
    decreases s.len(),
{
    if s.len() > 0 {
        let d = s.drop_last();
        law_display_width_is_that_of_sanitized_text(d);
        if s.last() == '\t' {
            let four = copies(' ', 4);
            lemma_char_widths_concat(sanitized(d), four);
            lemma_display_width_concat(sanitized(d), four);
            reveal_with_fuel(char_widths, 5);
            reveal_with_fuel(display_width, 5);
            assert(four.drop_last() =~= copies(' ', 3));
            assert(copies(' ', 3).drop_last() =~= copies(' ', 2));
            assert(copies(' ', 2).drop_last() =~= copies(' ', 1));
            assert(copies(' ', 1).drop_last() =~= Seq::empty());
        } else if char_width(s.last()) is None {
            assert(sanitized(s).drop_last() =~= sanitized(d));
        } else {
            assert(sanitized(s).drop_last() =~= sanitized(d));
        }
    }
}

proof fn lemma_display_width_concat(a: Seq<char>, b: Seq<char>)
    ensures
        display_width(a + b) == display_width(a) + display_width(b),
    decreases b.len(),
{
    if b.len() == 0 {
        assert(a + b =~= a);
    } else {
        lemma_display_width_concat(a, b.drop_last());
        assert((a + b).drop_last() =~= a + b.drop_last());
    }
}

/// Nothing that would garble the terminal is left in text that was made displayable.
pub proof fn law_sanitized_text_is_displayable(s: Seq<char>)
    ensures
        forall|i: int| 0 <= i < sanitized(s).len() ==> !needs_replacing(#[trigger] sanitized(s)[i]),
        sanitized(sanitized(s)) == sanitized(s),
    decreases s.len(),
{
    if s.len() > 0 {
        law_sanitized_text_is_displayable(s.drop_last());
        let d = sanitized(s.drop_last());
        assert forall|i: int| 0 <= i < sanitized(s).len() implies !needs_replacing(
            #[trigger] sanitized(s)[i],
        ) by {
            if i < d.len() {
                assert(sanitized(s)[i] == d[i]);
            }
        }
    }
    lemma_sanitized_unchanged(sanitized(s));
}

/// The text of some rows, in order.
pub open spec fn rows_text(rows: Seq<WrapRow>) -> Seq<char>
    decreases rows.len(),
{
    if rows.len() == 0 {
        Seq::empty()
    } else {
        rows_text(rows.drop_last()) + rows.last().text
    }
}

impl WrapState {
    /// All the text so far.
    spec fn all_text(self) -> Seq<char> {
        rows_text(self.rows) + self.text
    }

    proof fn lemma_next_row_text(self)
        ensures
            self.next_row().all_text() == self.all_text(),
    {
        assert(self.next_row().rows.drop_last() =~= self.rows);
        assert(self.next_row().all_text() =~= self.all_text());
    }

    proof fn lemma_fill_text(self, s: Seq<char>, style: Style, width: nat)
        requires
            width > 0,
        ensures
            self.fill(s, style, width).all_text() == self.all_text() + s,
        decreases
                s.len(),
                if self.width >= width {
                    1int
                } else {
                    0int
                },
    {
        if s.len() == 0 {
            assert(self.all_text() + s =~= self.all_text());
        } else if self.width >= width {
            self.lemma_next_row_text();
            self.next_row().lemma_fill_text(s, style, width);
        } else if text_width(s) <= width - self.width {
            assert(self.fill(s, style, width).all_text() =~= self.all_text() + s);
        } else {
            let fits = fitting(s, (width - self.width) as nat, 0, 0);
            let n = if fits < 1 {
                1
            } else {
                fits
            };
            lemma_fitting(s, (width - self.width) as nat, 0, 0);
            let piece = self.with(s.take(n), style);
            piece.lemma_next_row_text();
            piece.next_row().lemma_fill_text(s.skip(n), style, width);
            assert(piece.all_text() + s.skip(n) =~= self.all_text() + s);
        }
    }

    proof fn lemma_fill_all_text(self, spans: Seq<SpanView>, width: nat)
        requires
            width > 0,
        ensures
            self.fill_all(spans, width).all_text() == self.all_text()
                + crate::style::text_of_spans(spans),
        decreases spans.len(),
    {
        if spans.len() == 0 {
            assert(self.all_text() + crate::style::text_of_spans(spans) =~= self.all_text());
        } else {
            self.lemma_fill_all_text(spans.drop_last(), width);
            self.fill_all(spans.drop_last(), width).lemma_fill_text(
                spans.last().content,
                spans.last().style,
                width,
            );
            assert(self.fill_all(spans, width).all_text() =~= self.all_text()
                + crate::style::text_of_spans(spans));
        }
    }

    /// A row without spans is without text, and a row's text is that of its spans.
    spec fn consistent(self) -> bool {
        &&& self.text == crate::style::text_of_spans(self.spans)
        &&& forall|i: int|
            0 <= i < self.rows.len() ==> (#[trigger] self.rows[i]).text
                == crate::style::text_of_spans(self.rows[i].spans)
    }

    proof fn lemma_fill_consistent(self, s: Seq<char>, style: Style, width: nat)
        requires
            self.consistent(),
        ensures
            self.fill(s, style, width).consistent(),
        decreases
                s.len(),
                if self.width >= width {
                    1int
                } else {
                    0int
                },
    {
        if s.len() == 0 || width == 0 {
        } else if self.width >= width {
            self.next_row().lemma_fill_consistent(s, style, width);
        } else if text_width(s) <= width - self.width {
            crate::style::lemma_text_of_push(self.spans, styled(s, style));
        } else {
            let fits = fitting(s, (width - self.width) as nat, 0, 0);
            let n = if fits < 1 {
                1
            } else {
                fits
            };
            lemma_fitting(s, (width - self.width) as nat, 0, 0);
            crate::style::lemma_text_of_push(self.spans, styled(s.take(n), style));
            self.with(s.take(n), style).next_row().lemma_fill_consistent(s.skip(n), style, width);
        }
    }

    proof fn lemma_fill_all_consistent(self, spans: Seq<SpanView>, width: nat)
        requires
            self.consistent(),
        ensures
            self.fill_all(spans, width).consistent(),
        decreases spans.len(),
    {
        if spans.len() > 0 {
            self.lemma_fill_all_consistent(spans.drop_last(), width);
            self.fill_all(spans.drop_last(), width).lemma_fill_consistent(
                spans.last().content,
                spans.last().style,
                width,
            );
        }
    }
}

/// Wrapping loses nothing, adds nothing and reorders nothing: the rows that spans are wrapped into
/// hold their displayable text, one after the other, and each row shows the text that its spans
/// hold.
pub proof fn law_wrapping_keeps_text(spans: Seq<SpanView>, content: Seq<char>, width: nat)
    requires
        width > 0,
        spans_width(sanitized_spans(spans)) > width || sanitized(content)
            == crate::style::text_of_spans(sanitized_spans(spans)),
    ensures
        rows_text(wrap_rows(spans, content, width)) == crate::style::text_of_spans(
            sanitized_spans(spans),
        ),
        forall|i: int|
            0 <= i < wrap_rows(spans, content, width).len() ==> (#[trigger] wrap_rows(
                spans,
                content,
                width,
            )[i]).text == crate::style::text_of_spans(wrap_rows(spans, content, width)[i].spans),
{
    let clean = sanitized_spans(spans);
    let rows = wrap_rows(spans, content, width);
    if spans_width(clean) <= width {
        reveal_with_fuel(rows_text, 2);
        assert(rows.drop_last() =~= Seq::empty());
        assert(rows_text(rows) =~= sanitized(content));
    } else {
        let st = WrapState::start().fill_all(clean, width);
        WrapState::start().lemma_fill_all_text(clean, width);
        WrapState::start().lemma_fill_all_consistent(clean, width);
        assert(st.all_text() =~= crate::style::text_of_spans(clean));
        st.lemma_next_row_text();
        assert(st.next_row().all_text() =~= rows_text(st.next_row().rows));
        if !(st.spans.len() > 0 || st.rows.len() == 0) {
            assert(st.text =~= Seq::empty());
            assert(st.all_text() =~= rows_text(st.rows));
        }
    }
}

/// The width of every stretch of a text is the sum of the widths of its characters, as it is
/// where no characters combine, and no character is wider than `wide`.
pub open spec fn widths_add_up(s: Seq<char>, wide: nat) -> bool {
    &&& forall|i: int, j: int|
        0 <= i <= j <= s.len() ==> text_width(#[trigger] s.subrange(i, j)) == char_widths(
            s.subrange(i, j),
        )
    &&& forall|i: int| 0 <= i < s.len() ==> split_width(#[trigger] s[i]) <= wide
}

proof fn lemma_widths_add_up_skip(s: Seq<char>, wide: nat, n: int)
    requires
        widths_add_up(s, wide),
        0 <= n <= s.len(),
    ensures
        widths_add_up(s.skip(n), wide),
{
    let t = s.skip(n);
    assert forall|i: int, j: int| 0 <= i <= j <= t.len() implies text_width(
        #[trigger] t.subrange(i, j),
    ) == char_widths(t.subrange(i, j)) by {
        assert(t.subrange(i, j) =~= s.subrange(n + i, n + j));
    }
    assert forall|i: int| 0 <= i < t.len() implies split_width(#[trigger] t[i]) <= wide by {
        assert(t[i] == s[n + i]);
    }
}

proof fn lemma_fitting_width(s: Seq<char>, room: nat, i: int, used: nat)
    requires
        0 <= i <= s.len(),
        used == char_widths(s.take(i)),
        used <= room,
    ensures
        char_widths(s.take(fitting(s, room, i, used))) <= room,
    decreases s.len() - i,
{
    if i < s.len() && used + split_width(s[i]) <= room {
        assert(s.take(i + 1).drop_last() =~= s.take(i));
        lemma_fitting_width(s, room, i + 1, used + split_width(s[i]));
    }
}

impl WrapState {
    /// The current row is not wider than `width`, and no complete row is wider than `limit`.
    spec fn narrow(self, width: nat, limit: int) -> bool {
        &&& char_widths(self.text) == self.width
        &&& self.width <= width
        &&& forall|i: int|
            0 <= i < self.rows.len() ==> char_widths((#[trigger] self.rows[i]).text) <= limit
    }

    proof fn lemma_fill_narrow(
        self,
        s: Seq<char>,
        style: Style,
        width: nat,
        wide: nat,
        limit: int,
    )
        requires
            width > 0,
            self.narrow(width, limit),
            widths_add_up(s, wide),
            limit >= width,
            limit >= width + wide - 1 || (self.width == 0 && wide <= width),
        ensures
            self.fill(s, style, width).narrow(width, limit),
        decreases
                s.len(),
                if self.width >= width {
                    1int
                } else {
                    0int
                },
    {
        if s.len() == 0 {
        } else if self.width >= width {
            self.next_row().lemma_fill_narrow(s, style, width, wide, limit);
        } else {
            assert(s.subrange(0, s.len() as int) =~= s);
            if text_width(s) <= width - self.width {
                lemma_char_widths_concat(self.text, s);
            } else {
                let room = (width - self.width) as nat;
                let fits = fitting(s, room, 0, 0);
                let n = if fits < 1 {
                    1
                } else {
                    fits
                };
                lemma_fitting(s, room, 0, 0);
                assert(s.take(0) =~= Seq::empty());
                lemma_fitting_width(s, room, 0, 0);
                let piece = self.with(s.take(n), style);
                lemma_char_widths_concat(self.text, s.take(n));
                if fits < 1 {
                    assert(s.take(1).drop_last() =~= Seq::empty());
                    assert(char_widths(s.take(1)) == split_width(s[0])) by {
                        reveal_with_fuel(char_widths, 2);
                    }
                }
                assert(char_widths(piece.text) <= limit);
                lemma_widths_add_up_skip(s, wide, n);
                piece.next_row().lemma_fill_narrow(s.skip(n), style, width, wide, limit);
            }
        }
    }

    proof fn lemma_fill_all_narrow(self, spans: Seq<SpanView>, width: nat, wide: nat, limit: int)
        requires
            width > 0,
            self.narrow(width, limit),
            forall|i: int|
                0 <= i < spans.len() ==> widths_add_up((#[trigger] spans[i]).content, wide),
            limit >= width,
            limit >= width + wide - 1,
        ensures
            self.fill_all(spans, width).narrow(width, limit),
        decreases spans.len(),
    {
        if spans.len() > 0 {
            assert forall|i: int| 0 <= i < spans.drop_last().len() implies widths_add_up(
                (#[trigger] spans.drop_last()[i]).content,
                wide,
            ) by {
                assert(spans.drop_last()[i] == spans[i]);
            }
            self.lemma_fill_all_narrow(spans.drop_last(), width, wide, limit);
            assert(widths_add_up(spans[spans.len() - 1].content, wide));
            self.fill_all(spans.drop_last(), width).lemma_fill_narrow(
                spans.last().content,
                spans.last().style,
                width,
                wide,
                limit,
            );
        }
    }
}

/// The text of a wrapped row keeps to the width of the view, where the widths of its characters
/// add up and none takes more than one column. Characters of up to `wide` columns can stick out by
/// `wide - 1` columns, where one does not fit behind the end of the span before it; text that is
/// one single span keeps to the width whenever each of its characters does.
pub proof fn law_rows_keep_to_the_width(
    spans: Seq<SpanView>,
    content: Seq<char>,
    width: nat,
    wide: nat,
)
    requires
        width > 0,
        wide > 0,
        spans_width(sanitized_spans(spans)) > width,
        forall|i: int|
            0 <= i < spans.len() ==> widths_add_up(
                sanitized((#[trigger] spans[i]).content),
                wide,
            ),
    ensures
        forall|i: int|
            0 <= i < wrap_rows(spans, content, width).len() ==> char_widths(
                (#[trigger] wrap_rows(spans, content, width)[i]).text,
            ) <= width + wide - 1,
        spans.len() == 1 && wide <= width ==> forall|i: int|
            0 <= i < wrap_rows(spans, content, width).len() ==> char_widths(
                (#[trigger] wrap_rows(spans, content, width)[i]).text,
            ) <= width,
{
    let clean = sanitized_spans(spans);
    assert forall|i: int| 0 <= i < clean.len() implies widths_add_up(
        (#[trigger] clean[i]).content,
        wide,
    ) by {
        assert(clean[i].content == sanitized(spans[i].content));
    }
    let start = WrapState::start();
    let st = start.fill_all(clean, width);
    start.lemma_fill_all_narrow(clean, width, wide, width + wide - 1);
    if spans.len() == 1 && wide <= width {
        assert(clean.drop_last() =~= Seq::empty());
        reveal_with_fuel(WrapState::fill_all, 2);
        assert(clean.last() == clean[0]);
        start.lemma_fill_narrow(clean[0].content, clean[0].style, width, wide, width as int);
        assert(st.narrow(width, width as int));
    }
}

/// Text is made displayable character by character.
pub proof fn law_sanitizing_goes_by_character(a: Seq<char>, b: Seq<char>, c: char)
    ensures
        sanitized(a + b) == sanitized(a) + sanitized(b),
        sanitized(seq![c]) == (if c == '\t' {
            seq![' ', ' ', ' ', ' ']
        } else if (c as u32) < 0x20 || (0x7f <= c as u32 && (c as u32) < 0xa0) {
            seq![' ']
        } else {
            seq![c]
        }),
    decreases b.len(),
{
    reveal_with_fuel(sanitized, 2);
    assert(seq![c].drop_last() =~= Seq::empty());
    assert(Seq::<char>::empty() + copies(' ', 4) =~= seq![' ', ' ', ' ', ' ']);
    if b.len() == 0 {
        assert(a + b =~= a);
        assert(sanitized(a) + sanitized(b) =~= sanitized(a));
    } else {
        law_sanitizing_goes_by_character(a, b.drop_last(), c);
        assert((a + b).drop_last() =~= a + b.drop_last());
        assert(sanitized(a + b) =~= sanitized(a) + sanitized(b));
    }
}

/// Spans are made displayable as their text is.
pub proof fn lemma_sanitized_spans_text(spans: Seq<SpanView>)
    ensures
        crate::style::text_of_spans(sanitized_spans(spans)) == sanitized(
            crate::style::text_of_spans(spans),
        ),
    decreases spans.len(),
{
    if spans.len() > 0 {
        let front = spans.drop_last();
        lemma_sanitized_spans_text(front);
        assert(sanitized_spans(spans).drop_last() =~= sanitized_spans(front));
        law_sanitizing_goes_by_character(
            crate::style::text_of_spans(front),
            spans.last().content,
            ' ',
        );
    }
}

/// The spans of the rows that text is wrapped into hold all of it, and there is some row.
pub proof fn lemma_wrapped_spans(spans: Seq<SpanView>, content: Seq<char>, width: nat)
    requires
        width > 0,
    ensures
        wrap_rows(spans, content, width).len() > 0,
        spans_text(wrap_rows(spans, content, width)) == sanitized(
            crate::style::text_of_spans(spans),
        ),
{
    let rows = wrap_rows(spans, content, width);
    lemma_sanitized_spans_text(spans);
    if spans_width(sanitized_spans(spans)) <= width {
        reveal_with_fuel(spans_text, 2);
        assert(rows.drop_last() =~= Seq::empty());
        assert(spans_text(rows) =~= crate::style::text_of_spans(sanitized_spans(spans)));
    } else {
        law_wrapping_keeps_text(spans, content, width);
        lemma_rows_and_spans(rows);
    }
}

/// The text of the spans of some rows, in order.
pub open spec fn spans_text(rows: Seq<WrapRow>) -> Seq<char>
    decreases rows.len(),
{
    if rows.len() == 0 {
        Seq::empty()
    } else {
        spans_text(rows.drop_last()) + crate::style::text_of_spans(rows.last().spans)
    }
}

proof fn lemma_rows_and_spans(rows: Seq<WrapRow>)
    requires
        forall|i: int|
            0 <= i < rows.len() ==> (#[trigger] rows[i]).text == crate::style::text_of_spans(
                rows[i].spans,
            ),
    ensures
        spans_text(rows) == rows_text(rows),
    decreases rows.len(),
{
    if rows.len() > 0 {
        let front = rows.drop_last();
        assert forall|i: int| 0 <= i < front.len() implies (#[trigger] front[i]).text
            == crate::style::text_of_spans(front[i].spans) by {
            assert(front[i] == rows[i]);
        }
        lemma_rows_and_spans(front);
        assert(rows[rows.len() - 1] == rows.last());
    }
}

proof fn lemma_fitting_printable(s: Seq<char>, room: nat, i: int)
    requires
        0 <= i <= s.len(),
        i <= room,
        all_printable(s),
    ensures
        fitting(s, room, i, i as nat) == (if room <= s.len() {
            room as int
        } else {
            s.len() as int
        }),
    decreases s.len() - i,
{
    if i < s.len() {
        assert(is_printable(s[i]));
        if i < room {
            lemma_fitting_printable(s, room, i + 1);
        }
    }
}

impl WrapState {
    /// Every complete row has as many characters as fit.
    spec fn full(self, width: nat) -> bool {
        &&& self.text.len() == self.width
        &&& self.width <= width
        &&& forall|i: int| 0 <= i < self.rows.len() ==> (#[trigger] self.rows[i]).text.len() == width
    }

    proof fn lemma_fill_full(self, s: Seq<char>, style: Style, width: nat)
        requires
            width > 0,
            self.full(width),
            all_printable(s),
        ensures
            self.fill(s, style, width).full(width),
        decreases
                s.len(),
                if self.width >= width {
                    1int
                } else {
                    0int
                },
    {
        if s.len() == 0 {
        } else if self.width >= width {
            self.next_row().lemma_fill_full(s, style, width);
        } else if text_width(s) <= width - self.width {
        } else {
            let room = (width - self.width) as nat;
            lemma_fitting_printable(s, room, 0);
            let rest = s.skip(room as int);
            assert forall|i: int| 0 <= i < rest.len() implies is_printable(#[trigger] rest[i]) by {
                assert(rest[i] == s[i + room]);
            }
            let piece = self.with(s.take(room as int), style);
            assert(piece.text.len() == width);
            piece.next_row().lemma_fill_full(rest, style, width);
        }
    }

    proof fn lemma_fill_all_full(self, spans: Seq<SpanView>, width: nat)
        requires
            width > 0,
            self.full(width),
            forall|i: int| 0 <= i < spans.len() ==> all_printable((#[trigger] spans[i]).content),
        ensures
            self.fill_all(spans, width).full(width),
        decreases spans.len(),
    {
        if spans.len() > 0 {
            let front = spans.drop_last();
            assert forall|i: int| 0 <= i < front.len() implies all_printable(
                (#[trigger] front[i]).content,
            ) by {
                assert(front[i] == spans[i]);
            }
            self.lemma_fill_all_full(front, width);
            assert(all_printable(spans[spans.len() - 1].content));
            self.fill_all(front, width).lemma_fill_full(
                spans.last().content,
                spans.last().style,
                width,
            );
        }
    }
}

/// No row is begun before it is needed: of printable ASCII, every row but the last holds as many
/// characters as it has columns, and the last one at most as many. Text that fits into one row has
/// one row.
pub proof fn law_rows_are_filled(spans: Seq<SpanView>, content: Seq<char>, width: nat)
    requires
        width > 0,
        forall|i: int| 0 <= i < spans.len() ==> all_printable((#[trigger] spans[i]).content),
    ensures
        ({
            let rows = wrap_rows(spans, content, width);
            if crate::style::text_of_spans(spans).len() <= width {
                rows.len() == 1 && rows[0].spans == spans
            } else {
                &&& forall|i: int|
                    0 <= i < rows.len() - 1 ==> (#[trigger] rows[i]).text.len() == width
                &&& rows.len() > 1
                &&& 0 <= rows.last().text.len() <= width
            }
        }),
{
    let clean = sanitized_spans(spans);
    assert forall|i: int| 0 <= i < spans.len() implies sanitized((#[trigger] spans[i]).content)
        == spans[i].content by {
        let s = spans[i].content;
        assert forall|k: int| 0 <= k < s.len() implies !needs_replacing(#[trigger] s[k]) by {
            assert(is_printable(s[k]));
        }
        lemma_sanitized_unchanged(s);
    }
    assert(clean =~= spans);
    lemma_printable_width(spans);
    let rows = wrap_rows(spans, content, width);
    if spans_width(clean) > width {
        let st = WrapState::start().fill_all(clean, width);
        WrapState::start().lemma_fill_all_full(clean, width);
        WrapState::start().lemma_fill_all_text(clean, width);
        if rows.len() <= 1 {
            reveal_with_fuel(rows_text, 2);
            assert(st.rows.len() <= 1);
            if st.rows.len() == 1 {
                assert(st.rows.drop_last() =~= Seq::empty());
                assert(st.rows[0].text.len() == width);
                WrapState::start().lemma_fill_all_consistent(clean, width);
                assert(st.text.len() == 0);
            }
            assert(st.all_text().len() <= width);
        }
    }
}

proof fn lemma_printable_width(spans: Seq<SpanView>)
    requires
        forall|i: int| 0 <= i < spans.len() ==> all_printable((#[trigger] spans[i]).content),
    ensures
        spans_width(spans) == crate::style::text_of_spans(spans).len(),
    decreases spans.len(),
{
    if spans.len() > 0 {
        let front = spans.drop_last();
        assert forall|i: int| 0 <= i < front.len() implies all_printable(
            (#[trigger] front[i]).content,
        ) by {
            assert(front[i] == spans[i]);
        }
        lemma_printable_width(front);
        assert(all_printable(spans[spans.len() - 1].content));
    }
}

} // verus!

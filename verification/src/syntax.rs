//! Syntax highlighting: the colours of the text of a file, line by line.
use vstd::prelude::*;
use vstd::string::*;

use crate::path::extension;
use crate::path::extension_in;
use crate::style::Color;
use crate::text::chars_of;
use crate::text::same_text;
use crate::text::substring;
use crate::ui::colors::default_fg;

use syntect::highlighting::HighlightIterator;
use syntect::highlighting::HighlightState;
use syntect::highlighting::Highlighter;
use syntect::highlighting::Theme;
use syntect::parsing::ParseState;
use syntect::parsing::ScopeStack;
use syntect::parsing::SyntaxSet;

pub mod cache;
pub mod theme;

verus! {

/// The length of the longest line that is highlighted, in bytes.
pub const MAX_HIGHLIGHT_LINE_LEN: usize = 10_000;

/// Whether a text is too long to be read.
pub open spec fn too_long(s: Seq<char>) -> bool {
    vstd::utf8::encode_utf8(s).len() as usize > MAX_HIGHLIGHT_LINE_LEN
}

/// A stretch of text in one colour.
#[derive(Debug)]
pub struct SyntaxSegment {
    pub text: String,
    pub fg_color: Color,
}

/// What a `SyntaxSegment` holds.
pub struct SyntaxSegmentView {
    pub text: Seq<char>,
    pub fg_color: Color,
}

impl DeepView for SyntaxSegment {
    type V = SyntaxSegmentView;

    open spec fn deep_view(&self) -> SyntaxSegmentView {
        SyntaxSegmentView { text: self.text@, fg_color: self.fg_color }
    }
}

impl Clone for SyntaxSegment {
    fn clone(&self) -> (r: Self)
        ensures
            r == *self,
    {
        SyntaxSegment { text: self.text.clone(), fg_color: self.fg_color }
    }
}

/// The grammars of the languages that can be highlighted.
#[verifier::external_type_specification]
#[verifier::external_body]
pub struct ExSyntaxSet(SyntaxSet);

/// The colours that a grammar's scopes are drawn in.
#[verifier::external_type_specification]
#[verifier::external_body]
pub struct ExTheme(Theme);

/// What a parser carries from one line to the next.
#[verifier::external_type_specification]
#[verifier::external_body]
pub struct ExParseState(ParseState);

/// The styles that are in force between two lines.
#[verifier::external_type_specification]
#[verifier::external_body]
pub struct ExHighlightState(HighlightState);

/// The grammars that a set holds, each as its text.
pub uninterp spec fn grammars(set: SyntaxSet) -> Seq<Seq<char>>;

/// The rules that a theme holds: a scope and its red, green and blue. The scope of the rule for
/// text that no other rule is about is empty.
pub uninterp spec fn theme_rules(theme: Theme) -> Seq<(Seq<char>, u8, u8, u8)>;

/// The grammars that a parser was set up with.
pub uninterp spec fn parser_grammars(parse: ParseState, highlight: HighlightState) -> Seq<
    Seq<char>,
>;

/// The rules that a parser was set up with.
pub uninterp spec fn parser_rules(parse: ParseState, highlight: HighlightState) -> Seq<
    (Seq<char>, u8, u8, u8),
>;

/// The extension that the grammar of a parser was found by; none for plain text.
pub uninterp spec fn parser_syntax(parse: ParseState, highlight: HighlightState) -> Option<
    Seq<char>,
>;

/// The lines that a parser has read.
pub uninterp spec fn parser_lines(parse: ParseState, highlight: HighlightState) -> Seq<Seq<char>>;

/// Whether some grammars hold one for a file extension, or, with none, one for plain text.
pub uninterp spec fn has_syntax(grammars: Seq<Seq<char>>, extension: Option<Seq<char>>) -> bool;

/// The coloured tokens of a line behind the lines that were read before it; nothing where the line
/// cannot be parsed.
pub uninterp spec fn tokens_of(
    grammars: Seq<Seq<char>>,
    rules: Seq<(Seq<char>, u8, u8, u8)>,
    syntax: Option<Seq<char>>,
    lines: Seq<Seq<char>>,
    line: Seq<char>,
) -> Option<Seq<SyntaxSegmentView>>;

/// The text of some segments, in order.
pub open spec fn text_of_segments(segments: Seq<SyntaxSegmentView>) -> Seq<char>
    decreases segments.len(),
{
    if segments.len() == 0 {
        Seq::empty()
    } else {
        text_of_segments(segments.drop_last()) + segments.last().text
    }
}

/// Whether every line that a parser has read could be parsed.
pub open spec fn all_parsed(
    grammars: Seq<Seq<char>>,
    rules: Seq<(Seq<char>, u8, u8, u8)>,
    syntax: Option<Seq<char>>,
    lines: Seq<Seq<char>>,
) -> bool {
    forall|k: int|
        0 <= k < lines.len() ==> tokens_of(
            grammars,
            rules,
            syntax,
            lines.take(k),
            #[trigger] lines[k],
        ) is Some
}

/// The coloured tokens of a line. Tokens that do not make up the line would be none, but there are
/// no such tokens as long as all the lines before it could be parsed.
pub open spec fn line_tokens(
    grammars: Seq<Seq<char>>,
    rules: Seq<(Seq<char>, u8, u8, u8)>,
    syntax: Option<Seq<char>>,
    lines: Seq<Seq<char>>,
    line: Seq<char>,
) -> Option<Seq<SyntaxSegmentView>> {
    match tokens_of(grammars, rules, syntax, lines, line) {
        Some(tokens) => if all_parsed(grammars, rules, syntax, lines) && text_of_segments(tokens)
            != line {
            None
        } else {
            Some(tokens)
        },
        None => None,
    }
}

/// `two_face::syntax::extra_newlines`: grammars for lines that end in a newline, that for plain
/// text among them.
#[verifier::external_body]
fn load_grammars() -> (r: SyntaxSet)
    ensures
        has_syntax(grammars(r), None),
{
    two_face::syntax::extra_newlines()
}

/// `SyntaxSet::find_syntax_by_extension`: whether a grammar lists a file extension, upper and lower
/// case of ASCII being the same.
#[verifier::external_body]
fn knows_extension(set: &SyntaxSet, extension: &str) -> (r: bool)
    ensures
        r == has_syntax(grammars(*set), Some(extension@)),
{
    set.find_syntax_by_extension(extension).is_some()
}

/// `ParseState::new` and `HighlightState::new`: a parser that has read no line yet, for the grammar
/// that `SyntaxSet::find_syntax_by_extension` finds, or without an extension for the one that
/// `SyntaxSet::find_syntax_plain_text` finds. Both grammars have to be there.
#[verifier::external_body]
fn new_parser(set: &SyntaxSet, theme: &Theme, extension: Option<&str>) -> (r: (
    ParseState,
    HighlightState,
))
    requires
        has_syntax(grammars(*set), extension.deep_view()),
    ensures
        parser_grammars(r.0, r.1) == grammars(*set),
        parser_rules(r.0, r.1) == theme_rules(*theme),
        parser_syntax(r.0, r.1) == extension.deep_view(),
        parser_lines(r.0, r.1) == Seq::<Seq<char>>::empty(),
{
    let syntax = match extension {
        Some(extension) => set.find_syntax_by_extension(extension).unwrap(),
        None => set.find_syntax_plain_text(),
    };
    let highlight = HighlightState::new(&Highlighter::new(theme), ScopeStack::new());
    (ParseState::new(syntax), highlight)
}

/// `Clone` of `ParseState` and of `HighlightState`: a parser in the same state.
#[verifier::external_body]
fn copy_parser(parse: &ParseState, highlight: &HighlightState) -> (r: (ParseState, HighlightState))
    ensures
        parser_grammars(r.0, r.1) == parser_grammars(*parse, *highlight),
        parser_rules(r.0, r.1) == parser_rules(*parse, *highlight),
        parser_syntax(r.0, r.1) == parser_syntax(*parse, *highlight),
        parser_lines(r.0, r.1) == parser_lines(*parse, *highlight),
{
    (parse.clone(), highlight.clone())
}

/// `ParseState::parse_line` and `HighlightIterator`: the tokens of a line in the colours of a
/// theme. They depend on the line and on those that the parser has read before it, and make up the
/// line, as long as none of them failed to parse. The parser has to be used with the grammars and
/// the theme that it was set up with.
#[verifier::external_body]
fn parse_line(
    parse: &mut ParseState,
    highlight: &mut HighlightState,
    line: &str,
    set: &SyntaxSet,
    theme: &Theme,
) -> (r: Option<Vec<SyntaxSegment>>)
    requires
        parser_grammars(*old(parse), *old(highlight)) == grammars(*set),
        parser_rules(*old(parse), *old(highlight)) == theme_rules(*theme),
    ensures
        r.deep_view() == tokens_of(
            grammars(*set),
            theme_rules(*theme),
            parser_syntax(*old(parse), *old(highlight)),
            parser_lines(*old(parse), *old(highlight)),
            line@,
        ),
        r.deep_view() == line_tokens(
            grammars(*set),
            theme_rules(*theme),
            parser_syntax(*old(parse), *old(highlight)),
            parser_lines(*old(parse), *old(highlight)),
            line@,
        ),
        parser_grammars(*final(parse), *final(highlight)) == grammars(*set),
        parser_rules(*final(parse), *final(highlight)) == theme_rules(*theme),
        parser_syntax(*final(parse), *final(highlight)) == parser_syntax(
            *old(parse),
            *old(highlight),
        ),
        parser_lines(*final(parse), *final(highlight)) == parser_lines(
            *old(parse),
            *old(highlight),
        ).push(line@),
{
    let ops = parse.parse_line(line, set).ok()?;
    let highlighter = Highlighter::new(theme);
    let tokens = HighlightIterator::new(highlight, &ops, line, &highlighter);
    Some(tokens.map(|(style, text)| {
        let color = style.foreground;
        SyntaxSegment { text: text.to_owned(), fg_color: Color::Rgb(color.r, color.g, color.b) }
    }).collect())
}

/// The grammars and the colours that text is highlighted with.
pub struct Grammar {
    syntax_set: SyntaxSet,
    theme: Theme,
}

/// Where a parser stands: the extension that its grammar was found by, and the lines that it has
/// read.
pub struct ParserView {
    pub syntax: Option<Seq<char>>,
    pub lines: Seq<Seq<char>>,
}

impl Grammar {
    pub closed spec fn languages(self) -> Seq<Seq<char>> {
        grammars(self.syntax_set)
    }

    pub closed spec fn rules(self) -> Seq<(Seq<char>, u8, u8, u8)> {
        theme_rules(self.theme)
    }

    /// Text without a known language can be highlighted as plain text.
    #[verifier::type_invariant]
    spec fn has_plain_text(self) -> bool {
        has_syntax(grammars(self.syntax_set), None)
    }

    /// The extension that the grammar for a file is found by: that of the file, where one is known
    /// for it.
    pub open spec fn syntax_for(self, path: Seq<char>) -> Option<Seq<char>> {
        match extension_in(path) {
            Some(extension) => if has_syntax(self.languages(), Some(extension)) {
                Some(extension)
            } else {
                None
            },
            None => None,
        }
    }

    /// A parser at the beginning of a file.
    pub open spec fn start(self, path: Seq<char>) -> ParserView {
        ParserView { syntax: self.syntax_for(path), lines: Seq::empty() }
    }

    /// Whether every line that a parser has read could be parsed.
    pub open spec fn parsed_all(self, at: ParserView) -> bool {
        all_parsed(self.languages(), self.rules(), at.syntax, at.lines)
    }

    /// The segments of a text, read by a parser.
    pub open spec fn highlighted(self, at: ParserView, content: Seq<char>) -> Seq<
        SyntaxSegmentView,
    > {
        match line_tokens(
            self.languages(),
            self.rules(),
            at.syntax,
            at.lines,
            content.push('\n'),
        ) {
            Some(tokens) => stripped(tokens),
            None => plain(content),
        }
    }

    /// The grammars of all languages, in the colours of the library's theme.
    pub fn load() -> (r: Grammar)
        ensures
            r.rules() == theme::branchdiff_rules(),
    {
        Grammar { syntax_set: load_grammars(), theme: theme::branchdiff_theme() }
    }
}

impl ParserView {
    /// A parser that has read one more line.
    pub open spec fn past(self, content: Seq<char>) -> ParserView {
        ParserView { syntax: self.syntax, lines: self.lines.push(content.push('\n')) }
    }
}

/// A text as one segment without a colour of its own; nothing for an empty text.
pub open spec fn plain(content: Seq<char>) -> Seq<SyntaxSegmentView> {
    if content.len() == 0 {
        Seq::empty()
    } else {
        seq![SyntaxSegmentView { text: content, fg_color: default_fg() }]
    }
}

/// A text without the newline at its end.
pub open spec fn without_newline(s: Seq<char>) -> Seq<char> {
    if s.len() > 0 && s.last() == '\n' {
        s.drop_last()
    } else {
        s
    }
}

/// Tokens without the newlines at their ends, and without those that then are empty.
pub open spec fn stripped(tokens: Seq<SyntaxSegmentView>) -> Seq<SyntaxSegmentView>
    decreases tokens.len(),
{
    if tokens.len() == 0 {
        Seq::empty()
    } else {
        let text = without_newline(tokens.last().text);
        if text.len() == 0 {
            stripped(tokens.drop_last())
        } else {
            stripped(tokens.drop_last()).push(
                SyntaxSegmentView { text, fg_color: tokens.last().fg_color },
            )
        }
    }
}

/// A text as one segment without a colour of its own.
pub(crate) fn plain_segments(content: &str) -> (r: Vec<SyntaxSegment>)
    ensures
        r.deep_view() == plain(content@),
{
    let mut out: Vec<SyntaxSegment> = Vec::new();
    if content.unicode_len() > 0 {
        out.push(SyntaxSegment { text: content.to_owned(), fg_color: default_fg() });
    }
    assert(out.deep_view() =~= plain(content@));
    out
}

/// Takes the newlines off the ends of tokens, and leaves out those that then are empty.
fn strip_tokens(tokens: Vec<SyntaxSegment>) -> (r: Vec<SyntaxSegment>)
    ensures
        r.deep_view() == stripped(tokens.deep_view()),
{
    let ghost all = tokens.deep_view();
    let mut out: Vec<SyntaxSegment> = Vec::new();
    let mut i: usize = 0;
    assert(out.deep_view() =~= stripped(all.take(0)));
    while i < tokens.len()
        invariant
            i <= tokens@.len(),
            all == tokens.deep_view(),
            out.deep_view() == stripped(all.take(i as int)),
        decreases tokens.len() - i,
    {
        proof {
            assert(all.take(i + 1).drop_last() =~= all.take(i as int));
            assert(all[i as int] == tokens@[i as int].deep_view());
        }
        let cs = chars_of(tokens[i].text.as_str());
        let len: usize = if cs.len() > 0 && cs[cs.len() - 1] == '\n' {
            cs.len() - 1
        } else {
            cs.len()
        };
        let ghost before = out.deep_view();
        if len > 0 {
            let text = substring(cs.as_slice(), 0, len);
            assert(text@ =~= without_newline(all[i as int].text));
            let segment = SyntaxSegment { text, fg_color: tokens[i].fg_color };
            out.push(segment);
            assert(out.deep_view() =~= before.push(segment.deep_view()));
        }
        i = i + 1;
    }
    assert(all.take(all.len() as int) =~= all);
    out
}

/// A parser, as it stands between two lines.
pub struct ResumeState {
    parse: ParseState,
    highlight: HighlightState,
}

impl View for ResumeState {
    type V = ParserView;

    closed spec fn view(&self) -> ParserView {
        ParserView {
            syntax: parser_syntax(self.parse, self.highlight),
            lines: parser_lines(self.parse, self.highlight),
        }
    }
}

impl ResumeState {
    /// The parser was set up with these grammars and colours.
    pub closed spec fn belongs_to(self, grammar: Grammar) -> bool {
        &&& parser_grammars(self.parse, self.highlight) == grammar.languages()
        &&& parser_rules(self.parse, self.highlight) == grammar.rules()
    }

    /// A parser at the beginning of a file.
    pub fn new(grammar: &Grammar, path: &str) -> (r: ResumeState)
        ensures
            r.belongs_to(*grammar),
            r@ == grammar.start(path@),
    {
        proof {
            use_type_invariant(&*grammar);
        }
        let extension = match extension(path) {
            Some(extension) => if knows_extension(&grammar.syntax_set, extension.as_str()) {
                Some(extension)
            } else {
                None
            },
            None => None,
        };
        let (parse, highlight) = match &extension {
            Some(extension) => new_parser(
                &grammar.syntax_set,
                &grammar.theme,
                Some(extension.as_str()),
            ),
            None => new_parser(&grammar.syntax_set, &grammar.theme, None),
        };
        ResumeState { parse, highlight }
    }

    /// The parser in the same state.
    pub fn duplicate(&self) -> (r: ResumeState)
        ensures
            r@ == self@,
            forall|grammar: Grammar| self.belongs_to(grammar) ==> r.belongs_to(grammar),
    {
        let (parse, highlight) = copy_parser(&self.parse, &self.highlight);
        ResumeState { parse, highlight }
    }

    /// The segments of a text. The parser goes on behind it. The text is handed over with a newline
    /// at its end, so that what ends with the line is closed.
    pub fn advance(&mut self, grammar: &Grammar, content: &str) -> (r: Vec<SyntaxSegment>)
        requires
            old(self).belongs_to(*grammar),
        ensures
            final(self).belongs_to(*grammar),
            final(self)@ == old(self)@.past(content@),
            r.deep_view() == grammar.highlighted(old(self)@, content@),
    {
        let mut line = content.to_owned();
        line.push('\n');
        let tokens = parse_line(
            &mut self.parse,
            &mut self.highlight,
            line.as_str(),
            &grammar.syntax_set,
            &grammar.theme,
        );
        match tokens {
            Some(tokens) => strip_tokens(tokens),
            None => plain_segments(content),
        }
    }
}

/// The file that is being read line by line, and the parser behind the last line.
struct Stream {
    path: String,
    state: ResumeState,
}

/// Highlights the lines of files as they come, one after the other. A line of another file than the
/// last begins anew.
pub struct SyntaxHighlighter {
    grammar: Grammar,
    stream: Option<Stream>,
}

/// The path that a line without one is highlighted under.
pub open spec fn path_or_none(path: Option<Seq<char>>) -> Seq<char> {
    match path {
        Some(path) => path,
        None => Seq::empty(),
    }
}

/// What a highlighter has read: the file that it is reading, and where its parser stands.
pub struct StreamView {
    pub grammar: Grammar,
    pub reading: Option<(Seq<char>, ParserView)>,
}

impl StreamView {
    /// Where the parser stands that a line of the file `path` is read by.
    pub open spec fn position(self, path: Seq<char>) -> ParserView {
        match self.reading {
            Some((reading, at)) => if reading == path {
                at
            } else {
                self.grammar.start(path)
            },
            None => self.grammar.start(path),
        }
    }

    /// The segments of a line.
    pub open spec fn shows(self, content: Seq<char>, path: Option<Seq<char>>) -> Seq<
        SyntaxSegmentView,
    > {
        if content.len() == 0 || too_long(content) {
            plain(content)
        } else {
            self.grammar.highlighted(self.position(path_or_none(path)), content)
        }
    }

    /// A line was read. An empty line is passed over, and so is one that is too long.
    pub open spec fn past(self, content: Seq<char>, path: Option<Seq<char>>) -> StreamView {
        if content.len() == 0 || too_long(content) {
            self
        } else {
            let path = path_or_none(path);
            StreamView {
                grammar: self.grammar,
                reading: Some((path, self.position(path).past(content))),
            }
        }
    }

    /// Nothing is being read.
    pub open spec fn fresh(self) -> StreamView {
        StreamView { grammar: self.grammar, reading: None }
    }
}

impl View for SyntaxHighlighter {
    type V = StreamView;

    closed spec fn view(&self) -> StreamView {
        StreamView {
            grammar: self.grammar,
            reading: match self.stream {
                Some(stream) => Some((stream.path@, stream.state@)),
                None => None,
            },
        }
    }
}

impl SyntaxHighlighter {
    #[verifier::type_invariant]
    spec fn own_stream(self) -> bool {
        self.stream is Some ==> self.stream->0.state.belongs_to(self.grammar)
    }

    /// A highlighter that has read nothing yet.
    pub fn new() -> (r: SyntaxHighlighter)
        ensures
            r@.reading is None,
            r@.grammar.rules() == theme::branchdiff_rules(),
    {
        SyntaxHighlighter { grammar: Grammar::load(), stream: None }
    }

    /// The segments of a line. An empty line has none, and is not read. One that is too long is not
    /// read either, and has no colours: such lines are generated, with nothing in them that later
    /// lines depend on.
    pub fn highlight_line(&mut self, content: &str, file_path: Option<&str>) -> (r: Vec<
        SyntaxSegment,
    >)
        ensures
            r.deep_view() == old(self)@.shows(content@, file_path.deep_view()),
            final(self)@ == old(self)@.past(content@, file_path.deep_view()),
    {
        proof {
            use_type_invariant(&*self);
        }
        if content.unicode_len() == 0 || content.len() > MAX_HIGHLIGHT_LINE_LEN {
            return plain_segments(content);
        }
        let path = match file_path {
            Some(path) => path.to_owned(),
            None => String::new(),
        };
        assert(path@ =~= path_or_none(file_path.deep_view()));
        let mut taken: Option<Stream> = None;
        std::mem::swap(&mut taken, &mut self.stream);
        let mut stream = match taken {
            Some(stream) => if same_text(stream.path.as_str(), path.as_str()) {
                stream
            } else {
                let state = ResumeState::new(&self.grammar, path.as_str());
                Stream { path, state }
            },
            None => {
                let state = ResumeState::new(&self.grammar, path.as_str());
                Stream { path, state }
            },
        };
        let segments = stream.state.advance(&self.grammar, content);
        self.stream = Some(stream);
        segments
    }

    /// Forgets the file that is being read.
    pub fn reset(&mut self)
        ensures
            final(self)@ == old(self)@.fresh(),
    {
        self.stream = None;
    }
}

/// Forgets the file that is being read, so that the next line begins anew.
pub fn reset_highlight_state(highlighter: &mut SyntaxHighlighter)
    ensures
        final(highlighter)@ == old(highlighter)@.fresh(),
{
    highlighter.reset();
}

/// The segments of a line, read behind the lines of the same file that were highlighted before it.
pub fn highlight_line(
    highlighter: &mut SyntaxHighlighter,
    content: &str,
    file_path: Option<&str>,
) -> (r: Vec<SyntaxSegment>)
    ensures
        r.deep_view() == old(highlighter)@.shows(content@, file_path.deep_view()),
        final(highlighter)@ == old(highlighter)@.past(content@, file_path.deep_view()),
{
    highlighter.highlight_line(content, file_path)
}

proof fn lemma_stripped_text(tokens: Seq<SyntaxSegmentView>)
    requires
        forall|i: int|
            0 <= i < text_of_segments(tokens).len() - 1 ==> #[trigger] text_of_segments(tokens)[i]
                != '\n',
    ensures
        text_of_segments(stripped(tokens)) == without_newline(text_of_segments(tokens)),
    decreases tokens.len(),
{
    if tokens.len() > 0 {
        let a = text_of_segments(tokens.drop_last());
        let b = tokens.last().text;
        let all = text_of_segments(tokens);
        assert(all == a + b);
        assert forall|i: int| 0 <= i < a.len() - 1 implies #[trigger] a[i] != '\n' by {
            assert(all[i] == a[i]);
        }
        lemma_stripped_text(tokens.drop_last());
        let front = stripped(tokens.drop_last());
        if b.len() == 0 {
            assert(all =~= a);
        } else {
            if a.len() > 0 {
                assert(all[a.len() - 1] == a[a.len() - 1]);
            }
            assert(without_newline(a) =~= a);
            let text = without_newline(b);
            assert(without_newline(all) =~= a + text);
            if text.len() == 0 {
                assert(a + text =~= a);
            } else {
                let whole = front.push(
                    SyntaxSegmentView { text, fg_color: tokens.last().fg_color },
                );
                assert(whole.drop_last() =~= front);
            }
        }
    }
}

/// The segments of a line reproduce it exactly, as long as the parser has not failed on a line
/// before it.
pub proof fn law_segments_reproduce_the_line(grammar: Grammar, at: ParserView, content: Seq<char>)
    requires
        grammar.parsed_all(at),
        !content.contains('\n'),
    ensures
        text_of_segments(grammar.highlighted(at, content)) == content,
{
    let line = content.push('\n');
    match line_tokens(grammar.languages(), grammar.rules(), at.syntax, at.lines, line) {
        Some(tokens) => {
            assert forall|i: int| 0 <= i < line.len() - 1 implies #[trigger] line[i] != '\n' by {
                assert(content.contains(content[i]));
            }
            lemma_stripped_text(tokens);
            assert(without_newline(line) =~= content);
        },
        None => {
            reveal_with_fuel(text_of_segments, 2);
            assert(plain(content).len() > 0 ==> plain(content).drop_last() =~= Seq::empty());
            assert(text_of_segments(plain(content)) =~= content);
        },
    }
}

} // verus!

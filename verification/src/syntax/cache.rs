//! Highlighted lines, kept from one frame to the next.
//!
//! Reading lines is what drawing a diff costs most, so a line is read once and its segments are
//! kept. How a line is coloured depends on the lines before it, so with some of the lines the
//! parser behind them is kept too. No line is read that was not asked for: one whose predecessors
//! were read goes on from them, and any other begins with a fresh parser.
use std::collections::HashMap;
use std::sync::Arc;

use vstd::prelude::*;
use vstd::string::*;

use crate::diff::DiffLine;
use crate::diff::DiffLineView;
use crate::diff::LineSource;
use crate::syntax::path_or_none;
use crate::syntax::plain;
use crate::syntax::plain_segments;
use crate::syntax::text_of_segments;
use crate::syntax::too_long;
use crate::syntax::Grammar;
use crate::syntax::ParserView;
use crate::syntax::ResumeState;
use crate::syntax::StreamView;
use crate::syntax::SyntaxSegment;
use crate::syntax::SyntaxSegmentView;
use crate::syntax::MAX_HIGHLIGHT_LINE_LEN;
use crate::text::same_text;

verus! {

/// Every line whose number this divides keeps the parser behind it.
pub const CHECKPOINT_EVERY: usize = 16;

/// The most lines that are gone back over to find a parser.
pub const MAX_CONTEXT_REPLAY: usize = 32;

impl DiffLineView {
    /// The file that a line is read as part of; none for the lines between files.
    pub open spec fn chain_path(self) -> Seq<char> {
        path_or_none(self.file_path)
    }

    /// Whether a line holds text of its file.
    pub open spec fn is_content(self) -> bool {
        !(self.source is FileHeader) && !(self.source is Elided) && !self.marks_image()
    }
}

/// The segments of a line, where the parser stands behind it, and whether it was read. Headings,
/// elisions, images, lines that are too long and empty lines are passed over.
pub open spec fn read_over(grammar: Grammar, at: ParserView, line: DiffLineView) -> (
    Seq<SyntaxSegmentView>,
    ParserView,
    bool,
) {
    if !line.is_content() || too_long(line.content) {
        (plain(line.content), at, false)
    } else if line.content.len() == 0 {
        (Seq::empty(), at, false)
    } else {
        (grammar.highlighted(at, line.content), at.past(line.content), true)
    }
}

/// One more, up to the largest number that can be counted to.
pub open spec fn counted(parses: usize, parsed: bool) -> usize {
    if parsed && parses < usize::MAX {
        (parses + 1) as usize
    } else {
        parses
    }
}

/// What is kept of a line: its segments and, with some lines, the parser behind it.
pub struct EntryView {
    pub segments: Seq<SyntaxSegmentView>,
    pub exit: Option<ParserView>,
}

/// What a `HighlightCache` holds.
pub struct CacheView {
    pub entries: Seq<Option<EntryView>>,
    /// The segments of the text that lines had before they were modified.
    pub alt: Map<usize, Seq<SyntaxSegmentView>>,
    /// How many lines were read.
    pub parses: usize,
    /// The last two lines that were asked for and read, the later one first.
    pub frontier: (Option<usize>, Option<usize>),
}

/// The line to begin reading from, to get to the one before which `start` stands, and the parser to
/// begin with, if there is one: the nearest that is kept behind a line of the same file, with no
/// line in between that was not read, at most `steps` lines back.
pub open spec fn anchor_from(
    entries: Seq<Option<EntryView>>,
    lines: Seq<DiffLineView>,
    path: Seq<char>,
    start: int,
    steps: nat,
) -> (int, Option<ParserView>)
    decreases steps,
{
    if steps == 0 || start <= 0 || lines[start - 1].chain_path() != path || entries[start
        - 1] is None {
        (start, None)
    } else {
        match entries[start - 1]->0.exit {
            Some(exit) => (start, Some(exit)),
            None => anchor_from(entries, lines, path, start - 1, (steps - 1) as nat),
        }
    }
}

/// The line to begin reading from, to get to line `idx`, and the parser to begin with.
pub open spec fn anchor_of(
    grammar: Grammar,
    entries: Seq<Option<EntryView>>,
    lines: Seq<DiffLineView>,
    idx: int,
) -> (int, ParserView) {
    let path = lines[idx].chain_path();
    match anchor_from(entries, lines, path, idx, MAX_CONTEXT_REPLAY as nat) {
        (start, Some(at)) => (start, at),
        (start, None) => (start, grammar.start(path)),
    }
}

impl CacheView {
    /// What is kept of other lines than these is dropped, which their number tells.
    pub open spec fn synced(self, len: nat) -> CacheView {
        if self.entries.len() == len {
            self
        } else {
            CacheView {
                entries: Seq::new(len, |i: int| None),
                alt: Map::empty(),
                parses: self.parses,
                frontier: (None, None),
            }
        }
    }

    /// Lines `i` to `idx` are read and kept, the parser standing at `at` before them. The parser
    /// behind a line is kept at the checkpoints and behind the last line.
    pub open spec fn filled(
        self,
        grammar: Grammar,
        lines: Seq<DiffLineView>,
        i: int,
        idx: int,
        at: ParserView,
    ) -> CacheView
        decreases idx + 1 - i,
    {
        if i > idx {
            self
        } else {
            let (segments, next, parsed) = read_over(grammar, at, lines[i]);
            let keep = i == idx || i % (CHECKPOINT_EVERY as int) == 0;
            let entry = EntryView {
                segments,
                exit: if keep {
                    Some(next)
                } else {
                    None
                },
            };
            (CacheView {
                entries: self.entries.update(i, Some(entry)),
                parses: counted(self.parses, parsed),
                ..self
            }).filled(grammar, lines, i + 1, idx, next)
        }
    }

    /// Line `idx` is the latest. The parser behind the line that is no longer among the last two is
    /// dropped, unless that is a checkpoint.
    pub open spec fn moved(self, idx: usize) -> CacheView {
        if self.frontier.0 == Some(idx) {
            self
        } else {
            let frontier = (Some(idx), self.frontier.0);
            let entries = match self.frontier.1 {
                Some(prev) => if prev % CHECKPOINT_EVERY != 0 && frontier.0 != Some(prev)
                    && frontier.1 != Some(prev) && prev < self.entries.len()
                    && self.entries[prev as int] is Some {
                    self.entries.update(
                        prev as int,
                        Some(EntryView { exit: None, ..self.entries[prev as int]->0 }),
                    )
                } else {
                    self.entries
                },
                None => self.entries,
            };
            CacheView { entries, frontier, ..self }
        }
    }

    /// Line `idx` was asked for.
    pub open spec fn looked_up(
        self,
        grammar: Grammar,
        lines: Seq<DiffLineView>,
        idx: usize,
    ) -> CacheView {
        let c = self.synced(lines.len());
        if c.entries[idx as int] is Some {
            c
        } else {
            let (start, at) = anchor_of(grammar, c.entries, lines, idx as int);
            c.filled(grammar, lines, start, idx as int, at).moved(idx)
        }
    }

    /// The segments of the text that line `idx` had before it was modified, and what is kept then.
    pub open spec fn looked_up_alt(
        self,
        grammar: Grammar,
        lines: Seq<DiffLineView>,
        idx: usize,
        content: Seq<char>,
    ) -> (CacheView, Seq<SyntaxSegmentView>) {
        let c = self.synced(lines.len());
        if c.alt.dom().contains(idx) {
            (c, c.alt[idx])
        } else {
            let d = c.looked_up(grammar, lines, idx);
            let (start, from) = anchor_of(grammar, d.entries, lines, idx as int);
            let (at, parses) = replayed(grammar, lines, start, idx as int, from, d.parses);
            let skip = content.len() == 0 || too_long(content);
            let segments = if skip {
                plain(content)
            } else {
                grammar.highlighted(at, content)
            };
            (
                CacheView {
                    alt: d.alt.insert(idx, segments),
                    parses: counted(parses, !skip),
                    ..d
                },
                segments,
            )
        }
    }
}

/// Where the parser stands behind lines `i` up to `idx`, standing at `at` before them, and how many
/// lines were read by then.
pub open spec fn replayed(
    grammar: Grammar,
    lines: Seq<DiffLineView>,
    i: int,
    idx: int,
    at: ParserView,
    parses: usize,
) -> (ParserView, usize)
    decreases idx - i,
{
    if i >= idx {
        (at, parses)
    } else {
        let (_, next, parsed) = read_over(grammar, at, lines[i]);
        replayed(grammar, lines, i + 1, idx, next, counted(parses, parsed))
    }
}

pub proof fn lemma_anchor_from(
    entries: Seq<Option<EntryView>>,
    lines: Seq<DiffLineView>,
    path: Seq<char>,
    start: int,
    steps: nat,
)
    requires
        0 <= start,
    ensures
        0 <= anchor_from(entries, lines, path, start, steps).0 <= start,
    decreases steps,
{
    if steps == 0 || start <= 0 || lines[start - 1].chain_path() != path || entries[start
        - 1] is None {
    } else if entries[start - 1]->0.exit is None {
        lemma_anchor_from(entries, lines, path, start - 1, (steps - 1) as nat);
    }
}

/// `Arc::clone`: another handle on the same segments.
#[verifier::external_body]
fn share(segments: &Arc<Vec<SyntaxSegment>>) -> (r: Arc<Vec<SyntaxSegment>>)
    ensures
        r == *segments,
{
    Arc::clone(segments)
}

struct CacheEntry {
    segments: Arc<Vec<SyntaxSegment>>,
    exit: Option<ResumeState>,
}

impl CacheEntry {
    spec fn entry(self) -> EntryView {
        EntryView {
            segments: self.segments.deep_view(),
            exit: match self.exit {
                Some(state) => Some(state@),
                None => None,
            },
        }
    }
}

spec fn entry_of(entry: Option<CacheEntry>) -> Option<EntryView> {
    match entry {
        Some(entry) => Some(entry.entry()),
        None => None,
    }
}

spec fn entries_of(entries: Seq<Option<CacheEntry>>) -> Seq<Option<EntryView>> {
    Seq::new(entries.len(), |i: int| entry_of(entries[i]))
}

/// Highlighted lines, by their numbers. It has to be emptied whenever the lines change.
pub struct HighlightCache {
    grammar: Grammar,
    entries: Vec<Option<CacheEntry>>,
    alt: HashMap<usize, Arc<Vec<SyntaxSegment>>>,
    parses: usize,
    frontier: (Option<usize>, Option<usize>),
}

impl View for HighlightCache {
    type V = CacheView;

    closed spec fn view(&self) -> CacheView {
        CacheView {
            entries: entries_of(self.entries@),
            alt: self.alt@.map_values(|v: Arc<Vec<SyntaxSegment>>| v.deep_view()),
            parses: self.parses,
            frontier: self.frontier,
        }
    }
}

/// Whether a line holds text of its file.
fn is_content(line: &DiffLine) -> (r: bool)
    ensures
        r == line.deep_view().is_content(),
{
    !matches!(line.source, LineSource::FileHeader | LineSource::Elided) && !line.is_image_marker()
}

/// The file that a line is read as part of.
fn chain_path(line: &DiffLine) -> (r: String)
    ensures
        r@ == line.deep_view().chain_path(),
{
    match &line.file_path {
        Some(path) => path.clone(),
        None => {
            let r = String::new();
            assert(r@ =~= Seq::empty());
            r
        },
    }
}

/// The segments of a line, and whether it was read.
fn advance_over(state: &mut ResumeState, grammar: &Grammar, line: &DiffLine) -> (r: (
    Vec<SyntaxSegment>,
    bool,
))
    requires
        old(state).belongs_to(*grammar),
    ensures
        final(state).belongs_to(*grammar),
        (r.0.deep_view(), final(state)@, r.1) == read_over(*grammar, old(state)@, line.deep_view()),
{
    if !is_content(line) || line.content.as_str().len() > MAX_HIGHLIGHT_LINE_LEN {
        return (plain_segments(line.content.as_str()), false);
    }
    if line.content.as_str().unicode_len() == 0 {
        let none: Vec<SyntaxSegment> = Vec::new();
        assert(none.deep_view() =~= Seq::empty());
        return (none, false);
    }
    (state.advance(grammar, line.content.as_str()), true)
}

fn count(parses: usize, parsed: bool) -> (r: usize)
    ensures
        r == counted(parses, parsed),
{
    if parsed && parses < usize::MAX {
        parses + 1
    } else {
        parses
    }
}

impl HighlightCache {
    pub closed spec fn grammar(self) -> Grammar {
        self.grammar
    }

    /// Every parser that is kept was set up with the grammars of the cache.
    pub closed spec fn wf(self) -> bool {
        forall|i: int|
            0 <= i < self.entries@.len() && (#[trigger] self.entries@[i]) is Some
                && self.entries@[i]->0.exit is Some ==> self.entries@[i]->0.exit->0.belongs_to(
                self.grammar,
            )
    }

    /// A cache that holds nothing.
    pub fn new() -> (r: HighlightCache)
        ensures
            r.wf(),
            r.grammar().rules() == crate::syntax::theme::branchdiff_rules(),
            r@ == (CacheView {
                entries: Seq::empty(),
                alt: Map::empty(),
                parses: 0,
                frontier: (None, None),
            }),
    {
        let r = HighlightCache {
            grammar: Grammar::load(),
            entries: Vec::new(),
            alt: HashMap::new(),
            parses: 0,
            frontier: (None, None),
        };
        assert(r@.entries =~= Seq::empty());
        assert(r@.alt =~= Map::empty());
        r
    }

    /// Drops everything but the count of the lines that were read.
    pub fn invalidate(&mut self)
        ensures
            final(self).wf(),
            final(self).grammar() == old(self).grammar(),
            final(self)@ == (CacheView {
                entries: Seq::empty(),
                alt: Map::empty(),
                parses: old(self)@.parses,
                frontier: (None, None),
            }),
    {
        self.entries = Vec::new();
        self.alt = HashMap::new();
        self.frontier = (None, None);
        assert(self@.entries =~= Seq::empty());
        assert(self@.alt =~= Map::empty());
    }

    /// How many lines were read.
    pub fn parse_count(&self) -> (r: usize)
        ensures
            r == self@.parses,
    {
        self.parses
    }

    fn sync_len(&mut self, len: usize)
        requires
            old(self).wf(),
        ensures
            final(self).wf(),
            final(self).grammar() == old(self).grammar(),
            final(self)@ == old(self)@.synced(len as nat),
            final(self).entries@.len() == len,
    {
        if self.entries.len() != len {
            let mut entries: Vec<Option<CacheEntry>> = Vec::new();
            let mut i: usize = 0;
            while i < len
                invariant
                    i <= len,
                    entries@.len() == i,
                    forall|k: int| 0 <= k < i ==> (#[trigger] entries@[k]) is None,
                decreases len - i,
            {
                entries.push(None);
                i = i + 1;
            }
            self.entries = entries;
            self.alt = HashMap::new();
            self.frontier = (None, None);
            assert(self@.alt =~= Map::empty());
            assert(self@.entries =~= Seq::new(len as nat, |i: int| None));
        }
    }

    /// Where to begin reading, to get to line `idx`, and the parser to begin with.
    fn anchor(&self, lines: &[DiffLine], idx: usize) -> (r: (usize, ResumeState))
        requires
            self.wf(),
            idx < lines@.len(),
            self.entries@.len() == lines@.len(),
        ensures
            (r.0 as int, r.1@) == anchor_of(self.grammar, self@.entries, lines.deep_view(), idx as int),
            r.0 <= idx,
            r.1.belongs_to(self.grammar),
    {
        let path = chain_path(&lines[idx]);
        let ghost all = lines.deep_view();
        let ghost entries = self@.entries;
        let mut start: usize = idx;
        let mut steps: usize = MAX_CONTEXT_REPLAY;
        while steps > 0 && start > 0
            invariant
                self.wf(),
                idx < lines@.len(),
                self.entries@.len() == lines@.len(),
                start <= idx,
                path@ == all[idx as int].chain_path(),
                all == lines.deep_view(),
                entries == self@.entries,
                anchor_from(entries, all, path@, idx as int, MAX_CONTEXT_REPLAY as nat)
                    == anchor_from(entries, all, path@, start as int, steps as nat),
            ensures
                start <= idx,
                anchor_from(entries, all, path@, idx as int, MAX_CONTEXT_REPLAY as nat) == (
                    start as int,
                    None::<ParserView>,
                ),
            decreases steps,
        {
            let before: usize = start - 1;
            assert(all[before as int] == lines@[before as int].deep_view());
            assert(entries[before as int] == entry_of(self.entries@[before as int]));
            let same = same_text(chain_path(&lines[before]).as_str(), path.as_str());
            if !same {
                break;
            }
            match &self.entries[before] {
                None => {
                    break;
                },
                Some(entry) => {
                    if let Some(exit) = &entry.exit {
                        return (start, exit.duplicate());
                    }
                },
            }
            start = before;
            steps = steps - 1;
        }
        (start, ResumeState::new(&self.grammar, path.as_str()))
    }

    /// Makes `idx` the latest line.
    fn move_frontier(&mut self, idx: usize)
        requires
            old(self).wf(),
        ensures
            final(self).wf(),
            final(self).grammar() == old(self).grammar(),
            final(self)@ == old(self)@.moved(idx),
            final(self).entries@.len() == old(self).entries@.len(),
    {
        if self.frontier.0 == Some(idx) {
            return;
        }
        let evicted = self.frontier.1;
        self.frontier = (Some(idx), self.frontier.0);
        if let Some(prev) = evicted {
            if prev % CHECKPOINT_EVERY != 0 && self.frontier.0 != Some(prev) && self.frontier.1
                != Some(prev) && prev < self.entries.len() {
                let segments = match &self.entries[prev] {
                    Some(entry) => Some(share(&entry.segments)),
                    None => None,
                };
                if let Some(segments) = segments {
                    self.entries.set(prev, Some(CacheEntry { segments, exit: None }));
                }
            }
        }
        assert(self@.entries =~= old(self)@.moved(idx).entries);
    }

    /// The segments of line `idx`. Only what is not kept yet is read.
    pub fn segments(&mut self, lines: &[DiffLine], idx: usize) -> (r: Arc<Vec<SyntaxSegment>>)
        requires
            old(self).wf(),
        ensures
            final(self).wf(),
            final(self).grammar() == old(self).grammar(),
            idx < lines@.len() ==> {
                &&& final(self)@ == old(self)@.looked_up(old(self).grammar(), lines.deep_view(), idx)
                &&& Some(r.deep_view()) == (match final(self)@.entries[idx as int] {
                    Some(entry) => Some(entry.segments),
                    None => None,
                })
                &&& final(self)@.entries.len() == lines@.len()
            },
            idx >= lines@.len() ==> final(self)@ == old(self)@ && r.deep_view() == Seq::<
                SyntaxSegmentView,
            >::empty(),
    {
        if idx >= lines.len() {
            let none: Vec<SyntaxSegment> = Vec::new();
            assert(none.deep_view() =~= Seq::empty());
            return Arc::new(none);
        }
        self.sync_len(lines.len());
        let ghost all = lines.deep_view();
        let ghost synced = self@;
        assert(synced.entries[idx as int] == entry_of(self.entries@[idx as int]));
        if let Some(entry) = &self.entries[idx] {
            return share(&entry.segments);
        }
        let (start, mut state) = self.anchor(lines, idx);
        let ghost goal = synced.filled(
            self.grammar,
            all,
            start as int,
            idx as int,
            state@,
        );
        let ghost grammar = self.grammar;
        let end: usize = idx + 1;
        let mut i: usize = start;
        while i < end
            invariant
                start <= i <= end,
                end == idx + 1,
                idx < lines@.len(),
                all == lines.deep_view(),
                self.grammar == grammar,
                self.wf(),
                state.belongs_to(self.grammar),
                self.entries@.len() == lines@.len(),
                goal == self@.filled(grammar, all, i as int, idx as int, state@),
                i > idx ==> self.entries@[idx as int] is Some,
            decreases end - i,
        {
            let ghost before = self@;
            assert(all[i as int] == lines@[i as int].deep_view());
            let (segments, parsed) = advance_over(&mut state, &self.grammar, &lines[i]);
            self.parses = count(self.parses, parsed);
            let exit = if i == idx || i % CHECKPOINT_EVERY == 0 {
                Some(state.duplicate())
            } else {
                None
            };
            let entry = CacheEntry { segments: Arc::new(segments), exit };
            self.entries.set(i, Some(entry));
            assert(self@.entries =~= before.entries.update(i as int, Some(entry.entry())));
            i = i + 1;
        }
        self.move_frontier(idx);
        assert(self@.entries[idx as int] == entry_of(self.entries@[idx as int]));
        match &self.entries[idx] {
            Some(entry) => share(&entry.segments),
            None => Arc::new(Vec::new()),
        }
    }

    /// The parser that line `idx` is read by.
    fn entry_state(&mut self, lines: &[DiffLine], idx: usize) -> (r: ResumeState)
        requires
            old(self).wf(),
            idx < lines@.len(),
            old(self).entries@.len() == lines@.len(),
        ensures
            final(self).wf(),
            final(self).grammar() == old(self).grammar(),
            r.belongs_to(old(self).grammar()),
            ({
                let (start, from) = anchor_of(
                    old(self).grammar(),
                    old(self)@.entries,
                    lines.deep_view(),
                    idx as int,
                );
                let (at, parses) = replayed(
                    old(self).grammar(),
                    lines.deep_view(),
                    start,
                    idx as int,
                    from,
                    old(self)@.parses,
                );
                r@ == at && final(self)@ == (CacheView { parses, ..old(self)@ })
            }),
    {
        let (start, mut state) = self.anchor(lines, idx);
        let ghost all = lines.deep_view();
        let ghost given = *self;
        let ghost goal = replayed(
            self.grammar,
            all,
            start as int,
            idx as int,
            state@,
            self.parses,
        );
        let mut i: usize = start;
        while i < idx
            invariant
                start <= i <= idx < lines@.len(),
                all == lines.deep_view(),
                self.grammar == given.grammar,
                self.entries == given.entries,
                self.alt == given.alt,
                self.frontier == given.frontier,
                state.belongs_to(self.grammar),
                goal == replayed(
                    self.grammar,
                    all,
                    i as int,
                    idx as int,
                    state@,
                    self.parses,
                ),
            decreases idx - i,
        {
            assert(all[i as int] == lines@[i as int].deep_view());
            let (_, parsed) = advance_over(&mut state, &self.grammar, &lines[i]);
            self.parses = count(self.parses, parsed);
            i = i + 1;
        }
        state
    }

    /// The segments of the text `content` that line `idx` had before it was modified, read from
    /// where the line itself is read from.
    pub fn alt_segments(&mut self, lines: &[DiffLine], idx: usize, content: &str) -> (r: Arc<
        Vec<SyntaxSegment>,
    >)
        requires
            old(self).wf(),
        ensures
            final(self).wf(),
            final(self).grammar() == old(self).grammar(),
            idx < lines@.len() ==> (final(self)@, r.deep_view()) == old(self)@.looked_up_alt(
                old(self).grammar(),
                lines.deep_view(),
                idx,
                content@,
            ),
            idx >= lines@.len() ==> final(self)@ == old(self)@ && r.deep_view() == plain(content@),
    {
        broadcast use vstd::std_specs::hash::group_hash_axioms;

        if idx >= lines.len() {
            return Arc::new(plain_segments(content));
        }
        self.sync_len(lines.len());
        if let Some(segments) = self.alt.get(&idx) {
            return share(segments);
        }
        let _ = self.segments(lines, idx);
        assert(self@.entries.len() == self.entries@.len());
        let mut state = self.entry_state(lines, idx);
        let segments = if content.unicode_len() == 0 || content.len() > MAX_HIGHLIGHT_LINE_LEN {
            plain_segments(content)
        } else {
            self.parses = count(self.parses, true);
            state.advance(&self.grammar, content)
        };
        let kept = Arc::new(segments);
        let ghost before = self@;
        self.alt.insert(idx, share(&kept));
        assert(self@.alt =~= before.alt.insert(idx, kept.deep_view()));
        kept
    }

    /// How many parsers are kept.
    pub fn stored_states(&self) -> (r: usize)
        ensures
            r == stored(self@.entries),
    {
        let ghost all = self@.entries;
        let mut n: usize = 0;
        let mut i: usize = 0;
        while i < self.entries.len()
            invariant
                i <= self.entries@.len(),
                all == entries_of(self.entries@),
                n <= i,
                n == stored(all.take(i as int)),
            decreases self.entries.len() - i,
        {
            proof {
                assert(all.take(i + 1).drop_last() =~= all.take(i as int));
                assert(all[i as int] == entry_of(self.entries@[i as int]));
            }
            if let Some(entry) = &self.entries[i] {
                if entry.exit.is_some() {
                    n = n + 1;
                }
            }
            i = i + 1;
        }
        assert(all.take(all.len() as int) =~= all);
        n
    }
}

/// How many of some lines keep the parser behind them.
pub open spec fn stored(entries: Seq<Option<EntryView>>) -> nat
    decreases entries.len(),
{
    if entries.len() == 0 {
        0
    } else {
        stored(entries.drop_last()) + if entries.last() is Some && entries.last()->0.exit is Some {
            1nat
        } else {
            0
        }
    }
}

/// Where a fresh parser stands that has read lines `from` up to `to`.
pub open spec fn run(grammar: Grammar, lines: Seq<DiffLineView>, from: int, to: int) -> ParserView
    decreases to - from,
{
    if to <= from {
        grammar.start(lines[from].chain_path())
    } else {
        read_over(grammar, run(grammar, lines, from, to - 1), lines[to - 1]).1
    }
}

/// Whether lines `from` to `to` are of one file.
pub open spec fn one_file(lines: Seq<DiffLineView>, from: int, to: int) -> bool {
    forall|k: int| from <= k <= to ==> (#[trigger] lines[k]).chain_path() == lines[to].chain_path()
}

/// Whether what is kept of line `i` comes from reading the lines of its file from line `from` on.
pub open spec fn read_from(
    grammar: Grammar,
    lines: Seq<DiffLineView>,
    i: int,
    entry: EntryView,
    from: int,
) -> bool {
    &&& 0 <= from <= i
    &&& one_file(lines, from, i)
    &&& entry.segments == read_over(grammar, run(grammar, lines, from, i), lines[i]).0
    &&& entry.exit is Some ==> entry.exit->0 == run(grammar, lines, from, i + 1)
}

impl CacheView {
    /// What is kept of every line comes from reading the lines of its file in order, from some
    /// line on, and every checkpoint keeps the parser behind it.
    pub open spec fn consistent(self, grammar: Grammar, lines: Seq<DiffLineView>) -> bool {
        &&& self.entries.len() == lines.len()
        &&& forall|i: int|
            0 <= i < self.entries.len() && (#[trigger] self.entries[i]) is Some ==> exists|from: int|
                read_from(grammar, lines, i, self.entries[i]->0, from)
        &&& self.on_grid()
    }

    /// Every checkpoint that was read keeps the parser behind it.
    pub open spec fn on_grid(self) -> bool {
        forall|i: int|
            0 <= i < self.entries.len() && (#[trigger] self.entries[i]) is Some && i % (
            CHECKPOINT_EVERY as int) == 0 ==> self.entries[i]->0.exit is Some
    }
}

/// Going back for a parser ends at a checkpoint at the latest, so the limit on how far to go back
/// is never what stops it: with any larger limit the same parser is found, less than
/// `CHECKPOINT_EVERY` lines back.
pub proof fn law_context_walk_ends_at_a_checkpoint(
    cache: CacheView,
    lines: Seq<DiffLineView>,
    path: Seq<char>,
    idx: int,
    more: nat,
)
    requires
        cache.on_grid(),
        0 <= idx < cache.entries.len(),
        more >= MAX_CONTEXT_REPLAY,
    ensures
        anchor_from(cache.entries, lines, path, idx, more) == anchor_from(
            cache.entries,
            lines,
            path,
            idx,
            MAX_CONTEXT_REPLAY as nat,
        ),
        idx - anchor_from(cache.entries, lines, path, idx, MAX_CONTEXT_REPLAY as nat).0
            < CHECKPOINT_EVERY,
{
    lemma_walk(cache, lines, path, idx, MAX_CONTEXT_REPLAY as nat, more);
}

proof fn lemma_walk(
    cache: CacheView,
    lines: Seq<DiffLineView>,
    path: Seq<char>,
    start: int,
    steps: nat,
    more: nat,
)
    requires
        cache.on_grid(),
        0 <= start < cache.entries.len(),
        start > 0 ==> steps > (start - 1) % 16,
        steps > 0,
        more >= steps,
    ensures
        anchor_from(cache.entries, lines, path, start, more) == anchor_from(
            cache.entries,
            lines,
            path,
            start,
            steps,
        ),
        start > 0 ==> start - anchor_from(cache.entries, lines, path, start, steps).0 <= (start - 1)
            % 16,
        start == 0 ==> anchor_from(cache.entries, lines, path, start, steps).0 == 0,
    decreases start,
{
    if start > 0 && lines[start - 1].chain_path() == path && cache.entries[start - 1] is Some
        && cache.entries[start - 1]->0.exit is None {
        assert((start - 1) % 16 != 0);
        if start - 1 > 0 {
            assert((start - 2) % 16 == (start - 1) % 16 - 1);
        }
        lemma_walk(cache, lines, path, start - 1, (steps - 1) as nat, (more - 1) as nat);
    }
}

/// Finding a parser: it stands where reading the lines of the file from some line on has led.
proof fn lemma_anchor(
    cache: CacheView,
    grammar: Grammar,
    lines: Seq<DiffLineView>,
    idx: int,
    start: int,
    steps: nat,
) -> (from: int)
    requires
        cache.consistent(grammar, lines),
        0 <= start <= idx < lines.len(),
        one_file(lines, start, idx),
    ensures
        ({
            let path = lines[idx].chain_path();
            let (begin, at) = anchor_from(cache.entries, lines, path, start, steps);
            &&& 0 <= from <= begin <= start
            &&& one_file(lines, from, idx)
            &&& run(grammar, lines, from, begin) == (match at {
                Some(at) => at,
                None => grammar.start(path),
            })
        }),
    decreases steps,
{
    let path = lines[idx].chain_path();
    assert(lines[idx].chain_path() == lines[idx].chain_path());
    if steps == 0 || start <= 0 || lines[start - 1].chain_path() != path || cache.entries[start
        - 1] is None {
        assert(lines[start].chain_path() == path);
        start
    } else {
        let entry = cache.entries[start - 1]->0;
        assert(one_file(lines, start - 1, idx)) by {
            assert forall|k: int| start - 1 <= k <= idx implies (#[trigger] lines[k]).chain_path()
                == lines[idx].chain_path() by {}
        }
        match entry.exit {
            Some(_) => {
                let last = start - 1;
                let from = choose|from: int| read_from(grammar, lines, last, entry, from);
                assert(read_from(grammar, lines, last, entry, from));
                assert(one_file(lines, from, idx)) by {
                    assert forall|k: int| from <= k <= idx implies (
                    #[trigger] lines[k]).chain_path() == lines[idx].chain_path() by {
                        if k < start {
                            assert(lines[k].chain_path() == lines[start - 1].chain_path());
                        }
                    }
                }
                from
            },
            None => lemma_anchor(cache, grammar, lines, idx, start - 1, (steps - 1) as nat),
        }
    }
}

proof fn lemma_filled(
    cache: CacheView,
    grammar: Grammar,
    lines: Seq<DiffLineView>,
    from: int,
    i: int,
    idx: int,
)
    requires
        cache.consistent(grammar, lines),
        0 <= from <= i <= idx + 1,
        idx < lines.len(),
        one_file(lines, from, idx),
    ensures
        cache.filled(grammar, lines, i, idx, run(grammar, lines, from, i)).consistent(grammar, lines),
        i <= idx ==> cache.filled(
            grammar,
            lines,
            i,
            idx,
            run(grammar, lines, from, i),
        ).entries[idx] is Some,
        i > idx && 0 <= idx && cache.entries[idx] is Some ==> cache.filled(
            grammar,
            lines,
            i,
            idx,
            run(grammar, lines, from, i),
        ).entries[idx] is Some,
    decreases idx + 1 - i,
{
    if i <= idx {
        let at = run(grammar, lines, from, i);
        let (segments, next, parsed) = read_over(grammar, at, lines[i]);
        assert(next == run(grammar, lines, from, i + 1));
        let keep = i == idx || i % (CHECKPOINT_EVERY as int) == 0;
        let entry = EntryView {
            segments,
            exit: if keep {
                Some(next)
            } else {
                None
            },
        };
        let after = CacheView {
            entries: cache.entries.update(i, Some(entry)),
            parses: counted(cache.parses, parsed),
            ..cache
        };
        assert(one_file(lines, from, i)) by {
            assert forall|k: int| from <= k <= i implies (#[trigger] lines[k]).chain_path()
                == lines[i].chain_path() by {
                assert(lines[i].chain_path() == lines[idx].chain_path());
            }
        }
        assert(read_from(grammar, lines, i, entry, from));
        assert(after.consistent(grammar, lines)) by {
            assert forall|k: int|
                0 <= k < after.entries.len() && (#[trigger] after.entries[k]) is Some implies exists|
                f: int,
            | read_from(grammar, lines, k, after.entries[k]->0, f) by {
                if k != i {
                    assert(cache.entries[k] == after.entries[k]);
                    let f = choose|f: int| read_from(grammar, lines, k, cache.entries[k]->0, f);
                    assert(read_from(grammar, lines, k, after.entries[k]->0, f));
                } else {
                    assert(read_from(grammar, lines, k, after.entries[k]->0, from));
                }
            }
        }
        lemma_filled(after, grammar, lines, from, i + 1, idx);
    }
}

proof fn lemma_moved(cache: CacheView, grammar: Grammar, lines: Seq<DiffLineView>, idx: usize)
    requires
        cache.consistent(grammar, lines),
        idx < lines.len(),
    ensures
        cache.moved(idx).consistent(grammar, lines),
        forall|i: int|
            0 <= i < lines.len() ==> (cache.entries[i] is Some <==> (
            #[trigger] cache.moved(idx).entries[i]) is Some),
{
    let after = cache.moved(idx);
    assert forall|k: int|
        0 <= k < after.entries.len() && (#[trigger] after.entries[k]) is Some implies exists|f: int|
        read_from(grammar, lines, k, after.entries[k]->0, f) by {
        assert(cache.entries[k] is Some);
        let f = choose|f: int| read_from(grammar, lines, k, cache.entries[k]->0, f);
        assert(read_from(grammar, lines, k, after.entries[k]->0, f));
    }
}

/// Asking for a line keeps the cache consistent, and the line is in it then. So whatever lines were
/// asked for, and in whatever order, a line is coloured as if the lines of its file had been read
/// in order, from some line on.
pub proof fn law_lookups_stay_consistent(
    cache: CacheView,
    grammar: Grammar,
    lines: Seq<DiffLineView>,
    idx: usize,
)
    requires
        idx < lines.len(),
        cache.entries.len() == lines.len() ==> cache.consistent(grammar, lines),
    ensures
        cache.looked_up(grammar, lines, idx).consistent(grammar, lines),
        cache.looked_up(grammar, lines, idx).entries[idx as int] is Some,
{
    let c = cache.synced(lines.len());
    assert(c.consistent(grammar, lines));
    if c.entries[idx as int] is None {
        let from = lemma_anchor(
            c,
            grammar,
            lines,
            idx as int,
            idx as int,
            MAX_CONTEXT_REPLAY as nat,
        );
        let (start, at) = anchor_of(grammar, c.entries, lines, idx as int);
        lemma_filled(c, grammar, lines, from, start, idx as int);
        lemma_moved(c.filled(grammar, lines, start, idx as int, at), grammar, lines, idx);
    }
}

/// Asking for the text that a line had before it was modified keeps the cache consistent: that text
/// is not read into the lines after it.
pub proof fn law_alt_lookups_stay_consistent(
    cache: CacheView,
    grammar: Grammar,
    lines: Seq<DiffLineView>,
    idx: usize,
    content: Seq<char>,
)
    requires
        idx < lines.len(),
        cache.entries.len() == lines.len() ==> cache.consistent(grammar, lines),
    ensures
        cache.looked_up_alt(grammar, lines, idx, content).0.consistent(grammar, lines),
        cache.looked_up_alt(grammar, lines, idx, content).0.entries == cache.synced(
            lines.len(),
        ).entries || cache.looked_up_alt(grammar, lines, idx, content).0.entries == cache.looked_up(
            grammar,
            lines,
            idx,
        ).entries,
{
    let c = cache.synced(lines.len());
    assert(c.consistent(grammar, lines));
    assert(c.synced(lines.len()) == c);
    law_lookups_stay_consistent(c, grammar, lines, idx);
}

/// A line that is kept is not read again.
pub proof fn law_revisiting_reads_nothing(
    cache: CacheView,
    grammar: Grammar,
    lines: Seq<DiffLineView>,
    idx: usize,
)
    requires
        idx < lines.len(),
        cache.entries.len() == lines.len(),
        cache.entries[idx as int] is Some,
    ensures
        cache.looked_up(grammar, lines, idx) == cache,
{
}

/// The segments that are kept of a line reproduce it exactly, where no line is broken and none
/// failed to parse.
pub proof fn law_kept_segments_reproduce_their_lines(
    cache: CacheView,
    grammar: Grammar,
    lines: Seq<DiffLineView>,
    i: int,
)
    requires
        cache.consistent(grammar, lines),
        0 <= i < lines.len(),
        cache.entries[i] is Some,
        !lines[i].content.contains('\n'),
        forall|from: int|
            0 <= from <= i ==> grammar.parsed_all(#[trigger] run(grammar, lines, from, i)),
    ensures
        text_of_segments(cache.entries[i]->0.segments) == lines[i].content,
{
    let from = choose|from: int| read_from(grammar, lines, i, cache.entries[i]->0, from);
    assert(read_from(grammar, lines, i, cache.entries[i]->0, from));
    let at = run(grammar, lines, from, i);
    let line = lines[i];
    if !line.is_content() || too_long(line.content) {
        reveal_with_fuel(text_of_segments, 2);
        assert(plain(line.content).len() > 0 ==> plain(line.content).drop_last() =~= Seq::empty());
        assert(text_of_segments(plain(line.content)) =~= line.content);
    } else if line.content.len() == 0 {
        assert(line.content =~= Seq::empty());
    } else {
        crate::syntax::law_segments_reproduce_the_line(grammar, at, line.content);
    }
}

/// An empty cache, after lines `0` up to `n` were asked for, one after the other.
pub open spec fn scrolled(grammar: Grammar, lines: Seq<DiffLineView>, n: nat) -> CacheView
    decreases n,
{
    if n == 0 {
        CacheView {
            entries: Seq::new(lines.len(), |i: int| None),
            alt: Map::empty(),
            parses: 0,
            frontier: (None, None),
        }
    } else {
        scrolled(grammar, lines, (n - 1) as nat).looked_up(grammar, lines, (n - 1) as usize)
    }
}

/// What the streaming highlighter has read after the first `n` lines of a file.
pub open spec fn streamed(
    from: StreamView,
    path: Seq<char>,
    lines: Seq<DiffLineView>,
    n: nat,
) -> StreamView
    decreases n,
{
    if n == 0 {
        from
    } else {
        streamed(from, path, lines, (n - 1) as nat).past(lines[n - 1].content, Some(path))
    }
}

proof fn lemma_scrolled(grammar: Grammar, lines: Seq<DiffLineView>, n: nat)
    requires
        n <= lines.len() <= usize::MAX,
        lines.len() > 0 ==> one_file(lines, 0, lines.len() - 1),
    ensures
        ({
            let c = scrolled(grammar, lines, n);
            &&& c.entries.len() == lines.len()
            &&& forall|i: int|
                0 <= i < n ==> (#[trigger] c.entries[i]) is Some && c.entries[i]->0.segments
                    == read_over(grammar, run(grammar, lines, 0, i), lines[i]).0
            &&& forall|i: int| n <= i < lines.len() ==> (#[trigger] c.entries[i]) is None
            &&& n > 0 ==> c.entries[n - 1]->0.exit == Some(run(grammar, lines, 0, n as int))
            &&& n > 0 ==> c.frontier.0 == Some((n - 1) as usize)
            &&& n == 0 ==> c.frontier == (None::<usize>, None::<usize>)
            &&& c.frontier.1 is Some ==> c.frontier.1->0 < n
        }),
    decreases n,
{
    if n > 0 {
        let idx = (n - 1) as usize;
        lemma_scrolled(grammar, lines, idx as nat);
        let c = scrolled(grammar, lines, idx as nat);
        let path = lines[idx as int].chain_path();
        assert(lines[lines.len() - 1].chain_path() == path);
        assert(lines[0].chain_path() == path);
        let (start, at) = anchor_of(grammar, c.entries, lines, idx as int);
        if idx > 0 {
            assert(lines[idx - 1].chain_path() == path);
            assert(c.entries[idx - 1]->0.exit is Some);
        }
        assert(start == idx);
        assert(at == run(grammar, lines, 0, idx as int));
        let f = c.filled(grammar, lines, idx as int, idx as int, at);
        reveal_with_fuel(CacheView::filled, 2);
        assert(f.entries.len() == lines.len());
        assert(run(grammar, lines, 0, n as int) == read_over(grammar, at, lines[idx as int]).1);
        let m = f.moved(idx);
        assert(m == scrolled(grammar, lines, n));
        assert forall|i: int| 0 <= i < n implies (#[trigger] m.entries[i]) is Some
            && m.entries[i]->0.segments == read_over(
            grammar,
            run(grammar, lines, 0, i),
            lines[i],
        ).0 by {
            if i < idx {
                assert(f.entries[i] == c.entries[i]);
            }
        }
    } else {
    }
}

proof fn lemma_streamed(from: StreamView, path: Seq<char>, lines: Seq<DiffLineView>, n: nat)
    requires
        n <= lines.len(),
        from.reading is None,
        forall|i: int|
            0 <= i < lines.len() ==> (#[trigger] lines[i]).chain_path() == path
                && lines[i].is_content(),
        lines.len() > 0,
    ensures
        streamed(from, path, lines, n).grammar == from.grammar,
        streamed(from, path, lines, n).position(path) == run(from.grammar, lines, 0, n as int),
    decreases n,
{
    if n > 0 {
        lemma_streamed(from, path, lines, (n - 1) as nat);
        assert(lines[n - 1].chain_path() == path);
    } else {
        assert(lines[0].chain_path() == path);
    }
}

/// The lines of a file, asked for from the top in order, are coloured exactly as the streaming
/// highlighter colours them that has read nothing before.
pub proof fn law_scrolling_matches_streaming(
    from: StreamView,
    path: Seq<char>,
    lines: Seq<DiffLineView>,
    n: nat,
    i: int,
)
    requires
        from.reading is None,
        n <= lines.len() <= usize::MAX,
        0 <= i < n,
        forall|k: int|
            0 <= k < lines.len() ==> (#[trigger] lines[k]).chain_path() == path
                && lines[k].is_content(),
    ensures
        scrolled(from.grammar, lines, n).entries[i] is Some,
        scrolled(from.grammar, lines, n).entries[i]->0.segments == streamed(
            from,
            path,
            lines,
            i as nat,
        ).shows(lines[i].content, Some(path)),
{
    assert(one_file(lines, 0, lines.len() - 1)) by {
        assert(lines[lines.len() - 1].chain_path() == path);
    }
    lemma_scrolled(from.grammar, lines, n);
    lemma_streamed(from, path, lines, i as nat);
    assert(lines[i].chain_path() == path);
}

} // verus!

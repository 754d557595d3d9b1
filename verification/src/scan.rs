//! Taking text apart: lines, pieces, words and numbers.
use vstd::prelude::*;
use vstd::string::*;

use crate::text::chars_of;
use crate::text::decimal;
use crate::text::is_space;
use crate::text::is_whitespace;
use crate::text::stands_at;
use crate::text::stands_in;
use crate::text::substring;

verus! {

/// Text without the space in front of it.
pub open spec fn trimmed_start(s: Seq<char>) -> Seq<char>
    decreases s.len(),
{
    if s.len() > 0 && is_space(s[0]) {
        trimmed_start(s.skip(1))
    } else {
        s
    }
}

/// Text without the space behind it.
pub open spec fn trimmed_end(s: Seq<char>) -> Seq<char>
    decreases s.len(),
{
    if s.len() > 0 && is_space(s.last()) {
        trimmed_end(s.drop_last())
    } else {
        s
    }
}

/// Text without the space around it.
pub open spec fn trimmed(s: Seq<char>) -> Seq<char> {
    trimmed_end(trimmed_start(s))
}

/// Text without the space around it.
pub fn trim(s: &str) -> (r: String)
    ensures
        r@ == trimmed(s@),
{
    let cs = chars_of(s);
    let ghost all = cs@;
    let mut from: usize = 0;
    assert(all.skip(0) =~= all);
    while from < cs.len() && is_whitespace(cs[from])
        invariant
            from <= cs@.len(),
            all == cs@,
            trimmed_start(all.skip(from as int)) == trimmed_start(all),
        decreases cs.len() - from,
    {
        assert(all.skip(from as int).skip(1) =~= all.skip(from + 1));
        from = from + 1;
    }
    let ghost rest = all.skip(from as int);
    assert(trimmed_start(all) == rest);
    let mut to: usize = cs.len();
    assert(all.subrange(from as int, to as int) =~= rest);
    while to > from && is_whitespace(cs[to - 1])
        invariant
            from <= to <= cs@.len(),
            all == cs@,
            trimmed_end(all.subrange(from as int, to as int)) == trimmed_end(rest),
        decreases to,
    {
        assert(all.subrange(from as int, to as int).drop_last() =~= all.subrange(
            from as int,
            to - 1,
        ));
        to = to - 1;
    }
    substring(cs.as_slice(), from, to)
}

/// The text between the places where a character stands.
pub open spec fn pieces(s: Seq<char>, c: char) -> Seq<Seq<char>>
    decreases s.len(),
{
    if s.len() == 0 {
        seq![Seq::empty()]
    } else {
        let before = pieces(s.drop_last(), c);
        if s.last() == c {
            before.push(Seq::empty())
        } else {
            before.drop_last().push(before.last().push(s.last()))
        }
    }
}

pub proof fn lemma_some_piece(s: Seq<char>, c: char)
    ensures
        pieces(s, c).len() > 0,
    decreases s.len(),
{
    if s.len() > 0 {
        lemma_some_piece(s.drop_last(), c);
    }
}

/// The text between the places where a character stands.
pub fn split(s: &str, c: char) -> (r: Vec<String>)
    ensures
        r.deep_view() == pieces(s@, c),
        r@.len() > 0,
{
    let cs = chars_of(s);
    let ghost all = cs@;
    let mut out: Vec<String> = Vec::new();
    let mut piece = String::new();
    let mut i: usize = 0;
    assert(all.take(0).len() == 0);
    assert(pieces(all.take(0), c) =~= out.deep_view().push(piece@));
    while i < cs.len()
        invariant
            i <= cs@.len(),
            all == cs@,
            pieces(all.take(i as int), c) =~= out.deep_view().push(piece@),
        decreases cs.len() - i,
    {
        assert(all.take(i + 1).drop_last() =~= all.take(i as int));
        let ghost before = pieces(all.take(i as int), c);
        assert(before.drop_last() =~= out.deep_view());
        assert(before.last() == piece@);
        if cs[i] == c {
            let ghost done = out.deep_view();
            let ghost text = piece@;
            out.push(piece);
            assert(out.deep_view() =~= done.push(text));
            piece = String::new();
            assert(piece@ =~= Seq::empty());
        } else {
            piece.push(cs[i]);
        }
        i = i + 1;
    }
    assert(all.take(all.len() as int) =~= all);
    let ghost done = out.deep_view();
    let ghost text = piece@;
    out.push(piece);
    assert(out.deep_view() =~= done.push(text));
    out
}

/// A line without the carriage return at its end.
pub open spec fn without_return(line: Seq<char>) -> Seq<char> {
    if line.len() > 0 && line.last() == '\r' {
        line.drop_last()
    } else {
        line
    }
}

/// The lines of a text. They end in a line feed, before which a carriage return may stand; the last
/// one need not.
pub open spec fn lines_of(s: Seq<char>) -> Seq<Seq<char>> {
    let parts = pieces(s, '\n');
    let ended = parts.drop_last().map_values(|line: Seq<char>| without_return(line));
    if parts.last().len() > 0 {
        ended.push(parts.last())
    } else {
        ended
    }
}

/// The lines of a text.
pub fn split_lines(s: &str) -> (r: Vec<String>)
    ensures
        r.deep_view() == lines_of(s@),
{
    let parts = split(s, '\n');
    let ghost all = parts.deep_view();
    let ghost ended = all.drop_last().map_values(|line: Seq<char>| without_return(line));
    let last: usize = parts.len() - 1;
    let mut out: Vec<String> = Vec::new();
    let mut i: usize = 0;
    while i < last
        invariant
            i <= last,
            last + 1 == parts@.len(),
            all == parts.deep_view(),
            ended == all.drop_last().map_values(|line: Seq<char>| without_return(line)),
            out.deep_view() =~= ended.take(i as int),
        decreases last - i,
    {
        assert(all[i as int] == parts@[i as int]@);
        let cs = chars_of(parts[i].as_str());
        let line = if cs.len() > 0 && cs[cs.len() - 1] == '\r' {
            let cut = substring(cs.as_slice(), 0, cs.len() - 1);
            assert(cut@ =~= all[i as int].drop_last());
            cut
        } else {
            parts[i].clone()
        };
        assert(line@ == ended[i as int]);
        let ghost before = out.deep_view();
        out.push(line);
        assert(out.deep_view() =~= before.push(line@));
        i = i + 1;
    }
    assert(ended.take(ended.len() as int) =~= ended);
    assert(all.last() == parts@[last as int]@);
    if parts[last].as_str().unicode_len() > 0 {
        let line = parts[last].clone();
        let ghost before = out.deep_view();
        out.push(line);
        assert(out.deep_view() =~= before.push(line@));
    }
    out
}

/// Text up to the first space.
pub open spec fn up_to_space(s: Seq<char>) -> Seq<char>
    decreases s.len(),
{
    if s.len() == 0 || is_space(s[0]) {
        Seq::empty()
    } else {
        seq![s[0]] + up_to_space(s.skip(1))
    }
}

/// The first word of a text: what stands between the space in front of it and the next space.
pub open spec fn first_word(s: Seq<char>) -> Seq<char> {
    up_to_space(trimmed_start(s))
}

/// The first word of a text.
pub fn word(s: &str) -> (r: String)
    ensures
        r@ == first_word(s@),
{
    let cs = chars_of(s);
    let ghost all = cs@;
    let mut from: usize = 0;
    assert(all.skip(0) =~= all);
    while from < cs.len() && is_whitespace(cs[from])
        invariant
            from <= cs@.len(),
            all == cs@,
            trimmed_start(all.skip(from as int)) == trimmed_start(all),
        decreases cs.len() - from,
    {
        assert(all.skip(from as int).skip(1) =~= all.skip(from + 1));
        from = from + 1;
    }
    let ghost rest = all.skip(from as int);
    let mut to: usize = from;
    assert(all.subrange(from as int, to as int) + up_to_space(all.skip(to as int))
        =~= up_to_space(rest));
    while to < cs.len() && !is_whitespace(cs[to])
        invariant
            from <= to <= cs@.len(),
            all == cs@,
            all.subrange(from as int, to as int) + up_to_space(all.skip(to as int))
                =~= up_to_space(rest),
        decreases cs.len() - to,
    {
        assert(all.skip(to as int).skip(1) =~= all.skip(to + 1));
        assert(all.subrange(from as int, to as int) + seq![all[to as int]] =~= all.subrange(
            from as int,
            to + 1,
        ));
        to = to + 1;
    }
    assert(up_to_space(all.skip(to as int)) =~= Seq::empty());
    let out = substring(cs.as_slice(), from, to);
    assert(out@ =~= up_to_space(rest));
    out
}

/// Whether a character is a decimal digit.
pub open spec fn is_digit(c: char) -> bool {
    '0' <= c && c <= '9'
}

/// The number that digits stand for.
pub open spec fn value_of(s: Seq<char>) -> nat
    decreases s.len(),
{
    if s.len() == 0 {
        0
    } else {
        value_of(s.drop_last()) * 10 + (s.last() as u32 - '0' as u32) as nat
    }
}

/// The digits of a number: all of the text, but for a sign in front of them.
pub open spec fn digits_of(s: Seq<char>) -> Seq<char> {
    if s.len() > 0 && s[0] == '+' {
        s.skip(1)
    } else {
        s
    }
}

/// The number of 32 bits that a text stands for, where it stands for one.
pub open spec fn parsed(s: Seq<char>) -> Option<nat> {
    let digits = digits_of(s);
    if digits.len() > 0 && (forall|i: int| 0 <= i < digits.len() ==> is_digit(#[trigger] digits[i]))
        && value_of(digits) <= u32::MAX {
        Some(value_of(digits))
    } else {
        None
    }
}

/// A number does not become smaller when more digits follow.
proof fn lemma_value_grows(s: Seq<char>, i: int)
    requires
        0 <= i <= s.len(),
    ensures
        value_of(s.take(i)) <= value_of(s),
    decreases s.len() - i,
{
    if i < s.len() {
        lemma_value_grows(s, i + 1);
        assert(s.take(i + 1).drop_last() =~= s.take(i));
    } else {
        assert(s.take(i) =~= s);
    }
}

/// The number of 32 bits that a text stands for, where it stands for one.
pub fn parse_number(s: &str) -> (r: Option<u32>)
    ensures
        r is Some <==> parsed(s@) is Some,
        r matches Some(n) ==> n as nat == parsed(s@)->0,
{
    let cs = chars_of(s);
    let from: usize = if cs.len() > 0 && cs[0] == '+' {
        1
    } else {
        0
    };
    let ghost digits = digits_of(s@);
    assert(digits =~= cs@.skip(from as int));
    if from == cs.len() {
        return None;
    }
    let mut n: u32 = 0;
    let mut i: usize = from;
    assert(digits.take(0).len() == 0);
    while i < cs.len()
        invariant
            from <= i <= cs@.len(),
            digits == cs@.skip(from as int),
            n as nat == value_of(digits.take(i - from)),
            forall|k: int| 0 <= k < i - from ==> is_digit(#[trigger] digits[k]),
            digits == digits_of(s@),
        decreases cs.len() - i,
    {
        let c = cs[i];
        let ghost at = i - from;
        assert(digits[at] == c);
        assert(digits.take(at + 1).drop_last() =~= digits.take(at));
        if !('0' <= c && c <= '9') {
            return None;
        }
        let d = c as u32 - '0' as u32;
        proof {
            lemma_value_grows(digits, at + 1);
        }
        if n > (u32::MAX - d) / 10 {
            return None;
        }
        n = n * 10 + d;
        i = i + 1;
    }
    assert(digits.take(digits.len() as int) =~= digits);
    Some(n)
}

/// Whether text begins with some other text.
pub open spec fn begins_with(s: Seq<char>, start: Seq<char>) -> bool {
    stands_at(s, start, 0)
}

/// Whether text begins with some other text.
pub fn starts_with(s: &str, start: &str) -> (r: bool)
    ensures
        r == begins_with(s@, start@),
{
    let cs = chars_of(s);
    let needle = chars_of(start);
    stands_in(cs.as_slice(), needle.as_slice(), 0)
}

/// The first place from `i` on where some text stands, or the end.
pub open spec fn place_of(s: Seq<char>, needle: Seq<char>, i: int) -> int
    decreases s.len() - i,
{
    if i < 0 || i >= s.len() || stands_at(s, needle, i) {
        i
    } else {
        place_of(s, needle, i + 1)
    }
}

/// The first place from `i` on where some text stands, or the end.
pub fn find_text(cs: &[char], needle: &[char], from: usize) -> (r: usize)
    requires
        from <= cs@.len(),
    ensures
        r == place_of(cs@, needle@, from as int),
        from <= r <= cs@.len(),
{
    let mut i: usize = from;
    while i < cs.len() && !stands_in(cs, needle, i)
        invariant
            from <= i <= cs@.len(),
            place_of(cs@, needle@, i as int) == place_of(cs@, needle@, from as int),
        decreases cs.len() - i,
    {
        i = i + 1;
    }
    i
}

/// Pieces with a character between them.
pub open spec fn put_together(parts: Seq<Seq<char>>, c: char) -> Seq<char>
    decreases parts.len(),
{
    if parts.len() == 0 {
        Seq::empty()
    } else if parts.len() == 1 {
        parts[0]
    } else {
        put_together(parts.drop_last(), c).push(c) + parts.last()
    }
}

/// The pieces of a text are all of it: none of them holds the character that they were parted at,
/// and with it between them they are the text again.
pub proof fn law_pieces_are_the_text(s: Seq<char>, c: char)
    ensures
        put_together(pieces(s, c), c) == s,
        forall|i: int|
            0 <= i < pieces(s, c).len() ==> !(#[trigger] pieces(s, c)[i]).contains(c),
    decreases s.len(),
{
    lemma_some_piece(s, c);
    if s.len() == 0 {
        assert(s =~= Seq::empty());
    } else {
        let front = s.drop_last();
        let before = pieces(front, c);
        let all = pieces(s, c);
        lemma_some_piece(front, c);
        law_pieces_are_the_text(front, c);
        assert(s =~= front.push(s.last()));
        if s.last() == c {
            assert(all.drop_last() =~= before);
            assert(put_together(all, c) =~= put_together(before, c).push(c));
        } else {
            assert(all.drop_last() =~= before.drop_last());
            assert(all.last() == before.last().push(s.last()));
            assert(put_together(all, c) =~= put_together(before, c).push(s.last()));
            assert forall|i: int| 0 <= i < all.len() implies !(#[trigger] all[i]).contains(c) by {
                if i < all.len() - 1 {
                    assert(all[i] == before[i]);
                } else {
                    assert(!before[before.len() - 1].contains(c));
                    assert forall|k: int| 0 <= k < all[i].len() implies all[i][k] != c by {
                        if k < before.last().len() {
                            assert(before.last().contains(before.last()[k]));
                        }
                    }
                }
            }
        }
    }
}

/// Text without a character has one piece.
pub proof fn lemma_one_piece(s: Seq<char>, c: char)
    requires
        !s.contains(c),
    ensures
        pieces(s, c) == seq![s],
    decreases s.len(),
{
    if s.len() == 0 {
        assert(s =~= Seq::empty());
    } else {
        let front = s.drop_last();
        assert forall|k: int| 0 <= k < front.len() implies front[k] != c by {
            assert(s.contains(s[k]));
        }
        lemma_one_piece(front, c);
        assert(s.contains(s[s.len() - 1]));
        assert(front.push(s.last()) =~= s);
        assert(pieces(s, c) =~= seq![s]);
    }
}

/// The pieces of two texts with the character between them are those of both.
pub proof fn lemma_pieces_of_both(a: Seq<char>, b: Seq<char>, c: char)
    ensures
        pieces(a.push(c) + b, c) == pieces(a, c) + pieces(b, c),
    decreases b.len(),
{
    lemma_some_piece(b, c);
    if b.len() == 0 {
        assert(a.push(c) + b =~= a.push(c));
        assert(a.push(c).drop_last() =~= a);
        assert(pieces(a.push(c), c) =~= pieces(a, c) + pieces(b, c));
    } else {
        let front = b.drop_last();
        lemma_some_piece(front, c);
        lemma_pieces_of_both(a, front, c);
        let whole = a.push(c) + b;
        assert(whole.drop_last() =~= a.push(c) + front);
        assert(pieces(whole, c) =~= pieces(a, c) + pieces(b, c));
    }
}

/// A line, with its end, in front of a text is one piece more.
pub proof fn lemma_first_piece(line: Seq<char>, rest: Seq<char>, c: char)
    requires
        !line.contains(c),
    ensures
        pieces(line.push(c) + rest, c) == seq![line] + pieces(rest, c),
{
    lemma_pieces_of_both(line, rest, c);
    lemma_one_piece(line, c);
}

/// What is left of a text without the space around it begins and ends with no space, and only space
/// was taken away.
pub proof fn law_only_space_is_trimmed(s: Seq<char>)
    ensures
        trimmed(s).len() > 0 ==> !is_space(trimmed(s)[0]) && !is_space(trimmed(s).last()),
        exists|a: int, b: int|
            0 <= a <= b <= s.len() && #[trigger] s.subrange(a, b) == trimmed(s) && (forall|i: int|
                0 <= i < s.len() && !(a <= i < b) ==> is_space(#[trigger] s[i])),
{
    let a = lemma_trimmed_start(s);
    let front = s.skip(a);
    let b = lemma_trimmed_end(front);
    assert(s.subrange(a, a + b) =~= front.take(b));
    assert forall|i: int| 0 <= i < s.len() && !(a <= i < a + b) implies is_space(
        #[trigger] s[i],
    ) by {
        if i >= a + b {
            assert(front[i - a] == s[i]);
        }
    }
    if trimmed(s).len() > 0 {
        assert(trimmed(s)[0] == front[0]);
    }
}

proof fn lemma_trimmed_start(s: Seq<char>) -> (a: int)
    ensures
        0 <= a <= s.len(),
        trimmed_start(s) == s.skip(a),
        forall|i: int| 0 <= i < a ==> is_space(#[trigger] s[i]),
        a < s.len() ==> !is_space(s[a]),
    decreases s.len(),
{
    if s.len() > 0 && is_space(s[0]) {
        let rest = s.skip(1);
        let a = lemma_trimmed_start(rest);
        assert(rest.skip(a) =~= s.skip(a + 1));
        assert forall|i: int| 0 <= i < a + 1 implies is_space(#[trigger] s[i]) by {
            if i > 0 {
                assert(rest[i - 1] == s[i]);
            }
        }
        a + 1
    } else {
        assert(s.skip(0) =~= s);
        0
    }
}

proof fn lemma_trimmed_end(s: Seq<char>) -> (b: int)
    ensures
        0 <= b <= s.len(),
        trimmed_end(s) == s.take(b),
        forall|i: int| b <= i < s.len() ==> is_space(#[trigger] s[i]),
        b > 0 ==> !is_space(s[b - 1]),
    decreases s.len(),
{
    if s.len() > 0 && is_space(s.last()) {
        let front = s.drop_last();
        let b = lemma_trimmed_end(front);
        assert(front.take(b) =~= s.take(b));
        assert forall|i: int| b <= i < s.len() implies is_space(#[trigger] s[i]) by {
            if i < front.len() {
                assert(front[i] == s[i]);
            }
        }
        b
    } else {
        assert(s.take(s.len() as int) =~= s);
        s.len() as int
    }
}

/// A number in decimal is read back as that number, and has no zero in front of other digits.
pub proof fn law_numbers_are_read_back(n: nat)
    ensures
        decimal(n).len() > 0,
        forall|i: int| 0 <= i < decimal(n).len() ==> is_digit(#[trigger] decimal(n)[i]),
        value_of(decimal(n)) == n,
        decimal(n).len() > 1 ==> decimal(n)[0] != '0',
        n <= u32::MAX ==> parsed(decimal(n)) == Some(n),
    decreases n,
{
    let text = decimal(n);
    if n < 10 {
        reveal_with_fuel(value_of, 2);
        assert(text.drop_last() =~= Seq::empty());
        assert(text[0] as u32 == 48 + n);
        assert(value_of(text) == n);
    } else {
        let front = decimal(n / 10);
        law_numbers_are_read_back(n / 10);
        assert(text.drop_last() =~= front);
        assert forall|i: int| 0 <= i < text.len() implies is_digit(#[trigger] text[i]) by {
            if i < front.len() {
                assert(front[i] == text[i]);
            }
        }
        assert(value_of(text) == value_of(front) * 10 + n % 10);
        assert(text[0] == front[0]);
        if n / 10 < 10 {
            assert(front[0] as u32 == 48 + n / 10);
        } else {
            law_numbers_are_read_back(n / 10 / 10);
            assert(front.len() > 1);
        }
    }
    assert(is_digit(text[0]));
    assert(digits_of(text) == text);
}

/// Lines, each with a line feed behind it.
pub open spec fn ended_lines(lines: Seq<Seq<char>>) -> Seq<char>
    decreases lines.len(),
{
    if lines.len() == 0 {
        Seq::empty()
    } else {
        ended_lines(lines.drop_last()) + lines.last().push('\n')
    }
}

/// Lines that are written one below the other are read back, all of them and in order, with or
/// without a line feed behind the last one, and with or without a carriage return before each.
pub proof fn law_lines_are_read_back(lines: Seq<Seq<char>>, last: Seq<char>)
    requires
        forall|i: int| 0 <= i < lines.len() ==> !(#[trigger] lines[i]).contains('\n'),
        !last.contains('\n'),
    ensures
        lines_of(ended_lines(lines)).len() == lines.len(),
        forall|i: int|
            0 <= i < lines.len() && (lines[i].len() == 0 || lines[i].last() != '\r') ==> (
            #[trigger] lines_of(ended_lines(lines))[i]) == lines[i],
        forall|i: int|
            0 <= i < lines.len() && lines[i].len() > 0 && lines[i].last() == '\r' ==> (
            #[trigger] lines_of(ended_lines(lines))[i]).push('\r') == lines[i],
        last.len() > 0 ==> lines_of(ended_lines(lines) + last) == lines_of(
            ended_lines(lines),
        ).push(last),
{
    let text = ended_lines(lines);
    lemma_ended_lines(lines);
    assert(pieces(text, '\n').drop_last() =~= lines);
    assert(pieces(text, '\n').last() =~= Seq::empty());
    assert forall|i: int|
        0 <= i < lines.len() && lines[i].len() > 0 && lines[i].last() == '\r' implies (
    #[trigger] lines_of(text)[i]).push('\r') == lines[i] by {
        assert(lines[i].drop_last().push('\r') =~= lines[i]);
    }
    if last.len() > 0 {
        lemma_one_piece(last, '\n');
        if lines.len() == 0 {
            assert(text + last =~= last);
            assert(pieces(last, '\n').drop_last() =~= lines);
        } else {
            let front = text.drop_last();
            assert(text =~= front.push('\n'));
            lemma_pieces_of_both(front, last, '\n');
            assert(pieces(text, '\n') =~= pieces(front, '\n').push(Seq::empty()));
            assert(pieces(front, '\n') =~= lines);
            assert(pieces(text + last, '\n').drop_last() =~= lines);
        }
        assert(lines_of(text + last) =~= lines_of(text).push(last));
    }
}

proof fn lemma_ended_lines(lines: Seq<Seq<char>>)
    requires
        forall|i: int| 0 <= i < lines.len() ==> !(#[trigger] lines[i]).contains('\n'),
    ensures
        pieces(ended_lines(lines), '\n') == lines.push(Seq::empty()),
        lines.len() > 0 ==> ended_lines(lines).len() > 0 && ended_lines(lines).last() == '\n',
    decreases lines.len(),
{
    if lines.len() == 0 {
        assert(pieces(ended_lines(lines), '\n') =~= lines.push(Seq::empty()));
    } else {
        let front = lines.drop_last();
        let text = ended_lines(front);
        let line = lines.last();
        let none = Seq::<char>::empty();
        assert(!lines[lines.len() - 1].contains('\n'));
        assert forall|i: int| 0 <= i < front.len() implies !(#[trigger] front[i]).contains(
            '\n',
        ) by {
            assert(front[i] == lines[i]);
        }
        lemma_ended_lines(front);
        lemma_first_piece(line, none, '\n');
        assert(line.push('\n') + none =~= line.push('\n'));
        assert(pieces(none, '\n') =~= seq![none]);
        if front.len() == 0 {
            assert(text + line.push('\n') =~= line.push('\n'));
            assert(seq![line] + pieces(none, '\n') =~= lines.push(none));
        } else {
            let start = text.drop_last();
            assert(text =~= start.push('\n'));
            lemma_pieces_of_both(start, line.push('\n'), '\n');
            assert(pieces(text, '\n') =~= pieces(start, '\n').push(none));
            assert(pieces(start, '\n').push(none).drop_last() =~= pieces(start, '\n'));
            assert(front.push(none).drop_last() =~= front);
            assert(front + (seq![line] + seq![none]) =~= lines.push(none));
        }
    }
}

/// The first word of a text is what stands in front of the first space, where the text begins with
/// none.
pub proof fn law_words_are_read_back(first: Seq<char>, rest: Seq<char>)
    requires
        first.len() > 0,
        forall|i: int| 0 <= i < first.len() ==> !is_space(#[trigger] first[i]),
        rest.len() > 0 ==> is_space(rest[0]),
    ensures
        first_word(first + rest) == first,
    decreases first.len(),
{
    let all = first + rest;
    assert(all[0] == first[0]);
    let tail = first.skip(1);
    assert(all.skip(1) =~= tail + rest);
    assert(seq![first[0]] + tail =~= first);
    if tail.len() > 0 {
        assert forall|i: int| 0 <= i < tail.len() implies !is_space(#[trigger] tail[i]) by {
            assert(tail[i] == first[i + 1]);
        }
        law_words_are_read_back(tail, rest);
        assert(!is_space((tail + rest)[0]));
    } else {
        assert(tail + rest =~= rest);
        assert(up_to_space(rest) =~= Seq::empty());
        assert(tail =~= Seq::empty());
    }
}

/// The first place of a text within another is the one in front of which it does not stand.
pub proof fn lemma_first_place(s: Seq<char>, needle: Seq<char>, i: int, at: int)
    requires
        0 <= i <= at <= s.len(),
        forall|k: int| i <= k < at ==> !#[trigger] stands_at(s, needle, k),
        at == s.len() || stands_at(s, needle, at),
    ensures
        place_of(s, needle, i) == at,
    decreases at - i,
{
    if i < at {
        assert(!stands_at(s, needle, i));
        lemma_first_place(s, needle, i + 1, at);
    }
}

} // verus!

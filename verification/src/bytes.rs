//! How many bytes text takes up in UTF-8.
use vstd::prelude::*;

verus! {

/// How many bytes a character takes up.
pub open spec fn char_bytes(c: char) -> nat {
    if (c as u32) < 0x80 {
        1
    } else if (c as u32) < 0x800 {
        2
    } else if (c as u32) < 0x1_0000 {
        3
    } else {
        4
    }
}

/// How many bytes text takes up.
pub open spec fn text_bytes(s: Seq<char>) -> nat
    decreases s.len(),
{
    if s.len() == 0 {
        0
    } else {
        text_bytes(s.drop_last()) + char_bytes(s.last())
    }
}

/// How many characters take up exactly so many bytes, from character `i` on. There is no such
/// number where the text would be cut within a character, or ends before.
pub open spec fn cut(s: Seq<char>, room: nat, i: int) -> Option<int>
    decreases s.len() - i,
{
    if room == 0 {
        Some(i)
    } else if i < 0 || i >= s.len() || char_bytes(s[i]) > room {
        None
    } else {
        cut(s, (room - char_bytes(s[i])) as nat, i + 1)
    }
}

/// How many bytes characters take up.
pub fn bytes_in(cs: &[char]) -> (r: u128)
    ensures
        r == text_bytes(cs@),
        r <= 4 * cs@.len(),
{
    let mut total: u128 = 0;
    let mut i: usize = 0;
    assert(cs@.take(0).len() == 0);
    while i < cs.len()
        invariant
            i <= cs@.len(),
            total == text_bytes(cs@.take(i as int)),
            total <= 4 * i,
        decreases cs.len() - i,
    {
        assert(cs@.take(i + 1).drop_last() =~= cs@.take(i as int));
        let n = cs[i] as u32;
        let size: u128 = if n < 0x80 {
            1
        } else if n < 0x800 {
            2
        } else if n < 0x1_0000 {
            3
        } else {
            4
        };
        total = total + size;
        i = i + 1;
    }
    assert(cs@.take(cs@.len() as int) =~= cs@);
    total
}

/// How many characters take up exactly so many bytes.
pub fn find_cut(cs: &[char], room: usize) -> (r: usize)
    requires
        cut(cs@, room as nat, 0) is Some,
    ensures
        cut(cs@, room as nat, 0) == Some(r as int),
{
    let mut left: usize = room;
    let mut i: usize = 0;
    while left > 0
        invariant
            i <= cs@.len(),
            cut(cs@, left as nat, i as int) == cut(cs@, room as nat, 0),
            cut(cs@, room as nat, 0) is Some,
        decreases left,
    {
        let n = cs[i] as u32;
        let size: usize = if n < 0x80 {
            1
        } else if n < 0x800 {
            2
        } else if n < 0x1_0000 {
            3
        } else {
            4
        };
        left = left - size;
        i = i + 1;
    }
    i
}

/// Text that is cut behind so many bytes takes them up.
pub proof fn lemma_cut(s: Seq<char>, room: nat, i: int)
    requires
        0 <= i <= s.len(),
        cut(s, room, i) is Some,
    ensures
        i <= cut(s, room, i)->0 <= s.len(),
        text_bytes(s.subrange(i, cut(s, room, i)->0)) == room,
    decreases s.len() - i,
{
    if room == 0 {
        assert(s.subrange(i, i).len() == 0);
    } else {
        let w = char_bytes(s[i]);
        let k = cut(s, room, i)->0;
        lemma_cut(s, (room - w) as nat, i + 1);
        lemma_bytes_concat(s.subrange(i, i + 1), s.subrange(i + 1, k));
        assert(s.subrange(i, i + 1) + s.subrange(i + 1, k) =~= s.subrange(i, k));
        assert(s.subrange(i, i + 1).drop_last().len() == 0);
        assert(s.subrange(i, i + 1).last() == s[i]);
        reveal_with_fuel(text_bytes, 2);
    }
}

/// Text takes up as many bytes as its parts.
pub proof fn lemma_bytes_concat(a: Seq<char>, b: Seq<char>)
    ensures
        text_bytes(a + b) == text_bytes(a) + text_bytes(b),
    decreases b.len(),
{
    if b.len() == 0 {
        assert(a + b =~= a);
    } else {
        lemma_bytes_concat(a, b.drop_last());
        assert((a + b).drop_last() =~= a + b.drop_last());
        assert((a + b).last() == b.last());
    }
}

} // verus!

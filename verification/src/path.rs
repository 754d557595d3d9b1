//! The parts of a path.
use vstd::prelude::*;

use crate::text::chars_of;
use crate::text::substring;

verus! {

/// Where the last component of a path begins: behind its last slash.
pub open spec fn component_start(path: Seq<char>) -> int
    decreases path.len(),
{
    if path.len() == 0 || path.last() == '/' {
        path.len() as int
    } else {
        component_start(path.drop_last())
    }
}

pub proof fn lemma_component_start(path: Seq<char>)
    ensures
        0 <= component_start(path) <= path.len(),
        path.len() > 0 && path.last() != '/' ==> component_start(path) < path.len(),
    decreases path.len(),
{
    if path.len() > 0 && path.last() != '/' {
        lemma_component_start(path.drop_last());
    }
}

/// The name of the file that a path leads to: its last component, slashes at its end and components
/// that stand for the directory itself being passed over. A path that ends in its parent directory
/// leads to no file.
pub open spec fn name_in(path: Seq<char>) -> Option<Seq<char>>
    decreases path.len(),
{
    if path.len() == 0 {
        None
    } else if path.last() == '/' {
        name_in(path.drop_last())
    } else {
        let start = component_start(path);
        let name = path.skip(start);
        if name =~= seq!['.'] {
            proof {
                lemma_component_start(path);
            }
            name_in(path.take(start))
        } else if name =~= seq!['.', '.'] {
            None
        } else {
            Some(name)
        }
    }
}

/// Where the last dot of a name stands, or -1.
pub open spec fn last_dot(name: Seq<char>) -> int
    decreases name.len(),
{
    if name.len() == 0 {
        -1
    } else if name.last() == '.' {
        name.len() - 1
    } else {
        last_dot(name.drop_last())
    }
}

/// The extension of a file: what stands behind the last dot of its name, unless the name begins
/// with that dot.
pub open spec fn extension_in(path: Seq<char>) -> Option<Seq<char>> {
    match name_in(path) {
        Some(name) => if last_dot(name) > 0 {
            Some(name.skip(last_dot(name) + 1))
        } else {
            None
        },
        None => None,
    }
}

/// The name of the file that a path leads to.
pub fn file_name(path: &str) -> (r: Option<String>)
    ensures
        r.deep_view() == name_in(path@),
{
    let cs = chars_of(path);
    let mut end: usize = cs.len();
    assert(path@.take(end as int) =~= path@);
    while end > 0
        invariant
            end <= cs@.len(),
            cs@ == path@,
            name_in(path@) == name_in(path@.take(end as int)),
        decreases end,
    {
        let ghost here = path@.take(end as int);
        if cs[end - 1] == '/' {
            end = end - 1;
            assert(here.drop_last() =~= path@.take(end as int));
        } else {
            let mut start: usize = end;
            while start > 0 && cs[start - 1] != '/'
                invariant
                    start <= end <= cs@.len(),
                    cs@ == path@,
                    component_start(path@.take(end as int)) == component_start(
                        path@.take(start as int),
                    ),
                decreases start,
            {
                assert(path@.take(start as int).drop_last() =~= path@.take(start - 1));
                start = start - 1;
            }
            proof {
                lemma_component_start(here);
                assert(here.skip(start as int) =~= path@.subrange(start as int, end as int));
            }
            if end - start == 1 && cs[start] == '.' {
                assert(here.skip(start as int) =~= seq!['.']);
                assert(here.take(start as int) =~= path@.take(start as int));
                end = start;
            } else if end - start == 2 && cs[start] == '.' && cs[start + 1] == '.' {
                assert(here.skip(start as int) =~= seq!['.', '.']);
                return None;
            } else {
                proof {
                    let name = here.skip(start as int);
                    if name =~= seq!['.'] {
                        assert(name[0] == '.' && name.len() == 1);
                    }
                    if name =~= seq!['.', '.'] {
                        assert(name[0] == '.' && name[1] == '.' && name.len() == 2);
                    }
                }
                return Some(substring(cs.as_slice(), start, end));
            }
        }
    }
    None
}

/// The extension of a file.
pub fn extension(path: &str) -> (r: Option<String>)
    ensures
        r.deep_view() == extension_in(path@),
{
    match file_name(path) {
        None => None,
        Some(name) => {
            let cs = chars_of(name.as_str());
            let mut i: usize = cs.len();
            assert(name@.take(i as int) =~= name@);
            while i > 0 && cs[i - 1] != '.'
                invariant
                    i <= cs@.len(),
                    cs@ == name@,
                    last_dot(name@) == last_dot(name@.take(i as int)),
                decreases i,
            {
                assert(name@.take(i as int).drop_last() =~= name@.take(i - 1));
                i = i - 1;
            }
            if i > 1 {
                let ext = substring(cs.as_slice(), i, cs.len());
                assert(ext@ =~= name@.skip(i as int));
                Some(ext)
            } else {
                None
            }
        },
    }
}

proof fn lemma_start_behind(dir: Seq<char>, name: Seq<char>)
    requires
        !name.contains('/'),
        dir.len() > 0 ==> dir.last() == '/',
    ensures
        component_start(dir + name) == dir.len(),
    decreases name.len(),
{
    if name.len() == 0 {
        assert(dir + name =~= dir);
    } else {
        let front = name.drop_last();
        assert(name.contains(name[name.len() - 1]));
        assert forall|i: int| 0 <= i < front.len() implies front[i] != '/' by {
            assert(name.contains(name[i]));
        }
        assert((dir + name).drop_last() =~= dir + front);
        lemma_start_behind(dir, front);
    }
}

/// A path leads to the file whose name stands at its end, whatever directory is in front of it.
/// Slashes behind the name, and the directory itself, change nothing.
pub proof fn law_names_stand_at_the_end(dir: Seq<char>, name: Seq<char>)
    requires
        name.len() > 0,
        !name.contains('/'),
        name != seq!['.'],
        name != seq!['.', '.'],
        dir.len() > 0 ==> dir.last() == '/',
    ensures
        name_in(dir + name) == Some(name),
        name_in((dir + name).push('/')) == Some(name),
        name_in((dir + name).push('/').push('.')) == Some(name),
        name_in(dir + name + seq!['/', '.', '.']) is None,
{
    let path = dir + name;
    lemma_start_behind(dir, name);
    assert(name.contains(name[name.len() - 1]));
    assert(path.skip(dir.len() as int) =~= name);
    let slashed = path.push('/');
    assert(slashed.drop_last() =~= path);
    let dotted = slashed.push('.');
    let one = seq!['.'];
    assert(slashed + one =~= dotted);
    lemma_start_behind(slashed, one);
    assert(dotted.skip(slashed.len() as int) =~= one);
    assert(dotted.take(slashed.len() as int) =~= slashed);
    let two = seq!['.', '.'];
    let up = dir + name + seq!['/', '.', '.'];
    assert(slashed + two =~= up);
    lemma_start_behind(slashed, two);
    assert(up.skip(slashed.len() as int) =~= two);
    assert(two.len() == 2 && one.len() == 1);
}

/// The extension of a file is what stands behind the last dot of its name, where something stands in
/// front of that dot; a name without another dot has none.
pub proof fn law_extensions_stand_behind_the_last_dot(
    dir: Seq<char>,
    stem: Seq<char>,
    extension: Seq<char>,
)
    requires
        !stem.contains('/'),
        !extension.contains('/'),
        !extension.contains('.'),
        stem.len() > 0,
        stem != seq!['.'] || extension.len() > 0,
        dir.len() > 0 ==> dir.last() == '/',
    ensures
        extension_in(dir + (stem.push('.') + extension)) == Some(extension),
        extension.len() > 0 ==> extension_in(dir + extension) is None && extension_in(
            dir + (seq!['.'] + extension),
        ) is None,
{
    let name = stem.push('.') + extension;
    assert forall|i: int| 0 <= i < name.len() implies name[i] != '/' by {
        if i < stem.len() {
            assert(stem.contains(stem[i]));
        } else if i > stem.len() {
            assert(extension.contains(extension[i - stem.len() - 1]));
        }
    }
    if name.len() == 2 {
        assert(name[0] == stem[0]);
        if name[0] == '.' {
            assert(stem =~= seq!['.']);
        }
    }
    assert(name.len() >= 2);
    assert(name != seq!['.', '.']) by {
        if name == seq!['.', '.'] {
            assert(name[0] == '.' && name.len() == 2);
        }
    }
    law_names_stand_at_the_end(dir, name);
    lemma_last_dot(stem.push('.'), extension);
    assert(last_dot(stem.push('.')) == stem.len());
    assert(name.skip(stem.len() as int + 1) =~= extension);
    if extension.len() > 0 {
        assert(extension.contains(extension[0]));
        law_names_stand_at_the_end(dir, extension);
        lemma_last_dot(Seq::empty(), extension);
        assert(Seq::<char>::empty() + extension =~= extension);
        let hidden = seq!['.'] + extension;
        assert(hidden[1] == extension[0]);
        assert forall|i: int| 0 <= i < hidden.len() implies hidden[i] != '/' by {
            if i > 0 {
                assert(extension.contains(extension[i - 1]));
            }
        }
        assert(hidden != seq!['.', '.']) by {
            if hidden == seq!['.', '.'] {
                assert(hidden[1] == '.');
            }
        }
        law_names_stand_at_the_end(dir, hidden);
        lemma_last_dot(seq!['.'], extension);
    }
}

proof fn lemma_last_dot(front: Seq<char>, rest: Seq<char>)
    requires
        !rest.contains('.'),
    ensures
        last_dot(front + rest) == last_dot(front),
    decreases rest.len(),
{
    if rest.len() == 0 {
        assert(front + rest =~= front);
    } else {
        let before = rest.drop_last();
        assert(rest.contains(rest[rest.len() - 1]));
        assert forall|i: int| 0 <= i < before.len() implies before[i] != '.' by {
            assert(rest.contains(rest[i]));
        }
        assert((front + rest).drop_last() =~= front + before);
        lemma_last_dot(front, before);
    }
}

} // verus!

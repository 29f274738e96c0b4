//! Paths as texts, with `/` between their components.

use vstd::prelude::*;
use vstd::string::*;

use crate::text;

verus! {

/// `part` below `base`. An absolute part stands for itself.
pub open spec fn below(base: Seq<char>, part: Seq<char>) -> Seq<char> {
    if base.len() == 0 || (part.len() > 0 && part[0] == '/') {
        part
    } else if base.last() == '/' {
        base + part
    } else {
        base + "/"@ + part
    }
}

pub fn join(base: &str, part: &str) -> (path: String)
    ensures
        path@ == below(base@, part@),
{
    let chars = text::chars_of(base);
    let parts = text::chars_of(part);
    if chars.len() == 0 || (parts.len() > 0 && parts[0] == '/') {
        part.to_owned()
    } else if chars[chars.len() - 1] == '/' {
        text::concat2(base, part)
    } else {
        text::concat3(base, "/", part)
    }
}

/// The last component among the pieces of a path: the last piece that is
/// neither empty nor `.`.
pub open spec fn last_component(pieces: Seq<Seq<char>>) -> Option<Seq<char>>
    decreases pieces.len(),
{
    if pieces.len() == 0 {
        None
    } else if pieces.last().len() == 0 || pieces.last() == "."@ {
        last_component(pieces.drop_last())
    } else {
        Some(pieces.last())
    }
}

/// The name that a path ends in, unless it ends in `..`.
pub open spec fn name_of(path: Seq<char>) -> Option<Seq<char>> {
    match last_component(text::pieces(path, '/')) {
        Some(name) => if name == ".."@ {
            None
        } else {
            Some(name)
        },
        None => None,
    }
}

/// Where the last dot of a name stands; the length of the name if it has none.
pub open spec fn last_dot(name: Seq<char>) -> int
    decreases name.len(),
{
    if name.len() == 0 {
        0
    } else if name.last() == '.' {
        name.len() - 1
    } else {
        let before = last_dot(name.drop_last());
        if before == name.len() - 1 {
            name.len() as int
        } else {
            before
        }
    }
}

/// The name of a path without its extension.
pub open spec fn stem_of(path: Seq<char>) -> Option<Seq<char>> {
    match name_of(path) {
        Some(name) => {
            let dot = last_dot(name);
            if dot == 0 || dot == name.len() {
                Some(name)
            } else {
                Some(name.take(dot))
            }
        },
        None => None,
    }
}

/// What follows the last dot of a name, unless the name begins with it.
pub open spec fn extension_of(path: Seq<char>) -> Option<Seq<char>> {
    match name_of(path) {
        Some(name) => {
            let dot = last_dot(name);
            if dot == 0 || dot == name.len() {
                None
            } else {
                Some(name.skip(dot + 1))
            }
        },
        None => None,
    }
}

pub fn file_name(path: &str) -> (name: Option<&str>)
    ensures
        name.deep_view() == name_of(path@),
{
    let parts = text::split(path, '/');
    let ghost all = parts.deep_view();
    let mut i: usize = parts.len();
    assert(all.take(i as int) =~= all);
    while i > 0
        invariant
            i <= parts.len(),
            all == parts.deep_view(),
            all == text::pieces(path@, '/'),
            last_component(all) == last_component(all.take(i as int)),
        decreases i,
    {
        let part = parts[i - 1];
        assert(all.take(i as int).last() == part@);
        assert(all.take(i as int).drop_last() =~= all.take(i - 1));
        if !part.is_empty() && !text::same(part, ".") {
            if text::same(part, "..") {
                return None;
            }
            return Some(part);
        }
        i = i - 1;
    }
    None
}

fn find_last_dot(chars: &Vec<char>) -> (dot: usize)
    ensures
        dot == last_dot(chars@),
        dot <= chars.len(),
{
    let mut dot: usize = 0;
    let mut i: usize = 0;
    let mut found = false;
    assert(chars@.take(0) =~= seq![]);
    while i < chars.len()
        invariant
            i <= chars.len(),
            found ==> dot < i && dot == last_dot(chars@.take(i as int)),
            !found ==> last_dot(chars@.take(i as int)) == i,
        decreases chars.len() - i,
    {
        assert(chars@.take(i + 1).drop_last() =~= chars@.take(i as int));
        if chars[i] == '.' {
            dot = i;
            found = true;
        }
        i = i + 1;
    }
    assert(chars@.take(i as int) =~= chars@);
    if found {
        dot
    } else {
        chars.len()
    }
}

pub fn file_stem(path: &str) -> (stem: Option<&str>)
    ensures
        stem.deep_view() == stem_of(path@),
{
    match file_name(path) {
        Some(name) => {
            let chars = text::chars_of(name);
            let dot = find_last_dot(&chars);
            if dot == 0 || dot == chars.len() {
                Some(name)
            } else {
                assert(name@.take(dot as int) =~= name@.subrange(0, dot as int));
                Some(name.substring_char(0, dot))
            }
        },
        None => None,
    }
}

pub fn extension(path: &str) -> (extension: Option<&str>)
    ensures
        extension.deep_view() == extension_of(path@),
{
    match file_name(path) {
        Some(name) => {
            let chars = text::chars_of(name);
            let dot = find_last_dot(&chars);
            if dot == 0 || dot == chars.len() {
                None
            } else {
                assert(name@.skip(dot + 1) =~= name@.subrange(dot + 1, name@.len() as int));
                Some(name.substring_char(dot + 1, chars.len()))
            }
        },
        None => None,
    }
}

} // verus!

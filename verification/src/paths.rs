//! File names and parents of paths.

use crate::text;
use crate::text::CharClass;
use std::path::Path;
use vstd::prelude::*;

verus! {

/// A path that reads the same on every platform: no backslash, no leading double slash, and no
/// colon, which may stand for a drive, unless the path starts at the root.
pub open spec fn is_portable(path: Seq<char>) -> bool {
    &&& forall|i: int| 0 <= i < path.len() ==> #[trigger] path[i] != '\\'
    &&& is_rooted(path) || forall|i: int| 0 <= i < path.len() ==> #[trigger] path[i] != ':'
    &&& !(path.len() >= 2 && path[0] == '/' && path[1] == '/')
}

/// A path that starts at the root.
pub open spec fn is_rooted(path: Seq<char>) -> bool {
    path.len() > 0 && path[0] == '/'
}

/// The parts of a path that stand for something: neither empty nor a single dot.
pub open spec fn components(parts: Seq<Seq<char>>) -> Seq<Seq<char>>
    decreases parts.len(),
{
    if parts.len() == 0 {
        Seq::empty()
    } else if parts.last().len() == 0 || parts.last() == seq!['.'] {
        components(parts.drop_last())
    } else {
        components(parts.drop_last()).push(parts.last())
    }
}

/// The last component of a path, unless there is none or it leads upwards.
pub open spec fn last_component(path: Seq<char>) -> Option<Seq<char>> {
    let parts = components(text::split(path, CharClass::Only('/')));
    if parts.len() == 0 || parts.last() == seq!['.', '.'] {
        None
    } else {
        Some(parts.last())
    }
}

/// A single component that is a name.
pub open spec fn is_plain_name(s: Seq<char>) -> bool {
    &&& s.len() > 0
    &&& s != seq!['.']
    &&& s != seq!['.', '.']
    &&& !s.contains('/')
}

/// The views of an optional string.
pub open spec fn text_of(s: Option<String>) -> Option<Seq<char>> {
    match s {
        Some(t) => Some(t@),
        None => None,
    }
}

/// `std::path::Path::file_name`: the final component of a path, none where the path ends in
/// `..` or in the root. Repeated and trailing separators and single dots do not count. What
/// separates components depends on the platform, so it is stated for portable paths only.
#[verifier::external_body]
pub(crate) fn file_name(path: &str) -> (r: Option<String>)
    ensures
        is_portable(path@) ==> text_of(r) == last_component(path@),
{
    Path::new(path).file_name().and_then(|name| name.to_str()).map(|name| name.to_string())
}

/// A path from the root without the slashes and single dots at its end; nothing is left of the
/// root itself.
pub open spec fn bare(path: Seq<char>) -> Seq<char>
    decreases path.len(),
{
    if path.len() == 0 {
        path
    } else if path.last() == '/' {
        bare(path.drop_last())
    } else if path.last() == '.' && path.len() >= 2 && path[path.len() - 2] == '/' {
        bare(path.take(path.len() - 2))
    } else {
        path
    }
}

/// What stands before the last slash of a path.
pub open spec fn before_last_slash(path: Seq<char>) -> Seq<char>
    decreases path.len(),
{
    if path.len() == 0 {
        path
    } else if path.last() == '/' {
        path.drop_last()
    } else {
        before_last_slash(path.drop_last())
    }
}

/// A path from the root without its final component; none for the root.
pub open spec fn parent_of(path: Seq<char>) -> Option<Seq<char>> {
    if bare(path).len() == 0 {
        None
    } else {
        let dir = bare(before_last_slash(bare(path)));
        if dir.len() == 0 {
            Some(seq!['/'])
        } else {
            Some(dir)
        }
    }
}

/// `std::path::Path::parent`: the path without its final component, none for the root. Repeated
/// and trailing separators and single dots are no components. What separates components depends
/// on the platform, so it is stated for portable paths only, and for those from the root.
#[verifier::external_body]
pub(crate) fn parent(path: &str) -> (r: Option<String>)
    ensures
        is_portable(path@) && is_rooted(path@) ==> text_of(r) == parent_of(path@),
{
    Path::new(path).parent().and_then(|dir| dir.to_str()).map(|dir| dir.to_string())
}

proof fn lemma_before_name(dir: Seq<char>, name: Seq<char>)
    requires
        !name.contains('/'),
    ensures
        before_last_slash(dir.push('/') + name) == dir,
    decreases name.len(),
{
    let path = dir.push('/') + name;
    if name.len() == 0 {
        assert(path =~= dir.push('/'));
        assert(path.drop_last() =~= dir);
    } else {
        let shorter = name.drop_last();
        assert(name.contains(name[name.len() - 1]));
        assert(!shorter.contains('/')) by {
            if shorter.contains('/') {
                let i = choose|i: int| 0 <= i < shorter.len() && shorter[i] == '/';
                assert(name[i] == '/');
            }
        }
        lemma_before_name(dir, shorter);
        assert(path.drop_last() =~= dir.push('/') + shorter);
    }
}

/// The parent of a name in a directory is that directory.
pub proof fn law_parent_of_a_name(dir: Seq<char>, name: Seq<char>)
    requires
        is_plain_name(name),
        bare(dir) == dir,
    ensures
        parent_of(dir + seq!['/'] + name) == Some(
            if dir.len() == 0 {
                seq!['/']
            } else {
                dir
            },
        ),
{
    let path = dir + seq!['/'] + name;
    assert(path =~= dir.push('/') + name);
    assert(name.contains(name[name.len() - 1]));
    if name.len() >= 2 {
        assert(name.contains(name[name.len() - 2]));
        assert(path[path.len() - 2] == name[name.len() - 2]);
    } else {
        assert(name =~= seq![name[0]]);
    }
    assert(path.last() == name.last());
    assert(bare(path) == path);
    lemma_before_name(dir, name);
}

} // verus!

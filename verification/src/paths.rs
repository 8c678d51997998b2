//! Paths as text, with `/` between their components.

use vstd::prelude::*;

use crate::text::{copy_text, opt_text, slice_text, to_chars};

verus! {

/// Whether a path starts at the root.
pub open spec fn is_absolute(path: Seq<char>) -> bool {
    path.len() > 0 && path[0] == '/'
}

/// `path` taken relative to `base`: an absolute path stays as it is, any other is put
/// behind `base`, with a `/` between the two unless `base` is empty or ends with one.
pub open spec fn join_path(base: Seq<char>, path: Seq<char>) -> Seq<char> {
    if is_absolute(path) {
        path
    } else if base.len() == 0 || base.last() == '/' {
        base + path
    } else {
        base.push('/') + path
    }
}

/// Whether a path starts at the root.
pub fn path_is_absolute(path: &str) -> (r: bool)
    ensures
        r == is_absolute(path@),
{
    let chars = to_chars(path);
    chars.len() > 0 && chars[0] == '/'
}

/// A path taken relative to a base.
pub fn joined_path(base: &str, path: &str) -> (joined: String)
    ensures
        joined@ == join_path(base@, path@),
{
    if path_is_absolute(path) {
        return copy_text(path);
    }
    let chars = to_chars(base);
    let mut out = copy_text(base);
    if chars.len() > 0 && chars[chars.len() - 1] != '/' {
        out.push('/');
    }
    out.append(path);
    out
}

/// Whether `at` is the position of the last dot of a name.
pub open spec fn last_dot_at(name: Seq<char>, at: int) -> bool {
    &&& 0 <= at < name.len()
    &&& name[at] == '.'
    &&& forall|j: int| at < j < name.len() ==> name[j] != '.'
}

/// The extension of a file name: what follows its last dot, unless that dot is the
/// first character. The name `..` has none.
pub open spec fn extension(name: Seq<char>) -> Option<Seq<char>> {
    if name != seq!['.', '.'] && exists|at: int| at > 0 && last_dot_at(name, at) {
        let at = choose|at: int| at > 0 && last_dot_at(name, at);
        Some(name.skip(at + 1))
    } else {
        None
    }
}

proof fn lemma_last_dot(name: Seq<char>, at: int)
    requires
        at > 0,
        last_dot_at(name, at),
        name != seq!['.', '.'],
    ensures
        extension(name) == Some(name.skip(at + 1)),
{
    let other = choose|j: int| j > 0 && last_dot_at(name, j);
    assert(other == at);
}

/// The extension of a file name.
pub fn name_extension(name: &str) -> (ext: Option<String>)
    ensures
        match ext {
            Some(e) => extension(name@) == Some(e@),
            None => extension(name@) is None,
        },
{
    let chars = to_chars(name);
    if chars.len() == 2 && chars[0] == '.' && chars[1] == '.' {
        assert(name@ =~= seq!['.', '.']);
        return None;
    }
    let mut at: usize = chars.len();
    while at > 1
        invariant
            chars@ == name@,
            at <= chars@.len(),
            name@ != seq!['.', '.'],
            forall|j: int| at <= j < chars@.len() ==> chars@[j] != '.',
        decreases at,
    {
        at = at - 1;
        if chars[at] == '.' {
            proof {
                lemma_last_dot(name@, at as int);
                assert(name@.skip(at + 1) =~= chars@.subrange(at + 1, chars@.len() as int));
            }
            return Some(slice_text(&chars, at + 1, chars.len()));
        }
    }
    None
}

/// The path under which the chunks of a file are stored: its canonical path; without one
/// the path itself, taken relative to the working directory where there is one.
pub open spec fn stored_path(
    canonical: Option<Seq<char>>,
    path: Seq<char>,
    working_dir: Option<Seq<char>>,
) -> Seq<char> {
    match canonical {
        Some(text) => text,
        None => if is_absolute(path) {
            path
        } else {
            match working_dir {
                Some(dir) => join_path(dir, path),
                None => path,
            }
        },
    }
}

/// The path under which the chunks of a file are stored.
pub fn absolute_path_string(
    canonical: Option<String>,
    path: &str,
    working_dir: Option<String>,
) -> (absolute: String)
    ensures
        absolute@ == stored_path(opt_text(canonical), path@, opt_text(working_dir)),
{
    if let Some(text) = canonical {
        return text;
    }
    if path_is_absolute(path) {
        return copy_text(path);
    }
    match working_dir {
        Some(dir) => joined_path(dir.as_str(), path),
        None => copy_text(path),
    }
}

// ---------------------------------------------------------------------------
// What holds of paths
// ---------------------------------------------------------------------------

/// A relative path is put behind the base with one `/` between them, whether or not the base
/// ends with it; an absolute path, and any path without a base, stays as it is.
pub proof fn law_joined_paths(base: Seq<char>, path: Seq<char>)
    ensures
        path.len() > 0 && path[0] == '/' ==> join_path(base, path) == path,
        !(path.len() > 0 && path[0] == '/') ==> join_path(base.push('/'), path) == base + seq!['/']
            + path,
        base.len() > 0 && base.last() != '/' ==> join_path(base, path) == join_path(
            base.push('/'),
            path,
        ),
        join_path(Seq::empty(), path) == path,
{
    assert(Seq::<char>::empty() + path =~= path);
    assert(base.push('/') + path =~= base + seq!['/'] + path);
}

/// A stem, a dot and what follows it is a name with that extension.
pub proof fn law_extension_follows_the_last_dot(stem: Seq<char>, ext: Seq<char>)
    requires
        stem.len() > 0,
        !ext.contains('.'),
        !(stem == seq!['.'] && ext.len() == 0),
    ensures
        extension(stem + seq!['.'] + ext) == Some(ext),
{
    let name = stem + seq!['.'] + ext;
    let at = stem.len() as int;
    assert forall|j: int| at < j < name.len() implies name[j] != '.' by {
        assert(name[j] == ext[j - at - 1]);
        assert(ext.contains(ext[j - at - 1]));
    }
    assert(last_dot_at(name, at));
    assert(name.skip(at + 1) =~= ext);
    if name == seq!['.', '.'] {
        assert(name.len() == 2);
        assert(stem.len() == 1 && ext.len() == 0);
        assert(stem[0] == name[0]);
        assert(stem =~= seq!['.']);
    }
    lemma_last_dot(name, at);
}

/// A name without a dot behind its first character has no extension, nor has `..`.
pub proof fn law_other_names_have_no_extension(name: Seq<char>)
    requires
        (forall|i: int| 1 <= i < name.len() ==> #[trigger] name[i] != '.') || name == seq!['.', '.'],
    ensures
        extension(name) is None,
{
    if exists|at: int| at > 0 && last_dot_at(name, at) {
        let at = choose|at: int| at > 0 && last_dot_at(name, at);
        assert(name[at] == '.');
    }
}

/// Chunks are stored under the canonical path of their file; under its path in the working
/// directory where there is no canonical one; and under the path itself where there is no
/// working directory either.
pub proof fn law_stored_paths(canonical: Seq<char>, path: Seq<char>, dir: Seq<char>)
    ensures
        stored_path(Some(canonical), path, Some(dir)) == canonical,
        stored_path(Some(canonical), path, None) == canonical,
        stored_path(None, path, Some(dir)) == join_path(dir, path),
        stored_path(None, path, None) == path,
{
}

} // verus!

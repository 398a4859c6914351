//! The data directory: the one place the files Quill ships are found.
//!
//! The Faces, the Style check lists, the Selection Mark's glyphs and the
//! Settings window's icons all resolve through it, so an installed package
//! and a development build differ in one path rather than in every lookup.
//! There are three ways of learning where it is: the environment's variable
//! wins, then the path the package build compiled in, then the checkout the
//! binary was built from. Reading the environment is the app's; the rule
//! between the three, and the directories under the one it picks, are here.

use vstd::prelude::*;
use crate::text::{push_char, push_text};

verus! {

/// The data directory the three candidates give: the environment's value
/// where it is set and not empty, else the compiled-in path where the build
/// wrote one, else the checkout.
pub open spec fn resolved(environment: Option<Seq<char>>, compiled_in: Option<Seq<char>>, checkout: Seq<char>) -> Seq<char> {
    match environment {
        Some(value) if value.len() > 0 => value,
        _ => match compiled_in {
            Some(path) => path,
            None => checkout,
        },
    }
}

/// The view of an optional string.
pub open spec fn text_of(value: Option<String>) -> Option<Seq<char>> {
    match value {
        Some(s) => Some(s@),
        None => None,
    }
}

/// The view of an optional string.
pub open spec fn str_of(value: Option<&str>) -> Option<Seq<char>> {
    match value {
        Some(s) => Some(s@),
        None => None,
    }
}

/// The precedence itself, with its three inputs handed in: an empty
/// variable is a variable nobody meant to set, and counts as none.
pub fn resolve(environment: Option<String>, compiled_in: Option<&str>, checkout: &str) -> (dir: String)
    ensures
        dir@ == resolved(text_of(environment), str_of(compiled_in), checkout@),
{
    match environment {
        Some(value) if value.as_str().unicode_len() > 0 => value,
        _ => match compiled_in {
            Some(path) => String::from_str(path),
            None => String::from_str(checkout),
        },
    }
}

/// `dir` with the relative `name` below it, as `Path::join` writes it: a
/// separator between the two unless `dir` is empty or already ends in one.
pub open spec fn joined(dir: Seq<char>, name: Seq<char>) -> Seq<char> {
    if dir.len() == 0 || dir.last() == '/' {
        dir + name
    } else {
        dir + seq!['/'] + name
    }
}

/// `dir` with the relative `name` below it.
pub fn join(dir: &str, name: &str) -> (path: String)
    ensures
        path@ == joined(dir@, name@),
{
    let mut path = String::from_str(dir);
    let n = dir.unicode_len();
    if n > 0 && dir.get_char(n - 1) != '/' {
        push_char(&mut path, '/');
    }
    push_text(&mut path, name);
    proof {
        if n > 0 {
            assert(dir@.last() == dir@[n - 1]);
        }
    }
    path
}

/// The directory under `dir` holding the Faces, the bundled families and
/// their licences.
pub fn fonts(dir: &str) -> (path: String)
    ensures
        path@ == joined(dir@, "fonts"@),
{
    join(dir, "fonts")
}

/// The directory under `dir` holding the three Style check lists.
pub fn style(dir: &str) -> (path: String)
    ensures
        path@ == joined(joined(dir@, "data"@), "style"@),
{
    let data = join(dir, "data");
    join(data.as_str(), "style")
}

/// The directory under `dir` holding the Selection Mark's glyph files.
pub fn marks(dir: &str) -> (path: String)
    ensures
        path@ == joined(joined(dir@, "data"@), "marks"@),
{
    let data = join(dir, "data");
    join(data.as_str(), "marks")
}

/// The directory under `dir` holding the icons the Settings window draws.
pub fn icons(dir: &str) -> (path: String)
    ensures
        path@ == joined(joined(dir@, "data"@), "icons"@),
{
    let data = join(dir, "data");
    join(data.as_str(), "icons")
}

} // verus!

//! Path and case operations of std that the planning logic calls. Each
//! result is named by a spec function of the arguments: the library relies
//! on each operation giving the same result for the same text (under the
//! path rules of the platform the program is built for), and on what their
//! documentation states of file stems, extensions and joined names. How std
//! splits a path into components, and which characters `to_lowercase`
//! maps, is left unsaid.

use vstd::prelude::*;

verus! {

/// What `Path::file_name` gives for `path`, as text: its final component.
pub uninterp spec fn file_name_of(path: Seq<char>) -> Option<Seq<char>>;

/// The position of the last `.` in `f`, if any.
pub open spec fn last_dot(f: Seq<char>) -> Option<int>
    decreases f.len(),
{
    if f.len() == 0 {
        None
    } else if f.last() == '.' {
        Some(f.len() - 1)
    } else {
        last_dot(f.drop_last())
    }
}

/// The stem of a file name, as `Path::file_stem` documents it: the whole
/// name where it has no `.` or only a leading one, else the part before
/// the last `.`.
pub open spec fn stem_part(f: Seq<char>) -> Seq<char> {
    match last_dot(f) {
        Some(d) => if d == 0 {
            f
        } else {
            f.take(d)
        },
        None => f,
    }
}

/// The extension of a file name, as `Path::extension` documents it: none
/// where the name has no `.` or only a leading one, else the part after the
/// last `.`.
pub open spec fn ext_part(f: Seq<char>) -> Option<Seq<char>> {
    match last_dot(f) {
        Some(d) => if d == 0 {
            None
        } else {
            Some(f.skip(d + 1))
        },
        None => None,
    }
}

/// What `Path::file_stem` gives for `path`, as text.
pub open spec fn file_stem_of(path: Seq<char>) -> Option<Seq<char>> {
    match file_name_of(path) {
        Some(f) => Some(stem_part(f)),
        None => None,
    }
}

/// What `Path::extension` gives for `path`, as text.
pub open spec fn extension_of(path: Seq<char>) -> Option<Seq<char>> {
    match file_name_of(path) {
        Some(f) => ext_part(f),
        None => None,
    }
}

/// A single plain path component: not empty, not `.` or `..`, and free of
/// `/`, `\\` and `:`, so that no platform reads a separator, a root or a
/// prefix in it.
pub open spec fn plain_name(name: Seq<char>) -> bool {
    &&& name.len() > 0
    &&& name != seq!['.']
    &&& name != seq!['.', '.']
    &&& forall|i: int| 0 <= i < name.len() ==> #[trigger] name[i] != '/' && name[i] != '\\' && name[i] != ':'
}

/// What `Path::parent` gives for `path`, as text.
pub uninterp spec fn parent_of(path: Seq<char>) -> Option<Seq<char>>;

/// What `Path::join` gives for `base` and `name`, as text.
pub uninterp spec fn joined(base: Seq<char>, name: Seq<char>) -> Seq<char>;

/// What `str::to_lowercase` gives for `s`.
pub uninterp spec fn lowercase_of(s: Seq<char>) -> Seq<char>;

/// Calls `std::path::Path::file_stem` on `path` and converts the stem back
/// to text. The contract states what the documentation of `file_stem`
/// says: the stem is taken from the file name (`Path::file_name`, which is
/// named, not described) by the rule of `stem_part`.
#[verifier::external_body]
pub(crate) fn path_file_stem(path: &str) -> (r: Option<String>)
    ensures
        match r {
            Some(s) => file_stem_of(path@) == Some(s@),
            None => file_stem_of(path@) is None,
        },
{
    match std::path::Path::new(path).file_stem() {
        Some(s) => match s.to_str() {
            Some(t) => Some(t.to_string()),
            None => None,
        },
        None => None,
    }
}

/// Calls `std::path::Path::extension` on `path` and converts it back to
/// text. The contract states what the documentation of `extension` says:
/// the extension is taken from the file name (named, not described) by the
/// rule of `ext_part`.
#[verifier::external_body]
pub(crate) fn path_extension(path: &str) -> (r: Option<String>)
    ensures
        match r {
            Some(s) => extension_of(path@) == Some(s@),
            None => extension_of(path@) is None,
        },
{
    match std::path::Path::new(path).extension() {
        Some(s) => match s.to_str() {
            Some(t) => Some(t.to_string()),
            None => None,
        },
        None => None,
    }
}

/// Calls `std::path::Path::parent` on `path` and converts it back to text.
/// The contract claims only that the result is a function of `path`, named
/// `parent_of`.
#[verifier::external_body]
pub(crate) fn path_parent(path: &str) -> (r: Option<String>)
    ensures
        match r {
            Some(s) => parent_of(path@) == Some(s@),
            None => parent_of(path@) is None,
        },
{
    match std::path::Path::new(path).parent() {
        Some(p) => match p.to_str() {
            Some(t) => Some(t.to_string()),
            None => None,
        },
        None => None,
    }
}

/// Calls `std::path::Path::join` on `base` and `name` and converts the result
/// back to text (lossless for text that is UTF-8 already). The contract
/// claims that the result is a function of the two, named `joined`, and, as
/// the documentation of `join` and `PathBuf::push` says (a relative path is
/// appended as the last component), that a plain name becomes the file name
/// of the result. Where the separator goes is not stated.
#[verifier::external_body]
pub(crate) fn path_join(base: &str, name: &str) -> (r: String)
    ensures
        r@ == joined(base@, name@),
        plain_name(name@) ==> file_name_of(r@) == Some(name@),
{
    std::path::Path::new(base).join(name).to_string_lossy().into_owned()
}

/// Calls `str::to_lowercase` on `s`. The contract claims only that the result
/// is a function of `s`, named `lowercase_of`; the Unicode case mapping is
/// not stated.
#[verifier::external_body]
pub(crate) fn to_lowercase(s: &str) -> (r: String)
    ensures
        r@ == lowercase_of(s@),
{
    s.to_lowercase()
}

} // verus!

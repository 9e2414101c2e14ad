//! Path helpers that compute on path strings without touching the disk.
use vstd::prelude::*;

use crate::text::rfind;

verus! {

/// Whether `part` occurs in `s` as a contiguous run of characters.
pub open spec fn occurs_in(part: Seq<char>, s: Seq<char>) -> bool {
    exists|i: int| 0 <= i && i + part.len() <= s.len() && #[trigger] s.subrange(i, i + part.len()) == part
}

/// Whether `s` holds none of the characters by which some platform marks a separator or a
/// prefix (`\` and `:`).
pub open spec fn free_of_prefix_marks(s: Seq<char>) -> bool {
    !s.contains('\\') && !s.contains(':')
}

/// Whether `s` is a single file name on every platform: not empty, free of `/` and of
/// prefix marks, and neither `.` nor `..`.
pub open spec fn plain_file_name(s: Seq<char>) -> bool {
    &&& s.len() > 0
    &&& !s.contains('/')
    &&& free_of_prefix_marks(s)
    &&& s != seq!['.']
    &&& s != seq!['.', '.']
}

/// The extension of the file name `name`: the text after its last `.`, unless there is no
/// `.` or the only one starts the name.
pub open spec fn file_name_extension(name: Seq<char>) -> Option<Seq<char>> {
    match rfind(name, seq!['.']) {
        Some(k) => if k == 0 {
            None
        } else {
            Some(name.subrange(k + 1, name.len() as int))
        },
        None => None,
    }
}

/// Whether `r` is the extension that `path` gives when it is a plain file name.
pub open spec fn extension_of_plain_name(path: Seq<char>, r: Option<&str>) -> bool {
    plain_file_name(path) ==> match file_name_extension(path) {
        Some(e) => r matches Some(x) && x@ == e,
        None => r is None,
    }
}

/// `std::path::Path::extension` of `path`, as text. The standard library documents the
/// extension as the part of the file name after its final `.`, with none where the name
/// has no `.` or only a leading one; so whatever comes back holds no `.` and follows a `.`
/// in the path, and a path that is one plain file name on every platform gets exactly that
/// part. Which part of another path is the file name depends on the separators and
/// prefixes of the platform, and is not stated.
#[verifier::external_body]
fn std_path_extension(path: &str) -> (r: Option<&str>)
    ensures
        r matches Some(e) ==> !e@.contains('.') && occurs_in(seq!['.'] + e@, path@),
        extension_of_plain_name(path@, r),
{
    match std::path::Path::new(path).extension() {
        Some(e) => e.to_str(),
        None => None,
    }
}

/// Whether `s` starts with two `/`, which some platform reads as the start of a prefix.
pub open spec fn leads_with_two_slashes(s: Seq<char>) -> bool {
    s.len() >= 2 && s[0] == '/' && s[1] == '/'
}

/// Whether `r` is what joining `component` to `base` gives, where the platform does not
/// decide it: for a base without prefix marks that does not start with two `/`, an absolute
/// component (one leading `/`) replaces the base, and a relative one follows a base that
/// does not end in a separator after one separator, `/` or `\` by the platform.
pub open spec fn joined_path(base: Seq<char>, component: Seq<char>, r: Seq<char>) -> bool {
    let plain_base = free_of_prefix_marks(base) && !leads_with_two_slashes(base);
    &&& (plain_base && free_of_prefix_marks(component) && component.len() > 0 && component[0] == '/'
        && !leads_with_two_slashes(component)) ==> r == component
    &&& (plain_base && free_of_prefix_marks(component) && base.len() > 0 && base.last() != '/' && (
    component.len() == 0 || component[0] != '/')) ==> (r == base + seq!['/'] + component || r == base
        + seq!['\\'] + component)
}

/// `std::path::Path::join` of `base` and `component`, as text. The standard library
/// documents that an absolute component replaces the base (on Windows, one with a root and
/// no prefix replaces all but the base's prefix) and that a relative one extends it, one
/// separator of the platform between the two. The result is stated where that leaves
/// nothing to the platform; with prefixes, `\`, a leading `//`, an empty base or one that
/// ends in a separator it is not stated.
#[verifier::external_body]
fn std_path_join(base: &str, component: &str) -> (r: String)
    ensures
        joined_path(base@, component@, r@),
{
    std::path::Path::new(base).join(component).to_string_lossy().into_owned()
}

/// File system helpers.
pub struct FileSystem;

impl FileSystem {
    /// The extension of the file named by `path`: the text after the last `.` of its file
    /// name, if there is one.
    pub fn get_extension(path: &str) -> (r: Option<&str>)
        ensures
            r matches Some(e) ==> !e@.contains('.') && occurs_in(seq!['.'] + e@, path@),
            !path@.contains('.') ==> r is None,
            extension_of_plain_name(path@, r),
    {
        let r = std_path_extension(path);
        proof {
            if let Some(e) = r {
                let part = seq!['.'] + e@;
                let i = choose|i: int| 0 <= i && i + part.len() <= path@.len()
                    && #[trigger] path@.subrange(i, i + part.len()) == part;
                assert(path@.subrange(i, i + part.len())[0] == '.');
                assert(path@[i] == '.');
            }
        }
        r
    }

    /// `component` appended to `base` as a path.
    pub fn join_path(base: &str, component: &str) -> (r: String)
        ensures
            joined_path(base@, component@, r@),
    {
        std_path_join(base, component)
    }
}

} // verus!

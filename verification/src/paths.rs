//! Paths are held as strings; what std's `Path` makes of them is named here.
use vstd::prelude::*;
use std::path::Path;

verus! {

/// The characters of an optional string.
pub open spec fn opt_view(o: Option<String>) -> Option<Seq<char>> {
    match o {
        Some(s) => Some(s@),
        None => None,
    }
}

/// What `Path::file_name` gives for the path `p`: its last normal component, or nothing when
/// the path ends in `..` or is a root or empty.
pub uninterp spec fn file_name_of(p: Seq<char>) -> Option<Seq<char>>;

/// What `Path::strip_prefix` gives: the rest of `p` after the whole components of `base`,
/// or nothing when `base` is not a prefix of `p` component by component.
pub uninterp spec fn strip_path_prefix(p: Seq<char>, base: Seq<char>) -> Option<Seq<char>>;

/// What `Path::join` gives: `rest` appended to `base` with a separator, or `rest` alone when
/// it is absolute.
pub uninterp spec fn join_path(base: Seq<char>, rest: Seq<char>) -> Seq<char>;

/// Whether `Path`'s equality holds of `a` and `b`: the same components, however the
/// separators between them are written.
pub uninterp spec fn same_path(a: Seq<char>, b: Seq<char>) -> bool;

/// `==` on std's `Path`, which compares paths component by component; equal strings are
/// equal paths.
#[verifier::external_body]
pub(crate) fn path_eq(a: &str, b: &str) -> (r: bool)
    ensures
        r == same_path(a@, b@),
        a@ == b@ ==> r,
{
    Path::new(a) == Path::new(b)
}

/// `Path::file_name` of std on the path `p`, read back as a string.
#[verifier::external_body]
pub(crate) fn path_file_name(p: &str) -> (r: Option<String>)
    ensures
        opt_view(r) == file_name_of(p@),
{
    Path::new(p).file_name().map(|n| n.to_string_lossy().into_owned())
}

/// `Path::strip_prefix` of std, read back as a string; its error becomes `None`.
#[verifier::external_body]
pub(crate) fn path_strip_prefix(p: &str, base: &str) -> (r: Option<String>)
    ensures
        opt_view(r) == strip_path_prefix(p@, base@),
{
    Path::new(p).strip_prefix(base).ok().map(|rest| rest.to_string_lossy().into_owned())
}

/// `Path::join` of std, read back as a string. As std documents, an absolute `rest` replaces
/// `base`; how a relative `rest` is appended is left to the name.
#[verifier::external_body]
pub(crate) fn path_join(base: &str, rest: &str) -> (r: String)
    ensures
        r@ == join_path(base@, rest@),
        rest@.len() > 0 && rest@[0] == '/' ==> r@ == rest@,
{
    Path::new(base).join(rest).to_string_lossy().into_owned()
}

/// `dirs::home_dir`: the user's home directory as the environment gives it (on Unix
/// `$HOME`, else the password database), read back as a string. Nothing is promised of
/// the result: it depends on the environment of the process.
#[verifier::external_body]
pub(crate) fn home_dir() -> (r: Option<String>)
{
    dirs::home_dir().map(|h| h.to_string_lossy().into_owned())
}

/// A borrowed view of an optional string.
pub fn as_opt_str(o: &Option<String>) -> (r: Option<&str>)
    ensures
        match r {
            Some(s) => o.is_some() && s@ == o.unwrap()@,
            None => o.is_none(),
        },
{
    match o {
        Some(s) => Some(s.as_str()),
        None => None,
    }
}

/// The characters of an optional string slice.
pub open spec fn opt_str_view(o: Option<&str>) -> Option<Seq<char>> {
    match o {
        Some(s) => Some(s@),
        None => None,
    }
}

} // verus!

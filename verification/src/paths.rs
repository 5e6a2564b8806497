//! The parts of `std::path` that the library reads from a path held as text.
use vstd::prelude::*;

verus! {

/// What `Path::file_stem` gives for a path: the final component's name
/// without its last extension.
pub uninterp spec fn file_stem(path: Seq<char>) -> Option<Seq<char>>;

/// What `Path::extension` gives for a path: the final component's last
/// extension, without the dot.
pub uninterp spec fn extension(path: Seq<char>) -> Option<Seq<char>>;

/// What `Path::starts_with` gives: whether `base` is a prefix of `path`,
/// compared component by component.
pub uninterp spec fn path_starts_with(path: Seq<char>, base: Seq<char>) -> bool;

/// Calls `Path::file_stem` on `path` and hands the stem back as a `String`.
/// The contract names the result and claims nothing more of it. The stem of
/// a path given as `&str` is always UTF-8, so the conversion loses nothing.
#[verifier::external_body]
pub fn path_file_stem(path: &str) -> (r: Option<String>)
    ensures
        r is Some <==> file_stem(path@) is Some,
        r matches Some(s) ==> file_stem(path@) == Some(s@),
{
    std::path::Path::new(path).file_stem().and_then(|s| s.to_str()).map(|s| s.to_string())
}

/// Calls `Path::extension` on `path` and hands the extension back as a
/// `String`. The contract names the result and claims nothing more of it.
#[verifier::external_body]
pub fn path_extension(path: &str) -> (r: Option<String>)
    ensures
        r is Some <==> extension(path@) is Some,
        r matches Some(s) ==> extension(path@) == Some(s@),
{
    std::path::Path::new(path).extension().and_then(|s| s.to_str()).map(|s| s.to_string())
}

/// Calls `Path::starts_with`. The contract names the result and claims
/// nothing more of it.
#[verifier::external_body]
pub fn path_has_prefix(path: &str, base: &str) -> (r: bool)
    ensures
        r == path_starts_with(path@, base@),
{
    std::path::Path::new(path).starts_with(base)
}

/// What `Path::join` gives on Unix, as `PathBuf::push` documents it: an
/// absolute `path` (one that begins with `/`) replaces `base`; otherwise
/// `path` is appended to `base`, with a `/` between them where `base` is not
/// empty and does not already end with one.
pub open spec fn joined_path(base: Seq<char>, path: Seq<char>) -> Seq<char> {
    if path.len() > 0 && path[0] == '/' {
        path
    } else if base.len() > 0 && base.last() != '/' {
        base + seq!['/'] + path
    } else {
        base + path
    }
}

/// Calls `Path::join` and hands the result back as a `String`. Joining two
/// UTF-8 paths gives UTF-8, so the conversion loses nothing. The contract
/// states `PathBuf::push`'s rule for Unix paths (see [`joined_path`]).
#[verifier::external_body]
pub fn path_join(base: &str, path: &str) -> (r: String)
    ensures
        r@ == joined_path(base@, path@),
{
    std::path::Path::new(base).join(path).into_os_string().into_string().unwrap_or_default()
}

} // verus!

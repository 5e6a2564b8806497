//! The configuration read from the secret store, and the rules for
//! assembling it.
use vstd::prelude::*;

use zeroize::Zeroizing;

use crate::paths::{path_has_prefix, path_starts_with};

verus! {

/// A secret string held in a `zeroize::Zeroizing<String>`, which wipes it
/// from memory when dropped. Its content is reached only through `new` and
/// `as_str`, and the field is private, so the string is never copied out.
#[verifier::external_body]
pub struct SecretText {
    inner: Zeroizing<String>,
}

/// The text a [`SecretText`] holds.
pub uninterp spec fn secret_text(s: SecretText) -> Seq<char>;

impl SecretText {
    /// Moves `s` into a new `Zeroizing<String>` with `Zeroizing::new`, which
    /// keeps the string unchanged.
    #[verifier::external_body]
    pub fn new(s: String) -> (r: SecretText)
        ensures
            secret_text(r) == s@,
    {
        SecretText { inner: Zeroizing::new(s) }
    }

    /// The string inside, read through `Zeroizing`'s `Deref`, which hands
    /// back the wrapped string itself.
    #[verifier::external_body]
    pub fn as_str(&self) -> (r: &str)
        ensures
            r@ == secret_text(*self),
    {
        self.inner.as_str()
    }
}

/// The Ollama model used when the store names none.
pub const DEFAULT_MODEL: &'static str = "mistral-small3.2:24b";

/// The configuration of a run.
pub struct Secrets {
    /// The directory that holds the source PDFs.
    pub source_dir: SecretText,
    /// The directory that receives the anonymized Markdown.
    pub dest_dir: SecretText,
    /// The owner's full name as it appears in documents.
    pub owner_name: SecretText,
    /// The Ollama model; not secret.
    pub model: String,
}

/// Whether two paths are the same path: each is a prefix of the other,
/// component by component.
pub open spec fn same_path(a: Seq<char>, b: Seq<char>) -> bool {
    path_starts_with(a, b) && path_starts_with(b, a)
}

/// The message when a required entry is missing from the store.
pub open spec fn incomplete_message() -> Seq<char> {
    "error: configuration incomplete"@
}

/// The message when the source and destination directories are one path.
pub open spec fn same_directory_message() -> Seq<char> {
    "error: source and destination directories are the same"@
}

/// Assembles the configuration from the entries read from the store: each of
/// the source directory, destination directory and owner name is required,
/// and a missing one is the error "error: configuration incomplete"; the
/// model falls back to [`DEFAULT_MODEL`].
pub fn assemble(
    source_dir: Option<SecretText>,
    dest_dir: Option<SecretText>,
    owner_name: Option<SecretText>,
    model: Option<SecretText>,
) -> (r: Result<Secrets, String>)
    ensures
        r is Ok <==> source_dir is Some && dest_dir is Some && owner_name is Some,
        r matches Ok(s) ==> {
            &&& Some(s.source_dir) == source_dir
            &&& Some(s.dest_dir) == dest_dir
            &&& Some(s.owner_name) == owner_name
            &&& s.model@ == match model {
                Some(m) => secret_text(m),
                None => DEFAULT_MODEL@,
            }
        },
        r matches Err(e) ==> e@ == incomplete_message(),
{
    let source_dir = match source_dir {
        Some(d) => d,
        None => return Err("error: configuration incomplete".to_owned()),
    };
    let dest_dir = match dest_dir {
        Some(d) => d,
        None => return Err("error: configuration incomplete".to_owned()),
    };
    let owner_name = match owner_name {
        Some(n) => n,
        None => return Err("error: configuration incomplete".to_owned()),
    };
    let model = match model {
        Some(m) => m.as_str().to_owned(),
        None => DEFAULT_MODEL.to_owned(),
    };
    Ok(Secrets { source_dir, dest_dir, owner_name, model })
}

/// Checks that the source and destination directories of a configuration
/// are different paths (compared component by component), as the store's
/// documentation asks; where they are one path, the error
/// "error: source and destination directories are the same".
pub fn check_distinct_directories(secrets: &Secrets) -> (r: Result<(), String>)
    ensures
        r is Err <==> same_path(secret_text(secrets.source_dir), secret_text(secrets.dest_dir)),
        r matches Err(e) ==> e@ == same_directory_message(),
{
    let source = secrets.source_dir.as_str();
    let dest = secrets.dest_dir.as_str();
    if path_has_prefix(source, dest) && path_has_prefix(dest, source) {
        Err("error: source and destination directories are the same".to_owned())
    } else {
        Ok(())
    }
}

} // verus!

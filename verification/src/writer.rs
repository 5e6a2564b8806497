//! The last gate before a document is written: no name tag may remain, and
//! the output is named after the source document.
use vstd::prelude::*;

use crate::pages::chars_of;
use crate::paths::{file_stem, path_file_stem};
use crate::tags::tag_opener;

verus! {

/// Whether `needle` occurs in `hay` at offset `i`.
pub open spec fn occurs_at(hay: Seq<char>, needle: Seq<char>, i: int) -> bool {
    0 <= i && i + needle.len() <= hay.len() && hay.subrange(i, i + needle.len()) == needle
}

/// Whether `needle` occurs anywhere in `hay`.
pub open spec fn occurs_in(hay: Seq<char>, needle: Seq<char>) -> bool {
    exists|i: int| occurs_at(hay, needle, i)
}

/// Whether `needle` occurs in `hay`.
pub fn contains_chars(hay: &Vec<char>, needle: &Vec<char>) -> (r: bool)
    ensures
        r == occurs_in(hay@, needle@),
{
    if needle.len() > hay.len() {
        return false;
    }
    let last = hay.len() - needle.len();
    let mut i: usize = 0;
    loop
        invariant
            last == hay@.len() - needle@.len(),
            needle@.len() <= hay@.len(),
            hay@.len() <= usize::MAX,
            i <= last,
            forall|j: int| 0 <= j < i ==> !occurs_at(hay@, needle@, j),
        decreases last - i,
    {
        let mut k: usize = 0;
        let mut same = true;
        while k < needle.len()
            invariant
                i <= last,
                last == hay@.len() - needle@.len(),
                hay@.len() <= usize::MAX,
                k <= needle@.len(),
                same == forall|m: int| 0 <= m < k ==> hay@[i + m] == needle@[m],
            decreases needle.len() - k,
        {
            if hay[i + k] != needle[k] {
                same = false;
            }
            k += 1;
        }
        proof {
            if same {
                assert(hay@.subrange(i as int, i + needle@.len()) =~= needle@);
                assert(occurs_at(hay@, needle@, i as int));
            } else {
                let m = choose|m: int| 0 <= m < k && hay@[i + m] != needle@[m];
                assert(hay@.subrange(i as int, i + needle@.len())[m] != needle@[m]);
            }
        }
        if same {
            return true;
        }
        if i == last {
            proof {
                assert forall|j: int| !occurs_at(hay@, needle@, j) by {
                    if 0 <= j <= i {
                    }
                }
            }
            return false;
        }
        i += 1;
    }
}

/// Why a document is not written.
#[derive(Debug, PartialEq, Eq, Clone, Copy)]
pub enum OutputError {
    /// A person-name tag is still in the text.
    AnonymizationIncomplete,
    /// The source file name has no stem to name the output after.
    InvalidFilename,
}

impl OutputError {
    /// The message shown for the error; it holds nothing of the document.
    pub fn message(&self) -> (r: String)
        ensures
            r@ == match self {
                OutputError::AnonymizationIncomplete => "anonymization incomplete"@,
                OutputError::InvalidFilename => "invalid filename"@,
            },
    {
        match self {
            OutputError::AnonymizationIncomplete => "anonymization incomplete".to_owned(),
            OutputError::InvalidFilename => "invalid filename".to_owned(),
        }
    }
}

/// The name of the output file: the source document's stem with `.md`.
pub open spec fn output_name(stem: Seq<char>) -> Seq<char> {
    stem + ".md"@
}

/// Checks the anonymized text and names its output file: refused while a
/// `[NAME:` tag remains anywhere in it (a tag without its closing bracket
/// too); otherwise the output is named after the stem of the source file
/// (`contract.pdf` gives `contract.md`).
pub fn output_file_name(content: &str, source_filename: &str) -> (r: Result<String, OutputError>)
    ensures
        occurs_in(content@, tag_opener()) ==> r == Err::<String, OutputError>(
            OutputError::AnonymizationIncomplete,
        ),
        !occurs_in(content@, tag_opener()) ==> match file_stem(source_filename@) {
            Some(stem) => r matches Ok(name) && name@ == output_name(stem),
            None => r == Err::<String, OutputError>(OutputError::InvalidFilename),
        },
{
    let text = chars_of(content);
    let tag = chars_of("[NAME:");
    if contains_chars(&text, &tag) {
        return Err(OutputError::AnonymizationIncomplete);
    }
    match path_file_stem(source_filename) {
        Some(stem) => {
            let mut name = stem;
            name.append(".md");
            Ok(name)
        },
        None => Err(OutputError::InvalidFilename),
    }
}

} // verus!

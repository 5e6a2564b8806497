//! Assembling a document from its pages and anonymizing it for its owner.
use vstd::prelude::*;

use crate::anonymize::{anonymize_for_owner, anonymized, can_anonymize_for_owner, spaced};
use crate::tags::{tag_at, tag_pass};

verus! {

broadcast use vstd::seq::group_seq_axioms;

/// What stands between two pages of a document: a horizontal rule.
pub open spec fn page_separator() -> Seq<char> {
    "\n\n---\n\n"@
}

/// The pages, in order, with the separator between each two of them.
pub open spec fn joined(pages: Seq<Seq<char>>) -> Seq<char>
    decreases pages.len(),
{
    if pages.len() == 0 {
        seq![]
    } else if pages.len() == 1 {
        pages[0]
    } else {
        joined(pages.drop_last()) + page_separator() + pages.last()
    }
}

/// The text of each page.
pub open spec fn page_texts(pages: Seq<String>) -> Seq<Seq<char>> {
    pages.map_values(|p: String| p@)
}

/// Joins the pages' texts with a horizontal rule between each two of them.
pub fn join_pages(pages: &Vec<String>) -> (r: String)
    ensures
        r@ == joined(page_texts(pages@)),
{
    let mut r = String::new();
    let ghost texts = page_texts(pages@);
    let mut i: usize = 0;
    while i < pages.len()
        invariant
            i <= pages@.len(),
            texts == page_texts(pages@),
            r@ == joined(texts.take(i as int)),
        decreases pages.len() - i,
    {
        if i != 0 {
            r.append("\n\n---\n\n");
        }
        r.append(pages[i].as_str());
        proof {
            assert(texts.take(i + 1).drop_last() =~= texts.take(i as int));
            if i == 0 {
                assert(r@ =~= texts.take(1)[0]);
            }
        }
        i += 1;
    }
    proof {
        assert(texts.take(pages@.len() as int) =~= texts);
    }
    r
}

/// Whether `i` is the position of the first space in `s`.
pub open spec fn is_first_space(s: Seq<char>, i: int) -> bool {
    &&& 0 <= i < s.len()
    &&& s[i] == ' '
    &&& forall|j: int| 0 <= j < i ==> s[j] != ' '
}

/// Whether `i` is the position of the last space in `s`.
pub open spec fn is_last_space(s: Seq<char>, i: int) -> bool {
    &&& 0 <= i < s.len()
    &&& s[i] == ' '
    &&& forall|j: int| i < j < s.len() ==> s[j] != ' '
}

/// The position of the first space of a name that holds one.
pub open spec fn first_space(s: Seq<char>) -> int {
    choose|i: int| is_first_space(s, i)
}

/// The position of the last space of a name that holds one.
pub open spec fn last_space(s: Seq<char>) -> int {
    choose|i: int| is_last_space(s, i)
}

/// The owner's first name in a full name: the text before its first space,
/// or the whole name where it holds no space.
pub open spec fn first_name(owner_name: Seq<char>) -> Seq<char> {
    if owner_name.contains(' ') {
        owner_name.take(first_space(owner_name))
    } else {
        owner_name
    }
}

/// The owner's last name in a full name: the text after its last space, or
/// the whole name where it holds no space (a single name is both).
pub open spec fn last_name(owner_name: Seq<char>) -> Seq<char> {
    if owner_name.contains(' ') {
        owner_name.skip(last_space(owner_name) + 1)
    } else {
        owner_name
    }
}

proof fn lemma_space_positions(s: Seq<char>, f: int, l: int)
    requires
        is_first_space(s, f),
        is_last_space(s, l),
    ensures
        first_space(s) == f,
        last_space(s) == l,
{
    let cf = first_space(s);
    let cl = last_space(s);
    assert(is_first_space(s, cf));
    assert(is_last_space(s, cl));
    if cf < f {
        assert(s[cf] != ' ');
    }
    if f < cf {
        assert(s[f] != ' ');
    }
    if cl < l {
        assert(s[l] != ' ');
    }
    if l < cl {
        assert(s[cl] != ' ');
    }
}

/// A name of two parts, one space between them, splits into those parts,
/// and its reversal is the two parts the other way round.
pub proof fn law_two_part_name_splits_into_its_parts(owner_name: Seq<char>, i: int)
    requires
        0 <= i < owner_name.len(),
        owner_name[i] == ' ',
        forall|j: int| 0 <= j < owner_name.len() && j != i ==> owner_name[j] != ' ',
    ensures
        first_name(owner_name) == owner_name.take(i),
        last_name(owner_name) == owner_name.skip(i + 1),
        spaced(first_name(owner_name), last_name(owner_name)) == owner_name,
        reversed_name(owner_name) == spaced(last_name(owner_name), first_name(owner_name)),
{
    assert(owner_name.contains(' '));
    assert(is_first_space(owner_name, i));
    assert(is_last_space(owner_name, i));
    lemma_space_positions(owner_name, i, i);
    assert(spaced(owner_name.take(i), owner_name.skip(i + 1)) =~= owner_name);
}

/// Splits a full name into its first name (before the first space) and its
/// last name (after the last space); a name without a space is both.
pub fn split_owner_name(owner_name: &str) -> (r: (String, String))
    ensures
        r.0@ == first_name(owner_name@),
        r.1@ == last_name(owner_name@),
{
    let n = owner_name.unicode_len();
    let mut first_space: Option<usize> = None;
    let mut last_space: Option<usize> = None;
    let mut i: usize = 0;
    while i < n
        invariant
            n == owner_name@.len(),
            i <= n,
            first_space is None ==> forall|j: int| 0 <= j < i ==> owner_name@[j] != ' ',
            first_space is None <==> last_space is None,
            first_space matches Some(f) ==> is_first_space(owner_name@, f as int),
            last_space matches Some(l) ==> l < i && owner_name@[l as int] == ' ' && forall|j: int|
                l < j < i ==> owner_name@[j] != ' ',
        decreases n - i,
    {
        if owner_name.get_char(i) == ' ' {
            if first_space.is_none() {
                first_space = Some(i);
            }
            last_space = Some(i);
        }
        i += 1;
    }
    match (first_space, last_space) {
        (Some(f), Some(l)) => {
            let first = owner_name.substring_char(0, f).to_owned();
            let last = owner_name.substring_char(l + 1, n).to_owned();
            proof {
                assert(owner_name@.contains(' ')) by {
                    assert(owner_name@[f as int] == ' ');
                }
                assert(first@ =~= owner_name@.take(f as int));
                assert(last@ =~= owner_name@.skip(l + 1));
                assert(is_last_space(owner_name@, l as int));
                lemma_space_positions(owner_name@, f as int, l as int);
            }
            (first, last)
        },
        _ => {
            proof {
                assert(!owner_name@.contains(' '));
            }
            (owner_name.to_owned(), owner_name.to_owned())
        },
    }
}

/// The owner's name in reverse order: the last name, a space, then the rest
/// of the name before its last space ("Virtanen Anna Maria" for
/// "Anna Maria Virtanen"); a name without a space is its own reversal.
pub open spec fn reversed_name(owner_name: Seq<char>) -> Seq<char> {
    if owner_name.contains(' ') {
        spaced(last_name(owner_name), owner_name.take(last_space(owner_name)))
    } else {
        owner_name
    }
}

/// Writes the owner's name in reverse order (see [`reversed_name`]).
pub fn reverse_owner_name(owner_name: &str) -> (r: String)
    ensures
        r@ == reversed_name(owner_name@),
{
    let n = owner_name.unicode_len();
    let mut last_space_at: Option<usize> = None;
    let mut i: usize = 0;
    while i < n
        invariant
            n == owner_name@.len(),
            i <= n,
            last_space_at is None ==> forall|j: int| 0 <= j < i ==> owner_name@[j] != ' ',
            last_space_at matches Some(l) ==> l < i && owner_name@[l as int] == ' ' && forall|j: int|
                l < j < i ==> owner_name@[j] != ' ',
        decreases n - i,
    {
        if owner_name.get_char(i) == ' ' {
            last_space_at = Some(i);
        }
        i += 1;
    }
    match last_space_at {
        Some(l) => {
            let mut r = owner_name.substring_char(l + 1, n).to_owned();
            r.append(" ");
            r.append(owner_name.substring_char(0, l));
            proof {
                reveal_strlit(" ");
                assert(owner_name@.contains(' ')) by {
                    assert(owner_name@[l as int] == ' ');
                }
                assert(is_last_space(owner_name@, l as int));
                let cl = last_space(owner_name@);
                assert(is_last_space(owner_name@, cl));
                if cl < l {
                    assert(owner_name@[l as int] != ' ');
                }
                if l < cl {
                    assert(owner_name@[cl] != ' ');
                }
                assert(r@ =~= spaced(owner_name@.skip(l + 1), owner_name@.take(l as int)));
            }
            r
        },
        None => {
            proof {
                assert(!owner_name@.contains(' '));
            }
            owner_name.to_owned()
        },
    }
}

/// Why a document cannot be anonymized.
#[derive(Debug, PartialEq, Eq, Clone, Copy)]
pub enum AnonymizeError {
    /// A person-name tag is opened and never closed.
    UnclosedNameTag,
}

/// The anonymized document: the pages joined, then the tags and the owner's
/// names replaced as `anonymize_for_owner` does, for the owner's full name,
/// its reversal, and the first and last name taken from it.
pub open spec fn anonymized_document(pages: Seq<String>, owner_name: Seq<char>) -> Option<Seq<char>> {
    anonymized(
        joined(page_texts(pages)),
        owner_name,
        reversed_name(owner_name),
        first_name(owner_name),
        last_name(owner_name),
    )
}

/// Joins the pages and anonymizes them for the owner. A person-name tag
/// that is opened and never closed is an error.
pub fn anonymize_document(pages: &Vec<String>, owner_name: &str) -> (r: Result<
    String,
    AnonymizeError,
>)
    ensures
        r matches Ok(s) ==> anonymized_document(pages@, owner_name@) == Some(s@),
        r matches Ok(s) ==> forall|k: int| !tag_at(s@, k),
        r is Err ==> anonymized_document(pages@, owner_name@) is None,
        r is Err <==> tag_pass(
            joined(page_texts(pages@)),
            owner_name@,
            first_name(owner_name@),
            last_name(owner_name@),
            seq![],
        ) is None,
{
    let joined_text = join_pages(pages);
    let (first, last) = split_owner_name(owner_name);
    let reversed = reverse_owner_name(owner_name);
    if can_anonymize_for_owner(
        joined_text.as_str(),
        owner_name,
        reversed.as_str(),
        first.as_str(),
        last.as_str(),
    ) {
        let out = anonymize_for_owner(
            joined_text.as_str(),
            owner_name,
            reversed.as_str(),
            first.as_str(),
            last.as_str(),
        );
        Ok(out)
    } else {
        Err(AnonymizeError::UnclosedNameTag)
    }
}

} // verus!

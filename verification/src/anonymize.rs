//! Case-insensitive replacement of the owner's name in a document.
use vstd::prelude::*;
use vstd::utf8::*;

use crate::pages::{chars_between, chars_of, string_from_chars};
use crate::replace_laws::law_no_tag_is_left_in_anonymized;
use crate::tags::{push_all, replace_name_tags, tag_at, tag_pass};

verus! {

broadcast use vstd::seq::group_seq_axioms;

/// What `str::to_lowercase` gives for a text.
pub uninterp spec fn lowercase(s: Seq<char>) -> Seq<char>;

/// The ASCII lowercase form: `A` to `Z` become `a` to `z`, every other
/// character stays.
pub open spec fn ascii_lowercase(s: Seq<char>) -> Seq<char> {
    s.map_values(|c: char| if 'A' <= c <= 'Z' { ((c as u32) + 32) as char } else { c })
}

/// Calls `str::to_lowercase`. The contract names its result; of it, it states
/// only what Unicode's lowercase mapping gives for ASCII text: `A` to `Z`
/// become `a` to `z` and every other ASCII character stays. The mapping of
/// other characters (with its context rule for a final capital sigma) is left
/// unstated.
#[verifier::external_body]
pub fn to_lowercase(s: &str) -> (r: String)
    ensures
        r@ == lowercase(s@),
        is_ascii_chars(s@) ==> r@ == ascii_lowercase(s@),
{
    s.to_lowercase()
}

/// The text that replacing every case-insensitive occurrence of the lowercase
/// pattern `pl` in `text` by `rep` gives, scanning left to right without
/// overlap. At each position the next `pl.len()` characters of the text are
/// lowercased and compared with `pl`: where they match, `rep` is written and
/// the scan moves past them; otherwise the character is copied and the scan
/// moves on by one. Once fewer than `pl.len()` characters are left they are
/// copied as they are. An empty `pl` leaves the text as it is.
pub open spec fn ci_replaced(text: Seq<char>, pl: Seq<char>, rep: Seq<char>) -> Seq<char>
    decreases text.len(),
{
    if pl.len() == 0 || text.len() < pl.len() {
        text
    } else if lowercase(text.take(pl.len() as int)) == pl {
        rep + ci_replaced(text.skip(pl.len() as int), pl, rep)
    } else {
        seq![text[0]] + ci_replaced(text.drop_first(), pl, rep)
    }
}

/// The text that replacing every case-insensitive occurrence of `pattern` in
/// `text` by `replacement` gives (see [`ci_replaced`]). An empty pattern
/// leaves the text as it is.
pub open spec fn replace_ci_result(text: Seq<char>, pattern: Seq<char>, replacement: Seq<char>) -> Seq<
    char,
> {
    if pattern.len() == 0 {
        text
    } else {
        ci_replaced(text, lowercase(pattern), replacement)
    }
}

/// Replaces every case-insensitive occurrence of `pattern` in `text` with
/// `replacement`, left to right and without overlap. Each stretch of the
/// text as long as the lowercased pattern is lowercased on its own and
/// compared with the lowercased pattern. Where lowercasing keeps the UTF-8
/// width of every character, this is the same as comparing the lowercased
/// text with the lowercased pattern byte by byte; the one case where
/// lowercasing a stretch on its own differs from lowercasing the whole text
/// is a capital sigma whose lowercase form depends on the letters around it.
/// The result is defined for every text.
pub fn replace_ci(text: &str, pattern: &str, replacement: &str) -> (r: String)
    ensures
        r@ == replace_ci_result(text@, pattern@, replacement@),
{
    if pattern.is_empty() {
        return text.to_owned();
    }
    let pattern_lower = to_lowercase(pattern);
    let pl = chars_of(pattern_lower.as_str());
    let m = pl.len();
    if m == 0 {
        return text.to_owned();
    }
    let cs = chars_of(text);
    let rep = chars_of(replacement);
    let mut out: Vec<char> = Vec::new();
    let mut i: usize = 0;
    proof {
        assert(cs@.skip(0) =~= cs@);
    }
    while i <= cs.len() && m <= cs.len() - i
        invariant
            m == pl@.len(),
            m > 0,
            pl@ == pattern_lower@,
            i <= cs@.len(),
            out@ + ci_replaced(cs@.skip(i as int), pl@, rep@) == ci_replaced(cs@, pl@, rep@),
        decreases cs.len() - i,
    {
        let ghost rest = cs@.skip(i as int);
        let window = string_from_chars(&chars_between(&cs, i, i + m));
        let window_lower = to_lowercase(window.as_str());
        proof {
            assert(rest.take(m as int) =~= cs@.subrange(i as int, i + m));
        }
        if window_lower == pattern_lower {
            let ghost before = out@;
            push_all(&mut out, &rep);
            proof {
                assert(rest.skip(m as int) =~= cs@.skip(i + m));
                assert(before + (rep@ + ci_replaced(rest.skip(m as int), pl@, rep@)) =~= out@
                    + ci_replaced(rest.skip(m as int), pl@, rep@));
            }
            i = i + m;
        } else {
            let ghost before = out@;
            out.push(cs[i]);
            proof {
                assert(rest.drop_first() =~= cs@.skip(i + 1));
                assert(before + (seq![rest[0]] + ci_replaced(rest.drop_first(), pl@, rep@)) =~= out@
                    + ci_replaced(rest.drop_first(), pl@, rep@));
            }
            i = i + 1;
        }
    }
    let ghost before = out@;
    push_all(&mut out, &chars_between(&cs, i, cs.len()));
    proof {
        assert(cs@.subrange(i as int, cs@.len() as int) =~= cs@.skip(i as int));
    }
    string_from_chars(&out)
}

/// The replacement for the owner's full name.
pub open spec fn owner_mark() -> Seq<char> {
    "Omistaja"@
}

/// The replacement for the owner's first or last name alone.
pub open spec fn owner_partial_mark() -> Seq<char> {
    "Omistaja?"@
}

/// `a`, a space, then `b`.
pub open spec fn spaced(a: Seq<char>, b: Seq<char>) -> Seq<char> {
    a + seq![' '] + b
}

/// The replacement of the owner's names in running text: in this order,
/// every case-insensitive occurrence of the full name and of its reversal
/// becomes `Omistaja`, then every remaining occurrence of the first name and
/// of the last name becomes `Omistaja?`.
pub open spec fn owner_name_pass(
    text: Seq<char>,
    full: Seq<char>,
    reversed: Seq<char>,
    first: Seq<char>,
    last: Seq<char>,
) -> Seq<char> {
    let a = replace_ci_result(text, full, owner_mark());
    let b = replace_ci_result(a, reversed, owner_mark());
    let c = replace_ci_result(b, first, owner_partial_mark());
    replace_ci_result(c, last, owner_partial_mark())
}

/// The anonymized text: first every person-name tag is replaced (see
/// `tag_pass`), then the owner's names in the running text (see
/// [`owner_name_pass`]). `None` where a tag is not closed.
pub open spec fn anonymized(
    text: Seq<char>,
    full: Seq<char>,
    reversed: Seq<char>,
    first: Seq<char>,
    last: Seq<char>,
) -> Option<Seq<char>> {
    match tag_pass(text, full, first, last, seq![]) {
        Some((t, _)) => Some(owner_name_pass(t, full, reversed, first, last)),
        None => None,
    }
}

/// [`anonymized`] for an owner given by first and last name: the full name is
/// "first last", its reversal "last first".
pub open spec fn anonymize_result(text: Seq<char>, first: Seq<char>, last: Seq<char>) -> Option<
    Seq<char>,
> {
    anonymized(text, spaced(first, last), spaced(last, first), first, last)
}

/// `a`, a space, then `b`, as a new string.
fn join_with_space(a: &str, b: &str) -> (r: String)
    ensures
        r@ == spaced(a@, b@),
{
    let mut r = a.to_owned();
    r.append(" ");
    r.append(b);
    proof {
        reveal_strlit(" ");
        assert(r@ =~= spaced(a@, b@));
    }
    r
}

/// The four replacements of [`owner_name_pass`] on text whose tags are
/// already replaced.
fn replace_owner_names(text: &str, full: &str, reversed: &str, first: &str, last: &str) -> (r: String)
    ensures
        r@ == owner_name_pass(text@, full@, reversed@, first@, last@),
{
    let a = replace_ci(text, full, "Omistaja");
    let b = replace_ci(a.as_str(), reversed, "Omistaja");
    let c = replace_ci(b.as_str(), first, "Omistaja?");
    replace_ci(c.as_str(), last, "Omistaja?")
}

/// Whether every person-name tag in `text` is closed, so that
/// [`anonymize_for_owner`] can run on it.
pub fn can_anonymize_for_owner(text: &str, full: &str, reversed: &str, first: &str, last: &str) -> (r:
    bool)
    ensures
        r == anonymized(text@, full@, reversed@, first@, last@) is Some,
{
    replace_name_tags(text, full, first, last).is_some()
}

/// Anonymizes `text` for the owner whose full name is `full` (written in
/// reverse order as `reversed`), with first name `first` and last name
/// `last`. Each person-name tag `[NAME: ...]` is replaced: the owner's full
/// name becomes `Omistaja`, a name holding the owner's first or last name as
/// a whole word becomes `Omistaja?`, every other person `henkilö N`, numbered
/// by first appearance. Then, in the running text, the full name and its
/// reversal become `Omistaja` and the first or last name alone `Omistaja?`,
/// ignoring case. Every tag must be closed (see
/// [`can_anonymize_for_owner`]).
pub fn anonymize_for_owner(text: &str, full: &str, reversed: &str, first: &str, last: &str) -> (r:
    String)
    requires
        anonymized(text@, full@, reversed@, first@, last@) is Some,
    ensures
        anonymized(text@, full@, reversed@, first@, last@) == Some(r@),
        forall|k: int| !tag_at(r@, k),
{
    let tagged = match replace_name_tags(text, full, first, last) {
        Some(t) => t,
        None => {
            proof {
                assert(false);
            }
            String::new()
        },
    };
    let r = replace_owner_names(tagged.as_str(), full, reversed, first, last);
    proof {
        law_no_tag_is_left_in_anonymized(text@, full@, reversed@, first@, last@);
        assert(anonymized(text@, full@, reversed@, first@, last@)->0 == r@);
    }
    r
}

/// Whether every person-name tag in `text` is closed, so that [`anonymize`]
/// can run on it.
pub fn can_anonymize(text: &str, first: &str, last: &str) -> (r: bool)
    ensures
        r == anonymize_result(text@, first@, last@) is Some,
{
    let full = join_with_space(first, last);
    let reversed = join_with_space(last, first);
    can_anonymize_for_owner(text, full.as_str(), reversed.as_str(), first, last)
}

/// Replaces the owner's name in `text`, the owner's full name being
/// "first last": tags and running text as [`anonymize_for_owner`] says.
/// Every tag must be closed (see [`can_anonymize`] and [`try_anonymize`]).
pub fn anonymize(text: &str, owner_firstname: &str, owner_lastname: &str) -> (r: String)
    requires
        anonymize_result(text@, owner_firstname@, owner_lastname@) is Some,
    ensures
        anonymize_result(text@, owner_firstname@, owner_lastname@) == Some(r@),
        forall|k: int| !tag_at(r@, k),
{
    let full = join_with_space(owner_firstname, owner_lastname);
    let reversed = join_with_space(owner_lastname, owner_firstname);
    anonymize_for_owner(text, full.as_str(), reversed.as_str(), owner_firstname, owner_lastname)
}

/// [`anonymize`] where every person-name tag is closed; `None` where one is
/// not.
pub fn try_anonymize(text: &str, owner_firstname: &str, owner_lastname: &str) -> (r: Option<String>)
    ensures
        r matches Some(s) ==> anonymize_result(text@, owner_firstname@, owner_lastname@) == Some(s@),
        r is None ==> anonymize_result(text@, owner_firstname@, owner_lastname@) is None,
{
    if can_anonymize(text, owner_firstname, owner_lastname) {
        Some(anonymize(text, owner_firstname, owner_lastname))
    } else {
        None
    }
}

} // verus!

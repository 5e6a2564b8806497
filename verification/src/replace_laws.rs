//! Laws of the case-insensitive replacement and of the whole anonymization.
use vstd::prelude::*;

use crate::anonymize::{
    anonymized, ci_replaced, lowercase, owner_mark, owner_partial_mark, replace_ci_result,
};
use crate::tags::{law_no_tag_is_left, law_text_without_tags_is_unchanged, pass_text, tag_at, tag_opener, tag_pass};

verus! {

broadcast use vstd::seq::group_seq_axioms;

/// Whether the stretch of `text` that starts at `k` and is as long as `pl`
/// lowercases to `pl`.
pub open spec fn occurs_at(text: Seq<char>, pl: Seq<char>, k: int) -> bool {
    0 <= k && k + pl.len() <= text.len() && lowercase(text.subrange(k, k + pl.len())) == pl
}

/// Whether `pattern` occurs in `text`, ignoring case: some stretch of the
/// text lowercases to the lowercase form of the pattern.
pub open spec fn occurs_ignoring_case(text: Seq<char>, pattern: Seq<char>) -> bool {
    exists|k: int| #[trigger] occurs_at(text, lowercase(pattern), k)
}

/// Without a match anywhere, the scan copies the whole text.
proof fn lemma_replaced_without_match(text: Seq<char>, pl: Seq<char>, rep: Seq<char>)
    requires
        forall|k: int| !#[trigger] occurs_at(text, pl, k),
    ensures
        ci_replaced(text, pl, rep) == text,
    decreases text.len(),
{
    if pl.len() > 0 && text.len() >= pl.len() {
        assert(text.take(pl.len() as int) =~= text.subrange(0, pl.len() as int));
        assert(!occurs_at(text, pl, 0));
        let d = text.drop_first();
        assert forall|k: int| !#[trigger] occurs_at(d, pl, k) by {
            if occurs_at(d, pl, k) {
                assert(d.subrange(k, k + pl.len()) =~= text.subrange(k + 1, k + 1 + pl.len()));
                assert(occurs_at(text, pl, k + 1));
            }
        }
        lemma_replaced_without_match(d, pl, rep);
        assert(text =~= seq![text[0]] + d);
    }
}

/// A text in which the pattern does not occur, ignoring case, comes back
/// unchanged.
pub proof fn law_text_without_pattern_is_unchanged(text: Seq<char>, pattern: Seq<char>, replacement: Seq<char>)
    requires
        !occurs_ignoring_case(text, pattern),
    ensures
        replace_ci_result(text, pattern, replacement) == text,
{
    if pattern.len() > 0 {
        assert forall|k: int| !#[trigger] occurs_at(text, lowercase(pattern), k) by {
        }
        lemma_replaced_without_match(text, lowercase(pattern), replacement);
    }
}

/// A text without person-name tags that mentions none of the owner's names
/// (full, reversed, or first or last alone, in any case) comes back unchanged
/// from anonymization.
pub proof fn law_text_without_owner_names_is_unchanged(
    text: Seq<char>,
    full: Seq<char>,
    reversed: Seq<char>,
    first: Seq<char>,
    last: Seq<char>,
)
    requires
        forall|k: int| !tag_at(text, k),
        !occurs_ignoring_case(text, full),
        !occurs_ignoring_case(text, reversed),
        !occurs_ignoring_case(text, first),
        !occurs_ignoring_case(text, last),
    ensures
        anonymized(text, full, reversed, first, last) == Some(text),
{
    law_text_without_tags_is_unchanged(text, full, first, last, seq![]);
    law_text_without_pattern_is_unchanged(text, full, owner_mark());
    law_text_without_pattern_is_unchanged(text, reversed, owner_mark());
    law_text_without_pattern_is_unchanged(text, first, owner_partial_mark());
    law_text_without_pattern_is_unchanged(text, last, owner_partial_mark());
}

/// The letter case of the pattern does not change the result: only its
/// lowercase form is compared.
pub proof fn law_pattern_case_does_not_matter(
    text: Seq<char>,
    p1: Seq<char>,
    p2: Seq<char>,
    replacement: Seq<char>,
)
    requires
        p1.len() > 0,
        p2.len() > 0,
        lowercase(p1) == lowercase(p2),
    ensures
        replace_ci_result(text, p1, replacement) == replace_ci_result(text, p2, replacement),
{
}

/// The scan step by step, for texts of any length and a non-empty pattern
/// whose lowercase form `pl` is not empty:
/// - a text that begins with a stretch `q` lowercasing to `pl` has it
///   replaced, and the rest of the text is replaced in turn;
/// - a text at least as long as `pl` that does not begin so keeps its first
///   character, and the rest is replaced in turn;
/// - a text shorter than `pl` comes back as it is.
pub proof fn law_replacement_step(q: Seq<char>, b: Seq<char>, t: Seq<char>, p: Seq<char>, r: Seq<char>)
    requires
        p.len() > 0,
        lowercase(p).len() > 0,
    ensures
        q.len() == lowercase(p).len() && lowercase(q) == lowercase(p) ==> replace_ci_result(q + b, p, r)
            == r + replace_ci_result(b, p, r),
        t.len() >= lowercase(p).len() && lowercase(t.take(lowercase(p).len() as int)) != lowercase(p)
            ==> replace_ci_result(t, p, r) == seq![t[0]] + replace_ci_result(t.drop_first(), p, r),
        t.len() < lowercase(p).len() ==> replace_ci_result(t, p, r) == t,
{
    if q.len() == lowercase(p).len() && lowercase(q) == lowercase(p) {
        assert((q + b).take(q.len() as int) =~= q);
        assert((q + b).skip(q.len() as int) =~= b);
    }
}

/// Every occurrence is replaced, wherever it stands and however long the
/// text: a stretch `q` that lowercases to the lowercase pattern, between a
/// text `a` in which no stretch does and any text `b`, gives `a`, the
/// replacement, then `b` replaced.
pub proof fn law_every_occurrence_is_replaced(a: Seq<char>, q: Seq<char>, b: Seq<char>, p: Seq<char>, r: Seq<char>)
    requires
        p.len() > 0,
        lowercase(p).len() > 0,
        q.len() == lowercase(p).len(),
        lowercase(q) == lowercase(p),
        forall|k: int| 0 <= k < a.len() ==> !#[trigger] occurs_at(a + q + b, lowercase(p), k),
    ensures
        replace_ci_result(a + q + b, p, r) == a + r + replace_ci_result(b, p, r),
    decreases a.len(),
{
    let pl = lowercase(p);
    let t = a + q + b;
    if a.len() == 0 {
        assert(t =~= q + b);
        law_replacement_step(q, b, t, p, r);
        assert(a + r + replace_ci_result(b, p, r) =~= r + replace_ci_result(b, p, r));
    } else {
        assert(t.take(pl.len() as int) =~= t.subrange(0, pl.len() as int));
        assert(!occurs_at(t, pl, 0));
        let a2 = a.drop_first();
        let t2 = a2 + q + b;
        assert(t.drop_first() =~= t2);
        assert forall|k: int| 0 <= k < a2.len() implies !#[trigger] occurs_at(t2, pl, k) by {
            assert(t2.subrange(k, k + pl.len()) =~= t.subrange(k + 1, k + 1 + pl.len()));
            assert(!occurs_at(t, pl, k + 1));
        }
        law_every_occurrence_is_replaced(a2, q, b, p, r);
        law_replacement_step(q, b, t, p, r);
        assert(a + r + replace_ci_result(b, p, r) =~= seq![t[0]] + (a2 + r + replace_ci_result(b, p, r)));
    }
}

/// Where the replaced text begins with `w`, and no character of `w` is the
/// first character of the replacement, the text began with `w` too.
proof fn lemma_replaced_prefix(x: Seq<char>, w: Seq<char>, pl: Seq<char>, rep: Seq<char>)
    requires
        rep.len() > 0,
        forall|i: int| 0 <= i < w.len() ==> #[trigger] w[i] != rep[0],
        w.len() <= ci_replaced(x, pl, rep).len(),
        ci_replaced(x, pl, rep).take(w.len() as int) == w,
    ensures
        w.len() <= x.len(),
        x.take(w.len() as int) == w,
    decreases w.len(),
{
    let t = ci_replaced(x, pl, rep);
    if w.len() == 0 {
        assert(x.take(0) =~= w);
    } else if pl.len() == 0 || x.len() < pl.len() {
    } else {
        assert(t.take(w.len() as int)[0] == w[0]);
        if lowercase(x.take(pl.len() as int)) == pl {
            assert(t[0] == rep[0]);
            assert(false);
        } else {
            let t2 = ci_replaced(x.drop_first(), pl, rep);
            assert(t == seq![x[0]] + t2);
            assert(t2.take(w.len() - 1) =~= w.drop_first()) by {
                assert forall|i: int| 0 <= i < w.len() - 1 implies t2[i] == w.drop_first()[i] by {
                    assert(t[i + 1] == t2[i]);
                    assert(t.take(w.len() as int)[i + 1] == w[i + 1]);
                }
            }
            lemma_replaced_prefix(x.drop_first(), w.drop_first(), pl, rep);
            assert(x.take(w.len() as int) =~= seq![x[0]] + x.drop_first().take(w.len() - 1));
            assert(t.take(w.len() as int)[0] == t[0]);
            assert(w =~= seq![w[0]] + w.drop_first());
        }
    }
}

/// Replacing with a text that holds no `[` and does not begin with a letter
/// of `NAME:` puts no person-name tag into a text that had none.
proof fn lemma_replaced_keeps_no_tag(x: Seq<char>, pl: Seq<char>, rep: Seq<char>)
    requires
        forall|k: int| !tag_at(x, k),
        rep.len() > 0,
        rep[0] == 'O',
        forall|i: int| 0 <= i < rep.len() ==> #[trigger] rep[i] != '[',
    ensures
        forall|k: int| !tag_at(ci_replaced(x, pl, rep), k),
    decreases x.len(),
{
    reveal_strlit("[NAME:");
    assert(tag_opener() =~= seq!['[', 'N', 'A', 'M', 'E', ':']);
    let t = ci_replaced(x, pl, rep);
    if pl.len() == 0 || x.len() < pl.len() {
    } else if lowercase(x.take(pl.len() as int)) == pl {
        let y = x.skip(pl.len() as int);
        assert forall|k: int| !tag_at(y, k) by {
            if tag_at(y, k) {
                assert(x.subrange(k + pl.len(), k + pl.len() + 6) =~= y.subrange(k, k + 6));
                assert(tag_at(x, k + pl.len()));
            }
        }
        lemma_replaced_keeps_no_tag(y, pl, rep);
        let t2 = ci_replaced(y, pl, rep);
        assert(t == rep + t2);
        assert forall|k: int| !tag_at(t, k) by {
            if tag_at(t, k) {
                assert(t.subrange(k, k + 6)[0] == '[');
                if k < rep.len() {
                    assert(t[k] == rep[k]);
                } else {
                    assert(t2.subrange(k - rep.len(), k - rep.len() + 6) =~= t.subrange(k, k + 6));
                    assert(tag_at(t2, k - rep.len()));
                }
            }
        }
    } else {
        let y = x.drop_first();
        assert forall|k: int| !tag_at(y, k) by {
            if tag_at(y, k) {
                assert(x.subrange(k + 1, k + 7) =~= y.subrange(k, k + 6));
                assert(tag_at(x, k + 1));
            }
        }
        lemma_replaced_keeps_no_tag(y, pl, rep);
        let t2 = ci_replaced(y, pl, rep);
        assert(t == seq![x[0]] + t2);
        assert forall|k: int| !tag_at(t, k) by {
            if tag_at(t, k) {
                if k >= 1 {
                    assert(t2.subrange(k - 1, k + 5) =~= t.subrange(k, k + 6));
                    assert(tag_at(t2, k - 1));
                } else {
                    let w = seq!['N', 'A', 'M', 'E', ':'];
                    assert(t2.take(5) =~= w) by {
                        assert forall|i: int| 0 <= i < 5 implies t2[i] == w[i] by {
                            assert(t[i + 1] == t2[i]);
                            assert(t.subrange(0, 6)[i + 1] == tag_opener()[i + 1]);
                        }
                    }
                    lemma_replaced_prefix(y, w, pl, rep);
                    assert(x.take(6) =~= seq![x[0]] + y.take(5));
                    assert(t.subrange(0, 6)[0] == '[');
                    assert(x.subrange(0, 6) =~= tag_opener());
                    assert(tag_at(x, 0));
                }
            }
        }
    }
}

/// [`lemma_replaced_keeps_no_tag`] for one case-insensitive replacement by
/// `Omistaja` or `Omistaja?`.
proof fn lemma_mark_keeps_no_tag(x: Seq<char>, pattern: Seq<char>, rep: Seq<char>)
    requires
        forall|k: int| !tag_at(x, k),
        rep == owner_mark() || rep == owner_partial_mark(),
    ensures
        forall|k: int| !#[trigger] tag_at(replace_ci_result(x, pattern, rep), k),
{
    reveal_strlit("Omistaja");
    reveal_strlit("Omistaja?");
    assert(owner_mark() =~= seq!['O', 'm', 'i', 's', 't', 'a', 'j', 'a']);
    assert(owner_partial_mark() =~= seq!['O', 'm', 'i', 's', 't', 'a', 'j', 'a', '?']);
    assert forall|i: int| 0 <= i < rep.len() implies #[trigger] rep[i] != '[' by {
    }
    if pattern.len() > 0 {
        lemma_replaced_keeps_no_tag(x, lowercase(pattern), rep);
    }
}

/// No person-name tag is left in an anonymized text: the replacements of the
/// owner's names that follow the tag pass, `Omistaja` and `Omistaja?`, put
/// no `[NAME:` back.
pub proof fn law_no_tag_is_left_in_anonymized(
    text: Seq<char>,
    full: Seq<char>,
    reversed: Seq<char>,
    first: Seq<char>,
    last: Seq<char>,
)
    ensures
        anonymized(text, full, reversed, first, last) matches Some(t) ==> forall|k: int|
            !tag_at(t, k),
{
    if tag_pass(text, full, first, last, seq![]) is Some {
        law_no_tag_is_left(text, full, first, last, seq![]);
        let t0 = pass_text(tag_pass(text, full, first, last, seq![]));
        let a = replace_ci_result(t0, full, owner_mark());
        lemma_mark_keeps_no_tag(t0, full, owner_mark());
        let b = replace_ci_result(a, reversed, owner_mark());
        lemma_mark_keeps_no_tag(a, reversed, owner_mark());
        let c = replace_ci_result(b, first, owner_partial_mark());
        lemma_mark_keeps_no_tag(b, first, owner_partial_mark());
        lemma_mark_keeps_no_tag(c, last, owner_partial_mark());
    }
}

} // verus!

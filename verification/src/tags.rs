//! The person-name tags that the model writes into the recognised text,
//! `[NAME: Firstname Lastname]`, and their replacement: the owner becomes
//! `Omistaja`, a name sharing the owner's first or last name as a whole word
//! becomes `Omistaja?`, and every other person `henkilö N`, numbered by first
//! appearance.
use vstd::prelude::*;

use crate::anonymize::{lowercase, owner_mark, owner_partial_mark, to_lowercase};
use crate::pages::{chars_between, chars_of, decimal_value, string_from_chars};

verus! {

broadcast use vstd::seq::group_seq_axioms;

/// The opening of a person-name tag.
pub open spec fn tag_opener() -> Seq<char> {
    "[NAME:"@
}

/// The label of the `n`-th other person.
pub open spec fn person_label_prefix() -> Seq<char> {
    "henkilö "@
}

/// A character that separates words of a name.
pub open spec fn is_blank(c: char) -> bool {
    c == ' ' || c == '\t' || c == '\n' || c == '\r'
}

/// The offset of the first `]` in `s`, if there is one.
pub open spec fn close_offset(s: Seq<char>) -> Option<int>
    decreases s.len(),
{
    if s.len() == 0 {
        None
    } else if s[0] == ']' {
        Some(0)
    } else {
        match close_offset(s.drop_first()) {
            Some(k) => Some(k + 1),
            None => None,
        }
    }
}

/// `s` without its leading blanks.
pub open spec fn trim_start(s: Seq<char>) -> Seq<char>
    decreases s.len(),
{
    if s.len() > 0 && is_blank(s[0]) {
        trim_start(s.drop_first())
    } else {
        s
    }
}

/// `s` without its trailing blanks.
pub open spec fn trim_end(s: Seq<char>) -> Seq<char>
    decreases s.len(),
{
    if s.len() > 0 && is_blank(s.last()) {
        trim_end(s.drop_last())
    } else {
        s
    }
}

/// `s` without leading and trailing blanks.
pub open spec fn trimmed(s: Seq<char>) -> Seq<char> {
    trim_end(trim_start(s))
}

/// Whether `s[a..b]` is a word of `s`: a maximal run of non-blank characters.
pub open spec fn word_at(s: Seq<char>, a: int, b: int) -> bool {
    &&& 0 <= a < b <= s.len()
    &&& (a == 0 || is_blank(s[a - 1]))
    &&& (b == s.len() || is_blank(s[b]))
    &&& forall|m: int| a <= m < b ==> !is_blank(#[trigger] s[m])
}

/// Whether the name holds `token` as a whole word, ignoring case.
pub open spec fn has_word(name: Seq<char>, token: Seq<char>) -> bool {
    token.len() > 0 && exists|a: int, b: int|
        #[trigger] word_at(name, a, b) && lowercase(name.subrange(a, b)) == lowercase(token)
}

/// The position of the first occurrence of `key` in `seen`.
pub open spec fn key_position(seen: Seq<Seq<char>>, key: Seq<char>) -> Option<int>
    decreases seen.len(),
{
    if seen.len() == 0 {
        None
    } else if seen[0] == key {
        Some(0)
    } else {
        match key_position(seen.drop_first(), key) {
            Some(k) => Some(k + 1),
            None => None,
        }
    }
}

/// The decimal digit for a value below 10.
pub open spec fn digit_char(d: int) -> char {
    if d == 0 {
        '0'
    } else if d == 1 {
        '1'
    } else if d == 2 {
        '2'
    } else if d == 3 {
        '3'
    } else if d == 4 {
        '4'
    } else if d == 5 {
        '5'
    } else if d == 6 {
        '6'
    } else if d == 7 {
        '7'
    } else if d == 8 {
        '8'
    } else {
        '9'
    }
}

/// `n` in decimal.
pub open spec fn decimal(n: nat) -> Seq<char>
    decreases n,
{
    if n < 10 {
        seq![digit_char(n as int)]
    } else {
        decimal(n / 10) + seq![digit_char((n % 10) as int)]
    }
}

/// The label of the `n`-th other person: `henkilö n`.
pub open spec fn person_label(n: nat) -> Seq<char> {
    person_label_prefix() + decimal(n)
}

/// What a tag naming `name` becomes, and the list of other persons (by their
/// lowercase names, in order of first appearance) after it. The owner's full
/// name, in any case, becomes `Omistaja`; a name holding the owner's first or
/// last name as a whole word, in any case, becomes `Omistaja?`; any other
/// name becomes `henkilö N`, where N is its place in the list, the name being
/// added at the end the first time it appears.
pub open spec fn tag_replacement(
    name: Seq<char>,
    full: Seq<char>,
    first: Seq<char>,
    last: Seq<char>,
    seen: Seq<Seq<char>>,
) -> (Seq<char>, Seq<Seq<char>>) {
    if lowercase(name) == lowercase(full) {
        (owner_mark(), seen)
    } else if has_word(name, first) || has_word(name, last) {
        (owner_partial_mark(), seen)
    } else {
        match key_position(seen, lowercase(name)) {
            Some(k) => (person_label((k + 1) as nat), seen),
            None => (person_label(seen.len() + 1), seen.push(lowercase(name))),
        }
    }
}

/// `Some` of the pass with `prefix` written before its text, `None` where the
/// pass fails.
pub open spec fn prepend_text(prefix: Seq<char>, rest: Option<(Seq<char>, Seq<Seq<char>>)>) -> Option<
    (Seq<char>, Seq<Seq<char>>),
> {
    match rest {
        Some((t, s)) => Some((prefix + t, s)),
        None => None,
    }
}

/// The offset of the first `]`, where there is one, is in range.
pub proof fn lemma_close_in_range(s: Seq<char>)
    ensures
        close_offset(s) matches Some(k) ==> 0 <= k < s.len() && s[k] == ']',
    decreases s.len(),
{
    if s.len() > 0 && s[0] != ']' {
        lemma_close_in_range(s.drop_first());
    }
}

/// The tag pass over `s`: text outside tags is kept; each tag
/// `[NAME:` ... `]` (to the first `]` after the opener) is replaced as
/// [`tag_replacement`] says for its content without surrounding blanks.
/// `None` where a tag is opened and never closed.
pub open spec fn tag_pass(
    s: Seq<char>,
    full: Seq<char>,
    first: Seq<char>,
    last: Seq<char>,
    seen: Seq<Seq<char>>,
) -> Option<(Seq<char>, Seq<Seq<char>>)>
    decreases s.len(),
{
    if s.len() == 0 {
        Some((seq![], seen))
    } else if tag_opener().len() <= s.len() && s.take(tag_opener().len() as int) == tag_opener() {
        let body = s.skip(tag_opener().len() as int);
        match close_offset(body) {
            None => None,
            Some(k) => {
                proof {
                    lemma_close_in_range(body);
                }
                let (rep, seen2) = tag_replacement(trimmed(body.take(k)), full, first, last, seen);
                prepend_text(rep, tag_pass(body.skip(k + 1), full, first, last, seen2))
            },
        }
    } else {
        prepend_text(seq![s[0]], tag_pass(s.drop_first(), full, first, last, seen))
    }
}

/// The text of every string in a list.
pub open spec fn texts(v: Seq<String>) -> Seq<Seq<char>> {
    v.map_values(|s: String| s@)
}

proof fn lemma_close_first(s: Seq<char>, k: int)
    requires
        0 <= k < s.len(),
        s[k] == ']',
        forall|m: int| 0 <= m < k ==> s[m] != ']',
    ensures
        close_offset(s) == Some(k),
    decreases k,
{
    if k > 0 {
        assert forall|m: int| 0 <= m < k - 1 implies s.drop_first()[m] != ']' by {
            assert(s.drop_first()[m] == s[m + 1]);
        }
        lemma_close_first(s.drop_first(), k - 1);
    }
}

proof fn lemma_close_none(s: Seq<char>)
    requires
        forall|m: int| 0 <= m < s.len() ==> s[m] != ']',
    ensures
        close_offset(s) is None,
    decreases s.len(),
{
    if s.len() > 0 {
        assert forall|m: int| 0 <= m < s.drop_first().len() implies s.drop_first()[m] != ']' by {
            assert(s.drop_first()[m] == s[m + 1]);
        }
        lemma_close_none(s.drop_first());
    }
}

/// The index of the first `]` at or after `from`.
fn find_close(cs: &Vec<char>, from: usize) -> (r: Option<usize>)
    requires
        from <= cs@.len(),
    ensures
        match close_offset(cs@.skip(from as int)) {
            Some(k) => r == Some((from + k) as usize),
            None => r is None,
        },
        r matches Some(j) ==> from <= j < cs@.len(),
{
    let mut j = from;
    while j < cs.len()
        invariant
            from <= j <= cs@.len(),
            forall|m: int| from <= m < j ==> cs@[m] != ']',
        decreases cs.len() - j,
    {
        if cs[j] == ']' {
            proof {
                let s = cs@.skip(from as int);
                assert forall|m: int| 0 <= m < j - from implies s[m] != ']' by {
                    assert(s[m] == cs@[from + m]);
                }
                lemma_close_first(s, j - from);
            }
            return Some(j);
        }
        j += 1;
    }
    proof {
        let s = cs@.skip(from as int);
        assert forall|m: int| 0 <= m < s.len() implies s[m] != ']' by {
            assert(s[m] == cs@[from + m]);
        }
        lemma_close_none(s);
    }
    None
}

/// Whether `c` separates words.
fn blank(c: char) -> (r: bool)
    ensures
        r == is_blank(c),
{
    c == ' ' || c == '\t' || c == '\n' || c == '\r'
}

/// The bounds of `cs[from..to]` without its leading and trailing blanks.
fn trim_bounds(cs: &Vec<char>, from: usize, to: usize) -> (r: (usize, usize))
    requires
        from <= to <= cs@.len(),
    ensures
        from <= r.0 <= r.1 <= to,
        trimmed(cs@.subrange(from as int, to as int)) == cs@.subrange(r.0 as int, r.1 as int),
{
    let mut a = from;
    while a < to && blank(cs[a])
        invariant
            from <= a <= to <= cs@.len(),
            trim_start(cs@.subrange(from as int, to as int)) == trim_start(
                cs@.subrange(a as int, to as int),
            ),
        decreases to - a,
    {
        proof {
            assert(cs@.subrange(a as int, to as int).drop_first() =~= cs@.subrange(a + 1, to as int));
        }
        a += 1;
    }
    assert(trim_start(cs@.subrange(a as int, to as int)) == cs@.subrange(a as int, to as int));
    let mut b = to;
    while b > a && blank(cs[b - 1])
        invariant
            from <= a <= b <= to <= cs@.len(),
            trim_end(cs@.subrange(a as int, to as int)) == trim_end(cs@.subrange(a as int, b as int)),
        decreases b - a,
    {
        proof {
            assert(cs@.subrange(a as int, b as int).drop_last() =~= cs@.subrange(a as int, b - 1));
        }
        b -= 1;
    }
    assert(trim_end(cs@.subrange(a as int, b as int)) == cs@.subrange(a as int, b as int));
    (a, b)
}

/// Where `key` first occurs in `seen`.
fn key_index(seen: &Vec<String>, key: &String) -> (r: Option<usize>)
    ensures
        match key_position(texts(seen@), key@) {
            Some(k) => r == Some(k as usize),
            None => r is None,
        },
{
    let mut i: usize = 0;
    assert(texts(seen@).skip(0) =~= texts(seen@));
    while i < seen.len()
        invariant
            i <= seen@.len(),
            key_position(texts(seen@), key@) == match key_position(texts(seen@).skip(i as int), key@) {
                Some(k) => Some(k + i),
                None => None::<int>,
            },
        decreases seen.len() - i,
    {
        proof {
            let t = texts(seen@).skip(i as int);
            assert(t.drop_first() =~= texts(seen@).skip(i + 1));
            assert(t[0] == seen@[i as int]@);
        }
        if seen[i] == *key {
            return Some(i);
        }
        i += 1;
    }
    proof {
        assert(texts(seen@).skip(i as int).len() == 0);
    }
    None
}

/// Appends `n` in decimal.
fn push_decimal(out: &mut Vec<char>, n: usize)
    ensures
        final(out)@ == old(out)@ + decimal(n as nat),
    decreases n,
{
    if n >= 10 {
        push_decimal(out, n / 10);
    }
    let d = n % 10;
    let c = if d == 0 {
        '0'
    } else if d == 1 {
        '1'
    } else if d == 2 {
        '2'
    } else if d == 3 {
        '3'
    } else if d == 4 {
        '4'
    } else if d == 5 {
        '5'
    } else if d == 6 {
        '6'
    } else if d == 7 {
        '7'
    } else if d == 8 {
        '8'
    } else {
        '9'
    };
    out.push(c);
    proof {
        if n < 10 {
            assert(d == n);
        }
    }
}

/// Appends all of `src` to `dst`.
pub(crate) fn push_all(dst: &mut Vec<char>, src: &Vec<char>)
    ensures
        final(dst)@ == old(dst)@ + src@,
{
    let mut i: usize = 0;
    while i < src.len()
        invariant
            i <= src@.len(),
            dst@ == old(dst)@ + src@.take(i as int),
        decreases src.len() - i,
    {
        dst.push(src[i]);
        i += 1;
        assert(dst@ =~= old(dst)@ + src@.take(i as int));
    }
    assert(src@.take(i as int) =~= src@);
}

/// Whether the name holds `token` as a whole word, ignoring case;
/// `token_lower` is the lowercase form of `token`.
fn holds_word(name: &Vec<char>, token: &str, token_lower: &String) -> (r: bool)
    requires
        token_lower@ == lowercase(token@),
    ensures
        r == has_word(name@, token@),
{
    if token.is_empty() {
        return false;
    }
    let n = name.len();
    let mut i: usize = 0;
    while i < n
        invariant
            i <= n,
            n == name@.len(),
            token_lower@ == lowercase(token@),
            token@.len() > 0,
            i == 0 || i == n || is_blank(name@[i as int]) || is_blank(name@[i - 1]),
            forall|a: int, b: int|
                #[trigger] word_at(name@, a, b) && a < i ==> lowercase(name@.subrange(a, b))
                    != lowercase(token@),
        decreases n - i,
    {
        if blank(name[i]) {
            i += 1;
        } else {
            let mut j = i;
            while j < n && !blank(name[j])
                invariant
                    i <= j <= n,
                    n == name@.len(),
                    forall|m: int| i <= m < j ==> !is_blank(#[trigger] name@[m]),
                decreases n - j,
            {
                j += 1;
            }
            let word = string_from_chars(&chars_between(name, i, j));
            let word_lower = to_lowercase(word.as_str());
            proof {
                assert(word_at(name@, i as int, j as int));
            }
            if word_lower == *token_lower {
                return true;
            }
            proof {
                assert forall|a: int, b: int|
                    #[trigger] word_at(name@, a, b) && a < j implies lowercase(name@.subrange(a, b))
                        != lowercase(token@) by {
                    if a > i {
                        assert(!is_blank(name@[a - 1]));
                    } else if a == i {
                        if b < j {
                            assert(!is_blank(name@[b]));
                        } else if b > j {
                            assert(!is_blank(name@[j as int]));
                        }
                    }
                }
            }
            i = j;
        }
    }
    false
}

/// What the tag naming `name` becomes (see [`tag_replacement`]); `seen`
/// holds the other persons' lowercase names in order of first appearance.
fn replacement_for(
    name: &str,
    Ghost(full): Ghost<Seq<char>>,
    full_lower: &String,
    first: &str,
    first_lower: &String,
    last: &str,
    last_lower: &String,
    seen: &mut Vec<String>,
) -> (r: Vec<char>)
    requires
        full_lower@ == lowercase(full),
        first_lower@ == lowercase(first@),
        last_lower@ == lowercase(last@),
        old(seen)@.len() < usize::MAX,
    ensures
        (r@, texts(final(seen)@)) == tag_replacement(name@, full, first@, last@, texts(old(seen)@)),
        final(seen)@.len() <= old(seen)@.len() + 1,
{
    let name_lower = to_lowercase(name);
    if name_lower == *full_lower {
        return chars_of("Omistaja");
    }
    let name_chars = chars_of(name);
    if holds_word(&name_chars, first, first_lower) || holds_word(&name_chars, last, last_lower) {
        return chars_of("Omistaja?");
    }
    let mut label = chars_of("henkilö ");
    match key_index(seen, &name_lower) {
        Some(k) => {
            proof {
                lemma_key_in_range(texts(seen@), name_lower@);
            }
            push_decimal(&mut label, k + 1);
            label
        },
        None => {
            let n = seen.len();
            let ghost before = texts(seen@);
            seen.push(name_lower);
            proof {
                assert(texts(seen@) =~= before.push(lowercase(name@)));
            }
            push_decimal(&mut label, n + 1);
            label
        },
    }
}

proof fn lemma_key_in_range(seen: Seq<Seq<char>>, key: Seq<char>)
    ensures
        key_position(seen, key) matches Some(k) ==> 0 <= k < seen.len(),
    decreases seen.len(),
{
    if seen.len() > 0 && seen[0] != key {
        lemma_key_in_range(seen.drop_first(), key);
    }
}

/// The text with every person-name tag replaced (see [`tag_pass`]): `full`
/// is the owner's full name, `first` and `last` the owner's first and last
/// name. `None` where a tag is opened and never closed.
pub fn replace_name_tags(text: &str, full: &str, first: &str, last: &str) -> (r: Option<String>)
    ensures
        r is Some <==> tag_pass(text@, full@, first@, last@, seq![]) is Some,
        r matches Some(s) ==> s@ == pass_text(tag_pass(text@, full@, first@, last@, seq![])),
{
    let cs = chars_of(text);
    let tag = chars_of("[NAME:");
    let full_lower = to_lowercase(full);
    let first_lower = to_lowercase(first);
    let last_lower = to_lowercase(last);
    let mut out: Vec<char> = Vec::new();
    let mut seen: Vec<String> = Vec::new();
    let ghost target = tag_pass(cs@, full@, first@, last@, seq![]);
    let mut i: usize = 0;
    proof {
        assert(cs@.skip(0) =~= cs@);
        assert(texts(seen@) =~= Seq::<Seq<char>>::empty());
        assert(out@ + Seq::<char>::empty() =~= Seq::<char>::empty());
        assert(target == prepend_text(out@, tag_pass(cs@.skip(0), full@, first@, last@, texts(seen@))))
            by {
            if target is Some {
                assert(out@ + pass_text(target) =~= pass_text(target));
            }
        }
    }
    while i < cs.len()
        invariant
            i <= cs@.len(),
            cs@ == text@,
            tag@ == tag_opener(),
            full_lower@ == lowercase(full@),
            first_lower@ == lowercase(first@),
            last_lower@ == lowercase(last@),
            seen@.len() <= i,
            target == tag_pass(cs@, full@, first@, last@, seq![]),
            target == prepend_text(out@, tag_pass(cs@.skip(i as int), full@, first@, last@, texts(seen@))),
        decreases cs.len() - i,
    {
        let ghost rest = cs@.skip(i as int);
        let ghost old_out = out@;
        let ghost old_seen = texts(seen@);
        let opens = tag.len() <= cs.len() - i && starts_with_chars(&cs, i, &tag);
        if opens {
            let body_start = i + tag.len();
            proof {
                assert(rest.take(tag_opener().len() as int) =~= cs@.subrange(i as int, body_start as int));
                assert(rest.skip(tag_opener().len() as int) =~= cs@.skip(body_start as int));
            }
            match find_close(&cs, body_start) {
                None => {
                    return None;
                },
                Some(j) => {
                    let (a, b) = trim_bounds(&cs, body_start, j);
                    let name = string_from_chars(&chars_between(&cs, a, b));
                    let rep = replacement_for(
                        name.as_str(),
                        Ghost(full@),
                        &full_lower,
                        first,
                        &first_lower,
                        last,
                        &last_lower,
                        &mut seen,
                    );
                    push_all(&mut out, &rep);
                    proof {
                        let body = cs@.skip(body_start as int);
                        let k = j - body_start;
                        assert(body.take(k) =~= cs@.subrange(body_start as int, j as int));
                        assert(body.skip(k + 1) =~= cs@.skip(j + 1));
                        let tail = tag_pass(cs@.skip(j + 1), full@, first@, last@, texts(seen@));
                        assert(rest.len() > 0);
                        lemma_close_in_range(body);
                        assert(close_offset(body) == Some(k));
                        assert(trimmed(body.take(k)) == name@);
                        assert(tag_replacement(name@, full@, first@, last@, old_seen) == (rep@, texts(seen@)));
                        assert(tag_pass(rest, full@, first@, last@, old_seen) == prepend_text(rep@, tail));
                        if tail is Some {
                            assert(old_out + (rep@ + pass_text(tail)) =~= out@ + pass_text(tail));
                        }
                    }
                    i = j + 1;
                },
            }
        } else {
            proof {
                if tag_opener().len() <= rest.len() {
                    assert(rest.take(tag_opener().len() as int) =~= cs@.subrange(
                        i as int,
                        i + tag_opener().len(),
                    ));
                }
                assert(rest.drop_first() =~= cs@.skip(i + 1));
            }
            out.push(cs[i]);
            proof {
                let tail = tag_pass(cs@.skip(i + 1), full@, first@, last@, texts(seen@));
                if tail is Some {
                    assert(old_out + (seq![cs@[i as int]] + pass_text(tail)) =~= out@ + pass_text(tail));
                }
            }
            i += 1;
        }
    }
    proof {
        assert(cs@.skip(i as int) =~= Seq::<char>::empty());
        assert(out@ + Seq::<char>::empty() =~= out@);
    }
    Some(string_from_chars(&out))
}

/// Whether a tag opener starts at position `k` of `s`.
pub open spec fn tag_at(s: Seq<char>, k: int) -> bool {
    0 <= k && k + tag_opener().len() <= s.len() && s.subrange(k, k + tag_opener().len())
        == tag_opener()
}

/// A text without any person-name tag passes the tag pass unchanged, and
/// the list of other persons stays as it was.
pub proof fn law_text_without_tags_is_unchanged(
    s: Seq<char>,
    full: Seq<char>,
    first: Seq<char>,
    last: Seq<char>,
    seen: Seq<Seq<char>>,
)
    requires
        forall|k: int| !tag_at(s, k),
    ensures
        tag_pass(s, full, first, last, seen) == Some((s, seen)),
    decreases s.len(),
{
    if s.len() > 0 {
        if tag_opener().len() <= s.len() && s.take(tag_opener().len() as int) == tag_opener() {
            assert(s.subrange(0, tag_opener().len() as int) =~= s.take(tag_opener().len() as int));
            assert(tag_at(s, 0));
        }
        let d = s.drop_first();
        assert forall|k: int| !tag_at(d, k) by {
            if tag_at(d, k) {
                assert(s.subrange(k + 1, k + 1 + tag_opener().len()) =~= d.subrange(
                    k,
                    k + tag_opener().len(),
                ));
                assert(tag_at(s, k + 1));
            }
        }
        law_text_without_tags_is_unchanged(d, full, first, last, seen);
        assert(seq![s[0]] + d =~= s);
    }
}

proof fn lemma_decimal_digits(n: nat)
    ensures
        decimal(n).len() > 0,
        forall|i: int| 0 <= i < decimal(n).len() ==> '0' <= #[trigger] decimal(n)[i] <= '9',
    decreases n,
{
    if n >= 10 {
        lemma_decimal_digits(n / 10);
    }
}

proof fn lemma_opener_chars()
    ensures
        tag_opener() == seq!['[', 'N', 'A', 'M', 'E', ':'],
{
    reveal_strlit("[NAME:");
    assert(tag_opener() =~= seq!['[', 'N', 'A', 'M', 'E', ':']);
}

/// A replacement is not empty, begins with `O` or `h`, and holds no `[`.
proof fn lemma_replacement_shape(
    name: Seq<char>,
    full: Seq<char>,
    first: Seq<char>,
    last: Seq<char>,
    seen: Seq<Seq<char>>,
)
    ensures
        ({
            let rep = tag_replacement(name, full, first, last, seen).0;
            &&& rep.len() > 0
            &&& (rep[0] == 'O' || rep[0] == 'h')
            &&& forall|i: int| 0 <= i < rep.len() ==> #[trigger] rep[i] != '['
        }),
{
    reveal_strlit("Omistaja");
    reveal_strlit("Omistaja?");
    reveal_strlit("henkilö ");
    assert(owner_mark() =~= seq!['O', 'm', 'i', 's', 't', 'a', 'j', 'a']);
    assert(owner_partial_mark() =~= seq!['O', 'm', 'i', 's', 't', 'a', 'j', 'a', '?']);
    assert(person_label_prefix() =~= seq!['h', 'e', 'n', 'k', 'i', 'l', 'ö', ' ']);
    let rep = tag_replacement(name, full, first, last, seen).0;
    if !(lowercase(name) == lowercase(full)) && !(has_word(name, first) || has_word(name, last)) {
        let n: nat = match key_position(seen, lowercase(name)) {
            Some(k) => (k + 1) as nat,
            None => seen.len() + 1,
        };
        lemma_decimal_digits(n);
        assert(rep == person_label_prefix() + decimal(n));
        assert forall|i: int| 0 <= i < rep.len() implies #[trigger] rep[i] != '[' by {
            if i >= 8 {
                assert(rep[i] == decimal(n)[i - 8]);
            }
        }
    }
}

/// Where the pass's text begins with `w`, a word free of `[`, `O` and `h`,
/// the input began with `w` too: such characters only come from the input.
proof fn lemma_output_prefix(
    x: Seq<char>,
    w: Seq<char>,
    full: Seq<char>,
    first: Seq<char>,
    last: Seq<char>,
    seen: Seq<Seq<char>>,
)
    requires
        forall|i: int| 0 <= i < w.len() ==> #[trigger] w[i] != '[' && w[i] != 'O' && w[i] != 'h',
        tag_pass(x, full, first, last, seen) is Some,
        w.len() <= pass_text(tag_pass(x, full, first, last, seen)).len(),
        pass_text(tag_pass(x, full, first, last, seen)).take(w.len() as int) == w,
    ensures
        w.len() <= x.len(),
        x.take(w.len() as int) == w,
    decreases w.len(),
{
    let t = pass_text(tag_pass(x, full, first, last, seen));
    if w.len() == 0 {
        assert(x.take(0) =~= w);
    } else {
        assert(t[0] == w[0]);
        if x.len() == 0 {
            assert(false);
        } else if tag_opener().len() <= x.len() && x.take(tag_opener().len() as int) == tag_opener() {
            let body = x.skip(tag_opener().len() as int);
            lemma_close_in_range(body);
            let k = close_offset(body)->0;
            lemma_replacement_shape(trimmed(body.take(k)), full, first, last, seen);
            assert(t[0] == tag_replacement(trimmed(body.take(k)), full, first, last, seen).0[0]);
            assert(false);
        } else {
            let t2 = pass_text(tag_pass(x.drop_first(), full, first, last, seen));
            assert(t == seq![x[0]] + t2);
            assert(t2.take(w.len() - 1) =~= w.drop_first()) by {
                assert forall|i: int| 0 <= i < w.len() - 1 implies t2[i] == w.drop_first()[i] by {
                    assert(t[i + 1] == t2[i]);
                    assert(t.take(w.len() as int)[i + 1] == w[i + 1]);
                }
            }
            lemma_output_prefix(x.drop_first(), w.drop_first(), full, first, last, seen);
            assert(x.take(w.len() as int) =~= seq![x[0]] + x.drop_first().take(w.len() - 1));
            assert(w =~= seq![w[0]] + w.drop_first());
        }
    }
}

/// No person-name tag is left behind: the text that the tag pass gives holds
/// no `[NAME:` anywhere.
pub proof fn law_no_tag_is_left(
    s: Seq<char>,
    full: Seq<char>,
    first: Seq<char>,
    last: Seq<char>,
    seen: Seq<Seq<char>>,
)
    requires
        tag_pass(s, full, first, last, seen) is Some,
    ensures
        forall|k: int| !tag_at(pass_text(tag_pass(s, full, first, last, seen)), k),
    decreases s.len(),
{
    lemma_opener_chars();
    let t = pass_text(tag_pass(s, full, first, last, seen));
    if s.len() == 0 {
    } else if tag_opener().len() <= s.len() && s.take(tag_opener().len() as int) == tag_opener() {
        let body = s.skip(tag_opener().len() as int);
        lemma_close_in_range(body);
        let k0 = close_offset(body)->0;
        let r = tag_replacement(trimmed(body.take(k0)), full, first, last, seen);
        let rep = r.0;
        lemma_replacement_shape(trimmed(body.take(k0)), full, first, last, seen);
        law_no_tag_is_left(body.skip(k0 + 1), full, first, last, r.1);
        let t2 = pass_text(tag_pass(body.skip(k0 + 1), full, first, last, r.1));
        assert(t == rep + t2);
        assert forall|k: int| !tag_at(t, k) by {
            if tag_at(t, k) {
                assert(t.subrange(k, k + 6)[0] == '[');
                if k < rep.len() {
                    assert(t[k] == rep[k]);
                } else {
                    assert(t2.subrange(k - rep.len(), k - rep.len() + 6) =~= t.subrange(k, k + 6));
                    assert(tag_at(t2, k - rep.len()));
                }
            }
        }
    } else {
        let t2 = pass_text(tag_pass(s.drop_first(), full, first, last, seen));
        law_no_tag_is_left(s.drop_first(), full, first, last, seen);
        assert(t == seq![s[0]] + t2);
        assert forall|k: int| !tag_at(t, k) by {
            if tag_at(t, k) {
                if k >= 1 {
                    assert(t2.subrange(k - 1, k + 5) =~= t.subrange(k, k + 6));
                    assert(tag_at(t2, k - 1));
                } else {
                    let w = seq!['N', 'A', 'M', 'E', ':'];
                    assert(t2.take(5) =~= w) by {
                        assert forall|i: int| 0 <= i < 5 implies t2[i] == w[i] by {
                            assert(t[i + 1] == t2[i]);
                            assert(t.subrange(0, 6)[i + 1] == tag_opener()[i + 1]);
                        }
                    }
                    lemma_output_prefix(s.drop_first(), w, full, first, last, seen);
                    assert(s.take(6) =~= seq![s[0]] + s.drop_first().take(5));
                    assert(s[0] == t[0]);
                    assert(t.subrange(0, 6)[0] == '[');
                    assert(s.take(6) =~= tag_opener());
                }
            }
        }
    }
}

proof fn lemma_key_found(seen: Seq<Seq<char>>, key: Seq<char>)
    ensures
        key_position(seen, key) matches Some(k) ==> 0 <= k < seen.len() && seen[k] == key,
        key_position(seen, key) is None <==> !seen.contains(key),
    decreases seen.len(),
{
    if seen.len() > 0 {
        lemma_key_found(seen.drop_first(), key);
        if seen[0] != key && seen.contains(key) {
            let j = choose|j: int| 0 <= j < seen.len() && seen[j] == key;
            assert(seen.drop_first()[j - 1] == key);
        }
        if key_position(seen.drop_first(), key) is Some {
            let k = key_position(seen.drop_first(), key)->0;
            assert(seen[k + 1] == seen.drop_first()[k]);
        }
    }
}

/// Numbering of other persons: a person already listed keeps the number of
/// their first appearance and the list stays as it is; a new person gets the
/// next number and joins the end of the list.
pub proof fn law_persons_numbered_by_first_appearance(
    name: Seq<char>,
    full: Seq<char>,
    first: Seq<char>,
    last: Seq<char>,
    seen: Seq<Seq<char>>,
)
    requires
        lowercase(name) != lowercase(full),
        !has_word(name, first),
        !has_word(name, last),
    ensures
        seen.contains(lowercase(name)) ==> exists|k: int|
            0 <= k < seen.len() && seen[k] == lowercase(name) && tag_replacement(
                name,
                full,
                first,
                last,
                seen,
            ) == (person_label((k + 1) as nat), seen),
        !seen.contains(lowercase(name)) ==> tag_replacement(name, full, first, last, seen) == (
            person_label(seen.len() + 1),
            seen.push(lowercase(name)),
        ),
{
    lemma_key_found(seen, lowercase(name));
    if seen.contains(lowercase(name)) {
        let k = key_position(seen, lowercase(name))->0;
        assert(0 <= k < seen.len() && seen[k] == lowercase(name));
    }
}

/// The numeral of `n` is written with the digits `0` to `9` only, begins
/// with `0` only where `n` is zero, and reads back as `n`.
pub proof fn law_decimal_reads_back(n: nat)
    ensures
        decimal(n).len() > 0,
        forall|i: int| 0 <= i < decimal(n).len() ==> '0' <= #[trigger] decimal(n)[i] <= '9',
        n > 0 ==> decimal(n)[0] != '0',
        decimal_value(decimal(n)) == n,
    decreases n,
{
    lemma_decimal_digits(n);
    let d = (n % 10) as int;
    assert((digit_char(d) as u32) - ('0' as u32) == d) by {
        assert(0 <= d < 10);
    }
    if n >= 10 {
        law_decimal_reads_back(n / 10);
        let s = decimal(n);
        assert(s.drop_last() =~= decimal(n / 10));
        assert(s[0] == decimal(n / 10)[0]);
        assert(s.last() == digit_char(d));
        assert(decimal_value(s) == decimal_value(decimal(n / 10)) * 10 + d);
        assert(n == (n / 10) * 10 + n % 10);
    } else {
        let s = decimal(n);
        assert(s.drop_last() =~= Seq::<char>::empty());
        assert(s.last() == digit_char(d));
        assert(decimal_value(s) == decimal_value(s.drop_last()) * 10 + d);
    }
}

/// Different persons get different labels: the label of the `n`-th person
/// names `n` and no other number.
pub proof fn law_person_labels_are_distinct(n: nat, m: nat)
    ensures
        person_label(n) == person_label(m) ==> n == m,
{
    if person_label(n) == person_label(m) {
        law_decimal_reads_back(n);
        law_decimal_reads_back(m);
        assert(decimal(n) =~= person_label(n).skip(person_label_prefix().len() as int));
        assert(decimal(m) =~= person_label(m).skip(person_label_prefix().len() as int));
    }
}

/// A word counts wherever it stands in the name: first, last, or alone.
/// `u` and `w` are words (not empty, no blanks).
pub proof fn law_word_anywhere_in_name(u: Seq<char>, w: Seq<char>)
    requires
        u.len() > 0,
        w.len() > 0,
        forall|i: int| 0 <= i < u.len() ==> !is_blank(#[trigger] u[i]),
        forall|i: int| 0 <= i < w.len() ==> !is_blank(#[trigger] w[i]),
    ensures
        has_word(w, w),
        has_word(u + seq![' '] + w, w),
        has_word(w + seq![' '] + u, w),
{
    assert(word_at(w, 0, w.len() as int));
    assert(w.subrange(0, w.len() as int) =~= w);
    let s1 = u + seq![' '] + w;
    let a1: int = (u.len() + 1) as int;
    assert forall|m: int| a1 <= m < s1.len() implies !is_blank(#[trigger] s1[m]) by {
        assert(s1[m] == w[m - a1]);
    }
    assert(word_at(s1, a1, s1.len() as int));
    assert(s1.subrange(a1, s1.len() as int) =~= w);
    let s2 = w + seq![' '] + u;
    assert forall|m: int| 0 <= m < w.len() implies !is_blank(#[trigger] s2[m]) by {
        assert(s2[m] == w[m]);
    }
    assert(word_at(s2, 0, w.len() as int));
    assert(s2.subrange(0, w.len() as int) =~= w);
}

/// A tagged name whose first or last word is the owner's first or last name
/// becomes `Omistaja?`, unless it is the owner's full name; the list of other
/// persons stays as it was. `u` is the name's other word.
pub proof fn law_owner_word_gives_partial_mark(
    u: Seq<char>,
    full: Seq<char>,
    first: Seq<char>,
    last: Seq<char>,
    seen: Seq<Seq<char>>,
)
    requires
        u.len() > 0,
        first.len() > 0,
        last.len() > 0,
        forall|i: int| 0 <= i < u.len() ==> !is_blank(#[trigger] u[i]),
        forall|i: int| 0 <= i < first.len() ==> !is_blank(#[trigger] first[i]),
        forall|i: int| 0 <= i < last.len() ==> !is_blank(#[trigger] last[i]),
    ensures
        lowercase(u + seq![' '] + last) != lowercase(full) ==> tag_replacement(
            u + seq![' '] + last,
            full,
            first,
            last,
            seen,
        ) == (owner_partial_mark(), seen),
        lowercase(first + seq![' '] + u) != lowercase(full) ==> tag_replacement(
            first + seq![' '] + u,
            full,
            first,
            last,
            seen,
        ) == (owner_partial_mark(), seen),
        lowercase(u + seq![' '] + first) != lowercase(full) ==> tag_replacement(
            u + seq![' '] + first,
            full,
            first,
            last,
            seen,
        ) == (owner_partial_mark(), seen),
        lowercase(last + seq![' '] + u) != lowercase(full) ==> tag_replacement(
            last + seq![' '] + u,
            full,
            first,
            last,
            seen,
        ) == (owner_partial_mark(), seen),
{
    law_word_anywhere_in_name(u, last);
    law_word_anywhere_in_name(u, first);
}

/// The text that a successful pass gives.
pub open spec fn pass_text(o: Option<(Seq<char>, Seq<Seq<char>>)>) -> Seq<char> {
    match o {
        Some((t, _)) => t,
        None => Seq::<char>::empty(),
    }
}

/// Whether `cs[at..]` begins with `prefix`.
fn starts_with_chars(cs: &Vec<char>, at: usize, prefix: &Vec<char>) -> (r: bool)
    requires
        at + prefix@.len() <= cs@.len(),
    ensures
        r == (cs@.subrange(at as int, at + prefix@.len()) == prefix@),
{
    let mut k: usize = 0;
    while k < prefix.len()
        invariant
            k <= prefix@.len(),
            at + prefix@.len() <= cs.len(),
            forall|m: int| 0 <= m < k ==> cs@[at + m] == prefix@[m],
        decreases prefix.len() - k,
    {
        if cs[at + k] != prefix[k] {
            assert(cs@.subrange(at as int, at + prefix@.len())[k as int] != prefix@[k as int]);
            return false;
        }
        k += 1;
    }
    assert(cs@.subrange(at as int, at + prefix@.len()) =~= prefix@);
    true
}

} // verus!

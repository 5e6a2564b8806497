use vstd::prelude::*;

use crate::tags::{decimal, law_decimal_reads_back};
use crate::paths::{
    extension, file_stem, joined_path, path_extension, path_file_stem, path_has_prefix, path_join,
    path_starts_with,
};

verus! {

/// Whether `..` occurs anywhere in `name`.
pub open spec fn has_double_dot(name: Seq<char>) -> bool {
    exists|i: int| 0 <= i && i + 1 < name.len() && name[i] == '.' && #[trigger] name[i + 1] == '.'
}

/// What `validate_filename` accepts: a bare, non-empty file name that is not
/// `.`, holds no `..` anywhere, and no `/`, `\` or NUL character.
pub open spec fn is_valid_filename(name: Seq<char>) -> bool {
    &&& name.len() != 0
    &&& name != seq!['.']
    &&& !has_double_dot(name)
    &&& !name.contains('/')
    &&& !name.contains('\\')
    &&& !name.contains('\0')
}

/// Collects the characters of a string into a vector.
pub fn chars_of(s: &str) -> (r: Vec<char>)
    ensures
        r@ == s@,
{
    let mut r: Vec<char> = Vec::new();
    for c in it: s.chars()
        invariant
            r@ == it.seq().take(it.index() as int),
            it.seq() == s@,
    {
        r.push(c);
    }
    r
}

/// The characters `v[from..to]` as a new vector.
pub fn chars_between(v: &Vec<char>, from: usize, to: usize) -> (r: Vec<char>)
    requires
        from <= to <= v@.len(),
    ensures
        r@ == v@.subrange(from as int, to as int),
{
    let mut r: Vec<char> = Vec::new();
    let mut i = from;
    while i < to
        invariant
            from <= i <= to <= v@.len(),
            r@ == v@.subrange(from as int, i as int),
        decreases to - i,
    {
        r.push(v[i]);
        i += 1;
        assert(r@ =~= v@.subrange(from as int, i as int));
    }
    r
}

/// Collects characters into a `String` with `String::from_iter`, which keeps
/// them in order.
#[verifier::external_body]
pub fn string_from_chars(v: &Vec<char>) -> (r: String)
    ensures
        r@ == v@,
{
    v.iter().collect()
}

/// Whether `c` occurs in `v`.
pub fn has_char(v: &Vec<char>, c: char) -> (r: bool)
    ensures
        r == v@.contains(c),
{
    let mut i: usize = 0;
    while i < v.len()
        invariant
            i <= v.len(),
            forall|j: int| 0 <= j < i ==> v@[j] != c,
        decreases v.len() - i,
    {
        if v[i] == c {
            return true;
        }
        i += 1;
    }
    false
}

/// Whether two dots follow each other somewhere in `v`.
pub fn find_double_dot(v: &Vec<char>) -> (r: bool)
    ensures
        r == has_double_dot(v@),
{
    let mut i: usize = 0;
    while i < v.len() && i + 1 < v.len()
        invariant
            i <= v@.len(),
            forall|j: int| 0 <= j < i && j + 1 < v@.len() ==> !(v@[j] == '.' && #[trigger] v@[j + 1] == '.'),
        decreases v.len() - i,
    {
        if v[i] == '.' && v[i + 1] == '.' {
            return true;
        }
        i += 1;
    }
    proof {
        assert forall|j: int| 0 <= j && j + 1 < v@.len() && v@[j] == '.' implies #[trigger] v@[j + 1] != '.' by {
        }
    }
    false
}

/// Accepts a bare file name: rejects the empty name, `.`, any name holding
/// `..` (so `..` itself and every traversal), and any name holding a path
/// separator (`/` or `\`) or a NUL character.
pub fn validate_filename(name: &str) -> (ok: bool)
    ensures
        ok == is_valid_filename(name@),
{
    let cs = chars_of(name);
    if cs.len() == 0 {
        return false;
    }
    if cs.len() == 1 && cs[0] == '.' {
        assert(cs@ =~= seq!['.']);
        return false;
    }
    assert(cs@ != seq!['.']) by {
        if cs@ == seq!['.'] { assert(cs@[0] == '.'); }
    }
    !find_double_dot(&cs) && !has_char(&cs, '/') && !has_char(&cs, '\\') && !has_char(&cs, '\0')
}

/// An ASCII decimal digit.
pub open spec fn is_digit(c: char) -> bool {
    '0' <= c <= '9'
}

/// The value of a string of decimal digits.
pub open spec fn decimal_value(d: Seq<char>) -> int
    decreases d.len(),
{
    if d.len() == 0 {
        0
    } else {
        decimal_value(d.drop_last()) * 10 + (d.last() as u32 - '0' as u32)
    }
}

/// The digits of an unsigned number: the text without one leading `+`.
pub open spec fn unsigned_digits(s: Seq<char>) -> Seq<char> {
    if s.len() > 0 && s[0] == '+' {
        s.drop_first()
    } else {
        s
    }
}

/// What `str::parse::<u32>` gives: the value of an optional `+` followed by
/// one or more decimal digits, where it fits in a `u32`.
pub open spec fn parsed_u32(s: Seq<char>) -> Option<u32> {
    let d = unsigned_digits(s);
    if d.len() > 0 && (forall|i: int| 0 <= i < d.len() ==> is_digit(#[trigger] d[i])) && decimal_value(
        d,
    ) <= u32::MAX {
        Some(decimal_value(d) as u32)
    } else {
        None
    }
}

proof fn lemma_decimal_prefix(d: Seq<char>, k: int)
    requires
        0 <= k <= d.len(),
        forall|i: int| 0 <= i < d.len() ==> is_digit(#[trigger] d[i]),
    ensures
        0 <= decimal_value(d.take(k)) <= decimal_value(d),
    decreases d.len(),
{
    if k == d.len() {
        assert(d.take(k) =~= d);
        if d.len() > 0 {
            lemma_decimal_prefix(d.drop_last(), k - 1);
        }
    } else {
        assert(d.drop_last().take(k) =~= d.take(k));
        lemma_decimal_prefix(d.drop_last(), k);
        assert(is_digit(d[d.len() - 1]));
    }
}

/// Every run of decimal digits whose value fits in a `u32` parses to that
/// value, with or without a leading `+`; in particular the numeral of every
/// `u32` parses back to it.
pub proof fn law_digits_parse_to_their_value(d: Seq<char>, n: u32)
    ensures
        (d.len() > 0 && (forall|i: int| 0 <= i < d.len() ==> '0' <= #[trigger] d[i] <= '9')
            && decimal_value(d) <= u32::MAX) ==> parsed_u32(d) == Some(decimal_value(d) as u32)
            && parsed_u32(seq!['+'] + d) == Some(decimal_value(d) as u32),
        parsed_u32(decimal(n as nat)) == Some(n),
{
    assert((seq!['+'] + d).drop_first() =~= d);
    law_decimal_reads_back(n as nat);
    let s = decimal(n as nat);
    assert(is_digit(s[0]));
    assert(unsigned_digits(s) == s);
}

/// What [`validate_filename`] accepts, stated character by character: every
/// non-empty name other than `.` in which no two dots follow each other and
/// no `/`, `\` or NUL occurs is valid.
pub proof fn law_plain_names_are_accepted(name: Seq<char>)
    requires
        name.len() > 0,
        name != seq!['.'],
        forall|i: int| 0 <= i < name.len() ==> #[trigger] name[i] != '/' && name[i] != '\\' && name[i] != '\0',
        forall|i: int| 0 <= i && i + 1 < name.len() ==> !(name[i] == '.' && #[trigger] name[i + 1] == '.'),
    ensures
        is_valid_filename(name),
{
    assert(!name.contains('/'));
    assert(!name.contains('\\'));
    assert(!name.contains('\0'));
}

/// Parses `cs[start..]` as `str::parse::<u32>` does.
pub fn parse_u32_from(cs: &Vec<char>, start: usize) -> (r: Option<u32>)
    requires
        start <= cs@.len(),
    ensures
        r == parsed_u32(cs@.skip(start as int)),
{
    let ghost s = cs@.skip(start as int);
    let mut i = start;
    if i < cs.len() && cs[i] == '+' {
        i += 1;
    }
    let ghost d = unsigned_digits(s);
    assert(d =~= cs@.skip(i as int));
    if i == cs.len() {
        return None;
    }
    let mut acc: u32 = 0;
    let d0 = i;
    while i < cs.len()
        invariant
            d0 <= i <= cs@.len(),
            d =~= cs@.skip(d0 as int),
            d == unsigned_digits(s),
            s == cs@.skip(start as int),
            d.len() > 0,
            forall|j: int| 0 <= j < i - d0 ==> is_digit(#[trigger] d[j]),
            acc as int == decimal_value(d.take(i - d0)),
        decreases cs.len() - i,
    {
        let c = cs[i];
        if !('0' <= c && c <= '9') {
            assert(!is_digit(d[i - d0]));
            return None;
        }
        let digit = (c as u32) - ('0' as u32);
        proof {
            assert(d.take(i + 1 - d0).drop_last() =~= d.take(i - d0));
        }
        if acc > (u32::MAX - digit) / 10 {
            proof {
                assert(decimal_value(d.take(i + 1 - d0)) > u32::MAX);
                if forall|j: int| 0 <= j < d.len() ==> is_digit(#[trigger] d[j]) {
                    lemma_decimal_prefix(d, i + 1 - d0);
                }
            }
            return None;
        }
        acc = acc * 10 + digit;
        i += 1;
    }
    assert(d.take(i - d0) =~= d);
    Some(acc)
}

/// The text after the last `-`, or all of it where it holds no `-`; what
/// `rsplit('-').next()` gives.
pub open spec fn after_last_dash(s: Seq<char>) -> Seq<char>
    decreases s.len(),
{
    if s.len() == 0 {
        s
    } else if s.last() == '-' {
        Seq::<char>::empty()
    } else {
        after_last_dash(s.drop_last()).push(s.last())
    }
}

/// The offset in `cs` after its last `-` (0 where there is none).
fn last_dash_cut(cs: &Vec<char>) -> (j: usize)
    ensures
        j <= cs@.len(),
        after_last_dash(cs@) == cs@.skip(j as int),
{
    let mut j = cs.len();
    proof {
        assert(cs@.take(j as int) =~= cs@);
    }
    while j > 0 && cs[j - 1] != '-'
        invariant
            j <= cs@.len(),
            after_last_dash(cs@) == after_last_dash(cs@.take(j as int)) + cs@.skip(j as int),
        decreases j,
    {
        proof {
            let t = cs@.take(j as int);
            assert(t.drop_last() =~= cs@.take(j - 1));
            assert(after_last_dash(t) == after_last_dash(cs@.take(j - 1)).push(cs@[j - 1]));
            assert(after_last_dash(cs@.take(j - 1)).push(cs@[j - 1]) + cs@.skip(j as int)
                =~= after_last_dash(cs@.take(j - 1)) + cs@.skip(j - 1));
        }
        j -= 1;
    }
    proof {
        if j > 0 {
            assert(cs@.take(j as int).last() == '-');
        }
        assert(after_last_dash(cs@.take(j as int)) =~= Seq::<char>::empty());
        assert(Seq::<char>::empty() + cs@.skip(j as int) =~= cs@.skip(j as int));
    }
    j
}

/// A page image's number: the part of its file stem after the last `-`, read
/// as a `u32`; `None` where the path has no stem or that part is no number.
pub open spec fn page_number_of(path: Seq<char>) -> Option<u32> {
    match file_stem(path) {
        Some(stem) => parsed_u32(after_last_dash(stem)),
        None => None,
    }
}

/// The number of a page image, from a name such as `page-12.png`.
pub fn page_number(path: &str) -> (r: Option<u32>)
    ensures
        r == page_number_of(path@),
{
    match path_file_stem(path) {
        Some(stem) => {
            let cs = chars_of(stem.as_str());
            let j = last_dash_cut(&cs);
            parse_u32_from(&cs, j)
        },
        None => None,
    }
}

/// The key by which page images are ordered: the page number, 0 where the
/// name carries none.
pub open spec fn page_key(p: String) -> u32 {
    match page_number_of(p@) {
        Some(n) => n,
        None => 0,
    }
}

/// `sorted` with `x` placed after every element whose key is at most `x`'s
/// and before the trailing run of elements with a greater key.
pub open spec fn insert_by_page(sorted: Seq<String>, x: String) -> Seq<String>
    decreases sorted.len(),
{
    if sorted.len() == 0 {
        seq![x]
    } else if page_key(sorted.last()) <= page_key(x) {
        sorted.push(x)
    } else {
        insert_by_page(sorted.drop_last(), x).push(sorted.last())
    }
}

/// The paths in the order of their page numbers; paths with equal numbers
/// keep their order (a stable sort).
pub open spec fn sorted_by_page(paths: Seq<String>) -> Seq<String>
    decreases paths.len(),
{
    if paths.len() == 0 {
        paths
    } else {
        insert_by_page(sorted_by_page(paths.drop_last()), paths.last())
    }
}

proof fn lemma_insert_at(s: Seq<String>, x: String, j: int)
    requires
        0 <= j <= s.len(),
        j == 0 || page_key(s[j - 1]) <= page_key(x),
        forall|i: int| j <= i < s.len() ==> page_key(#[trigger] s[i]) > page_key(x),
    ensures
        insert_by_page(s, x) == s.insert(j, x),
    decreases s.len(),
{
    if s.len() == 0 {
        assert(s.insert(j, x) =~= seq![x]);
    } else if page_key(s.last()) <= page_key(x) {
        if j < s.len() {
            assert(page_key(s[s.len() - 1]) > page_key(x));
        }
        assert(s.insert(j, x) =~= s.push(x));
    } else {
        if j == s.len() {
            assert(page_key(s[j - 1]) <= page_key(x));
        }
        let d = s.drop_last();
        assert forall|i: int| j <= i < d.len() implies page_key(#[trigger] d[i]) > page_key(x) by {
            assert(d[i] == s[i]);
        }
        lemma_insert_at(d, x, j);
        assert(d.insert(j, x).push(s.last()) =~= s.insert(j, x));
    }
}

/// Orders page image paths by their page number (numerically, so page 10
/// comes after page 2); paths with equal numbers keep their order.
pub fn sort_page_paths(paths: Vec<String>) -> (r: Vec<String>)
    ensures
        r@ == sorted_by_page(paths@),
{
    let mut res: Vec<String> = Vec::new();
    let mut keys: Vec<u32> = Vec::new();
    let n = paths.len();
    let mut i: usize = 0;
    while i < n
        invariant
            n == paths@.len(),
            i <= n,
            res@ == sorted_by_page(paths@.take(i as int)),
            keys@.len() == res@.len(),
            forall|k: int| 0 <= k < keys@.len() ==> keys@[k] == page_key(#[trigger] res@[k]),
        decreases n - i,
    {
        let x = paths[i].clone();
        let kx = match page_number(x.as_str()) {
            Some(num) => num,
            None => 0,
        };
        let mut j = res.len();
        while j > 0 && keys[j - 1] > kx
            invariant
                j <= res@.len(),
                keys@.len() == res@.len(),
                forall|k: int| 0 <= k < keys@.len() ==> keys@[k] == page_key(#[trigger] res@[k]),
                forall|m: int| j <= m < res@.len() ==> page_key(#[trigger] res@[m]) > kx,
            decreases j,
        {
            j -= 1;
        }
        proof {
            assert(kx == page_key(x));
            if j > 0 {
                assert(keys@[j - 1] == page_key(res@[j - 1]));
            }
            lemma_insert_at(res@, x, j as int);
            assert(paths@.take(i + 1).drop_last() =~= paths@.take(i as int));
            assert(paths@.take(i + 1).last() == x);
        }
        let ghost old_res = res@;
        let ghost old_keys = keys@;
        res.insert(j, x);
        keys.insert(j, kx);
        proof {
            assert forall|k: int| 0 <= k < keys@.len() implies keys@[k] == page_key(#[trigger] res@[k]) by {
                if k < j {
                    assert(keys@[k] == old_keys[k] && res@[k] == old_res[k]);
                } else if k > j {
                    assert(keys@[k] == old_keys[k - 1] && res@[k] == old_res[k - 1]);
                }
            }
        }
        i += 1;
    }
    proof {
        assert(paths@.take(n as int) =~= paths@);
    }
    res
}

/// Where [`insert_by_page`] puts its element.
proof fn lemma_insert_position(s: Seq<String>, x: String) -> (j: int)
    ensures
        0 <= j <= s.len(),
        j == 0 || page_key(s[j - 1]) <= page_key(x),
        forall|i: int| j <= i < s.len() ==> page_key(#[trigger] s[i]) > page_key(x),
        insert_by_page(s, x) == s.insert(j, x),
    decreases s.len(),
{
    if s.len() == 0 || page_key(s.last()) <= page_key(x) {
        let j = s.len() as int;
        lemma_insert_at(s, x, j);
        j
    } else {
        let d = s.drop_last();
        let j = lemma_insert_position(d, x);
        assert forall|i: int| j <= i < s.len() implies page_key(#[trigger] s[i]) > page_key(x) by {
            if i < d.len() {
                assert(s[i] == d[i]);
            }
        }
        if j > 0 {
            assert(s[j - 1] == d[j - 1]);
        }
        lemma_insert_at(s, x, j);
        j
    }
}

/// Whether the paths are in nondecreasing order of page number.
pub open spec fn ordered_by_page(s: Seq<String>) -> bool {
    forall|i: int, j: int| 0 <= i <= j < s.len() ==> page_key(#[trigger] s[i]) <= page_key(#[trigger] s[j])
}

/// The paths whose page number is `k`, in their order.
pub open spec fn with_page(s: Seq<String>, k: u32) -> Seq<String> {
    s.filter(|p: String| page_key(p) == k)
}

/// Sorting puts the page images in nondecreasing order of page number.
pub proof fn law_sorted_pages_are_ordered(paths: Seq<String>)
    ensures
        ordered_by_page(sorted_by_page(paths)),
    decreases paths.len(),
{
    if paths.len() > 0 {
        let t = sorted_by_page(paths.drop_last());
        law_sorted_pages_are_ordered(paths.drop_last());
        let x = paths.last();
        let j = lemma_insert_position(t, x);
        let r = t.insert(j, x);
        assert forall|a: int, b: int| 0 <= a <= b < r.len() implies page_key(#[trigger] r[a]) <= page_key(
            #[trigger] r[b],
        ) by {
            if a < j && b < j {
                assert(r[a] == t[a] && r[b] == t[b]);
            } else if a < j && b == j {
                assert(r[a] == t[a]);
                assert(page_key(t[a]) <= page_key(t[j - 1]));
            } else if a < j {
                assert(r[a] == t[a] && r[b] == t[b - 1]);
            } else if a == j && b > j {
                assert(r[b] == t[b - 1]);
            } else if a > j {
                assert(r[a] == t[a - 1] && r[b] == t[b - 1]);
            }
        }
    }
}

/// Sorting keeps every path and adds none: the result is a permutation.
pub proof fn law_sorting_is_a_permutation(paths: Seq<String>)
    ensures
        sorted_by_page(paths).to_multiset() == paths.to_multiset(),
    decreases paths.len(),
{
    broadcast use vstd::seq_lib::group_to_multiset_ensures;

    if paths.len() > 0 {
        let d = paths.drop_last();
        law_sorting_is_a_permutation(d);
        let t = sorted_by_page(d);
        let j = lemma_insert_position(t, paths.last());
        assert(paths =~= d.push(paths.last()));
        vstd::seq_lib::to_multiset_insert(t, j, paths.last());
    }
}

/// Sorting is stable: the paths that share a page number come out in the
/// order in which they went in.
pub proof fn law_sorting_is_stable(paths: Seq<String>, k: u32)
    ensures
        with_page(sorted_by_page(paths), k) == with_page(paths, k),
    decreases paths.len(),
{
    let pred = |p: String| page_key(p) == k;
    if paths.len() == 0 {
        reveal(Seq::filter);
    } else {
        let d = paths.drop_last();
        let x = paths.last();
        law_sorting_is_stable(d, k);
        let t = sorted_by_page(d);
        let j = lemma_insert_position(t, x);
        let a = t.take(j);
        let b = t.skip(j);
        assert(t =~= a + b);
        assert(t.insert(j, x) =~= a + seq![x] + b);
        Seq::filter_distributes_over_add(a, b, pred);
        Seq::filter_distributes_over_add(a + seq![x], b, pred);
        Seq::filter_distributes_over_add(a, seq![x], pred);
        reveal_with_fuel(Seq::filter, 2);
        assert(d.filter(pred) == t.filter(pred));
        if page_key(x) == k {
            assert forall|i: int| 0 <= i < b.len() implies !pred(b[i]) by {
                assert(b[i] == t[j + i]);
            }
            lemma_filter_none(b, pred);
            assert(seq![x].filter(pred) =~= seq![x]);
            assert(paths.filter(pred) == d.filter(pred).push(x));
        } else {
            assert(seq![x].filter(pred) =~= Seq::<String>::empty());
            assert(paths.filter(pred) == d.filter(pred));
        }
    }
}

proof fn lemma_filter_none(s: Seq<String>, pred: spec_fn(String) -> bool)
    requires
        forall|i: int| 0 <= i < s.len() ==> !pred(s[i]),
    ensures
        s.filter(pred) == Seq::<String>::empty(),
    decreases s.len(),
{
    reveal(Seq::filter);
    if s.len() > 0 {
        lemma_filter_none(s.drop_last(), pred);
    }
}

/// The one message of a refused document name; it says nothing of the name.
pub open spec fn invalid_name_message() -> Seq<char> {
    "invalid document name"@
}

/// The path of the named document in the source directory, for a valid file
/// name; `None` (the name is refused) otherwise.
pub fn source_candidate(filename: &str, source_dir: &str) -> (r: Option<String>)
    ensures
        r is Some <==> is_valid_filename(filename@),
        r matches Some(p) ==> p@ == joined_path(source_dir@, filename@),
{
    if validate_filename(filename) {
        Some(path_join(source_dir, filename))
    } else {
        None
    }
}

/// Decides where a document may be read from. `canonical_dir` is the source
/// directory and `canonical_path` the path of the file in it, each as
/// `canonicalize` resolved it, or `None` where that failed (the file does not
/// exist, say). The file is accepted only when its name is a bare file name
/// and its resolved path lies inside the resolved source directory.
pub fn resolve_source_path(
    filename: &str,
    canonical_dir: Option<String>,
    canonical_path: Option<String>,
) -> (r: Result<String, String>)
    ensures
        r is Ok <==> {
            &&& is_valid_filename(filename@)
            &&& canonical_dir is Some
            &&& canonical_path is Some
            &&& path_starts_with(canonical_path->0@, canonical_dir->0@)
        },
        r matches Ok(p) ==> canonical_path == Some(p),
        r matches Err(e) ==> e@ == invalid_name_message(),
{
    if !validate_filename(filename) {
        return Err("invalid document name".to_owned());
    }
    let dir = match canonical_dir {
        Some(d) => d,
        None => return Err("invalid document name".to_owned()),
    };
    let path = match canonical_path {
        Some(p) => p,
        None => return Err("invalid document name".to_owned()),
    };
    if !path_has_prefix(path.as_str(), dir.as_str()) {
        return Err("invalid document name".to_owned());
    }
    Ok(path)
}

/// Whether a path names a PNG image by its extension.
pub open spec fn is_png(path: Seq<char>) -> bool {
    extension(path) == Some("png"@)
}

/// The entries that are PNG images, in their order.
pub open spec fn png_entries(entries: Seq<String>) -> Seq<String> {
    entries.filter(|p: String| is_png(p@))
}

/// The message when the rendering left no page image behind.
pub open spec fn no_pages_message() -> Seq<char> {
    "pdftoppm produced no pages"@
}

/// From the entries of the directory that the renderer wrote to, takes the PNG
/// images and orders them by page number; it is an error if there are none.
pub fn select_page_images(entries: Vec<String>) -> (r: Result<Vec<String>, String>)
    ensures
        png_entries(entries@).len() == 0 <==> r is Err,
        r matches Ok(pages) ==> pages@ == sorted_by_page(png_entries(entries@)),
        r matches Err(e) ==> e@ == no_pages_message(),
{
    let png = "png".to_owned();
    let mut pngs: Vec<String> = Vec::new();
    let n = entries.len();
    let mut i: usize = 0;
    while i < n
        invariant
            n == entries@.len(),
            i <= n,
            png@ == "png"@,
            pngs@ == png_entries(entries@.take(i as int)),
        decreases n - i,
    {
        let e = entries[i].clone();
        let is_image = match path_extension(e.as_str()) {
            Some(ext) => ext == png,
            None => false,
        };
        proof {
            reveal_with_fuel(Seq::filter, 1);
            assert(entries@.take(i + 1).drop_last() =~= entries@.take(i as int));
            assert(is_image == is_png(e@));
        }
        if is_image {
            pngs.push(e);
        }
        i += 1;
    }
    proof {
        assert(entries@.take(n as int) =~= entries@);
    }
    if pngs.len() == 0 {
        return Err("pdftoppm produced no pages".to_owned());
    }
    Ok(sort_page_paths(pngs))
}

} // verus!

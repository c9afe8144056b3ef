//! Text searching, splitting and trimming on characters.
//!
//! A string is read as the sequence of its characters. The specifications
//! speak of those sequences, and the executable functions return slices of
//! the string that they were given.

use vstd::prelude::*;
use vstd::utf8::encode_utf8;

verus! {

/// `String::push` appends one character.
pub assume_specification[ String::push ](s: &mut String, c: char)
    ensures
        final(s)@ == old(s)@.push(c),
;

// ---------------------------------------------------------------------------
// Searching
// ---------------------------------------------------------------------------

/// `pat` stands in `s` at position `i`.
pub open spec fn occurs_at(s: Seq<char>, pat: Seq<char>, i: int) -> bool {
    &&& 0 <= i
    &&& i + pat.len() <= s.len()
    &&& s.subrange(i, i + pat.len()) == pat
}

/// `pat` stands somewhere in `s`.
pub open spec fn contains(s: Seq<char>, pat: Seq<char>) -> bool {
    exists|i: int| occurs_at(s, pat, i)
}

/// `s` begins with `pat`.
pub open spec fn starts_with(s: Seq<char>, pat: Seq<char>) -> bool {
    occurs_at(s, pat, 0)
}

/// `s` ends with `pat`.
pub open spec fn ends_with(s: Seq<char>, pat: Seq<char>) -> bool {
    occurs_at(s, pat, s.len() - pat.len())
}

/// The first position from `from` on at which `pat` stands in `s`.
pub open spec fn find_from(s: Seq<char>, pat: Seq<char>, from: int) -> Option<int>
    decreases s.len() + 1 - from,
{
    if from < 0 || from + pat.len() > s.len() {
        None
    } else if occurs_at(s, pat, from) {
        Some(from)
    } else {
        find_from(s, pat, from + 1)
    }
}

/// The first position at which `pat` stands in `s`.
pub open spec fn find(s: Seq<char>, pat: Seq<char>) -> Option<int> {
    find_from(s, pat, 0)
}

/// The last position up to `to` at which `pat` stands in `s`.
pub open spec fn rfind_to(s: Seq<char>, pat: Seq<char>, to: int) -> Option<int>
    decreases to + 1,
{
    if to < 0 {
        None
    } else if occurs_at(s, pat, to) {
        Some(to)
    } else {
        rfind_to(s, pat, to - 1)
    }
}

/// The last position at which `pat` stands in `s`.
pub open spec fn rfind(s: Seq<char>, pat: Seq<char>) -> Option<int> {
    rfind_to(s, pat, s.len() - pat.len())
}

pub proof fn lemma_find_from(s: Seq<char>, pat: Seq<char>, from: int)
    requires
        0 <= from,
    ensures
        match find_from(s, pat, from) {
            Some(i) => {
                &&& from <= i
                &&& occurs_at(s, pat, i)
                &&& forall|j: int| from <= j < i ==> !occurs_at(s, pat, j)
            },
            None => forall|j: int| from <= j ==> !occurs_at(s, pat, j),
        },
    decreases s.len() + 1 - from,
{
    if from + pat.len() <= s.len() && !occurs_at(s, pat, from) {
        lemma_find_from(s, pat, from + 1);
    }
}

/// `find` gives the leftmost place, and gives one exactly where there is one.
pub proof fn lemma_find(s: Seq<char>, pat: Seq<char>)
    ensures
        find(s, pat) is Some <==> contains(s, pat),
        find(s, pat) matches Some(i) ==> {
            &&& 0 <= i
            &&& occurs_at(s, pat, i)
            &&& forall|j: int| 0 <= j < i ==> !occurs_at(s, pat, j)
        },
{
    lemma_find_from(s, pat, 0);
}

pub proof fn lemma_rfind_to(s: Seq<char>, pat: Seq<char>, to: int)
    ensures
        match rfind_to(s, pat, to) {
            Some(i) => {
                &&& i <= to
                &&& occurs_at(s, pat, i)
                &&& forall|j: int| i < j <= to ==> !occurs_at(s, pat, j)
            },
            None => forall|j: int| j <= to ==> !occurs_at(s, pat, j),
        },
    decreases to + 1,
{
    if to >= 0 && !occurs_at(s, pat, to) {
        lemma_rfind_to(s, pat, to - 1);
    }
}

/// `rfind` gives the rightmost place, and gives one exactly where there is one.
pub proof fn lemma_rfind(s: Seq<char>, pat: Seq<char>)
    ensures
        rfind(s, pat) is Some <==> contains(s, pat),
        rfind(s, pat) matches Some(i) ==> {
            &&& 0 <= i
            &&& occurs_at(s, pat, i)
            &&& forall|j: int| i < j ==> !occurs_at(s, pat, j)
        },
{
    lemma_rfind_to(s, pat, s.len() - pat.len());
    if contains(s, pat) {
        let i = choose|i: int| occurs_at(s, pat, i);
        assert(i <= s.len() - pat.len());
    }
}

/// A text does not hold a pattern with a character that it does not hold.
pub proof fn lemma_missing_char(s: Seq<char>, pat: Seq<char>, m: int)
    requires
        0 <= m < pat.len(),
        forall|k: int| 0 <= k < s.len() ==> #[trigger] s[k] != pat[m],
    ensures
        !contains(s, pat),
        find(s, pat) is None,
{
    lemma_find(s, pat);
    if contains(s, pat) {
        let i = choose|i: int| occurs_at(s, pat, i);
        assert(s.subrange(i, i + pat.len())[m] == s[i + m]);
    }
}

/// The characters of `s`.
pub fn chars_of(s: &str) -> (v: Vec<char>)
    ensures
        v@ == s@,
{
    let mut v: Vec<char> = Vec::new();
    for c in it: s.chars()
        invariant
            v@ == it.seq().take(it.index() as int),
            it.seq() == s@,
    {
        v.push(c);
    }
    v
}

/// Whether `pat` stands in `s` at position `i`.
fn chars_occur_at(s: &Vec<char>, pat: &Vec<char>, i: usize) -> (r: bool)
    requires
        i <= s@.len(),
    ensures
        r == occurs_at(s@, pat@, i as int),
{
    if pat.len() > s.len() - i {
        return false;
    }
    for k in 0..pat.len()
        invariant
            i + pat.len() <= s.len(),
            forall|j: int| 0 <= j < k ==> s@[i + j] == pat@[j],
    {
        if s[i + k] != pat[k] {
            assert(s@.subrange(i as int, i + pat@.len())[k as int] == s@[i + k]);
            return false;
        }
    }
    assert(s@.subrange(i as int, i + pat@.len()) =~= pat@);
    true
}

/// Whether `pat` stands at position `i` of the characters `s`.
pub fn text_occurs_at(s: &Vec<char>, pat: &str, i: usize) -> (r: bool)
    requires
        i <= s@.len(),
    ensures
        r == occurs_at(s@, pat@, i as int),
{
    chars_occur_at(s, &chars_of(pat), i)
}

fn chars_find_from(s: &Vec<char>, pat: &Vec<char>, from: usize) -> (r: Option<usize>)
    requires
        from <= s@.len(),
    ensures
        match r {
            Some(i) => find_from(s@, pat@, from as int) == Some(i as int) && from <= i
                && i + pat@.len() <= s@.len(),
            None => find_from(s@, pat@, from as int) is None,
        },
{
    let mut i: usize = from;
    while i <= s.len() && pat.len() <= s.len() - i
        invariant
            from <= i <= s@.len() + 1,
            find_from(s@, pat@, from as int) == find_from(s@, pat@, i as int),
        decreases s@.len() + 1 - i,
    {
        if chars_occur_at(s, pat, i) {
            return Some(i);
        }
        if i == s.len() {
            assert(find_from(s@, pat@, i + 1) is None);
            return None;
        }
        i += 1;
    }
    None
}

fn chars_rfind(s: &Vec<char>, pat: &Vec<char>) -> (r: Option<usize>)
    ensures
        match r {
            Some(i) => rfind(s@, pat@) == Some(i as int) && i + pat@.len() <= s@.len(),
            None => rfind(s@, pat@) is None,
        },
{
    if pat.len() > s.len() {
        return None;
    }
    let mut i: usize = s.len() - pat.len();
    loop
        invariant
            i <= s@.len() - pat@.len(),
            rfind(s@, pat@) == rfind_to(s@, pat@, i as int),
        decreases i,
    {
        if chars_occur_at(s, pat, i) {
            return Some(i);
        }
        if i == 0 {
            assert(rfind_to(s@, pat@, i - 1) is None);
            return None;
        }
        i -= 1;
    }
}

/// Where `pat` first stands in `s`, counted in characters.
pub fn find_text(s: &str, pat: &str) -> (r: Option<usize>)
    ensures
        match r {
            Some(i) => find(s@, pat@) == Some(i as int) && i + pat@.len() <= s@.len() <= usize::MAX,
            None => find(s@, pat@) is None,
        },
{
    let cs = chars_of(s);
    let ps = chars_of(pat);
    assert(s@.len() == cs.len());
    chars_find_from(&cs, &ps, 0)
}

/// Where `pat` last stands in `s`, counted in characters.
pub fn rfind_text(s: &str, pat: &str) -> (r: Option<usize>)
    ensures
        match r {
            Some(i) => rfind(s@, pat@) == Some(i as int) && i + pat@.len() <= s@.len()
                <= usize::MAX,
            None => rfind(s@, pat@) is None,
        },
{
    let cs = chars_of(s);
    let ps = chars_of(pat);
    assert(s@.len() == cs.len());
    chars_rfind(&cs, &ps)
}

/// Whether `pat` stands somewhere in `s`.
pub fn contains_text(s: &str, pat: &str) -> (r: bool)
    ensures
        r == contains(s@, pat@),
{
    proof {
        lemma_find(s@, pat@);
    }
    find_text(s, pat).is_some()
}

/// Whether `s` begins with `pat`.
pub fn starts_with_text(s: &str, pat: &str) -> (r: bool)
    ensures
        r == starts_with(s@, pat@),
{
    let cs = chars_of(s);
    let ps = chars_of(pat);
    chars_occur_at(&cs, &ps, 0)
}

/// Whether `s` ends with `pat`.
pub fn ends_with_text(s: &str, pat: &str) -> (r: bool)
    ensures
        r == ends_with(s@, pat@),
{
    let cs = chars_of(s);
    let ps = chars_of(pat);
    if ps.len() > cs.len() {
        return false;
    }
    chars_occur_at(&cs, &ps, cs.len() - ps.len())
}

/// Whether the two texts are the same.
pub fn same_text(a: &str, b: &str) -> (r: bool)
    ensures
        r == (a@ == b@),
{
    let x = chars_of(a);
    let y = chars_of(b);
    if x.len() != y.len() {
        return false;
    }
    let r = chars_occur_at(&x, &y, 0);
    assert(x@.subrange(0, y@.len() as int) =~= x@);
    r
}

/// The slice of `s` from its character `from` to before its character `to`.
pub fn slice<'a>(s: &'a str, from: usize, to: usize) -> (r: &'a str)
    requires
        from <= to <= s@.len(),
    ensures
        r@ == s@.subrange(from as int, to as int),
{
    s.substring_char(from, to)
}

/// The number of characters of `s`.
pub fn char_count(s: &str) -> (n: usize)
    ensures
        n == s@.len(),
{
    s.unicode_len()
}

/// The slice of `s` before its character `to`.
pub fn prefix<'a>(s: &'a str, to: usize) -> (r: &'a str)
    requires
        to <= s@.len(),
    ensures
        r@ == s@.take(to as int),
{
    slice(s, 0, to)
}

/// The slice of `s` from its character `from` on.
pub fn suffix<'a>(s: &'a str, from: usize) -> (r: &'a str)
    requires
        from <= s@.len(),
    ensures
        r@ == s@.skip(from as int),
{
    slice(s, from, char_count(s))
}

// ---------------------------------------------------------------------------
// Prefixes and suffixes
// ---------------------------------------------------------------------------

/// What follows `pat` where `s` begins with it.
pub open spec fn strip_prefix(s: Seq<char>, pat: Seq<char>) -> Option<Seq<char>> {
    if starts_with(s, pat) {
        Some(s.skip(pat.len() as int))
    } else {
        None
    }
}

/// What precedes `pat` where `s` ends with it.
pub open spec fn strip_suffix(s: Seq<char>, pat: Seq<char>) -> Option<Seq<char>> {
    if ends_with(s, pat) {
        Some(s.take(s.len() - pat.len()))
    } else {
        None
    }
}

/// The view of an optional slice.
pub open spec fn opt_str(r: Option<&str>) -> Option<Seq<char>> {
    match r {
        Some(t) => Some(t@),
        None => None,
    }
}

/// The view of an optional string.
pub open spec fn opt_text(r: Option<String>) -> Option<Seq<char>> {
    match r {
        Some(t) => Some(t@),
        None => None,
    }
}

/// A copy of a text, where there is one.
pub fn copy_opt(s: &Option<String>) -> (r: Option<String>)
    ensures
        opt_text(r) == opt_text(*s),
{
    match s {
        Some(t) => Some(t.clone()),
        None => None,
    }
}

/// What follows `pat` where `s` begins with it.
pub fn strip_prefix_text<'a>(s: &'a str, pat: &str) -> (r: Option<&'a str>)
    ensures
        opt_str(r) == strip_prefix(s@, pat@),
{
    if starts_with_text(s, pat) {
        Some(suffix(s, char_count(pat)))
    } else {
        None
    }
}

/// What precedes `pat` where `s` ends with it.
pub fn strip_suffix_text<'a>(s: &'a str, pat: &str) -> (r: Option<&'a str>)
    ensures
        opt_str(r) == strip_suffix(s@, pat@),
{
    if ends_with_text(s, pat) {
        Some(prefix(s, char_count(s) - char_count(pat)))
    } else {
        None
    }
}

// ---------------------------------------------------------------------------
// Trimming
// ---------------------------------------------------------------------------

/// `s` without the characters at its start that `drop` holds of.
pub open spec fn trim_start_by(s: Seq<char>, drop: spec_fn(char) -> bool) -> Seq<char>
    decreases s.len(),
{
    if s.len() > 0 && drop(s[0]) {
        trim_start_by(s.skip(1), drop)
    } else {
        s
    }
}

/// `s` without the characters at its end that `drop` holds of.
pub open spec fn trim_end_by(s: Seq<char>, drop: spec_fn(char) -> bool) -> Seq<char>
    decreases s.len(),
{
    if s.len() > 0 && drop(s.last()) {
        trim_end_by(s.drop_last(), drop)
    } else {
        s
    }
}

/// `s` without the characters at its two ends that `drop` holds of.
pub open spec fn trim_by(s: Seq<char>, drop: spec_fn(char) -> bool) -> Seq<char> {
    trim_end_by(trim_start_by(s, drop), drop)
}

/// The characters with the Unicode property White_Space.
pub open spec fn white_space(c: char) -> bool {
    ||| '\u{9}' <= c <= '\u{d}'
    ||| c == '\u{20}'
    ||| c == '\u{85}'
    ||| c == '\u{a0}'
    ||| c == '\u{1680}'
    ||| '\u{2000}' <= c <= '\u{200a}'
    ||| c == '\u{2028}'
    ||| c == '\u{2029}'
    ||| c == '\u{202f}'
    ||| c == '\u{205f}'
    ||| c == '\u{3000}'
}

/// The characters with the property White_Space.
pub open spec fn spaces() -> spec_fn(char) -> bool {
    |c: char| white_space(c)
}

/// The character `c` alone.
pub open spec fn only(c: char) -> spec_fn(char) -> bool {
    |d: char| d == c
}

/// The characters other than `c`.
pub open spec fn all_but(c: char) -> spec_fn(char) -> bool {
    |d: char| d != c
}

/// `s` without the white space at its two ends.
pub open spec fn trim(s: Seq<char>) -> Seq<char> {
    trim_by(s, spaces())
}

/// `s` without the characters `c` at its two ends.
pub open spec fn trim_char(s: Seq<char>, c: char) -> Seq<char> {
    trim_by(s, only(c))
}

/// `s` without the characters `c` at its end.
pub open spec fn trim_char_end(s: Seq<char>, c: char) -> Seq<char> {
    trim_end_by(s, only(c))
}

/// Whether `c` is white space.
fn is_white_space(c: char) -> (r: bool)
    ensures
        r == white_space(c),
{
    ('\u{9}' <= c && c <= '\u{d}') || c == '\u{20}' || c == '\u{85}' || c == '\u{a0}' || c
        == '\u{1680}' || ('\u{2000}' <= c && c <= '\u{200a}') || c == '\u{2028}' || c
        == '\u{2029}' || c == '\u{202f}' || c == '\u{205f}' || c == '\u{3000}'
}

proof fn lemma_trim_start_skip(s: Seq<char>, drop: spec_fn(char) -> bool, n: int)
    requires
        0 <= n <= s.len(),
        forall|j: int| 0 <= j < n ==> drop(s[j]),
    ensures
        trim_start_by(s, drop) == trim_start_by(s.skip(n), drop),
    decreases n,
{
    if n == 0 {
        assert(s.skip(0) =~= s);
    } else {
        assert(s.skip(1).skip(n - 1) =~= s.skip(n));
        lemma_trim_start_skip(s.skip(1), drop, n - 1);
    }
}

proof fn lemma_trim_end_take(s: Seq<char>, drop: spec_fn(char) -> bool, n: int)
    requires
        0 <= n <= s.len(),
        forall|j: int| n <= j < s.len() ==> drop(s[j]),
    ensures
        trim_end_by(s, drop) == trim_end_by(s.take(n), drop),
    decreases s.len() - n,
{
    if n == s.len() {
        assert(s.take(n) =~= s);
    } else {
        assert(s.drop_last().take(n) =~= s.take(n));
        lemma_trim_end_take(s.drop_last(), drop, n);
    }
}

/// `s` without the white space at its two ends.
pub fn trim_text<'a>(s: &'a str) -> (r: &'a str)
    ensures
        r@ == trim(s@),
{
    let cs = chars_of(s);
    let ghost drop = spaces();
    let mut from: usize = 0;
    while from < cs.len() && is_white_space(cs[from])
        invariant
            from <= cs@.len(),
            cs@ == s@,
            drop == spaces(),
            forall|j: int| 0 <= j < from ==> drop(#[trigger] cs@[j]),
        decreases cs@.len() - from,
    {
        from += 1;
    }
    proof {
        lemma_trim_start_skip(s@, drop, from as int);
    }
    let mut to: usize = cs.len();
    while from < to && is_white_space(cs[to - 1])
        invariant
            from <= to <= cs@.len(),
            cs@ == s@,
            drop == spaces(),
            forall|j: int| to <= j < cs@.len() ==> drop(#[trigger] cs@[j]),
        decreases to,
    {
        to -= 1;
    }
    proof {
        let t = s@.skip(from as int);
        assert forall|j: int| to - from <= j < t.len() implies drop(t[j]) by {
            assert(t[j] == cs@[from + j]);
        }
        lemma_trim_end_take(t, drop, to - from);
        assert(t.take(to - from) =~= s@.subrange(from as int, to as int));
    }
    slice(s, from, to)
}

/// `s` without the characters `c` at its end.
pub fn trim_char_end_text<'a>(s: &'a str, c: char) -> (r: &'a str)
    ensures
        r@ == trim_char_end(s@, c),
{
    let cs = chars_of(s);
    let ghost drop = only(c);
    let mut to: usize = cs.len();
    while 0 < to && cs[to - 1] == c
        invariant
            to <= cs@.len(),
            cs@ == s@,
            drop == only(c),
            forall|j: int| to <= j < cs@.len() ==> drop(#[trigger] cs@[j]),
        decreases to,
    {
        to -= 1;
    }
    proof {
        lemma_trim_end_take(s@, drop, to as int);
    }
    prefix(s, to)
}

/// `s` without the characters `c` at its two ends.
pub fn trim_char_text<'a>(s: &'a str, c: char) -> (r: &'a str)
    ensures
        r@ == trim_char(s@, c),
{
    let cs = chars_of(s);
    let ghost drop = only(c);
    let mut from: usize = 0;
    while from < cs.len() && cs[from] == c
        invariant
            from <= cs@.len(),
            cs@ == s@,
            drop == only(c),
            forall|j: int| 0 <= j < from ==> drop(#[trigger] cs@[j]),
        decreases cs@.len() - from,
    {
        from += 1;
    }
    proof {
        lemma_trim_start_skip(s@, drop, from as int);
    }
    trim_char_end_text(suffix(s, from), c)
}

// ---------------------------------------------------------------------------
// Splitting
// ---------------------------------------------------------------------------

/// The parts of `s` between the places at which `pat` stands, which are taken
/// from left to right without overlap.
pub open spec fn split(s: Seq<char>, pat: Seq<char>) -> Seq<Seq<char>>
    decreases s.len(),
{
    if pat.len() == 0 {
        seq![s]
    } else {
        match find(s, pat) {
            None => seq![s],
            Some(i) => {
                proof {
                    lemma_find(s, pat);
                }
                seq![s.take(i)] + split(s.skip(i + pat.len()), pat)
            },
        }
    }
}

/// What stands before and after the first place at which `pat` stands in `s`.
pub open spec fn split_once(s: Seq<char>, pat: Seq<char>) -> Option<(Seq<char>, Seq<char>)> {
    match find(s, pat) {
        Some(i) => Some((s.take(i), s.skip(i + pat.len()))),
        None => None,
    }
}

/// The views of a list of slices.
pub open spec fn str_views(v: Seq<&str>) -> Seq<Seq<char>> {
    Seq::new(v.len(), |i: int| v[i]@)
}

/// The views of a list of strings.
pub open spec fn views(v: Seq<String>) -> Seq<Seq<char>> {
    Seq::new(v.len(), |i: int| v[i]@)
}

/// A split always gives at least one part.
pub proof fn lemma_split_nonempty(s: Seq<char>, pat: Seq<char>)
    ensures
        split(s, pat).len() >= 1,
{
}

/// Splitting `a`, then `pat`, then `b` is splitting the two, where `pat` stands
/// at no place that reaches from `a` into what follows.
pub proof fn lemma_split_append(a: Seq<char>, pat: Seq<char>, b: Seq<char>)
    requires
        pat.len() > 0,
        forall|j: int|
            0 <= j < a.len() && #[trigger] occurs_at(a + pat + b, pat, j) ==> j + pat.len()
                <= a.len(),
    ensures
        split(a + pat + b, pat) == split(a, pat) + split(b, pat),
    decreases a.len(),
{
    let s = a + pat + b;
    let n = a.len() as int;
    let m = pat.len() as int;
    lemma_find(s, pat);
    lemma_find(a, pat);
    assert(s.subrange(n, n + m) =~= pat);
    assert(occurs_at(s, pat, n));
    assert forall|j: int| 0 <= j && j + m <= n implies occurs_at(s, pat, j) == occurs_at(
        a,
        pat,
        j,
    ) by {
        assert(s.subrange(j, j + m) =~= a.subrange(j, j + m));
    }
    match find(a, pat) {
        None => {
            assert forall|j: int| 0 <= j < n implies !occurs_at(s, pat, j) by {
                if occurs_at(s, pat, j) {
                    assert(occurs_at(a, pat, j));
                }
            }
            assert(find(s, pat) == Some(n));
            assert(s.take(n) =~= a);
            assert(s.skip(n + m) =~= b);
        },
        Some(i) => {
            assert(occurs_at(s, pat, i));
            assert forall|j: int| 0 <= j < i implies !occurs_at(s, pat, j) by {
                if occurs_at(s, pat, j) {
                    assert(occurs_at(a, pat, j));
                }
            }
            assert(find(s, pat) == Some(i));
            let rest = a.skip(i + m);
            assert(s.take(i) =~= a.take(i));
            assert(s.skip(i + m) =~= rest + pat + b);
            assert forall|j: int|
                0 <= j < rest.len() && #[trigger] occurs_at(rest + pat + b, pat, j) implies j + m
                <= rest.len() by {
                let t = rest + pat + b;
                assert(s.subrange(i + m + j, i + m + j + m) =~= t.subrange(j, j + m));
                assert(occurs_at(s, pat, i + m + j));
            }
            lemma_split_append(rest, pat, b);
            assert(seq![a.take(i)] + (split(rest, pat) + split(b, pat)) =~= (seq![a.take(i)]
                + split(rest, pat)) + split(b, pat));
        },
    }
}

/// The parts of `s` between the places at which `pat` stands.
pub fn split_text<'a>(s: &'a str, pat: &str) -> (r: Vec<&'a str>)
    requires
        pat@.len() > 0,
    ensures
        str_views(r@) == split(s@, pat@),
        r@.len() >= 1,
{
    let cs = chars_of(s);
    let ps = chars_of(pat);
    let mut parts: Vec<&'a str> = Vec::new();
    let mut rest: &'a str = s;
    let mut done: usize = 0;
    assert(s@.skip(0) =~= s@);
    assert(str_views(parts@) + split(s@, pat@) =~= split(s@, pat@));
    loop
        invariant
            ps@ == pat@,
            pat@.len() > 0,
            cs@ == s@,
            done <= s@.len(),
            rest@ == s@.skip(done as int),
            str_views(parts@) + split(rest@, pat@) == split(s@, pat@),
        decreases s@.len() - done,
    {
        match find_text(rest, pat) {
            None => {
                proof {
                    assert(str_views(parts@.push(rest)) =~= str_views(parts@) + seq![rest@]);
                }
                parts.push(rest);
                return parts;
            },
            Some(i) => {
                let part = prefix(rest, i);
                assert(done + rest@.len() == cs.len());
                let step: usize = i + ps.len();
                let next = suffix(rest, step);
                proof {
                    assert(str_views(parts@.push(part)) =~= str_views(parts@) + seq![part@]);
                    assert(str_views(parts@) + (seq![part@] + split(next@, pat@)) =~= str_views(
                        parts@,
                    ) + seq![part@] + split(next@, pat@));
                    assert(s@.skip(done as int).skip(step as int) =~= s@.skip(done + step));
                }
                parts.push(part);
                rest = next;
                done = done + step;
            },
        }
    }
}

/// What stands before and after the first place at which `pat` stands in `s`.
pub fn split_once_text<'a>(s: &'a str, pat: &str) -> (r: Option<(&'a str, &'a str)>)
    ensures
        match r {
            Some((a, b)) => split_once(s@, pat@) == Some((a@, b@)),
            None => split_once(s@, pat@) is None,
        },
{
    match find_text(s, pat) {
        Some(i) => {
            Some((prefix(s, i), suffix(s, i + char_count(pat))))
        },
        None => None,
    }
}

// ---------------------------------------------------------------------------
// Building
// ---------------------------------------------------------------------------

/// A text without the separator behind `a` goes to the last part, where the
/// separator stands at no place that reaches into that text.
pub proof fn lemma_split_extend(a: Seq<char>, pat: Seq<char>, b: Seq<char>)
    requires
        pat.len() > 0,
        forall|j: int|
            0 <= j && #[trigger] occurs_at(a + b, pat, j) ==> j + pat.len() <= a.len(),
    ensures
        split(a + b, pat) == split(a, pat).drop_last().push(split(a, pat).last() + b),
    decreases a.len(),
{
    let s = a + b;
    let m = pat.len() as int;
    lemma_find(a, pat);
    lemma_find(s, pat);
    match find(a, pat) {
        None => {
            if contains(s, pat) {
                let j = choose|j: int| occurs_at(s, pat, j);
                assert(a.subrange(j, j + m) =~= s.subrange(j, j + m));
                assert(occurs_at(a, pat, j));
            }
            assert(split(s, pat) =~= split(a, pat).drop_last().push(split(a, pat).last() + b));
        },
        Some(i) => {
            assert(s.subrange(i, i + m) =~= a.subrange(i, i + m));
            assert(occurs_at(s, pat, i));
            let f = find(s, pat)->0;
            if f < i {
                assert(a.subrange(f, f + m) =~= s.subrange(f, f + m));
                assert(occurs_at(a, pat, f));
            }
            let rest = a.skip(i + m);
            assert(s.skip(i + m) =~= rest + b);
            assert forall|j: int| 0 <= j && #[trigger] occurs_at(rest + b, pat, j) implies j
                + pat.len() <= rest.len() by {
                assert((rest + b).subrange(j, j + m) =~= s.subrange(i + m + j, i + m + j + m));
                assert(occurs_at(s, pat, i + m + j));
            }
            lemma_split_extend(rest, pat, b);
            assert(s.take(i) =~= a.take(i));
            assert(split(s, pat) =~= split(a, pat).drop_last().push(split(a, pat).last() + b));
        },
    }
}

/// The last part is what the text ends with.
pub proof fn lemma_split_last(s: Seq<char>, pat: Seq<char>)
    ensures
        split(s, pat).last().len() <= s.len(),
        s.skip(s.len() - split(s, pat).last().len()) == split(s, pat).last(),
    decreases s.len(),
{
    lemma_find(s, pat);
    if pat.len() == 0 || find(s, pat) is None {
        assert(s.skip(0) =~= s);
    } else {
        let i = find(s, pat)->0;
        let rest = s.skip(i + pat.len());
        lemma_split_last(rest, pat);
        let last = split(rest, pat).last();
        assert(s.skip(s.len() - last.len()) =~= rest.skip(rest.len() - last.len()));
    }
}

/// The texts one after the other with `sep` between them.
pub open spec fn join(parts: Seq<Seq<char>>, sep: Seq<char>) -> Seq<char>
    decreases parts.len(),
{
    if parts.len() == 0 {
        seq![]
    } else if parts.len() == 1 {
        parts[0]
    } else {
        join(parts.drop_last(), sep) + sep + parts.last()
    }
}

/// The texts one after the other with `sep` between them.
pub fn join_texts(parts: &[String], sep: &str) -> (r: String)
    ensures
        r@ == join(views(parts@), sep@),
{
    let mut out = String::new();
    let ghost all = views(parts@);
    for i in 0..parts.len()
        invariant
            all == views(parts@),
            out@ == join(all.take(i as int), sep@),
    {
        proof {
            assert(all.take(i + 1).drop_last() =~= all.take(i as int));
            assert(all.take(i + 1).last() == parts@[i as int]@);
        }
        if i > 0 {
            out.append(sep);
        } else {
            assert(Seq::<char>::empty() + parts@[0]@ =~= parts@[0]@);
        }
        out.append(parts[i].as_str());
    }
    assert(all.take(parts@.len() as int) =~= all);
    out
}

/// `a` followed by `b`.
pub fn append2(a: &str, b: &str) -> (r: String)
    ensures
        r@ == a@ + b@,
{
    let mut out = a.to_owned();
    out.append(b);
    out
}

/// `a`, `b` and `c` one after the other.
pub fn append3(a: &str, b: &str, c: &str) -> (r: String)
    ensures
        r@ == a@ + b@ + c@,
{
    let mut out = a.to_owned();
    out.append(b);
    out.append(c);
    out
}

/// The characters of `s` other than `c`.
pub open spec fn without_char(s: Seq<char>, c: char) -> Seq<char> {
    s.filter(all_but(c))
}

/// The characters of `s` other than `c`.
pub fn without_char_text(s: &str, c: char) -> (r: String)
    ensures
        r@ == without_char(s@, c),
{
    let cs = chars_of(s);
    let ghost keep = all_but(c);
    let mut out = String::new();
    for i in 0..cs.len()
        invariant
            cs@ == s@,
            keep == all_but(c),
            out@ == s@.take(i as int).filter(keep),
    {
        proof {
            reveal(Seq::filter);
            assert(s@.take(i + 1).drop_last() =~= s@.take(i as int));
        }
        if cs[i] != c {
            out.push(cs[i]);
        }
    }
    assert(s@.take(cs@.len() as int) =~= s@);
    out
}

/// The number of bytes of `s` in UTF-8.
pub open spec fn utf8_len(s: Seq<char>) -> nat {
    encode_utf8(s).len()
}

/// The number of bytes of `s` in UTF-8.
pub fn byte_len(s: &str) -> (n: usize)
    ensures
        n == utf8_len(s@),
{
    s.as_bytes().len()
}

// ---------------------------------------------------------------------------
// Laws
// ---------------------------------------------------------------------------

/// White space, by the numbers of the characters.
pub proof fn lemma_white_space(c: char)
    ensures
        white_space(c) <==> {
            let n = c as nat;
            ||| 9 <= n <= 13
            ||| n == 32
            ||| n == 133
            ||| n == 160
            ||| n == 5760
            ||| 8192 <= n <= 8202
            ||| n == 8232
            ||| n == 8233
            ||| n == 8239
            ||| n == 8287
            ||| n == 12288
        },
{
}

/// What trimming leaves is a part of the text: only what is dropped stands before
/// and behind it, and it neither begins nor ends with such a character.
pub proof fn lemma_trim_by(s: Seq<char>, drop: spec_fn(char) -> bool)
    ensures
        trim_by(s, drop).len() > 0 ==> !drop(trim_by(s, drop)[0]) && !drop(trim_by(s, drop).last()),
        exists|i: int, j: int|
            0 <= i <= j <= s.len() && #[trigger] s.subrange(i, j) == trim_by(s, drop) && (forall|
                k: int,
            |
                0 <= k < i || j <= k < s.len() ==> drop(#[trigger] s[k])),
{
    lemma_trim_start_by(s, drop);
    let i = choose|i: int|
        0 <= i <= s.len() && #[trigger] s.skip(i) == trim_start_by(s, drop) && forall|k: int|
            0 <= k < i ==> drop(#[trigger] s[k]);
    let t = s.skip(i);
    lemma_trim_end_by(t, drop);
    let n = choose|n: int|
        0 <= n <= t.len() && #[trigger] t.take(n) == trim_end_by(t, drop) && forall|k: int|
            n <= k < t.len() ==> drop(#[trigger] t[k]);
    assert(s.subrange(i, i + n) =~= t.take(n));
    assert forall|k: int| 0 <= k < i || i + n <= k < s.len() implies drop(#[trigger] s[k]) by {
        if i + n <= k {
            assert(t[k - i] == s[k]);
        }
    }
    if n > 0 {
        assert(t.take(n)[0] == t[0]);
    }
}

proof fn lemma_trim_start_by(s: Seq<char>, drop: spec_fn(char) -> bool)
    ensures
        exists|i: int|
            0 <= i <= s.len() && #[trigger] s.skip(i) == trim_start_by(s, drop) && forall|k: int|
                0 <= k < i ==> drop(#[trigger] s[k]),
        trim_start_by(s, drop).len() > 0 ==> !drop(trim_start_by(s, drop)[0]),
    decreases s.len(),
{
    if s.len() > 0 && drop(s[0]) {
        let t = s.skip(1);
        lemma_trim_start_by(t, drop);
        let i = choose|i: int|
            0 <= i <= t.len() && #[trigger] t.skip(i) == trim_start_by(t, drop) && forall|k: int|
                0 <= k < i ==> drop(#[trigger] t[k]);
        assert(s.skip(i + 1) =~= t.skip(i));
        assert forall|k: int| 0 <= k < i + 1 implies drop(#[trigger] s[k]) by {
            if k > 0 {
                assert(t[k - 1] == s[k]);
            }
        }
    } else {
        assert(s.skip(0) =~= s);
    }
}

proof fn lemma_trim_end_by(s: Seq<char>, drop: spec_fn(char) -> bool)
    ensures
        exists|n: int|
            0 <= n <= s.len() && #[trigger] s.take(n) == trim_end_by(s, drop) && forall|k: int|
                n <= k < s.len() ==> drop(#[trigger] s[k]),
        trim_end_by(s, drop).len() > 0 ==> !drop(trim_end_by(s, drop).last()),
    decreases s.len(),
{
    if s.len() > 0 && drop(s.last()) {
        let t = s.drop_last();
        lemma_trim_end_by(t, drop);
        let n = choose|n: int|
            0 <= n <= t.len() && #[trigger] t.take(n) == trim_end_by(t, drop) && forall|k: int|
                n <= k < t.len() ==> drop(#[trigger] t[k]);
        assert(s.take(n) =~= t.take(n));
        assert forall|k: int| n <= k < s.len() implies drop(#[trigger] s[k]) by {
            if k < t.len() {
                assert(t[k] == s[k]);
            }
        }
    } else {
        assert(s.take(s.len() as int) =~= s);
    }
}

/// Trimming drops white space, or one character, at both ends; or one character at
/// the end alone.
pub proof fn lemma_trims(s: Seq<char>, c: char)
    ensures
        trim(s) == trim_by(s, |d: char| white_space(d)),
        trim_char(s, c) == trim_by(s, |d: char| d == c),
        trim_char_end(s, c) == trim_end_by(s, |d: char| d == c),
        trim_char_end(s, c).len() > 0 ==> trim_char_end(s, c).last() != c,
{
    assert(spaces() =~= (|d: char| white_space(d)));
    assert(only(c) =~= (|d: char| d == c));
    lemma_trim_end_by(s, only(c));
}

proof fn lemma_join_first(a: Seq<char>, rest: Seq<Seq<char>>, sep: Seq<char>)
    requires
        rest.len() > 0,
    ensures
        join(seq![a] + rest, sep) == a + sep + join(rest, sep),
    decreases rest.len(),
{
    let all = seq![a] + rest;
    assert(all.last() == rest.last());
    if rest.len() == 1 {
        assert(all.drop_last() =~= seq![a]);
        assert(join(all.drop_last(), sep) == a);
        assert(rest.last() == rest[0]);
    } else {
        let front = rest.drop_last();
        lemma_join_first(a, front, sep);
        assert(all.drop_last() =~= seq![a] + front);
        assert(join(all, sep) =~= a + sep + join(rest, sep));
    }
}

/// The parts of a split text give the text back with the separator between them,
/// and the separator stands in none of them.
pub proof fn lemma_split_and_join(s: Seq<char>, pat: Seq<char>)
    requires
        pat.len() > 0,
    ensures
        join(split(s, pat), pat) == s,
        forall|k: int| 0 <= k < split(s, pat).len() ==> !contains(#[trigger] split(s, pat)[k], pat),
    decreases s.len(),
{
    lemma_find(s, pat);
    if let Some(i) = find(s, pat) {
        let rest = s.skip(i + pat.len());
        let first = s.take(i);
        lemma_split_and_join(rest, pat);
        lemma_split_nonempty(rest, pat);
        lemma_join_first(first, split(rest, pat), pat);
        assert(s.subrange(i, i + pat.len()) == pat);
        assert(first + pat + rest =~= s);
        if contains(first, pat) {
            let j = choose|j: int| occurs_at(first, pat, j);
            assert(s.subrange(j, j + pat.len()) =~= first.subrange(j, j + pat.len()));
            assert(occurs_at(s, pat, j));
        }
        let all = split(s, pat);
        assert forall|k: int| 0 <= k < all.len() implies !contains(#[trigger] all[k], pat) by {
            if k > 0 {
                assert(all[k] == split(rest, pat)[k - 1]);
            }
        }
    }
}

/// A text that holds a pattern is cut at its first place, into what stands before
/// and what stands behind it.
pub proof fn lemma_split_once(s: Seq<char>, pat: Seq<char>)
    ensures
        split_once(s, pat) is Some <==> exists|k: int| occurs_at(s, pat, k),
        split_once(s, pat) matches Some((a, b)) ==> a + pat + b == s && forall|k: int|
            0 <= k < a.len() ==> !occurs_at(s, pat, k),
{
    lemma_find(s, pat);
    if let Some(i) = find(s, pat) {
        assert(s.subrange(i, i + pat.len()) == pat);
        assert(s.take(i) + pat + s.skip(i + pat.len()) =~= s);
    }
}

/// What a text begins or ends with can be taken off, and put back.
pub proof fn lemma_strip(s: Seq<char>, pat: Seq<char>, rest: Seq<char>)
    ensures
        strip_prefix(s, pat) == Some(rest) <==> s == pat + rest,
        strip_suffix(s, pat) == Some(rest) <==> s == rest + pat,
        starts_with(s, pat) <==> exists|r: Seq<char>| s == #[trigger] (pat + r),
        ends_with(s, pat) <==> exists|r: Seq<char>| s == #[trigger] (r + pat),
        contains(s, pat) <==> exists|a: Seq<char>, b: Seq<char>| s == #[trigger] (a + pat + b),
{
    let n = pat.len() as int;
    if starts_with(s, pat) {
        assert(pat + s.skip(n) =~= s);
    }
    if ends_with(s, pat) {
        assert(s.take(s.len() - n) + pat =~= s);
    }
    if contains(s, pat) {
        let k = choose|k: int| occurs_at(s, pat, k);
        assert(s.take(k) + pat + s.skip(k + n) =~= s);
    }
    assert((pat + rest).subrange(0, n) =~= pat);
    assert((pat + rest).skip(n) =~= rest);
    assert((rest + pat).subrange(rest.len() as int, rest.len() + n) =~= pat);
    assert((rest + pat).take(rest.len() as int) =~= rest);
    if exists|r: Seq<char>| s == #[trigger] (pat + r) {
        let r = choose|r: Seq<char>| s == #[trigger] (pat + r);
        assert(s.subrange(0, n) =~= pat);
    }
    if exists|r: Seq<char>| s == #[trigger] (r + pat) {
        let r = choose|r: Seq<char>| s == #[trigger] (r + pat);
        assert(s.subrange(s.len() - n, s.len() as int) =~= pat);
    }
    if exists|a: Seq<char>, b: Seq<char>| s == #[trigger] (a + pat + b) {
        let (a, b) = choose|a: Seq<char>, b: Seq<char>| s == #[trigger] (a + pat + b);
        assert(s.subrange(a.len() as int, a.len() + n) =~= pat);
        assert(occurs_at(s, pat, a.len() as int));
    }
}

/// Joined texts stand one after the other with the separator between them.
pub proof fn lemma_join(parts: Seq<Seq<char>>, x: Seq<char>, sep: Seq<char>)
    ensures
        join(Seq::empty(), sep) == Seq::<char>::empty(),
        join(seq![x], sep) == x,
        parts.len() > 0 ==> join(parts.push(x), sep) == join(parts, sep) + sep + x,
{
    assert(parts.push(x).drop_last() =~= parts);
    assert(join(Seq::empty(), sep) =~= Seq::<char>::empty());
}

} // verus!

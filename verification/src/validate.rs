//! Checking locator strings before they are used.

use vstd::prelude::*;
use crate::dom_selector::{dotted, lemma_dotted_chars, name_char, simple_class, simple_classes};
use crate::error::AxError;
use crate::generate::{
    lemma_bracket_selector_parts, lemma_bracket_selector_start, lemma_no_pseudo,
    lemma_nth_selector_chars, lemma_nth_selector_read, nth_selector, simple_role,
};
use crate::matching::{
    lemma_class_selector_read, lemma_class_selector_role, lemma_role_and_id_once,
    lemma_role_and_id_read,
};
use crate::number::{
    all_digits, decimal, digits_value, is_digit, lemma_decimal_reads_back, parse_unsigned,
    parse_usize,
};
use crate::resolve::{
    chain_steps, is_one_step, lemma_separator_stays, locator_steps, segment_steps,
};
use crate::selector::{
    argument, call_at, call_start, child_number, ends_call, find_call, lacks_number, last_call,
    lemma_call_at, lemma_digits_closed, lemma_find_call, lemma_last_call_shorter, lemma_loose_call,
    lemma_no_call_without_start, parse_pseudo, split_last_call, PseudoCall,
};
use crate::text::{
    append3, char_count, chars_of, contains, contains_text, ends_with, ends_with_text, find,
    find_text, lemma_find, lemma_missing_char, lemma_rfind, lemma_split_append,
    lemma_split_nonempty, lemma_trim_by, occurs_at, rfind, same_text, slice, spaces, split,
    split_once, split_once_text, split_text, starts_with, starts_with_text, str_views, strip_suffix,
    strip_suffix_text, trim, trim_by, trim_text, white_space,
};
use crate::unicode::{alphanumeric, ascii_alphanumeric, is_alphanumeric};

verus! {

// ---------------------------------------------------------------------------
// Pseudo-classes
// ---------------------------------------------------------------------------

/// `s` without the pseudo-classes at its end.
pub open spec fn without_pseudo(s: Seq<char>) -> Seq<char>
    decreases s.len(),
    via without_pseudo_shorter
{
    match strip_suffix(s, ":visible"@) {
        Some(b) => without_pseudo(b),
        None => match last_call(s) {
            Some(c) => without_pseudo(c.before),
            None => s,
        },
    }
}

#[via_fn]
proof fn without_pseudo_shorter(s: Seq<char>) {
    reveal_strlit(":visible");
    lemma_last_call_shorter(s);
}

/// Every `:nth-child(..)` among the pseudo-classes at the end of `s` has a number.
pub open spec fn numbers_read(s: Seq<char>) -> bool
    decreases s.len(),
    via numbers_read_shorter
{
    match strip_suffix(s, ":visible"@) {
        Some(b) => numbers_read(b),
        None => match last_call(s) {
            Some(c) => !lacks_number(c) && numbers_read(c.before),
            None => true,
        },
    }
}

#[via_fn]
proof fn numbers_read_shorter(s: Seq<char>) {
    reveal_strlit(":visible");
    lemma_last_call_shorter(s);
}

/// What is left of a segment is what matching takes as its base, where no number
/// is missing.
pub proof fn lemma_same_base(s: Seq<char>)
    requires
        numbers_read(s),
    ensures
        without_pseudo(s) == parse_pseudo(s).base,
    decreases s.len(),
{
    reveal_strlit(":visible");
    lemma_last_call_shorter(s);
    match strip_suffix(s, ":visible"@) {
        Some(b) => lemma_same_base(b),
        None => match last_call(s) {
            Some(c) => lemma_same_base(c.before),
            None => {},
        },
    }
}

/// A pseudo-class behind a selector.
pub ghost enum Suffix {
    Visible,
    /// With the digits of the number.
    NthChild(Seq<char>),
    HasText(Seq<char>),
    Has(Seq<char>),
}

/// The pseudo-class as it is written.
pub open spec fn suffix_text(x: Suffix) -> Seq<char> {
    match x {
        Suffix::Visible => ":visible"@,
        Suffix::NthChild(d) => ":nth-child("@ + d + ")"@,
        Suffix::HasText(t) => ":has-text("@ + t + ")"@,
        Suffix::Has(t) => ":has("@ + t + ")"@,
    }
}

/// The pseudo-classes as they are written, one behind the other.
pub open spec fn suffixes_text(xs: Seq<Suffix>) -> Seq<char>
    decreases xs.len(),
{
    if xs.len() == 0 {
        Seq::empty()
    } else {
        suffixes_text(xs.drop_last()) + suffix_text(xs.last())
    }
}

/// No colon stands in `s`.
pub open spec fn no_colon(s: Seq<char>) -> bool {
    forall|k: int| 0 <= k < s.len() ==> #[trigger] s[k] != ':'
}

/// The argument is a number, or a text without a colon.
pub open spec fn simple_suffix(x: Suffix) -> bool {
    match x {
        Suffix::Visible => true,
        Suffix::NthChild(d) => all_digits(d) && digits_value(d) <= usize::MAX,
        Suffix::HasText(t) => no_colon(t),
        Suffix::Has(t) => no_colon(t),
    }
}

/// Where the argument of a pseudo-class with one stands.
spec fn suffix_call(x: Suffix) -> Option<(PseudoCall, Seq<char>)> {
    match x {
        Suffix::Visible => None,
        Suffix::NthChild(d) => Some((PseudoCall::NthChild, d)),
        Suffix::HasText(t) => Some((PseudoCall::HasText, t)),
        Suffix::Has(t) => Some((PseudoCall::Has, t)),
    }
}

/// A pseudo-class has a colon at its beginning only.
proof fn lemma_suffix_chars(x: Suffix)
    requires
        simple_suffix(x),
    ensures
        suffix_text(x).len() > 0,
        suffix_text(x)[0] == ':',
        suffix_text(x).last() == if x is Visible {
            'e'
        } else {
            ')'
        },
        forall|j: int| 0 < j < suffix_text(x).len() ==> #[trigger] suffix_text(x)[j] != ':',
{
    reveal_strlit(":visible");
    reveal_strlit(":nth-child(");
    reveal_strlit(":has-text(");
    reveal_strlit(":has(");
    reveal_strlit(")");
    let text = suffix_text(x);
    if let Some((kind, inner)) = suffix_call(x) {
        let n = call_start(kind).len() as int;
        assert(text =~= call_start(kind) + inner + ")"@);
        assert forall|j: int| 0 < j < text.len() implies #[trigger] text[j] != ':' by {
            if n <= j < n + inner.len() {
                assert(text[j] == inner[j - n]);
                if kind is NthChild {
                    assert(is_digit(inner[j - n]));
                }
            }
        }
    }
}

/// Where a colon stands behind `s`, one of the pseudo-classes begins: what stands
/// before it is `s` with those before that one.
proof fn lemma_cut(s: Seq<char>, xs: Seq<Suffix>, i: int) -> (k: int)
    requires
        no_colon(s),
        forall|j: int| 0 <= j < xs.len() ==> simple_suffix(#[trigger] xs[j]),
        0 <= i < (s + suffixes_text(xs)).len(),
        (s + suffixes_text(xs))[i] == ':',
    ensures
        0 <= k < xs.len(),
        (s + suffixes_text(xs)).take(i) == s + suffixes_text(xs.take(k)),
        (s + suffixes_text(xs)).skip(i).take(suffix_text(xs[k]).len() as int) == suffix_text(
            xs[k],
        ),
        i + suffix_text(xs[k]).len() <= (s + suffixes_text(xs)).len(),
        k == xs.len() - 1 <==> i + suffix_text(xs[k]).len() == (s + suffixes_text(xs)).len(),
    decreases xs.len(),
{
    let w = s + suffixes_text(xs);
    if xs.len() == 0 {
        assert(w =~= s);
        0
    } else {
        let front = xs.drop_last();
        let last = suffix_text(xs.last());
        let v = s + suffixes_text(front);
        assert(w =~= v + last);
        assert(simple_suffix(xs[xs.len() - 1]));
        lemma_suffix_chars(xs.last());
        if i < v.len() {
            assert(v[i] == w[i]);
            let k = lemma_cut(s, front, i);
            assert(front.take(k) =~= xs.take(k));
            assert(w.take(i) =~= v.take(i));
            let n = suffix_text(xs[k]).len() as int;
            assert(w.skip(i).take(n) =~= v.skip(i).take(n));
            k
        } else {
            let j = i - v.len();
            assert(last[j] == w[i]);
            assert(j == 0);
            assert(w.take(i) =~= v);
            assert(w.skip(i) =~= last);
            assert(last.take(last.len() as int) =~= last);
            assert(xs.take(xs.len() - 1) =~= front);
            xs.len() - 1
        }
    }
}

/// The last of the pseudo-classes, where it has an argument, or one before it is
/// the one that is taken off, and it lacks no number.
#[verifier::rlimit(50)]
proof fn lemma_last_of_suffixes(s: Seq<char>, xs: Seq<Suffix>) -> (k: int)
    requires
        no_colon(s),
        forall|j: int| 0 <= j < xs.len() ==> simple_suffix(#[trigger] xs[j]),
        xs.len() > 0,
        !(xs.last() is Visible),
    ensures
        0 <= k < xs.len(),
        last_call(s + suffixes_text(xs)) matches Some(c) && c.before == s + suffixes_text(
            xs.take(k),
        ) && !lacks_number(c),
{
    let w = s + suffixes_text(xs);
    let front = xs.drop_last();
    let v = s + suffixes_text(front);
    let text = suffix_text(xs.last());
    let (kind, inner) = suffix_call(xs.last())->0;
    let start = v.len() as int;
    let n = call_start(kind).len() as int;
    assert(simple_suffix(xs[xs.len() - 1]));
    lemma_suffix_chars(xs.last());
    reveal_strlit(")");
    assert(w =~= v + text);
    assert(text =~= call_start(kind) + inner + ")"@);
    assert(w.last() == ')');
    assert(w.subrange(start, start + n) =~= call_start(kind));
    assert(occurs_at(w, call_start(kind), start));
    lemma_call_at(w, kind, start);
    assert(argument(w, kind, start) =~= inner);
    lemma_find_call(w, 0);
    lemma_loose_call(w, PseudoCall::HasText);
    lemma_loose_call(w, PseudoCall::Has);
    lemma_loose_call(w, PseudoCall::NthChild);
    lemma_rfind(w, call_start(kind));
    if let Some(i) = find_call(w, 0) {
        let found = call_at(w, i)->0;
        assert(occurs_at(w, call_start(found), i));
        lemma_call_at(w, found, i);
        let k = lemma_cut(s, xs, i);
        if found is NthChild {
            lemma_number_of_suffix(w, xs[k], i);
        }
        k
    } else {
        if kind is NthChild {
            lemma_digits_closed(inner, inner.len() as int);
            assert(ends_call(w, start));
        }
        let p = if rfind(w, call_start(PseudoCall::HasText)) is Some {
            rfind(w, call_start(PseudoCall::HasText))->0
        } else {
            rfind(w, call_start(PseudoCall::Has))->0
        };
        let found = if rfind(w, call_start(PseudoCall::HasText)) is Some {
            PseudoCall::HasText
        } else {
            PseudoCall::Has
        };
        lemma_call_at(w, found, p);
        lemma_cut(s, xs, p)
    }
}

/// A closed `:nth-child(..)` at the end is the last pseudo-class, with its number.
#[verifier::rlimit(50)]
proof fn lemma_number_of_suffix(w: Seq<char>, x: Suffix, i: int)
    requires
        simple_suffix(x),
        0 <= i,
        i + suffix_text(x).len() <= w.len(),
        w.skip(i).take(suffix_text(x).len() as int) == suffix_text(x),
        ends_call(w, i),
        call_at(w, i) == Some(PseudoCall::NthChild),
    ensures
        child_number(argument(w, PseudoCall::NthChild, i)) is Some,
{
    reveal_strlit(":visible");
    reveal_strlit(":nth-child(");
    reveal_strlit(":has-text(");
    reveal_strlit(":has(");
    reveal_strlit(")");
    let text = suffix_text(x);
    let a = argument(w, PseudoCall::NthChild, i);
    assert(w.subrange(i, i + 11)[1] == w[i + 1]);
    assert(w.skip(i).take(text.len() as int)[1] == w[i + 1]);
    assert(":visible"@[1] == 'v' && ":nth-child("@[1] == 'n');
    assert(":has-text("@[1] == 'h' && ":has("@[1] == 'h');
    if let Suffix::NthChild(d) = x {
        let n = d.len() as int;
        assert forall|k: int| 0 <= k < n implies #[trigger] a[k] == d[k] by {
            assert(w.skip(i).take(text.len() as int)[11 + k] == w[i + 11 + k]);
            assert(text[11 + k] == d[k]);
        }
        assert forall|k: int| 0 <= k < n implies is_digit(#[trigger] a[k]) by {
            assert(is_digit(d[k]));
        }
        if n < a.len() {
            assert(w.skip(i).take(text.len() as int)[11 + n] == w[i + 11 + n]);
            assert(text[11 + n] == ')');
        }
        lemma_digits_closed(a, n);
        assert(a =~= d);
        assert(is_digit(d[0]) && is_digit(d[n - 1]));
        assert(!spaces()(d[0]) && !spaces()(d.last()));
        assert(trim(d) == d);
    }
}

/// A text without a colon is what is left of it with pseudo-classes behind it, in
/// any number and order: with numbers that can be read, and with texts and
/// selectors without a colon. Matching takes the same text as the base.
#[verifier::rlimit(50)]
pub proof fn lemma_suffixes_are_stripped(s: Seq<char>, xs: Seq<Suffix>)
    requires
        no_colon(s),
        forall|j: int| 0 <= j < xs.len() ==> simple_suffix(#[trigger] xs[j]),
    ensures
        without_pseudo(s + suffixes_text(xs)) == s,
        parse_pseudo(s + suffixes_text(xs)).base == s,
    decreases xs.len(),
{
    let w = s + suffixes_text(xs);
    reveal_strlit(":visible");
    if xs.len() == 0 {
        assert(w =~= s);
        lemma_missing_char(s, ":visible"@, 0);
        assert forall|i: int| 0 <= i < s.len() implies (#[trigger] call_at(s, i)) is None by {
            if let Some(kind) = call_at(s, i) {
                lemma_call_at(s, kind, i);
            }
        }
        lemma_no_call_without_start(s);
    } else {
        let front = xs.drop_last();
        let text = suffix_text(xs.last());
        let v = s + suffixes_text(front);
        assert(w =~= v + text);
        assert(simple_suffix(xs[xs.len() - 1]));
        lemma_suffix_chars(xs.last());
        if xs.last() is Visible {
            assert(w.subrange(w.len() - 8, w.len() as int) =~= ":visible"@);
            assert(w.take(w.len() - 8) =~= v);
            lemma_suffixes_are_stripped(s, front);
        } else {
            if ends_with(w, ":visible"@) {
                assert(w.subrange(w.len() - 8, w.len() as int)[7] == w.last());
            }
            let k = lemma_last_of_suffixes(s, xs);
            lemma_suffixes_are_stripped(s, xs.take(k));
        }
    }
}

/// A segment without the pseudo-classes at its end.
pub fn strip_pseudo_classes<'a>(s: &'a str) -> (r: &'a str)
    ensures
        r@ == without_pseudo(s@),
        numbers_read(s@) ==> r@ == parse_pseudo(s@).base,
{
    proof {
        if numbers_read(s@) {
            lemma_same_base(s@);
        }
    }
    let mut base: &'a str = s;
    loop
        invariant
            without_pseudo(s@) == without_pseudo(base@),
            numbers_read(s@) ==> without_pseudo(s@) == parse_pseudo(s@).base,
        decreases base@.len(),
    {
        proof {
            reveal_strlit(":visible");
            lemma_last_call_shorter(base@);
        }
        if let Some(stripped) = strip_suffix_text(base, ":visible") {
            base = stripped;
        } else if let Some((_, before, _)) = split_last_call(base) {
            base = before;
        } else {
            return base;
        }
    }
}

// ---------------------------------------------------------------------------
// Segments
// ---------------------------------------------------------------------------

/// What stands between the first bracket of `s` and its last character.
pub open spec fn inside_bracket(s: Seq<char>) -> Seq<char> {
    match find(s, "["@) {
        Some(p) => s.subrange(p + 1, s.len() - 1),
        None => Seq::empty(),
    }
}

/// One of the class names after the first dot of a selector is not empty.
pub open spec fn names_class(s: Seq<char>) -> bool {
    let parts = split(split(s, ":not("@)[0], "."@);
    exists|k: int| 1 <= k < parts.len() && (#[trigger] parts[k]).len() > 0
}

/// `s` is made of alphanumeric characters and underscores.
pub open spec fn is_word(s: Seq<char>) -> bool {
    forall|k: int| 0 <= k < s.len() ==> alphanumeric(#[trigger] s[k]) || s[k] == '_'
}

/// `s` is a role with its number among the siblings, as in `AXGroup:nth(2)`.
pub open spec fn is_numbered_role(s: Seq<char>) -> bool {
    match split_once(s, ":nth("@) {
        Some((role, rest)) => role.len() > 0 && is_word(role) && match strip_suffix(rest, ")"@) {
            Some(digits) => parse_unsigned(digits, usize::MAX as nat) is Some,
            None => false,
        },
        None => false,
    }
}

/// `message` with `s` between backquotes at its end.
pub open spec fn message_about(message: Seq<char>, s: Seq<char>) -> Seq<char> {
    message + s + "`"@
}

/// What is wrong with the selector `s`, which has no pseudo-classes.
pub open spec fn base_error(s: Seq<char>) -> Option<Seq<char>> {
    if s.len() == 0 || s == "first"@ || s == "last"@ || starts_with(s, "nth="@) {
        None
    } else if starts_with(s, "#"@) {
        if s.len() > 1 {
            None
        } else {
            Some("empty DOM ID after `#`"@)
        }
    } else if starts_with(s, "text="@) || starts_with(s, "text~="@) {
        None
    } else if contains(s, "["@) {
        if !ends_with(s, "]"@) {
            Some(message_about("unclosed bracket in `"@, s))
        } else if !contains(inside_bracket(s), "="@) {
            Some(message_about("bracket selector missing `=` in `"@, s))
        } else {
            None
        }
    } else if contains(s, "#"@) {
        if split_once(s, "#"@) matches Some((_, id)) && id.len() > 0 {
            None
        } else {
            Some(message_about("empty DOM ID after `#` in `"@, s))
        }
    } else if contains(s, "."@) {
        if names_class(s) {
            None
        } else {
            Some(message_about("empty class name in `"@, s))
        }
    } else if is_word(s) || is_numbered_role(s) {
        None
    } else {
        Some(message_about("unrecognized locator syntax: `"@, s))
    }
}

/// What is wrong with a segment of a locator.
pub open spec fn segment_error(seg: Seq<char>) -> Option<Seq<char>> {
    if trim(seg).len() == 0 {
        Some("empty segment (double `>>` or trailing `>>`)"@)
    } else {
        base_error(without_pseudo(trim(seg)))
    }
}

/// The error of a check.
pub open spec fn check_error(r: Result<(), String>) -> Option<Seq<char>> {
    match r {
        Ok(_) => None,
        Err(m) => Some(m@),
    }
}

fn some_class_named(s: &str) -> (r: bool)
    ensures
        r == names_class(s@),
{
    proof {
        reveal_strlit(":not(");
        reveal_strlit(".");
    }
    let without_not = split_text(s, ":not(");
    assert(str_views(without_not@)[0] == without_not@[0]@);
    let parts = split_text(without_not[0], ".");
    let ghost all = str_views(parts@);
    for k in 1..parts.len()
        invariant
            all == str_views(parts@),
            all == split(split(s@, ":not("@)[0], "."@),
            forall|j: int| 1 <= j < k ==> (#[trigger] all[j]).len() == 0,
    {
        if !parts[k].is_empty() {
            assert(all[k as int].len() > 0);
            return true;
        }
    }
    false
}

fn all_word_chars(s: &str) -> (r: bool)
    ensures
        r == is_word(s@),
{
    let cs = chars_of(s);
    for k in 0..cs.len()
        invariant
            cs@ == s@,
            forall|j: int| 0 <= j < k ==> alphanumeric(#[trigger] s@[j]) || s@[j] == '_',
    {
        if !(is_alphanumeric(cs[k]) || cs[k] == '_') {
            assert(!(alphanumeric(s@[k as int]) || s@[k as int] == '_'));
            return false;
        }
    }
    true
}

fn numbers_role(s: &str) -> (r: bool)
    ensures
        r == is_numbered_role(s@),
{
    if let Some((role, rest)) = split_once_text(s, ":nth(") {
        if let Some(digits) = strip_suffix_text(rest, ")") {
            return !role.is_empty() && all_word_chars(role) && parse_usize(digits).is_some();
        }
    }
    false
}

fn check_bracket(s: &str) -> (r: Result<(), String>)
    requires
        contains(s@, "["@),
    ensures
        check_error(r) == if !ends_with(s@, "]"@) {
            Some(message_about("unclosed bracket in `"@, s@))
        } else if !contains(inside_bracket(s@), "="@) {
            Some(message_about("bracket selector missing `=` in `"@, s@))
        } else {
            None
        },
{
    proof {
        lemma_find(s@, "["@);
        reveal_strlit("[");
        reveal_strlit("]");
    }
    if !ends_with_text(s, "]") {
        return Err(append3("unclosed bracket in `", s, "`"));
    }
    if let Some(p) = find_text(s, "[") {
        let n: usize = char_count(s);
        proof {
            assert(s@.subrange(p as int, p + 1)[0] == s@[p as int]);
            assert(s@.subrange(n - 1, n as int)[0] == s@[n - 1]);
        }
        if !contains_text(slice(s, p + 1, n - 1), "=") {
            return Err(append3("bracket selector missing `=` in `", s, "`"));
        }
    }
    Ok(())
}

fn check_base(s: &str) -> (r: Result<(), String>)
    ensures
        check_error(r) == base_error(s@),
{
    if s.is_empty() || same_text(s, "first") || same_text(s, "last") || starts_with_text(
        s,
        "nth=",
    ) {
        return Ok(());
    }
    if starts_with_text(s, "#") {
        return if char_count(s) > 1 {
            Ok(())
        } else {
            Err("empty DOM ID after `#`".to_owned())
        };
    }
    if starts_with_text(s, "text=") || starts_with_text(s, "text~=") {
        return Ok(());
    }
    if contains_text(s, "[") {
        return check_bracket(s);
    }
    if contains_text(s, "#") {
        // The role is optional, the identifier is not.
        if let Some((_, id)) = split_once_text(s, "#") {
            if !id.is_empty() {
                return Ok(());
            }
        }
        return Err(append3("empty DOM ID after `#` in `", s, "`"));
    }
    if contains_text(s, ".") {
        return if some_class_named(s) {
            Ok(())
        } else {
            Err(append3("empty class name in `", s, "`"))
        };
    }
    if all_word_chars(s) || numbers_role(s) {
        return Ok(());
    }
    Err(append3("unrecognized locator syntax: `", s, "`"))
}

/// Checks a segment of a locator, which stands between ` >> ` or ` > `.
pub fn validate_segment(seg: &str) -> (r: Result<(), String>)
    ensures
        check_error(r) == segment_error(seg@),
{
    let s = trim_text(seg);
    if s.is_empty() {
        return Err("empty segment (double `>>` or trailing `>>`)".to_owned());
    }
    check_base(strip_pseudo_classes(s))
}

// ---------------------------------------------------------------------------
// Locators
// ---------------------------------------------------------------------------

/// The first error in the segments.
pub open spec fn segments_error(segments: Seq<Seq<char>>) -> Option<Seq<char>>
    decreases segments.len(),
{
    if segments.len() == 0 {
        None
    } else {
        match segments_error(segments.drop_last()) {
            Some(e) => Some(e),
            None => segment_error(segments.last()),
        }
    }
}

/// The first error in the parts of a locator, each of which ` > ` can separate
/// into segments.
pub open spec fn parts_error(parts: Seq<Seq<char>>) -> Option<Seq<char>>
    decreases parts.len(),
{
    if parts.len() == 0 {
        None
    } else {
        match parts_error(parts.drop_last()) {
            Some(e) => Some(e),
            None => segments_error(split(parts.last(), " > "@)),
        }
    }
}

/// The first error in the locator `s`.
pub open spec fn locator_error(s: Seq<char>) -> Option<Seq<char>> {
    parts_error(split(s, " >> "@))
}

fn validate_part(part: &str) -> (r: Result<(), String>)
    ensures
        check_error(r) == segments_error(split(part@, " > "@)),
{
    proof {
        reveal_strlit(" > ");
    }
    let segments = split_text(part, " > ");
    let ghost all = str_views(segments@);
    for k in 0..segments.len()
        invariant
            all == str_views(segments@),
            all == split(part@, " > "@),
            segments_error(all.take(k as int)) is None,
    {
        proof {
            assert(all.take(k + 1).drop_last() =~= all.take(k as int));
            assert(all.take(k + 1).last() == segments@[k as int]@);
        }
        let checked = validate_segment(segments[k]);
        if checked.is_err() {
            proof {
                lemma_segments_error_stays(all, k + 1);
            }
            return checked;
        }
    }
    assert(all.take(segments@.len() as int) =~= all);
    Ok(())
}

proof fn lemma_segments_error_stays(segments: Seq<Seq<char>>, k: int)
    requires
        0 <= k <= segments.len(),
        segments_error(segments.take(k)) is Some,
    ensures
        segments_error(segments) == segments_error(segments.take(k)),
    decreases segments.len() - k,
{
    if k == segments.len() {
        assert(segments.take(k) =~= segments);
    } else {
        assert(segments.take(k + 1).drop_last() =~= segments.take(k));
        lemma_segments_error_stays(segments, k + 1);
    }
}

proof fn lemma_parts_error_stays(parts: Seq<Seq<char>>, k: int)
    requires
        0 <= k <= parts.len(),
        parts_error(parts.take(k)) is Some,
    ensures
        parts_error(parts) == parts_error(parts.take(k)),
    decreases parts.len() - k,
{
    if k == parts.len() {
        assert(parts.take(k) =~= parts);
    } else {
        assert(parts.take(k + 1).drop_last() =~= parts.take(k));
        lemma_parts_error_stays(parts, k + 1);
    }
}

/// Checks a locator. The error is that of its first bad segment.
pub fn validate_locator(locator: &str) -> (r: Result<(), AxError>)
    ensures
        match r {
            Ok(_) => locator_error(locator@) is None,
            Err(AxError::LocatorInvalid(m)) => locator_error(locator@) matches Some(e) && m@ == e
                + "\n  locator: "@ + locator@,
            Err(_) => false,
        },
{
    proof {
        reveal_strlit(" >> ");
    }
    let parts = split_text(locator, " >> ");
    let ghost all = str_views(parts@);
    for k in 0..parts.len()
        invariant
            all == str_views(parts@),
            all == split(locator@, " >> "@),
            parts_error(all.take(k as int)) is None,
    {
        proof {
            assert(all.take(k + 1).drop_last() =~= all.take(k as int));
            assert(all.take(k + 1).last() == parts@[k as int]@);
        }
        if let Err(msg) = validate_part(parts[k]) {
            proof {
                lemma_parts_error_stays(all, k + 1);
            }
            return Err(AxError::LocatorInvalid(append3(msg.as_str(), "\n  locator: ", locator)));
        }
    }
    assert(all.take(parts@.len() as int) =~= all);
    Ok(())
}

// ---------------------------------------------------------------------------
// Laws
// ---------------------------------------------------------------------------

proof fn lemma_valid_segments_are_steps(segments: Seq<Seq<char>>)
    requires
        segments_error(segments) is None,
    ensures
        segment_steps(segments).len() == segments.len(),
    decreases segments.len(),
{
    if segments.len() > 0 {
        lemma_valid_segments_are_steps(segments.drop_last());
    }
}

proof fn lemma_valid_parts_have_steps(parts: Seq<Seq<char>>)
    requires
        parts_error(parts) is None,
    ensures
        chain_steps(parts).len() >= parts.len(),
    decreases parts.len(),
{
    if parts.len() > 0 {
        lemma_valid_parts_have_steps(parts.drop_last());
        lemma_valid_segments_are_steps(split(parts.last(), " > "@));
        lemma_split_nonempty(parts.last(), " > "@);
    }
}

/// A valid locator has at least one step.
pub proof fn lemma_valid_locator_has_steps(s: Seq<char>)
    requires
        locator_error(s) is None,
    ensures
        locator_steps(s).len() >= 1,
{
    lemma_valid_parts_have_steps(split(s, " >> "@));
    lemma_split_nonempty(s, " >> "@);
}

// ---------------------------------------------------------------------------
// Laws
// ---------------------------------------------------------------------------

/// A segment without a colon, with no white space at its ends, is judged as it
/// stands.
proof fn lemma_judged_as_is(s: Seq<char>)
    requires
        s.len() > 0,
        no_colon(s) || s.last() == ']',
        !white_space(s[0]),
        !white_space(s.last()),
    ensures
        segment_error(s) == base_error(s),
{
    assert(!spaces()(s[0]) && !spaces()(s.last()));
    assert(trim(s) == s);
    if no_colon(s) {
        assert(suffixes_text(Seq::empty()) =~= Seq::<char>::empty());
        assert(s + suffixes_text(Seq::empty()) =~= s);
        lemma_suffixes_are_stripped(s, Seq::empty());
    } else {
        reveal_strlit(":visible");
        if ends_with(s, ":visible"@) {
            assert(s.subrange(s.len() - 8, s.len() as int)[7] == s.last());
        }
    }
}

/// Pseudo-classes with numbers that can be read, and with texts and selectors
/// without a colon, make no difference to whether a segment is right.
#[verifier::rlimit(50)]
pub proof fn lemma_suffixes_are_right(s: Seq<char>, xs: Seq<Suffix>)
    requires
        s.len() > 0,
        no_colon(s),
        !white_space(s[0]),
        !white_space(s.last()),
        forall|j: int| 0 <= j < xs.len() ==> simple_suffix(#[trigger] xs[j]),
    ensures
        segment_error(s + suffixes_text(xs)) == segment_error(s),
{
    lemma_judged_as_is(s);
    lemma_suffixes_are_stripped(s, xs);
    let w = s + suffixes_text(xs);
    if xs.len() > 0 {
        assert(simple_suffix(xs[xs.len() - 1]));
        lemma_suffix_chars(xs.last());
        let front = suffixes_text(xs.drop_last());
        assert(w =~= s + front + suffix_text(xs.last()));
        assert(w.last() == suffix_text(xs.last()).last());
    } else {
        assert(w =~= s);
    }
    assert(w[0] == s[0]);
    assert(!spaces()(w[0]) && !spaces()(w.last()));
    assert(trim(w) == w);
}

/// A blank segment is wrong, whatever white space it is made of.
pub proof fn lemma_blank_segment(s: Seq<char>)
    requires
        forall|k: int| 0 <= k < s.len() ==> white_space(#[trigger] s[k]),
    ensures
        segment_error(s) == Some("empty segment (double `>>` or trailing `>>`)"@),
{
    lemma_trim_by(s, spaces());
    let (i, j) = choose|i: int, j: int|
        0 <= i <= j <= s.len() && #[trigger] s.subrange(i, j) == trim_by(s, spaces()) && (forall|
            k: int,
        |
            0 <= k < i || j <= k < s.len() ==> spaces()(#[trigger] s[k]));
    if trim(s).len() > 0 {
        assert(trim(s)[0] == s[i]);
        assert(white_space(s[i]));
        assert(!spaces()(trim(s)[0]));
    }
}

/// A role is a segment, and so is a role with its number among the siblings.
#[verifier::rlimit(50)]
pub proof fn lemma_roles_are_right(role: Seq<char>, n: nat)
    requires
        simple_role(role),
        n <= usize::MAX,
    ensures
        segment_error(role) is None,
        base_error(nth_selector(role, n)) is None,
        without_pseudo(nth_selector(role, n)) == nth_selector(role, n),
{
    assert forall|k: int| 0 <= k < role.len() implies #[trigger] role[k] != ':' && role[k] != '#'
        && role[k] != '=' && role[k] != '[' && role[k] != '.' by {
        assert(ascii_alphanumeric(role[k]));
    }
    assert(ascii_alphanumeric(role[0]) && ascii_alphanumeric(role[role.len() - 1]));
    lemma_judged_as_is(role);
    reveal_strlit("#");
    reveal_strlit("text=");
    reveal_strlit("text~=");
    reveal_strlit("[");
    reveal_strlit(".");
    lemma_missing_char(role, "#"@, 0);
    lemma_missing_char(role, "text="@, 4);
    lemma_missing_char(role, "text~="@, 5);
    lemma_missing_char(role, "["@, 0);
    lemma_missing_char(role, "."@, 0);
    lemma_is_word(role);
    lemma_numbered_role(role, n);
}

proof fn lemma_is_word(role: Seq<char>)
    requires
        simple_role(role),
    ensures
        is_word(role),
{
    assert forall|k: int| 0 <= k < role.len() implies alphanumeric(#[trigger] role[k])
        || role[k] == '_' by {
        assert(ascii_alphanumeric(role[k]));
    }
}

#[verifier::rlimit(50)]
proof fn lemma_numbered_role(role: Seq<char>, n: nat)
    requires
        simple_role(role),
        n <= usize::MAX,
    ensures
        base_error(nth_selector(role, n)) is None,
        without_pseudo(nth_selector(role, n)) == nth_selector(role, n),
{
    let s = nth_selector(role, n);
    let p = role.len() as int;
    let digits = decimal(n);
    lemma_decimal_reads_back(n);
    lemma_nth_selector_chars(role, n);
    lemma_nth_selector_read(role, n);
    lemma_is_word(role);
    reveal_strlit(":nth(");
    reveal_strlit(")");
    reveal_strlit(":visible");
    reveal_strlit("[");
    reveal_strlit("#");
    assert(s.subrange(p, p + 5)[1] == s[p + 1]);
    assert(s.subrange(p, p + 5)[4] == s[p + 4]);
    lemma_no_pseudo(s, p);
    lemma_find(s, "["@);
    lemma_find(s, "#"@);
    let rest = digits + ")"@;
    assert(split_once(s, ":nth("@) == Some((role, rest)));
    assert(rest.subrange(digits.len() as int, rest.len() as int) =~= ")"@);
    assert(rest.take(digits.len() as int) =~= digits);
    assert(strip_suffix(rest, ")"@) == Some(digits));
    assert(is_digit(digits[0]));
    assert(is_numbered_role(s));
    assert(last_call(s) is None) by {
        assert forall|i: int| 0 <= i < s.len() implies (#[trigger] call_at(s, i)) is None by {
            if let Some(kind) = call_at(s, i) {
                lemma_call_at(s, kind, i);
                lemma_not_nth(s, i, kind);
            }
        }
        lemma_no_call_without_start(s);
    }
    if ends_with(s, ":visible"@) {
        assert(s.subrange(s.len() - 8, s.len() as int)[7] == s.last());
    }
}

proof fn lemma_not_nth(s: Seq<char>, i: int, kind: PseudoCall)
    requires
        0 <= i,
        i + 4 < s.len(),
        s[i + 1] == 'n',
        s[i + 4] == '(',
    ensures
        !occurs_at(s, call_start(kind), i),
{
    reveal_strlit(":nth-child(");
    reveal_strlit(":has-text(");
    reveal_strlit(":has(");
    if occurs_at(s, call_start(kind), i) {
        assert(s.subrange(i, i + call_start(kind).len())[1] == s[i + 1]);
        assert(s.subrange(i, i + call_start(kind).len())[4] == s[i + 4]);
    }
}

/// `#` needs an identifier, at the beginning and behind a role.
#[verifier::rlimit(50)]
pub proof fn lemma_identifiers(role: Seq<char>, id: Seq<char>)
    requires
        simple_role(role),
        no_colon(id),
        forall|k: int| 0 <= k < id.len() ==> #[trigger] id[k] != '[',
        id.len() > 0 ==> !white_space(id.last()),
    ensures
        id.len() > 0 ==> segment_error("#"@ + id) is None,
        segment_error("#"@) == Some("empty DOM ID after `#`"@),
        id.len() > 0 ==> segment_error(role + "#"@ + id) is None,
        segment_error(role + "#"@) == Some("empty DOM ID after `#` in `"@ + (role + "#"@) + "`"@),
{
    let a = "#"@ + id;
    reveal_strlit("#");
    assert forall|k: int| 0 <= k < a.len() implies #[trigger] a[k] != ':' by {
        if k > 0 {
            assert(a[k] == id[k - 1]);
        }
    }
    assert(a.subrange(0, 1) =~= "#"@);
    assert(a.last() == if id.len() > 0 {
        id.last()
    } else {
        '#'
    });
    lemma_judged_as_is(a);
    assert("#"@.subrange(0, 1) =~= "#"@);
    lemma_judged_as_is("#"@);
    lemma_not_special("#"@, 0);
    lemma_not_numbered(Seq::empty(), "#"@);
    lemma_not_special(a, 0);
    lemma_not_numbered(Seq::empty(), a);
    lemma_role_and_identifier(role, id);
    lemma_role_and_identifier(role, Seq::empty());
    assert(role + "#"@ + Seq::<char>::empty() =~= role + "#"@);
}

/// A segment with a mark in it is none of the words for selections.
proof fn lemma_not_special(s: Seq<char>, k: int)
    requires
        0 <= k < s.len(),
        s[k] == '#' || s[k] == '[' || s[k] == '.' || s[k] == ' ',
    ensures
        s != "first"@,
        s != "last"@,
{
    reveal_strlit("first");
    reveal_strlit("last");
}

/// A segment that begins with a role and a mark does not begin with `nth=`.
proof fn lemma_not_numbered(role: Seq<char>, s: Seq<char>)
    requires
        role.len() > 0 ==> simple_role(role),
        role.len() < s.len(),
        forall|k: int| 0 <= k < role.len() ==> #[trigger] s[k] == role[k],
        s[role.len() as int] == '#' || s[role.len() as int] == '[' || s[role.len() as int] == '.'
            || s[role.len() as int] == ' ',
    ensures
        !starts_with(s, "nth="@),
{
    reveal_strlit("nth=");
    let n = role.len() as int;
    if starts_with(s, "nth="@) {
        if n < 4 {
            assert(s.subrange(0, 4)[n] == s[n]);
        } else {
            assert(s.subrange(0, 4)[3] == s[3]);
            assert(s[3] == role[3]);
            assert(ascii_alphanumeric(role[3]));
        }
    }
}

proof fn lemma_role_and_identifier(role: Seq<char>, id: Seq<char>)
    requires
        simple_role(role),
        no_colon(id),
        forall|k: int| 0 <= k < id.len() ==> #[trigger] id[k] != '[',
        id.len() > 0 ==> !white_space(id.last()),
    ensures
        segment_error(role + "#"@ + id) == if id.len() > 0 {
            None
        } else {
            Some("empty DOM ID after `#` in `"@ + (role + "#"@ + id) + "`"@)
        },
{
    let s = role + "#"@ + id;
    let n = role.len() as int;
    reveal_strlit("#");
    assert(s[n] == '#' && s[0] == role[0]);
    assert(s.last() == if id.len() > 0 {
        id.last()
    } else {
        '#'
    });
    assert(ascii_alphanumeric(role[0]));
    lemma_role_and_id_read(role, id, s);
    lemma_role_and_id_once(role, id, s);
    lemma_judged_as_is(s);
    lemma_not_special(s, n);
    lemma_not_numbered(role, s);
    lemma_find(s, "["@);
    lemma_find(s, "#"@);
}

/// A bracket needs its end and a `=`.
pub proof fn lemma_brackets(role: Seq<char>, inside: Seq<char>)
    requires
        simple_role(role),
    ensures
        (exists|k: int| 0 <= k < inside.len() && #[trigger] inside[k] == '=') ==> segment_error(
            role + "["@ + inside + "]"@,
        ) is None,
        (forall|k: int| 0 <= k < inside.len() ==> #[trigger] inside[k] != '=') ==> segment_error(
            role + "["@ + inside + "]"@,
        ) == Some(
            "bracket selector missing `=` in `"@ + (role + "["@ + inside + "]"@) + "`"@,
        ),
        no_colon(inside) && (inside.len() > 0 ==> inside.last() != ']' && !white_space(
            inside.last(),
        )) ==> segment_error(role + "["@ + inside) == Some(
            "unclosed bracket in `"@ + (role + "["@ + inside) + "`"@,
        ),
{
    lemma_closed_bracket(role, inside);
    if no_colon(inside) && (inside.len() > 0 ==> inside.last() != ']' && !white_space(
        inside.last(),
    )) {
        lemma_open_bracket(role, inside);
    }
}

#[verifier::rlimit(50)]
proof fn lemma_closed_bracket(role: Seq<char>, inside: Seq<char>)
    requires
        simple_role(role),
    ensures
        (exists|k: int| 0 <= k < inside.len() && #[trigger] inside[k] == '=') ==> segment_error(
            role + "["@ + inside + "]"@,
        ) is None,
        (forall|k: int| 0 <= k < inside.len() ==> #[trigger] inside[k] != '=') ==> segment_error(
            role + "["@ + inside + "]"@,
        ) == Some(
            "bracket selector missing `=` in `"@ + (role + "["@ + inside + "]"@) + "`"@,
        ),
{
    let s = role + "["@ + inside + "]"@;
    let n = role.len() as int;
    lemma_bracket_selector_parts(role, inside, s);
    lemma_bracket_selector_start(role, s);
    assert(ascii_alphanumeric(role[0]));
    assert(s[0] == role[0]);
    lemma_judged_as_is(s);
    lemma_not_special(s, n);
    lemma_not_numbered(role, s);
    lemma_find(s, "["@);
    reveal_strlit("[");
    reveal_strlit("]");
    reveal_strlit("=");
    assert(s.subrange(s.len() - 1, s.len() as int) =~= "]"@);
    assert(s.subrange(n + 1, s.len() - 1) =~= inside);
    if exists|k: int| 0 <= k < inside.len() && #[trigger] inside[k] == '=' {
        let k = choose|k: int| 0 <= k < inside.len() && #[trigger] inside[k] == '=';
        assert(inside.subrange(k, k + 1) =~= "="@);
        assert(occurs_at(inside, "="@, k));
    } else {
        lemma_missing_char(inside, "="@, 0);
    }
}

#[verifier::rlimit(50)]
proof fn lemma_open_bracket(role: Seq<char>, inside: Seq<char>)
    requires
        simple_role(role),
        no_colon(inside),
        inside.len() > 0 ==> inside.last() != ']' && !white_space(inside.last()),
    ensures
        segment_error(role + "["@ + inside) == Some(
            "unclosed bracket in `"@ + (role + "["@ + inside) + "`"@,
        ),
{
    let s = role + "["@ + inside;
    let n = role.len() as int;
    reveal_strlit("[");
    reveal_strlit("]");
    assert(s[n] == '[');
    assert(s.take(n) =~= role);
    lemma_bracket_selector_start(role, s);
    assert forall|k: int| 0 <= k < s.len() implies #[trigger] s[k] != ':' by {
        if k < n {
            assert(s[k] == role[k]);
            assert(ascii_alphanumeric(role[k]));
        } else if k > n {
            assert(s[k] == inside[k - n - 1]);
        }
    }
    assert(ascii_alphanumeric(role[0]));
    assert(s[0] == role[0]);
    assert(s.last() == if inside.len() > 0 {
        inside.last()
    } else {
        '['
    });
    lemma_judged_as_is(s);
    lemma_not_special(s, n);
    lemma_not_numbered(role, s);
    assert(s.subrange(n, n + 1) =~= "["@);
    assert(occurs_at(s, "["@, n));
    if ends_with(s, "]"@) {
        assert(s.subrange(s.len() - 1, s.len() as int)[0] == s.last());
    }
}

/// A dot needs the name of a class.
pub proof fn lemma_class_segments(role: Seq<char>, names: Seq<Seq<char>>)
    requires
        role.len() > 0 ==> simple_role(role),
        names.len() > 0,
        simple_classes(names),
    ensures
        segment_error(role + dotted(names)) is None,
        segment_error(role + "."@) == Some("empty class name in `"@ + (role + "."@) + "`"@),
{
    lemma_named_classes(role, names);
    lemma_unnamed_class(role);
}

#[verifier::rlimit(50)]
proof fn lemma_named_classes(role: Seq<char>, names: Seq<Seq<char>>)
    requires
        role.len() > 0 ==> simple_role(role),
        names.len() > 0,
        simple_classes(names),
    ensures
        segment_error(role + dotted(names)) is None,
{
    let s = role + dotted(names);
    let n = role.len() as int;
    lemma_class_selector_read(role, names, s);
    lemma_dotted_chars(names);
    assert(s.take(n) =~= role);
    assert(s.skip(n) =~= dotted(names));
    lemma_class_selector_role(role, names, s);
    assert(s.last() == dotted(names).last());
    if n > 0 {
        assert(s[0] == role[0]);
        assert(ascii_alphanumeric(role[0]));
    }
    lemma_judged_as_is(s);
    lemma_not_special(s, n);
    lemma_not_numbered(role, s);
    lemma_find(s, "["@);
    lemma_find(s, "#"@);
    reveal_strlit(":not(");
    reveal_strlit(".");
    lemma_missing_char(s, ":not("@, 0);
    assert(split(s, ":not("@) =~= seq![s]);
    // The first of the names stands behind the first dot.
    lemma_split_parts(role, names);
    let parts = split(s, "."@);
    assert(parts[1] == names[0]);
    assert(simple_class(names[0]));
    assert(split(s, ":not("@)[0] == s);
    assert(1 < parts.len() && parts[1].len() > 0);
    assert(names_class(s));
    assert(base_error(s) is None);
}

proof fn lemma_split_parts(role: Seq<char>, names: Seq<Seq<char>>)
    requires
        role.len() > 0 ==> simple_role(role),
        simple_classes(names),
    ensures
        split(role + dotted(names), "."@) == seq![role] + names,
    decreases names.len(),
{
    reveal_strlit(".");
    if names.len() == 0 {
        assert(role + dotted(names) =~= role);
        assert forall|k: int| 0 <= k < role.len() implies #[trigger] role[k] != '.' by {
            assert(ascii_alphanumeric(role[k]));
        }
        lemma_missing_char(role, "."@, 0);
        assert(split(role, "."@) =~= seq![role] + names);
    } else {
        let front = names.drop_last();
        let last = names[names.len() - 1];
        assert forall|k: int| 0 <= k < front.len() implies simple_class(#[trigger] front[k]) by {
            assert(front[k] == names[k]);
        }
        lemma_split_parts(role, front);
        assert(simple_class(last));
        let a = role + dotted(front);
        assert(role + dotted(names) =~= a + "."@ + last);
        lemma_split_append(a, "."@, last);
        assert forall|k: int| 0 <= k < last.len() implies #[trigger] last[k] != '.' by {
            assert(name_char(last[k]));
        }
        lemma_missing_char(last, "."@, 0);
        assert(split(last, "."@) =~= seq![last]);
        assert(seq![role] + front + seq![last] =~= seq![role] + names);
    }
}

proof fn lemma_split_dot(role: Seq<char>)
    requires
        role.len() > 0 ==> simple_role(role),
    ensures
        contains(role + "."@, "."@),
        split(role + "."@, "."@) == seq![role, Seq::<char>::empty()],
{
    let none = Seq::<char>::empty();
    let s = role + "."@;
    let n = role.len() as int;
    reveal_strlit(".");
    assert(s.subrange(n, n + 1) =~= "."@);
    assert(occurs_at(s, "."@, n));
    assert(s =~= role + "."@ + none);
    lemma_split_append(role, "."@, none);
    assert forall|k: int| 0 <= k < role.len() implies #[trigger] role[k] != '.' by {
        assert(ascii_alphanumeric(role[k]));
    }
    lemma_missing_char(role, "."@, 0);
    lemma_missing_char(none, "."@, 0);
    assert(split(role, "."@) =~= seq![role]);
    assert(split(none, "."@) =~= seq![none]);
    assert(split(s, "."@) =~= seq![role, none]);
}

proof fn lemma_dot_read(role: Seq<char>, s: Seq<char>)
    requires
        role.len() > 0 ==> simple_role(role),
        s == role + "."@,
    ensures
        s.len() == role.len() + 1,
        s.last() == '.',
        !white_space(s[0]),
        no_colon(s),
        !contains(s, "#"@),
        !contains(s, "["@),
        !contains(s, "text="@),
        !contains(s, "text~="@),
        !contains(s, ":not("@),
        s != "first"@,
        s != "last"@,
        !starts_with(s, "nth="@),
{
    let n = role.len() as int;
    reveal_strlit(".");
    reveal_strlit(":not(");
    reveal_strlit("#");
    reveal_strlit("[");
    reveal_strlit("text=");
    reveal_strlit("text~=");
    assert(s[n] == '.');
    assert forall|k: int| 0 <= k < s.len() implies #[trigger] s[k] != ':' && s[k] != '#' && s[k]
        != '[' && s[k] != '=' by {
        if k < n {
            assert(s[k] == role[k]);
            assert(ascii_alphanumeric(role[k]));
        }
    }
    if n > 0 {
        assert(s[0] == role[0]);
        assert(ascii_alphanumeric(role[0]));
    }
    lemma_not_special(s, n);
    lemma_not_numbered(role, s);
    lemma_missing_char(s, "#"@, 0);
    lemma_missing_char(s, "["@, 0);
    lemma_missing_char(s, "text="@, 4);
    lemma_missing_char(s, "text~="@, 5);
    lemma_missing_char(s, ":not("@, 0);
}

proof fn lemma_names_nothing(role: Seq<char>, s: Seq<char>)
    requires
        !contains(s, ":not("@),
        split(s, "."@) == seq![role, Seq::<char>::empty()],
    ensures
        !names_class(s),
{
    lemma_find(s, ":not("@);
    let whole = split(s, ":not("@);
    assert(whole.len() == 1 && whole[0] == s);
    let parts = split(s, "."@);
    assert(parts.len() == 2);
    assert(parts[1].len() == 0);
}

proof fn lemma_base_of_dot(s: Seq<char>)
    requires
        s.len() > 0,
        s != "first"@,
        s != "last"@,
        !starts_with(s, "nth="@),
        !contains(s, "#"@),
        !contains(s, "["@),
        !contains(s, "text="@),
        !contains(s, "text~="@),
        contains(s, "."@),
        !names_class(s),
    ensures
        base_error(s) == Some("empty class name in `"@ + s + "`"@),
{
    assert(!starts_with(s, "#"@) && !starts_with(s, "text="@) && !starts_with(s, "text~="@));
}

#[verifier::rlimit(50)]
proof fn lemma_unnamed_class(role: Seq<char>)
    requires
        role.len() > 0 ==> simple_role(role),
    ensures
        segment_error(role + "."@) == Some("empty class name in `"@ + (role + "."@) + "`"@),
{
    let s = role + "."@;
    lemma_dot_read(role, s);
    lemma_split_dot(role);
    lemma_names_nothing(role, s);
    lemma_base_of_dot(s);
    lemma_judged_as_is(s);
}

/// Two words are no segment.
#[verifier::rlimit(50)]
pub proof fn lemma_two_words(a: Seq<char>, b: Seq<char>)
    requires
        simple_role(a),
        simple_role(b),
    ensures
        segment_error(a + " "@ + b) == Some(
            "unrecognized locator syntax: `"@ + (a + " "@ + b) + "`"@,
        ),
{
    let s = a + " "@ + b;
    let n = a.len() as int;
    reveal_strlit(" ");
    reveal_strlit(".");
    reveal_strlit("#");
    reveal_strlit("[");
    reveal_strlit("text=");
    reveal_strlit("text~=");
    reveal_strlit(":nth(");
    assert(s[n] == ' ');
    assert forall|k: int| 0 <= k < s.len() implies #[trigger] s[k] != ':' && s[k] != '#' && s[k]
        != '[' && s[k] != '=' && s[k] != '.' by {
        if k < n {
            assert(s[k] == a[k]);
            assert(ascii_alphanumeric(a[k]));
        } else if k > n {
            assert(s[k] == b[k - n - 1]);
            assert(ascii_alphanumeric(b[k - n - 1]));
        }
    }
    assert(s[0] == a[0] && s.last() == b[b.len() - 1]);
    assert(ascii_alphanumeric(a[0]) && ascii_alphanumeric(b[b.len() - 1]));
    lemma_judged_as_is(s);
    lemma_not_special(s, n);
    lemma_not_numbered(a, s);
    lemma_missing_char(s, "#"@, 0);
    lemma_missing_char(s, "["@, 0);
    lemma_missing_char(s, "."@, 0);
    lemma_missing_char(s, "text="@, 4);
    lemma_missing_char(s, "text~="@, 5);
    lemma_missing_char(s, ":nth("@, 0);
    assert(!(alphanumeric(s[n]) || s[n] == '_'));
    assert(!is_word(s));
}

/// `first`, `last` and `nth=` with anything behind it are segments, and so are
/// `text=` and `text~=`.
pub proof fn lemma_selections_are_right(t: Seq<char>)
    requires
        no_colon(t),
        t.len() > 0 ==> !white_space(t.last()),
    ensures
        segment_error("first"@) is None,
        segment_error("last"@) is None,
        segment_error("nth="@ + t) is None,
        segment_error("text="@ + t) is None,
        segment_error("text~="@ + t) is None,
{
    reveal_strlit("first");
    reveal_strlit("last");
    lemma_judged_as_is("first"@);
    lemma_judged_as_is("last"@);
    lemma_beginning_is_right("nth="@, t);
    lemma_beginning_is_right("text="@, t);
    lemma_beginning_is_right("text~="@, t);
}

proof fn lemma_beginning_is_right(start: Seq<char>, t: Seq<char>)
    requires
        start == "nth="@ || start == "text="@ || start == "text~="@,
        no_colon(t),
        t.len() > 0 ==> !white_space(t.last()),
    ensures
        segment_error(start + t) is None,
{
    let s = start + t;
    let n = start.len() as int;
    reveal_strlit("nth=");
    reveal_strlit("text=");
    reveal_strlit("text~=");
    reveal_strlit("#");
    assert forall|k: int| 0 <= k < s.len() implies #[trigger] s[k] != ':' by {
        if k >= n {
            assert(s[k] == t[k - n]);
        }
    }
    assert(s.last() == if t.len() > 0 {
        t.last()
    } else {
        '='
    });
    assert(s[0] == start[0]);
    lemma_judged_as_is(s);
    assert(s.subrange(0, n) =~= start);
    if starts_with(s, "#"@) {
        assert(s.subrange(0, 1)[0] == s[0]);
    }
}

/// A locator is right where every segment between ` >> ` and ` > ` is.
pub proof fn lemma_locator_error(s: Seq<char>)
    ensures
        locator_error(s) is None <==> forall|i: int, j: int|
            0 <= i < split(s, " >> "@).len() && 0 <= j < split(
                split(s, " >> "@)[i],
                " > "@,
            ).len() ==> (#[trigger] segment_error(split(split(s, " >> "@)[i], " > "@)[j])) is None,
{
    let parts = split(s, " >> "@);
    lemma_parts_error(parts);
    assert forall|i: int| 0 <= i < parts.len() implies (segments_error(
        split(#[trigger] parts[i], " > "@),
    ) is None <==> forall|j: int|
        0 <= j < split(parts[i], " > "@).len() ==> (#[trigger] segment_error(
            split(parts[i], " > "@)[j],
        )) is None) by {
        lemma_segments_error(split(parts[i], " > "@));
    }
    if locator_error(s) is None {
        assert forall|i: int, j: int|
            0 <= i < parts.len() && 0 <= j < split(parts[i], " > "@).len() implies (
        #[trigger] segment_error(split(parts[i], " > "@)[j])) is None by {
            assert(segments_error(split(parts[i], " > "@)) is None);
        }
    }
}

proof fn lemma_parts_error(parts: Seq<Seq<char>>)
    ensures
        parts_error(parts) is None <==> forall|i: int|
            0 <= i < parts.len() ==> segments_error(split(#[trigger] parts[i], " > "@)) is None,
    decreases parts.len(),
{
    if parts.len() > 0 {
        let front = parts.drop_last();
        lemma_parts_error(front);
        assert(parts[parts.len() - 1] == parts.last());
        assert forall|i: int| 0 <= i < front.len() implies #[trigger] front[i] == parts[i] by {}
        if parts_error(front) is None {
            assert forall|i: int| 0 <= i < parts.len() - 1 implies segments_error(
                split(#[trigger] parts[i], " > "@),
            ) is None by {
                assert(front[i] == parts[i]);
            }
        } else {
            let i = choose|i: int|
                0 <= i < front.len() && segments_error(split(#[trigger] front[i], " > "@)) is Some;
            assert(segments_error(split(parts[i], " > "@)) is Some);
        }
    }
}

proof fn lemma_segments_error(segments: Seq<Seq<char>>)
    ensures
        segments_error(segments) is None <==> forall|j: int|
            0 <= j < segments.len() ==> (#[trigger] segment_error(segments[j])) is None,
    decreases segments.len(),
{
    if segments.len() > 0 {
        let front = segments.drop_last();
        lemma_segments_error(front);
        assert(segments[segments.len() - 1] == segments.last());
        if segments_error(front) is None {
            assert forall|j: int| 0 <= j < segments.len() - 1 implies (#[trigger] segment_error(
                segments[j],
            )) is None by {
                assert(front[j] == segments[j]);
                assert(segment_error(front[j]) is None);
            }
        } else {
            let j = choose|j: int|
                0 <= j < front.len() && (#[trigger] segment_error(front[j])) is Some;
            assert(front[j] == segments[j]);
        }
    }
}

/// What is wrong with a locator is what is wrong with its first wrong segment: what
/// stands behind ` >> ` is looked at only where everything before it is right.
pub proof fn lemma_first_error(a: Seq<char>, b: Seq<char>)
    requires
        !ends_with(a, " >>"@),
        is_one_step(b),
    ensures
        locator_error(a) is Some ==> locator_error(a + " >> "@ + b) == locator_error(a),
        locator_error(a) is None ==> locator_error(a + " >> "@ + b) == segment_error(b),
{
    lemma_separator_stays(a, b);
    let parts = split(a, " >> "@);
    reveal_strlit(" >> ");
    reveal_strlit(" > ");
    lemma_split_append(a, " >> "@, b);
    lemma_find(b, " >> "@);
    lemma_find(b, " > "@);
    assert(split(b, " >> "@) =~= seq![b]);
    assert(split(b, " > "@) =~= seq![b]);
    assert(parts + seq![b] =~= parts.push(b));
    assert(parts.push(b).drop_last() =~= parts);
    assert(seq![b].drop_last() =~= Seq::<Seq<char>>::empty());
    assert(segments_error(seq![b].drop_last()) is None);
}

/// A word of ASCII letters, digits and underscores is a segment.
#[verifier::rlimit(50)]
pub proof fn lemma_words_are_right(s: Seq<char>)
    requires
        s.len() > 0,
        forall|k: int| 0 <= k < s.len() ==> ascii_alphanumeric(#[trigger] s[k]) || s[k] == '_',
    ensures
        segment_error(s) is None,
{
    assert forall|k: int| 0 <= k < s.len() implies #[trigger] s[k] != ':' && s[k] != '#' && s[k]
        != '=' && s[k] != '[' && s[k] != '.' && !white_space(s[k]) by {
        assert(ascii_alphanumeric(s[k]) || s[k] == '_');
    }
    assert(!white_space(s[0]) && !white_space(s[s.len() - 1]));
    lemma_judged_as_is(s);
    reveal_strlit("#");
    reveal_strlit("text=");
    reveal_strlit("text~=");
    reveal_strlit("[");
    reveal_strlit(".");
    lemma_missing_char(s, "#"@, 0);
    lemma_missing_char(s, "text="@, 4);
    lemma_missing_char(s, "text~="@, 5);
    lemma_missing_char(s, "["@, 0);
    lemma_missing_char(s, "."@, 0);
    assert forall|k: int| 0 <= k < s.len() implies alphanumeric(#[trigger] s[k]) || s[k]
        == '_' by {
        assert(ascii_alphanumeric(s[k]) || s[k] == '_');
    }
    assert(is_word(s));
}

} // verus!

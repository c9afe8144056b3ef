//! Selector strings: what they write, and which elements they match.

use vstd::prelude::*;
use crate::dom_selector::{has_name, parse_selector, selector_accepts, DOMSelector};
use crate::number::{is_digit, parse_unsigned, parse_usize};
use crate::pattern::{
    parse_slashed_pattern, regex_outcome, regex_search, slashed_pattern, some_match,
};
use crate::query::{attr_is, some_contains, some_text_contains};
use crate::text::{
    char_count, chars_of, contains, contains_text, ends_with, ends_with_text, find, find_text,
    lemma_find, lemma_rfind, occurs_at, opt_text, prefix, rfind, rfind_text, same_text, slice,
    split, split_once, split_once_text, split_text, starts_with, starts_with_text, str_views,
    strip_prefix, strip_prefix_text, strip_suffix, strip_suffix_text, suffix, text_occurs_at, trim,
    trim_char, trim_char_text, trim_text, views, without_char, without_char_text,
};
use crate::tree::{
    attr, attr_element, attr_string, attr_string_list, attr_string_or_empty, attr_value, child_ids,
    children, descendants, is_same_element, lemma_descendants_contains, lemma_subtrees_filter_step,
    list_attr, lists, parent_id, subtrees, text_attr, text_attr_or_empty, AttrValue, Element,
    ElementData,
};
use crate::unicode::{lowercase, to_lowercase};

verus! {

// ---------------------------------------------------------------------------
// Roles
// ---------------------------------------------------------------------------

/// A role without its prefix `AX`.
pub open spec fn role_stem(role: Seq<char>) -> Seq<char> {
    match strip_prefix(role, "AX"@) {
        Some(rest) => rest,
        None => role,
    }
}

/// The role of an element and the role of a selector, both in lower case, agree:
/// they are the same, or the selector asks for `text` and the element is one of
/// the three kinds of text.
pub open spec fn folded_roles_match(stem: Seq<char>, wanted: Seq<char>) -> bool {
    ||| stem == wanted
    ||| wanted == "text"@ && (stem == "statictext"@ || stem == "textarea"@ || stem
        == "textfield"@)
}

/// The role `el_role` of an element is what `wanted` asks for.
pub open spec fn role_accepts(el_role: Seq<char>, wanted: Seq<char>) -> bool {
    el_role == wanted || folded_roles_match(lowercase(role_stem(el_role)), lowercase(wanted))
}

/// Whether the role of an element and the role of a selector agree, the first
/// without its prefix and both in lower case.
pub fn folded_role_matches(stem: &str, wanted: &str) -> (r: bool)
    ensures
        r == folded_roles_match(stem@, wanted@),
{
    if same_text(stem, wanted) {
        return true;
    }
    if same_text(wanted, "text") {
        return same_text(stem, "statictext") || same_text(stem, "textarea") || same_text(
            stem,
            "textfield",
        );
    }
    false
}

/// Whether `el_role` (such as `AXButton`) is what `selector_role` (such as
/// `button`, `AXButton` or `text`) asks for.
pub fn role_matches(el_role: &str, selector_role: &str) -> (r: bool)
    ensures
        r == role_accepts(el_role@, selector_role@),
{
    if same_text(el_role, selector_role) {
        return true;
    }
    let stem = match strip_prefix_text(el_role, "AX") {
        Some(rest) => rest,
        None => el_role,
    };
    let short = to_lowercase(stem);
    let wanted = to_lowercase(selector_role);
    folded_role_matches(short.as_str(), wanted.as_str())
}

// ---------------------------------------------------------------------------
// Pseudo-classes
// ---------------------------------------------------------------------------

/// The pseudo-classes of a selector, and what is left without them.
pub struct PseudoClasses<'a> {
    pub base: &'a str,
    pub has_text: Option<String>,
    pub has_selector: Option<String>,
    pub visible: bool,
    /// `:nth-child(N)`: the position, from 0, among all siblings.
    pub nth_child: Option<usize>,
}

/// What the pseudo-classes of a selector ask for.
pub ghost struct Pseudo {
    pub base: Seq<char>,
    pub has_text: Option<Seq<char>>,
    pub has_selector: Option<Seq<char>>,
    pub visible: bool,
    pub nth_child: Option<usize>,
}

impl<'a> View for PseudoClasses<'a> {
    type V = Pseudo;

    open spec fn view(&self) -> Pseudo {
        Pseudo {
            base: self.base@,
            has_text: opt_text(self.has_text),
            has_selector: opt_text(self.has_selector),
            visible: self.visible,
            nth_child: self.nth_child,
        }
    }
}

/// A pseudo-class that takes an argument.
#[derive(Debug, Clone, Copy, PartialEq, Eq, Structural)]
pub enum PseudoCall {
    /// `:nth-child(N)`
    NthChild,
    /// `:has-text("text")`
    HasText,
    /// `:has(selector)`
    Has,
}

/// How the pseudo-class begins.
pub open spec fn call_start(kind: PseudoCall) -> Seq<char> {
    match kind {
        PseudoCall::NthChild => ":nth-child("@,
        PseudoCall::HasText => ":has-text("@,
        PseudoCall::Has => ":has("@,
    }
}

/// The pseudo-class that begins at position `i` of `s`.
pub open spec fn call_at(s: Seq<char>, i: int) -> Option<PseudoCall> {
    if occurs_at(s, ":nth-child("@, i) {
        Some(PseudoCall::NthChild)
    } else if occurs_at(s, ":has-text("@, i) {
        Some(PseudoCall::HasText)
    } else if occurs_at(s, ":has("@, i) {
        Some(PseudoCall::Has)
    } else {
        None
    }
}

/// `c` is a quotation mark.
pub open spec fn is_quote(c: char) -> bool {
    c == '"' || c == '\''
}

/// A quoted part begins at position `i` of the argument `s`: the quotation mark
/// begins the argument, or that of a pseudo-class in it, or follows `=`.
pub open spec fn opens_quote(s: Seq<char>, i: int) -> bool {
    is_quote(s[i]) && (i == 0 || s[i - 1] == '(' || s[i - 1] == '=')
}

/// A part quoted with `c` ends at position `i` of the argument `s`: the argument
/// ends there, or a parenthesis, a bracket or a colon follows.
pub open spec fn ends_quote(s: Seq<char>, c: char, i: int) -> bool {
    s[i] == c && (i + 1 == s.len() || s[i + 1] == ')' || s[i + 1] == ']' || s[i + 1] == ':')
}

/// The first position from `i` on at which a part quoted with `c` ends; the
/// length of `s` where there is none.
pub open spec fn quote_end(s: Seq<char>, c: char, i: int) -> int
    decreases s.len() - i,
{
    if i < 0 || i >= s.len() {
        s.len() as int
    } else if ends_quote(s, c, i) {
        i
    } else {
        quote_end(s, c, i + 1)
    }
}

proof fn lemma_quote_end(s: Seq<char>, c: char, i: int)
    requires
        0 <= i <= s.len(),
    ensures
        i <= quote_end(s, c, i) <= s.len(),
    decreases s.len() - i,
{
    if i < s.len() && !ends_quote(s, c, i) {
        lemma_quote_end(s, c, i + 1);
    }
}

/// From position `i` on, where `depth` parentheses are open, every parenthesis of
/// `s` outside quotes has its counterpart. A quotation mark that opens no quoted
/// part, or one without an end, is an ordinary character.
pub open spec fn closed_from(s: Seq<char>, i: int, depth: nat) -> bool
    decreases s.len() - i,
    via closed_from_decreases
{
    if i < 0 || i >= s.len() {
        depth == 0
    } else if opens_quote(s, i) && quote_end(s, s[i], i + 1) < s.len() {
        closed_from(s, quote_end(s, s[i], i + 1) + 1, depth)
    } else if s[i] == '(' {
        closed_from(s, i + 1, depth + 1)
    } else if s[i] == ')' {
        depth > 0 && closed_from(s, i + 1, (depth - 1) as nat)
    } else {
        closed_from(s, i + 1, depth)
    }
}

#[via_fn]
proof fn closed_from_decreases(s: Seq<char>, i: int, depth: nat) {
    if 0 <= i < s.len() {
        lemma_quote_end(s, s[i], i + 1);
    }
}

/// Every parenthesis of `s` outside quotes has its counterpart.
pub open spec fn closed(s: Seq<char>) -> bool {
    closed_from(s, 0, 0)
}

/// What the pseudo-class `kind` at position `i` of `s` has as its argument, where
/// it reaches to before the last character.
pub open spec fn argument(s: Seq<char>, kind: PseudoCall, i: int) -> Seq<char> {
    s.subrange(i + call_start(kind).len(), s.len() - 1)
}

/// The opening parenthesis of the pseudo-class at position `i` of `s` has its
/// counterpart in the last character.
pub open spec fn ends_call(s: Seq<char>, i: int) -> bool {
    match call_at(s, i) {
        Some(kind) => i + call_start(kind).len() < s.len() && s.last() == ')' && closed(
            argument(s, kind, i),
        ),
        None => false,
    }
}

/// The first position from `i` on of a pseudo-class that ends with `s`.
pub open spec fn find_call(s: Seq<char>, i: int) -> Option<int>
    decreases s.len() - i,
{
    if i < 0 || i >= s.len() {
        None
    } else if ends_call(s, i) {
        Some(i)
    } else {
        find_call(s, i + 1)
    }
}

/// A pseudo-class with what stands before it and its argument.
pub ghost struct Call {
    pub kind: PseudoCall,
    pub before: Seq<char>,
    pub inner: Seq<char>,
}

/// The last `kind` of `s`, taken to reach to the last character.
pub open spec fn loose_call(s: Seq<char>, kind: PseudoCall) -> Option<Call> {
    match rfind(s, call_start(kind)) {
        Some(i) => Some(Call { kind, before: s.take(i), inner: argument(s, kind, i) }),
        None => None,
    }
}

/// The pseudo-class with an argument at the end of `s`: the one whose opening
/// parenthesis, outside quotes, has its counterpart in the last character. Where
/// the parentheses do not match up that way, the last `:has-text(`, `:has(` or
/// `:nth-child(`, in this order, reaches to a closing parenthesis at the end.
pub open spec fn last_call(s: Seq<char>) -> Option<Call> {
    if s.len() == 0 || s.last() != ')' {
        None
    } else if find_call(s, 0) is Some {
        let i = find_call(s, 0)->0;
        let kind = call_at(s, i)->0;
        Some(Call { kind, before: s.take(i), inner: argument(s, kind, i) })
    } else if loose_call(s, PseudoCall::HasText) is Some {
        loose_call(s, PseudoCall::HasText)
    } else if loose_call(s, PseudoCall::Has) is Some {
        loose_call(s, PseudoCall::Has)
    } else {
        loose_call(s, PseudoCall::NthChild)
    }
}

/// Where the first pseudo-class stands that ends with `s`.
pub proof fn lemma_find_call(s: Seq<char>, i: int)
    requires
        0 <= i,
    ensures
        find_call(s, i) matches Some(j) ==> i <= j < s.len() && ends_call(s, j) && forall|k: int|
            i <= k < j ==> !ends_call(s, k),
        find_call(s, i) is None ==> forall|j: int| i <= j < s.len() ==> !ends_call(s, j),
    decreases s.len() - i,
{
    if i < s.len() && !ends_call(s, i) {
        lemma_find_call(s, i + 1);
    }
}

/// Where the last pseudo-class of a kind stands.
pub proof fn lemma_loose_call(s: Seq<char>, kind: PseudoCall)
    requires
        s.len() > 0,
        s.last() == ')',
    ensures
        rfind(s, call_start(kind)) matches Some(p) ==> 0 <= p && p + call_start(kind).len()
            < s.len() && call_start(kind).len() > 0 && occurs_at(s, call_start(kind), p),
{
    reveal_strlit(":nth-child(");
    reveal_strlit(":has-text(");
    reveal_strlit(":has(");
    let open = call_start(kind);
    lemma_rfind(s, open);
    if let Some(p) = rfind(s, open) {
        assert(s.subrange(p, p + open.len())[open.len() - 1] == s[p + open.len() - 1]);
    }
}

/// What stands before the pseudo-class, and its argument, are shorter than the
/// whole.
pub proof fn lemma_last_call_shorter(s: Seq<char>)
    ensures
        last_call(s) matches Some(c) ==> c.before.len() < s.len() && c.inner.len() < s.len(),
{
    lemma_find_call(s, 0);
    if s.len() > 0 && s.last() == ')' {
        lemma_loose_call(s, PseudoCall::HasText);
        lemma_loose_call(s, PseudoCall::Has);
        lemma_loose_call(s, PseudoCall::NthChild);
    }
}

/// Where no pseudo-class with an argument begins, none ends.
pub proof fn lemma_no_call_without_start(s: Seq<char>)
    requires
        forall|i: int| 0 <= i < s.len() ==> (#[trigger] call_at(s, i)) is None,
    ensures
        last_call(s) is None,
{
    lemma_find_call(s, 0);
    if s.len() > 0 && s.last() == ')' {
        lemma_loose_call(s, PseudoCall::HasText);
        lemma_loose_call(s, PseudoCall::Has);
        lemma_loose_call(s, PseudoCall::NthChild);
        assert forall|p: int, kind: PseudoCall|
            0 <= p < s.len() && #[trigger] occurs_at(s, call_start(kind), p) implies call_at(s, p)
            is Some by {};
    }
}

/// The beginnings of two kinds of pseudo-classes do not stand in one place.
pub proof fn lemma_call_at(s: Seq<char>, kind: PseudoCall, i: int)
    requires
        occurs_at(s, call_start(kind), i),
    ensures
        call_at(s, i) == Some(kind),
        s[i] == ':',
{
    reveal_strlit(":nth-child(");
    reveal_strlit(":has-text(");
    reveal_strlit(":has(");
    assert(s.subrange(i, i + call_start(kind).len())[0] == s[i]);
    assert(s.subrange(i, i + call_start(kind).len())[1] == s[i + 1]);
    if kind == PseudoCall::HasText || kind == PseudoCall::Has {
        if occurs_at(s, ":nth-child("@, i) {
            assert(s.subrange(i, i + 11)[1] == s[i + 1]);
        }
    }
    if kind == PseudoCall::Has {
        assert(s.subrange(i, i + 5)[4] == s[i + 4]);
        if occurs_at(s, ":has-text("@, i) {
            assert(s.subrange(i, i + 10)[4] == s[i + 4]);
        }
    }
}

/// Digits alone are closed; digits with a closing parenthesis behind them are not,
/// whatever follows.
pub proof fn lemma_digits_closed(s: Seq<char>, n: int)
    requires
        0 <= n <= s.len(),
        forall|k: int| 0 <= k < n ==> is_digit(#[trigger] s[k]),
        n < s.len() ==> s[n] == ')',
    ensures
        closed(s) <==> n == s.len(),
{
    lemma_digits_closed_from(s, 0, n);
}

proof fn lemma_digits_closed_from(s: Seq<char>, i: int, n: int)
    requires
        0 <= i <= n <= s.len(),
        forall|k: int| 0 <= k < n ==> is_digit(#[trigger] s[k]),
        n < s.len() ==> s[n] == ')',
    ensures
        closed_from(s, i, 0) <==> n == s.len(),
    decreases n - i,
{
    if i < n {
        assert(is_digit(s[i]));
        lemma_digits_closed_from(s, i + 1, n);
    }
}

proof fn lemma_first_call(s: Seq<char>, i: int, j: int)
    requires
        0 <= i <= j < s.len(),
        ends_call(s, j),
        forall|k: int| i <= k < j ==> !(#[trigger] ends_call(s, k)),
    ensures
        find_call(s, i) == Some(j),
    decreases j - i,
{
    if i < j {
        assert(!ends_call(s, i));
        lemma_first_call(s, i + 1, j);
    }
}

proof fn lemma_call_parts(before: Seq<char>, start: Seq<char>, inner: Seq<char>)
    ensures
        ({
            let s = before + start + inner + ")"@;
            let i = before.len() as int;
            let n = start.len() as int;
            &&& s.len() == i + n + inner.len() + 1
            &&& s.last() == ')'
            &&& s.take(i) == before
            &&& s.subrange(i, i + n) == start
            &&& s.subrange(i + n, s.len() - 1) == inner
        }),
{
    reveal_strlit(")");
    let s = before + start + inner + ")"@;
    let i = before.len() as int;
    let n = start.len() as int;
    assert(s.take(i) =~= before);
    assert(s.subrange(i, i + n) =~= start);
    assert(s.subrange(i + n, s.len() - 1) =~= inner);
}

/// A pseudo-class whose argument is closed and which ends with the text is taken
/// off as it stands there, where none that begins earlier is closed too.
#[verifier::rlimit(50)]
pub proof fn lemma_closed_call_is_last(before: Seq<char>, kind: PseudoCall, inner: Seq<char>)
    requires
        closed(inner),
        ({
            let s = before + call_start(kind) + inner + ")"@;
            forall|i: int| 0 <= i < before.len() ==> !(#[trigger] ends_call(s, i))
        }),
    ensures
        last_call(before + call_start(kind) + inner + ")"@) == Some(Call { kind, before, inner }),
{
    let s = before + call_start(kind) + inner + ")"@;
    let i = before.len() as int;
    lemma_call_parts(before, call_start(kind), inner);
    assert(occurs_at(s, call_start(kind), i));
    lemma_call_at(s, kind, i);
    assert(argument(s, kind, i) == inner);
    assert(ends_call(s, i));
    lemma_first_call(s, 0, i);
}

/// The number in a `:nth-child(N)` with the argument `inner`.
pub open spec fn child_number(inner: Seq<char>) -> Option<nat> {
    parse_unsigned(trim(inner), usize::MAX as nat)
}

/// The pseudo-class is a `:nth-child(..)` without a number.
pub open spec fn lacks_number(c: Call) -> bool {
    c.kind is NthChild && child_number(c.inner) is None
}

/// The pseudo-class with an argument that is taken off the end of `s`. In place of
/// a `:nth-child(..)` without a number it is the last `:has-text(` or else the last
/// `:has(`, which reaches to the end.
pub open spec fn next_call(s: Seq<char>) -> Option<Call> {
    match last_call(s) {
        Some(c) => if !lacks_number(c) {
            Some(c)
        } else if loose_call(s, PseudoCall::HasText) is Some {
            loose_call(s, PseudoCall::HasText)
        } else {
            loose_call(s, PseudoCall::Has)
        },
        None => None,
    }
}

/// What stands before that pseudo-class, and its argument, are shorter than the
/// whole.
pub proof fn lemma_next_call_shorter(s: Seq<char>)
    ensures
        next_call(s) matches Some(c) ==> c.before.len() < s.len() && c.inner.len() < s.len()
            && !lacks_number(c),
{
    lemma_last_call_shorter(s);
    if last_call(s) is Some {
        lemma_loose_call(s, PseudoCall::HasText);
        lemma_loose_call(s, PseudoCall::Has);
    }
}

/// The value `a`, or `b` where there is no `a`.
pub open spec fn or_else<T>(a: Option<T>, b: Option<T>) -> Option<T> {
    if a is Some {
        a
    } else {
        b
    }
}

/// The selector `s`, of which no pseudo-class is taken off.
pub open spec fn no_pseudo(s: Seq<char>) -> Pseudo {
    Pseudo { base: s, has_text: None, has_selector: None, visible: false, nth_child: None }
}

/// The text in the quotes of a `:has-text("text")`.
pub open spec fn unquoted(s: Seq<char>) -> Seq<char> {
    trim_char(trim_char(s, '"'), '\'')
}

/// The pseudo-classes at the end of `s`, taken off one after the other. Where
/// one occurs more than once, the leftmost counts.
pub open spec fn parse_pseudo(s: Seq<char>) -> Pseudo
    decreases s.len(),
{
    proof {
        reveal_strlit(":visible");
        lemma_next_call_shorter(s);
    }
    match strip_suffix(s, ":visible"@) {
        Some(b) => Pseudo { visible: true, ..parse_pseudo(b) },
        None => match next_call(s) {
            Some(c) => {
                let p = parse_pseudo(c.before);
                match c.kind {
                    PseudoCall::NthChild => Pseudo {
                        nth_child: or_else(p.nth_child, Some(child_number(c.inner)->0 as usize)),
                        ..p
                    },
                    PseudoCall::HasText => Pseudo {
                        has_text: or_else(p.has_text, Some(unquoted(c.inner))),
                        ..p
                    },
                    PseudoCall::Has => Pseudo {
                        has_selector: or_else(p.has_selector, Some(c.inner)),
                        ..p
                    },
                }
            },
            None => no_pseudo(s),
        },
    }
}

/// What is left without the pseudo-classes, and the selector in `:has(..)`, are
/// no longer than the selector; the latter is shorter.
pub proof fn lemma_pseudo_shorter(s: Seq<char>)
    ensures
        parse_pseudo(s).base.len() <= s.len(),
        parse_pseudo(s).has_selector matches Some(t) ==> t.len() < s.len(),
    decreases s.len(),
{
    reveal_strlit(":visible");
    lemma_next_call_shorter(s);
    match strip_suffix(s, ":visible"@) {
        Some(b) => {
            lemma_pseudo_shorter(b);
        },
        None => match next_call(s) {
            Some(c) => {
                lemma_pseudo_shorter(c.before);
            },
            None => {},
        },
    }
}

/// Where a part quoted with `c` ends.
fn find_quote_end(cs: &Vec<char>, c: char, from: usize) -> (r: usize)
    requires
        from <= cs@.len(),
    ensures
        from <= r <= cs@.len(),
        r == quote_end(cs@, c, from as int),
{
    let n: usize = cs.len();
    let mut i: usize = from;
    while i < n
        invariant
            n == cs@.len(),
            from <= i <= n,
            quote_end(cs@, c, from as int) == quote_end(cs@, c, i as int),
        decreases n - i,
    {
        if cs[i] == c && (i + 1 == n || cs[i + 1] == ')' || cs[i + 1] == ']' || cs[i + 1] == ':') {
            return i;
        }
        i += 1;
    }
    i
}

/// Whether every parenthesis outside quotes from `from` to before `to` has its
/// counterpart.
fn is_closed(cs: &Vec<char>, from: usize, to: usize) -> (r: bool)
    requires
        from <= to <= cs@.len(),
    ensures
        r == closed(cs@.subrange(from as int, to as int)),
{
    let ghost s = cs@.subrange(from as int, to as int);
    let part = copy_chars(cs, from, to);
    let n: usize = to - from;
    let mut i: usize = 0;
    let mut depth: usize = 0;
    while i < n
        invariant
            n == part@.len(),
            s == cs@.subrange(from as int, to as int),
            part@ == s,
            i <= n,
            depth <= i,
            closed(s) == closed_from(s, i as int, depth as nat),
        decreases n - i,
    {
        let c = part[i];
        if (c == '"' || c == '\'') && (i == 0 || part[i - 1] == '(' || part[i - 1] == '=') {
            let j: usize = find_quote_end(&part, c, i + 1);
            if j < n {
                i = j + 1;
                continue ;
            }
        } else if c == '(' {
            depth += 1;
        } else if c == ')' {
            if depth == 0 {
                return false;
            }
            depth -= 1;
        }
        i += 1;
    }
    depth == 0
}

/// The characters from `from` to before `to`.
fn copy_chars(cs: &Vec<char>, from: usize, to: usize) -> (r: Vec<char>)
    requires
        from <= to <= cs@.len(),
    ensures
        r@ == cs@.subrange(from as int, to as int),
{
    let mut out: Vec<char> = Vec::new();
    for k in from..to
        invariant
            from <= k <= to <= cs@.len(),
            out@ == cs@.subrange(from as int, k as int),
    {
        out.push(cs[k]);
        assert(out@ =~= cs@.subrange(from as int, k + 1));
    }
    out
}

/// The pseudo-class that begins at a position, with the length of its beginning.
fn find_call_at(cs: &Vec<char>, i: usize) -> (r: Option<(PseudoCall, usize)>)
    requires
        i <= cs@.len(),
    ensures
        match r {
            Some((kind, n)) => call_at(cs@, i as int) == Some(kind) && n == call_start(kind).len()
                && i + n <= cs@.len(),
            None => call_at(cs@, i as int) is None,
        },
{
    if text_occurs_at(cs, ":nth-child(", i) {
        Some((PseudoCall::NthChild, char_count(":nth-child(")))
    } else if text_occurs_at(cs, ":has-text(", i) {
        Some((PseudoCall::HasText, char_count(":has-text(")))
    } else if text_occurs_at(cs, ":has(", i) {
        Some((PseudoCall::Has, char_count(":has(")))
    } else {
        None
    }
}

/// The pseudo-class with an argument at the end of a selector, with what stands
/// before it and its argument.
pub fn split_last_call<'a>(s: &'a str) -> (r: Option<(PseudoCall, &'a str, &'a str)>)
    ensures
        match r {
            Some((kind, before, inner)) => last_call(s@) == Some(
                Call { kind, before: before@, inner: inner@ },
            ),
            None => last_call(s@) is None,
        },
{
    let cs = chars_of(s);
    let len: usize = cs.len();
    if len == 0 || cs[len - 1] != ')' {
        return None;
    }
    for i in 0..len
        invariant
            cs@ == s@,
            len == cs@.len(),
            len > 0,
            s@.last() == ')',
            find_call(s@, 0) == find_call(s@, i as int),
    {
        if let Some((kind, n)) = find_call_at(&cs, i) {
            if i + n < len && is_closed(&cs, i + n, len - 1) {
                assert(ends_call(s@, i as int));
                return Some((kind, prefix(s, i), slice(s, i + n, len - 1)));
            }
        }
        assert(!ends_call(s@, i as int));
    }
    if let Some((before, inner)) = split_loose_call(s, PseudoCall::HasText) {
        return Some((PseudoCall::HasText, before, inner));
    }
    if let Some((before, inner)) = split_loose_call(s, PseudoCall::Has) {
        return Some((PseudoCall::Has, before, inner));
    }
    if let Some((before, inner)) = split_loose_call(s, PseudoCall::NthChild) {
        return Some((PseudoCall::NthChild, before, inner));
    }
    None
}

/// What stands before the last pseudo-class of a kind, and what follows it up to
/// the last character.
fn split_loose_call<'a>(s: &'a str, kind: PseudoCall) -> (r: Option<(&'a str, &'a str)>)
    requires
        s@.len() > 0,
        s@.last() == ')',
    ensures
        match r {
            Some((before, inner)) => loose_call(s@, kind) == Some(
                Call { kind, before: before@, inner: inner@ },
            ),
            None => loose_call(s@, kind) is None,
        },
{
    proof {
        lemma_loose_call(s@, kind);
    }
    let start = match kind {
        PseudoCall::NthChild => ":nth-child(",
        PseudoCall::HasText => ":has-text(",
        PseudoCall::Has => ":has(",
    };
    if let Some(p) = rfind_text(s, start) {
        let from: usize = p + char_count(start);
        let to: usize = char_count(s) - 1;
        return Some((prefix(s, p), slice(s, from, to)));
    }
    None
}

/// The pseudo-class with an argument that is taken off the end of a selector, with
/// what stands before it, its argument and the number in it.
fn split_next_call<'a>(s: &'a str) -> (r: Option<(PseudoCall, &'a str, &'a str, usize)>)
    ensures
        match r {
            Some((kind, before, inner, n)) => {
                &&& next_call(s@) == Some(Call { kind, before: before@, inner: inner@ })
                &&& kind is NthChild ==> child_number(inner@) == Some(n as nat)
            },
            None => next_call(s@) is None,
        },
{
    match split_last_call(s) {
        Some((PseudoCall::NthChild, before, inner)) => {
            if let Some(n) = parse_usize(trim_text(inner)) {
                return Some((PseudoCall::NthChild, before, inner, n));
            }
            if let Some((before, inner)) = split_loose_call(s, PseudoCall::HasText) {
                return Some((PseudoCall::HasText, before, inner, 0));
            }
            if let Some((before, inner)) = split_loose_call(s, PseudoCall::Has) {
                return Some((PseudoCall::Has, before, inner, 0));
            }
            None
        },
        Some((kind, before, inner)) => Some((kind, before, inner, 0)),
        None => None,
    }
}

/// The pseudo-classes `p`, completed by those already taken off.
spec fn with_outer(p: Pseudo, outer: Pseudo) -> Pseudo {
    Pseudo {
        base: p.base,
        has_text: or_else(p.has_text, outer.has_text),
        has_selector: or_else(p.has_selector, outer.has_selector),
        visible: p.visible || outer.visible,
        nth_child: or_else(p.nth_child, outer.nth_child),
    }
}

/// Takes the pseudo-classes off the end of a selector.
///
/// Supported pseudo-classes:
///   - `:has-text("text")`  the subtree contains the text
///   - `:has(selector)`     the subtree contains an element that matches
///   - `:visible`           the element has a size
///   - `:nth-child(N)`      the element is child number `N` of its parent
pub fn parse_pseudo_classes<'a>(selector: &'a str) -> (r: PseudoClasses<'a>)
    ensures
        r@ == parse_pseudo(selector@),
{
    let mut base: &'a str = selector;
    let mut has_text: Option<String> = None;
    let mut has_selector: Option<String> = None;
    let mut visible = false;
    let mut nth_child: Option<usize> = None;
    loop
        invariant
            parse_pseudo(selector@) == with_outer(
                parse_pseudo(base@),
                (Pseudo {
                    base: base@,
                    has_text: opt_text(has_text),
                    has_selector: opt_text(has_selector),
                    visible,
                    nth_child,
                }),
            ),
        decreases base@.len(),
    {
        proof {
            reveal_strlit(":visible");
            lemma_next_call_shorter(base@);
        }
        if let Some(stripped) = strip_suffix_text(base, ":visible") {
            base = stripped;
            visible = true;
            continue ;
        }
        if let Some((kind, before, inner, n)) = split_next_call(base) {
            match kind {
                PseudoCall::NthChild => {
                    nth_child = Some(n);
                },
                PseudoCall::HasText => {
                    let text = trim_char_text(trim_char_text(inner, '"'), '\'');
                    has_text = Some(text.to_owned());
                },
                PseudoCall::Has => {
                    has_selector = Some(inner.to_owned());
                },
            }
            base = before;
            continue ;
        }
        return PseudoClasses { base, has_text, has_selector, visible, nth_child };
    }
}

// ---------------------------------------------------------------------------
// Attribute brackets
// ---------------------------------------------------------------------------

/// The operator of an attribute bracket.
#[derive(Debug, Clone, Copy, PartialEq, Eq, Structural)]
pub enum AttrOp {
    /// `=`
    Exact,
    /// `*=`
    Contains,
    /// `^=`
    StartsWith,
    /// `$=`
    EndsWith,
}

/// `haystack` stands to `needle` as `op` asks.
pub open spec fn op_accepts(op: AttrOp, haystack: Seq<char>, needle: Seq<char>) -> bool {
    match op {
        AttrOp::Exact => haystack == needle,
        AttrOp::Contains => contains(haystack, needle),
        AttrOp::StartsWith => starts_with(haystack, needle),
        AttrOp::EndsWith => ends_with(haystack, needle),
    }
}

impl AttrOp {
    pub fn matches(self, haystack: &str, needle: &str) -> (r: bool)
        ensures
            r == op_accepts(self, haystack@, needle@),
    {
        match self {
            AttrOp::Exact => same_text(haystack, needle),
            AttrOp::Contains => contains_text(haystack, needle),
            AttrOp::StartsWith => starts_with_text(haystack, needle),
            AttrOp::EndsWith => ends_with_text(haystack, needle),
        }
    }
}

/// A bracket expression such as `[attr="val"]` or `[attr*="val"]`.
pub struct AttrBracket<'a> {
    pub attr: &'a str,
    pub op: AttrOp,
    pub val: &'a str,
}

/// What a bracket expression asks for.
pub ghost struct Bracket {
    pub attr: Seq<char>,
    pub op: AttrOp,
    pub val: Seq<char>,
}

impl<'a> View for AttrBracket<'a> {
    type V = Bracket;

    open spec fn view(&self) -> Bracket {
        Bracket { attr: self.attr@, op: self.op, val: self.val@ }
    }
}

/// The first `=` from position `i` on that stands outside double quotes, where
/// `quoted` tells whether position `i` is inside.
pub open spec fn unquoted_equals(s: Seq<char>, i: int, quoted: bool) -> Option<int>
    decreases s.len() - i,
{
    if i < 0 || i >= s.len() {
        None
    } else if s[i] == '=' && !quoted {
        Some(i)
    } else {
        unquoted_equals(s, i + 1, quoted != (s[i] == '"'))
    }
}

/// The operator that ends before the `=` at position `eq`, and where the name
/// before it ends.
pub open spec fn operator_at(s: Seq<char>, eq: int) -> (AttrOp, int) {
    if s[eq - 1] == '*' {
        (AttrOp::Contains, eq - 1)
    } else if s[eq - 1] == '^' {
        (AttrOp::StartsWith, eq - 1)
    } else if s[eq - 1] == '$' {
        (AttrOp::EndsWith, eq - 1)
    } else {
        (AttrOp::Exact, eq)
    }
}

/// The bracket expression whose inside is `s`: a name, an operator, and a value
/// with or without double quotes. There is none without an unquoted `=` or
/// without a name before it.
pub open spec fn bracket(s: Seq<char>) -> Option<Bracket> {
    match unquoted_equals(s, 0, false) {
        Some(eq) => if eq == 0 {
            None
        } else {
            let (op, end) = operator_at(s, eq);
            let name = trim(s.take(end));
            if name.len() == 0 {
                None
            } else {
                Some(Bracket { attr: name, op, val: trim_char(s.skip(eq + 1), '"') })
            }
        },
        None => None,
    }
}

/// The view of an optional bracket expression.
pub open spec fn opt_bracket(r: Option<AttrBracket<'_>>) -> Option<Bracket> {
    match r {
        Some(b) => Some(b@),
        None => None,
    }
}

/// Where the first `=` outside double quotes stands.
fn find_unquoted_equals(cs: &Vec<char>) -> (r: Option<usize>)
    ensures
        match r {
            Some(i) => unquoted_equals(cs@, 0, false) == Some(i as int) && i < cs@.len(),
            None => unquoted_equals(cs@, 0, false) is None,
        },
{
    let mut quoted = false;
    let mut i: usize = 0;
    while i < cs.len()
        invariant
            i <= cs@.len(),
            unquoted_equals(cs@, 0, false) == unquoted_equals(cs@, i as int, quoted),
        decreases cs@.len() - i,
    {
        if cs[i] == '=' && !quoted {
            return Some(i);
        }
        if cs[i] == '"' {
            quoted = !quoted;
        }
        i += 1;
    }
    None
}

/// Parses the text between `[` and `]` into name, operator and value.
///
/// The first `=` outside quotes separates name and value, and the character
/// before it tells whether the operator has two characters. So operator
/// characters inside a quoted value do not count.
pub fn parse_attr_bracket<'a>(inner: &'a str) -> (r: Option<AttrBracket<'a>>)
    ensures
        opt_bracket(r) == bracket(inner@),
{
    let cs = chars_of(inner);
    match find_unquoted_equals(&cs) {
        None => None,
        Some(eq) => {
            if eq == 0 {
                return None;
            }
            assert(eq < cs.len());
            let (op, end): (AttrOp, usize) = match cs[eq - 1] {
                '*' => (AttrOp::Contains, eq - 1),
                '^' => (AttrOp::StartsWith, eq - 1),
                '$' => (AttrOp::EndsWith, eq - 1),
                _ => (AttrOp::Exact, eq),
            };
            let attr = trim_text(prefix(inner, end));
            if attr.is_empty() {
                return None;
            }
            let val = trim_char_text(suffix(inner, eq + 1), '"');
            Some(AttrBracket { attr, op, val })
        },
    }
}

// ---------------------------------------------------------------------------
// What an element is among others
// ---------------------------------------------------------------------------

/// The texts of element `i` itself: those of its value, title and description
/// that it has.
pub open spec fn own_texts(nodes: Seq<ElementData>, i: usize) -> Seq<Seq<char>> {
    opt_seq(text_attr(nodes, i, "AXValue"@)) + opt_seq(text_attr(nodes, i, "AXTitle"@)) + opt_seq(
        text_attr(nodes, i, "AXDescription"@),
    )
}

/// The sequence with the value `v`, where there is one.
pub open spec fn opt_seq(v: Option<Seq<char>>) -> Seq<Seq<char>> {
    match v {
        Some(t) => seq![t],
        None => Seq::empty(),
    }
}

fn push_attr(element: Element<'_>, name: &str, out: &mut Vec<String>)
    ensures
        views(final(out)@) == views(old(out)@) + opt_seq(
            text_attr(element.nodes(), element.index(), name@),
        ),
{
    let ghost before = out@;
    if let Some(v) = attr_string(element, name) {
        out.push(v);
        assert(views(out@) =~= views(before) + seq![v@]);
    } else {
        assert(views(out@) =~= views(before) + Seq::<Seq<char>>::empty());
    }
}

/// The texts of an element itself.
pub fn own_texts_of(element: Element<'_>) -> (r: Vec<String>)
    ensures
        views(r@) == own_texts(element.nodes(), element.index()),
{
    let mut out: Vec<String> = Vec::new();
    push_attr(element, "AXValue", &mut out);
    push_attr(element, "AXTitle", &mut out);
    push_attr(element, "AXDescription", &mut out);
    assert(views(out@) =~= own_texts(element.nodes(), element.index()));
    out
}

/// `text` stands in a text of element `i` or of something below it, however far.
pub open spec fn subtree_has(nodes: Seq<ElementData>, i: usize, text: Seq<char>) -> bool {
    ||| some_contains(own_texts(nodes, i), text)
    ||| exists|depth: nat, x: usize| #[trigger]
        descendants(nodes, i, depth).contains(x) && some_contains(own_texts(nodes, x), text)
}

/// Whether the subtree of an element contains the given text.
pub fn subtree_has_text(el: Element<'_>, text: &str) -> (r: bool)
    ensures
        r == subtree_has(el.nodes(), el.index(), text@),
    decreases el.nodes().len() - el.index(),
{
    let ghost nodes = el.nodes();
    if some_text_contains(&own_texts_of(el), text) {
        return true;
    }
    let ghost ids = child_ids(nodes, el.index());
    let kids = children(el);
    for k in 0..kids.len()
        invariant
            nodes == el.nodes(),
            ids == child_ids(nodes, el.index()),
            lists(kids@, nodes, ids),
            forall|j: int| 0 <= j < kids@.len() ==> (#[trigger] kids@[j]).index() > el.index(),
            forall|j: int| 0 <= j < k ==> !subtree_has(nodes, #[trigger] ids[j], text@),
    {
        let kid = kids[k];
        if subtree_has_text(kid, text) {
            proof {
                lemma_subtree_has_from_child(nodes, el.index(), k as int, text@);
            }
            return true;
        }
    }
    proof {
        if subtree_has(nodes, el.index(), text@) {
            let (depth, x) = choose|depth: nat, x: usize| #[trigger]
                descendants(nodes, el.index(), depth).contains(x) && some_contains(
                    own_texts(nodes, x),
                    text@,
                );
            lemma_descendants_contains(nodes, el.index(), depth, x);
            let k = choose|k: int|
                #![trigger child_ids(nodes, el.index())[k]]
                0 <= k < child_ids(nodes, el.index()).len() && (child_ids(nodes, el.index())[k]
                    == x || descendants(
                    nodes,
                    child_ids(nodes, el.index())[k],
                    (depth - 1) as nat,
                ).contains(x));
            assert(!subtree_has(nodes, ids[k], text@));
        }
    }
    false
}

proof fn lemma_subtree_has_from_child(nodes: Seq<ElementData>, i: usize, k: int, text: Seq<char>)
    requires
        0 <= k < child_ids(nodes, i).len(),
        subtree_has(nodes, child_ids(nodes, i)[k], text),
    ensures
        subtree_has(nodes, i, text),
{
    let c = child_ids(nodes, i)[k];
    if some_contains(own_texts(nodes, c), text) {
        lemma_descendants_contains(nodes, i, 1, c);
        assert(descendants(nodes, i, 1).contains(c));
    } else {
        let (depth, x) = choose|depth: nat, x: usize| #[trigger]
            descendants(nodes, c, depth).contains(x) && some_contains(own_texts(nodes, x), text);
        lemma_descendants_contains(nodes, i, depth + 1, x);
        assert(descendants(nodes, i, depth + 1).contains(x));
    }
}

/// Element `i` has a width and a height above zero.
pub open spec fn is_visible(nodes: Seq<ElementData>, i: usize) -> bool {
    attr(nodes, i, "AXSize"@) == Some(
        AttrValue::Size { width_positive: true, height_positive: true },
    )
}

/// Whether an element has a width and a height above zero.
pub fn element_is_visible(el: Element<'_>) -> (r: bool)
    ensures
        r == is_visible(el.nodes(), el.index()),
{
    match attr_value(el, "AXSize") {
        Some(AttrValue::Size { width_positive, height_positive }) => *width_positive
            && *height_positive,
        _ => false,
    }
}

/// Element `i` is child number `n` of the parent that it names.
pub open spec fn is_child_number(nodes: Seq<ElementData>, i: usize, n: nat) -> bool {
    parent_id(nodes, i) matches Some(p) && n < child_ids(nodes, p).len() && child_ids(
        nodes,
        p,
    )[n as int] == i
}

/// Whether an element is child number `n`, from 0, of its parent.
pub fn is_nth_child(el: Element<'_>, n: usize) -> (r: bool)
    ensures
        r == is_child_number(el.nodes(), el.index(), n as nat),
{
    match attr_element(el, "AXParent") {
        Some(parent) => {
            let siblings = children(parent);
            n < siblings.len() && is_same_element(siblings[n], el)
        },
        None => false,
    }
}

/// How many of `ids` before the first `i` have the role `role`; none where `i`
/// is not among them.
pub open spec fn same_role_before(
    nodes: Seq<ElementData>,
    ids: Seq<usize>,
    i: usize,
    role: Seq<char>,
) -> Option<nat>
    decreases ids.len(),
{
    if ids.len() == 0 {
        None
    } else if ids[0] == i {
        Some(0)
    } else {
        match same_role_before(nodes, ids.skip(1), i, role) {
            Some(n) => if text_attr(nodes, ids[0], "AXRole"@) == Some(role) {
                Some(n + 1)
            } else {
                Some(n)
            },
            None => None,
        }
    }
}

/// The role of element `i`, and its number among the children of its parent
/// that have this role.
pub open spec fn sibling_number(nodes: Seq<ElementData>, i: usize) -> Option<(Seq<char>, nat)> {
    match (text_attr(nodes, i, "AXRole"@), parent_id(nodes, i)) {
        (Some(role), Some(p)) => match same_role_before(nodes, child_ids(nodes, p), i, role) {
            Some(n) => Some((role, n)),
            None => None,
        },
        _ => None,
    }
}

/// The role of an element and its number, from 0, among its siblings of the same
/// role.
pub fn nth_among_siblings(el: Element<'_>) -> (r: Option<(String, usize)>)
    ensures
        match r {
            Some((role, n)) => sibling_number(el.nodes(), el.index()) == Some((role@, n as nat)),
            None => sibling_number(el.nodes(), el.index()) is None,
        },
{
    let role = match attr_string(el, "AXRole") {
        Some(role) => role,
        None => {
            return None;
        },
    };
    let parent = match attr_element(el, "AXParent") {
        Some(parent) => parent,
        None => {
            return None;
        },
    };
    let siblings = children(parent);
    let ghost nodes = el.nodes();
    let ghost ids = child_ids(nodes, parent.index());
    let mut n: usize = 0;
    assert(ids.skip(0) =~= ids);
    for k in 0..siblings.len()
        invariant
            nodes == el.nodes(),
            lists(siblings@, nodes, ids),
            n <= k,
            match same_role_before(nodes, ids.skip(k as int), el.index(), role@) {
                Some(m) => same_role_before(nodes, ids, el.index(), role@) == Some((n + m) as nat),
                None => same_role_before(nodes, ids, el.index(), role@) is None,
            },
            parent_id(nodes, el.index()) == Some(parent.index()),
            text_attr(nodes, el.index(), "AXRole"@) == Some(role@),
            ids == child_ids(nodes, parent.index()),
    {
        assert(ids.skip(k as int).skip(1) =~= ids.skip(k + 1));
        if is_same_element(siblings[k], el) {
            return Some((role, n));
        }
        if attr_is(siblings[k], "AXRole", role.as_str()) {
            n += 1;
        }
    }
    None
}

// ---------------------------------------------------------------------------
// Matching a selector
// ---------------------------------------------------------------------------

/// The attribute of element `i` that the name in a bracket expression stands
/// for.
pub open spec fn bracket_field(nodes: Seq<ElementData>, i: usize, name: Seq<char>) -> Option<
    Seq<char>,
> {
    if name == "title"@ || name == "name"@ {
        text_attr(nodes, i, "AXTitle"@)
    } else if name == "desc"@ {
        text_attr(nodes, i, "AXDescription"@)
    } else if name == "text"@ {
        match text_attr(nodes, i, "AXValue"@) {
            Some(v) => Some(without_char(v, '\u{200b}')),
            None => None,
        }
    } else {
        None
    }
}

/// Element `i` meets the bracket expression whose inside is `inner`.
pub open spec fn bracket_accepts(nodes: Seq<ElementData>, i: usize, inner: Seq<char>) -> bool {
    match bracket(inner) {
        Some(b) => bracket_field(nodes, i, b.attr) matches Some(f) && op_accepts(b.op, f, b.val),
        None => false,
    }
}

/// The role of element `i` is what `wanted` asks for.
pub open spec fn has_role(nodes: Seq<ElementData>, i: usize, wanted: Seq<char>) -> bool {
    role_accepts(text_attr_or_empty(nodes, i, "AXRole"@), wanted)
}

/// One of the texts of element `i` itself is matched by `pattern`.
pub open spec fn own_text_matched(
    nodes: Seq<ElementData>,
    i: usize,
    pattern: Seq<char>,
) -> bool {
    exists|k: int|
        0 <= k < own_texts(nodes, i).len() && regex_outcome(
            pattern,
            #[trigger] own_texts(nodes, i)[k],
        ) == Some(true)
}

/// Element `i` meets what follows `text=`: a pattern between slashes, or else
/// the whole text.
pub open spec fn text_accepts(nodes: Seq<ElementData>, i: usize, rest: Seq<char>) -> bool {
    if starts_with(rest, "/"@) {
        slashed_pattern(rest) matches Some(pattern) && own_text_matched(nodes, i, pattern)
    } else {
        own_texts(nodes, i).contains(trim_char(rest, '"'))
    }
}

/// The role that a selector with classes asks for: what stands before its first
/// dot and before its first `:not(`.
pub open spec fn role_of_classes(sel: Seq<char>) -> Seq<char> {
    split(split(sel, "."@)[0], ":not("@)[0]
}

/// Element `i` meets a selector of a role, which can be missing, and classes.
pub open spec fn classes_accept(nodes: Seq<ElementData>, i: usize, sel: Seq<char>) -> bool {
    let role = role_of_classes(sel);
    &&& role.len() > 0 ==> has_role(nodes, i, role)
    &&& selector_accepts(
        parse_selector(sel.skip(role.len() as int)),
        list_attr(nodes, i, "AXDOMClassList"@),
    )
}

/// Element `i` meets a selector of a role and a DOM identifier, each of which
/// can be missing.
pub open spec fn role_and_id_accept(
    nodes: Seq<ElementData>,
    i: usize,
    role: Seq<char>,
    id: Seq<char>,
) -> bool {
    &&& id.len() > 0 ==> text_attr(nodes, i, "AXDOMIdentifier"@) == Some(id)
    &&& role.len() > 0 ==> has_role(nodes, i, role)
}

/// Element `i` meets a selector of a role and `:nth(N)`.
pub open spec fn nth_accepts(
    nodes: Seq<ElementData>,
    i: usize,
    role: Seq<char>,
    rest: Seq<char>,
) -> bool {
    match strip_suffix(rest, ")"@) {
        Some(digits) => match parse_unsigned(digits, usize::MAX as nat) {
            Some(n) => has_role(nodes, i, role) && (sibling_number(nodes, i) matches Some((_, m))
                && m == n),
            None => false,
        },
        None => false,
    }
}

/// Element `i` matches the selector `sel`, which has no pseudo-classes.
pub open spec fn base_matches(nodes: Seq<ElementData>, i: usize, sel: Seq<char>) -> bool {
    if starts_with(sel, "#"@) {
        text_attr(nodes, i, "AXDOMIdentifier"@) == Some(sel.skip(1))
    } else if strip_prefix(sel, "text="@) is Some {
        text_accepts(nodes, i, strip_prefix(sel, "text="@)->0)
    } else if strip_prefix(sel, "text~="@) is Some {
        some_contains(own_texts(nodes, i), trim_char(strip_prefix(sel, "text~="@)->0, '"'))
    } else if find(sel, "["@) is Some {
        let p = find(sel, "["@)->0;
        &&& has_role(nodes, i, sel.take(p))
        &&& strip_suffix(sel.skip(p + 1), "]"@) matches Some(inner)
        &&& bracket_accepts(nodes, i, inner)
    } else if split_once(sel, "#"@) is Some {
        let (role, id) = split_once(sel, "#"@)->0;
        role_and_id_accept(nodes, i, role, id)
    } else if contains(sel, "."@) {
        classes_accept(nodes, i, sel)
    } else if split_once(sel, ":nth("@) is Some {
        let (role, rest) = split_once(sel, ":nth("@)->0;
        nth_accepts(nodes, i, role, rest)
    } else {
        has_role(nodes, i, sel)
    }
}

/// How far below an element `:has(selector)` looks.
pub const HAS_DEPTH: usize = 20;

/// Element `i` matches the selector `sel`: what is left of it without its
/// pseudo-classes, where there is anything left, and each of these.
pub open spec fn selector_matches(nodes: Seq<ElementData>, i: usize, sel: Seq<char>) -> bool
    decreases sel.len(),
{
    proof {
        lemma_pseudo_shorter(sel);
    }
    let p = parse_pseudo(sel);
    &&& p.base.len() > 0 ==> base_matches(nodes, i, p.base)
    &&& p.visible ==> is_visible(nodes, i)
    &&& p.has_text matches Some(text) ==> subtree_has(nodes, i, text)
    &&& p.has_selector matches Some(inner) ==> exists|k: int|
        0 <= k < descendants(nodes, i, HAS_DEPTH as nat).len() && selector_matches(
            nodes,
            #[trigger] descendants(nodes, i, HAS_DEPTH as nat)[k],
            inner,
        )
    &&& p.nth_child matches Some(n) ==> is_child_number(nodes, i, n as nat)
}

/// The elements that match the selector `sel`.
pub open spec fn matched_by(nodes: Seq<ElementData>, sel: Seq<char>) -> spec_fn(usize) -> bool {
    |i: usize| selector_matches(nodes, i, sel)
}

/// The elements up to `depth` levels below element `i` that match `sel`.
pub open spec fn matching_below(
    nodes: Seq<ElementData>,
    i: usize,
    sel: Seq<char>,
    depth: nat,
) -> Seq<usize> {
    descendants(nodes, i, depth).filter(matched_by(nodes, sel))
}

fn element_has_role(el: Element<'_>, wanted: &str) -> (r: bool)
    ensures
        r == has_role(el.nodes(), el.index(), wanted@),
{
    role_matches(attr_string_or_empty(el, "AXRole").as_str(), wanted)
}

fn own_text_search(el: Element<'_>, pattern: &str) -> (r: bool)
    ensures
        r == own_text_matched(el.nodes(), el.index(), pattern@),
{
    let texts = own_texts_of(el);
    let ghost all = own_texts(el.nodes(), el.index());
    let mut outcomes: Vec<Option<bool>> = Vec::new();
    for k in 0..texts.len()
        invariant
            views(texts@) == all,
            outcomes@.len() == k,
            forall|j: int|
                0 <= j < k ==> outcomes@[j] == regex_outcome(pattern@, #[trigger] all[j]),
    {
        assert(all[k as int] == texts@[k as int]@);
        outcomes.push(regex_search(pattern, texts[k].as_str()));
    }
    proof {
        if own_text_matched(el.nodes(), el.index(), pattern@) {
            let k = choose|k: int|
                0 <= k < all.len() && regex_outcome(pattern@, #[trigger] all[k]) == Some(true);
            assert(outcomes@[k] == Some(true));
        }
        if outcomes@.contains(Some(true)) {
            let k = choose|k: int| 0 <= k < outcomes@.len() && outcomes@[k] == Some(true);
            assert(regex_outcome(pattern@, all[k]) == Some(true));
        }
    }
    some_match(&outcomes)
}

fn element_meets_text(el: Element<'_>, rest: &str) -> (r: bool)
    ensures
        r == text_accepts(el.nodes(), el.index(), rest@),
{
    if starts_with_text(rest, "/") {
        return match parse_slashed_pattern(rest) {
            Some(pattern) => own_text_search(el, pattern.as_str()),
            None => false,
        };
    }
    has_name(&own_texts_of(el), trim_char_text(rest, '"'))
}

fn element_meets_bracket(el: Element<'_>, inner: &str) -> (r: bool)
    ensures
        r == bracket_accepts(el.nodes(), el.index(), inner@),
{
    match parse_attr_bracket(inner) {
        Some(b) => {
            let field: Option<String> = if same_text(b.attr, "title") || same_text(b.attr, "name") {
                attr_string(el, "AXTitle")
            } else if same_text(b.attr, "desc") {
                attr_string(el, "AXDescription")
            } else if same_text(b.attr, "text") {
                match attr_string(el, "AXValue") {
                    Some(v) => Some(without_char_text(v.as_str(), '\u{200b}')),
                    None => None,
                }
            } else {
                None
            };
            match field {
                Some(f) => b.op.matches(f.as_str(), b.val),
                None => false,
            }
        },
        None => false,
    }
}

fn element_meets_classes(el: Element<'_>, sel: &str) -> (r: bool)
    ensures
        r == classes_accept(el.nodes(), el.index(), sel@),
{
    proof {
        reveal_strlit(".");
        reveal_strlit(":not(");
        lemma_split_first_prefix(sel@, "."@);
        lemma_split_first_prefix(split(sel@, "."@)[0], ":not("@);
    }
    let before_dot = split_text(sel, ".");
    let before_not = split_text(before_dot[0], ":not(");
    let role = before_not[0];
    assert(str_views(before_dot@)[0] == before_dot@[0]@);
    assert(str_views(before_not@)[0] == role@);
    if !role.is_empty() {
        if !element_has_role(el, role) {
            return false;
        }
    }
    let dom_sel = DOMSelector::parse(suffix(sel, crate::text::char_count(role)));
    dom_sel.matches(&attr_string_list(el, "AXDOMClassList"))
}

/// The first part of a split is no longer than the whole.
pub proof fn lemma_split_first_prefix(s: Seq<char>, pat: Seq<char>)
    ensures
        split(s, pat)[0].len() <= s.len(),
{
    lemma_find(s, pat);
}

fn element_meets_nth(el: Element<'_>, role: &str, rest: &str) -> (r: bool)
    ensures
        r == nth_accepts(el.nodes(), el.index(), role@, rest@),
{
    match strip_suffix_text(rest, ")") {
        Some(digits) => match parse_usize(digits) {
            Some(n) => {
                if !element_has_role(el, role) {
                    return false;
                }
                match nth_among_siblings(el) {
                    Some((_, m)) => m == n,
                    None => false,
                }
            },
            None => false,
        },
        None => false,
    }
}

/// Whether an element matches a selector that has no pseudo-classes.
pub fn element_matches_base_selector(el: Element<'_>, selector: &str) -> (r: bool)
    ensures
        r == base_matches(el.nodes(), el.index(), selector@),
{
    proof {
        reveal_strlit("#");
        reveal_strlit("[");
    }
    if starts_with_text(selector, "#") {
        return attr_is(el, "AXDOMIdentifier", suffix(selector, 1));
    }
    if let Some(rest) = strip_prefix_text(selector, "text=") {
        return element_meets_text(el, rest);
    }
    if let Some(rest) = strip_prefix_text(selector, "text~=") {
        return some_text_contains(&own_texts_of(el), trim_char_text(rest, '"'));
    }
    if let Some(p) = find_text(selector, "[") {
        if !element_has_role(el, prefix(selector, p)) {
            return false;
        }
        return match strip_suffix_text(suffix(selector, p + 1), "]") {
            Some(inner) => element_meets_bracket(el, inner),
            None => false,
        };
    }
    if let Some((role, id)) = split_once_text(selector, "#") {
        if !id.is_empty() && !attr_is(el, "AXDOMIdentifier", id) {
            return false;
        }
        return role.is_empty() || element_has_role(el, role);
    }
    if contains_text(selector, ".") {
        return element_meets_classes(el, selector);
    }
    if let Some((role, rest)) = split_once_text(selector, ":nth(") {
        return element_meets_nth(el, role, rest);
    }
    element_has_role(el, selector)
}

/// Whether an element matches a selector.
pub fn element_matches_selector(el: Element<'_>, selector: &str) -> (r: bool)
    ensures
        r == selector_matches(el.nodes(), el.index(), selector@),
    decreases selector@.len(), 0nat,
{
    proof {
        lemma_pseudo_shorter(selector@);
    }
    let pseudo = parse_pseudo_classes(selector);
    if !pseudo.base.is_empty() && !element_matches_base_selector(el, pseudo.base) {
        return false;
    }
    if pseudo.visible && !element_is_visible(el) {
        return false;
    }
    if let Some(text) = &pseudo.has_text {
        if !subtree_has_text(el, text.as_str()) {
            return false;
        }
    }
    if let Some(inner) = &pseudo.has_selector {
        let matches = collect_matching(el, inner.as_str(), HAS_DEPTH);
        proof {
            let below = descendants(el.nodes(), el.index(), HAS_DEPTH as nat);
            lemma_filter_nonempty(below, matched_by(el.nodes(), inner@));
        }
        if matches.len() == 0 {
            return false;
        }
    }
    if let Some(n) = pseudo.nth_child {
        if !is_nth_child(el, n) {
            return false;
        }
    }
    true
}

/// Something passes a filter exactly where the condition holds of something.
pub proof fn lemma_filter_nonempty(s: Seq<usize>, pred: spec_fn(usize) -> bool)
    ensures
        s.filter(pred).len() > 0 <==> exists|k: int| 0 <= k < s.len() && pred(#[trigger] s[k]),
    decreases s.len(),
{
    reveal(Seq::filter);
    if s.len() > 0 {
        lemma_filter_nonempty(s.drop_last(), pred);
        if exists|k: int| 0 <= k < s.len() && pred(#[trigger] s[k]) {
            let k = choose|k: int| 0 <= k < s.len() && pred(#[trigger] s[k]);
            if k < s.len() - 1 {
                assert(pred(s.drop_last()[k]));
            }
        }
        if s.drop_last().filter(pred).len() > 0 {
            let k = choose|k: int|
                0 <= k < s.drop_last().len() && pred(#[trigger] s.drop_last()[k]);
            assert(pred(s[k]));
        }
        if pred(s.last()) {
            assert(pred(s[s.len() - 1]));
        }
    }
}

/// All elements that match a selector up to `max_depth` levels below `root`.
pub fn collect_matching<'a>(root: Element<'a>, selector: &str, max_depth: usize) -> (r: Vec<
    Element<'a>,
>)
    ensures
        lists(
            r@,
            root.nodes(),
            matching_below(root.nodes(), root.index(), selector@, max_depth as nat),
        ),
    decreases selector@.len(), max_depth + 2,
{
    let mut results: Vec<Element<'a>> = Vec::new();
    collect_matching_inner(root, selector, max_depth, &mut results, Ghost(Seq::empty()));
    assert(Seq::<usize>::empty() + matching_below(
        root.nodes(),
        root.index(),
        selector@,
        max_depth as nat,
    ) =~= matching_below(root.nodes(), root.index(), selector@, max_depth as nat));
    results
}

/// Appends all elements that match a selector up to `depth` levels below `root`.
pub(crate) fn collect_matching_inner<'a>(
    root: Element<'a>,
    selector: &str,
    depth: usize,
    results: &mut Vec<Element<'a>>,
    Ghost(start): Ghost<Seq<usize>>,
)
    requires
        lists(old(results)@, root.nodes(), start),
    ensures
        lists(
            final(results)@,
            root.nodes(),
            start + matching_below(root.nodes(), root.index(), selector@, depth as nat),
        ),
    decreases selector@.len(), depth + 1,
{
    let ghost nodes = root.nodes();
    let ghost pred = matched_by(nodes, selector@);
    proof {
        reveal(Seq::filter);
    }
    if depth == 0 {
        assert(start + matching_below(nodes, root.index(), selector@, 0) =~= start);
        return;
    }
    let ghost ids = child_ids(nodes, root.index());
    let kids = children(root);
    assert(start + subtrees(nodes, ids.take(0), depth as nat).filter(pred) =~= start);
    for k in 0..kids.len()
        invariant
            depth > 0,
            lists(kids@, nodes, ids),
            pred == matched_by(nodes, selector@),
            lists(
                results@,
                nodes,
                start + subtrees(nodes, ids.take(k as int), depth as nat).filter(pred),
            ),
    {
        let kid = kids[k];
        let ghost front = start + subtrees(nodes, ids.take(k as int), depth as nat).filter(pred);
        let ghost own = if pred(ids[k as int]) {
            seq![ids[k as int]]
        } else {
            Seq::empty()
        };
        proof {
            lemma_subtrees_filter_step(nodes, ids, depth as nat, k as int, pred);
        }
        if element_matches_selector(kid, selector) {
            results.push(kid);
        }
        collect_matching_inner(kid, selector, depth - 1, results, Ghost(front + own));
        assert(front + own + matching_below(nodes, ids[k as int], selector@, (depth - 1) as nat)
            =~= start + subtrees(nodes, ids.take(k + 1), depth as nat).filter(pred));
    }
    assert(ids.take(kids@.len() as int) =~= ids);
}

// ---------------------------------------------------------------------------
// Laws
// ---------------------------------------------------------------------------

/// `sel:visible` matches what `sel` matches and is visible.
pub proof fn lemma_visible_suffix(nodes: Seq<ElementData>, i: usize, sel: Seq<char>)
    ensures
        selector_matches(nodes, i, sel + ":visible"@) <==> selector_matches(nodes, i, sel)
            && is_visible(nodes, i),
{
    let suffix = ":visible"@;
    let s = sel + suffix;
    assert(s.subrange(s.len() - suffix.len(), s.len() as int) =~= suffix);
    assert(s.take(s.len() - suffix.len()) =~= sel);
    assert(strip_suffix(s, suffix) == Some(sel));
    let p = parse_pseudo(sel);
    assert(parse_pseudo(s) == (Pseudo { visible: true, ..p }));
}

} // verus!

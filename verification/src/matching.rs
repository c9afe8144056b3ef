//! What each form of a selector asks of an element.

use vstd::prelude::*;
use crate::dom_selector::{
    dotted, lemma_dotted_chars, lemma_dotted_selector, lemma_not_selector, name_char,
    simple_classes,
};
use crate::generate::{
    lemma_bracket_end, lemma_bracket_selector_parts, lemma_bracket_selector_start,
    lemma_first_equals, lemma_no_colon, lemma_no_pseudo, lemma_nth_selector_chars,
    lemma_nth_selector_read, nth_selector, simple_role,
};
use crate::number::{
    all_digits, decimal, digits_value, is_digit, lemma_decimal_reads_back, parse_unsigned,
};
use crate::pattern::{
    lemma_slashed_pattern, regex_outcome, slashed_pattern,
};
use crate::query::some_contains;
use crate::selector::{
    base_matches, bracket, bracket_accepts, bracket_field, call_at, call_start, child_number,
    classes_accept, closed, closed_from, ends_call, has_role, last_call, lemma_call_at,
    lemma_closed_call_is_last, lemma_find_call, lemma_no_call_without_start, lemma_visible_suffix,
    no_pseudo, op_accepts, operator_at, own_text_matched, own_texts, parse_pseudo, quote_end,
    role_and_id_accept, role_of_classes, same_role_before, selector_matches, sibling_number,
    subtree_has, unquoted, AttrOp, Bracket, Call, PseudoCall,
};
use crate::text;
use crate::text::{
    contains, ends_with, find, lemma_find, lemma_missing_char, lemma_rfind, occurs_at, spaces,
    split, split_once, starts_with, strip_prefix, strip_suffix, trim, trim_char, trim_end_by,
    trim_start_by,
};
use crate::tree::{
    attr, child_ids, descendants, lemma_descendants_contains, list_attr, text_attr,
    text_attr_or_empty, AttrValue, ElementData,
};
use crate::unicode::{
    ascii_alphanumeric, lowercase,
};

verus! {

// ---------------------------------------------------------------------------
// Pseudo-classes with an argument
// ---------------------------------------------------------------------------

/// `s` with the pseudo-class `kind` and the argument `t` behind it.
pub open spec fn with_call(s: Seq<char>, kind: PseudoCall, t: Seq<char>) -> Seq<char> {
    s + call_start(kind) + t + ")"@
}

/// The pseudo-class is what is taken off first: its argument is closed, and no
/// pseudo-class that begins earlier ends with it.
pub open spec fn call_stands(s: Seq<char>, kind: PseudoCall, t: Seq<char>) -> bool {
    &&& closed(t)
    &&& forall|k: int| 0 <= k < s.len() ==> !(#[trigger] ends_call(with_call(s, kind, t), k))
}

#[verifier::rlimit(50)]
proof fn lemma_call_taken_off(s: Seq<char>, kind: PseudoCall, t: Seq<char>)
    requires
        call_stands(s, kind, t),
        kind is NthChild ==> all_digits(t) && digits_value(t) <= usize::MAX,
    ensures
        ({
            let p = parse_pseudo(s);
            let q = parse_pseudo(with_call(s, kind, t));
            &&& q.base == p.base
            &&& q.visible == p.visible
            &&& q.has_text == if kind is HasText && p.has_text is None {
                Some(unquoted(t))
            } else {
                p.has_text
            }
            &&& q.has_selector == if kind is Has && p.has_selector is None {
                Some(t)
            } else {
                p.has_selector
            }
            &&& q.nth_child == if kind is NthChild && p.nth_child is None {
                Some(digits_value(t) as usize)
            } else {
                p.nth_child
            }
        }),
{
    let w = with_call(s, kind, t);
    lemma_closed_call_is_last(s, kind, t);
    reveal_strlit(":visible");
    reveal_strlit(")");
    assert(w.last() == ')');
    assert(strip_suffix(w, ":visible"@) is None) by {
        if ends_with(w, ":visible"@) {
            assert(w.subrange(w.len() - 8, w.len() as int)[7] == w.last());
        }
    }
    if kind is NthChild {
        assert(is_digit(t[0]) && is_digit(t[t.len() - 1]));
        assert(!spaces()(t[0]) && !spaces()(t.last()));
        assert(trim(t) == t);
        assert(parse_unsigned(t, usize::MAX as nat) == Some(digits_value(t)));
    }
}

/// `s:has(t)` asks for what `s` asks, and for an element that matches `t` up to 20
/// levels below.
pub proof fn lemma_has_suffix(nodes: Seq<ElementData>, i: usize, s: Seq<char>, t: Seq<char>)
    requires
        call_stands(s, PseudoCall::Has, t),
        parse_pseudo(s).has_selector is None,
    ensures
        selector_matches(nodes, i, s + ":has("@ + t + ")"@) <==> selector_matches(nodes, i, s)
            && exists|x: usize| #[trigger]
            descendants(nodes, i, 20).contains(x) && selector_matches(nodes, x, t),
{
    lemma_call_taken_off(s, PseudoCall::Has, t);
    let below = descendants(nodes, i, 20);
    let w = s + ":has("@ + t + ")"@;
    if exists|x: usize| #[trigger] below.contains(x) && selector_matches(nodes, x, t) {
        let x = choose|x: usize| #[trigger] below.contains(x) && selector_matches(nodes, x, t);
        let k = choose|k: int| 0 <= k < below.len() && below[k] == x;
        assert(selector_matches(nodes, below[k], t));
    }
    if selector_matches(nodes, i, w) {
        let k = choose|k: int|
            0 <= k < below.len() && selector_matches(nodes, #[trigger] below[k], t);
        assert(below.contains(below[k]));
    }
}

/// `s:has(t)` holds of an element that `s` holds of, where `t` holds of a child of a
/// child of it.
pub proof fn lemma_has_grandchild(
    nodes: Seq<ElementData>,
    i: usize,
    c: usize,
    x: usize,
    s: Seq<char>,
    t: Seq<char>,
)
    requires
        call_stands(s, PseudoCall::Has, t),
        parse_pseudo(s).has_selector is None,
        selector_matches(nodes, i, s),
        selector_matches(nodes, x, t),
        child_ids(nodes, i).contains(c),
        child_ids(nodes, c).contains(x),
    ensures
        selector_matches(nodes, i, s + ":has("@ + t + ")"@),
{
    lemma_has_suffix(nodes, i, s, t);
    lemma_descendants_contains(nodes, c, 19, x);
    lemma_descendants_contains(nodes, i, 20, x);
    let k = choose|k: int| 0 <= k < child_ids(nodes, i).len() && child_ids(nodes, i)[k] == c;
    let m = choose|m: int| 0 <= m < child_ids(nodes, c).len() && child_ids(nodes, c)[m] == x;
    assert(child_ids(nodes, c)[m] == x);
    assert(child_ids(nodes, i)[k] == c);
    assert(descendants(nodes, i, 20).contains(x));
}

/// `x` stands in the value, the title or the description of element `i`.
pub open spec fn shows(nodes: Seq<ElementData>, i: usize, x: Seq<char>) -> bool {
    ||| text_attr(nodes, i, "AXValue"@) matches Some(v) && exists|k: int| occurs_at(v, x, k)
    ||| text_attr(nodes, i, "AXTitle"@) matches Some(v) && exists|k: int| occurs_at(v, x, k)
    ||| text_attr(nodes, i, "AXDescription"@) matches Some(v) && exists|k: int| occurs_at(v, x, k)
}

proof fn lemma_shows(nodes: Seq<ElementData>, i: usize, x: Seq<char>)
    ensures
        shows(nodes, i, x) <==> some_contains(own_texts(nodes, i), x),
{
    let texts = own_texts(nodes, i);
    if let Some(v) = text_attr(nodes, i, "AXValue"@) {
        assert(texts[0] == v);
        if exists|k: int| occurs_at(v, x, k) {
            assert(contains(texts[0], x));
        }
    }
    if let Some(v) = text_attr(nodes, i, "AXDescription"@) {
        assert(texts[texts.len() - 1] == v);
        if exists|k: int| occurs_at(v, x, k) {
            assert(contains(texts[texts.len() - 1], x));
        }
    }
    if let Some(v) = text_attr(nodes, i, "AXTitle"@) {
        let n: int = if text_attr(nodes, i, "AXValue"@) is Some { 1 } else { 0 };
        assert(texts[n] == v);
        if exists|k: int| occurs_at(v, x, k) {
            assert(contains(texts[n], x));
        }
    }
}

/// The text has no quotation mark at its ends.
pub open spec fn bare(x: Seq<char>) -> bool {
    x.len() > 0 ==> x[0] != '"' && x[0] != '\'' && x.last() != '"' && x.last() != '\''
}

proof fn lemma_trim_marks(x: Seq<char>, c: char)
    requires
        x.len() > 0 ==> x[0] != c && x.last() != c,
    ensures
        trim_char(x, c) == x,
        trim_char(seq![c] + x + seq![c], c) == x,
{
    let drop = text::only(c);
    let q = seq![c] + x + seq![c];
    let tail = q.skip(1);
    assert(tail =~= x + seq![c]);
    assert(drop(q[0]));
    if x.len() > 0 {
        assert(!drop(x[0]));
        assert(!drop(x.last()));
        assert(trim_start_by(x, drop) == x);
        assert(tail[0] == x[0]);
        assert(trim_start_by(tail, drop) == tail);
        assert(drop(tail.last()));
        assert(tail.drop_last() =~= x);
        assert(trim_end_by(x, drop) == x);
        assert(trim_end_by(tail, drop) == x);
        assert(trim_start_by(q, drop) == trim_start_by(tail, drop));
    } else {
        assert(tail =~= seq![c]);
        assert(drop(tail[0]));
        assert(tail.skip(1) =~= x);
        assert(trim_start_by(x, drop) == x);
        assert(trim_start_by(tail, drop) == trim_start_by(tail.skip(1), drop));
        assert(trim_start_by(q, drop) == trim_start_by(tail, drop));
        assert(trim_end_by(x, drop) == x);
    }
}

/// `s:has-text("x")` asks for what `s` asks, and for `x` in a value, a title or a
/// description, of the element itself or of one below it, however far.
pub proof fn lemma_has_text_suffix(nodes: Seq<ElementData>, i: usize, s: Seq<char>, x: Seq<char>)
    requires
        bare(x),
        call_stands(s, PseudoCall::HasText, seq!['"'] + x + seq!['"']),
        parse_pseudo(s).has_text is None,
    ensures
        selector_matches(nodes, i, s + ":has-text("@ + (seq!['"'] + x + seq!['"']) + ")"@) <==> {
            &&& selector_matches(nodes, i, s)
            &&& shows(nodes, i, x) || exists|depth: nat, y: usize| #[trigger]
                descendants(nodes, i, depth).contains(y) && shows(nodes, y, x)
        },
{
    let t = seq!['"'] + x + seq!['"'];
    lemma_call_taken_off(s, PseudoCall::HasText, t);
    lemma_trim_marks(x, '"');
    lemma_trim_marks(x, '\'');
    assert(unquoted(t) == x);
    lemma_shows(nodes, i, x);
    if subtree_has(nodes, i, x) && !shows(nodes, i, x) {
        let (depth, y) = choose|depth: nat, y: usize| #[trigger]
            descendants(nodes, i, depth).contains(y) && some_contains(own_texts(nodes, y), x);
        lemma_shows(nodes, y, x);
        assert(descendants(nodes, i, depth).contains(y) && shows(nodes, y, x));
    }
    if exists|depth: nat, y: usize| #[trigger]
        descendants(nodes, i, depth).contains(y) && shows(nodes, y, x) {
        let (depth, y) = choose|depth: nat, y: usize| #[trigger]
            descendants(nodes, i, depth).contains(y) && shows(nodes, y, x);
        lemma_shows(nodes, y, x);
        assert(subtree_has(nodes, i, x));
    }
}

/// `s:nth-child(N)` asks for what `s` asks, and for the element to be child number
/// `N`, from 0, of the parent that it names.
pub proof fn lemma_nth_child_suffix(nodes: Seq<ElementData>, i: usize, s: Seq<char>, d: Seq<char>)
    requires
        all_digits(d),
        digits_value(d) <= usize::MAX,
        call_stands(s, PseudoCall::NthChild, d),
        parse_pseudo(s).nth_child is None,
    ensures
        selector_matches(nodes, i, s + ":nth-child("@ + d + ")"@) <==> {
            &&& selector_matches(nodes, i, s)
            &&& attr(nodes, i, "AXParent"@) matches Some(AttrValue::Element(p)) && digits_value(d)
                < child_ids(nodes, p).len() && child_ids(nodes, p)[digits_value(d) as int] == i
        },
{
    lemma_call_taken_off(s, PseudoCall::NthChild, d);
}

// ---------------------------------------------------------------------------
// Arguments
// ---------------------------------------------------------------------------

/// Neither a parenthesis nor a quotation mark stands in `t`.
pub open spec fn no_marks(t: Seq<char>) -> bool {
    forall|k: int|
        0 <= k < t.len() ==> #[trigger] t[k] != '(' && t[k] != ')' && t[k] != '"' && t[k] != '\''
}

/// A part of an argument without parentheses and quotation marks opens and closes
/// nothing.
proof fn lemma_no_marks_from(t: Seq<char>, i: int, j: int, depth: nat)
    requires
        0 <= i <= j <= t.len(),
        forall|k: int|
            i <= k < j ==> #[trigger] t[k] != '(' && t[k] != ')' && t[k] != '"' && t[k] != '\'',
    ensures
        closed_from(t, i, depth) == closed_from(t, j, depth),
    decreases j - i,
{
    if i < j {
        lemma_no_marks_from(t, i + 1, j, depth);
    }
}

/// An argument without parentheses and quotation marks is closed, and so is one
/// with such a text between parentheses at its end, and a quoted text that holds no
/// double quote, whatever else it holds.
pub proof fn lemma_closed_arguments(u: Seq<char>, v: Seq<char>, x: Seq<char>)
    requires
        no_marks(u),
        no_marks(v),
        forall|k: int| 0 <= k < x.len() ==> #[trigger] x[k] != '"',
    ensures
        closed(u),
        closed(u + seq!['('] + v + seq![')']),
        !closed(u + seq![')'] + v),
        closed(seq!['"'] + x + seq!['"']),
{
    lemma_no_marks_from(u, 0, u.len() as int, 0);
    let n = u.len() as int;
    let m = v.len() as int;
    let w = u + seq!['('] + v + seq![')'];
    assert forall|k: int| 0 <= k < n implies #[trigger] w[k] == u[k] by {}
    assert forall|k: int| n < k < n + 1 + m implies #[trigger] w[k] == v[k - n - 1] by {}
    lemma_no_marks_from(w, 0, n, 0);
    lemma_no_marks_from(w, n + 1, n + 1 + m, 1);
    assert(w[n] == '(' && w[n + 1 + m] == ')');
    assert(closed_from(w, n + 2 + m, 0));
    assert(closed_from(w, n + 1 + m, 1));
    assert(closed_from(w, n, 0));
    let z = u + seq![')'] + v;
    assert forall|k: int| 0 <= k < n implies #[trigger] z[k] == u[k] by {}
    lemma_no_marks_from(z, 0, n, 0);
    assert(z[n] == ')');
    let q = seq!['"'] + x + seq!['"'];
    lemma_end_of_quote(q, 1);
    assert(q[0] == '"');
    assert(closed_from(q, q.len() as int, 0));
}

proof fn lemma_end_of_quote(q: Seq<char>, i: int)
    requires
        1 <= i < q.len(),
        q.last() == '"',
        forall|k: int| 0 < k < q.len() - 1 ==> #[trigger] q[k] != '"',
    ensures
        quote_end(q, '"', i) == q.len() - 1,
    decreases q.len() - i,
{
    if i < q.len() - 1 {
        lemma_end_of_quote(q, i + 1);
    }
}

/// Behind a text without a colon, a pseudo-class with a closed argument is what is
/// taken off.
pub proof fn lemma_call_stands(s: Seq<char>, kind: PseudoCall, t: Seq<char>)
    requires
        forall|k: int| 0 <= k < s.len() ==> #[trigger] s[k] != ':',
        closed(t),
    ensures
        call_stands(s, kind, t),
{
    let w = with_call(s, kind, t);
    assert forall|k: int| 0 <= k < s.len() implies !(#[trigger] ends_call(w, k)) by {
        assert(w[k] == s[k]);
        if let Some(found) = call_at(w, k) {
            lemma_call_at(w, found, k);
        }
    }
}

// ---------------------------------------------------------------------------
// Roles and identifiers
// ---------------------------------------------------------------------------

/// The role of element `i` is `r`: as it is written, or without its prefix `AX` and
/// in any case; and `text` is the role of each of the three kinds of text.
pub open spec fn role_fits(nodes: Seq<ElementData>, i: usize, r: Seq<char>) -> bool {
    let have = text_attr_or_empty(nodes, i, "AXRole"@);
    let stem = if have.len() >= 2 && have[0] == 'A' && have[1] == 'X' {
        have.skip(2)
    } else {
        have
    };
    ||| have == r
    ||| lowercase(stem) == lowercase(r)
    ||| lowercase(r) == "text"@ && (lowercase(stem) == "statictext"@ || lowercase(stem)
        == "textarea"@ || lowercase(stem) == "textfield"@)
}

proof fn lemma_role_fits(nodes: Seq<ElementData>, i: usize, r: Seq<char>)
    ensures
        role_fits(nodes, i, r) <==> has_role(nodes, i, r),
{
    let have = text_attr_or_empty(nodes, i, "AXRole"@);
    reveal_strlit("AX");
    if have.len() >= 2 && have[0] == 'A' && have[1] == 'X' {
        assert(have.subrange(0, 2) =~= "AX"@);
    } else if starts_with(have, "AX"@) {
        assert(have.subrange(0, 2)[0] == have[0] && have.subrange(0, 2)[1] == have[1]);
    }
}

/// A role alone asks for that role.
#[verifier::rlimit(50)]
pub proof fn lemma_role_selector(nodes: Seq<ElementData>, i: usize, role: Seq<char>)
    requires
        simple_role(role),
    ensures
        selector_matches(nodes, i, role) <==> role_fits(nodes, i, role),
{
    assert forall|k: int| 0 <= k < role.len() implies #[trigger] role[k] != ':' && role[k] != '#'
        && role[k] != '=' && role[k] != '[' && role[k] != '.' by {
        assert(ascii_alphanumeric(role[k]));
    }
    lemma_no_colon(role);
    reveal_strlit("#");
    reveal_strlit("text=");
    reveal_strlit("text~=");
    reveal_strlit("[");
    reveal_strlit(".");
    reveal_strlit(":nth(");
    lemma_missing_char(role, "#"@, 0);
    lemma_missing_char(role, "text="@, 4);
    lemma_missing_char(role, "text~="@, 5);
    lemma_missing_char(role, "["@, 0);
    lemma_missing_char(role, "."@, 0);
    lemma_missing_char(role, ":nth("@, 0);
    lemma_role_fits(nodes, i, role);
}

/// The words `text` and, in any case, a role without its prefix ask for elements of
/// these roles.
pub proof fn lemma_role_words(nodes: Seq<ElementData>, i: usize, stem: Seq<char>, r: Seq<char>)
    requires
        simple_role(r),
        text_attr(nodes, i, "AXRole"@) == Some("AX"@ + stem),
    ensures
        r == "AX"@ + stem ==> selector_matches(nodes, i, r),
        lowercase(r) == lowercase(stem) ==> selector_matches(nodes, i, r),
        r == "text"@ && (stem == "StaticText"@ || stem == "TextArea"@ || stem == "TextField"@)
            ==> selector_matches(nodes, i, r),
        r != "AX"@ + stem && lowercase(r) != lowercase(stem) && lowercase(r) != "text"@
            ==> !selector_matches(nodes, i, r),
{
    lemma_role_selector(nodes, i, r);
    reveal_strlit("AX");
    let have = "AX"@ + stem;
    assert(have.skip(2) =~= stem);
    if r == "text"@ && (stem == "StaticText"@ || stem == "TextArea"@ || stem == "TextField"@) {
        lemma_text_words(stem);
    }
}

proof fn lemma_text_words(stem: Seq<char>)
    requires
        stem == "StaticText"@ || stem == "TextArea"@ || stem == "TextField"@,
    ensures
        lowercase("text"@) == "text"@,
        lowercase(stem) == "statictext"@ || lowercase(stem) == "textarea"@ || lowercase(stem)
            == "textfield"@,
{
    reveal_strlit("text");
    reveal_strlit("StaticText");
    reveal_strlit("TextArea");
    reveal_strlit("TextField");
    reveal_strlit("statictext");
    reveal_strlit("textarea");
    reveal_strlit("textfield");
    assert(lowercase("text"@) =~= "text"@);
    if stem == "StaticText"@ {
        assert(lowercase(stem) =~= "statictext"@);
    } else if stem == "TextArea"@ {
        assert(lowercase(stem) =~= "textarea"@);
    } else {
        assert(lowercase(stem) =~= "textfield"@);
    }
}

/// `#id` asks for the DOM identifier `id`.
pub proof fn lemma_id_selector(nodes: Seq<ElementData>, i: usize, id: Seq<char>)
    requires
        forall|k: int| 0 <= k < id.len() ==> #[trigger] id[k] != ':',
    ensures
        selector_matches(nodes, i, "#"@ + id) <==> text_attr(nodes, i, "AXDOMIdentifier"@) == Some(
            id,
        ),
{
    let s = "#"@ + id;
    reveal_strlit("#");
    assert forall|k: int| 0 <= k < s.len() implies #[trigger] s[k] != ':' by {
        if k > 0 {
            assert(s[k] == id[k - 1]);
        }
    }
    lemma_no_colon(s);
    assert(s.subrange(0, 1) =~= "#"@);
    assert(s.skip(1) =~= id);
}

/// `Role#id` asks for the role and the DOM identifier `id`.
pub proof fn lemma_role_and_id_selector(
    nodes: Seq<ElementData>,
    i: usize,
    role: Seq<char>,
    id: Seq<char>,
)
    requires
        simple_role(role),
        id.len() > 0,
        forall|k: int| 0 <= k < id.len() ==> #[trigger] id[k] != ':' && id[k] != '[',
    ensures
        selector_matches(nodes, i, role + "#"@ + id) <==> text_attr(nodes, i, "AXDOMIdentifier"@)
            == Some(id) && role_fits(nodes, i, role),
{
    let s = role + "#"@ + id;
    lemma_role_and_id_read(role, id, s);
    lemma_role_and_id_once(role, id, s);
    lemma_no_colon(s);
    lemma_role_fits(nodes, i, role);
    assert(base_matches(nodes, i, s) <==> role_and_id_accept(nodes, i, role, id));
}

/// `Role#id` is not taken for another form of selector.
#[verifier::rlimit(50)]
pub proof fn lemma_role_and_id_read(role: Seq<char>, id: Seq<char>, s: Seq<char>)
    requires
        simple_role(role),
        forall|k: int| 0 <= k < id.len() ==> #[trigger] id[k] != ':' && id[k] != '[',
        s == role + "#"@ + id,
    ensures
        forall|k: int| 0 <= k < s.len() ==> #[trigger] s[k] != ':',
        find(s, "["@) is None,
        !starts_with(s, "#"@),
        strip_prefix(s, "text="@) is None,
        strip_prefix(s, "text~="@) is None,
{
    let n = role.len() as int;
    reveal_strlit("#");
    reveal_strlit("[");
    assert(s[n] == '#');
    assert forall|k: int| 0 <= k < n implies ascii_alphanumeric(#[trigger] s[k]) by {
        assert(s[k] == role[k]);
    }
    assert forall|k: int| 0 <= k < s.len() implies #[trigger] s[k] != ':' && s[k] != '[' by {
        if k > n {
            assert(s[k] == id[k - n - 1]);
        } else if k < n {
            assert(ascii_alphanumeric(s[k]));
        }
    }
    lemma_missing_char(s, "["@, 0);
    if starts_with(s, "#"@) {
        assert(s.subrange(0, 1)[0] == s[0]);
        assert(ascii_alphanumeric(s[0]));
    }
    lemma_not_text_before(s, n, "text="@);
    lemma_not_text_before(s, n, "text~="@);
}

/// `Role#id` is cut into the role and the identifier.
pub proof fn lemma_role_and_id_once(role: Seq<char>, id: Seq<char>, s: Seq<char>)
    requires
        simple_role(role),
        s == role + "#"@ + id,
    ensures
        split_once(s, "#"@) == Some((role, id)),
{
    let n = role.len() as int;
    reveal_strlit("#");
    assert(s.subrange(n, n + 1) =~= "#"@);
    assert(occurs_at(s, "#"@, n));
    lemma_find(s, "#"@);
    assert forall|j: int| 0 <= j < n implies !occurs_at(s, "#"@, j) by {
        if occurs_at(s, "#"@, j) {
            assert(s.subrange(j, j + 1)[0] == s[j]);
            assert(s[j] == role[j]);
            assert(ascii_alphanumeric(role[j]));
        }
    }
    assert(s.take(n) =~= role);
    assert(s.skip(n + 1) =~= id);
}

/// A selector whose first mark is not `=` or `~` does not begin like one for texts.
proof fn lemma_not_text_before(s: Seq<char>, n: int, pat: Seq<char>)
    requires
        0 <= n < s.len(),
        forall|k: int| 0 <= k < n ==> ascii_alphanumeric(#[trigger] s[k]),
        s[n] == '#' || s[n] == '.' || s[n] == '[',
        pat == "text="@ || pat == "text~="@,
    ensures
        strip_prefix(s, pat) is None,
{
    reveal_strlit("text=");
    reveal_strlit("text~=");
    if starts_with(s, pat) {
        let m = pat.len() as int;
        if n < m {
            assert(s.subrange(0, m)[n] == s[n]);
        } else {
            assert(s.subrange(0, m)[m - 1] == s[m - 1]);
            assert(ascii_alphanumeric(s[m - 1]));
        }
    }
}

// ---------------------------------------------------------------------------
// Texts
// ---------------------------------------------------------------------------

/// `text~=x` asks for `x` in the value, the title or the description, and `text=x`
/// for one of these that is `x`. Double quotes around `x` do not count.
pub proof fn lemma_text_selector(nodes: Seq<ElementData>, i: usize, x: Seq<char>)
    requires
        bare(x),
        x.len() > 0 ==> x[0] != '/',
        forall|k: int| 0 <= k < x.len() ==> #[trigger] x[k] != ':',
    ensures
        selector_matches(nodes, i, "text~="@ + x) <==> shows(nodes, i, x),
        selector_matches(nodes, i, "text~="@ + (seq!['"'] + x + seq!['"'])) <==> shows(nodes, i, x),
        selector_matches(nodes, i, "text="@ + x) <==> is_text_of(nodes, i, x),
        selector_matches(nodes, i, "text="@ + (seq!['"'] + x + seq!['"'])) <==> is_text_of(
            nodes,
            i,
            x,
        ),
{
    lemma_trim_marks(x, '"');
    let q = seq!['"'] + x + seq!['"'];
    assert forall|k: int| 0 <= k < q.len() implies #[trigger] q[k] != ':' by {
        if 0 < k < q.len() - 1 {
            assert(q[k] == x[k - 1]);
        }
    }
    lemma_shows(nodes, i, x);
    lemma_is_text_of(nodes, i, x);
    lemma_text_read(nodes, i, x, x);
    lemma_text_read(nodes, i, q, x);
}

/// The value, the title or the description of element `i` is `x`.
pub open spec fn is_text_of(nodes: Seq<ElementData>, i: usize, x: Seq<char>) -> bool {
    ||| text_attr(nodes, i, "AXValue"@) == Some(x)
    ||| text_attr(nodes, i, "AXTitle"@) == Some(x)
    ||| text_attr(nodes, i, "AXDescription"@) == Some(x)
}

proof fn lemma_is_text_of(nodes: Seq<ElementData>, i: usize, x: Seq<char>)
    ensures
        is_text_of(nodes, i, x) <==> own_texts(nodes, i).contains(x),
{
    let texts = own_texts(nodes, i);
    if let Some(v) = text_attr(nodes, i, "AXValue"@) {
        assert(texts[0] == v);
    }
    if let Some(v) = text_attr(nodes, i, "AXDescription"@) {
        assert(texts[texts.len() - 1] == v);
    }
    if let Some(v) = text_attr(nodes, i, "AXTitle"@) {
        let n: int = if text_attr(nodes, i, "AXValue"@) is Some { 1 } else { 0 };
        assert(texts[n] == v);
    }
}

#[verifier::rlimit(50)]
proof fn lemma_text_read(nodes: Seq<ElementData>, i: usize, t: Seq<char>, x: Seq<char>)
    requires
        forall|k: int| 0 <= k < t.len() ==> #[trigger] t[k] != ':',
        t.len() > 0 ==> t[0] != '/',
        trim_char(t, '"') == x,
    ensures
        selector_matches(nodes, i, "text~="@ + t) <==> some_contains(own_texts(nodes, i), x),
        selector_matches(nodes, i, "text="@ + t) <==> own_texts(nodes, i).contains(x),
{
    let a = "text="@ + t;
    let b = "text~="@ + t;
    reveal_strlit("text=");
    reveal_strlit("text~=");
    reveal_strlit("#");
    reveal_strlit("/");
    assert forall|k: int| 0 <= k < a.len() implies #[trigger] a[k] != ':' by {
        if k >= 5 {
            assert(a[k] == t[k - 5]);
        }
    }
    assert forall|k: int| 0 <= k < b.len() implies #[trigger] b[k] != ':' by {
        if k >= 6 {
            assert(b[k] == t[k - 6]);
        }
    }
    lemma_no_colon(a);
    lemma_no_colon(b);
    assert(a[0] == 't' && b[0] == 't' && b[4] == '~');
    assert(!starts_with(a, "#"@)) by {
        if starts_with(a, "#"@) {
            assert(a.subrange(0, 1)[0] == a[0]);
        }
    }
    assert(!starts_with(b, "#"@)) by {
        if starts_with(b, "#"@) {
            assert(b.subrange(0, 1)[0] == b[0]);
        }
    }
    assert(a.subrange(0, 5) =~= "text="@);
    assert(a.skip(5) =~= t);
    assert(strip_prefix(b, "text="@) is None) by {
        if starts_with(b, "text="@) {
            assert(b.subrange(0, 5)[4] == b[4]);
        }
    }
    assert(b.subrange(0, 6) =~= "text~="@);
    assert(b.skip(6) =~= t);
    assert(!starts_with(t, "/"@)) by {
        if starts_with(t, "/"@) {
            assert(t.subrange(0, 1)[0] == t[0]);
        }
    }
}

// ---------------------------------------------------------------------------
// Brackets
// ---------------------------------------------------------------------------

/// What stands before `=` for the operator.
pub open spec fn op_mark(op: AttrOp) -> Seq<char> {
    match op {
        AttrOp::Exact => Seq::empty(),
        AttrOp::Contains => seq!['*'],
        AttrOp::StartsWith => seq!['^'],
        AttrOp::EndsWith => seq!['$'],
    }
}

/// A bracket expression reads as its name, its operator and its value, with or
/// without double quotes around the value.
pub proof fn lemma_bracket_read(name: Seq<char>, op: AttrOp, v: Seq<char>)
    requires
        simple_role(name),
        v.len() > 0 ==> v[0] != '"' && v.last() != '"',
    ensures
        bracket(name + op_mark(op) + seq!['='] + v) == Some(Bracket { attr: name, op, val: v }),
        bracket(name + op_mark(op) + seq!['='] + (seq!['"'] + v + seq!['"'])) == Some(
            Bracket { attr: name, op, val: v },
        ),
{
    lemma_trim_marks(v, '"');
    lemma_bracket_value(name, op, v, v);
    lemma_bracket_value(name, op, seq!['"'] + v + seq!['"'], v);
}

proof fn lemma_bracket_value(name: Seq<char>, op: AttrOp, t: Seq<char>, v: Seq<char>)
    requires
        simple_role(name),
        trim_char(t, '"') == v,
    ensures
        bracket(name + op_mark(op) + seq!['='] + t) == Some(Bracket { attr: name, op, val: v }),
{
    let s = name + op_mark(op) + seq!['='] + t;
    let n = name.len() as int;
    let eq = n + op_mark(op).len();
    assert forall|k: int| 0 <= k < n implies #[trigger] s[k] == name[k] by {}
    assert forall|k: int| 0 <= k < eq implies #[trigger] s[k] != '=' && s[k] != '"' by {
        if k < n {
            assert(s[k] == name[k]);
            assert(ascii_alphanumeric(name[k]));
        }
    }
    assert(s[eq] == '=');
    lemma_first_equals(s, 0, eq);
    assert(s[n - 1] == name[n - 1]);
    assert(ascii_alphanumeric(name[n - 1]));
    assert(operator_at(s, eq) == (op, n));
    assert(s.take(n) =~= name);
    assert(ascii_alphanumeric(name[0]));
    assert(!spaces()(name[0]) && !spaces()(name.last()));
    assert(trim(name) == name);
    assert(s.skip(eq + 1) =~= t);
}

/// The attribute that a name in a bracket stands for.
pub open spec fn named_attribute(name: Seq<char>, attribute: Seq<char>) -> bool {
    ||| name == "title"@ && attribute == "AXTitle"@
    ||| name == "name"@ && attribute == "AXTitle"@
    ||| name == "desc"@ && attribute == "AXDescription"@
}

/// The text `f` is as the operator asks: it is `v`, holds it, begins with it or ends
/// with it.
pub open spec fn op_holds(op: AttrOp, f: Seq<char>, v: Seq<char>) -> bool {
    match op {
        AttrOp::Exact => f == v,
        AttrOp::Contains => exists|k: int| occurs_at(f, v, k),
        AttrOp::StartsWith => v.len() <= f.len() && f.take(v.len() as int) == v,
        AttrOp::EndsWith => v.len() <= f.len() && f.skip(f.len() - v.len()) == v,
    }
}

proof fn lemma_op_holds(op: AttrOp, f: Seq<char>, v: Seq<char>)
    ensures
        op_holds(op, f, v) <==> op_accepts(op, f, v),
{
    if v.len() <= f.len() {
        assert(f.take(v.len() as int) =~= f.subrange(0, v.len() as int));
        assert(f.skip(f.len() - v.len()) =~= f.subrange(f.len() - v.len(), f.len() as int));
    }
}

/// `Role[name="v"]` and its relatives ask for the role and for a title, a
/// description or a value that is `v`, holds it, begins with it or ends with it.
#[verifier::rlimit(50)]
pub proof fn lemma_bracket_selector(
    nodes: Seq<ElementData>,
    i: usize,
    role: Seq<char>,
    name: Seq<char>,
    attribute: Seq<char>,
    op: AttrOp,
    v: Seq<char>,
)
    requires
        simple_role(role),
        v.len() > 0 ==> v[0] != '"' && v.last() != '"',
    ensures
        ({
            let s = role + "["@ + (name + op_mark(op) + seq!['='] + (seq!['"'] + v + seq!['"']))
                + "]"@;
            &&& named_attribute(name, attribute) ==> (selector_matches(nodes, i, s) <==> role_fits(
                nodes,
                i,
                role,
            ) && (text_attr(nodes, i, attribute) matches Some(f) && op_holds(op, f, v)))
            &&& name == "text"@ ==> (selector_matches(nodes, i, s) <==> role_fits(nodes, i, role)
                && (text_attr(nodes, i, "AXValue"@) matches Some(f) && op_holds(
                op,
                f.filter(|c: char| c != '\u{200b}'),
                v,
            )))
        }),
{
    if named_attribute(name, attribute) || name == "text"@ {
        let inside = name + op_mark(op) + seq!['='] + (seq!['"'] + v + seq!['"']);
        let s = role + "["@ + inside + "]"@;
        lemma_bracket_names(name);
        lemma_bracket_read(name, op, v);
        lemma_bracket_selector_parts(role, inside, s);
        lemma_bracket_selector_start(role, s);
        lemma_bracket_end(s);
        lemma_role_fits(nodes, i, role);
        assert(selector_matches(nodes, i, s) <==> has_role(nodes, i, role) && bracket_accepts(
            nodes,
            i,
            inside,
        ));
        if let Some(f) = bracket_field(nodes, i, name) {
            lemma_op_holds(op, f, v);
        }
        if let Some(f) = text_attr(nodes, i, "AXValue"@) {
            assert(text::all_but('\u{200b}') =~= (|c: char| c != '\u{200b}'));
        }
    }
}

/// The names that can stand in a bracket differ.
proof fn lemma_bracket_names(name: Seq<char>)
    requires
        name == "title"@ || name == "name"@ || name == "desc"@ || name == "text"@,
    ensures
        simple_role(name),
        "title"@ != "desc"@ && "title"@ != "text"@ && "name"@ != "desc"@ && "name"@ != "text"@
            && "desc"@ != "text"@,
{
    reveal_strlit("title");
    reveal_strlit("name");
    reveal_strlit("desc");
    reveal_strlit("text");
    assert("title"@.len() == 5 && "name"@.len() == 4 && "desc"@.len() == 4 && "text"@.len() == 4);
    assert("name"@[0] == 'n' && "desc"@[0] == 'd' && "text"@[0] == 't');
}

// ---------------------------------------------------------------------------
// Classes and numbers
// ---------------------------------------------------------------------------

/// `Role.a.b` and `.a.b` ask for all the classes, and for the role where there is
/// one.
pub proof fn lemma_class_selector(
    nodes: Seq<ElementData>,
    i: usize,
    role: Seq<char>,
    names: Seq<Seq<char>>,
)
    requires
        role.len() > 0 ==> simple_role(role),
        names.len() > 0,
        simple_classes(names),
    ensures
        selector_matches(nodes, i, role + dotted(names)) <==> {
            &&& role.len() > 0 ==> role_fits(nodes, i, role)
            &&& forall|k: int|
                0 <= k < names.len() ==> list_attr(nodes, i, "AXDOMClassList"@).contains(
                    #[trigger] names[k],
                )
        },
{
    let dots = dotted(names);
    let s = role + dots;
    let p = role.len() as int;
    lemma_class_selector_read(role, names, s);
    assert(s.take(p) =~= role);
    lemma_class_selector_role(role, names, s);
    lemma_no_colon(s);
    lemma_role_fits(nodes, i, role);
    assert(s.skip(p) =~= dots);
    lemma_dotted_selector(names, list_attr(nodes, i, "AXDOMClassList"@));
    assert(base_matches(nodes, i, s) <==> classes_accept(nodes, i, s));
}

/// A selector of classes is not taken for another form of selector.
#[verifier::rlimit(50)]
pub proof fn lemma_class_selector_read(role: Seq<char>, names: Seq<Seq<char>>, s: Seq<char>)
    requires
        role.len() > 0 ==> simple_role(role),
        names.len() > 0,
        simple_classes(names),
        s == role + dotted(names),
    ensures
        forall|k: int| 0 <= k < s.len() ==> #[trigger] s[k] != ':',
        find(s, "["@) is None,
        find(s, "#"@) is None,
        !starts_with(s, "#"@),
        strip_prefix(s, "text="@) is None,
        strip_prefix(s, "text~="@) is None,
        s.len() > role.len(),
        s[role.len() as int] == '.',
{
    let dots = dotted(names);
    let p = role.len() as int;
    lemma_dotted_chars(names);
    reveal_strlit("#");
    reveal_strlit("text=");
    reveal_strlit("text~=");
    reveal_strlit("[");
    assert forall|k: int| 0 <= k < s.len() implies #[trigger] s[k] != ':' && s[k] != '#' && s[k]
        != '=' && s[k] != '[' by {
        if k < p {
            assert(s[k] == role[k]);
            assert(ascii_alphanumeric(role[k]));
        } else {
            assert(s[k] == dots[k - p]);
            assert(name_char(dots[k - p]) || dots[k - p] == '.');
        }
    }
    lemma_missing_char(s, "#"@, 0);
    lemma_missing_char(s, "text="@, 4);
    lemma_missing_char(s, "text~="@, 5);
    lemma_missing_char(s, "["@, 0);
    assert(s[p] == dots[0]);
}

/// What stands before the classes is the role.
#[verifier::rlimit(50)]
pub proof fn lemma_class_selector_role(role: Seq<char>, names: Seq<Seq<char>>, s: Seq<char>)
    requires
        role.len() > 0 ==> simple_role(role),
        s.len() > role.len(),
        s.take(role.len() as int) == role,
        s[role.len() as int] == '.',
        s == role + dotted(names),
    ensures
        contains(s, "."@),
        role_of_classes(s) == role,
{
    let p = role.len() as int;
    reveal_strlit(".");
    reveal_strlit(":not(");
    assert(s.subrange(p, p + 1) =~= "."@);
    assert(occurs_at(s, "."@, p));
    lemma_find(s, "."@);
    assert forall|j: int| 0 <= j < p implies !occurs_at(s, "."@, j) by {
        if occurs_at(s, "."@, j) {
            assert(s.subrange(j, j + 1)[0] == s[j]);
            assert(s.take(p)[j] == s[j]);
            assert(ascii_alphanumeric(role[j]));
        }
    }
    assert(find(s, "."@) == Some(p));
    assert(s.take(p) =~= role);
    assert(split(s, "."@)[0] == role);
    assert forall|k: int| 0 <= k < role.len() implies #[trigger] role[k] != ':' by {
        assert(ascii_alphanumeric(role[k]));
    }
    lemma_missing_char(role, ":not("@, 0);
    assert(split(role, ":not("@) =~= seq![role]);
}

/// `Role:nth(N)` asks for the role, and for so many siblings of exactly the role of
/// the element before it.
#[verifier::rlimit(50)]
pub proof fn lemma_nth_of_role(nodes: Seq<ElementData>, i: usize, role: Seq<char>, n: nat)
    requires
        simple_role(role),
        n <= usize::MAX,
    ensures
        selector_matches(nodes, i, role + ":nth("@ + decimal(n) + ")"@) <==> {
            &&& role_fits(nodes, i, role)
            &&& text_attr(nodes, i, "AXRole"@) matches Some(own) && (attr(nodes, i, "AXParent"@)
                matches Some(AttrValue::Element(p)) && exists|k: int|
                0 <= k < child_ids(nodes, p).len() && #[trigger] child_ids(nodes, p)[k] == i
                    && (forall|j: int| 0 <= j < k ==> child_ids(nodes, p)[j] != i)
                    && child_ids(nodes, p).take(k).filter(
                    |x: usize| text_attr(nodes, x, "AXRole"@) == Some(own),
                ).len() == n)
        },
{
    let s = nth_selector(role, n);
    let p = role.len() as int;
    let digits = decimal(n);
    lemma_decimal_reads_back(n);
    lemma_nth_selector_chars(role, n);
    lemma_nth_selector_read(role, n);
    reveal_strlit(":nth(");
    reveal_strlit(")");
    assert(s.subrange(p, p + 5)[1] == s[p + 1]);
    assert(s.subrange(p, p + 5)[4] == s[p + 4]);
    lemma_no_pseudo(s, p);
    let rest = digits + ")"@;
    assert(split_once(s, ":nth("@) == Some((role, rest)));
    assert(rest.subrange(digits.len() as int, rest.len() as int) =~= ")"@);
    assert(rest.take(digits.len() as int) =~= digits);
    assert(strip_suffix(rest, ")"@) == Some(digits));
    lemma_role_fits(nodes, i, role);
    assert(selector_matches(nodes, i, s) <==> has_role(nodes, i, role) && (sibling_number(nodes, i)
        matches Some((_, m)) && m == n));
    if let Some(own) = text_attr(nodes, i, "AXRole"@) {
        if let Some(AttrValue::Element(q)) = attr(nodes, i, "AXParent"@) {
            lemma_same_role_before(nodes, child_ids(nodes, q), i, own, n);
        }
    }
}

/// How many of the same role stand before an element.
#[verifier::rlimit(50)]
proof fn lemma_same_role_before(
    nodes: Seq<ElementData>,
    ids: Seq<usize>,
    i: usize,
    own: Seq<char>,
    n: nat,
)
    ensures
        same_role_before(nodes, ids, i, own) == Some(n) <==> exists|k: int|
            0 <= k < ids.len() && #[trigger] ids[k] == i && (forall|j: int|
                0 <= j < k ==> ids[j] != i) && ids.take(k).filter(
                |x: usize| text_attr(nodes, x, "AXRole"@) == Some(own),
            ).len() == n,
    decreases ids.len(),
{
    let pred = |x: usize| text_attr(nodes, x, "AXRole"@) == Some(own);
    reveal(Seq::filter);
    if ids.len() > 0 {
        let rest = ids.skip(1);
        if ids[0] == i {
            assert(ids.take(0).filter(pred).len() == 0);
            if n == 0 {
                assert(ids[0] == i);
            }
        } else {
            let one: nat = if pred(ids[0]) { 1 } else { 0 };
            assert forall|k: int| 0 <= k < rest.len() implies #[trigger] ids.take(k + 1).filter(
                pred,
            ).len() == rest.take(k).filter(pred).len() + one by {
                lemma_filter_first(ids.take(k + 1), pred);
                assert(ids.take(k + 1).skip(1) =~= rest.take(k));
            }
            if n >= one {
                lemma_same_role_before(nodes, rest, i, own, (n - one) as nat);
            }
            if same_role_before(nodes, ids, i, own) == Some(n) {
                assert(same_role_before(nodes, rest, i, own) == Some((n - one) as nat));
                let k = choose|k: int|
                    0 <= k < rest.len() && #[trigger] rest[k] == i && (forall|j: int|
                        0 <= j < k ==> rest[j] != i) && rest.take(k).filter(pred).len() == n - one;
                assert(ids[k + 1] == i);
                assert forall|j: int| 0 <= j < k + 1 implies ids[j] != i by {
                    if j > 0 {
                        assert(rest[j - 1] != i);
                    }
                }
                assert(ids.take(k + 1).filter(pred).len() == n);
            }
            if exists|k: int|
                0 <= k < ids.len() && #[trigger] ids[k] == i && (forall|j: int|
                    0 <= j < k ==> ids[j] != i) && ids.take(k).filter(pred).len() == n {
                let k = choose|k: int|
                    0 <= k < ids.len() && #[trigger] ids[k] == i && (forall|j: int|
                        0 <= j < k ==> ids[j] != i) && ids.take(k).filter(pred).len() == n;
                assert(ids.take((k - 1) + 1).filter(pred).len() == rest.take(k - 1).filter(
                    pred,
                ).len() + one);
                assert(rest[k - 1] == i);
                assert forall|j: int| 0 <= j < k - 1 implies rest[j] != i by {
                    assert(ids[j + 1] != i);
                }
            }
        }
    }
}

proof fn lemma_filter_first(s: Seq<usize>, pred: spec_fn(usize) -> bool)
    requires
        s.len() > 0,
    ensures
        s.filter(pred).len() == s.skip(1).filter(pred).len() + if pred(s[0]) {
            1nat
        } else {
            0nat
        },
{
    assert(s =~= seq![s[0]] + s.skip(1));
    Seq::filter_distributes_over_add(seq![s[0]], s.skip(1), pred);
    reveal(Seq::filter);
    let first = seq![s[0]];
    assert(first.drop_last() =~= Seq::empty());
    assert(first.drop_last().filter(pred).len() == 0);
    assert(first.last() == s[0]);
    assert(first.filter(pred).len() == if pred(s[0]) { 1nat } else { 0nat });
}

/// In a bracket, no other name stands for anything.
pub proof fn lemma_unknown_bracket(
    nodes: Seq<ElementData>,
    i: usize,
    role: Seq<char>,
    name: Seq<char>,
    op: AttrOp,
    v: Seq<char>,
)
    requires
        simple_role(role),
        simple_role(name),
        name != "title"@ && name != "name"@ && name != "desc"@ && name != "text"@,
        v.len() > 0 ==> v[0] != '"' && v.last() != '"',
    ensures
        !selector_matches(
            nodes,
            i,
            role + "["@ + (name + op_mark(op) + seq!['='] + (seq!['"'] + v + seq!['"'])) + "]"@,
        ),
{
    let inside = name + op_mark(op) + seq!['='] + (seq!['"'] + v + seq!['"']);
    let s = role + "["@ + inside + "]"@;
    lemma_bracket_read(name, op, v);
    lemma_bracket_selector_parts(role, inside, s);
    lemma_bracket_selector_start(role, s);
    lemma_bracket_end(s);
    assert(selector_matches(nodes, i, s) <==> has_role(nodes, i, role) && bracket_accepts(
        nodes,
        i,
        inside,
    ));
}

/// `text=/pattern/flags` asks for a value, a title or a description that the pattern
/// matches.
#[verifier::rlimit(50)]
pub proof fn lemma_pattern_selector(
    nodes: Seq<ElementData>,
    i: usize,
    pattern: Seq<char>,
    flags: Seq<char>,
)
    requires
        forall|k: int| 0 <= k < pattern.len() ==> #[trigger] pattern[k] != ':',
        forall|k: int| 0 <= k < flags.len() ==> #[trigger] flags[k] != '/' && flags[k] != ':',
    ensures
        ({
            let whole = if exists|k: int| 0 <= k < flags.len() && #[trigger] flags[k] == 'i' {
                "(?i)"@ + pattern
            } else {
                pattern
            };
            selector_matches(
                nodes,
                i,
                "text="@ + (seq!['/'] + pattern + seq!['/'] + flags),
            ) <==> {
                ||| text_attr(nodes, i, "AXValue"@) matches Some(v) && regex_outcome(whole, v)
                    == Some(true)
                ||| text_attr(nodes, i, "AXTitle"@) matches Some(v) && regex_outcome(whole, v)
                    == Some(true)
                ||| text_attr(nodes, i, "AXDescription"@) matches Some(v) && regex_outcome(whole, v)
                    == Some(true)
            }
        }),
{
    let t = seq!['/'] + pattern + seq!['/'] + flags;
    let s = "text="@ + t;
    reveal_strlit("text=");
    reveal_strlit("#");
    reveal_strlit("/");
    assert forall|k: int| 0 <= k < t.len() implies #[trigger] t[k] != ':' by {
        if 0 < k <= pattern.len() {
            assert(t[k] == pattern[k - 1]);
        } else if k > pattern.len() + 1 {
            assert(t[k] == flags[k - pattern.len() - 2]);
        }
    }
    assert forall|k: int| 0 <= k < s.len() implies #[trigger] s[k] != ':' by {
        if k >= 5 {
            assert(s[k] == t[k - 5]);
        }
    }
    lemma_no_colon(s);
    assert(s[0] == 't');
    if starts_with(s, "#"@) {
        assert(s.subrange(0, 1)[0] == s[0]);
    }
    assert(s.subrange(0, 5) =~= "text="@);
    assert(s.skip(5) =~= t);
    assert(t.subrange(0, 1) =~= "/"@);
    lemma_slashed_pattern(pattern, flags);
    let whole = slashed_pattern(t)->0;
    assert(selector_matches(nodes, i, s) <==> own_text_matched(nodes, i, whole));
    let texts = own_texts(nodes, i);
    if let Some(v) = text_attr(nodes, i, "AXValue"@) {
        assert(texts[0] == v);
    }
    if let Some(v) = text_attr(nodes, i, "AXDescription"@) {
        assert(texts[texts.len() - 1] == v);
    }
    if let Some(v) = text_attr(nodes, i, "AXTitle"@) {
        let n: int = if text_attr(nodes, i, "AXValue"@) is Some { 1 } else { 0 };
        assert(texts[n] == v);
    }
}

/// A selector with nothing in it asks for nothing, so that a pseudo-class can stand
/// alone.
pub proof fn lemma_empty_selector(nodes: Seq<ElementData>, i: usize)
    ensures
        selector_matches(nodes, i, Seq::empty()),
        selector_matches(nodes, i, ":visible"@) <==> attr(nodes, i, "AXSize"@) == Some(
            AttrValue::Size { width_positive: true, height_positive: true },
        ),
{
    lemma_no_colon(Seq::empty());
    lemma_visible_suffix(nodes, i, Seq::empty());
    assert(Seq::<char>::empty() + ":visible"@ =~= ":visible"@);
}

/// `.a.b:not(.c)` asks for the classes before `:not(` and against those in it, and
/// for the role where there is one.
pub proof fn lemma_not_class_selector(
    nodes: Seq<ElementData>,
    i: usize,
    role: Seq<char>,
    names: Seq<Seq<char>>,
    others: Seq<Seq<char>>,
)
    requires
        role.len() > 0 ==> simple_role(role),
        names.len() > 0,
        others.len() > 0,
        simple_classes(names),
        simple_classes(others),
    ensures
        selector_matches(
            nodes,
            i,
            role + (dotted(names) + ":not("@ + dotted(others) + ")"@),
        ) <==> {
            let classes = list_attr(nodes, i, "AXDOMClassList"@);
            &&& role.len() > 0 ==> role_fits(nodes, i, role)
            &&& forall|k: int| 0 <= k < names.len() ==> classes.contains(#[trigger] names[k])
            &&& forall|k: int| 0 <= k < others.len() ==> !classes.contains(#[trigger] others[k])
        },
{
    let rest = dotted(names) + ":not("@ + dotted(others) + ")"@;
    let s = role + rest;
    let p = role.len() as int;
    lemma_not_class_read(role, names, others, s);
    lemma_not_class_pseudo(role, names, others, s);
    lemma_not_class_role(role, names, others, s);
    lemma_role_fits(nodes, i, role);
    assert(s.skip(p) =~= rest);
    lemma_not_selector(names, others, list_attr(nodes, i, "AXDOMClassList"@));
    assert(base_matches(nodes, i, s) <==> classes_accept(nodes, i, s));
}

#[verifier::rlimit(50)]
proof fn lemma_not_class_read(
    role: Seq<char>,
    names: Seq<Seq<char>>,
    others: Seq<Seq<char>>,
    s: Seq<char>,
)
    requires
        role.len() > 0 ==> simple_role(role),
        names.len() > 0,
        simple_classes(names),
        simple_classes(others),
        s == role + (dotted(names) + ":not("@ + dotted(others) + ")"@),
    ensures
        find(s, "["@) is None,
        find(s, "#"@) is None,
        !starts_with(s, "#"@),
        strip_prefix(s, "text="@) is None,
        strip_prefix(s, "text~="@) is None,
        s[role.len() as int] == '.',
        s.last() == ')',
        forall|k: int| 0 <= k < s.len() && #[trigger] s[k] == ':' ==> k + 1 < s.len() && s[k + 1]
            == 'n' && k + 4 < s.len() && s[k + 4] == '(',
{
    let a = dotted(names);
    let b = dotted(others);
    let p = role.len() as int;
    let n = p + a.len();
    lemma_dotted_chars(names);
    lemma_dotted_chars(others);
    reveal_strlit("#");
    reveal_strlit("[");
    reveal_strlit("text=");
    reveal_strlit("text~=");
    reveal_strlit(":not(");
    reveal_strlit(")");
    assert(s[p] == a[0]);
    assert forall|k: int| 0 <= k < s.len() implies #[trigger] s[k] != '#' && s[k] != '[' && s[k]
        != '=' && (s[k] == ':' ==> k == n) by {
        if k < p {
            assert(s[k] == role[k]);
            assert(ascii_alphanumeric(role[k]));
        } else if k < n {
            assert(s[k] == a[k - p]);
            assert(name_char(a[k - p]) || a[k - p] == '.');
        } else if k < n + 5 {
            assert(s[k] == ":not("@[k - n]);
        } else if k < n + 5 + b.len() {
            assert(s[k] == b[k - n - 5]);
            assert(name_char(b[k - n - 5]) || b[k - n - 5] == '.');
        }
    }
    assert(s[n + 1] == ":not("@[1] && s[n + 4] == ":not("@[4]);
    lemma_missing_char(s, "#"@, 0);
    lemma_missing_char(s, "["@, 0);
    lemma_missing_char(s, "text="@, 4);
    lemma_missing_char(s, "text~="@, 5);
}

#[verifier::rlimit(50)]
proof fn lemma_not_class_pseudo(
    role: Seq<char>,
    names: Seq<Seq<char>>,
    others: Seq<Seq<char>>,
    s: Seq<char>,
)
    requires
        s.len() > 0,
        s.last() == ')',
        forall|k: int| 0 <= k < s.len() && #[trigger] s[k] == ':' ==> k + 1 < s.len() && s[k + 1]
            == 'n' && k + 4 < s.len() && s[k + 4] == '(',
    ensures
        parse_pseudo(s) == no_pseudo(s),
{
    reveal_strlit(":visible");
    reveal_strlit(":nth-child(");
    reveal_strlit(":has-text(");
    reveal_strlit(":has(");
    assert forall|k: int| 0 <= k < s.len() implies (#[trigger] call_at(s, k)) is None by {
        if let Some(kind) = call_at(s, k) {
            lemma_call_at(s, kind, k);
            assert(s.subrange(k, k + call_start(kind).len())[1] == s[k + 1]);
            assert(s.subrange(k, k + call_start(kind).len())[4] == s[k + 4]);
        }
    }
    lemma_no_call_without_start(s);
    if ends_with(s, ":visible"@) {
        assert(s.subrange(s.len() - 8, s.len() as int)[7] == s.last());
    }
}

#[verifier::rlimit(50)]
proof fn lemma_not_class_role(
    role: Seq<char>,
    names: Seq<Seq<char>>,
    others: Seq<Seq<char>>,
    s: Seq<char>,
)
    requires
        role.len() > 0 ==> simple_role(role),
        s == role + (dotted(names) + ":not("@ + dotted(others) + ")"@),
        role.len() < s.len(),
        s[role.len() as int] == '.',
    ensures
        contains(s, "."@),
        role_of_classes(s) == role,
{
    let p = role.len() as int;
    reveal_strlit(".");
    reveal_strlit(":not(");
    assert(s.take(p) =~= role);
    assert(s.subrange(p, p + 1) =~= "."@);
    assert(occurs_at(s, "."@, p));
    lemma_find(s, "."@);
    assert forall|j: int| 0 <= j < p implies !occurs_at(s, "."@, j) by {
        if occurs_at(s, "."@, j) {
            assert(s.subrange(j, j + 1)[0] == s[j]);
            assert(s.take(p)[j] == s[j]);
            assert(ascii_alphanumeric(role[j]));
        }
    }
    assert(find(s, "."@) == Some(p));
    assert(split(s, "."@)[0] == role);
    assert forall|k: int| 0 <= k < role.len() implies #[trigger] role[k] != ':' by {
        assert(ascii_alphanumeric(role[k]));
    }
    lemma_missing_char(role, ":not("@, 0);
    assert(split(role, ":not("@) =~= seq![role]);
}

/// Apostrophes around the text of `:has-text(..)` do not count either.
pub proof fn lemma_apostrophes(nodes: Seq<ElementData>, i: usize, s: Seq<char>, x: Seq<char>)
    requires
        bare(x),
        call_stands(s, PseudoCall::HasText, seq!['\''] + x + seq!['\'']),
        call_stands(s, PseudoCall::HasText, x),
        parse_pseudo(s).has_text is None,
    ensures
        parse_pseudo(s + ":has-text("@ + (seq!['\''] + x + seq!['\'']) + ")"@).has_text == Some(x),
        parse_pseudo(s + ":has-text("@ + x + ")"@).has_text == Some(x),
{
    let t = seq!['\''] + x + seq!['\''];
    lemma_call_taken_off(s, PseudoCall::HasText, t);
    lemma_call_taken_off(s, PseudoCall::HasText, x);
    lemma_trim_marks(x, '"');
    lemma_trim_marks(x, '\'');
    let drop = text::only('"');
    assert(!drop(t[0]) && !drop(t.last()));
    assert(trim_start_by(t, drop) == t);
    assert(trim_end_by(t, drop) == t);
    assert(trim_char(t, '"') == t);
}

/// A `:nth-child(..)` without a number is part of what the last `:has-text(` before
/// it, or else the last `:has(`, reaches over.
pub proof fn lemma_number_missing(s: Seq<char>, c: Call, i: int)
    requires
        last_call(s) == Some(c),
        c.kind is NthChild,
        child_number(c.inner) is None,
    ensures
        occurs_at(s, ":has-text("@, i) && (forall|j: int|
            j > i ==> !(#[trigger] occurs_at(s, ":has-text("@, j))) ==> parse_pseudo(s).base
            == parse_pseudo(s.take(i)).base && parse_pseudo(s).nth_child == parse_pseudo(
            s.take(i),
        ).nth_child && parse_pseudo(s).has_text is Some,
        !contains(s, ":has-text("@) && occurs_at(s, ":has("@, i) && (forall|j: int|
            j > i ==> !(#[trigger] occurs_at(s, ":has("@, j))) ==> parse_pseudo(s).base
            == parse_pseudo(s.take(i)).base && parse_pseudo(s).nth_child == parse_pseudo(
            s.take(i),
        ).nth_child && parse_pseudo(s).has_selector is Some,
        !contains(s, ":has-text("@) && !contains(s, ":has("@) ==> parse_pseudo(s) == no_pseudo(s),
{
    reveal_strlit(":visible");
    if ends_with(s, ":visible"@) {
        assert(s.subrange(s.len() - 8, s.len() as int)[7] == s.last());
    }
    lemma_rfind(s, ":has-text("@);
    lemma_rfind(s, ":has("@);
    if occurs_at(s, ":has-text("@, i) {
        assert(contains(s, ":has-text("@));
    }
    if occurs_at(s, ":has("@, i) {
        assert(contains(s, ":has("@));
    }
}

/// A bracket without a role asks for an element without one.
#[verifier::rlimit(50)]
pub proof fn lemma_bare_bracket(nodes: Seq<ElementData>, i: usize, inside: Seq<char>)
    ensures
        selector_matches(nodes, i, "["@ + inside + "]"@) ==> role_fits(nodes, i, Seq::empty()),
{
    let s = "["@ + inside + "]"@;
    reveal_strlit("[");
    reveal_strlit("]");
    reveal_strlit("#");
    reveal_strlit("text=");
    reveal_strlit("text~=");
    assert(s[0] == '[' && s.last() == ']');
    lemma_bracket_end(s);
    assert(s.subrange(0, 1) =~= "["@);
    assert(occurs_at(s, "["@, 0));
    lemma_find(s, "["@);
    assert(find(s, "["@) == Some(0int));
    assert(s.take(0) =~= Seq::empty());
    if starts_with(s, "#"@) {
        assert(s.subrange(0, 1)[0] == s[0]);
    }
    if starts_with(s, "text="@) {
        assert(s.subrange(0, 5)[0] == s[0]);
    }
    if starts_with(s, "text~="@) {
        assert(s.subrange(0, 6)[0] == s[0]);
    }
    lemma_role_fits(nodes, i, Seq::empty());
}

/// `text=/` without a second slash asks for what is not there.
#[verifier::rlimit(50)]
pub proof fn lemma_open_pattern(nodes: Seq<ElementData>, i: usize, x: Seq<char>)
    requires
        forall|k: int| 0 <= k < x.len() ==> #[trigger] x[k] != '/' && x[k] != ':',
    ensures
        !selector_matches(nodes, i, "text="@ + (seq!['/'] + x)),
{
    let t = seq!['/'] + x;
    let s = "text="@ + t;
    reveal_strlit("text=");
    reveal_strlit("#");
    reveal_strlit("/");
    assert forall|k: int| 0 <= k < s.len() implies #[trigger] s[k] != ':' by {
        if k >= 6 {
            assert(s[k] == x[k - 6]);
        }
    }
    lemma_no_colon(s);
    assert(s[0] == 't');
    if starts_with(s, "#"@) {
        assert(s.subrange(0, 1)[0] == s[0]);
    }
    assert(s.subrange(0, 5) =~= "text="@);
    assert(s.skip(5) =~= t);
    assert(t.subrange(0, 1) =~= "/"@);
    lemma_slashed_pattern(Seq::empty(), x);
}

/// `Role:not(.c)` asks for the role and against the classes.
pub proof fn lemma_role_not_class(
    nodes: Seq<ElementData>,
    i: usize,
    role: Seq<char>,
    others: Seq<Seq<char>>,
)
    requires
        simple_role(role),
        others.len() > 0,
        simple_classes(others),
    ensures
        selector_matches(nodes, i, role + (":not("@ + dotted(others) + ")"@)) <==> role_fits(
            nodes,
            i,
            role,
        ) && forall|k: int|
            0 <= k < others.len() ==> !list_attr(nodes, i, "AXDOMClassList"@).contains(
                #[trigger] others[k],
            ),
{
    let none = Seq::<Seq<char>>::empty();
    let rest = ":not("@ + dotted(others) + ")"@;
    let s = role + rest;
    let p = role.len() as int;
    assert(dotted(none) =~= Seq::empty());
    assert(dotted(none) + ":not("@ + dotted(others) + ")"@ =~= rest);
    lemma_role_not_read(role, others, s);
    lemma_not_class_pseudo(role, none, others, s);
    lemma_role_not_role(role, others, s);
    lemma_role_fits(nodes, i, role);
    assert(s.skip(p) =~= rest);
    lemma_not_selector(none, others, list_attr(nodes, i, "AXDOMClassList"@));
    assert(base_matches(nodes, i, s) <==> classes_accept(nodes, i, s));
}

#[verifier::rlimit(50)]
proof fn lemma_role_not_read(role: Seq<char>, others: Seq<Seq<char>>, s: Seq<char>)
    requires
        simple_role(role),
        simple_classes(others),
        s == role + (":not("@ + dotted(others) + ")"@),
    ensures
        find(s, "["@) is None,
        find(s, "#"@) is None,
        !starts_with(s, "#"@),
        strip_prefix(s, "text="@) is None,
        strip_prefix(s, "text~="@) is None,
        s.len() == role.len() + dotted(others).len() + 6,
        s.last() == ')',
        forall|k: int| 0 <= k < s.len() && #[trigger] s[k] == ':' ==> k + 1 < s.len() && s[k + 1]
            == 'n' && k + 4 < s.len() && s[k + 4] == '(',
{
    let b = dotted(others);
    let n = role.len() as int;
    lemma_dotted_chars(others);
    reveal_strlit("#");
    reveal_strlit("[");
    reveal_strlit("text=");
    reveal_strlit("text~=");
    reveal_strlit(":not(");
    reveal_strlit(")");
    assert forall|k: int| 0 <= k < s.len() implies #[trigger] s[k] != '#' && s[k] != '[' && s[k]
        != '=' && (s[k] == ':' ==> k == n) by {
        if k < n {
            assert(s[k] == role[k]);
            assert(ascii_alphanumeric(role[k]));
        } else if k < n + 5 {
            assert(s[k] == ":not("@[k - n]);
        } else if k < n + 5 + b.len() {
            assert(s[k] == b[k - n - 5]);
            assert(name_char(b[k - n - 5]) || b[k - n - 5] == '.');
        }
    }
    assert(s[n + 1] == ":not("@[1] && s[n + 4] == ":not("@[4]);
    lemma_missing_char(s, "#"@, 0);
    lemma_missing_char(s, "["@, 0);
    lemma_missing_char(s, "text="@, 4);
    lemma_missing_char(s, "text~="@, 5);
}

proof fn lemma_role_not_role(role: Seq<char>, others: Seq<Seq<char>>, s: Seq<char>)
    requires
        simple_role(role),
        others.len() > 0,
        simple_classes(others),
        s == role + (":not("@ + dotted(others) + ")"@),
    ensures
        contains(s, "."@),
        role_of_classes(s) == role,
{
    let tail = dotted(others) + ")"@;
    lemma_dotted_chars(others);
    assert(tail[0] == dotted(others)[0]);
    assert(s =~= role + ":not("@ + tail);
    lemma_before_first_dot(role, tail, s);
    lemma_before_first_not(role);
}

#[verifier::rlimit(50)]
proof fn lemma_before_first_dot(role: Seq<char>, tail: Seq<char>, s: Seq<char>)
    requires
        simple_role(role),
        tail.len() > 0,
        tail[0] == '.',
        s == role + ":not("@ + tail,
    ensures
        contains(s, "."@),
        split(s, "."@)[0] == role + ":not("@,
{
    let head = role + ":not("@;
    let n = head.len() as int;
    reveal_strlit(".");
    reveal_strlit(":not(");
    assert forall|k: int| 0 <= k < n implies #[trigger] head[k] != '.' by {
        if k < role.len() {
            assert(head[k] == role[k]);
            assert(ascii_alphanumeric(role[k]));
        } else {
            assert(head[k] == ":not("@[k - role.len()]);
        }
    }
    lemma_first_dot(head, tail, s);
}

proof fn lemma_first_dot(head: Seq<char>, tail: Seq<char>, s: Seq<char>)
    requires
        forall|k: int| 0 <= k < head.len() ==> #[trigger] head[k] != '.',
        tail.len() > 0,
        tail[0] == '.',
        s == head + tail,
    ensures
        contains(s, "."@),
        split(s, "."@)[0] == head,
{
    let n = head.len() as int;
    reveal_strlit(".");
    assert(s[n] == '.');
    assert(s.subrange(n, n + 1) =~= "."@);
    assert(occurs_at(s, "."@, n));
    lemma_find(s, "."@);
    assert forall|j: int| 0 <= j < n implies !occurs_at(s, "."@, j) by {
        if occurs_at(s, "."@, j) {
            assert(s.subrange(j, j + 1)[0] == s[j]);
            assert(s[j] == head[j]);
        }
    }
    assert(find(s, "."@) == Some(n));
    assert(s.take(n) =~= head);
}

proof fn lemma_before_first_not(role: Seq<char>)
    requires
        simple_role(role),
    ensures
        split(role + ":not("@, ":not("@)[0] == role,
{
    let head = role + ":not("@;
    let n = role.len() as int;
    reveal_strlit(":not(");
    assert(head.subrange(n, n + 5) =~= ":not("@);
    assert(occurs_at(head, ":not("@, n));
    lemma_find(head, ":not("@);
    assert forall|j: int| 0 <= j < n implies !occurs_at(head, ":not("@, j) by {
        if occurs_at(head, ":not("@, j) {
            assert(head.subrange(j, j + 5)[0] == head[j]);
            assert(head[j] == role[j]);
            assert(ascii_alphanumeric(role[j]));
        }
    }
    assert(find(head, ":not("@) == Some(n));
    assert(head.take(n) =~= role);
}

/// A quoted text that holds no double quote is closed also where it follows `=` or
/// begins the argument of a pseudo-class, and where a bracket, a parenthesis or a
/// pseudo-class follows it.
#[verifier::rlimit(50)]
pub proof fn lemma_closed_quotes(u: Seq<char>, x: Seq<char>, v: Seq<char>)
    requires
        no_marks(u),
        no_marks(v),
        forall|k: int| 0 <= k < x.len() ==> #[trigger] x[k] != '"',
    ensures
        ({
            let q = seq!['"'] + x + seq!['"'];
            &&& closed(u + seq!['='] + q)
            &&& closed(u + seq!['='] + q + (seq![']'] + v))
            &&& closed(u + seq!['='] + q + (seq![':'] + v))
            &&& closed(u + seq!['('] + q + seq![')'])
        }),
{
    let n = u.len() as int;
    let none = Seq::<char>::empty();
    let q = seq!['"'] + x + seq!['"'];
    lemma_quote_inside(u, '=', x, none);
    assert(u + seq!['='] + q + none =~= u + seq!['='] + q);
    let w1 = u + seq!['='] + q;
    assert(closed_from(w1, w1.len() as int, 0));
    let b = seq![']'] + v;
    lemma_quote_inside(u, '=', x, b);
    let w2 = u + seq!['='] + q + b;
    assert(w2.skip(w2.len() - b.len()) =~= b);
    lemma_tail_without_marks(w2, b);
    let c = seq![':'] + v;
    lemma_quote_inside(u, '=', x, c);
    let w3 = u + seq!['='] + q + c;
    assert(w3.skip(w3.len() - c.len()) =~= c);
    lemma_tail_without_marks(w3, c);
    let d = seq![')'];
    lemma_quote_inside(u, '(', x, d);
    let w4 = u + seq!['('] + q + d;
    assert(w4[w4.len() - 1] == ')');
    assert(closed_from(w4, w4.len() as int, 0));
    assert(closed_from(w4, w4.len() - 1, 1));
}

proof fn lemma_tail_without_marks(w: Seq<char>, b: Seq<char>)
    requires
        b.len() <= w.len(),
        no_marks(b),
        w.skip(w.len() - b.len()) == b,
    ensures
        closed_from(w, w.len() - b.len(), 0),
{
    let n = w.len() - b.len();
    assert forall|k: int| n <= k < w.len() implies #[trigger] w[k] != '(' && w[k] != ')' && w[k]
        != '"' && w[k] != '\'' by {
        assert(w.skip(n)[k - n] == w[k]);
        assert(b[k - n] == w[k]);
    }
    lemma_no_marks_from(w, n, w.len() as int, 0);
    assert(closed_from(w, w.len() as int, 0));
}

/// What a quoted text behind a mark leaves to be closed is what stands behind it.
proof fn lemma_quote_inside(u: Seq<char>, mark: char, x: Seq<char>, rest: Seq<char>)
    requires
        no_marks(u),
        mark == '=' || mark == '(',
        forall|k: int| 0 <= k < x.len() ==> #[trigger] x[k] != '"',
        rest.len() > 0 ==> rest[0] == ')' || rest[0] == ']' || rest[0] == ':',
    ensures
        ({
            let w = u + seq![mark] + (seq!['"'] + x + seq!['"']) + rest;
            closed(w) == closed_from(w, w.len() - rest.len(), if mark == '(' {
                1
            } else {
                0
            })
        }),
{
    let w = u + seq![mark] + (seq!['"'] + x + seq!['"']) + rest;
    let n = u.len() as int;
    let e = n + 2 + x.len();
    assert forall|k: int| 0 <= k < n implies #[trigger] w[k] == u[k] by {}
    lemma_no_marks_from(w, 0, n, 0);
    assert(w[n] == mark && w[n + 1] == '"' && w[e] == '"');
    assert(e + 1 == w.len() - rest.len());
    if rest.len() > 0 {
        assert(w[e + 1] == rest[0]);
    }
    assert forall|k: int| n + 2 <= k < e implies #[trigger] w[k] != '"' by {
        assert(w[k] == x[k - n - 2]);
    }
    lemma_end_of_inner_quote(w, n + 2, e);
    let d: nat = if mark == '(' { 1 } else { 0 };
    assert(closed_from(w, n, 0) == closed_from(w, n + 1, d));
    assert(closed_from(w, n + 1, d) == closed_from(w, e + 1, d));
}

proof fn lemma_end_of_inner_quote(w: Seq<char>, i: int, e: int)
    requires
        0 <= i <= e < w.len(),
        w[e] == '"',
        e + 1 == w.len() || w[e + 1] == ')' || w[e + 1] == ']' || w[e + 1] == ':',
        forall|k: int| i <= k < e ==> #[trigger] w[k] != '"',
    ensures
        quote_end(w, '"', i) == e,
    decreases e - i,
{
    if i < e {
        lemma_end_of_inner_quote(w, i + 1, e);
    }
}

/// Where no pseudo-class ends with the text as its parentheses stand, the last
/// `:has-text(` reaches to the end; or else the last `:has(`; or else the last
/// `:nth-child(`.
pub proof fn lemma_unmatched_parentheses(s: Seq<char>, i: int)
    requires
        s.len() > 0,
        s.last() == ')',
        forall|k: int| 0 <= k < s.len() ==> !(#[trigger] ends_call(s, k)),
    ensures
        occurs_at(s, ":has-text("@, i) && (forall|j: int|
            j > i ==> !(#[trigger] occurs_at(s, ":has-text("@, j))) ==> last_call(s) == Some(
            Call {
                kind: PseudoCall::HasText,
                before: s.take(i),
                inner: s.subrange(i + 10, s.len() - 1),
            },
        ),
        !contains(s, ":has-text("@) && occurs_at(s, ":has("@, i) && (forall|j: int|
            j > i ==> !(#[trigger] occurs_at(s, ":has("@, j))) ==> last_call(s) == Some(
            Call {
                kind: PseudoCall::Has,
                before: s.take(i),
                inner: s.subrange(i + 5, s.len() - 1),
            },
        ),
        !contains(s, ":has-text("@) && !contains(s, ":has("@) && occurs_at(s, ":nth-child("@, i)
            && (forall|j: int| j > i ==> !(#[trigger] occurs_at(s, ":nth-child("@, j)))
            ==> last_call(s) == Some(
            Call {
                kind: PseudoCall::NthChild,
                before: s.take(i),
                inner: s.subrange(i + 11, s.len() - 1),
            },
        ),
{
    reveal_strlit(":nth-child(");
    reveal_strlit(":has-text(");
    reveal_strlit(":has(");
    lemma_find_call(s, 0);
    lemma_rfind(s, ":has-text("@);
    lemma_rfind(s, ":has("@);
    lemma_rfind(s, ":nth-child("@);
    if occurs_at(s, ":has-text("@, i) {
        assert(contains(s, ":has-text("@));
    }
    if occurs_at(s, ":has("@, i) {
        assert(contains(s, ":has("@));
    }
    if occurs_at(s, ":nth-child("@, i) {
        assert(contains(s, ":nth-child("@));
    }
}

/// Where a pseudo-class is written twice, the one on the left counts.
pub proof fn lemma_leftmost_counts(s: Seq<char>, t: Seq<char>)
    requires
        call_stands(s, PseudoCall::HasText, t),
        call_stands(s, PseudoCall::Has, t),
    ensures
        parse_pseudo(s).has_text is Some ==> parse_pseudo(s + ":has-text("@ + t + ")"@)
            == parse_pseudo(s),
        parse_pseudo(s).has_selector is Some ==> parse_pseudo(s + ":has("@ + t + ")"@)
            == parse_pseudo(s),
{
    lemma_call_taken_off(s, PseudoCall::HasText, t);
    lemma_call_taken_off(s, PseudoCall::Has, t);
}

} // verus!

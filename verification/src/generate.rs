//! Generating a locator string for an element.

use vstd::prelude::*;
use crate::dom_selector::{
    dotted, dotted_classes, lemma_dotted_chars, lemma_dotted_selector, lemma_either_class,
    name_char, simple_classes,
};
use crate::number::{
    decimal, is_digit, lemma_decimal_reads_back, parse_unsigned, push_decimal, push_signed_decimal,
    signed_decimal,
};
use crate::resolve::{
    is_one_step, is_selection, lemma_one_step_locator, lemma_one_step_nth, lemma_two_step_locator,
    located, pick, resolve_locator_all, search, LOCATE_DEPTH,
};
use crate::selector::{
    base_matches, bracket, bracket_accepts, bracket_field, classes_accept, element_matches_selector,
    has_role, lemma_no_call_without_start, matched_by, matching_below,
    nth_accepts, nth_among_siblings, operator_at, parse_pseudo, role_of_classes, selector_matches,
    sibling_number, unquoted_equals, AttrOp, Bracket, Pseudo,
};
use crate::text;
use crate::text::{
    append2, append3, byte_len, contains, ends_with, find, lemma_find, lemma_missing_char,
    occurs_at, opt_text, spaces, split, starts_with, strip_prefix, strip_suffix, trim, trim_char,
    trim_end_by, trim_start_by, utf8_len, without_char, without_char_text,
};
use crate::tree::{
    attr_element, attr_string, attr_string_list, attr_string_or_empty, child_ids, children,
    descendants, first_of, is_same_element, lemma_descendants_contains, lemma_descendants_join,
    lemma_subtrees_filter_step, list_attr, lists, parent_id, subtrees, text_attr,
    text_attr_or_empty, Element, ElementData,
};
use crate::unicode::{ascii_alphanumeric, plain, quote, quoted};

verus! {

// ---------------------------------------------------------------------------
// Candidate tokens
// ---------------------------------------------------------------------------

/// A selector for an element, with a score that is lower the better it is.
pub struct Token {
    pub score: u32,
    pub selector: String,
}

/// A selector and its score.
pub ghost struct Tok {
    pub score: nat,
    pub sel: Seq<char>,
}

impl View for Token {
    type V = Tok;

    open spec fn view(&self) -> Tok {
        Tok { score: self.score as nat, sel: self.selector@ }
    }
}

/// The views of a list of tokens.
pub open spec fn token_views(v: Seq<Token>) -> Seq<Tok> {
    Seq::new(v.len(), |i: int| v[i]@)
}

/// The longest text, in bytes, that goes into a selector.
pub const MAX_TEXT_BYTES: usize = 80;

/// `text` is short enough for a selector, and not empty.
pub open spec fn usable(text: Seq<char>) -> bool {
    text.len() > 0 && utf8_len(text) <= MAX_TEXT_BYTES
}

/// The selector `role[name="text"]`.
pub open spec fn bracket_selector(role: Seq<char>, name: Seq<char>, text: Seq<char>) -> Seq<char> {
    role + "["@ + name + "="@ + quoted(text) + "]"@
}

/// The token for a text of an element, where there is one that can be used.
pub open spec fn bracket_token(
    score: nat,
    role: Seq<char>,
    name: Seq<char>,
    text: Option<Seq<char>>,
) -> Seq<Tok> {
    match text {
        Some(t) => if usable(t) {
            seq![Tok { score, sel: bracket_selector(role, name, t) }]
        } else {
            Seq::empty()
        },
        None => Seq::empty(),
    }
}

/// The value of element `i` without zero-width spaces.
pub open spec fn clean_value(nodes: Seq<ElementData>, i: usize) -> Option<Seq<char>> {
    match text_attr(nodes, i, "AXValue"@) {
        Some(v) => Some(without_char(v, '\u{200b}')),
        None => None,
    }
}

/// The selectors for element `i`, the best first: by its DOM identifier, by its
/// role with its title, its description, its value or its classes, and by its
/// role alone.
pub open spec fn tokens(nodes: Seq<ElementData>, i: usize) -> Seq<Tok> {
    let role = text_attr_or_empty(nodes, i, "AXRole"@);
    let id = text_attr_or_empty(nodes, i, "AXDOMIdentifier"@);
    let classes = list_attr(nodes, i, "AXDOMClassList"@);
    let by_id: Seq<Tok> = if id.len() > 0 {
        seq![Tok { score: 10, sel: "#"@ + id }]
    } else {
        Seq::empty()
    };
    let by_class: Seq<Tok> = if classes.len() > 0 {
        seq![Tok { score: 200, sel: role + dotted(classes) }]
    } else {
        Seq::empty()
    };
    let by_role: Seq<Tok> = if role.len() > 0 {
        seq![Tok { score: 510, sel: role }]
    } else {
        Seq::empty()
    };
    by_id + bracket_token(100, role, "title"@, text_attr(nodes, i, "AXTitle"@)) + bracket_token(
        120,
        role,
        "desc"@,
        text_attr(nodes, i, "AXDescription"@),
    ) + bracket_token(140, role, "text"@, clean_value(nodes, i)) + by_class + by_role
}

fn push_token(out: &mut Vec<Token>, score: u32, selector: String)
    ensures
        token_views(final(out)@) == token_views(old(out)@) + seq![
            Tok { score: score as nat, sel: selector@ },
        ],
{
    let ghost before = out@;
    out.push(Token { score, selector });
    assert(token_views(out@) =~= token_views(before) + seq![
        Tok { score: score as nat, sel: selector@ },
    ]);
}

fn push_bracket_token(
    out: &mut Vec<Token>,
    score: u32,
    role: &str,
    name: &str,
    text: Option<String>,
)
    ensures
        token_views(final(out)@) == token_views(old(out)@) + bracket_token(
            score as nat,
            role@,
            name@,
            opt_text(text),
        ),
{
    if let Some(t) = text {
        if !t.as_str().is_empty() && byte_len(t.as_str()) <= MAX_TEXT_BYTES {
            let mut selector = append3(role, "[", name);
            selector.append("=");
            selector.append(quote(t.as_str()).as_str());
            selector.append("]");
            push_token(out, score, selector);
            return;
        }
    }
    assert(token_views(out@) + Seq::<Tok>::empty() =~= token_views(out@));
}

/// The selectors for an element, the best first.
pub fn candidate_tokens(el: Element<'_>) -> (r: Vec<Token>)
    ensures
        token_views(r@) == tokens(el.nodes(), el.index()),
        forall|j: int, k: int|
            0 <= j <= k < r@.len() ==> (#[trigger] r@[j]).score <= (#[trigger] r@[k]).score,
        forall|j: int| 0 <= j < r@.len() ==> (#[trigger] r@[j]).score <= 510,
{
    let mut out: Vec<Token> = Vec::new();
    let id = attr_string_or_empty(el, "AXDOMIdentifier");
    if !id.as_str().is_empty() {
        push_token(&mut out, 10, append2("#", id.as_str()));
    }
    let role = attr_string_or_empty(el, "AXRole");
    push_bracket_token(&mut out, 100, role.as_str(), "title", attr_string(el, "AXTitle"));
    push_bracket_token(&mut out, 120, role.as_str(), "desc", attr_string(el, "AXDescription"));
    let value = match attr_string(el, "AXValue") {
        Some(v) => Some(without_char_text(v.as_str(), '\u{200b}')),
        None => None,
    };
    push_bracket_token(&mut out, 140, role.as_str(), "text", value);
    let classes = attr_string_list(el, "AXDOMClassList");
    if classes.len() > 0 {
        let dots = dotted_classes(&classes);
        push_token(&mut out, 200, append2(role.as_str(), dots.as_str()));
    }
    if !role.as_str().is_empty() {
        push_token(&mut out, 510, role);
    }
    assert(token_views(out@) =~= tokens(el.nodes(), el.index()));
    proof {
        let all = tokens(el.nodes(), el.index());
        assert forall|j: int| 0 <= j < out@.len() implies (#[trigger] out@[j]).score
            == all[j].score by {
            assert(token_views(out@)[j] == all[j]);
        }
    }
    out
}

// ---------------------------------------------------------------------------
// Uniqueness
// ---------------------------------------------------------------------------

/// There is something in `ids`, and it is nothing but `target`.
pub open spec fn only(ids: Seq<usize>, target: usize) -> bool {
    ids.contains(target) && !has_other(ids, target)
}

/// There is something other than `target` in `ids`.
pub open spec fn has_other(ids: Seq<usize>, target: usize) -> bool {
    exists|k: int| 0 <= k < ids.len() && #[trigger] ids[k] != target
}

/// The flags tell of `seen` whether something other than `target` is there, and,
/// where nothing is, whether `target` is.
spec fn flags_tell(found_target: bool, found_other: bool, seen: Seq<usize>, target: usize) -> bool {
    &&& found_other == has_other(seen, target)
    &&& !found_other ==> found_target == seen.contains(target)
}

proof fn lemma_has_other_add(a: Seq<usize>, b: Seq<usize>, target: usize)
    ensures
        has_other(a + b, target) == (has_other(a, target) || has_other(b, target)),
        (a + b).contains(target) == (a.contains(target) || b.contains(target)),
{
    let c = a + b;
    if has_other(a, target) {
        let k = choose|k: int| 0 <= k < a.len() && #[trigger] a[k] != target;
        assert(c[k] != target);
    }
    if has_other(b, target) {
        let k = choose|k: int| 0 <= k < b.len() && #[trigger] b[k] != target;
        assert(c[a.len() + k] != target);
    }
    if has_other(c, target) {
        let k = choose|k: int| 0 <= k < c.len() && #[trigger] c[k] != target;
        if k < a.len() {
            assert(a[k] != target);
        } else {
            assert(b[k - a.len()] != target);
        }
    }
    if a.contains(target) {
        let k = choose|k: int| 0 <= k < a.len() && a[k] == target;
        assert(c[k] == target);
    }
    if b.contains(target) {
        let k = choose|k: int| 0 <= k < b.len() && b[k] == target;
        assert(c[a.len() + k] == target);
    }
    if c.contains(target) {
        let k = choose|k: int| 0 <= k < c.len() && c[k] == target;
        if k < a.len() {
            assert(a[k] == target);
        } else {
            assert(b[k - a.len()] == target);
        }
    }
}

/// What a count of matches tells.
#[derive(Debug, Clone, Copy, PartialEq, Eq, Structural)]
pub enum MatchResult {
    /// The target matches, and nothing else does.
    Unique,
    /// Nothing matches, or something other than the target does.
    NotUnique,
}

/// Whether `selector` matches `target`, and nothing else, up to `max_depth`
/// levels below `root`.
pub fn count_matches(
    root: Element<'_>,
    selector: &str,
    target: Element<'_>,
    max_depth: usize,
) -> (r: MatchResult)
    ensures
        r is Unique <==> only(
            matching_below(root.nodes(), root.index(), selector@, max_depth as nat),
            target.index(),
        ),
{
    let mut found_target = false;
    let mut found_other = false;
    let ghost all = matching_below(root.nodes(), root.index(), selector@, max_depth as nat);
    count_matches_inner(
        root,
        selector,
        target,
        max_depth,
        &mut found_target,
        &mut found_other,
        Ghost(Seq::empty()),
    );
    assert(Seq::<usize>::empty() + all =~= all);
    if found_target && !found_other {
        MatchResult::Unique
    } else {
        MatchResult::NotUnique
    }
}

fn count_matches_inner(
    root: Element<'_>,
    selector: &str,
    target: Element<'_>,
    depth: usize,
    found_target: &mut bool,
    found_other: &mut bool,
    Ghost(seen): Ghost<Seq<usize>>,
)
    requires
        flags_tell(*old(found_target), *old(found_other), seen, target.index()),
    ensures
        flags_tell(
            *final(found_target),
            *final(found_other),
            seen + matching_below(root.nodes(), root.index(), selector@, depth as nat),
            target.index(),
        ),
    decreases depth,
{
    let ghost nodes = root.nodes();
    let ghost pred = matched_by(nodes, selector@);
    let ghost t = target.index();
    let ghost all = matching_below(nodes, root.index(), selector@, depth as nat);
    proof {
        reveal(Seq::filter);
        lemma_has_other_add(seen, all, t);
    }
    if depth == 0 {
        assert(seen + all =~= seen);
        return;
    }
    if *found_other {
        return;
    }
    let ghost ids = child_ids(nodes, root.index());
    let kids = children(root);
    assert(seen + subtrees(nodes, ids.take(0), depth as nat).filter(pred) =~= seen);
    for k in 0..kids.len()
        invariant
            depth > 0,
            t == target.index(),
            nodes == root.nodes(),
            ids == child_ids(nodes, root.index()),
            lists(kids@, nodes, ids),
            pred == matched_by(nodes, selector@),
            all == matching_below(nodes, root.index(), selector@, depth as nat),
            has_other(seen + all, t) == (has_other(seen, t) || has_other(all, t)),
            flags_tell(
                *found_target,
                *found_other,
                seen + subtrees(nodes, ids.take(k as int), depth as nat).filter(pred),
                t,
            ),
    {
        let ghost done = subtrees(nodes, ids.take(k as int), depth as nat).filter(pred);
        let ghost front = seen + done;
        let ghost own = if pred(ids[k as int]) {
            seq![ids[k as int]]
        } else {
            Seq::empty()
        };
        let ghost below = matching_below(nodes, ids[k as int], selector@, (depth - 1) as nat);
        let ghost next = subtrees(nodes, ids.take(k + 1), depth as nat).filter(pred);
        proof {
            lemma_subtrees_filter_step(nodes, ids, depth as nat, k as int, pred);
            assert(front + own + below =~= seen + next);
            lemma_has_other_add(front, own, t);
            lemma_has_other_add(seen, next, t);
            lemma_has_other_add(front + own, below, t);
            lemma_other_stays(nodes, ids, depth as nat, k as int, pred, seen, t);
            lemma_other_stays(nodes, ids, depth as nat, k + 1, pred, seen, t);
        }
        if *found_other {
            return;
        }
        let kid = kids[k];
        if element_matches_selector(kid, selector) {
            assert(own[0] == ids[k as int]);
            if is_same_element(kid, target) {
                *found_target = true;
            } else {
                *found_other = true;
                assert(has_other(own, t));
                return;
            }
        }
        assert(flags_tell(*found_target, *found_other, front + own, t));
        count_matches_inner(
            kid,
            selector,
            target,
            depth - 1,
            found_target,
            found_other,
            Ghost(front + own),
        );
    }
    assert(ids.take(kids@.len() as int) =~= ids);
}

/// Something else among what the first subtrees hold is there among what all
/// hold.
proof fn lemma_other_stays(
    nodes: Seq<ElementData>,
    ids: Seq<usize>,
    depth: nat,
    k: int,
    pred: spec_fn(usize) -> bool,
    seen: Seq<usize>,
    target: usize,
)
    requires
        0 <= k <= ids.len(),
        depth > 0,
    ensures
        has_other(seen + subtrees(nodes, ids.take(k), depth).filter(pred), target) ==> has_other(
            seen + subtrees(nodes, ids, depth).filter(pred),
            target,
        ),
{
    crate::query::lemma_found_prefix(nodes, ids, depth, k, pred);
    let part = subtrees(nodes, ids.take(k), depth).filter(pred);
    let all = subtrees(nodes, ids, depth).filter(pred);
    assert(seen + all =~= (seen + part) + all.skip(part.len() as int));
    lemma_has_other_add(seen + part, all.skip(part.len() as int), target);
}

// ---------------------------------------------------------------------------
// Chains of two selectors
// ---------------------------------------------------------------------------

/// What matches `inner` below the elements that match `outer`, which are looked
/// for up to `depth` levels below element `i`, and not again below one that was
/// found.
pub open spec fn chain_matches(
    nodes: Seq<ElementData>,
    i: usize,
    outer: Seq<char>,
    inner: Seq<char>,
    depth: nat,
) -> Seq<usize>
    decreases depth, child_ids(nodes, i).len() + 1,
{
    if depth == 0 {
        Seq::empty()
    } else {
        chain_subtrees(nodes, child_ids(nodes, i), outer, inner, depth)
    }
}

/// What `chain_matches` finds at the elements `ids` and below them.
pub open spec fn chain_subtrees(
    nodes: Seq<ElementData>,
    ids: Seq<usize>,
    outer: Seq<char>,
    inner: Seq<char>,
    depth: nat,
) -> Seq<usize>
    decreases depth, ids.len(),
{
    if depth == 0 || ids.len() == 0 {
        Seq::empty()
    } else {
        chain_subtrees(nodes, ids.drop_last(), outer, inner, depth) + if selector_matches(
            nodes,
            ids.last(),
            outer,
        ) {
            matching_below(nodes, ids.last(), inner, LOCATE_DEPTH as nat)
        } else {
            chain_matches(nodes, ids.last(), outer, inner, (depth - 1) as nat)
        }
    }
}

proof fn lemma_chain_prefix(
    nodes: Seq<ElementData>,
    ids: Seq<usize>,
    outer: Seq<char>,
    inner: Seq<char>,
    depth: nat,
    k: int,
)
    requires
        0 <= k <= ids.len(),
        depth > 0,
    ensures
        chain_subtrees(nodes, ids.take(k), outer, inner, depth).is_prefix_of(
            chain_subtrees(nodes, ids, outer, inner, depth),
        ),
    decreases ids.len() - k,
{
    if k == ids.len() {
        assert(ids.take(k) =~= ids);
    } else {
        lemma_chain_prefix(nodes, ids, outer, inner, depth, k + 1);
        assert(ids.take(k + 1).drop_last() =~= ids.take(k));
    }
}

/// Whether `ancestor_sel >> target_sel` leads to `target` and to nothing else.
pub fn chain_is_unique(
    root: Element<'_>,
    ancestor_sel: &str,
    target_sel: &str,
    target: Element<'_>,
) -> (r: bool)
    ensures
        r == only(
            chain_matches(
                root.nodes(),
                root.index(),
                ancestor_sel@,
                target_sel@,
                LOCATE_DEPTH as nat,
            ),
            target.index(),
        ),
{
    let mut found_target = false;
    let mut found_other = false;
    let ghost all = chain_matches(
        root.nodes(),
        root.index(),
        ancestor_sel@,
        target_sel@,
        LOCATE_DEPTH as nat,
    );
    chain_check_inner(
        root,
        ancestor_sel,
        target_sel,
        target,
        LOCATE_DEPTH,
        &mut found_target,
        &mut found_other,
        Ghost(Seq::empty()),
    );
    assert(Seq::<usize>::empty() + all =~= all);
    found_target && !found_other
}

fn chain_check_inner(
    root: Element<'_>,
    ancestor_sel: &str,
    target_sel: &str,
    target: Element<'_>,
    depth: usize,
    found_target: &mut bool,
    found_other: &mut bool,
    Ghost(seen): Ghost<Seq<usize>>,
)
    requires
        flags_tell(*old(found_target), *old(found_other), seen, target.index()),
    ensures
        flags_tell(
            *final(found_target),
            *final(found_other),
            seen + chain_matches(
                root.nodes(),
                root.index(),
                ancestor_sel@,
                target_sel@,
                depth as nat,
            ),
            target.index(),
        ),
    decreases depth,
{
    let ghost nodes = root.nodes();
    let ghost t = target.index();
    let ghost a = ancestor_sel@;
    let ghost b = target_sel@;
    let ghost all = chain_matches(nodes, root.index(), a, b, depth as nat);
    proof {
        lemma_has_other_add(seen, all, t);
    }
    if depth == 0 {
        assert(seen + all =~= seen);
        return;
    }
    if *found_other {
        return;
    }
    let ghost ids = child_ids(nodes, root.index());
    let kids = children(root);
    assert(seen + chain_subtrees(nodes, ids.take(0), a, b, depth as nat) =~= seen);
    for k in 0..kids.len()
        invariant
            depth > 0,
            t == target.index(),
            a == ancestor_sel@,
            b == target_sel@,
            nodes == root.nodes(),
            ids == child_ids(nodes, root.index()),
            lists(kids@, nodes, ids),
            all == chain_matches(nodes, root.index(), a, b, depth as nat),
            flags_tell(
                *found_target,
                *found_other,
                seen + chain_subtrees(nodes, ids.take(k as int), a, b, depth as nat),
                t,
            ),
    {
        let ghost done = chain_subtrees(nodes, ids.take(k as int), a, b, depth as nat);
        let ghost next = chain_subtrees(nodes, ids.take(k + 1), a, b, depth as nat);
        let ghost own = if selector_matches(nodes, ids[k as int], a) {
            matching_below(nodes, ids[k as int], b, LOCATE_DEPTH as nat)
        } else {
            chain_matches(nodes, ids[k as int], a, b, (depth - 1) as nat)
        };
        proof {
            assert(ids.take(k + 1).drop_last() =~= ids.take(k as int));
            assert(seen + next =~= seen + done + own);
            lemma_chain_prefix(nodes, ids, a, b, depth as nat, k as int);
            let rest = all.skip(done.len() as int);
            assert(seen + all =~= (seen + done) + rest);
            lemma_has_other_add(seen + done, rest, t);
        }
        if *found_other {
            return;
        }
        let kid = kids[k];
        if element_matches_selector(kid, ancestor_sel) {
            count_matches_inner(
                kid,
                target_sel,
                target,
                LOCATE_DEPTH,
                found_target,
                found_other,
                Ghost(seen + done),
            );
        } else {
            chain_check_inner(
                kid,
                ancestor_sel,
                target_sel,
                target,
                depth - 1,
                found_target,
                found_other,
                Ghost(seen + done),
            );
        }
    }
    assert(ids.take(kids@.len() as int) =~= ids);
}

// ---------------------------------------------------------------------------
// The locator
// ---------------------------------------------------------------------------

/// As a locator, `s` leads from `root` to `target` and to nothing else.
pub open spec fn leads_to(
    nodes: Seq<ElementData>,
    root: usize,
    s: Seq<char>,
    target: usize,
) -> bool {
    only(located(nodes, root, s), target)
}

/// The selector matches `target` alone below `root`, and leads there as a
/// locator.
pub open spec fn selector_identifies(
    nodes: Seq<ElementData>,
    root: usize,
    target: usize,
    sel: Seq<char>,
) -> bool {
    &&& only(matching_below(nodes, root, sel, LOCATE_DEPTH as nat), target)
    &&& leads_to(nodes, root, sel, target)
}

/// The selector of `toks` that leads to `target` alone; the first, where there
/// are several.
pub open spec fn single_locator(
    nodes: Seq<ElementData>,
    root: usize,
    target: usize,
    toks: Seq<Tok>,
) -> Option<Seq<char>>
    decreases toks.len(),
{
    if toks.len() == 0 {
        None
    } else if selector_identifies(nodes, root, target, toks[0].sel) {
        Some(toks[0].sel)
    } else {
        single_locator(nodes, root, target, toks.skip(1))
    }
}

/// How many ancestors of an element are tried.
pub const MAX_ANCESTORS: usize = 5;

/// The next `n` elements up from element `i`, below `root`.
pub open spec fn ancestors(nodes: Seq<ElementData>, root: usize, i: usize, n: nat) -> Seq<usize>
    decreases n,
{
    if n == 0 {
        Seq::empty()
    } else {
        match parent_id(nodes, i) {
            Some(p) => if p == root {
                Seq::empty()
            } else {
                seq![p] + ancestors(nodes, root, p, (n - 1) as nat)
            },
            None => Seq::empty(),
        }
    }
}

/// A chain of two selectors, with the sum of their scores.
pub ghost struct Chain {
    pub score: nat,
    pub outer: Seq<char>,
    pub inner: Seq<char>,
}

/// The chain `a >> b`.
pub open spec fn chain_of(a: Tok, b: Tok) -> Chain {
    Chain { score: a.score + b.score, outer: a.sel, inner: b.sel }
}

/// The chains with `a` as their first selector.
pub open spec fn chains_from(a: Tok, inner: Seq<Tok>) -> Seq<Chain> {
    Seq::new(inner.len(), |j: int| chain_of(a, inner[j]))
}

/// The chains of one of `outer` and one of `inner`.
pub open spec fn chains(outer: Seq<Tok>, inner: Seq<Tok>) -> Seq<Chain>
    decreases outer.len(),
{
    if outer.len() == 0 {
        Seq::empty()
    } else {
        chains(outer.drop_last(), inner) + chains_from(outer.last(), inner)
    }
}

/// The chains of a selector for one of the elements `ids` and one of `inner`.
pub open spec fn ancestor_chains(
    nodes: Seq<ElementData>,
    ids: Seq<usize>,
    inner: Seq<Tok>,
) -> Seq<Chain>
    decreases ids.len(),
{
    if ids.len() == 0 {
        Seq::empty()
    } else {
        ancestor_chains(nodes, ids.drop_last(), inner) + chains(tokens(nodes, ids.last()), inner)
    }
}

/// What matches the chain below `root` is `target` alone, and it leads there as a
/// locator.
pub open spec fn chain_identifies(
    nodes: Seq<ElementData>,
    root: usize,
    target: usize,
    c: Chain,
) -> bool {
    &&& only(chain_matches(nodes, root, c.outer, c.inner, LOCATE_DEPTH as nat), target)
    &&& leads_to(nodes, root, chain_text(c), target)
}

/// The chain of the lowest score among those that lead to `target` alone; the
/// first, where there are several.
pub open spec fn best_chain(
    nodes: Seq<ElementData>,
    root: usize,
    target: usize,
    candidates: Seq<Chain>,
) -> Option<Chain>
    decreases candidates.len(),
{
    if candidates.len() == 0 {
        None
    } else {
        let c = candidates.last();
        let best = best_chain(nodes, root, target, candidates.drop_last());
        if chain_identifies(nodes, root, target, c) && (best matches Some(b) ==> c.score
            < b.score) {
            Some(c)
        } else {
            best
        }
    }
}

/// The chain as a locator string.
pub open spec fn chain_text(c: Chain) -> Seq<char> {
    c.outer + " >> "@ + c.inner
}

/// The selector of a role and a number among the siblings.
pub open spec fn nth_selector(role: Seq<char>, n: nat) -> Seq<char> {
    role + ":nth("@ + decimal(n) + ")"@
}

/// A selector that every element matches: it has some class or has it not.
pub open spec fn any_selector() -> Seq<char> {
    ".a,:not(.a)"@
}

/// The first position of `target` in `ids`.
pub open spec fn position(ids: Seq<usize>, target: usize) -> Option<int>
    decreases ids.len(),
{
    if ids.len() == 0 {
        None
    } else {
        match position(ids.drop_last(), target) {
            Some(k) => Some(k),
            None => if ids.last() == target {
                Some(ids.len() - 1)
            } else {
                None
            },
        }
    }
}

/// Position `k` of `len`, as `nth=` takes it: from the end, where it is too
/// large.
pub open spec fn nth_number(k: int, len: nat) -> int {
    if k <= isize::MAX {
        k
    } else {
        k - len
    }
}

/// The locator of element number `n` of those that `s` leads to.
pub open spec fn numbered(s: Seq<char>, n: int) -> Seq<char> {
    s + " >> "@ + ("nth="@ + signed_decimal(n))
}

/// The locator of `target` by its number among those that `s` leads to.
pub open spec fn numbered_for(
    nodes: Seq<ElementData>,
    root: usize,
    s: Seq<char>,
    target: usize,
) -> Option<Seq<char>> {
    let ids = located(nodes, root, s);
    match position(ids, target) {
        Some(k) => Some(numbered(s, nth_number(k, ids.len()))),
        None => None,
    }
}

/// The locator of an element below `root` by its role and its number among its
/// siblings, with its number among those that this leads to where there are
/// others.
pub open spec fn sibling_locator(
    nodes: Seq<ElementData>,
    root: usize,
    target: usize,
) -> Option<Seq<char>> {
    match sibling_number(nodes, target) {
        Some((role, n)) => {
            let sel = nth_selector(role, n);
            if leads_to(nodes, root, sel, target) {
                Some(sel)
            } else {
                match numbered_for(nodes, root, sel, target) {
                    Some(s) => if leads_to(nodes, root, s, target) {
                        Some(s)
                    } else {
                        None
                    },
                    None => None,
                }
            }
        },
        None => None,
    }
}

/// The locator by numbers. Nothing leads to an element that is not below `root`:
/// it is described by its role and its number among its siblings, or by `?`.
pub open spec fn fallback_locator(
    nodes: Seq<ElementData>,
    root: usize,
    target: usize,
) -> Seq<char> {
    match numbered_for(nodes, root, any_selector(), target) {
        Some(s) => match sibling_locator(nodes, root, target) {
            Some(t) => t,
            None => s,
        },
        None => match sibling_number(nodes, target) {
            Some((role, n)) => nth_selector(role, n),
            None => "?"@,
        },
    }
}

/// The locator for element `target` below element `root`: a single selector
/// that leads to it alone; or else a chain of a selector for one of its nearest
/// ancestors and one for itself; or else its role and its number among its
/// siblings; or else its number among all elements below `root`.
pub open spec fn locator_for(nodes: Seq<ElementData>, root: usize, target: usize) -> Seq<char> {
    let toks = tokens(nodes, target);
    match single_locator(nodes, root, target, toks) {
        Some(sel) => sel,
        None => match best_chain(
            nodes,
            root,
            target,
            ancestor_chains(
                nodes,
                ancestors(nodes, root, target, MAX_ANCESTORS as nat),
                toks,
            ),
        ) {
            Some(c) => chain_text(c),
            None => fallback_locator(nodes, root, target),
        },
    }
}

/// Whether `target` alone is among `found`.
fn finds_only(found: &Vec<Element<'_>>, target: Element<'_>, Ghost(ids): Ghost<Seq<usize>>) -> (r:
    bool)
    requires
        lists(found@, target.nodes(), ids),
    ensures
        r == only(ids, target.index()),
{
    let mut seen = false;
    for k in 0..found.len()
        invariant
            lists(found@, target.nodes(), ids),
            seen == ids.take(k as int).contains(target.index()),
            !has_other(ids.take(k as int), target.index()),
    {
        let ghost t = target.index();
        let ghost front = ids.take(k as int);
        proof {
            let next = ids.take(k + 1);
            assert(next =~= front + seq![ids[k as int]]);
            lemma_has_other_add(front, seq![ids[k as int]], t);
            assert(seq![ids[k as int]][0] == ids[k as int]);
            if front.contains(t) {
                let m = choose|m: int| 0 <= m < front.len() && front[m] == t;
                assert(next[m] == t);
            }
            assert(next[k as int] == ids[k as int]);
            if ids[k as int] == t {
                assert(next.contains(t));
            }
            if next.contains(t) && ids[k as int] != t {
                let m = choose|m: int| 0 <= m < next.len() && next[m] == t;
                assert(front[m] == t);
            }
        }
        if is_same_element(found[k], target) {
            seen = true;
        } else {
            assert(ids[k as int] != t);
            assert(has_other(ids, t));
            return false;
        }
    }
    assert(ids.take(found@.len() as int) =~= ids);
    seen
}

/// Whether the locator leads to `target` alone.
fn leads_only_to(root: Element<'_>, locator: &str, target: Element<'_>) -> (r: bool)
    requires
        root.nodes() == target.nodes(),
    ensures
        r == leads_to(root.nodes(), root.index(), locator@, target.index()),
{
    let found = resolve_locator_all(root, locator);
    finds_only(&found, target, Ghost(located(root.nodes(), root.index(), locator@)))
}

/// The locator of `target` by its number among those that `locator` leads to.
fn number_among(root: Element<'_>, locator: &str, target: Element<'_>) -> (r: Option<String>)
    requires
        root.nodes() == target.nodes(),
    ensures
        opt_text(r) == numbered_for(root.nodes(), root.index(), locator@, target.index()),
        located(root.nodes(), root.index(), locator@).len() <= usize::MAX,
{
    let found = resolve_locator_all(root, locator);
    let ghost ids = located(root.nodes(), root.index(), locator@);
    let ghost t = target.index();
    for k in 0..found.len()
        invariant
            lists(found@, root.nodes(), ids),
            ids == located(root.nodes(), root.index(), locator@),
            t == target.index(),
            position(ids.take(k as int), t) is None,
    {
        proof {
            assert(ids.take(k + 1).drop_last() =~= ids.take(k as int));
        }
        if is_same_element(found[k], target) {
            proof {
                lemma_position_prefix(ids, t, k + 1);
            }
            let mut out = append3(locator, " >> ", "nth=");
            let n: isize = if k <= isize::MAX as usize {
                k as isize
            } else {
                -((found.len() - k) as isize)
            };
            push_signed_decimal(&mut out, n as i64);
            assert(out@ =~= numbered(locator@, nth_number(k as int, ids.len())));
            return Some(out);
        }
    }
    assert(ids.take(found@.len() as int) =~= ids);
    None
}

/// The first selector that matches the target alone.
fn find_single(root: Element<'_>, target: Element<'_>, toks: &Vec<Token>) -> (r: Option<String>)
    requires
        root.nodes() == target.nodes(),
    ensures
        opt_text(r) == single_locator(
            root.nodes(),
            root.index(),
            target.index(),
            token_views(toks@),
        ),
{
    let ghost all = token_views(toks@);
    assert(all.skip(0) =~= all);
    for i in 0..toks.len()
        invariant
            root.nodes() == target.nodes(),
            all == token_views(toks@),
            single_locator(root.nodes(), root.index(), target.index(), all) == single_locator(
                root.nodes(),
                root.index(),
                target.index(),
                all.skip(i as int),
            ),
    {
        assert(all.skip(i as int).skip(1) =~= all.skip(i + 1));
        assert(all.skip(i as int)[0] == toks@[i as int]@);
        match count_matches(root, toks[i].selector.as_str(), target, LOCATE_DEPTH) {
            MatchResult::Unique => {
                if leads_only_to(root, toks[i].selector.as_str(), target) {
                    return Some(toks[i].selector.clone());
                }
            },
            MatchResult::NotUnique => {},
        }
    }
    None
}

/// A chain of two selectors found to lead to the target alone.
struct BestChain {
    score: u32,
    outer: String,
    inner: String,
}

spec fn opt_chain(b: Option<BestChain>) -> Option<Chain> {
    match b {
        Some(c) => Some(Chain { score: c.score as nat, outer: c.outer@, inner: c.inner@ }),
        None => None,
    }
}

/// Whether the locator of the two selectors leads to `target` alone.
fn chain_leads_to(root: Element<'_>, outer: &str, inner: &str, target: Element<'_>) -> (r: bool)
    requires
        root.nodes() == target.nodes(),
    ensures
        r == leads_to(root.nodes(), root.index(), outer@ + " >> "@ + inner@, target.index()),
{
    let text = append3(outer, " >> ", inner);
    leads_only_to(root, text.as_str(), target)
}

/// Tries the chains of one of `outer` and one of `inner`.
fn try_chains(
    root: Element<'_>,
    target: Element<'_>,
    outer: &Vec<Token>,
    inner: &Vec<Token>,
    best: Option<BestChain>,
    Ghost(tried): Ghost<Seq<Chain>>,
) -> (r: Option<BestChain>)
    requires
        root.nodes() == target.nodes(),
        forall|j: int| 0 <= j < outer@.len() ==> (#[trigger] outer@[j]).score <= 510,
        forall|j: int| 0 <= j < inner@.len() ==> (#[trigger] inner@[j]).score <= 510,
        opt_chain(best) == best_chain(root.nodes(), root.index(), target.index(), tried),
    ensures
        opt_chain(r) == best_chain(
            root.nodes(),
            root.index(),
            target.index(),
            tried + chains(token_views(outer@), token_views(inner@)),
        ),
{
    let ghost nodes = root.nodes();
    let ghost outs = token_views(outer@);
    let ghost ins = token_views(inner@);
    let mut best = best;
    assert(tried + chains(outs.take(0), ins) =~= tried);
    for i in 0..outer.len()
        invariant
            nodes == root.nodes(),
            root.nodes() == target.nodes(),
            outs == token_views(outer@),
            ins == token_views(inner@),
            forall|j: int| 0 <= j < outer@.len() ==> (#[trigger] outer@[j]).score <= 510,
            forall|j: int| 0 <= j < inner@.len() ==> (#[trigger] inner@[j]).score <= 510,
            opt_chain(best) == best_chain(
                nodes,
                root.index(),
                target.index(),
                tried + chains(outs.take(i as int), ins),
            ),
    {
        let ghost front = tried + chains(outs.take(i as int), ins);
        let ghost row = chains_from(outs[i as int], ins);
        assert(front + row.take(0) =~= front);
        for j in 0..inner.len()
            invariant
                nodes == root.nodes(),
                root.nodes() == target.nodes(),
                outs == token_views(outer@),
                ins == token_views(inner@),
                i < outer@.len(),
                row == chains_from(outs[i as int], ins),
                forall|j: int| 0 <= j < outer@.len() ==> (#[trigger] outer@[j]).score <= 510,
                forall|j: int| 0 <= j < inner@.len() ==> (#[trigger] inner@[j]).score <= 510,
                opt_chain(best) == best_chain(
                    nodes,
                    root.index(),
                    target.index(),
                    front + row.take(j as int),
                ),
        {
            let ghost upto = front + row.take(j + 1);
            proof {
                assert(upto.drop_last() =~= front + row.take(j as int));
                assert(upto.last() == row[j as int]);
                assert(outs[i as int] == outer@[i as int]@);
                assert(ins[j as int] == inner@[j as int]@);
            }
            let score: u32 = outer[i].score + inner[j].score;
            let better = match &best {
                Some(b) => score < b.score,
                None => true,
            };
            if better && chain_is_unique(
                root,
                outer[i].selector.as_str(),
                inner[j].selector.as_str(),
                target,
            ) && chain_leads_to(
                root,
                outer[i].selector.as_str(),
                inner[j].selector.as_str(),
                target,
            ) {
                best =
                Some(
                    BestChain {
                        score,
                        outer: outer[i].selector.clone(),
                        inner: inner[j].selector.clone(),
                    },
                );
            }
        }
        proof {
            assert(row.take(inner@.len() as int) =~= row);
            assert(outs.take(i + 1).drop_last() =~= outs.take(i as int));
            assert(outs.take(i + 1).last() == outs[i as int]);
            assert(tried + chains(outs.take(i + 1), ins) =~= front + row);
        }
    }
    assert(outs.take(outer@.len() as int) =~= outs);
    best
}

/// Tries the chains of a selector for one of the nearest ancestors of the target
/// and one of `toks`.
fn find_chain(root: Element<'_>, target: Element<'_>, toks: &Vec<Token>) -> (r: Option<BestChain>)
    requires
        root.nodes() == target.nodes(),
        forall|j: int| 0 <= j < toks@.len() ==> (#[trigger] toks@[j]).score <= 510,
    ensures
        opt_chain(r) == best_chain(
            root.nodes(),
            root.index(),
            target.index(),
            ancestor_chains(
                root.nodes(),
                ancestors(root.nodes(), root.index(), target.index(), MAX_ANCESTORS as nat),
                token_views(toks@),
            ),
        ),
{
    let ghost nodes = root.nodes();
    let ghost ins = token_views(toks@);
    let ghost all = ancestors(nodes, root.index(), target.index(), MAX_ANCESTORS as nat);
    let ghost mut done: Seq<usize> = Seq::empty();
    let mut best: Option<BestChain> = None;
    let mut current = target;
    assert(done + all =~= all);
    for n in 0..MAX_ANCESTORS
        invariant
            nodes == root.nodes(),
            target.nodes() == nodes,
            current.nodes() == nodes,
            ins == token_views(toks@),
            forall|j: int| 0 <= j < toks@.len() ==> (#[trigger] toks@[j]).score <= 510,
            all == ancestors(nodes, root.index(), target.index(), MAX_ANCESTORS as nat),
            done + ancestors(nodes, root.index(), current.index(), (MAX_ANCESTORS - n) as nat)
                == all,
            opt_chain(best) == best_chain(
                nodes,
                root.index(),
                target.index(),
                ancestor_chains(nodes, done, ins),
            ),
    {
        match attr_element(current, "AXParent") {
            None => {
                assert(done =~= all);
                return best;
            },
            Some(parent) => {
                if is_same_element(parent, root) {
                    assert(done =~= all);
                    return best;
                }
                let outer = candidate_tokens(parent);
                best =
                try_chains(
                    root,
                    target,
                    &outer,
                    toks,
                    best,
                    Ghost(ancestor_chains(nodes, done, ins)),
                );
                proof {
                    let next = done.push(parent.index());
                    let rest = ancestors(
                        nodes,
                        root.index(),
                        parent.index(),
                        (MAX_ANCESTORS - n - 1) as nat,
                    );
                    assert(next + rest =~= done + (seq![parent.index()] + rest));
                    assert(next.drop_last() =~= done);
                    done = next;
                }
                current = parent;
            },
        }
    }
    assert(done =~= all);
    best
}

/// The locator of a role and a number among the siblings.
fn sibling_selector(target: Element<'_>) -> (r: Option<String>)
    ensures
        opt_text(r) == match sibling_number(target.nodes(), target.index()) {
            Some((role, n)) => Some(nth_selector(role, n)),
            None => None,
        },
{
    if let Some((role, n)) = nth_among_siblings(target) {
        let mut out = append2(role.as_str(), ":nth(");
        push_decimal(&mut out, n as u64);
        out.append(")");
        return Some(out);
    }
    None
}

/// The locator of an element below `root` by its role and its numbers.
fn find_sibling(root: Element<'_>, target: Element<'_>) -> (r: Option<String>)
    requires
        root.nodes() == target.nodes(),
    ensures
        opt_text(r) == sibling_locator(root.nodes(), root.index(), target.index()),
{
    if let Some(sel) = sibling_selector(target) {
        if leads_only_to(root, sel.as_str(), target) {
            return Some(sel);
        }
        if let Some(s) = number_among(root, sel.as_str(), target) {
            if leads_only_to(root, s.as_str(), target) {
                return Some(s);
            }
        }
    }
    None
}

/// A locator string for `target` below `root`, which leads to it and to nothing
/// else.
///
/// The result is a string such as `#id`, `AXButton[title="Send"]` or
/// `AXWindow[title="Main"] >> AXButton[title="Send"]`.
pub fn generate_locator(root: Element<'_>, target: Element<'_>) -> (r: String)
    requires
        root.nodes() == target.nodes(),
    ensures
        r@ == locator_for(root.nodes(), root.index(), target.index()),
        descendants(root.nodes(), root.index(), LOCATE_DEPTH as nat).contains(target.index())
            ==> only(located(root.nodes(), root.index(), r@), target.index()) && first_of(
            located(root.nodes(), root.index(), r@),
        ) == Some(target.index()),
{
    let toks = candidate_tokens(target);
    proof {
        let nodes = root.nodes();
        let ids = ancestors(nodes, root.index(), target.index(), MAX_ANCESTORS as nat);
        lemma_single_locator(nodes, root.index(), target.index(), token_views(toks@));
        lemma_best_chain(
            nodes,
            root.index(),
            target.index(),
            ancestor_chains(nodes, ids, token_views(toks@)),
        );
        lemma_any_locator(nodes, root.index());
    }
    if let Some(sel) = find_single(root, target, &toks) {
        proof {
            lemma_only_first(located(root.nodes(), root.index(), sel@), target.index());
        }
        return sel;
    }
    if let Some(c) = find_chain(root, target, &toks) {
        let chain = append3(c.outer.as_str(), " >> ", c.inner.as_str());
        proof {
            lemma_only_first(located(root.nodes(), root.index(), chain@), target.index());
        }
        return chain;
    }
    let numbered = number_among(root, ".a,:not(.a)", target);
    proof {
        let below = descendants(root.nodes(), root.index(), LOCATE_DEPTH as nat);
        if below.contains(target.index()) {
            lemma_locator_leads_back(root.nodes(), root.index(), target.index());
        }
    }
    if let Some(s) = numbered {
        return match find_sibling(root, target) {
            Some(t) => t,
            None => s,
        };
    }
    match sibling_selector(target) {
        Some(s) => s,
        None => "?".to_owned(),
    }
}

// ---------------------------------------------------------------------------
// Laws
// ---------------------------------------------------------------------------

/// A chain of `best_chain` is one of the candidates, it leads to the target
/// alone, and no candidate that does so has a lower score.
pub proof fn lemma_best_chain(
    nodes: Seq<ElementData>,
    root: usize,
    target: usize,
    candidates: Seq<Chain>,
)
    ensures
        match best_chain(nodes, root, target, candidates) {
            Some(b) => {
                &&& candidates.contains(b)
                &&& chain_identifies(nodes, root, target, b)
                &&& forall|k: int|
                    0 <= k < candidates.len() && chain_identifies(
                        nodes,
                        root,
                        target,
                        #[trigger] candidates[k],
                    ) ==> b.score <= candidates[k].score
            },
            None => forall|k: int|
                0 <= k < candidates.len() ==> !chain_identifies(
                    nodes,
                    root,
                    target,
                    #[trigger] candidates[k],
                ),
        },
    decreases candidates.len(),
{
    if candidates.len() > 0 {
        let front = candidates.drop_last();
        lemma_best_chain(nodes, root, target, front);
        let best = best_chain(nodes, root, target, front);
        assert(candidates[candidates.len() - 1] == candidates.last());
        assert forall|k: int| 0 <= k < front.len() implies front[k] == #[trigger] candidates[k] by {
        }
        if best is Some {
            let b = best->0;
            let k = choose|k: int| 0 <= k < front.len() && front[k] == b;
            assert(candidates[k] == b);
        }
    }
}

proof fn lemma_single_locator(
    nodes: Seq<ElementData>,
    root: usize,
    target: usize,
    toks: Seq<Tok>,
)
    ensures
        single_locator(nodes, root, target, toks) matches Some(sel) ==> leads_to(
            nodes,
            root,
            sel,
            target,
        ),
    decreases toks.len(),
{
    if toks.len() > 0 {
        lemma_single_locator(nodes, root, target, toks.skip(1));
    }
}

proof fn lemma_position(ids: Seq<usize>, target: usize)
    ensures
        match position(ids, target) {
            Some(k) => 0 <= k < ids.len() && ids[k] == target,
            None => !ids.contains(target),
        },
    decreases ids.len(),
{
    if ids.len() > 0 {
        let front = ids.drop_last();
        lemma_position(front, target);
        if position(front, target) is None && ids.contains(target) {
            let k = choose|k: int| 0 <= k < ids.len() && ids[k] == target;
            if k < front.len() {
                assert(front[k] == target);
            }
        }
    }
}

proof fn lemma_position_prefix(ids: Seq<usize>, target: usize, n: int)
    requires
        0 <= n <= ids.len(),
        position(ids.take(n), target) is Some,
    ensures
        position(ids, target) == position(ids.take(n), target),
    decreases ids.len() - n,
{
    if n < ids.len() {
        assert(ids.take(n + 1).drop_last() =~= ids.take(n));
        lemma_position_prefix(ids, target, n + 1);
    } else {
        assert(ids.take(n) =~= ids);
    }
}

/// Every element matches the selector that asks for a class to be there or not.
#[verifier::rlimit(50)]
pub proof fn lemma_any_selector(nodes: Seq<ElementData>, i: usize)
    ensures
        selector_matches(nodes, i, any_selector()),
{
    let s = any_selector();
    reveal_strlit(".a,:not(.a)");
    reveal_strlit(":visible");
    reveal_strlit(":nth-child(");
    reveal_strlit(":has-text(");
    reveal_strlit(":has(");
    assert(strip_suffix(s, ":visible"@) is None) by {
        if ends_with(s, ":visible"@) {
            assert(s.subrange(s.len() - 8, s.len() as int)[7] == s.last());
        }
    }
    assert forall|j: int| !occurs_at(s, ":nth-child("@, j) by {
        if occurs_at(s, ":nth-child("@, j) {
            assert(s.subrange(j, j + 11)[0] == s[j]);
            assert(s.subrange(j, j + 11)[2] == s[j + 2]);
        }
    }
    assert forall|j: int| !occurs_at(s, ":has-text("@, j) by {
        if occurs_at(s, ":has-text("@, j) {
            assert(s.subrange(j, j + 10)[0] == s[j]);
            assert(s.subrange(j, j + 10)[1] == s[j + 1]);
        }
    }
    assert forall|j: int| !occurs_at(s, ":has("@, j) by {
        if occurs_at(s, ":has("@, j) {
            assert(s.subrange(j, j + 5)[0] == s[j]);
            assert(s.subrange(j, j + 5)[1] == s[j + 1]);
        }
    }
    lemma_no_call_without_start(s);
    lemma_any_base(nodes, i);
}

#[verifier::rlimit(50)]
proof fn lemma_any_base(nodes: Seq<ElementData>, i: usize)
    ensures
        base_matches(nodes, i, any_selector()),
{
    let s = any_selector();
    reveal_strlit(".a,:not(.a)");
    reveal_strlit("#");
    reveal_strlit("text=");
    reveal_strlit("text~=");
    reveal_strlit("[");
    reveal_strlit(".");
    reveal_strlit(":not(");
    assert(s[0] == '.');
    lemma_missing_char(s, "#"@, 0);
    lemma_missing_char(s, "["@, 0);
    assert(!starts_with(s, "#"@)) by {
        if starts_with(s, "#"@) {
            assert(s.take(1)[0] == s[0]);
        }
    }
    assert(!starts_with(s, "text="@)) by {
        if starts_with(s, "text="@) {
            assert(s.take(5)[0] == s[0]);
        }
    }
    assert(!starts_with(s, "text~="@)) by {
        if starts_with(s, "text~="@) {
            assert(s.take(6)[0] == s[0]);
        }
    }
    assert(s.subrange(0, 1) =~= "."@);
    assert(occurs_at(s, "."@, 0));
    lemma_find(s, "."@);
    assert(split(s, "."@)[0] =~= Seq::empty()) by {
        assert(find(s, "."@) == Some(0int));
        assert(s.take(0) =~= Seq::empty());
    }
    let none = Seq::<char>::empty();
    lemma_missing_char(none, ":not("@, 0);
    assert(split(none, ":not("@) =~= seq![none]);
    assert(role_of_classes(s) =~= none);
    assert(s.skip(0) =~= s);
    lemma_either_class(list_attr(nodes, i, "AXDOMClassList"@));
}

/// A locator of that selector leads to everything below.
pub proof fn lemma_any_locator(nodes: Seq<ElementData>, root: usize)
    ensures
        is_one_step(any_selector()),
        !ends_with(any_selector(), " >>"@),
        located(nodes, root, any_selector()) == descendants(nodes, root, LOCATE_DEPTH as nat),
{
    let s = any_selector();
    reveal_strlit(".a,:not(.a)");
    reveal_strlit(" >> ");
    reveal_strlit(" > ");
    reveal_strlit(" >>");
    lemma_missing_char(s, " >> "@, 0);
    lemma_missing_char(s, " > "@, 0);
    assert(!spaces()(s[0]) && !spaces()(s.last()));
    assert(trim(s) == s);
    if ends_with(s, " >>"@) {
        assert(s.subrange(s.len() - 3, s.len() as int)[2] == s.last());
    }
    lemma_one_step_locator(nodes, root, s);
    assert forall|i: usize| #[trigger] matched_by(nodes, s)(i) by {
        lemma_any_selector(nodes, i);
    }
    lemma_filter_all(descendants(nodes, root, LOCATE_DEPTH as nat), matched_by(nodes, s));
}

proof fn lemma_filter_all(ids: Seq<usize>, pred: spec_fn(usize) -> bool)
    requires
        forall|i: usize| #[trigger] pred(i),
    ensures
        ids.filter(pred) == ids,
    decreases ids.len(),
{
    reveal(Seq::filter);
    if ids.len() > 0 {
        lemma_filter_all(ids.drop_last(), pred);
        assert(ids.drop_last().push(ids.last()) =~= ids);
    } else {
        assert(ids.filter(pred) =~= ids);
    }
}

proof fn lemma_position_picks(ids: Seq<usize>, target: usize)
    requires
        ids.contains(target),
        ids.len() <= usize::MAX,
    ensures
        position(ids, target) matches Some(k) && {
            let n = nth_number(k, ids.len());
            isize::MIN <= n <= isize::MAX && only(pick(ids, n), target)
        },
{
    lemma_position(ids, target);
    let k = position(ids, target)->0;
    let found = pick(ids, nth_number(k, ids.len()));
    assert(found =~= seq![target]);
    assert(found[0] == target);
}

/// The number of an element among all elements below `root` leads to it alone.
#[verifier::rlimit(50)]
proof fn lemma_number_leads_back(nodes: Seq<ElementData>, root: usize, target: usize)
    requires
        descendants(nodes, root, LOCATE_DEPTH as nat).contains(target),
        descendants(nodes, root, LOCATE_DEPTH as nat).len() <= usize::MAX,
    ensures
        numbered_for(nodes, root, any_selector(), target) matches Some(s) && leads_to(
            nodes,
            root,
            s,
            target,
        ),
{
    let ids = located(nodes, root, any_selector());
    lemma_any_locator(nodes, root);
    lemma_position_picks(ids, target);
    lemma_one_step_locator(nodes, root, any_selector());
    lemma_one_step_nth(
        nodes,
        root,
        any_selector(),
        nth_number(position(ids, target)->0, ids.len()),
    );
}

/// The generated locator of an element below `root` leads back to it, and to
/// nothing else.
pub proof fn lemma_locator_leads_back(nodes: Seq<ElementData>, root: usize, target: usize)
    requires
        descendants(nodes, root, LOCATE_DEPTH as nat).contains(target),
        descendants(nodes, root, LOCATE_DEPTH as nat).len() <= usize::MAX,
    ensures
        only(located(nodes, root, locator_for(nodes, root, target)), target),
        first_of(located(nodes, root, locator_for(nodes, root, target))) == Some(target),
{
    let toks = tokens(nodes, target);
    lemma_single_locator(nodes, root, target, toks);
    lemma_best_chain(
        nodes,
        root,
        target,
        ancestor_chains(nodes, ancestors(nodes, root, target, MAX_ANCESTORS as nat), toks),
    );
    lemma_number_leads_back(nodes, root, target);
    lemma_only_first(located(nodes, root, locator_for(nodes, root, target)), target);
}

/// The only element is the first.
proof fn lemma_only_first(ids: Seq<usize>, target: usize)
    ensures
        only(ids, target) ==> first_of(ids) == Some(target),
{
    if only(ids, target) {
        let k = choose|k: int| 0 <= k < ids.len() && ids[k] == target;
        assert(ids[0] == target);
    }
}

/// A selector that is one step of a locator leads where it matches: being the
/// only match is enough.
pub proof fn lemma_single_check(
    nodes: Seq<ElementData>,
    root: usize,
    target: usize,
    sel: Seq<char>,
)
    requires
        is_one_step(sel),
    ensures
        leads_to(nodes, root, sel, target) <==> only(
            matching_below(nodes, root, sel, LOCATE_DEPTH as nat),
            target,
        ),
{
    lemma_one_step_locator(nodes, root, sel);
}

/// What a chain finds at one of `ids` it finds at `ids`.
proof fn lemma_chain_subtrees_contains(
    nodes: Seq<ElementData>,
    ids: Seq<usize>,
    outer: Seq<char>,
    inner: Seq<char>,
    depth: nat,
    k: int,
    z: usize,
)
    requires
        depth > 0,
        0 <= k < ids.len(),
        if selector_matches(nodes, ids[k], outer) {
            matching_below(nodes, ids[k], inner, LOCATE_DEPTH as nat).contains(z)
        } else {
            chain_matches(nodes, ids[k], outer, inner, (depth - 1) as nat).contains(z)
        },
    ensures
        chain_subtrees(nodes, ids, outer, inner, depth).contains(z),
    decreases ids.len(),
{
    let front = chain_subtrees(nodes, ids.drop_last(), outer, inner, depth);
    let own = if selector_matches(nodes, ids.last(), outer) {
        matching_below(nodes, ids.last(), inner, LOCATE_DEPTH as nat)
    } else {
        chain_matches(nodes, ids.last(), outer, inner, (depth - 1) as nat)
    };
    if k == ids.len() - 1 {
        lemma_has_other_add(front, own, z);
    } else {
        lemma_chain_subtrees_contains(nodes, ids.drop_last(), outer, inner, depth, k, z);
        lemma_has_other_add(front, own, z);
    }
}

/// Nothing that matches `sel` lies more than `LOCATE_DEPTH` levels below element
/// `i`.
pub open spec fn within_reach(nodes: Seq<ElementData>, i: usize, sel: Seq<char>) -> bool {
    forall|d: nat, z: usize| #[trigger]
        descendants(nodes, i, d).contains(z) && selector_matches(nodes, z, sel) ==> descendants(
            nodes,
            i,
            LOCATE_DEPTH as nat,
        ).contains(z)
}

/// Everything that matches `outer` below element `i` has what matches `inner`
/// within reach.
pub open spec fn chain_within_reach(
    nodes: Seq<ElementData>,
    i: usize,
    outer: Seq<char>,
    inner: Seq<char>,
    depth: nat,
) -> bool {
    forall|y: usize| #[trigger]
        descendants(nodes, i, depth).contains(y) && selector_matches(nodes, y, outer)
            ==> within_reach(nodes, y, inner)
}

/// What matches `inner` below something that matches `outer` is found through
/// the outermost element on the way that matches `outer`.
pub proof fn lemma_chain_finds(
    nodes: Seq<ElementData>,
    i: usize,
    outer: Seq<char>,
    inner: Seq<char>,
    depth: nat,
    y: usize,
    z: usize,
)
    requires
        chain_within_reach(nodes, i, outer, inner, depth),
        descendants(nodes, i, depth).contains(y),
        selector_matches(nodes, y, outer),
        descendants(nodes, y, LOCATE_DEPTH as nat).contains(z),
        selector_matches(nodes, z, inner),
    ensures
        chain_matches(nodes, i, outer, inner, depth).contains(z),
    decreases depth,
{
    let ids = child_ids(nodes, i);
    let d = (depth - 1) as nat;
    lemma_descendants_contains(nodes, i, depth, y);
    let k = choose|k: int|
        #![trigger ids[k]]
        0 <= k < ids.len() && (ids[k] == y || descendants(nodes, ids[k], d).contains(y));
    let c = ids[k];
    lemma_descendants_contains(nodes, i, depth, c);
    assert(descendants(nodes, i, depth).contains(c));
    if selector_matches(nodes, c, outer) {
        assert(within_reach(nodes, c, inner));
        if c != y {
            lemma_descendants_join(nodes, c, d, y, LOCATE_DEPTH as nat, z);
            assert(descendants(nodes, c, d + LOCATE_DEPTH as nat).contains(z));
        }
        assert(descendants(nodes, c, LOCATE_DEPTH as nat).contains(z));
        lemma_matching_contains(nodes, c, inner, LOCATE_DEPTH as nat, z);
    } else {
        assert forall|x: usize| #[trigger]
            descendants(nodes, c, d).contains(x) && selector_matches(
                nodes,
                x,
                outer,
            ) implies within_reach(nodes, x, inner) by {
            lemma_descendants_contains(nodes, i, depth, x);
            assert(ids[k] == c);
            assert(descendants(nodes, i, depth).contains(x));
        }
        lemma_chain_finds(nodes, c, outer, inner, d, y, z);
    }
    lemma_chain_subtrees_contains(nodes, ids, outer, inner, depth, k, z);
}

/// What `matching_below` holds.
proof fn lemma_matching_contains(
    nodes: Seq<ElementData>,
    i: usize,
    sel: Seq<char>,
    depth: nat,
    z: usize,
)
    ensures
        matching_below(nodes, i, sel, depth).contains(z) <==> descendants(
            nodes,
            i,
            depth,
        ).contains(z) && selector_matches(nodes, z, sel),
{
    let all = descendants(nodes, i, depth);
    let pred = matched_by(nodes, sel);
    if all.contains(z) && pred(z) {
        let m = choose|m: int| 0 <= m < all.len() && all[m] == z;
        all.lemma_filter_contains(pred, m);
    }
    if all.filter(pred).contains(z) {
        all.lemma_filter_contains_rev(pred, z);
        let m = choose|m: int| 0 <= m < all.filter(pred).len() && all.filter(pred)[m] == z;
        all.lemma_filter_pred(pred, m);
    }
}

/// What a chain finds lies below something that matches its outer selector.
pub proof fn lemma_chain_sound(
    nodes: Seq<ElementData>,
    i: usize,
    outer: Seq<char>,
    inner: Seq<char>,
    depth: nat,
    z: usize,
)
    requires
        chain_matches(nodes, i, outer, inner, depth).contains(z),
    ensures
        exists|y: usize| #[trigger]
            descendants(nodes, i, depth).contains(y) && selector_matches(nodes, y, outer)
                && matching_below(nodes, y, inner, LOCATE_DEPTH as nat).contains(z),
    decreases depth, child_ids(nodes, i).len() + 1,
{
    let ids = child_ids(nodes, i);
    lemma_chain_subtrees_sound(nodes, ids, outer, inner, depth, z);
    let y = choose|y: usize| #[trigger]
        subtrees(nodes, ids, depth).contains(y) && selector_matches(nodes, y, outer)
            && matching_below(nodes, y, inner, LOCATE_DEPTH as nat).contains(z);
    assert(descendants(nodes, i, depth).contains(y));
}

proof fn lemma_chain_subtrees_sound(
    nodes: Seq<ElementData>,
    ids: Seq<usize>,
    outer: Seq<char>,
    inner: Seq<char>,
    depth: nat,
    z: usize,
)
    requires
        depth > 0,
        chain_subtrees(nodes, ids, outer, inner, depth).contains(z),
    ensures
        exists|y: usize| #[trigger]
            subtrees(nodes, ids, depth).contains(y) && selector_matches(nodes, y, outer)
                && matching_below(nodes, y, inner, LOCATE_DEPTH as nat).contains(z),
    decreases depth, ids.len(),
{
    let c = ids.last();
    let d = (depth - 1) as nat;
    let front = chain_subtrees(nodes, ids.drop_last(), outer, inner, depth);
    let own = if selector_matches(nodes, c, outer) {
        matching_below(nodes, c, inner, LOCATE_DEPTH as nat)
    } else {
        chain_matches(nodes, c, outer, inner, d)
    };
    lemma_has_other_add(front, own, z);
    let earlier = subtrees(nodes, ids.drop_last(), depth);
    let below = descendants(nodes, c, d);
    if front.contains(z) {
        lemma_chain_subtrees_sound(nodes, ids.drop_last(), outer, inner, depth, z);
        let y = choose|y: usize| #[trigger]
            earlier.contains(y) && selector_matches(nodes, y, outer) && matching_below(
                nodes,
                y,
                inner,
                LOCATE_DEPTH as nat,
            ).contains(z);
        lemma_has_other_add(earlier, seq![c] + below, y);
        assert(subtrees(nodes, ids, depth) =~= earlier + (seq![c] + below));
        assert(subtrees(nodes, ids, depth).contains(y));
    } else if selector_matches(nodes, c, outer) {
        assert(subtrees(nodes, ids, depth)[earlier.len() as int] == c);
        assert(subtrees(nodes, ids, depth).contains(c));
    } else {
        lemma_chain_sound(nodes, c, outer, inner, d, z);
        let y = choose|y: usize| #[trigger]
            descendants(nodes, c, d).contains(y) && selector_matches(nodes, y, outer)
                && matching_below(nodes, y, inner, LOCATE_DEPTH as nat).contains(z);
        lemma_has_other_add(earlier.push(c), below, y);
        assert(subtrees(nodes, ids, depth).contains(y));
    }
}

/// What a search finds.
proof fn lemma_search_contains(
    nodes: Seq<ElementData>,
    ids: Seq<usize>,
    sel: Seq<char>,
    z: usize,
)
    ensures
        search(nodes, ids, sel, false).contains(z) <==> exists|y: usize| #[trigger]
            ids.contains(y) && matching_below(nodes, y, sel, LOCATE_DEPTH as nat).contains(z),
    decreases ids.len(),
{
    if ids.len() > 0 {
        let front = ids.drop_last();
        lemma_search_contains(nodes, front, sel, z);
        lemma_has_other_add(
            search(nodes, front, sel, false),
            matching_below(nodes, ids.last(), sel, LOCATE_DEPTH as nat),
            z,
        );
        assert(ids[ids.len() - 1] == ids.last());
        assert forall|y: usize| front.contains(y) implies #[trigger] ids.contains(y) by {
            let k = choose|k: int| 0 <= k < front.len() && front[k] == y;
            assert(ids[k] == y);
        }
        assert forall|y: usize| #[trigger] ids.contains(y) implies front.contains(y) || y
            == ids.last() by {
            let k = choose|k: int| 0 <= k < ids.len() && ids[k] == y;
            if k < front.len() {
                assert(front[k] == y);
            }
        }
        if search(nodes, ids, sel, false).contains(z) {
            if search(nodes, front, sel, false).contains(z) {
                let y = choose|y: usize| #[trigger]
                    front.contains(y) && matching_below(
                        nodes,
                        y,
                        sel,
                        LOCATE_DEPTH as nat,
                    ).contains(z);
                assert(ids.contains(y));
            } else {
                assert(ids.contains(ids.last()));
            }
        }
    }
}

/// A chain that is found to lead to the element alone does so as a locator.
///
/// Both selectors have to be steps of a locator. What matches the second must
/// not lie deeper below what matches the first than a step looks: such an
/// element could be reached through a match within a match only.
pub proof fn lemma_chain_check(nodes: Seq<ElementData>, root: usize, target: usize, c: Chain)
    requires
        only(chain_matches(nodes, root, c.outer, c.inner, LOCATE_DEPTH as nat), target),
        is_one_step(c.outer),
        is_one_step(c.inner),
        !ends_with(c.outer, " >>"@),
        !is_selection(c.inner),
        chain_within_reach(nodes, root, c.outer, c.inner, LOCATE_DEPTH as nat),
    ensures
        leads_to(nodes, root, chain_text(c), target),
{
    let depth = LOCATE_DEPTH as nat;
    lemma_two_step_locator(nodes, root, c.outer, c.inner);
    let outers = matching_below(nodes, root, c.outer, depth);
    let through = search(nodes, outers, c.inner, false);
    let chain = chain_matches(nodes, root, c.outer, c.inner, depth);
    assert forall|z: usize| through.contains(z) <==> #[trigger] chain.contains(z) by {
        lemma_search_contains(nodes, outers, c.inner, z);
        if through.contains(z) {
            let y = choose|y: usize| #[trigger]
                outers.contains(y) && matching_below(nodes, y, c.inner, depth).contains(z);
            lemma_matching_contains(nodes, root, c.outer, depth, y);
            lemma_matching_contains(nodes, y, c.inner, depth, z);
            lemma_chain_finds(nodes, root, c.outer, c.inner, depth, y, z);
        }
        if chain.contains(z) {
            lemma_chain_sound(nodes, root, c.outer, c.inner, depth, z);
            let y = choose|y: usize| #[trigger]
                descendants(nodes, root, depth).contains(y) && selector_matches(
                    nodes,
                    y,
                    c.outer,
                ) && matching_below(nodes, y, c.inner, depth).contains(z);
            lemma_matching_contains(nodes, root, c.outer, depth, y);
            assert(outers.contains(y));
        }
    }
    assert(through.contains(target)) by {
        assert(chain.contains(target));
    }
    if has_other(through, target) {
        let k = choose|k: int| 0 <= k < through.len() && #[trigger] through[k] != target;
        assert(through.contains(through[k]));
        assert(chain.contains(through[k]));
        let m = choose|m: int| 0 <= m < chain.len() && chain[m] == through[k];
        assert(chain[m] != target);
    }
}

/// `role` is made of ASCII letters and digits.
pub open spec fn simple_role(role: Seq<char>) -> bool {
    &&& role.len() > 0
    &&& forall|k: int| 0 <= k < role.len() ==> ascii_alphanumeric(#[trigger] role[k])
}

/// `c` can stand in the selector of a role and a number.
/// `c` can stand in a selector of a role and a number.
pub open spec fn nth_char(c: char) -> bool {
    ascii_alphanumeric(c) || c == ':' || c == '(' || c == ')'
}

/// What stands in the selector of a role and a number.
pub proof fn lemma_nth_selector_chars(role: Seq<char>, n: nat)
    requires
        simple_role(role),
    ensures
        nth_selector(role, n).len() == role.len() + 6 + decimal(n).len(),
        forall|k: int|
            0 <= k < nth_selector(role, n).len() ==> nth_char(#[trigger] nth_selector(role, n)[k])
                && (nth_selector(role, n)[k] == ':' ==> k == role.len()),
        nth_selector(role, n).take(role.len() as int) == role,
        nth_selector(role, n).subrange(role.len() as int, role.len() as int + 5) == ":nth("@,
        nth_selector(role, n).skip(role.len() as int + 5) == decimal(n) + ")"@,
        nth_selector(role, n).last() == ')',
{
    let s = nth_selector(role, n);
    let p = role.len() as int;
    let digits = decimal(n);
    lemma_decimal_reads_back(n);
    reveal_strlit(":nth(");
    reveal_strlit(")");
    assert forall|k: int| 0 <= k < s.len() implies nth_char(#[trigger] s[k]) && (s[k] == ':' ==> k
        == p) by {
        if k < p {
            assert(s[k] == role[k]);
        } else if k < p + 5 {
            assert(s[k] == ":nth("@[k - p]);
        } else if k < p + 5 + digits.len() {
            assert(s[k] == digits[k - p - 5]);
            assert(is_digit(digits[k - p - 5]));
        } else {
            assert(s[k] == ')');
        }
    }
    assert(s.take(p) =~= role);
    assert(s.subrange(p, p + 5) =~= ":nth("@);
    assert(s.skip(p + 5) =~= digits + ")"@);
}

/// The selector of a role and a number is one step of a locator.
proof fn lemma_nth_selector_is_one_step(role: Seq<char>, n: nat)
    requires
        simple_role(role),
    ensures
        is_one_step(nth_selector(role, n)),
{
    let s = nth_selector(role, n);
    lemma_nth_selector_chars(role, n);
    reveal_strlit(" >> ");
    reveal_strlit(" > ");
    assert(nth_char(s[0]));
    assert(nth_char(s[s.len() - 1]));
    assert(!spaces()(s[0]) && !spaces()(s.last()));
    assert(trim(s) == s);
    assert forall|k: int| 0 <= k < s.len() implies #[trigger] s[k] != ' ' by {
        assert(nth_char(s[k]));
    }
    lemma_missing_char(s, " >> "@, 0);
    lemma_missing_char(s, " > "@, 0);
}

/// The selector of a role and a number is read as such.
pub proof fn lemma_nth_selector_read(role: Seq<char>, n: nat)
    requires
        simple_role(role),
    ensures
        !starts_with(nth_selector(role, n), "#"@),
        strip_prefix(nth_selector(role, n), "text="@) is None,
        strip_prefix(nth_selector(role, n), "text~="@) is None,
        find(nth_selector(role, n), "["@) is None,
        find(nth_selector(role, n), "#"@) is None,
        !contains(nth_selector(role, n), "."@),
        find(nth_selector(role, n), ":nth("@) == Some(role.len() as int),
{
    let s = nth_selector(role, n);
    let p = role.len() as int;
    lemma_nth_selector_chars(role, n);
    reveal_strlit("#");
    reveal_strlit("text=");
    reveal_strlit("text~=");
    reveal_strlit("[");
    reveal_strlit(".");
    reveal_strlit(":nth(");
    assert forall|k: int| 0 <= k < s.len() implies #[trigger] s[k] != '#' && s[k] != '=' && s[k]
        != '[' && s[k] != '.' by {
        assert(nth_char(s[k]));
    }
    lemma_missing_char(s, "#"@, 0);
    lemma_missing_char(s, "text="@, 4);
    lemma_missing_char(s, "text~="@, 5);
    lemma_missing_char(s, "["@, 0);
    lemma_missing_char(s, "."@, 0);
    assert(occurs_at(s, ":nth("@, p));
    lemma_find(s, ":nth("@);
    assert forall|j: int| 0 <= j < p implies !occurs_at(s, ":nth("@, j) by {
        if occurs_at(s, ":nth("@, j) {
            assert(s.subrange(j, j + 5)[0] == s[j]);
        }
    }
}

/// An element matches the selector of its own role and number.
proof fn lemma_nth_selector_matches(
    nodes: Seq<ElementData>,
    i: usize,
    role: Seq<char>,
    n: nat,
)
    requires
        sibling_number(nodes, i) == Some((role, n)),
        simple_role(role),
        n <= usize::MAX,
    ensures
        selector_matches(nodes, i, nth_selector(role, n)),
{
    let s = nth_selector(role, n);
    let p = role.len() as int;
    let digits = decimal(n);
    lemma_decimal_reads_back(n);
    lemma_nth_selector_chars(role, n);
    lemma_nth_selector_read(role, n);
    reveal_strlit(":nth(");
    reveal_strlit(")");
    assert(s.subrange(p, p + 5)[1] == s[p + 1]);
    assert(s.subrange(p, p + 5)[4] == s[p + 4]);
    lemma_no_pseudo(s, p);
    let rest = s.skip(p + 5);
    assert(rest.subrange(digits.len() as int, rest.len() as int) =~= ")"@);
    assert(rest.take(digits.len() as int) =~= digits);
    assert(strip_suffix(rest, ")"@) == Some(digits));
    assert(is_digit(digits[0]));
    assert(parse_unsigned(digits, usize::MAX as nat) == Some(n));
    assert(nth_accepts(nodes, i, role, rest));
    assert(base_matches(nodes, i, s));
}

/// A selector that ends with a parenthesis and has its one colon before the `n`
/// of `:nth(` has no pseudo-class.
pub proof fn lemma_no_pseudo(s: Seq<char>, p: int)
    requires
        0 <= p,
        p + 4 < s.len(),
        forall|k: int| 0 <= k < s.len() && #[trigger] s[k] == ':' ==> k == p,
        s[p + 1] == 'n',
        s[p + 4] == '(',
        s.last() == ')',
    ensures
        parse_pseudo(s) == (Pseudo {
            base: s,
            has_text: None,
            has_selector: None,
            visible: false,
            nth_child: None,
        }),
{
    reveal_strlit(":visible");
    reveal_strlit(":nth-child(");
    reveal_strlit(":has-text(");
    reveal_strlit(":has(");
    assert(strip_suffix(s, ":visible"@) is None) by {
        if ends_with(s, ":visible"@) {
            assert(s.subrange(s.len() - 8, s.len() as int)[7] == s.last());
        }
    }
    assert forall|j: int| !occurs_at(s, ":nth-child("@, j) by {
        if occurs_at(s, ":nth-child("@, j) {
            assert(s.subrange(j, j + 11)[0] == s[j]);
            assert(s.subrange(j, j + 11)[4] == s[j + 4]);
        }
    }
    assert forall|j: int| !occurs_at(s, ":has-text("@, j) by {
        if occurs_at(s, ":has-text("@, j) {
            assert(s.subrange(j, j + 10)[0] == s[j]);
            assert(s.subrange(j, j + 10)[1] == s[j + 1]);
        }
    }
    assert forall|j: int| !occurs_at(s, ":has("@, j) by {
        if occurs_at(s, ":has("@, j) {
            assert(s.subrange(j, j + 5)[0] == s[j]);
            assert(s.subrange(j, j + 5)[1] == s[j + 1]);
        }
    }
    lemma_no_call_without_start(s);
}

/// The locator of a role and a number leads to the element, though it can lead to
/// others too.
pub proof fn lemma_sibling_selector(
    nodes: Seq<ElementData>,
    root: usize,
    target: usize,
    role: Seq<char>,
    n: nat,
)
    requires
        sibling_number(nodes, target) == Some((role, n)),
        simple_role(role),
        n <= usize::MAX,
        descendants(nodes, root, LOCATE_DEPTH as nat).contains(target),
    ensures
        located(nodes, root, nth_selector(role, n)).contains(target),
{
    lemma_nth_selector_matches(nodes, target, role, n);
    lemma_nth_selector_is_one_step(role, n);
    lemma_one_step_locator(nodes, root, nth_selector(role, n));
    lemma_matching_contains(nodes, root, nth_selector(role, n), LOCATE_DEPTH as nat, target);
}

/// A text with no colon has no pseudo-class.
pub proof fn lemma_no_colon(s: Seq<char>)
    requires
        forall|k: int| 0 <= k < s.len() ==> #[trigger] s[k] != ':',
    ensures
        parse_pseudo(s) == (Pseudo {
            base: s,
            has_text: None,
            has_selector: None,
            visible: false,
            nth_child: None,
        }),
{
    reveal_strlit(":visible");
    reveal_strlit(":nth-child(");
    reveal_strlit(":has-text(");
    reveal_strlit(":has(");
    lemma_missing_char(s, ":visible"@, 0);
    lemma_missing_char(s, ":nth-child("@, 0);
    lemma_missing_char(s, ":has-text("@, 0);
    lemma_missing_char(s, ":has("@, 0);
    lemma_find(s, ":nth-child("@);
    lemma_find(s, ":has-text("@);
    lemma_find(s, ":has("@);
    lemma_no_call_without_start(s);
}

/// A text that ends with a bracket has no pseudo-class.
pub proof fn lemma_bracket_end(s: Seq<char>)
    requires
        s.len() > 0,
        s.last() == ']',
    ensures
        parse_pseudo(s) == (Pseudo {
            base: s,
            has_text: None,
            has_selector: None,
            visible: false,
            nth_child: None,
        }),
{
    reveal_strlit(":visible");
    reveal_strlit(")");
    assert(strip_suffix(s, ":visible"@) is None) by {
        if ends_with(s, ":visible"@) {
            assert(s.subrange(s.len() - 8, s.len() as int)[7] == s.last());
        }
    }
}

/// An element matches the selector of its DOM identifier.
proof fn lemma_id_matches(nodes: Seq<ElementData>, i: usize, id: Seq<char>)
    requires
        text_attr(nodes, i, "AXDOMIdentifier"@) == Some(id),
        forall|k: int| 0 <= k < id.len() ==> #[trigger] id[k] != ':',
    ensures
        selector_matches(nodes, i, "#"@ + id),
{
    let s = "#"@ + id;
    reveal_strlit("#");
    assert forall|k: int| 0 <= k < s.len() implies #[trigger] s[k] != ':' by {
        if k > 0 {
            assert(s[k] == id[k - 1]);
        }
    }
    lemma_no_colon(s);
    assert(s.subrange(0, 1) =~= "#"@);
    assert(s.skip(1) =~= id);
}

/// An element matches the selector of its role.
proof fn lemma_role_matches(nodes: Seq<ElementData>, i: usize, role: Seq<char>)
    requires
        text_attr(nodes, i, "AXRole"@) == Some(role),
        simple_role(role),
    ensures
        selector_matches(nodes, i, role),
{
    assert forall|k: int| 0 <= k < role.len() implies #[trigger] role[k] != ':' && role[k] != '#'
        && role[k] != '=' && role[k] != '[' && role[k] != '.' by {
        assert(ascii_alphanumeric(role[k]));
    }
    lemma_no_colon(role);
    reveal_strlit("#");
    reveal_strlit("text=");
    reveal_strlit("text~=");
    reveal_strlit("[");
    reveal_strlit(".");
    reveal_strlit(":nth(");
    lemma_missing_char(role, "#"@, 0);
    lemma_missing_char(role, "text="@, 4);
    lemma_missing_char(role, "text~="@, 5);
    lemma_missing_char(role, "["@, 0);
    lemma_missing_char(role, "."@, 0);
    lemma_missing_char(role, ":nth("@, 0);
}

/// The name is one of those that stand for a text of an element.
pub open spec fn bracket_name(name: Seq<char>) -> bool {
    name == "title"@ || name == "desc"@ || name == "text"@
}

/// A bracket expression with a quoted plain text reads back.
proof fn lemma_bracket_reads_back(name: Seq<char>, t: Seq<char>)
    requires
        bracket_name(name),
        plain(t),
        t.len() > 0,
    ensures
        bracket(name + "="@ + quoted(t)) == Some(
            Bracket { attr: name, op: AttrOp::Exact, val: t },
        ),
{
    let s = name + "="@ + quoted(t);
    let n = name.len() as int;
    reveal_strlit("title");
    reveal_strlit("desc");
    reveal_strlit("text");
    reveal_strlit("=");
    assert(n == 4 || n == 5);
    assert forall|k: int| 0 <= k < n implies #[trigger] s[k] != '=' && s[k] != '"' && 'a' <= s[k]
        <= 'z' by {
        assert(s[k] == name[k]);
    }
    assert(s[n] == '=');
    lemma_first_equals(s, 0, n);
    assert(s[n - 1] == name[n - 1]);
    assert(operator_at(s, n) == (AttrOp::Exact, n));
    assert(s.take(n) =~= name);
    assert(!spaces()(name[0]) && !spaces()(name.last())) by {
        assert(s[0] == name[0] && s[n - 1] == name.last());
    }
    assert(trim(name) == name);
    let q = quoted(t);
    assert(s.skip(n + 1) =~= q);
    assert(q =~= seq!['"'] + t + seq!['"']);
    let drop = text::only('"');
    assert(drop(q[0]));
    let inner = q.skip(1);
    assert(inner =~= t + seq!['"']);
    assert(t[0] != '"' && t[t.len() - 1] != '"');
    assert(!drop(inner[0]));
    assert(trim_start_by(q, drop) == trim_start_by(inner, drop));
    assert(trim_start_by(inner, drop) == inner);
    assert(drop(inner.last()));
    assert(inner.drop_last() =~= t);
    assert(!drop(t.last()));
    assert(trim_end_by(inner, drop) == trim_end_by(t, drop));
    assert(trim_end_by(t, drop) == t);
    assert(trim_char(q, '"') == t);
}

/// The first `=` outside quotes is the first of all, where no quote stands before.
pub proof fn lemma_first_equals(s: Seq<char>, k: int, n: int)
    requires
        0 <= k <= n < s.len(),
        forall|j: int| 0 <= j < n ==> #[trigger] s[j] != '=' && s[j] != '"',
        s[n] == '=',
    ensures
        unquoted_equals(s, k, false) == Some(n),
    decreases n - k,
{
    if k < n {
        lemma_first_equals(s, k + 1, n);
    }
}

/// A selector of a role and a bracket expression does not begin like another
/// kind of selector.
pub proof fn lemma_bracket_selector_start(role: Seq<char>, s: Seq<char>)
    requires
        simple_role(role),
        role.len() < s.len(),
        s.take(role.len() as int) == role,
        s[role.len() as int] == '[',
    ensures
        !starts_with(s, "#"@),
        strip_prefix(s, "text="@) is None,
        strip_prefix(s, "text~="@) is None,
{
    let p = role.len() as int;
    assert forall|k: int| 0 <= k < p implies ascii_alphanumeric(#[trigger] s[k]) by {
        assert(s.take(p)[k] == role[k]);
    }
    assert(!starts_with(s, "#"@)) by {
        reveal_strlit("#");
        assert(s.subrange(0, 1)[0] == s[0]);
        assert(ascii_alphanumeric(s[0]));
    }
    assert(strip_prefix(s, "text="@) is None) by {
        reveal_strlit("text=");
        lemma_not_text_prefix(s, p, "text="@);
    }
    assert(strip_prefix(s, "text~="@) is None) by {
        reveal_strlit("text~=");
        lemma_not_text_prefix(s, p, "text~="@);
    }
}

proof fn lemma_bracket_position(role: Seq<char>, rest: Seq<char>, s: Seq<char>)
    requires
        simple_role(role),
        s =~= role + "["@ + rest,
    ensures
        find(s, "["@) == Some(role.len() as int),
{
    let p = role.len() as int;
    reveal_strlit("[");
    assert(s.subrange(p, p + 1) =~= "["@);
    assert(occurs_at(s, "["@, p));
    lemma_find(s, "["@);
    assert forall|j: int| 0 <= j < p implies !occurs_at(s, "["@, j) by {
        if occurs_at(s, "["@, j) {
            assert(s.subrange(j, j + 1)[0] == s[j]);
            assert(s[j] == role[j]);
            assert(ascii_alphanumeric(role[j]));
        }
    }
}

/// Where the bracket expression stands in a selector of a role and a bracket
/// expression.
#[verifier::rlimit(50)]
pub proof fn lemma_bracket_selector_parts(role: Seq<char>, inside: Seq<char>, s: Seq<char>)
    requires
        simple_role(role),
        s == role + "["@ + inside + "]"@,
    ensures
        s.len() == role.len() + inside.len() + 2,
        s.last() == ']',
        s[role.len() as int] == '[',
        s.take(role.len() as int) == role,
        find(s, "["@) == Some(role.len() as int),
        strip_suffix(s.skip(role.len() as int + 1), "]"@) == Some(inside),
{
    let p = role.len() as int;
    reveal_strlit("[");
    reveal_strlit("]");
    lemma_bracket_position(role, inside + "]"@, s);
    assert(s.take(p) =~= role);
    let rest = s.skip(p + 1);
    assert(rest =~= inside + "]"@);
    assert(rest.subrange(inside.len() as int, rest.len() as int) =~= "]"@);
    assert(rest.take(inside.len() as int) =~= inside);
}

/// An element matches the selector of its role and one of its texts.
proof fn lemma_bracket_matches(
    nodes: Seq<ElementData>,
    i: usize,
    role: Seq<char>,
    name: Seq<char>,
    t: Seq<char>,
)
    requires
        text_attr(nodes, i, "AXRole"@) == Some(role),
        simple_role(role),
        bracket_name(name),
        plain(t),
        t.len() > 0,
        bracket_field(nodes, i, name) == Some(t),
    ensures
        selector_matches(nodes, i, bracket_selector(role, name, t)),
{
    let s = bracket_selector(role, name, t);
    let inside = name + "="@ + quoted(t);
    assert(s =~= role + "["@ + inside + "]"@);
    lemma_bracket_selector_parts(role, inside, s);
    lemma_bracket_selector_start(role, s);
    lemma_bracket_end(s);
    lemma_bracket_reads_back(name, t);
    assert(bracket_accepts(nodes, i, inside));
    assert(has_role(nodes, i, role));
    assert(base_matches(nodes, i, s));
}

/// A selector whose role is followed by a bracket does not begin with a pattern
/// of a few letters and `=`.
pub proof fn lemma_not_text_prefix(s: Seq<char>, p: int, pat: Seq<char>)
    requires
        0 <= p < s.len(),
        s[p] == '[',
        forall|k: int| 0 <= k < p ==> ascii_alphanumeric(#[trigger] s[k]),
        pat.len() > 0,
        pat.last() == '=',
        forall|k: int| 0 <= k < pat.len() ==> #[trigger] pat[k] != '[',
    ensures
        strip_prefix(s, pat) is None,
{
    if starts_with(s, pat) {
        let n = pat.len() as int;
        assert(s.subrange(0, n) == pat);
        if p < n {
            assert(s.subrange(0, n)[p] == s[p]);
            assert(pat[p] != '[');
        } else {
            assert(s.subrange(0, n)[n - 1] == s[n - 1]);
            assert(ascii_alphanumeric(s[n - 1]));
        }
    }
}

/// An element matches the selector of its role and its classes.
#[verifier::rlimit(50)]
proof fn lemma_classes_match(nodes: Seq<ElementData>, i: usize, role: Seq<char>)
    requires
        text_attr(nodes, i, "AXRole"@) == Some(role),
        simple_role(role),
        simple_classes(list_attr(nodes, i, "AXDOMClassList"@)),
        list_attr(nodes, i, "AXDOMClassList"@).len() > 0,
    ensures
        selector_matches(nodes, i, role + dotted(list_attr(nodes, i, "AXDOMClassList"@))),
{
    let classes = list_attr(nodes, i, "AXDOMClassList"@);
    let dots = dotted(classes);
    let s = role + dots;
    let p = role.len() as int;
    lemma_dotted_chars(classes);
    reveal_strlit("#");
    reveal_strlit("text=");
    reveal_strlit("text~=");
    reveal_strlit("[");
    reveal_strlit(".");
    reveal_strlit(":not(");
    assert forall|k: int| 0 <= k < s.len() implies #[trigger] s[k] != ':' && s[k] != '#' && s[k]
        != '=' && s[k] != '[' by {
        if k < p {
            assert(s[k] == role[k]);
            assert(ascii_alphanumeric(role[k]));
        } else {
            assert(s[k] == dots[k - p]);
            assert(name_char(dots[k - p]) || dots[k - p] == '.');
        }
    }
    lemma_no_colon(s);
    lemma_missing_char(s, "#"@, 0);
    lemma_missing_char(s, "text="@, 4);
    lemma_missing_char(s, "text~="@, 5);
    lemma_missing_char(s, "["@, 0);
    assert(s[p] == dots[0]);
    assert(s.subrange(p, p + 1) =~= "."@);
    assert(occurs_at(s, "."@, p));
    lemma_find(s, "."@);
    assert forall|j: int| 0 <= j < p implies !occurs_at(s, "."@, j) by {
        if occurs_at(s, "."@, j) {
            assert(s.subrange(j, j + 1)[0] == s[j]);
            assert(s[j] == role[j]);
            assert(ascii_alphanumeric(role[j]));
        }
    }
    assert(find(s, "."@) == Some(p));
    assert(s.take(p) =~= role);
    assert(split(s, "."@)[0] == role);
    assert forall|k: int| 0 <= k < role.len() implies #[trigger] role[k] != ':' by {
        assert(ascii_alphanumeric(role[k]));
    }
    lemma_missing_char(role, ":not("@, 0);
    assert(split(role, ":not("@) =~= seq![role]);
    assert(role_of_classes(s) == role);
    assert(s.skip(p) =~= dots);
    lemma_dotted_selector(classes, classes);
    assert forall|k: int| 0 <= k < classes.len() implies classes.contains(
        #[trigger] classes[k],
    ) by {
    }
    assert(classes_accept(nodes, i, s));
    assert(base_matches(nodes, i, s));
}

/// An element matches every selector that is generated for it.
///
/// Its role has to be made of ASCII letters and digits, its identifier without a
/// colon, its classes simple, and its texts plain: other texts can be taken for
/// something else in a selector.
pub proof fn lemma_tokens_match(nodes: Seq<ElementData>, i: usize, k: int)
    requires
        simple_role(text_attr_or_empty(nodes, i, "AXRole"@)),
        forall|j: int|
            0 <= j < text_attr_or_empty(nodes, i, "AXDOMIdentifier"@).len()
                ==> #[trigger] text_attr_or_empty(nodes, i, "AXDOMIdentifier"@)[j] != ':',
        simple_classes(list_attr(nodes, i, "AXDOMClassList"@)),
        plain(text_attr_or_empty(nodes, i, "AXTitle"@)),
        plain(text_attr_or_empty(nodes, i, "AXDescription"@)),
        clean_value(nodes, i) matches Some(v) ==> plain(v),
        0 <= k < tokens(nodes, i).len(),
    ensures
        selector_matches(nodes, i, tokens(nodes, i)[k].sel),
{
    let role = text_attr_or_empty(nodes, i, "AXRole"@);
    let sel = tokens(nodes, i)[k].sel;
    let id = text_attr_or_empty(nodes, i, "AXDOMIdentifier"@);
    reveal_strlit("title");
    reveal_strlit("name");
    reveal_strlit("desc");
    reveal_strlit("text");
    assert("title"@.len() == 5 && "name"@.len() == 4 && "desc"@.len() == 4 && "text"@.len() == 4);
    assert("name"@[0] == 'n' && "desc"@[0] == 'd' && "text"@[0] == 't');
    if id.len() > 0 {
        lemma_id_matches(nodes, i, id);
    }
    if let Some(t) = text_attr(nodes, i, "AXTitle"@) {
        if usable(t) {
            lemma_bracket_matches(nodes, i, role, "title"@, t);
        }
    }
    if let Some(t) = text_attr(nodes, i, "AXDescription"@) {
        if usable(t) {
            lemma_bracket_matches(nodes, i, role, "desc"@, t);
        }
    }
    if let Some(t) = clean_value(nodes, i) {
        if usable(t) {
            lemma_bracket_matches(nodes, i, role, "text"@, t);
        }
    }
    if list_attr(nodes, i, "AXDOMClassList"@).len() > 0 {
        lemma_classes_match(nodes, i, role);
    }
    lemma_role_matches(nodes, i, role);
}

/// The selectors for an element are ordered by their scores, the best first.
pub proof fn lemma_tokens_in_order(nodes: Seq<ElementData>, i: usize, a: int, b: int)
    requires
        0 <= a < b < tokens(nodes, i).len(),
    ensures
        tokens(nodes, i)[a].score < tokens(nodes, i)[b].score,
{
}

/// An element is told by its identifier; by its role with its title, its description
/// or its value, where they have 1 to 80 bytes; by its role with its classes; and by
/// its role; with these scores.
#[verifier::rlimit(50)]
pub proof fn lemma_token_forms(nodes: Seq<ElementData>, i: usize)
    ensures
        ({
            let all = tokens(nodes, i);
            let role = text_attr_or_empty(nodes, i, "AXRole"@);
            let classes = list_attr(nodes, i, "AXDOMClassList"@);
            &&& text_attr(nodes, i, "AXDOMIdentifier"@) matches Some(id) ==> (id.len() > 0
                ==> all.contains(Tok { score: 10, sel: "#"@ + id }))
            &&& text_attr(nodes, i, "AXTitle"@) matches Some(t) ==> (t.len() > 0 && utf8_len(t)
                <= 80 ==> all.contains(
                Tok { score: 100, sel: role + "["@ + "title"@ + "="@ + quoted(t) + "]"@ },
            ))
            &&& text_attr(nodes, i, "AXDescription"@) matches Some(t) ==> (t.len() > 0 && utf8_len(
                t,
            ) <= 80 ==> all.contains(
                Tok { score: 120, sel: role + "["@ + "desc"@ + "="@ + quoted(t) + "]"@ },
            ))
            &&& classes.len() > 0 ==> all.contains(Tok { score: 200, sel: role + dotted(classes) })
            &&& role.len() > 0 ==> all.contains(Tok { score: 510, sel: role })
        }),
{
    let all = tokens(nodes, i);
    let role = text_attr_or_empty(nodes, i, "AXRole"@);
    let id = text_attr_or_empty(nodes, i, "AXDOMIdentifier"@);
    let classes = list_attr(nodes, i, "AXDOMClassList"@);
    let n0: int = if id.len() > 0 { 1 } else { 0 };
    let by_title = bracket_token(100, role, "title"@, text_attr(nodes, i, "AXTitle"@));
    let by_desc = bracket_token(120, role, "desc"@, text_attr(nodes, i, "AXDescription"@));
    let by_text = bracket_token(140, role, "text"@, clean_value(nodes, i));
    let n1 = n0 + by_title.len();
    let n2 = n1 + by_desc.len();
    let n3 = n2 + by_text.len();
    if id.len() > 0 {
        assert(all[0] == Tok { score: 10, sel: "#"@ + id });
    }
    if by_title.len() > 0 {
        assert(all[n0] == by_title[0]);
    }
    if by_desc.len() > 0 {
        assert(all[n1] == by_desc[0]);
    }
    if classes.len() > 0 {
        assert(all[n3] == Tok { score: 200, sel: role + dotted(classes) });
    }
    if role.len() > 0 {
        assert(all[all.len() - 1] == Tok { score: 510, sel: role });
    }
}

/// The value of an element goes into a selector without its zero-width spaces.
pub proof fn lemma_value_token(nodes: Seq<ElementData>, i: usize, v: Seq<char>)
    requires
        text_attr(nodes, i, "AXValue"@) == Some(v),
    ensures
        ({
            let t = v.filter(|c: char| c != '\u{200b}');
            let role = text_attr_or_empty(nodes, i, "AXRole"@);
            t.len() > 0 && utf8_len(t) <= 80 ==> tokens(nodes, i).contains(
                Tok { score: 140, sel: role + "["@ + "text"@ + "="@ + quoted(t) + "]"@ },
            )
        }),
{
    assert(text::all_but('\u{200b}') =~= (|c: char| c != '\u{200b}'));
    let all = tokens(nodes, i);
    let role = text_attr_or_empty(nodes, i, "AXRole"@);
    let n0: int = if text_attr_or_empty(nodes, i, "AXDOMIdentifier"@).len() > 0 { 1 } else { 0 };
    let by_title = bracket_token(100, role, "title"@, text_attr(nodes, i, "AXTitle"@));
    let by_desc = bracket_token(120, role, "desc"@, text_attr(nodes, i, "AXDescription"@));
    let by_text = bracket_token(140, role, "text"@, clean_value(nodes, i));
    let n2 = n0 + by_title.len() + by_desc.len();
    if by_text.len() > 0 {
        assert(all[n2] == by_text[0]);
    }
}

/// A single selector is the first that leads to the target alone, and there is one
/// where any does.
pub proof fn lemma_first_single(
    nodes: Seq<ElementData>,
    root: usize,
    target: usize,
    toks: Seq<Tok>,
)
    ensures
        match single_locator(nodes, root, target, toks) {
            Some(sel) => exists|k: int|
                0 <= k < toks.len() && (#[trigger] toks[k]).sel == sel && selector_identifies(
                    nodes,
                    root,
                    target,
                    sel,
                ) && forall|j: int|
                    0 <= j < k ==> !selector_identifies(
                        nodes,
                        root,
                        target,
                        (#[trigger] toks[j]).sel,
                    ),
            None => forall|j: int|
                0 <= j < toks.len() ==> !selector_identifies(
                    nodes,
                    root,
                    target,
                    (#[trigger] toks[j]).sel,
                ),
        },
    decreases toks.len(),
{
    if toks.len() > 0 && !selector_identifies(nodes, root, target, toks[0].sel) {
        let rest = toks.skip(1);
        lemma_first_single(nodes, root, target, rest);
        assert forall|j: int| 0 < j < toks.len() implies #[trigger] toks[j] == rest[j - 1] by {}
        if let Some(sel) = single_locator(nodes, root, target, rest) {
            let k = choose|k: int|
                0 <= k < rest.len() && (#[trigger] rest[k]).sel == sel && selector_identifies(
                    nodes,
                    root,
                    target,
                    sel,
                ) && forall|j: int|
                    0 <= j < k ==> !selector_identifies(
                        nodes,
                        root,
                        target,
                        (#[trigger] rest[j]).sel,
                    );
            assert(toks[k + 1].sel == sel);
            assert forall|j: int| 0 <= j < k + 1 implies !selector_identifies(
                nodes,
                root,
                target,
                (#[trigger] toks[j]).sel,
            ) by {
                if j > 0 {
                    assert(rest[j - 1] == toks[j]);
                }
            }
        }
    }
}

/// To lead to an element alone is to lead to it, and to nothing else.
pub proof fn lemma_only(ids: Seq<usize>, target: usize)
    ensures
        only(ids, target) <==> ids.len() > 0 && forall|k: int|
            0 <= k < ids.len() ==> #[trigger] ids[k] == target,
{
    if only(ids, target) {
        assert forall|k: int| 0 <= k < ids.len() implies #[trigger] ids[k] == target by {}
    }
    if ids.len() > 0 && (forall|k: int| 0 <= k < ids.len() ==> #[trigger] ids[k] == target) {
        assert(ids[0] == target);
    }
}

/// The ancestors that are tried: up to five, from the parent on, below the root.
pub proof fn lemma_ancestors(nodes: Seq<ElementData>, root: usize, i: usize, n: nat)
    ensures
        MAX_ANCESTORS == 5,
        ancestors(nodes, root, i, n).len() <= n,
        !ancestors(nodes, root, i, n).contains(root),
        parent_id(nodes, i) matches Some(p) ==> (p != root ==> ancestors(nodes, root, i, n + 1)
            == seq![p] + ancestors(nodes, root, p, n)),
        parent_id(nodes, i) == Some(root) || parent_id(nodes, i) is None ==> ancestors(
            nodes,
            root,
            i,
            n,
        ) == Seq::<usize>::empty(),
    decreases n,
{
    if n > 0 {
        if let Some(p) = parent_id(nodes, i) {
            if p != root {
                lemma_ancestors(nodes, root, p, (n - 1) as nat);
                let rest = ancestors(nodes, root, p, (n - 1) as nat);
                let all = seq![p] + rest;
                if all.contains(root) {
                    let k = choose|k: int| 0 <= k < all.len() && all[k] == root;
                    assert(k > 0 && rest[k - 1] == root);
                }
            }
        }
    }
}

/// Every selector for one of the ancestors is tried with every selector for the
/// element.
pub proof fn lemma_all_chains_tried(
    nodes: Seq<ElementData>,
    ids: Seq<usize>,
    inner: Seq<Tok>,
    a: int,
    j: int,
    k: int,
)
    requires
        0 <= a < ids.len(),
        0 <= j < tokens(nodes, ids[a]).len(),
        0 <= k < inner.len(),
    ensures
        ({
            let x = tokens(nodes, ids[a])[j];
            ancestor_chains(nodes, ids, inner).contains(
                Chain { score: x.score + inner[k].score, outer: x.sel, inner: inner[k].sel },
            )
        }),
    decreases ids.len(),
{
    let x = tokens(nodes, ids[a])[j];
    let c = chain_of(x, inner[k]);
    let front = ancestor_chains(nodes, ids.drop_last(), inner);
    let own = chains(tokens(nodes, ids.last()), inner);
    let all = ancestor_chains(nodes, ids, inner);
    if a < ids.len() - 1 {
        assert(ids.drop_last()[a] == ids[a]);
        lemma_all_chains_tried(nodes, ids.drop_last(), inner, a, j, k);
        let m = choose|m: int| 0 <= m < front.len() && front[m] == c;
        assert(all[m] == c);
    } else {
        lemma_chains_contain(tokens(nodes, ids.last()), inner, j, k);
        let m = choose|m: int| 0 <= m < own.len() && own[m] == c;
        assert(all[front.len() + m] == c);
    }
}

proof fn lemma_chains_contain(outer: Seq<Tok>, inner: Seq<Tok>, j: int, k: int)
    requires
        0 <= j < outer.len(),
        0 <= k < inner.len(),
    ensures
        chains(outer, inner).contains(chain_of(outer[j], inner[k])),
    decreases outer.len(),
{
    let c = chain_of(outer[j], inner[k]);
    let front = chains(outer.drop_last(), inner);
    let row = chains_from(outer.last(), inner);
    let all = chains(outer, inner);
    if j < outer.len() - 1 {
        assert(outer.drop_last()[j] == outer[j]);
        lemma_chains_contain(outer.drop_last(), inner, j, k);
        let m = choose|m: int| 0 <= m < front.len() && front[m] == c;
        assert(all[m] == c);
    } else {
        assert(row[k] == c);
        assert(all[front.len() + k] == c);
    }
}

/// A chain is written with ` >> ` between its selectors.
pub proof fn lemma_chain_text(outer: Seq<char>, inner: Seq<char>, score: nat)
    ensures
        chain_text(Chain { score, outer, inner }) == outer + " >> "@ + inner,
{
}

/// What is generated: the first single selector, or else the best chain, where one
/// leads to the target alone.
pub proof fn lemma_locator_choice(nodes: Seq<ElementData>, root: usize, target: usize)
    ensures
        ({
            let toks = tokens(nodes, target);
            let tried = ancestor_chains(nodes, ancestors(nodes, root, target, 5), toks);
            match single_locator(nodes, root, target, toks) {
                Some(sel) => locator_for(nodes, root, target) == sel,
                None => best_chain(nodes, root, target, tried) matches Some(c) ==> locator_for(
                    nodes,
                    root,
                    target,
                ) == c.outer + " >> "@ + c.inner,
            }
        }),
{
}

/// Where no selector and no chain leads to the target alone, its role and its number
/// among its siblings are taken if they do. A target that is not below the root is
/// described by them in any case, and by `?` where it has none.
pub proof fn lemma_number_choice(
    nodes: Seq<ElementData>,
    root: usize,
    target: usize,
    role: Seq<char>,
    n: nat,
)
    requires
        single_locator(nodes, root, target, tokens(nodes, target)) is None,
        best_chain(
            nodes,
            root,
            target,
            ancestor_chains(nodes, ancestors(nodes, root, target, 5), tokens(nodes, target)),
        ) is None,
    ensures
        sibling_number(nodes, target) == Some((role, n)) && only(
            located(nodes, root, role + ":nth("@ + decimal(n) + ")"@),
            target,
        ) ==> locator_for(nodes, root, target) == role + ":nth("@ + decimal(n) + ")"@,
        !descendants(nodes, root, 50).contains(target) && sibling_number(nodes, target) == Some(
            (role, n),
        ) ==> locator_for(nodes, root, target) == role + ":nth("@ + decimal(n) + ")"@,
        !descendants(nodes, root, 50).contains(target) && sibling_number(nodes, target) is None
            ==> locator_for(nodes, root, target) == "?"@,
{
    lemma_any_locator(nodes, root);
    lemma_position(descendants(nodes, root, 50), target);
}

} // verus!

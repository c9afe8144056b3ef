//! Locator strings: chains of selectors, and the elements that they lead to.

use vstd::prelude::*;
use crate::number::{
    decimal, is_digit, lemma_decimal_reads_back, parse_isize, parse_signed, signed_decimal,
};
use crate::selector::{
    collect_matching_inner, element_matches_selector, matched_by, matching_below, selector_matches,
};
use crate::text::{
    contains, ends_with, join, lemma_find, lemma_missing_char, lemma_split_append,
    lemma_split_extend, lemma_split_last, lemma_split_nonempty, occurs_at, same_text, spaces, split,
    split_text, starts_with, str_views, strip_prefix, strip_prefix_text, trim, trim_text,
    white_space,
};
use crate::tree::{
    all_valid, child_ids, children, descendants, first_of, ids_of, is_handle, lists, one_tree,
    tree_of, Element, ElementData,
};

verus! {

/// How far below an element a step of a locator looks.
pub const LOCATE_DEPTH: usize = 50;

/// A step of a locator.
pub enum LocatorStep<'a> {
    /// `>>`: search everything below
    Descendant(&'a str),
    /// `>`: search the direct children only
    DirectChild(&'a str),
}

/// What a step of a locator asks for.
pub ghost struct Step {
    pub direct: bool,
    pub sel: Seq<char>,
}

impl<'a> View for LocatorStep<'a> {
    type V = Step;

    open spec fn view(&self) -> Step {
        match self {
            LocatorStep::Descendant(s) => Step { direct: false, sel: s@ },
            LocatorStep::DirectChild(s) => Step { direct: true, sel: s@ },
        }
    }
}

/// The views of a list of steps.
pub open spec fn step_views(v: Seq<LocatorStep<'_>>) -> Seq<Step> {
    Seq::new(v.len(), |i: int| v[i]@)
}

/// The steps of a segment that ` > ` has split into `parts`: the first looks at
/// everything below, the others at the direct children. Blank parts are left
/// out.
pub open spec fn segment_steps(parts: Seq<Seq<char>>) -> Seq<Step>
    decreases parts.len(),
{
    if parts.len() == 0 {
        Seq::empty()
    } else {
        let before = segment_steps(parts.drop_last());
        let sel = trim(parts.last());
        if sel.len() == 0 {
            before
        } else {
            before.push(Step { direct: parts.len() > 1, sel })
        }
    }
}

/// The steps of the segments, one after the other.
pub open spec fn chain_steps(segments: Seq<Seq<char>>) -> Seq<Step>
    decreases segments.len(),
{
    if segments.len() == 0 {
        Seq::empty()
    } else {
        chain_steps(segments.drop_last()) + segment_steps(split(segments.last(), " > "@))
    }
}

/// The steps that the locator `s` writes: ` >> ` separates segments, and ` > `
/// the steps of a segment.
pub open spec fn locator_steps(s: Seq<char>) -> Seq<Step> {
    chain_steps(split(s, " >> "@))
}

fn push_segment_steps<'a>(segment: &'a str, steps: &mut Vec<LocatorStep<'a>>)
    ensures
        step_views(final(steps)@) == step_views(old(steps)@) + segment_steps(
            split(segment@, " > "@),
        ),
{
    proof {
        reveal_strlit(" > ");
    }
    let parts = split_text(segment, " > ");
    let ghost all = str_views(parts@);
    let ghost start = step_views(steps@);
    assert(start + segment_steps(all.take(0)) =~= start);
    for j in 0..parts.len()
        invariant
            all == str_views(parts@),
            step_views(steps@) == start + segment_steps(all.take(j as int)),
    {
        proof {
            assert(all.take(j + 1).drop_last() =~= all.take(j as int));
            assert(all.take(j + 1).last() == parts@[j as int]@);
        }
        let sel = trim_text(parts[j]);
        if !sel.is_empty() {
            let ghost before = steps@;
            let step = if j == 0 {
                LocatorStep::Descendant(sel)
            } else {
                LocatorStep::DirectChild(sel)
            };
            steps.push(step);
            assert(step_views(steps@) =~= step_views(before).push(step@));
            assert(step_views(steps@) =~= start + segment_steps(all.take(j + 1)));
        }
    }
    assert(all.take(parts@.len() as int) =~= all);
}

/// The steps of a locator string.
pub fn parse_locator_steps<'a>(locator: &'a str) -> (r: Vec<LocatorStep<'a>>)
    ensures
        step_views(r@) == locator_steps(locator@),
{
    proof {
        reveal_strlit(" >> ");
    }
    let segments = split_text(locator, " >> ");
    let ghost all = str_views(segments@);
    let mut steps: Vec<LocatorStep<'a>> = Vec::new();
    assert(step_views(steps@) =~= chain_steps(all.take(0)));
    for i in 0..segments.len()
        invariant
            all == str_views(segments@),
            step_views(steps@) == chain_steps(all.take(i as int)),
    {
        proof {
            assert(all.take(i + 1).drop_last() =~= all.take(i as int));
            assert(all.take(i + 1).last() == segments@[i as int]@);
        }
        push_segment_steps(segments[i], &mut steps);
    }
    assert(all.take(segments@.len() as int) =~= all);
    steps
}

// ---------------------------------------------------------------------------
// Applying steps
// ---------------------------------------------------------------------------

/// The elements below element `i` that match `sel`: among its children only, or
/// among everything up to `LOCATE_DEPTH` levels below.
pub open spec fn scope_matches(
    nodes: Seq<ElementData>,
    i: usize,
    sel: Seq<char>,
    direct: bool,
) -> Seq<usize> {
    if direct {
        child_ids(nodes, i).filter(matched_by(nodes, sel))
    } else {
        matching_below(nodes, i, sel, LOCATE_DEPTH as nat)
    }
}

/// The elements below each of `ids` that match `sel`.
pub open spec fn search(
    nodes: Seq<ElementData>,
    ids: Seq<usize>,
    sel: Seq<char>,
    direct: bool,
) -> Seq<usize>
    decreases ids.len(),
{
    if ids.len() == 0 {
        Seq::empty()
    } else {
        search(nodes, ids.drop_last(), sel, direct) + scope_matches(nodes, ids.last(), sel, direct)
    }
}

/// Number `n` of `ids`, counted from the end where `n` is negative.
pub open spec fn pick(ids: Seq<usize>, n: int) -> Seq<usize> {
    let k = if n < 0 {
        ids.len() + n
    } else {
        n
    };
    if 0 <= k < ids.len() {
        seq![ids[k]]
    } else {
        Seq::empty()
    }
}

/// What a step after the first makes of the elements `ids`: `nth=N`, `first` and
/// `last` select among them, and any other step searches below them.
pub open spec fn step_result(nodes: Seq<ElementData>, ids: Seq<usize>, step: Step) -> Seq<usize> {
    match strip_prefix(step.sel, "nth="@) {
        Some(digits) => match parse_signed(digits) {
            Some(n) => pick(ids, n),
            None => Seq::empty(),
        },
        None => if step.sel == "first"@ {
            pick(ids, 0)
        } else if step.sel == "last"@ {
            pick(ids, -1)
        } else {
            search(nodes, ids, step.sel, step.direct)
        },
    }
}

/// What the steps make of the elements `ids`.
pub open spec fn run_steps(
    nodes: Seq<ElementData>,
    ids: Seq<usize>,
    steps: Seq<Step>,
) -> Seq<usize>
    decreases steps.len(),
{
    if steps.len() == 0 {
        ids
    } else {
        step_result(nodes, run_steps(nodes, ids, steps.drop_last()), steps.last())
    }
}

/// The elements that the locator `s` leads to from element `root`.
pub open spec fn located(nodes: Seq<ElementData>, root: usize, s: Seq<char>) -> Seq<usize> {
    let steps = locator_steps(s);
    if steps.len() == 0 {
        Seq::empty()
    } else {
        run_steps(nodes, search(nodes, seq![root], steps[0].sel, steps[0].direct), steps.skip(1))
    }
}

/// The direct children that match a selector.
pub fn collect_direct_children_matching<'a>(root: Element<'a>, selector: &str) -> (r: Vec<
    Element<'a>,
>)
    ensures
        lists(
            r@,
            root.nodes(),
            child_ids(root.nodes(), root.index()).filter(matched_by(root.nodes(), selector@)),
        ),
{
    let kids = children(root);
    let ghost nodes = root.nodes();
    let ghost ids = child_ids(nodes, root.index());
    let ghost pred = matched_by(nodes, selector@);
    let mut results: Vec<Element<'a>> = Vec::new();
    proof {
        reveal(Seq::filter);
    }
    for k in 0..kids.len()
        invariant
            lists(kids@, nodes, ids),
            pred == matched_by(nodes, selector@),
            lists(results@, nodes, ids.take(k as int).filter(pred)),
    {
        proof {
            reveal(Seq::filter);
            assert(ids.take(k + 1).drop_last() =~= ids.take(k as int));
        }
        if element_matches_selector(kids[k], selector) {
            results.push(kids[k]);
        }
    }
    assert(ids.take(kids@.len() as int) =~= ids);
    results
}

fn search_within<'a>(
    elements: &Vec<Element<'a>>,
    selector: &str,
    direct_only: bool,
    Ghost(nodes): Ghost<Seq<ElementData>>,
    Ghost(ids): Ghost<Seq<usize>>,
) -> (r: Vec<Element<'a>>)
    requires
        lists(elements@, nodes, ids),
    ensures
        lists(r@, nodes, search(nodes, ids, selector@, direct_only)),
{
    let mut results: Vec<Element<'a>> = Vec::new();
    for k in 0..elements.len()
        invariant
            lists(elements@, nodes, ids),
            lists(results@, nodes, search(nodes, ids.take(k as int), selector@, direct_only)),
    {
        let ghost front = search(nodes, ids.take(k as int), selector@, direct_only);
        assert(ids.take(k + 1).drop_last() =~= ids.take(k as int));
        if direct_only {
            let mut found = collect_direct_children_matching(elements[k], selector);
            results.append(&mut found);
        } else {
            collect_matching_inner(
                elements[k],
                selector,
                LOCATE_DEPTH,
                &mut results,
                Ghost(front),
            );
        }
    }
    assert(ids.take(elements@.len() as int) =~= ids);
    results
}

fn pick_one<'a>(
    elements: &Vec<Element<'a>>,
    n: isize,
    Ghost(nodes): Ghost<Seq<ElementData>>,
    Ghost(ids): Ghost<Seq<usize>>,
) -> (r: Vec<Element<'a>>)
    requires
        lists(elements@, nodes, ids),
    ensures
        lists(r@, nodes, pick(ids, n as int)),
{
    let len: usize = elements.len();
    let back: usize = if n >= 0 {
        0
    } else if n == isize::MIN {
        isize::MAX as usize + 1
    } else {
        (-n) as usize
    };
    let mut out: Vec<Element<'a>> = Vec::new();
    if n >= 0 {
        if (n as usize) < len {
            out.push(elements[n as usize]);
        }
    } else if back <= len {
        out.push(elements[len - back]);
    }
    out
}

/// What a step after the first makes of a list of elements: a selection among
/// them, or else what matches below them, or among their children only.
pub fn apply_step_inner<'a>(elements: &Vec<Element<'a>>, step: &str, direct_only: bool) -> (r: Vec<
    Element<'a>,
>)
    requires
        one_tree(elements@),
    ensures
        lists(
            r@,
            tree_of(elements@),
            step_result(
                tree_of(elements@),
                ids_of(elements@),
                (Step { direct: direct_only, sel: step@ }),
            ),
        ),
{
    all_valid(elements);
    let ghost nodes = tree_of(elements@);
    step_on(elements, step, direct_only, Ghost(nodes), Ghost(ids_of(elements@)))
}

fn step_on<'a>(
    elements: &Vec<Element<'a>>,
    step: &str,
    direct_only: bool,
    Ghost(nodes): Ghost<Seq<ElementData>>,
    Ghost(ids): Ghost<Seq<usize>>,
) -> (r: Vec<Element<'a>>)
    requires
        lists(elements@, nodes, ids),
    ensures
        lists(
            r@,
            nodes,
            step_result(nodes, ids, (Step { direct: direct_only, sel: step@ })),
        ),
{
    if let Some(digits) = strip_prefix_text(step, "nth=") {
        return match parse_isize(digits) {
            Some(n) => pick_one(elements, n, Ghost(nodes), Ghost(ids)),
            None => Vec::new(),
        };
    }
    if same_text(step, "first") {
        return pick_one(elements, 0, Ghost(nodes), Ghost(ids));
    }
    if same_text(step, "last") {
        return pick_one(elements, -1, Ghost(nodes), Ghost(ids));
    }
    search_within(elements, step, direct_only, Ghost(nodes), Ghost(ids))
}

fn apply_step_typed<'a>(
    elements: &Vec<Element<'a>>,
    step: &LocatorStep<'_>,
    Ghost(nodes): Ghost<Seq<ElementData>>,
    Ghost(ids): Ghost<Seq<usize>>,
) -> (r: Vec<Element<'a>>)
    requires
        lists(elements@, nodes, ids),
    ensures
        lists(r@, nodes, step_result(nodes, ids, step@)),
{
    match step {
        LocatorStep::Descendant(sel) => step_on(
            elements,
            sel,
            false,
            Ghost(nodes),
            Ghost(ids),
        ),
        LocatorStep::DirectChild(sel) => step_on(
            elements,
            sel,
            true,
            Ghost(nodes),
            Ghost(ids),
        ),
    }
}

/// Steps make nothing out of nothing.
pub proof fn lemma_run_steps_empty(nodes: Seq<ElementData>, steps: Seq<Step>)
    ensures
        run_steps(nodes, Seq::empty(), steps) == Seq::<usize>::empty(),
    decreases steps.len(),
{
    if steps.len() > 0 {
        lemma_run_steps_empty(nodes, steps.drop_last());
    }
}

/// The steps can be run in two goes.
pub proof fn lemma_run_steps_split(
    nodes: Seq<ElementData>,
    ids: Seq<usize>,
    steps: Seq<Step>,
    k: int,
)
    requires
        0 <= k <= steps.len(),
    ensures
        run_steps(nodes, ids, steps) == run_steps(
            nodes,
            run_steps(nodes, ids, steps.take(k)),
            steps.skip(k),
        ),
    decreases steps.len() - k,
{
    if k == steps.len() {
        assert(steps.take(k) =~= steps);
    } else {
        assert(steps.drop_last().take(k) =~= steps.take(k));
        assert(steps.drop_last().skip(k) =~= steps.skip(k).drop_last());
        lemma_run_steps_split(nodes, ids, steps.drop_last(), k);
    }
}

/// All elements that a locator string leads to from `root`.
///
/// A step after ` >> ` searches everything below the elements found so far, one
/// after ` > ` their children only. After the first step:
/// - `nth=N` picks element number `N`, from 0, or from the end where negative
/// - `first` and `last` pick the first and the last element
pub fn resolve_locator_all<'a>(root: Element<'a>, locator: &str) -> (r: Vec<Element<'a>>)
    ensures
        lists(r@, root.nodes(), located(root.nodes(), root.index(), locator@)),
{
    let ghost nodes = root.nodes();
    let steps = parse_locator_steps(locator);
    if steps.len() == 0 {
        return Vec::new();
    }
    root.always_valid();
    let mut from: Vec<Element<'a>> = Vec::new();
    from.push(root);
    let ghost start = seq![root.index()];
    let mut current = match &steps[0] {
        LocatorStep::Descendant(sel) => search_within(
            &from,
            sel,
            false,
            Ghost(nodes),
            Ghost(start),
        ),
        LocatorStep::DirectChild(sel) => search_within(
            &from,
            sel,
            true,
            Ghost(nodes),
            Ghost(start),
        ),
    };
    let ghost all = step_views(steps@);
    let ghost rest = all.skip(1);
    let ghost first = search(nodes, start, all[0].sel, all[0].direct);
    assert(rest.take(0) =~= Seq::empty());
    for k in 1..steps.len()
        invariant
            all == step_views(steps@),
            rest == all.skip(1),
            lists(current@, nodes, run_steps(nodes, first, rest.take(k - 1))),
            nodes == root.nodes(),
            all == locator_steps(locator@),
            first == search(nodes, seq![root.index()], all[0].sel, all[0].direct),
    {
        let ghost ids = run_steps(nodes, first, rest.take(k - 1));
        proof {
            assert(rest.take(k as int).drop_last() =~= rest.take(k - 1));
            assert(rest.take(k as int).last() == steps@[k as int]@);
        }
        current = apply_step_typed(&current, &steps[k], Ghost(nodes), Ghost(ids));
        if current.len() == 0 {
            proof {
                lemma_run_steps_split(nodes, first, rest, k as int);
                assert(run_steps(nodes, first, rest.take(k as int)) =~= Seq::empty());
                lemma_run_steps_empty(nodes, rest.skip(k as int));
            }
            return current;
        }
    }
    assert(rest.take(steps@.len() - 1) =~= rest);
    current
}

/// The first element that a locator string leads to from `root`.
///
/// A locator is a chain of selectors:
/// - `#id`
/// - `AXButton[title="Send"]`
/// - `AXGroup.class1.class2` or `.class`
/// - `text=Value`, `text~=Substring` or `text=/pattern/flags`
/// - `AXRole`
/// - `AXGroup:nth(2)`, which counts the siblings of the same role
/// - `nth=N` picks from what the steps before it have found
/// - `sel1 >> sel2 >> nth=0`
pub fn resolve_locator<'a>(root: Element<'a>, locator: &str) -> (r: Option<Element<'a>>)
    ensures
        is_handle(
            r,
            root.nodes(),
            first_of(located(root.nodes(), root.index(), locator@)),
        ),
{
    let all = resolve_locator_all(root, locator);
    if all.len() == 0 {
        None
    } else {
        Some(all[0])
    }
}

// ---------------------------------------------------------------------------
// Laws
// ---------------------------------------------------------------------------

/// `sel` can stand as a step of a locator: it is not blank, nothing of it is
/// trimmed, and it holds no separator of steps.
pub open spec fn is_one_step(sel: Seq<char>) -> bool {
    &&& sel.len() > 0
    &&& trim(sel) == sel
    &&& !contains(sel, " >> "@)
    &&& !contains(sel, " > "@)
}

/// `sel`, as a step after the first, selects among the elements found so far.
pub open spec fn is_selection(sel: Seq<char>) -> bool {
    strip_prefix(sel, "nth="@) is Some || sel == "first"@ || sel == "last"@
}

proof fn lemma_one_segment(sel: Seq<char>)
    requires
        is_one_step(sel),
    ensures
        segment_steps(split(sel, " > "@)) == seq![Step { direct: false, sel }],
{
    reveal_strlit(" > ");
    lemma_find(sel, " > "@);
    let parts = split(sel, " > "@);
    assert(parts =~= seq![sel]);
    assert(parts.drop_last() =~= Seq::empty());
    assert(segment_steps(parts.drop_last()) =~= Seq::empty());
    assert(segment_steps(parts) =~= seq![Step { direct: false, sel }]);
}

/// A locator of one step leads to everything below that matches the selector.
pub proof fn lemma_one_step_locator(nodes: Seq<ElementData>, root: usize, sel: Seq<char>)
    requires
        is_one_step(sel),
    ensures
        located(nodes, root, sel) == matching_below(nodes, root, sel, LOCATE_DEPTH as nat),
{
    lemma_one_step_steps(sel);
    assert(locator_steps(sel).skip(1) =~= Seq::empty());
    lemma_search_one(nodes, root, sel);
}

proof fn lemma_search_one(nodes: Seq<ElementData>, root: usize, sel: Seq<char>)
    ensures
        search(nodes, seq![root], sel, false) == matching_below(
            nodes,
            root,
            sel,
            LOCATE_DEPTH as nat,
        ),
{
    assert(seq![root].drop_last() =~= Seq::empty());
    assert(search(nodes, seq![root].drop_last(), sel, false) =~= Seq::empty());
    assert(search(nodes, seq![root], sel, false) =~= matching_below(
        nodes,
        root,
        sel,
        LOCATE_DEPTH as nat,
    ));
}

proof fn lemma_chain_steps_add(a: Seq<Seq<char>>, b: Seq<Seq<char>>)
    ensures
        chain_steps(a + b) == chain_steps(a) + chain_steps(b),
    decreases b.len(),
{
    if b.len() == 0 {
        assert(a + b =~= a);
        assert(chain_steps(a) + chain_steps(b) =~= chain_steps(a));
    } else {
        lemma_chain_steps_add(a, b.drop_last());
        assert((a + b).drop_last() =~= a + b.drop_last());
        assert(chain_steps(a + b) =~= chain_steps(a) + chain_steps(b));
    }
}

/// No ` >> ` reaches from `a` into the ` >> ` behind it.
pub proof fn lemma_separator_stays(a: Seq<char>, b: Seq<char>)
    requires
        !ends_with(a, " >>"@),
    ensures
        forall|j: int|
            0 <= j < a.len() && #[trigger] occurs_at(a + " >> "@ + b, " >> "@, j) ==> j
                + " >> "@.len() <= a.len(),
{
    let sep = " >> "@;
    let s = a + sep + b;
    let n = a.len() as int;
    reveal_strlit(" >> ");
    reveal_strlit(" >>");
    assert forall|j: int| 0 <= j < n && #[trigger] occurs_at(s, sep, j) implies j + sep.len()
        <= n by {
        let part = s.subrange(j, j + 4);
        assert(part[0] == ' ' && part[1] == '>' && part[2] == '>' && part[3] == ' ');
        assert(part[1] == s[j + 1] && part[2] == s[j + 2] && part[3] == s[j + 3]);
        assert(s[n] == ' ' && s[n + 1] == '>' && s[n + 2] == '>');
        if j + 3 == n {
            assert(a.subrange(j, n) =~= " >>"@);
        }
    }
}

/// The steps of `a >> b` are those of `a` and then those of `b`.
pub proof fn lemma_joined_steps(a: Seq<char>, b: Seq<char>)
    requires
        !ends_with(a, " >>"@),
    ensures
        locator_steps(a + " >> "@ + b) == locator_steps(a) + locator_steps(b),
{
    let sep = " >> "@;
    lemma_separator_stays(a, b);
    reveal_strlit(" >> ");
    lemma_split_append(a, sep, b);
    lemma_chain_steps_add(split(a, sep), split(b, sep));
}

/// The locator `a >> b` runs the steps of `b` on what `a` leads to.
pub proof fn lemma_joined_locator(
    nodes: Seq<ElementData>,
    root: usize,
    a: Seq<char>,
    b: Seq<char>,
)
    requires
        !ends_with(a, " >>"@),
        locator_steps(a).len() > 0,
    ensures
        located(nodes, root, a + " >> "@ + b) == run_steps(
            nodes,
            located(nodes, root, a),
            locator_steps(b),
        ),
{
    lemma_joined_steps(a, b);
    let first = locator_steps(a);
    let second = locator_steps(b);
    let all = first + second;
    let found = search(nodes, seq![root], first[0].sel, first[0].direct);
    lemma_run_steps_split(nodes, found, all.skip(1), first.len() - 1);
    assert(all.skip(1).take(first.len() - 1) =~= first.skip(1));
    assert(all.skip(1).skip(first.len() - 1) =~= second);
    assert(all[0] == first[0]);
}

/// The locator `a >> b`, where `b` is one step, makes that step on what `a` leads
/// to.
pub proof fn lemma_last_step(nodes: Seq<ElementData>, root: usize, a: Seq<char>, b: Seq<char>)
    requires
        !ends_with(a, " >>"@),
        locator_steps(a).len() > 0,
        is_one_step(b),
    ensures
        located(nodes, root, a + " >> "@ + b) == step_result(
            nodes,
            located(nodes, root, a),
            Step { direct: false, sel: b },
        ),
{
    lemma_joined_locator(nodes, root, a, b);
    lemma_one_step_steps(b);
    let steps = locator_steps(b);
    let found = located(nodes, root, a);
    assert(steps.drop_last() =~= Seq::empty());
    assert(run_steps(nodes, found, steps.drop_last()) == found);
}

proof fn lemma_one_step_steps(sel: Seq<char>)
    requires
        is_one_step(sel),
    ensures
        locator_steps(sel) == seq![Step { direct: false, sel }],
{
    reveal_strlit(" >> ");
    lemma_find(sel, " >> "@);
    lemma_one_segment(sel);
    let segments = split(sel, " >> "@);
    assert(segments =~= seq![sel]);
    assert(segments.drop_last() =~= Seq::empty());
    assert(chain_steps(segments.drop_last()) =~= Seq::empty());
    assert(locator_steps(sel) =~= seq![Step { direct: false, sel }]);
}

/// A locator `a >> b` leads to everything that matches `b` below what matches
/// `a`.
pub proof fn lemma_two_step_locator(
    nodes: Seq<ElementData>,
    root: usize,
    a: Seq<char>,
    b: Seq<char>,
)
    requires
        is_one_step(a),
        is_one_step(b),
        !ends_with(a, " >>"@),
        !is_selection(b),
    ensures
        located(nodes, root, a + " >> "@ + b) == search(
            nodes,
            matching_below(nodes, root, a, LOCATE_DEPTH as nat),
            b,
            false,
        ),
{
    lemma_one_step_steps(a);
    lemma_one_step_locator(nodes, root, a);
    lemma_last_step(nodes, root, a, b);
}

/// `a >> first` leads to the first element that `a` leads to, and `a >> last` to
/// the last.
pub proof fn lemma_first_and_last(nodes: Seq<ElementData>, root: usize, a: Seq<char>)
    requires
        !ends_with(a, " >>"@),
        locator_steps(a).len() > 0,
    ensures
        located(nodes, root, a + " >> "@ + "first"@) == pick(located(nodes, root, a), 0),
        located(nodes, root, a + " >> "@ + "last"@) == pick(located(nodes, root, a), -1),
{
    reveal_strlit("first");
    reveal_strlit("last");
    reveal_strlit("nth=");
    lemma_word_is_one_step("first"@);
    lemma_word_is_one_step("last"@);
    assert("first"@[0] == 'f' && "last"@[0] == 'l' && "nth="@[0] == 'n');
    assert("first"@.subrange(0, 4)[0] == 'f');
    assert("last"@.subrange(0, 4)[0] == 'l');
    lemma_last_step(nodes, root, a, "first"@);
    lemma_last_step(nodes, root, a, "last"@);
}

/// A text without white space is one step.
proof fn lemma_word_is_one_step(s: Seq<char>)
    requires
        s.len() > 0,
        forall|k: int| 0 <= k < s.len() ==> !white_space(#[trigger] s[k]),
    ensures
        is_one_step(s),
{
    reveal_strlit(" >> ");
    reveal_strlit(" > ");
    assert(!spaces()(s[0]) && !spaces()(s.last()));
    lemma_missing_char(s, " >> "@, 0);
    lemma_missing_char(s, " > "@, 0);
}

/// A number reads back as it is written.
proof fn lemma_signed_reads_back(n: int)
    requires
        isize::MIN <= n <= isize::MAX,
    ensures
        parse_signed(signed_decimal(n)) == Some(n),
        forall|k: int|
            0 <= k < signed_decimal(n).len() ==> !white_space(#[trigger] signed_decimal(n)[k]),
{
    let digits = signed_decimal(n);
    reveal_strlit("-");
    let body = decimal(if n < 0 { (-n) as nat } else { n as nat });
    lemma_decimal_reads_back(if n < 0 { (-n) as nat } else { n as nat });
    assert forall|k: int| 0 <= k < digits.len() implies !white_space(#[trigger] digits[k]) by {
        if n < 0 {
            if k > 0 {
                assert(digits[k] == body[k - 1]);
                assert(is_digit(body[k - 1]));
            }
        } else {
            assert(is_digit(body[k]));
        }
    }
    assert(is_digit(body[0]));
    if n < 0 {
        assert(digits[0] == '-');
        assert(digits.skip(1) =~= body);
    } else {
        assert(digits[0] == body[0]);
    }
}

/// `nth=N` selects element number `N`, from 0, or counted from the end where `N`
/// is negative, and nothing where there is none. `first` is `nth=0` and `last` is
/// `nth=-1`. It makes no difference whether the step is one for children only.
pub proof fn lemma_selection_steps(
    nodes: Seq<ElementData>,
    ids: Seq<usize>,
    direct: bool,
    n: int,
)
    requires
        isize::MIN <= n <= isize::MAX,
    ensures
        step_result(nodes, ids, (Step { direct, sel: "nth="@ + signed_decimal(n) })) == if 0 <= n
            < ids.len() {
            seq![ids[n]]
        } else if n < 0 && -n <= ids.len() {
            seq![ids[ids.len() + n]]
        } else {
            Seq::<usize>::empty()
        },
        step_result(nodes, ids, (Step { direct, sel: "first"@ })) == step_result(
            nodes,
            ids,
            (Step { direct, sel: "nth="@ + signed_decimal(0) }),
        ),
        step_result(nodes, ids, (Step { direct, sel: "last"@ })) == step_result(
            nodes,
            ids,
            (Step { direct, sel: "nth="@ + signed_decimal(-1) }),
        ),
{
    lemma_nth_step(nodes, ids, direct, n);
    lemma_nth_step(nodes, ids, direct, 0);
    lemma_nth_step(nodes, ids, direct, -1);
    reveal_strlit("first");
    reveal_strlit("last");
    reveal_strlit("nth=");
    assert("first"@[0] == 'f' && "last"@[0] == 'l' && "nth="@[0] == 'n');
    assert("first"@.subrange(0, 4)[0] == 'f');
    assert("last"@.subrange(0, 4)[0] == 'l');
}

proof fn lemma_nth_step(nodes: Seq<ElementData>, ids: Seq<usize>, direct: bool, n: int)
    requires
        isize::MIN <= n <= isize::MAX,
    ensures
        step_result(nodes, ids, (Step { direct, sel: "nth="@ + signed_decimal(n) })) == pick(
            ids,
            n,
        ),
{
    let digits = signed_decimal(n);
    let sel = "nth="@ + digits;
    reveal_strlit("nth=");
    lemma_signed_reads_back(n);
    assert(sel.subrange(0, 4) =~= "nth="@);
    assert(sel.skip(4) =~= digits);
}

/// `nth=` with anything but an integer selects nothing.
pub proof fn lemma_bad_number_selects_nothing(
    nodes: Seq<ElementData>,
    ids: Seq<usize>,
    direct: bool,
    text: Seq<char>,
)
    requires
        parse_signed(text) is None,
    ensures
        step_result(nodes, ids, (Step { direct, sel: "nth="@ + text })) == Seq::<usize>::empty(),
{
    let sel = "nth="@ + text;
    reveal_strlit("nth=");
    assert(sel.subrange(0, 4) =~= "nth="@);
    assert(sel.skip(4) =~= text);
}

/// `a >> nth=N` leads to element number `N`, from 0, of what `a` leads to, or
/// counted from the end where `N` is negative.
pub proof fn lemma_nth(nodes: Seq<ElementData>, root: usize, a: Seq<char>, n: int)
    requires
        !ends_with(a, " >>"@),
        locator_steps(a).len() > 0,
        isize::MIN <= n <= isize::MAX,
    ensures
        located(nodes, root, a + " >> "@ + ("nth="@ + signed_decimal(n))) == pick(
            located(nodes, root, a),
            n,
        ),
{
    let digits = signed_decimal(n);
    let b = "nth="@ + digits;
    reveal_strlit("nth=");
    lemma_signed_reads_back(n);
    assert forall|k: int| 0 <= k < b.len() implies !white_space(#[trigger] b[k]) by {
        if k < 4 {
            assert(b[k] == "nth="@[k]);
        } else {
            assert(b[k] == digits[k - 4]);
        }
    }
    lemma_word_is_one_step(b);
    assert(b.subrange(0, 4) =~= "nth="@);
    assert(b.skip(4) =~= digits);
    lemma_last_step(nodes, root, a, b);
}

/// `sel >> nth=N` selects among everything that matches the selector.
pub proof fn lemma_one_step_nth(nodes: Seq<ElementData>, root: usize, sel: Seq<char>, n: int)
    requires
        is_one_step(sel),
        !ends_with(sel, " >>"@),
        isize::MIN <= n <= isize::MAX,
    ensures
        located(nodes, root, sel + " >> "@ + ("nth="@ + signed_decimal(n))) == pick(
            matching_below(nodes, root, sel, LOCATE_DEPTH as nat),
            n,
        ),
{
    lemma_one_step_steps(sel);
    lemma_nth(nodes, root, sel, n);
    lemma_one_step_locator(nodes, root, sel);
}

/// A locator `a > b` leads to the children that match `b` of what matches `a`.
#[verifier::rlimit(50)]
pub proof fn lemma_child_locator(nodes: Seq<ElementData>, root: usize, a: Seq<char>, b: Seq<char>)
    requires
        is_one_step(a),
        is_one_step(b),
        !ends_with(a, " >"@),
        !ends_with(a, " >>"@),
        !starts_with(b, ">> "@),
        !is_selection(b),
    ensures
        located(nodes, root, a + " > "@ + b) == search(
            nodes,
            matching_below(nodes, root, a, LOCATE_DEPTH as nat),
            b,
            true,
        ),
{
    let sep = " > "@;
    let s = a + sep + b;
    let n = a.len() as int;
    reveal_strlit(" > ");
    reveal_strlit(" >> ");
    reveal_strlit(" >>");
    reveal_strlit(" >");
    reveal_strlit(">> ");
    assert(s[n] == ' ' && s[n + 1] == '>' && s[n + 2] == ' ');
    // No longer separator stands in the locator.
    assert forall|j: int| !occurs_at(s, " >> "@, j) by {
        if occurs_at(s, " >> "@, j) {
            let part = s.subrange(j, j + 4);
            assert(part[0] == ' ' && part[1] == '>' && part[2] == '>' && part[3] == ' ');
            assert(part[1] == s[j + 1] && part[2] == s[j + 2] && part[3] == s[j + 3]);
            if j + 4 <= n {
                assert(a.subrange(j, j + 4) =~= part);
                assert(occurs_at(a, " >> "@, j));
            } else if j + 3 == n {
                assert(a.subrange(j, n) =~= " >>"@);
            } else if j == n + 2 {
                assert(b.subrange(0, 3) =~= ">> "@);
            } else if j >= n + 3 {
                assert(b.subrange(j - n - 3, j - n + 1) =~= part);
                assert(occurs_at(b, " >> "@, j - n - 3));
            }
        }
    }
    lemma_find(s, " >> "@);
    assert(split(s, " >> "@) =~= seq![s]);
    // The shorter one stands between the two steps.
    assert forall|j: int| 0 <= j < n && #[trigger] occurs_at(s, sep, j) implies j + sep.len()
        <= n by {
        let part = s.subrange(j, j + 3);
        assert(part[0] == ' ' && part[1] == '>' && part[2] == ' ');
        assert(part[1] == s[j + 1] && part[2] == s[j + 2]);
        if j + 2 == n {
            assert(a.subrange(j, n) =~= " >"@);
        }
    }
    lemma_split_append(a, sep, b);
    lemma_find(a, sep);
    lemma_find(b, sep);
    let parts = split(s, sep);
    assert(parts =~= seq![a, b]);
    assert(parts.drop_last() =~= seq![a]);
    assert(seq![a].drop_last() =~= Seq::<Seq<char>>::empty());
    let one = Step { direct: false, sel: a };
    let two = Step { direct: true, sel: b };
    assert(segment_steps(seq![a].drop_last()) =~= Seq::empty());
    assert(segment_steps(seq![a]) =~= seq![one]);
    assert(segment_steps(parts) =~= seq![one, two]);
    assert(seq![s].drop_last() =~= Seq::<Seq<char>>::empty());
    assert(chain_steps(seq![s].drop_last()) =~= Seq::empty());
    assert(locator_steps(s) =~= seq![one, two]);
    let rest = locator_steps(s).skip(1);
    assert(rest =~= seq![two]);
    assert(rest.drop_last() =~= Seq::empty());
    lemma_search_one(nodes, root, a);
    let found = matching_below(nodes, root, a, LOCATE_DEPTH as nat);
    assert(run_steps(nodes, found, rest.drop_last()) == found);
    assert(run_steps(nodes, found, rest) == step_result(nodes, found, two));
}

/// ` > b` behind a locator adds one step, which looks at the direct children,
/// whatever steps stand before it.
#[verifier::rlimit(50)]
pub proof fn lemma_child_step(a: Seq<char>, b: Seq<char>)
    requires
        is_one_step(b),
        !ends_with(a, " >"@),
        !ends_with(a, " >>"@),
        !starts_with(b, ">> "@),
    ensures
        locator_steps(a + " > "@ + b) == locator_steps(a).push(Step { direct: true, sel: b }),
{
    let t = " > "@ + b;
    let s = a + t;
    assert(a + " > "@ + b =~= s);
    lemma_no_longer_separator(a, b);
    reveal_strlit(" >> ");
    lemma_split_extend(a, " >> "@, t);
    let segments = split(a, " >> "@);
    let last = segments.last();
    lemma_split_nonempty(a, " >> "@);
    lemma_split_last(a, " >> "@);
    let more = segments.drop_last().push(last + t);
    assert(more.drop_last() =~= segments.drop_last());
    lemma_last_part(a, last, b);
    assert(last + " > "@ + b =~= last + t);
    let parts = split(last, " > "@);
    lemma_split_nonempty(last, " > "@);
    assert(parts.push(b).drop_last() =~= parts);
    let step = Step { direct: true, sel: b };
    assert(segment_steps(parts.push(b)) == segment_steps(parts).push(step));
    let front = chain_steps(segments.drop_last());
    assert(chain_steps(more) == front + segment_steps(parts).push(step));
    assert(front + segment_steps(parts).push(step) =~= (front + segment_steps(parts)).push(step));
}

/// No ` >> ` reaches from `a` into ` > b`.
proof fn lemma_no_longer_separator(a: Seq<char>, b: Seq<char>)
    requires
        is_one_step(b),
        !ends_with(a, " >>"@),
        !starts_with(b, ">> "@),
    ensures
        forall|j: int|
            0 <= j && #[trigger] occurs_at(a + (" > "@ + b), " >> "@, j) ==> j + " >> "@.len()
                <= a.len(),
{
    let s = a + (" > "@ + b);
    let n = a.len() as int;
    reveal_strlit(" > ");
    reveal_strlit(" >> ");
    reveal_strlit(" >>");
    reveal_strlit(">> ");
    assert(s[n] == ' ' && s[n + 1] == '>' && s[n + 2] == ' ');
    assert forall|j: int| 0 <= j && #[trigger] occurs_at(s, " >> "@, j) implies j + " >> "@.len()
        <= n by {
        let part = s.subrange(j, j + 4);
        assert(part[0] == ' ' && part[1] == '>' && part[2] == '>' && part[3] == ' ');
        assert(part[1] == s[j + 1] && part[2] == s[j + 2] && part[3] == s[j + 3]);
        if j + 3 == n {
            assert(a.subrange(j, n) =~= " >>"@);
        } else if j == n + 2 {
            assert(b.subrange(0, 3) =~= ">> "@);
        } else if j >= n + 3 {
            assert(b.subrange(j - n - 3, j - n + 1) =~= part);
            assert(occurs_at(b, " >> "@, j - n - 3));
        }
    }
}

/// ` > ` splits `b` from the last segment of `a`.
proof fn lemma_last_part(a: Seq<char>, last: Seq<char>, b: Seq<char>)
    requires
        is_one_step(b),
        !ends_with(a, " >"@),
        last.len() <= a.len(),
        a.skip(a.len() - last.len()) == last,
    ensures
        split(last + " > "@ + b, " > "@) == split(last, " > "@).push(b),
{
    let sep = " > "@;
    let s = last + sep + b;
    let n = last.len() as int;
    reveal_strlit(" > ");
    reveal_strlit(" >");
    assert(s[n] == ' ' && s[n + 1] == '>' && s[n + 2] == ' ');
    assert forall|j: int| 0 <= j < n && #[trigger] occurs_at(s, sep, j) implies j + sep.len()
        <= n by {
        let part = s.subrange(j, j + 3);
        assert(part[0] == ' ' && part[1] == '>' && part[2] == ' ');
        assert(part[1] == s[j + 1] && part[2] == s[j + 2]);
        if j + 2 == n {
            assert(a.subrange(a.len() - 2, a.len() as int) =~= last.subrange(n - 2, n)) by {
                assert(a.skip(a.len() - n)[n - 2] == a[a.len() - 2]);
                assert(a.skip(a.len() - n)[n - 1] == a[a.len() - 1]);
            }
            assert(last.subrange(n - 2, n) =~= " >"@);
        }
    }
    lemma_split_append(last, sep, b);
    lemma_find(b, sep);
    assert(split(b, sep) =~= seq![b]);
    assert(split(last, sep) + seq![b] =~= split(last, sep).push(b));
}

/// The steps of `a0 > a1 > .. > an`: the first looks at everything below, and each
/// of the others at the direct children.
#[verifier::rlimit(50)]
pub proof fn lemma_child_chain(parts: Seq<Seq<char>>)
    requires
        parts.len() > 0,
        forall|k: int|
            0 <= k < parts.len() ==> is_one_step(#[trigger] parts[k]) && parts[k][0] != '>'
                && parts[k].last() != '>',
    ensures
        locator_steps(join(parts, " > "@)) == Seq::new(
            parts.len(),
            |k: int| Step { direct: k > 0, sel: parts[k] },
        ),
    decreases parts.len(),
{
    let wanted = Seq::new(parts.len(), |k: int| Step { direct: k > 0, sel: parts[k] });
    assert(is_one_step(parts[0]));
    if parts.len() == 1 {
        lemma_one_step_steps(parts[0]);
        assert(locator_steps(join(parts, " > "@)) =~= wanted);
    } else {
        let front = parts.drop_last();
        let b = parts.last();
        let a = join(front, " > "@);
        assert(b == parts[parts.len() - 1]);
        assert forall|k: int| 0 <= k < front.len() implies is_one_step(#[trigger] front[k])
            && front[k][0] != '>' && front[k].last() != '>' by {
            assert(front[k] == parts[k]);
        }
        lemma_child_chain(front);
        lemma_join_end(front, " > "@);
        reveal_strlit(" >");
        reveal_strlit(" >>");
        reveal_strlit(">> ");
        assert(front.last() == front[front.len() - 1]);
        if ends_with(a, " >"@) {
            assert(a.subrange(a.len() - 2, a.len() as int)[1] == a.last());
        }
        if ends_with(a, " >>"@) {
            assert(a.subrange(a.len() - 3, a.len() as int)[2] == a.last());
        }
        if starts_with(b, ">> "@) {
            assert(b.subrange(0, 3)[0] == b[0]);
        }
        lemma_child_step(a, b);
        assert(locator_steps(join(parts, " > "@)) =~= wanted);
    }
}

proof fn lemma_join_end(parts: Seq<Seq<char>>, sep: Seq<char>)
    requires
        parts.len() > 0,
        parts.last().len() > 0,
    ensures
        join(parts, sep).len() > 0,
        join(parts, sep).last() == parts.last().last(),
{
}

/// What a search finds below some elements: what matches among the children of one
/// of them, or up to 50 levels below one of them.
#[verifier::rlimit(50)]
pub proof fn lemma_search_finds(
    nodes: Seq<ElementData>,
    ids: Seq<usize>,
    sel: Seq<char>,
    direct: bool,
    z: usize,
)
    ensures
        search(nodes, ids, sel, direct).contains(z) <==> selector_matches(nodes, z, sel) && exists|
            y: usize,
        | #[trigger]
            ids.contains(y) && if direct {
                child_ids(nodes, y).contains(z)
            } else {
                descendants(nodes, y, 50).contains(z)
            },
    decreases ids.len(),
{
    if ids.len() > 0 {
        let front = ids.drop_last();
        let last = ids.last();
        lemma_search_finds(nodes, front, sel, direct, z);
        let a = search(nodes, front, sel, direct);
        let b = scope_matches(nodes, last, sel, direct);
        let whole = if direct {
            child_ids(nodes, last)
        } else {
            descendants(nodes, last, 50)
        };
        lemma_filter_has(whole, matched_by(nodes, sel), z);
        lemma_either_contains(a, b, z);
        assert(ids[ids.len() - 1] == last);
        assert(b == whole.filter(matched_by(nodes, sel)));
        assert(b.contains(z) <==> whole.contains(z) && selector_matches(nodes, z, sel));
        if a.contains(z) {
            let y = choose|y: usize| #[trigger]
                front.contains(y) && if direct {
                    child_ids(nodes, y).contains(z)
                } else {
                    descendants(nodes, y, 50).contains(z)
                };
            let k = choose|k: int| 0 <= k < front.len() && front[k] == y;
            assert(ids[k] == y);
            assert(ids.contains(y));
        }
        if b.contains(z) {
            assert(ids.contains(last));
        }
        if exists|y: usize| #[trigger]
            ids.contains(y) && if direct {
                child_ids(nodes, y).contains(z)
            } else {
                descendants(nodes, y, 50).contains(z)
            } {
            let y = choose|y: usize| #[trigger]
                ids.contains(y) && if direct {
                    child_ids(nodes, y).contains(z)
                } else {
                    descendants(nodes, y, 50).contains(z)
                };
            let k = choose|k: int| 0 <= k < ids.len() && ids[k] == y;
            if k < front.len() {
                assert(front[k] == y);
                assert(front.contains(y));
            }
        }
    }
}

proof fn lemma_filter_has(s: Seq<usize>, pred: spec_fn(usize) -> bool, x: usize)
    ensures
        s.filter(pred).contains(x) <==> s.contains(x) && pred(x),
{
    if s.contains(x) && pred(x) {
        let m = choose|m: int| 0 <= m < s.len() && s[m] == x;
        s.lemma_filter_contains(pred, m);
    }
    if s.filter(pred).contains(x) {
        s.lemma_filter_contains_rev(pred, x);
        let m = choose|m: int| 0 <= m < s.filter(pred).len() && s.filter(pred)[m] == x;
        s.lemma_filter_pred(pred, m);
    }
}

proof fn lemma_either_contains(a: Seq<usize>, b: Seq<usize>, x: usize)
    ensures
        (a + b).contains(x) <==> a.contains(x) || b.contains(x),
{
    if (a + b).contains(x) {
        let m = choose|m: int| 0 <= m < (a + b).len() && (a + b)[m] == x;
        if m < a.len() {
            assert(a[m] == x);
        } else {
            assert(b[m - a.len()] == x);
        }
    }
    if a.contains(x) {
        let m = choose|m: int| 0 <= m < a.len() && a[m] == x;
        assert((a + b)[m] == x);
    }
    if b.contains(x) {
        let m = choose|m: int| 0 <= m < b.len() && b[m] == x;
        assert((a + b)[a.len() + m] == x);
    }
}

/// What a locator ending in ` > b` leads to: the elements that match `b` among the
/// children of those that the locator before it leads to.
pub proof fn lemma_leads_to_children(
    nodes: Seq<ElementData>,
    root: usize,
    a: Seq<char>,
    b: Seq<char>,
    z: usize,
)
    requires
        is_one_step(b),
        !is_selection(b),
        !ends_with(a, " >"@),
        !ends_with(a, " >>"@),
        !starts_with(b, ">> "@),
        locator_steps(a).len() > 0,
    ensures
        located(nodes, root, a + " > "@ + b).contains(z) <==> selector_matches(nodes, z, b)
            && exists|y: usize| #[trigger]
            located(nodes, root, a).contains(y) && child_ids(nodes, y).contains(z),
{
    lemma_child_step(a, b);
    let first = locator_steps(a);
    let step = Step { direct: true, sel: b };
    let all = first.push(step);
    let found = search(nodes, seq![root], first[0].sel, first[0].direct);
    assert(all[0] == first[0]);
    assert(all.skip(1) =~= first.skip(1).push(step));
    assert(all.skip(1).drop_last() =~= first.skip(1));
    assert(located(nodes, root, a + " > "@ + b) == step_result(
        nodes,
        located(nodes, root, a),
        step,
    ));
    lemma_search_finds(nodes, located(nodes, root, a), b, true, z);
}

/// What a locator ending in ` >> b` leads to: the elements that match `b` up to 50
/// levels below those that the locator before it leads to.
pub proof fn lemma_leads_below(
    nodes: Seq<ElementData>,
    root: usize,
    a: Seq<char>,
    b: Seq<char>,
    z: usize,
)
    requires
        is_one_step(b),
        !is_selection(b),
        !ends_with(a, " >>"@),
        locator_steps(a).len() > 0,
    ensures
        located(nodes, root, a + " >> "@ + b).contains(z) <==> selector_matches(nodes, z, b)
            && exists|y: usize| #[trigger]
            located(nodes, root, a).contains(y) && descendants(nodes, y, 50).contains(z),
{
    lemma_last_step(nodes, root, a, b);
    lemma_search_finds(nodes, located(nodes, root, a), b, false, z);
}

/// A locator of one selector leads to what matches it up to 50 levels below, in
/// the order in which it stands there.
pub proof fn lemma_leads_to_matches(nodes: Seq<ElementData>, root: usize, sel: Seq<char>, z: usize)
    requires
        is_one_step(sel),
    ensures
        located(nodes, root, sel) == descendants(nodes, root, 50).filter(
            |x: usize| selector_matches(nodes, x, sel),
        ),
        located(nodes, root, sel).contains(z) <==> selector_matches(nodes, z, sel) && descendants(
            nodes,
            root,
            50,
        ).contains(z),
{
    lemma_one_step_locator(nodes, root, sel);
    assert(matched_by(nodes, sel) =~= (|x: usize| selector_matches(nodes, x, sel)));
    lemma_filter_has(descendants(nodes, root, 50), matched_by(nodes, sel), z);
}

/// What the steps of a locator are.
pub proof fn lemma_step_views(s: &str)
    ensures
        LocatorStep::Descendant(s)@ == (Step { direct: false, sel: s@ }),
        LocatorStep::DirectChild(s)@ == (Step { direct: true, sel: s@ }),
{
}

/// Blank parts of a locator are no steps, and white space around a step does not
/// count.
pub proof fn lemma_blank_parts(parts: Seq<Seq<char>>, s: Seq<char>)
    ensures
        trim(s).len() == 0 ==> segment_steps(parts.push(s)) == segment_steps(parts),
        trim(s).len() > 0 ==> segment_steps(parts.push(s)) == segment_steps(parts).push(
            Step { direct: parts.len() > 0, sel: trim(s) },
        ),
{
    assert(parts.push(s).drop_last() =~= parts);
}

/// A locator without steps leads nowhere.
pub proof fn lemma_no_steps(nodes: Seq<ElementData>, root: usize, s: Seq<char>)
    requires
        locator_steps(s).len() == 0,
    ensures
        located(nodes, root, s) == Seq::<usize>::empty(),
{
}

/// Several elements are searched one after the other, each in the order in which
/// the elements stand below it.
pub proof fn lemma_search_in_order(
    nodes: Seq<ElementData>,
    ids: Seq<usize>,
    last: usize,
    sel: Seq<char>,
)
    ensures
        search(nodes, ids.push(last), sel, true) == search(nodes, ids, sel, true) + child_ids(
            nodes,
            last,
        ).filter(|x: usize| selector_matches(nodes, x, sel)),
        search(nodes, ids.push(last), sel, false) == search(nodes, ids, sel, false) + descendants(
            nodes,
            last,
            50,
        ).filter(|x: usize| selector_matches(nodes, x, sel)),
{
    assert(ids.push(last).drop_last() =~= ids);
    assert(matched_by(nodes, sel) =~= (|x: usize| selector_matches(nodes, x, sel)));
}

} // verus!

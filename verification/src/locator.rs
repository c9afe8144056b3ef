//! Lazy, chainable locators.
//!
//! A [`Locator`] holds an element to start from and a chain of steps. The
//! elements below are searched only when a method such as
//! [`Locator::resolve`] is called.

use vstd::prelude::*;
use crate::query::{
    accepted_by, attr_is, find_all, find_limited, found, lemma_found_prefix,
    lemma_some_static_text, query_accepts, some_contains, static_text_holds, static_texts,
    static_values, AXQuery, NodePredicate, Query, TEXT_DEPTH,
};
use crate::error::AxError;
use crate::node::{elements_of, is_node, lists_nodes, wrap_all, Asked, AXNode, Request};
use crate::number::{decimal, push_decimal};
use crate::text::{contains, contains_text, copy_opt, join, occurs_at, opt_text, same_text, views};
use crate::tree::{
    all_valid, attr_string_or_empty, child_ids, children, contains_id, descendants, first_of,
    ids_of, lemma_clip_full, lemma_subtrees_filter_step, limited, list_attr, lists, one_tree,
    subtrees, text_attr, text_attr_or_empty, tree_of, Element, ElementData,
};

verus! {

/// A lazy, composable element locator.
pub struct Locator<'a> {
    pub root: Element<'a>,
    pub steps: Vec<LocatorStep<'a>>,
}

/// A step of a locator.
pub enum LocatorStep<'a> {
    // Searches below each candidate.
    Role(String),
    RoleWithName(String, String),
    Text(String),
    Title(String),
    Description(String),
    DomId(String),
    DomClass(String),
    Query(AXQuery),
    // Leaves out candidates.
    Filter(FilterCriteria<'a>),
    // Selects a candidate.
    Nth(usize),
    First,
    Last,
}

/// Criteria for filtering candidates.
pub struct FilterCriteria<'a> {
    pub has_text: Option<String>,
    pub has_not_text: Option<String>,
    pub has: Option<Box<Locator<'a>>>,
    pub has_not: Option<Box<Locator<'a>>>,
    pub predicate: Option<NodePredicate>,
}

// ---------------------------------------------------------------------------
// Model
// ---------------------------------------------------------------------------

/// What a step of a locator does.
pub ghost enum StepModel {
    Role(Seq<char>),
    RoleWithName(Seq<char>, Seq<char>),
    Text(Seq<char>),
    Title(Seq<char>),
    Description(Seq<char>),
    DomId(Seq<char>),
    DomClass(Seq<char>),
    Query(Query),
    Filter(CriteriaModel),
    Nth(nat),
    First,
    Last,
}

/// What the criteria of a filter ask for.
pub ghost struct CriteriaModel {
    pub has_text: Option<Seq<char>>,
    pub has_not_text: Option<Seq<char>>,
    pub has: Option<LocatorModel>,
    pub has_not: Option<LocatorModel>,
    pub predicate: Option<Seq<usize>>,
}

/// Where a locator starts, and what its steps do.
pub ghost struct LocatorModel {
    pub nodes: Seq<ElementData>,
    pub root: usize,
    pub steps: Seq<StepModel>,
}

/// What a step does.
pub open spec fn step_model(step: LocatorStep<'_>) -> StepModel
    decreases step,
{
    match step {
        LocatorStep::Role(r) => StepModel::Role(r@),
        LocatorStep::RoleWithName(r, n) => StepModel::RoleWithName(r@, n@),
        LocatorStep::Text(t) => StepModel::Text(t@),
        LocatorStep::Title(t) => StepModel::Title(t@),
        LocatorStep::Description(d) => StepModel::Description(d@),
        LocatorStep::DomId(id) => StepModel::DomId(id@),
        LocatorStep::DomClass(c) => StepModel::DomClass(c@),
        LocatorStep::Query(q) => StepModel::Query(q@),
        LocatorStep::Filter(c) => StepModel::Filter(criteria_model(c)),
        LocatorStep::Nth(n) => StepModel::Nth(n as nat),
        LocatorStep::First => StepModel::First,
        LocatorStep::Last => StepModel::Last,
    }
}

/// What criteria ask for.
pub open spec fn criteria_model(c: FilterCriteria<'_>) -> CriteriaModel
    decreases c,
{
    CriteriaModel {
        has_text: opt_text(c.has_text),
        has_not_text: opt_text(c.has_not_text),
        has: match c.has {
            Some(l) => Some(locator_model(*l)),
            None => None,
        },
        has_not: match c.has_not {
            Some(l) => Some(locator_model(*l)),
            None => None,
        },
        predicate: match c.predicate {
            Some(p) => Some(p.accepted@),
            None => None,
        },
    }
}

/// Where a locator starts, and what its steps do.
pub open spec fn locator_model(l: Locator<'_>) -> LocatorModel
    decreases l,
{
    LocatorModel { nodes: l.root.nodes(), root: l.root.index(), steps: step_models(l.steps@) }
}

/// What a chain of steps does.
pub open spec fn step_models(v: Seq<LocatorStep<'_>>) -> Seq<StepModel>
    decreases v,
{
    if v.len() == 0 {
        Seq::empty()
    } else {
        step_models(v.drop_last()).push(step_model(v.last()))
    }
}

// ---------------------------------------------------------------------------
// What a chain of steps leads to
// ---------------------------------------------------------------------------

/// How far below a candidate a step searches.
pub const MAX_DEPTH: usize = 30;

/// How deep the text of a candidate is collected.
pub const FILTER_TEXT_DEPTH: usize = 15;

/// The step searches below each candidate.
pub open spec fn is_search(step: StepModel) -> bool {
    !(step is Filter || step is Nth || step is First || step is Last)
}

/// The attribute `name` of the element is the text `want`.
pub open spec fn attr_equals(
    nodes: Seq<ElementData>,
    name: Seq<char>,
    want: Seq<char>,
) -> spec_fn(usize) -> bool {
    |i: usize| text_attr(nodes, i, name) == Some(want)
}

/// The element has the name `name`: it is its title or its description.
pub open spec fn named(nodes: Seq<ElementData>, name: Seq<char>) -> spec_fn(usize) -> bool {
    |i: usize|
        text_attr_or_empty(nodes, i, "AXTitle"@) == name || text_attr_or_empty(
            nodes,
            i,
            "AXDescription"@,
        ) == name
}

/// Both conditions hold.
pub open spec fn both(p: spec_fn(usize) -> bool, q: spec_fn(usize) -> bool) -> spec_fn(
    usize,
) -> bool {
    |i: usize| p(i) && q(i)
}

/// The elements that a search step looks for.
pub open spec fn wanted(step: StepModel, nodes: Seq<ElementData>) -> spec_fn(usize) -> bool {
    match step {
        StepModel::Role(r) => attr_equals(nodes, "AXRole"@, r),
        StepModel::RoleWithName(r, n) => both(attr_equals(nodes, "AXRole"@, r), named(nodes, n)),
        StepModel::Text(t) => |i: usize|
            some_contains(static_texts(nodes, i, TEXT_DEPTH as nat), t),
        StepModel::Title(t) => attr_equals(nodes, "AXTitle"@, t),
        StepModel::Description(d) => attr_equals(nodes, "AXDescription"@, d),
        StepModel::DomId(id) => attr_equals(nodes, "AXDOMIdentifier"@, id),
        StepModel::DomClass(c) => |i: usize| list_attr(nodes, i, "AXDOMClassList"@).contains(c),
        StepModel::Query(q) => accepted_by(q, nodes),
        _ => |i: usize| false,
    }
}

/// The elements below each of `ids` that `pred` holds of, one of `ids` after the
/// other.
pub open spec fn below_each(
    nodes: Seq<ElementData>,
    ids: Seq<usize>,
    pred: spec_fn(usize) -> bool,
) -> Seq<usize>
    decreases ids.len(),
{
    if ids.len() == 0 {
        Seq::empty()
    } else {
        below_each(nodes, ids.drop_last(), pred) + descendants(
            nodes,
            ids.last(),
            MAX_DEPTH as nat,
        ).filter(pred)
    }
}

/// The text below element `i`.
pub open spec fn text_of(nodes: Seq<ElementData>, i: usize) -> Seq<char> {
    join(static_texts(nodes, i, FILTER_TEXT_DEPTH as nat), ""@)
}

/// Element `i` meets the criteria.
pub open spec fn keeps(c: CriteriaModel, nodes: Seq<ElementData>, i: usize) -> bool
    decreases c, 0int,
{
    &&& c.has_text matches Some(t) ==> contains(text_of(nodes, i), t)
    &&& c.has_not_text matches Some(t) ==> !contains(text_of(nodes, i), t)
    &&& match c.has {
        Some(l) => resolved(l.steps, nodes, seq![i]).len() > 0,
        None => true,
    }
    &&& match c.has_not {
        Some(l) => resolved(l.steps, nodes, seq![i]).len() == 0,
        None => true,
    }
    &&& c.predicate matches Some(p) ==> p.contains(i)
}

/// The elements that meet the criteria.
pub open spec fn kept_by(c: CriteriaModel, nodes: Seq<ElementData>) -> spec_fn(usize) -> bool
    decreases c, 1int,
{
    |i: usize| keeps(c, nodes, i)
}

/// Element `n` of `ids`, where there is one.
pub open spec fn nth_of(ids: Seq<usize>, n: nat) -> Seq<usize> {
    if n < ids.len() {
        seq![ids[n as int]]
    } else {
        Seq::empty()
    }
}

/// The last of `ids`, where there is one.
pub open spec fn last_of(ids: Seq<usize>) -> Seq<usize> {
    if ids.len() > 0 {
        seq![ids.last()]
    } else {
        Seq::empty()
    }
}

/// The candidates after a step that starts from the candidates `ids`.
pub open spec fn step_yields(step: StepModel, nodes: Seq<ElementData>, ids: Seq<usize>) -> Seq<
    usize,
>
    decreases step, 0int,
{
    match step {
        StepModel::Filter(c) => ids.filter(kept_by(c, nodes)),
        StepModel::Nth(n) => nth_of(ids, n),
        StepModel::First => nth_of(ids, 0),
        StepModel::Last => last_of(ids),
        _ => below_each(nodes, ids, wanted(step, nodes)),
    }
}

/// The candidates after the steps, taken in order, that start from the
/// candidates `ids`.
pub open spec fn resolved(steps: Seq<StepModel>, nodes: Seq<ElementData>, ids: Seq<usize>) -> Seq<
    usize,
>
    decreases steps, 0int,
{
    if steps.len() == 0 {
        ids
    } else {
        step_yields(steps.last(), nodes, resolved(steps.drop_last(), nodes, ids))
    }
}

impl<'a> FilterCriteria<'a> {
    /// The criteria that ask for nothing.
    pub open spec fn none() -> FilterCriteria<'a> {
        FilterCriteria {
            has_text: None,
            has_not_text: None,
            has: None,
            has_not: None,
            predicate: None,
        }
    }

    pub fn new() -> (r: Self)
        ensures
            r == Self::none(),
    {
        FilterCriteria {
            has_text: None,
            has_not_text: None,
            has: None,
            has_not: None,
            predicate: None,
        }
    }

    /// Require that the text below the element contains the given text.
    pub fn has_text(&mut self, text: &str) -> (r: &mut Self)
        ensures
            criteria_model(*r) == (CriteriaModel {
                has_text: Some(text@),
                ..criteria_model(*old(self))
            }),
            *final(self) == *final(r),
    {
        self.has_text = Some(text.to_owned());
        self
    }

    /// Require that the text below the element does not contain the given text.
    pub fn has_not_text(&mut self, text: &str) -> (r: &mut Self)
        ensures
            criteria_model(*r) == (CriteriaModel {
                has_not_text: Some(text@),
                ..criteria_model(*old(self))
            }),
            *final(self) == *final(r),
    {
        self.has_not_text = Some(text.to_owned());
        self
    }

    /// Require that the steps of a locator, taken from the element, lead to at
    /// least one element.
    pub fn has(&mut self, locator: Locator<'a>) -> (r: &mut Self)
        ensures
            criteria_model(*r) == (CriteriaModel {
                has: Some(locator_model(locator)),
                ..criteria_model(*old(self))
            }),
            *final(self) == *final(r),
    {
        self.has = Some(Box::new(locator));
        self
    }

    /// Require that the steps of a locator, taken from the element, lead to no
    /// element.
    pub fn has_not(&mut self, locator: Locator<'a>) -> (r: &mut Self)
        ensures
            criteria_model(*r) == (CriteriaModel {
                has_not: Some(locator_model(locator)),
                ..criteria_model(*old(self))
            }),
            *final(self) == *final(r),
    {
        self.has_not = Some(Box::new(locator));
        self
    }

    /// Require a condition of the caller's own.
    pub fn predicate(&mut self, f: NodePredicate) -> (r: &mut Self)
        ensures
            criteria_model(*r) == (CriteriaModel {
                predicate: Some(f.accepted@),
                ..criteria_model(*old(self))
            }),
            *final(self) == *final(r),
    {
        self.predicate = Some(f);
        self
    }
}

// ---------------------------------------------------------------------------
// Budgets
// ---------------------------------------------------------------------------

/// How many candidates a step can use. `usize::MAX` stands for all of them.
pub open spec fn budget_before(step: StepModel) -> usize {
    match step {
        StepModel::Nth(n) => if n < usize::MAX {
            (n + 1) as usize
        } else {
            usize::MAX
        },
        StepModel::First => 1,
        _ => usize::MAX,
    }
}

/// How many candidates each of the steps has to produce for the steps after it,
/// where the last has to produce `final_budget`.
pub open spec fn budgets(steps: Seq<StepModel>, final_budget: usize) -> Seq<usize> {
    Seq::new(
        steps.len(),
        |i: int|
            if i + 1 == steps.len() {
                final_budget
            } else {
                budget_before(steps[i + 1])
            },
    )
}

/// How many candidates a step must produce for the steps after it to be
/// answerable.
///
/// An `nth` step needs `n + 1` candidates and drops the rest. A `first` step
/// needs one. Any other step can use all of them.
pub fn budget_for(steps: &[LocatorStep<'_>], final_budget: usize) -> (r: Vec<usize>)
    ensures
        r@ == budgets(step_models(steps@), final_budget),
{
    let ghost models = step_models(steps@);
    proof {
        lemma_step_models(steps@);
    }
    let mut r: Vec<usize> = Vec::new();
    for i in 0..steps.len()
        invariant
            models == step_models(steps@),
            models.len() == steps@.len(),
            forall|j: int| 0 <= j < steps@.len() ==> #[trigger] models[j] == step_model(steps@[j]),
            r@ == budgets(models, final_budget).take(i as int),
    {
        let budget: usize = if i + 1 == steps.len() {
            final_budget
        } else {
            match &steps[i + 1] {
                LocatorStep::Nth(n) => n.saturating_add(1),
                LocatorStep::First => 1,
                _ => usize::MAX,
            }
        };
        r.push(budget);
        assert(r@ =~= budgets(models, final_budget).take(i + 1));
    }
    assert(budgets(models, final_budget).take(steps@.len() as int) =~= budgets(
        models,
        final_budget,
    ));
    r
}

/// The models of the steps, one by one.
pub proof fn lemma_step_models(v: Seq<LocatorStep<'_>>)
    ensures
        step_models(v).len() == v.len(),
        forall|j: int| 0 <= j < v.len() ==> #[trigger] step_models(v)[j] == step_model(v[j]),
    decreases v.len(),
{
    if v.len() > 0 {
        lemma_step_models(v.drop_last());
    }
}

/// Whether `n` results are enough.
fn enough(n: usize, budget: usize) -> (r: bool)
    ensures
        r == (budget != usize::MAX && n >= budget),
{
    budget != usize::MAX && n >= budget
}

/// What follows the first `limit` elements does not matter to `limited`.
proof fn lemma_limited_full(a: Seq<usize>, b: Seq<usize>, limit: usize)
    requires
        limit != usize::MAX,
        a.len() >= limit,
    ensures
        limited(a + b, limit) == limited(a, limit),
{
    lemma_clip_full(a, b, limit as nat);
}

// ---------------------------------------------------------------------------
// Step evaluation
// ---------------------------------------------------------------------------

/// What is found below the first `k` of `ids` is a prefix of what is found below
/// all of them.
proof fn lemma_below_prefix(
    nodes: Seq<ElementData>,
    ids: Seq<usize>,
    pred: spec_fn(usize) -> bool,
    k: int,
)
    requires
        0 <= k <= ids.len(),
    ensures
        below_each(nodes, ids.take(k), pred).is_prefix_of(below_each(nodes, ids, pred)),
    decreases ids.len() - k,
{
    if k == ids.len() {
        assert(ids.take(k) =~= ids);
    } else {
        lemma_below_prefix(nodes, ids, pred, k + 1);
        assert(ids.take(k + 1).drop_last() =~= ids.take(k));
    }
}

/// Where what is found below the first `k` of `ids` reaches the limit, the rest
/// does not matter.
proof fn lemma_below_enough(
    nodes: Seq<ElementData>,
    ids: Seq<usize>,
    pred: spec_fn(usize) -> bool,
    k: int,
    limit: usize,
)
    requires
        0 <= k <= ids.len(),
        limit != usize::MAX,
        below_each(nodes, ids.take(k), pred).len() >= limit,
    ensures
        limited(below_each(nodes, ids, pred), limit) == limited(
            below_each(nodes, ids.take(k), pred),
            limit,
        ),
{
    lemma_below_prefix(nodes, ids, pred, k);
    let front = below_each(nodes, ids.take(k), pred);
    let all = below_each(nodes, ids, pred);
    let rest = all.skip(front.len() as int);
    assert(all =~= front + rest);
    lemma_limited_full(front, rest, limit);
}

/// The first `budget` elements below the candidates that match `q`.
fn search_descendants<'a>(
    candidates: &Vec<Element<'a>>,
    q: &AXQuery,
    budget: usize,
    Ghost(nodes): Ghost<Seq<ElementData>>,
    Ghost(ids): Ghost<Seq<usize>>,
) -> (r: Vec<Element<'a>>)
    requires
        lists(candidates@, nodes, ids),
    ensures
        lists(r@, nodes, limited(below_each(nodes, ids, accepted_by(q@, nodes)), budget)),
{
    let ghost pred = accepted_by(q@, nodes);
    let mut results: Vec<Element<'a>> = Vec::new();
    for k in 0..candidates.len()
        invariant
            lists(candidates@, nodes, ids),
            pred == accepted_by(q@, nodes),
            lists(results@, nodes, limited(below_each(nodes, ids.take(k as int), pred), budget)),
    {
        let ghost front = below_each(nodes, ids.take(k as int), pred);
        let ghost own = found(q@, nodes, ids[k as int], MAX_DEPTH as nat);
        assert(ids.take(k + 1).drop_last() =~= ids.take(k as int));
        let remaining: usize = if budget == usize::MAX {
            usize::MAX
        } else {
            budget.saturating_sub(results.len())
        };
        if remaining == 0 {
            proof {
                lemma_below_enough(nodes, ids, pred, k as int, budget);
            }
            return results;
        }
        let mut matches = find_limited(candidates[k], q, MAX_DEPTH, remaining);
        assert(limited(front + own, budget) =~= limited(front, budget) + limited(own, remaining));
        results.append(&mut matches);
    }
    assert(ids.take(candidates@.len() as int) =~= ids);
    results
}

/// Two filters one after the other leave what both keep.
proof fn lemma_filter_both(s: Seq<usize>, p: spec_fn(usize) -> bool, q: spec_fn(usize) -> bool)
    ensures
        s.filter(p).filter(q) == s.filter(both(p, q)),
    decreases s.len(),
{
    reveal(Seq::filter);
    if s.len() > 0 {
        lemma_filter_both(s.drop_last(), p, q);
        if p(s.last()) {
            assert(s.filter(p).drop_last() =~= s.drop_last().filter(p));
        }
    }
}

/// Whether an element has the given name.
fn has_name(element: Element<'_>, name: &str) -> (r: bool)
    ensures
        r == named(element.nodes(), name@)(element.index()),
{
    let t = attr_string_or_empty(element, "AXTitle");
    let d = attr_string_or_empty(element, "AXDescription");
    same_text(t.as_str(), name) || same_text(d.as_str(), name)
}

/// Appends the elements with the given name, and stops where `results` holds
/// `budget` of them.
fn push_named<'a>(
    matches: &Vec<Element<'a>>,
    name: &str,
    budget: usize,
    results: &mut Vec<Element<'a>>,
    Ghost(nodes): Ghost<Seq<ElementData>>,
    Ghost(ids): Ghost<Seq<usize>>,
    Ghost(start): Ghost<Seq<usize>>,
)
    requires
        budget >= 1,
        lists(matches@, nodes, ids),
        lists(old(results)@, nodes, start),
        budget != usize::MAX ==> start.len() < budget,
    ensures
        lists(
            final(results)@,
            nodes,
            limited(start + ids.filter(named(nodes, name@)), budget),
        ),
{
    let ghost pred = named(nodes, name@);
    proof {
        reveal(Seq::filter);
    }
    assert(start + ids.take(0).filter(pred) =~= start);
    for k in 0..matches.len()
        invariant
            budget >= 1,
            lists(matches@, nodes, ids),
            pred == named(nodes, name@),
            lists(results@, nodes, start + ids.take(k as int).filter(pred)),
            budget != usize::MAX ==> results@.len() < budget,
    {
        let ghost front = ids.take(k as int).filter(pred);
        proof {
            reveal(Seq::filter);
            assert(ids.take(k + 1).drop_last() =~= ids.take(k as int));
            let rest = ids.skip(k + 1);
            assert(ids =~= ids.take(k + 1) + rest);
            Seq::filter_distributes_over_add(ids.take(k + 1), rest, pred);
            assert(start + ids.filter(pred) =~= (start + ids.take(k + 1).filter(pred))
                + rest.filter(pred));
            assert((start + front).push(ids[k as int]) =~= start + front.push(ids[k as int]));
        }
        let m = matches[k];
        if has_name(m, name) {
            results.push(m);
            if enough(results.len(), budget) {
                proof {
                    lemma_limited_full(
                        start + ids.take(k + 1).filter(pred),
                        ids.skip(k + 1).filter(pred),
                        budget,
                    );
                }
                return;
            }
        }
    }
    assert(ids.take(matches@.len() as int) =~= ids);
}

/// The first `budget` elements below the candidates with the given role and
/// name.
fn search_named<'a>(
    candidates: &Vec<Element<'a>>,
    role: &str,
    name: &str,
    budget: usize,
    Ghost(nodes): Ghost<Seq<ElementData>>,
    Ghost(ids): Ghost<Seq<usize>>,
) -> (r: Vec<Element<'a>>)
    requires
        budget >= 1,
        lists(candidates@, nodes, ids),
    ensures
        lists(
            r@,
            nodes,
            limited(
                below_each(
                    nodes,
                    ids,
                    both(attr_equals(nodes, "AXRole"@, role@), named(nodes, name@)),
                ),
                budget,
            ),
        ),
{
    let ghost by_role = attr_equals(nodes, "AXRole"@, role@);
    let ghost pred = both(by_role, named(nodes, name@));
    let mut results: Vec<Element<'a>> = Vec::new();
    for k in 0..candidates.len()
        invariant
            budget >= 1,
            lists(candidates@, nodes, ids),
            by_role == attr_equals(nodes, "AXRole"@, role@),
            pred == both(by_role, named(nodes, name@)),
            lists(results@, nodes, below_each(nodes, ids.take(k as int), pred)),
            budget != usize::MAX ==> results@.len() < budget,
    {
        let ghost front = below_each(nodes, ids.take(k as int), pred);
        let q = AXQuery::new().role(role);
        // The name is looked at after the search for the role, so that the
        // budget sets no limit to this search.
        let matches = find_all(candidates[k], &q, MAX_DEPTH);
        proof {
            assert(ids.take(k + 1).drop_last() =~= ids.take(k as int));
            assert(accepted_by(q@, nodes) =~= by_role);
            lemma_filter_both(
                descendants(nodes, ids[k as int], MAX_DEPTH as nat),
                by_role,
                named(nodes, name@),
            );
        }
        push_named(
            &matches,
            name,
            budget,
            &mut results,
            Ghost(nodes),
            Ghost(found(q@, nodes, ids[k as int], MAX_DEPTH as nat)),
            Ghost(front),
        );
        if enough(results.len(), budget) {
            proof {
                lemma_below_enough(nodes, ids, pred, k + 1, budget);
            }
            return results;
        }
    }
    assert(ids.take(candidates@.len() as int) =~= ids);
    results
}

/// Appends the elements up to `max_depth` levels below `root` whose attribute
/// `name` is `want`, and stops where `results` holds `limit` elements.
fn find_by_attr<'a>(
    root: Element<'a>,
    name: &str,
    want: &str,
    max_depth: usize,
    limit: usize,
    results: &mut Vec<Element<'a>>,
    Ghost(start): Ghost<Seq<usize>>,
)
    requires
        lists(old(results)@, root.nodes(), limited(start, limit)),
    ensures
        lists(
            final(results)@,
            root.nodes(),
            limited(
                start + descendants(root.nodes(), root.index(), max_depth as nat).filter(
                    attr_equals(root.nodes(), name@, want@),
                ),
                limit,
            ),
        ),
    decreases max_depth,
{
    let ghost nodes = root.nodes();
    let ghost pred = attr_equals(nodes, name@, want@);
    let ghost all = descendants(nodes, root.index(), max_depth as nat).filter(pred);
    proof {
        reveal(Seq::filter);
    }
    if max_depth == 0 {
        assert(start + all =~= start);
        return;
    }
    if enough(results.len(), limit) {
        proof {
            lemma_limited_full(start, all, limit);
        }
        return;
    }
    let ghost ids = child_ids(nodes, root.index());
    let ghost depth = max_depth as nat;
    let kids = children(root);
    assert(start + subtrees(nodes, ids.take(0), depth).filter(pred) =~= start);
    for k in 0..kids.len()
        invariant
            max_depth > 0,
            depth == max_depth,
            lists(kids@, nodes, ids),
            nodes == root.nodes(),
            ids == child_ids(nodes, root.index()),
            pred == attr_equals(nodes, name@, want@),
            all == descendants(nodes, root.index(), max_depth as nat).filter(pred),
            lists(
                results@,
                nodes,
                start + subtrees(nodes, ids.take(k as int), depth).filter(pred),
            ),
            limit != usize::MAX ==> results@.len() < limit,
    {
        let kid = kids[k];
        let ghost front = start + subtrees(nodes, ids.take(k as int), depth).filter(pred);
        let ghost own = if pred(ids[k as int]) {
            seq![ids[k as int]]
        } else {
            Seq::empty()
        };
        let ghost next = start + subtrees(nodes, ids.take(k + 1), depth).filter(pred);
        proof {
            lemma_subtrees_filter_step(nodes, ids, depth, k as int, pred);
            assert(next =~= front + own + descendants(
                nodes,
                ids[k as int],
                (depth - 1) as nat,
            ).filter(pred));
            lemma_found_prefix(nodes, ids, depth, k + 1, pred);
            let rest = all.skip(subtrees(nodes, ids.take(k + 1), depth).filter(pred).len() as int);
            assert(start + all =~= next + rest);
            if limit != usize::MAX && next.len() >= limit {
                lemma_limited_full(next, rest, limit);
            }
        }
        if attr_is(kid, name, want) {
            results.push(kid);
        }
        assert(limited(front + own, limit) =~= front + own);
        find_by_attr(kid, name, want, max_depth - 1, limit, results, Ghost(front + own));
        if enough(results.len(), limit) {
            return;
        }
        assert(limited(next, limit) =~= next);
    }
    assert(ids.take(kids@.len() as int) =~= ids);
    assert(limited(start + all, limit) =~= start + all);
}

/// The first `budget` elements below the candidates whose attribute `name` is
/// `want`.
fn search_by_attr<'a>(
    candidates: &Vec<Element<'a>>,
    name: &str,
    want: &str,
    budget: usize,
    Ghost(nodes): Ghost<Seq<ElementData>>,
    Ghost(ids): Ghost<Seq<usize>>,
) -> (r: Vec<Element<'a>>)
    requires
        lists(candidates@, nodes, ids),
    ensures
        lists(
            r@,
            nodes,
            limited(below_each(nodes, ids, attr_equals(nodes, name@, want@)), budget),
        ),
{
    let ghost pred = attr_equals(nodes, name@, want@);
    let mut results: Vec<Element<'a>> = Vec::new();
    for k in 0..candidates.len()
        invariant
            lists(candidates@, nodes, ids),
            pred == attr_equals(nodes, name@, want@),
            lists(results@, nodes, limited(below_each(nodes, ids.take(k as int), pred), budget)),
    {
        let ghost front = below_each(nodes, ids.take(k as int), pred);
        assert(ids.take(k + 1).drop_last() =~= ids.take(k as int));
        find_by_attr(candidates[k], name, want, MAX_DEPTH, budget, &mut results, Ghost(front));
        if enough(results.len(), budget) {
            proof {
                lemma_below_enough(nodes, ids, pred, k + 1, budget);
            }
            return results;
        }
    }
    assert(ids.take(candidates@.len() as int) =~= ids);
    results
}

/// What a step has to hand on of the candidates `all`: the first `budget` of
/// them, where it searches for them.
pub open spec fn produced(step: StepModel, all: Seq<usize>, budget: usize) -> Seq<usize> {
    if is_search(step) {
        limited(all, budget)
    } else {
        all
    }
}

/// The candidates after a step, or the first `budget` of them where the step
/// searches for them.
pub fn apply_step<'a>(
    step: &LocatorStep<'_>,
    candidates: &Vec<Element<'a>>,
    budget: usize,
) -> (r: Vec<Element<'a>>)
    requires
        budget >= 1,
        one_tree(candidates@),
    ensures
        lists(
            r@,
            tree_of(candidates@),
            produced(
                step_model(*step),
                step_yields(step_model(*step), tree_of(candidates@), ids_of(candidates@)),
                budget,
            ),
        ),
{
    all_valid(candidates);
    let ghost nodes = tree_of(candidates@);
    step_on(step, candidates, budget, Ghost(nodes), Ghost(ids_of(candidates@)))
}

fn step_on<'a>(
    step: &LocatorStep<'_>,
    candidates: &Vec<Element<'a>>,
    budget: usize,
    Ghost(nodes): Ghost<Seq<ElementData>>,
    Ghost(ids): Ghost<Seq<usize>>,
) -> (r: Vec<Element<'a>>)
    requires
        budget >= 1,
        lists(candidates@, nodes, ids),
    ensures
        lists(
            r@,
            nodes,
            produced(step_model(*step), step_yields(step_model(*step), nodes, ids), budget),
        ),
    decreases *step,
{
    let ghost model = step_model(*step);
    match step {
        LocatorStep::Role(role) => {
            let q = AXQuery::new().role(role.as_str());
            assert(accepted_by(q@, nodes) =~= wanted(model, nodes));
            search_descendants(candidates, &q, budget, Ghost(nodes), Ghost(ids))
        },
        LocatorStep::RoleWithName(role, name) => search_named(
            candidates,
            role.as_str(),
            name.as_str(),
            budget,
            Ghost(nodes),
            Ghost(ids),
        ),
        LocatorStep::Text(text) => {
            let q = AXQuery::new().has_text(text.as_str());
            assert(accepted_by(q@, nodes) =~= wanted(model, nodes));
            search_descendants(candidates, &q, budget, Ghost(nodes), Ghost(ids))
        },
        LocatorStep::Title(title) => {
            let q = AXQuery::new().title(title.as_str());
            assert(accepted_by(q@, nodes) =~= wanted(model, nodes));
            search_descendants(candidates, &q, budget, Ghost(nodes), Ghost(ids))
        },
        LocatorStep::Description(desc) => search_by_attr(
            candidates,
            "AXDescription",
            desc.as_str(),
            budget,
            Ghost(nodes),
            Ghost(ids),
        ),
        LocatorStep::DomId(id) => search_by_attr(
            candidates,
            "AXDOMIdentifier",
            id.as_str(),
            budget,
            Ghost(nodes),
            Ghost(ids),
        ),
        LocatorStep::DomClass(class) => {
            let q = AXQuery::new().dom_class(class.as_str());
            assert(accepted_by(q@, nodes) =~= wanted(model, nodes));
            search_descendants(candidates, &q, budget, Ghost(nodes), Ghost(ids))
        },
        LocatorStep::Query(q) => search_descendants(
            candidates,
            q,
            budget,
            Ghost(nodes),
            Ghost(ids),
        ),
        LocatorStep::Filter(criteria) => filter_candidates(
            candidates,
            criteria,
            Ghost(nodes),
            Ghost(ids),
        ),
        LocatorStep::First => pick_nth(candidates, 0, Ghost(nodes), Ghost(ids)),
        LocatorStep::Last => {
            let mut r: Vec<Element<'a>> = Vec::new();
            if candidates.len() > 0 {
                r.push(candidates[candidates.len() - 1]);
            }
            r
        },
        LocatorStep::Nth(n) => pick_nth(candidates, *n, Ghost(nodes), Ghost(ids)),
    }
}

/// Candidate `n`, where there is one.
fn pick_nth<'a>(
    candidates: &Vec<Element<'a>>,
    n: usize,
    Ghost(nodes): Ghost<Seq<ElementData>>,
    Ghost(ids): Ghost<Seq<usize>>,
) -> (r: Vec<Element<'a>>)
    requires
        lists(candidates@, nodes, ids),
    ensures
        lists(r@, nodes, nth_of(ids, n as nat)),
{
    let mut r: Vec<Element<'a>> = Vec::new();
    if n < candidates.len() {
        r.push(candidates[n]);
    }
    r
}

/// The candidates that meet the criteria.
fn filter_candidates<'a>(
    candidates: &Vec<Element<'a>>,
    criteria: &FilterCriteria<'_>,
    Ghost(nodes): Ghost<Seq<ElementData>>,
    Ghost(ids): Ghost<Seq<usize>>,
) -> (r: Vec<Element<'a>>)
    requires
        lists(candidates@, nodes, ids),
    ensures
        lists(r@, nodes, ids.filter(kept_by(criteria_model(*criteria), nodes))),
    decreases *criteria, 1int,
{
    let ghost pred = kept_by(criteria_model(*criteria), nodes);
    let mut r: Vec<Element<'a>> = Vec::new();
    proof {
        reveal(Seq::filter);
    }
    for k in 0..candidates.len()
        invariant
            lists(candidates@, nodes, ids),
            pred == kept_by(criteria_model(*criteria), nodes),
            lists(r@, nodes, ids.take(k as int).filter(pred)),
    {
        proof {
            reveal(Seq::filter);
            assert(ids.take(k + 1).drop_last() =~= ids.take(k as int));
        }
        let c = candidates[k];
        if matches_filter(c, criteria) {
            r.push(c);
        }
    }
    assert(ids.take(candidates@.len() as int) =~= ids);
    r
}

/// Whether an element meets the criteria.
pub fn matches_filter(node: Element<'_>, criteria: &FilterCriteria<'_>) -> (r: bool)
    ensures
        r == keeps(criteria_model(*criteria), node.nodes(), node.index()),
    decreases *criteria, 0int,
{
    if let Some(text) = &criteria.has_text {
        let texts = AXNode(node).text(FILTER_TEXT_DEPTH);
        if !contains_text(texts.as_str(), text.as_str()) {
            return false;
        }
    }
    if let Some(text) = &criteria.has_not_text {
        let texts = AXNode(node).text(FILTER_TEXT_DEPTH);
        if contains_text(texts.as_str(), text.as_str()) {
            return false;
        }
    }
    if let Some(sub) = &criteria.has {
        if resolve_steps(node, &sub.steps, usize::MAX).is_empty() {
            return false;
        }
    }
    if let Some(sub) = &criteria.has_not {
        if !resolve_steps(node, &sub.steps, usize::MAX).is_empty() {
            return false;
        }
    }
    if let Some(p) = &criteria.predicate {
        if !contains_id(&p.accepted, node.id()) {
            return false;
        }
    }
    true
}

/// What a chain of steps has to hand on of the candidates `all`: the first
/// `budget` of them, where its last step searches for them.
pub open spec fn chain_produced(steps: Seq<StepModel>, all: Seq<usize>, budget: usize) -> Seq<
    usize,
> {
    if steps.len() > 0 {
        produced(steps.last(), all, budget)
    } else {
        all
    }
}

/// A chain of steps that starts from no candidate leads to none.
pub proof fn lemma_resolved_empty(steps: Seq<StepModel>, nodes: Seq<ElementData>)
    ensures
        resolved(steps, nodes, Seq::empty()).len() == 0,
    decreases steps.len(),
{
    if steps.len() > 0 {
        lemma_resolved_empty(steps.drop_last(), nodes);
        let before = resolved(steps.drop_last(), nodes, Seq::empty());
        assert(before =~= Seq::empty());
        reveal(Seq::filter);
        assert(step_yields(steps.last(), nodes, before).len() == 0);
    }
}

/// Taking some steps and then the others is taking all.
pub proof fn lemma_resolved_split(
    a: Seq<StepModel>,
    b: Seq<StepModel>,
    nodes: Seq<ElementData>,
    ids: Seq<usize>,
)
    ensures
        resolved(a + b, nodes, ids) == resolved(b, nodes, resolved(a, nodes, ids)),
    decreases b.len(),
{
    if b.len() == 0 {
        assert(a + b =~= a);
    } else {
        lemma_resolved_split(a, b.drop_last(), nodes, ids);
        assert((a + b).drop_last() =~= a + b.drop_last());
    }
}

/// A step finds in the first `budget_before(step)` candidates what it finds in
/// all of them.
pub proof fn lemma_budget_before(step: StepModel, nodes: Seq<ElementData>, ids: Seq<usize>)
    ensures
        step_yields(step, nodes, limited(ids, budget_before(step))) == step_yields(
            step,
            nodes,
            ids,
        ),
{
}

/// The candidates after the steps, or the first `final_budget` of them where the
/// last step searches for them.
fn resolve_steps<'a>(root: Element<'a>, steps: &Vec<LocatorStep<'_>>, final_budget: usize) -> (r:
    Vec<Element<'a>>)
    requires
        final_budget >= 1,
    ensures
        lists(
            r@,
            root.nodes(),
            chain_produced(
                step_models(steps@),
                resolved(step_models(steps@), root.nodes(), seq![root.index()]),
                final_budget,
            ),
        ),
    decreases steps@,
{
    let ghost nodes = root.nodes();
    let ghost models = step_models(steps@);
    let ghost start = seq![root.index()];
    let ghost bs = budgets(models, final_budget);
    proof {
        lemma_step_models(steps@);
    }
    root.always_valid();
    let mut candidates: Vec<Element<'a>> = Vec::new();
    candidates.push(root);
    let budgets = budget_for(steps.as_slice(), final_budget);
    let ghost mut current = start;
    assert(models.take(0) =~= Seq::empty());
    for k in 0..steps.len()
        invariant
            final_budget >= 1,
            nodes == root.nodes(),
            start == seq![root.index()],
            models == step_models(steps@),
            models.len() == steps@.len(),
            forall|j: int| 0 <= j < steps@.len() ==> #[trigger] models[j] == step_model(steps@[j]),
            bs == crate::locator::budgets(models, final_budget),
            budgets@ == bs,
            lists(candidates@, nodes, current),
            k == 0 ==> current == start,
            k > 0 ==> current == produced(
                models[k - 1],
                resolved(models.take(k as int), nodes, start),
                bs[k - 1],
            ),
            k == 0 ==> resolved(models.take(k as int), nodes, start) == start,
    {
        let ghost full = resolved(models.take(k as int), nodes, start);
        let ghost model = models[k as int];
        proof {
            assert(models.take(k + 1).drop_last() =~= models.take(k as int));
            assert(models.take(k + 1).last() == model);
            lemma_budget_before(model, nodes, full);
            assert(step_model(steps@[k as int]) == model);
        }
        candidates = step_on(&steps[k], &candidates, budgets[k], Ghost(nodes), Ghost(current));
        proof {
            current = produced(model, step_yields(model, nodes, full), bs[k as int]);
        }
        if candidates.is_empty() {
            proof {
                let now = resolved(models.take(k + 1), nodes, start);
                assert(now =~= Seq::empty());
                let rest = models.skip(k + 1);
                assert(models =~= models.take(k + 1) + rest);
                lemma_resolved_split(models.take(k + 1), rest, nodes, start);
                lemma_resolved_empty(rest, nodes);
            }
            return Vec::new();
        }
    }
    assert(models.take(steps@.len() as int) =~= models);
    candidates
}

// ---------------------------------------------------------------------------
// Copies
// ---------------------------------------------------------------------------

/// A copy of a step, which does what the step does.
pub fn clone_step<'a>(step: &LocatorStep<'a>) -> (r: LocatorStep<'a>)
    ensures
        step_model(r) == step_model(*step),
    decreases *step,
{
    match step {
        LocatorStep::Role(r) => LocatorStep::Role(r.clone()),
        LocatorStep::RoleWithName(r, n) => LocatorStep::RoleWithName(r.clone(), n.clone()),
        LocatorStep::Text(t) => LocatorStep::Text(t.clone()),
        LocatorStep::Title(t) => LocatorStep::Title(t.clone()),
        LocatorStep::Description(d) => LocatorStep::Description(d.clone()),
        LocatorStep::DomId(id) => LocatorStep::DomId(id.clone()),
        LocatorStep::DomClass(c) => LocatorStep::DomClass(c.clone()),
        LocatorStep::Query(q) => LocatorStep::Query(q.clone()),
        LocatorStep::Filter(c) => {
            let criteria = FilterCriteria {
                has_text: copy_opt(&c.has_text),
                has_not_text: copy_opt(&c.has_not_text),
                has: match &c.has {
                    Some(l) => Some(
                        Box::new(Locator { root: l.root, steps: clone_steps(&l.steps) }),
                    ),
                    None => None,
                },
                has_not: match &c.has_not {
                    Some(l) => Some(
                        Box::new(Locator { root: l.root, steps: clone_steps(&l.steps) }),
                    ),
                    None => None,
                },
                predicate: match &c.predicate {
                    Some(p) => Some(p.clone()),
                    None => None,
                },
            };
            assert(criteria_model(criteria) == criteria_model(*c));
            LocatorStep::Filter(criteria)
        },
        LocatorStep::Nth(n) => LocatorStep::Nth(*n),
        LocatorStep::First => LocatorStep::First,
        LocatorStep::Last => LocatorStep::Last,
    }
}

/// A copy of a chain of steps.
fn clone_steps<'a>(steps: &Vec<LocatorStep<'a>>) -> (r: Vec<LocatorStep<'a>>)
    ensures
        step_models(r@) == step_models(steps@),
    decreases steps@,
{
    let mut r: Vec<LocatorStep<'a>> = Vec::new();
    for i in 0..steps.len()
        invariant
            step_models(r@) == step_models(steps@.take(i as int)),
    {
        let ghost before = r@;
        assert(steps@.take(i + 1).drop_last() =~= steps@.take(i as int));
        r.push(clone_step(&steps[i]));
        assert(r@.drop_last() =~= before);
    }
    assert(steps@.take(steps@.len() as int) =~= steps@);
    r
}

// ---------------------------------------------------------------------------
// Building locators
// ---------------------------------------------------------------------------

/// The step that searches for a role, and for a name where one is given.
pub open spec fn role_step(role: Seq<char>, name: Seq<char>) -> StepModel {
    if name.len() == 0 {
        StepModel::Role(role)
    } else {
        StepModel::RoleWithName(role, name)
    }
}

fn make_role_step<'a>(role: &str, name: &str) -> (r: LocatorStep<'a>)
    ensures
        step_model(r) == role_step(role@, name@),
{
    if name.is_empty() {
        LocatorStep::Role(role.to_owned())
    } else {
        LocatorStep::RoleWithName(role.to_owned(), name.to_owned())
    }
}

impl<'a> AXNode<'a> {
    /// The locator with one step.
    fn with_step(&self, step: LocatorStep<'a>) -> (r: Locator<'a>)
        ensures
            r.root == self.0,
            r.models() == seq![step_model(step)],
    {
        let mut steps: Vec<LocatorStep<'a>> = Vec::new();
        steps.push(step);
        assert(steps@.drop_last() =~= Seq::empty());
        assert(step_models(Seq::<LocatorStep<'a>>::empty()) =~= Seq::empty());
        Locator { root: self.0, steps }
    }

    /// A locator for the elements below with the given role and name.
    ///
    /// With an empty name, only the role counts.
    pub fn get_by_role(&self, role: &str, name: &str) -> (r: Locator<'a>)
        ensures
            r.root == self.0,
            r.models() == seq![role_step(role@, name@)],
    {
        self.with_step(make_role_step(role, name))
    }

    /// A locator for the elements below that contain `text` in their subtree.
    pub fn get_by_text(&self, text: &str) -> (r: Locator<'a>)
        ensures
            r.root == self.0,
            r.models() == seq![StepModel::Text(text@)],
    {
        self.with_step(LocatorStep::Text(text.to_owned()))
    }

    /// A locator for the elements below with exactly this title.
    pub fn get_by_title(&self, title: &str) -> (r: Locator<'a>)
        ensures
            r.root == self.0,
            r.models() == seq![StepModel::Title(title@)],
    {
        self.with_step(LocatorStep::Title(title.to_owned()))
    }

    /// A locator for the elements below with exactly this description.
    pub fn get_by_description(&self, desc: &str) -> (r: Locator<'a>)
        ensures
            r.root == self.0,
            r.models() == seq![StepModel::Description(desc@)],
    {
        self.with_step(LocatorStep::Description(desc.to_owned()))
    }

    /// A locator for the elements below with this DOM identifier.
    ///
    /// DOM identifiers need not be unique within an application: each web area
    /// has its own. A step before this one narrows the scope.
    pub fn get_by_dom_id(&self, id: &str) -> (r: Locator<'a>)
        ensures
            r.root == self.0,
            r.models() == seq![StepModel::DomId(id@)],
    {
        self.with_step(LocatorStep::DomId(id.to_owned()))
    }

    /// A locator for the elements below with this DOM class.
    pub fn get_by_dom_class(&self, class: &str) -> (r: Locator<'a>)
        ensures
            r.root == self.0,
            r.models() == seq![StepModel::DomClass(class@)],
    {
        self.with_step(LocatorStep::DomClass(class.to_owned()))
    }

    /// A locator for the elements below that match a query.
    pub fn query(&self, q: AXQuery) -> (r: Locator<'a>)
        ensures
            r.root == self.0,
            r.models() == seq![StepModel::Query(q@)],
    {
        self.with_step(LocatorStep::Query(q))
    }
}

impl<'a> Locator<'a> {
    /// What the steps do.
    pub open spec fn models(&self) -> Seq<StepModel> {
        step_models(self.steps@)
    }

    /// The elements that the locator leads to.
    pub open spec fn leads_to(&self) -> Seq<usize> {
        resolved(self.models(), self.root.nodes(), seq![self.root.index()])
    }

    /// This locator with one more step.
    fn and_step(self, step: LocatorStep<'a>) -> (r: Self)
        ensures
            r.root == self.root,
            r.steps@ == self.steps@.push(step),
            r.models() == self.models().push(step_model(step)),
    {
        let mut this = self;
        this.steps.push(step);
        assert(this.steps@.drop_last() =~= self.steps@);
        this
    }

    /// Search below each candidate for the given role and name.
    pub fn get_by_role(self, role: &str, name: &str) -> (r: Self)
        ensures
            r.root == self.root,
            r.models() == self.models().push(role_step(role@, name@)),
    {
        self.and_step(make_role_step(role, name))
    }

    /// Search below each candidate for text.
    pub fn get_by_text(self, text: &str) -> (r: Self)
        ensures
            r.root == self.root,
            r.models() == self.models().push(StepModel::Text(text@)),
    {
        self.and_step(LocatorStep::Text(text.to_owned()))
    }

    /// Search below each candidate for exactly this title.
    pub fn get_by_title(self, title: &str) -> (r: Self)
        ensures
            r.root == self.root,
            r.models() == self.models().push(StepModel::Title(title@)),
    {
        self.and_step(LocatorStep::Title(title.to_owned()))
    }

    /// Search below each candidate for exactly this description.
    pub fn get_by_description(self, desc: &str) -> (r: Self)
        ensures
            r.root == self.root,
            r.models() == self.models().push(StepModel::Description(desc@)),
    {
        self.and_step(LocatorStep::Description(desc.to_owned()))
    }

    /// Search below each candidate for this DOM identifier.
    ///
    /// See [`AXNode::get_by_dom_id`] for a note on uniqueness.
    pub fn get_by_dom_id(self, id: &str) -> (r: Self)
        ensures
            r.root == self.root,
            r.models() == self.models().push(StepModel::DomId(id@)),
    {
        self.and_step(LocatorStep::DomId(id.to_owned()))
    }

    /// Search below each candidate for this DOM class.
    pub fn get_by_dom_class(self, class: &str) -> (r: Self)
        ensures
            r.root == self.root,
            r.models() == self.models().push(StepModel::DomClass(class@)),
    {
        self.and_step(LocatorStep::DomClass(class.to_owned()))
    }

    /// Search below each candidate with a query.
    pub fn query(self, q: AXQuery) -> (r: Self)
        ensures
            r.root == self.root,
            r.models() == self.models().push(StepModel::Query(q@)),
    {
        self.and_step(LocatorStep::Query(q))
    }

    /// Keep the candidates that meet the criteria, which `f` fills in.
    pub fn filter<F: FnOnce(&mut FilterCriteria<'a>)>(self, f: F) -> (r: Self)
        requires
            forall|c: &mut FilterCriteria<'a>| #[trigger] call_requires(f, (c,)),
        ensures
            r.root == self.root,
            exists|c: &mut FilterCriteria<'a>| #[trigger]
                call_ensures(f, (c,), ()) && *c == FilterCriteria::<'a>::none() && r.models()
                    == self.models().push(StepModel::Filter(criteria_model(*final(c)))),
    {
        let mut criteria = FilterCriteria::new();
        f(&mut criteria);
        self.and_step(LocatorStep::Filter(criteria))
    }

    /// Select candidate `n`, counted from 0.
    pub fn nth(self, n: usize) -> (r: Self)
        ensures
            r.root == self.root,
            r.models() == self.models().push(StepModel::Nth(n as nat)),
    {
        self.and_step(LocatorStep::Nth(n))
    }

    /// Select the first candidate.
    pub fn first(self) -> (r: Self)
        ensures
            r.root == self.root,
            r.models() == self.models().push(StepModel::First),
    {
        self.and_step(LocatorStep::First)
    }

    /// Select the last candidate.
    pub fn last(self) -> (r: Self)
        ensures
            r.root == self.root,
            r.models() == self.models().push(StepModel::Last),
    {
        self.and_step(LocatorStep::Last)
    }
}

// ---------------------------------------------------------------------------
// Resolving
// ---------------------------------------------------------------------------

/// How many of the `n` elements that a locator leads to are counted before it
/// is called ambiguous.
pub open spec fn ambiguity_count(steps: Seq<StepModel>, n: nat) -> nat {
    if steps.len() > 0 && is_search(steps.last()) {
        2
    } else {
        n
    }
}

impl<'a> Locator<'a> {
    /// All elements that the locator leads to.
    pub fn resolve_all(&self) -> (r: Vec<AXNode<'a>>)
        ensures
            lists_nodes(r@, self.root.nodes(), self.leads_to()),
    {
        self.resolve_with_budget(usize::MAX)
    }

    /// The elements that the locator leads to, of which the first
    /// `final_budget` are enough.
    pub fn resolve_with_budget(&self, final_budget: usize) -> (r: Vec<AXNode<'a>>)
        requires
            final_budget >= 1,
        ensures
            lists_nodes(
                r@,
                self.root.nodes(),
                chain_produced(self.models(), self.leads_to(), final_budget),
            ),
    {
        wrap_all(&resolve_steps(self.root, &self.steps, final_budget))
    }

    /// The first element that the locator leads to.
    pub fn resolve(&self) -> (r: Option<AXNode<'a>>)
        ensures
            is_node(r, self.root.nodes(), first_of(self.leads_to())),
    {
        let found = self.resolve_with_budget(1);
        if found.len() > 0 {
            let n = found[0];
            assert(elements_of(found@)[0] == n.0);
            Some(n)
        } else {
            None
        }
    }

    /// The one element that the locator leads to.
    ///
    /// Fails with `LocatorNotFound` where there is none, and with
    /// `LocatorAmbiguous` where there is more than one.
    pub fn resolve_one(&self) -> (r: Result<AXNode<'a>, AxError>)
        ensures
            match r {
                Ok(n) => self.leads_to() == seq![n.index()] && n.nodes() == self.root.nodes(),
                Err(AxError::LocatorNotFound(m)) => self.leads_to().len() == 0 && m@
                    == "Locator matched 0 elements"@,
                Err(AxError::LocatorAmbiguous { locator, count, at_least }) => {
                    &&& self.leads_to().len() > 1
                    &&& locator@ == "Locator("@ + decimal(self.steps@.len()) + " steps)"@
                    &&& count == ambiguity_count(self.models(), self.leads_to().len())
                    &&& at_least
                },
                Err(_) => false,
            },
    {
        // Two are enough: one to return, one to prove ambiguity.
        let results = self.resolve_with_budget(2);
        if results.len() == 0 {
            Err(AxError::LocatorNotFound("Locator matched 0 elements".to_owned()))
        } else if results.len() == 1 {
            let n = results[0];
            assert(elements_of(results@)[0] == n.0);
            assert(self.leads_to() =~= seq![n.index()]);
            Ok(n)
        } else {
            let mut locator = "Locator(".to_owned();
            push_decimal(&mut locator, self.steps.len() as u64);
            locator.append(" steps)");
            Err(AxError::LocatorAmbiguous { locator, count: results.len(), at_least: true })
        }
    }

    /// All elements that the locator leads to.
    pub fn all(&self) -> (r: Vec<AXNode<'a>>)
        ensures
            lists_nodes(r@, self.root.nodes(), self.leads_to()),
    {
        self.resolve_all()
    }

    /// How many elements the locator leads to.
    pub fn count(&self) -> (n: usize)
        ensures
            n == self.leads_to().len(),
    {
        self.resolve_all().len()
    }
}

/// `r` asks the element `id` of `nodes` for the change `asked`, where there is
/// such an element.
pub open spec fn asks(
    r: Option<Request<'_>>,
    nodes: Seq<ElementData>,
    id: Option<usize>,
    asked: Asked,
) -> bool {
    match (r, id) {
        (Some(q), Some(i)) => q.node.nodes() == nodes && q.node.index() == i && q.change@ == asked,
        (None, None) => true,
        _ => false,
    }
}

impl<'a> Locator<'a> {
    /// The text below the first element that the locator leads to.
    pub fn text_content(&self) -> (r: Option<String>)
        ensures
            opt_text(r) == match first_of(self.leads_to()) {
                Some(i) => Some(text_of(self.root.nodes(), i)),
                None => None,
            },
    {
        match self.resolve() {
            Some(n) => Some(n.text(FILTER_TEXT_DEPTH)),
            None => None,
        }
    }

    /// The text below each element that the locator leads to.
    pub fn all_text_contents(&self) -> (r: Vec<String>)
        ensures
            views(r@) == Seq::new(
                self.leads_to().len(),
                |k: int| text_of(self.root.nodes(), self.leads_to()[k]),
            ),
    {
        let found = self.resolve_all();
        let ghost nodes = self.root.nodes();
        let ghost ids = self.leads_to();
        let mut out: Vec<String> = Vec::new();
        for k in 0..found.len()
            invariant
                lists_nodes(found@, nodes, ids),
                out@.len() == k,
                forall|j: int| 0 <= j < k ==> (#[trigger] out@[j])@ == text_of(nodes, ids[j]),
        {
            assert(elements_of(found@)[k as int] == found@[k as int].0);
            out.push(found[k].text(FILTER_TEXT_DEPTH));
        }
        out
    }

    /// The title of the first element that the locator leads to.
    pub fn title(&self) -> (r: Option<String>)
        ensures
            opt_text(r) == match first_of(self.leads_to()) {
                Some(i) => text_attr(self.root.nodes(), i, "AXTitle"@),
                None => None,
            },
    {
        match self.resolve() {
            Some(n) => n.title(),
            None => None,
        }
    }

    /// The value of the first element that the locator leads to.
    pub fn value(&self) -> (r: Option<String>)
        ensures
            opt_text(r) == match first_of(self.leads_to()) {
                Some(i) => text_attr(self.root.nodes(), i, "AXValue"@),
                None => None,
            },
    {
        match self.resolve() {
            Some(n) => n.value(),
            None => None,
        }
    }

    /// The request to press the first element that the locator leads to.
    pub fn click(&self) -> (r: Option<Request<'a>>)
        ensures
            asks(r, self.root.nodes(), first_of(self.leads_to()), Asked::Perform("AXPress"@)),
    {
        self.perform("AXPress")
    }

    /// The request to focus the first element that the locator leads to.
    pub fn focus(&self) -> (r: Option<Request<'a>>)
        ensures
            asks(
                r,
                self.root.nodes(),
                first_of(self.leads_to()),
                Asked::SetFlag("AXFocused"@, true),
            ),
    {
        match self.resolve() {
            Some(n) => Some(n.set_focused(true)),
            None => None,
        }
    }

    /// The request to perform an action on the first element that the locator
    /// leads to.
    pub fn perform(&self, action: &str) -> (r: Option<Request<'a>>)
        ensures
            asks(r, self.root.nodes(), first_of(self.leads_to()), Asked::Perform(action@)),
    {
        match self.resolve() {
            Some(n) => Some(n.perform_action(action)),
            None => None,
        }
    }

    /// The request to set the value of the first element that the locator leads
    /// to.
    pub fn set_value(&self, text: &str) -> (r: Option<Request<'a>>)
        ensures
            asks(
                r,
                self.root.nodes(),
                first_of(self.leads_to()),
                Asked::SetText("AXValue"@, text@),
            ),
    {
        match self.resolve() {
            Some(n) => Some(n.set_value(text)),
            None => None,
        }
    }

    /// The locator in one line.
    pub fn debug_text(&self) -> (r: String)
        ensures
            r@ == "Locator { steps: "@ + decimal(self.steps@.len()) + " }"@,
    {
        let mut out = "Locator { steps: ".to_owned();
        push_decimal(&mut out, self.steps.len() as u64);
        out.append(" }");
        out
    }
}

// ---------------------------------------------------------------------------
// Laws
// ---------------------------------------------------------------------------

/// A step that searches gives, under a budget, the first so many of what it gives
/// without one, or all where there are fewer.
pub proof fn lemma_search_under_budget(
    step: StepModel,
    nodes: Seq<ElementData>,
    ids: Seq<usize>,
    budget: usize,
)
    requires
        is_search(step),
        1 <= budget < usize::MAX,
    ensures
        ({
            let all = produced(step, step_yields(step, nodes, ids), usize::MAX);
            produced(step, step_yields(step, nodes, ids), budget) == all.take(
                if budget <= all.len() {
                    budget as int
                } else {
                    all.len() as int
                },
            )
        }),
{
    let all = step_yields(step, nodes, ids);
    assert(all.take(all.len() as int) =~= all);
}

/// A step that selects does not depend on the budget: a filter keeps, in order,
/// what meets its criteria, and the others pick one candidate where there is one.
pub proof fn lemma_selection_ignores_budget(
    step: StepModel,
    nodes: Seq<ElementData>,
    ids: Seq<usize>,
    budget: usize,
)
    requires
        !is_search(step),
    ensures
        produced(step, step_yields(step, nodes, ids), budget) == match step {
            StepModel::Filter(c) => ids.filter(kept_by(c, nodes)),
            StepModel::Nth(n) => if n < ids.len() {
                seq![ids[n as int]]
            } else {
                Seq::empty()
            },
            StepModel::First => if ids.len() > 0 {
                seq![ids[0]]
            } else {
                Seq::empty()
            },
            _ => if ids.len() > 0 {
                seq![ids.last()]
            } else {
                Seq::empty()
            },
        },
{
}

/// Selecting candidate 0 is selecting the first.
pub proof fn lemma_nth_zero_is_first(nodes: Seq<ElementData>, ids: Seq<usize>)
    ensures
        step_yields(StepModel::Nth(0), nodes, ids) == step_yields(StepModel::First, nodes, ids),
{
}

/// `has_not` keeps exactly the elements that `has` leaves out, and
/// `has_not_text` those that `has_text` leaves out.
pub proof fn lemma_not_criteria_are_opposite(
    c: CriteriaModel,
    l: LocatorModel,
    text: Seq<char>,
    nodes: Seq<ElementData>,
    i: usize,
)
    requires
        c == criteria_model(FilterCriteria::none()),
    ensures
        keeps(CriteriaModel { has_not: Some(l), ..c }, nodes, i) == !keeps(
            CriteriaModel { has: Some(l), ..c },
            nodes,
            i,
        ),
        keeps(CriteriaModel { has_not_text: Some(text), ..c }, nodes, i) == !keeps(
            CriteriaModel { has_text: Some(text), ..c },
            nodes,
            i,
        ),
{
}

/// A filter keeps every candidate where its criteria ask for nothing.
pub proof fn lemma_empty_filter(nodes: Seq<ElementData>, ids: Seq<usize>)
    ensures
        step_yields(
            StepModel::Filter(criteria_model(FilterCriteria::none())),
            nodes,
            ids,
        ) == ids,
    decreases ids.len(),
{
    reveal(Seq::filter);
    if ids.len() > 0 {
        lemma_empty_filter(nodes, ids.drop_last());
        assert(ids.drop_last().push(ids.last()) =~= ids);
    }
}

/// What a search step finds lies below one of the candidates.
pub proof fn lemma_search_stays_below(
    step: StepModel,
    nodes: Seq<ElementData>,
    ids: Seq<usize>,
    x: usize,
)
    requires
        is_search(step),
        step_yields(step, nodes, ids).contains(x),
    ensures
        exists|k: int|
            0 <= k < ids.len() && descendants(
                nodes,
                #[trigger] ids[k],
                MAX_DEPTH as nat,
            ).contains(x) && wanted(step, nodes)(x),
{
    lemma_below_each_contains(nodes, ids, wanted(step, nodes), x);
}

proof fn lemma_below_each_contains(
    nodes: Seq<ElementData>,
    ids: Seq<usize>,
    pred: spec_fn(usize) -> bool,
    x: usize,
)
    requires
        below_each(nodes, ids, pred).contains(x),
    ensures
        exists|k: int|
            0 <= k < ids.len() && descendants(
                nodes,
                #[trigger] ids[k],
                MAX_DEPTH as nat,
            ).contains(x) && pred(x),
    decreases ids.len(),
{
    if ids.len() > 0 {
        let front = below_each(nodes, ids.drop_last(), pred);
        let below = descendants(nodes, ids.last(), MAX_DEPTH as nat);
        let all = below_each(nodes, ids, pred);
        let m = choose|m: int| 0 <= m < all.len() && all[m] == x;
        if m < front.len() {
            assert(front[m] == x);
            lemma_below_each_contains(nodes, ids.drop_last(), pred, x);
            let k = choose|k: int|
                0 <= k < ids.drop_last().len() && descendants(
                    nodes,
                    #[trigger] ids.drop_last()[k],
                    MAX_DEPTH as nat,
                ).contains(x) && pred(x);
            assert(ids[k] == ids.drop_last()[k]);
        } else {
            let own = below.filter(pred);
            assert(own[m - front.len()] == x);
            below.lemma_filter_pred(pred, m - front.len());
            assert(own.contains(x));
            below.lemma_filter_contains_rev(pred, x);
            assert(below.contains(x));
            assert(ids[ids.len() - 1] == ids.last());
        }
    }
}

/// Element `x` is what a search step looks for.
pub open spec fn step_fits(step: StepModel, nodes: Seq<ElementData>, x: usize) -> bool {
    match step {
        StepModel::Role(r) => text_attr(nodes, x, "AXRole"@) == Some(r),
        StepModel::RoleWithName(r, n) => text_attr(nodes, x, "AXRole"@) == Some(r) && (
        text_attr_or_empty(nodes, x, "AXTitle"@) == n || text_attr_or_empty(
            nodes,
            x,
            "AXDescription"@,
        ) == n),
        StepModel::Text(t) => exists|y: usize, k: int|
            #![trigger static_text_holds(nodes, y, t, k)]
            descendants(nodes, x, 15).contains(y) && static_text_holds(nodes, y, t, k),
        StepModel::Title(t) => text_attr(nodes, x, "AXTitle"@) == Some(t),
        StepModel::Description(t) => text_attr(nodes, x, "AXDescription"@) == Some(t),
        StepModel::DomId(t) => text_attr(nodes, x, "AXDOMIdentifier"@) == Some(t),
        StepModel::DomClass(t) => list_attr(nodes, x, "AXDOMClassList"@).contains(t),
        StepModel::Query(q) => query_accepts(q, nodes, x),
        _ => false,
    }
}

/// A search step finds what it looks for, up to 30 levels below one of the
/// candidates, and nothing else.
pub proof fn lemma_search_step(step: StepModel, nodes: Seq<ElementData>, ids: Seq<usize>, x: usize)
    requires
        is_search(step),
    ensures
        step_yields(step, nodes, ids).contains(x) <==> step_fits(step, nodes, x) && exists|
            y: usize,
        | #[trigger]
            ids.contains(y) && descendants(nodes, y, 30).contains(x),
{
    let pred = wanted(step, nodes);
    if let StepModel::Text(t) = step {
        lemma_some_static_text(nodes, descendants(nodes, x, 15), t);
    }
    assert(pred(x) <==> step_fits(step, nodes, x));
    if step_yields(step, nodes, ids).contains(x) {
        lemma_below_each_contains(nodes, ids, pred, x);
        let k = choose|k: int|
            0 <= k < ids.len() && descendants(
                nodes,
                #[trigger] ids[k],
                MAX_DEPTH as nat,
            ).contains(x) && pred(x);
        assert(ids.contains(ids[k]));
    }
    if exists|y: usize| #[trigger] ids.contains(y) && descendants(nodes, y, 30).contains(x) {
        let y = choose|y: usize| #[trigger]
            ids.contains(y) && descendants(nodes, y, 30).contains(x);
        let k = choose|k: int| 0 <= k < ids.len() && ids[k] == y;
        if pred(x) {
            lemma_below_each_has(nodes, ids, pred, k, x);
        }
    }
}

proof fn lemma_below_each_has(
    nodes: Seq<ElementData>,
    ids: Seq<usize>,
    pred: spec_fn(usize) -> bool,
    k: int,
    x: usize,
)
    requires
        0 <= k < ids.len(),
        descendants(nodes, ids[k], MAX_DEPTH as nat).contains(x),
        pred(x),
    ensures
        below_each(nodes, ids, pred).contains(x),
    decreases ids.len(),
{
    let front = below_each(nodes, ids.drop_last(), pred);
    let below = descendants(nodes, ids.last(), MAX_DEPTH as nat);
    let all = below_each(nodes, ids, pred);
    if k < ids.len() - 1 {
        assert(ids.drop_last()[k] == ids[k]);
        lemma_below_each_has(nodes, ids.drop_last(), pred, k, x);
        let m = choose|m: int| 0 <= m < front.len() && front[m] == x;
        assert(all[m] == x);
    } else {
        let m = choose|m: int| 0 <= m < below.len() && below[m] == x;
        below.lemma_filter_contains(pred, m);
        let own = below.filter(pred);
        let n = choose|n: int| 0 <= n < own.len() && own[n] == x;
        assert(all[front.len() + n] == x);
    }
}

/// From one candidate, a search step finds in the order in which the elements
/// stand below it; from several, below one after the other.
pub proof fn lemma_search_order(
    step: StepModel,
    nodes: Seq<ElementData>,
    ids: Seq<usize>,
    last: usize,
)
    requires
        is_search(step),
    ensures
        step_yields(step, nodes, ids.push(last)) == step_yields(step, nodes, ids) + descendants(
            nodes,
            last,
            30,
        ).filter(|x: usize| step_fits(step, nodes, x)),
        step_yields(step, nodes, Seq::empty()) == Seq::<usize>::empty(),
{
    assert(ids.push(last).drop_last() =~= ids);
    let pred = wanted(step, nodes);
    let fits = |x: usize| step_fits(step, nodes, x);
    assert forall|x: usize| #[trigger] pred(x) == fits(x) by {
        if let StepModel::Text(t) = step {
            lemma_some_static_text(nodes, descendants(nodes, x, 15), t);
        }
    }
    assert(pred =~= fits);
}

/// Without a name, the role alone counts.
pub proof fn lemma_role_without_name(role: Seq<char>, name: Seq<char>)
    ensures
        role_step(role, Seq::empty()) == StepModel::Role(role),
        name.len() > 0 ==> role_step(role, name) == StepModel::RoleWithName(role, name),
{
}

/// The steps of a locator are taken one after the other, each from what the one
/// before has led to.
pub proof fn lemma_steps_in_order(
    steps: Seq<StepModel>,
    step: StepModel,
    nodes: Seq<ElementData>,
    ids: Seq<usize>,
)
    ensures
        resolved(Seq::empty(), nodes, ids) == ids,
        resolved(steps.push(step), nodes, ids) == step_yields(
            step,
            nodes,
            resolved(steps, nodes, ids),
        ),
{
    assert(steps.push(step).drop_last() =~= steps);
}

/// The criteria that ask for nothing.
pub open spec fn no_criteria() -> CriteriaModel {
    CriteriaModel { has_text: None, has_not_text: None, has: None, has_not: None, predicate: None }
}

/// The text of an element for a filter is that of the values of the static texts up
/// to 15 levels below it, one after the other, with nothing between them.
pub proof fn lemma_filter_text(nodes: Seq<ElementData>, i: usize, t: Seq<char>)
    ensures
        ({
            let text = descendants(nodes, i, 15).fold_left(
                Seq::<char>::empty(),
                |all: Seq<char>, x: usize|
                    if text_attr(nodes, x, "AXRole"@) == Some("AXStaticText"@) {
                        all + text_attr_or_empty(nodes, x, "AXValue"@)
                    } else {
                        all
                    },
            );
            &&& text_of(nodes, i) == text
            &&& keeps(CriteriaModel { has_text: Some(t), ..no_criteria() }, nodes, i) <==> exists|
                k: int,
            | occurs_at(text, t, k)
            &&& keeps(CriteriaModel { has_not_text: Some(t), ..no_criteria() }, nodes, i) <==> !(
            exists|k: int| occurs_at(text, t, k))
        }),
{
    lemma_joined_values(nodes, descendants(nodes, i, 15));
    assert(contains(text_of(nodes, i), t) <==> exists|k: int| occurs_at(text_of(nodes, i), t, k));
}

proof fn lemma_joined_values(nodes: Seq<ElementData>, ids: Seq<usize>)
    ensures
        join(static_values(nodes, ids), ""@) == ids.fold_left(
            Seq::<char>::empty(),
            |all: Seq<char>, x: usize|
                if text_attr(nodes, x, "AXRole"@) == Some("AXStaticText"@) {
                    all + text_attr_or_empty(nodes, x, "AXValue"@)
                } else {
                    all
                },
        ),
    decreases ids.len(),
{
    reveal_strlit("");
    if ids.len() > 0 {
        lemma_joined_values(nodes, ids.drop_last());
        let before = static_values(nodes, ids.drop_last());
        let last = ids.last();
        if text_attr(nodes, last, "AXRole"@) == Some("AXStaticText"@) {
            if let Some(v) = text_attr(nodes, last, "AXValue"@) {
                let all = before.push(v);
                assert(all.drop_last() =~= before);
                if before.len() == 0 {
                    assert(join(before, ""@) =~= Seq::empty());
                    assert(all[0] == v);
                    assert(join(all, ""@) =~= join(before, ""@) + v);
                } else {
                    assert(join(all, ""@) =~= join(before, ""@) + v);
                }
            } else {
                assert(join(before, ""@) + Seq::<char>::empty() =~= join(before, ""@));
            }
        }
    } else {
        assert(join(static_values(nodes, ids), ""@) =~= Seq::empty());
    }
}

/// A static text up to 15 levels below an element that holds `t` makes `has_text(t)`
/// keep the element, and `has_not_text(t)` leave it out.
pub proof fn lemma_text_below_is_kept(
    nodes: Seq<ElementData>,
    i: usize,
    x: usize,
    t: Seq<char>,
    k: int,
)
    requires
        descendants(nodes, i, 15).contains(x),
        text_attr(nodes, x, "AXRole"@) == Some("AXStaticText"@),
        text_attr(nodes, x, "AXValue"@) matches Some(v) && occurs_at(v, t, k),
    ensures
        keeps(CriteriaModel { has_text: Some(t), ..no_criteria() }, nodes, i),
        !keeps(CriteriaModel { has_not_text: Some(t), ..no_criteria() }, nodes, i),
{
    let ids = descendants(nodes, i, 15);
    let values = static_values(nodes, ids);
    assert(static_text_holds(nodes, x, t, k));
    lemma_some_static_text(nodes, ids, t);
    let m = choose|m: int| 0 <= m < values.len() && contains(#[trigger] values[m], t);
    lemma_join_holds(values, m, t);
}

proof fn lemma_join_holds(values: Seq<Seq<char>>, m: int, t: Seq<char>)
    requires
        0 <= m < values.len(),
        contains(values[m], t),
    ensures
        contains(join(values, ""@), t),
    decreases values.len(),
{
    let all = join(values, ""@);
    if values.len() > 1 {
        let front = join(values.drop_last(), ""@);
        reveal_strlit("");
        assert(all =~= front + values.last());
        if m < values.len() - 1 {
            assert(values.drop_last()[m] == values[m]);
            lemma_join_holds(values.drop_last(), m, t);
            let k = choose|k: int| occurs_at(front, t, k);
            assert(all.subrange(k, k + t.len()) =~= front.subrange(k, k + t.len()));
            assert(occurs_at(all, t, k));
        } else {
            let k = choose|k: int| occurs_at(values[m], t, k);
            let n = front.len() as int;
            assert(all.subrange(n + k, n + k + t.len()) =~= values[m].subrange(k, k + t.len()));
            assert(occurs_at(all, t, n + k));
        }
    }
}

/// `has` asks for an element that the steps of the locator lead to from the
/// candidate, and a condition of the caller's own for the candidate to meet it.
pub proof fn lemma_other_criteria(
    nodes: Seq<ElementData>,
    i: usize,
    l: LocatorModel,
    ids: Seq<usize>,
)
    ensures
        keeps(CriteriaModel { has: Some(l), ..no_criteria() }, nodes, i) <==> exists|x: usize|
            resolved(l.steps, nodes, seq![i]).contains(x),
        keeps(CriteriaModel { has_not: Some(l), ..no_criteria() }, nodes, i) <==> !(exists|
            x: usize,
        | resolved(l.steps, nodes, seq![i]).contains(x)),
        keeps(CriteriaModel { predicate: Some(ids), ..no_criteria() }, nodes, i) <==> ids.contains(
            i,
        ),
{
    let found = resolved(l.steps, nodes, seq![i]);
    if found.len() > 0 {
        assert(found.contains(found[0]));
    }
}

/// A filter keeps what each of its criteria keeps.
pub proof fn lemma_all_criteria(c: CriteriaModel, nodes: Seq<ElementData>, i: usize)
    ensures
        keeps(c, nodes, i) <==> {
            &&& keeps(CriteriaModel { has_text: c.has_text, ..no_criteria() }, nodes, i)
            &&& keeps(CriteriaModel { has_not_text: c.has_not_text, ..no_criteria() }, nodes, i)
            &&& keeps(CriteriaModel { has: c.has, ..no_criteria() }, nodes, i)
            &&& keeps(CriteriaModel { has_not: c.has_not, ..no_criteria() }, nodes, i)
            &&& keeps(CriteriaModel { predicate: c.predicate, ..no_criteria() }, nodes, i)
        },
{
}

/// What the steps of a locator stand for.
pub proof fn lemma_models_of_steps<'a>(
    s: String,
    t: String,
    q: AXQuery,
    c: FilterCriteria<'a>,
    n: usize,
)
    ensures
        step_model(LocatorStep::<'a>::Role(s)) == StepModel::Role(s@),
        step_model(LocatorStep::<'a>::RoleWithName(s, t)) == StepModel::RoleWithName(s@, t@),
        step_model(LocatorStep::<'a>::Text(s)) == StepModel::Text(s@),
        step_model(LocatorStep::<'a>::Title(s)) == StepModel::Title(s@),
        step_model(LocatorStep::<'a>::Description(s)) == StepModel::Description(s@),
        step_model(LocatorStep::<'a>::DomId(s)) == StepModel::DomId(s@),
        step_model(LocatorStep::<'a>::DomClass(s)) == StepModel::DomClass(s@),
        step_model(LocatorStep::<'a>::Query(q)) == StepModel::Query(q@),
        step_model(LocatorStep::Filter(c)) == StepModel::Filter(criteria_model(c)),
        step_model(LocatorStep::<'a>::Nth(n)) == StepModel::Nth(n as nat),
        step_model(LocatorStep::<'a>::First) == StepModel::First,
        step_model(LocatorStep::<'a>::Last) == StepModel::Last,
        criteria_model(c).has_text == opt_text(c.has_text),
        criteria_model(c).has_not_text == opt_text(c.has_not_text),
        c.has matches Some(l) ==> criteria_model(c).has == Some(locator_model(*l)),
        c.has_not matches Some(l) ==> criteria_model(c).has_not == Some(locator_model(*l)),
        c.has is None ==> criteria_model(c).has is None,
        c.has_not is None ==> criteria_model(c).has_not is None,
        c.predicate matches Some(p) ==> criteria_model(c).predicate == Some(p.accepted@),
        c.predicate is None ==> criteria_model(c).predicate is None,
{
}

/// A locator leads where its steps lead from its root, one after the other.
pub proof fn lemma_locator_leads<'a>(l: Locator<'a>)
    ensures
        l.leads_to() == resolved(step_models(l.steps@), l.root.nodes(), seq![l.root.index()]),
        locator_model(l).steps == step_models(l.steps@),
        step_models(l.steps@).len() == l.steps@.len(),
        forall|k: int|
            0 <= k < l.steps@.len() ==> #[trigger] step_models(l.steps@)[k] == step_model(
                l.steps@[k],
            ),
{
    lemma_step_models(l.steps@);
}

/// An ambiguous locator counts to two where its last step is a search, and else all.
pub proof fn lemma_ambiguity_count(steps: Seq<StepModel>, step: StepModel, n: nat)
    ensures
        is_search(step) ==> ambiguity_count(steps.push(step), n) == 2,
        !is_search(step) ==> ambiguity_count(steps.push(step), n) == n,
        is_search(step) <==> !(step is Filter) && !(step is Nth) && !(step is First) && !(step
            is Last),
{
}

/// A step before `nth(n)` has to find `n + 1` candidates, one before `first` has to
/// find one, and one before any other step all of them; the last step has to find
/// what is asked for.
pub proof fn lemma_budgets(steps: Seq<StepModel>, k: int, n: usize, final_budget: usize)
    requires
        0 <= k < steps.len(),
    ensures
        budgets(steps, final_budget).len() == steps.len(),
        k == steps.len() - 1 ==> budgets(steps, final_budget)[k] == final_budget,
        k + 1 < steps.len() && steps[k + 1] == StepModel::Nth(n as nat) && n < usize::MAX
            ==> budgets(steps, final_budget)[k] == n + 1,
        k + 1 < steps.len() && steps[k + 1] is First ==> budgets(steps, final_budget)[k] == 1,
        k + 1 < steps.len() && !(steps[k + 1] is Nth) && !(steps[k + 1] is First) ==> budgets(
            steps,
            final_budget,
        )[k] == usize::MAX,
{
}

/// A request is to the element that was found, for the change that was asked.
pub proof fn lemma_asks(
    q: Request<'_>,
    nodes: Seq<ElementData>,
    i: usize,
    asked: Asked,
)
    ensures
        asks(Some(q), nodes, Some(i), asked) <==> q.node.nodes() == nodes && q.node.index() == i
            && q.change@ == asked,
        asks(None, nodes, None, asked),
        !asks(None, nodes, Some(i), asked),
        !asks(Some(q), nodes, None, asked),
{
}

/// Under a budget, a chain of steps hands on the first so many of what it leads to,
/// where its last step is a search.
pub proof fn lemma_chain_produced(
    steps: Seq<StepModel>,
    step: StepModel,
    all: Seq<usize>,
    budget: usize,
)
    requires
        1 <= budget < usize::MAX,
    ensures
        chain_produced(steps.push(step), all, budget).is_prefix_of(all),
        is_search(step) ==> chain_produced(steps.push(step), all, budget).len() == if all.len()
            < budget {
            all.len()
        } else {
            budget as nat
        },
        !is_search(step) ==> chain_produced(steps.push(step), all, budget) == all,
        chain_produced(steps, all, usize::MAX) == all,
{
}

} // verus!

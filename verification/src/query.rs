//! Queries on elements, and searches with them.

use vstd::prelude::*;
use crate::dom_selector::{has_name, parse_selector, selector_accepts, ClassGroup, DOMSelector};
use crate::text::{contains, contains_text, copy_opt, occurs_at, opt_text, same_text, views};
use crate::tree::{
    attr_string, attr_string_list, child_ids, children, clip, contains_id, descendants, first_of,
    is_handle, lemma_clip_full, lemma_descendants_deeper, lemma_subtrees_filter_step,
    lemma_subtrees_step, limited, list_attr, lists, subtrees, text_attr, AXTree, Element,
    ElementData,
};

verus! {

/// How deep the text of an element is collected.
pub const TEXT_DEPTH: usize = 15;

/// A condition on elements, given by the elements that meet it.
#[derive(Debug)]
pub struct NodePredicate {
    pub accepted: Vec<usize>,
}

/// `f` returns `b` for element `i` of the snapshot `nodes`.
pub open spec fn answers<'a, F: Fn(Element<'a>) -> bool>(
    f: F,
    nodes: Seq<ElementData>,
    i: usize,
    b: bool,
) -> bool {
    exists|e: Element<'a>|
        e.nodes() == nodes && e.index() == i && #[trigger] call_ensures(f, (e,), b)
}

impl NodePredicate {
    /// The elements of `tree` for which `f` returns true.
    pub fn of<'a, F: Fn(Element<'a>) -> bool>(tree: &'a AXTree, f: F) -> (r: NodePredicate)
        requires
            forall|e: Element<'a>| #[trigger] call_requires(f, (e,)),
        ensures
            forall|i: usize|
                i < tree.nodes().len() ==> answers(
                    f,
                    tree.nodes(),
                    i,
                    #[trigger] r.accepted@.contains(i),
                ),
            forall|i: usize| #[trigger] r.accepted@.contains(i) ==> i < tree.nodes().len(),
    {
        let mut accepted: Vec<usize> = Vec::new();
        let n: usize = tree.len();
        for i in 0..n
            invariant
                n == tree.nodes().len(),
                forall|e: Element<'a>| #[trigger] call_requires(f, (e,)),
                forall|j: int| 0 <= j < accepted@.len() ==> accepted@[j] < i,
                forall|k: usize|
                    k < i ==> answers(f, tree.nodes(), k, #[trigger] accepted@.contains(k)),
        {
            let ghost before = accepted@;
            if let Some(e) = tree.element(i) {
                let ok = f(e);
                if ok {
                    accepted.push(i);
                }
                proof {
                    assert(!before.contains(i));
                    if ok {
                        assert(accepted@[before.len() as int] == i);
                    }
                    assert(call_ensures(f, (e,), accepted@.contains(i)));
                    assert forall|k: usize| k < i + 1 implies answers(
                        f,
                        tree.nodes(),
                        k,
                        #[trigger] accepted@.contains(k),
                    ) by {
                        if k < i {
                            assert(accepted@.contains(k) == before.contains(k)) by {
                                if before.contains(k) {
                                    let j = choose|j: int| 0 <= j < before.len() && before[j] == k;
                                    assert(accepted@[j] == k);
                                }
                            }
                        }
                    }
                }
            }
        }
        NodePredicate { accepted }
    }
}

impl Clone for NodePredicate {
    fn clone(&self) -> (r: Self)
        ensures
            r.accepted@ == self.accepted@,
    {
        let mut accepted: Vec<usize> = Vec::new();
        for i in 0..self.accepted.len()
            invariant
                accepted@ == self.accepted@.take(i as int),
        {
            accepted.push(self.accepted[i]);
        }
        NodePredicate { accepted }
    }
}

/// A query for matching elements. All conditions that are set must hold.
#[derive(Debug)]
pub struct AXQuery {
    pub role: Option<String>,
    pub title: Option<String>,
    pub title_contains: Option<String>,
    pub value_contains: Option<String>,
    pub subrole: Option<String>,
    pub min_children: Option<usize>,
    pub has_descendant_text: Option<String>,
    pub dom_class: Option<String>,
    pub dom_sel: Option<DOMSelector>,
    pub predicate: Option<NodePredicate>,
}

/// What a query asks for.
pub ghost struct Query {
    pub role: Option<Seq<char>>,
    pub title: Option<Seq<char>>,
    pub title_contains: Option<Seq<char>>,
    pub value_contains: Option<Seq<char>>,
    pub subrole: Option<Seq<char>>,
    pub min_children: Option<usize>,
    pub has_descendant_text: Option<Seq<char>>,
    pub dom_class: Option<Seq<char>>,
    pub dom_sel: Option<Seq<ClassGroup>>,
    pub predicate: Option<Seq<usize>>,
}

impl Query {
    /// The query that sets no condition.
    pub open spec fn any() -> Query {
        Query {
            role: None,
            title: None,
            title_contains: None,
            value_contains: None,
            subrole: None,
            min_children: None,
            has_descendant_text: None,
            dom_class: None,
            dom_sel: None,
            predicate: None,
        }
    }
}

impl View for AXQuery {
    type V = Query;

    open spec fn view(&self) -> Query {
        Query {
            role: opt_text(self.role),
            title: opt_text(self.title),
            title_contains: opt_text(self.title_contains),
            value_contains: opt_text(self.value_contains),
            subrole: opt_text(self.subrole),
            min_children: self.min_children,
            has_descendant_text: opt_text(self.has_descendant_text),
            dom_class: opt_text(self.dom_class),
            dom_sel: match self.dom_sel {
                Some(s) => Some(s@),
                None => None,
            },
            predicate: match self.predicate {
                Some(p) => Some(p.accepted@),
                None => None,
            },
        }
    }
}

// ---------------------------------------------------------------------------
// The text of an element
// ---------------------------------------------------------------------------

/// The text that element `i` itself contributes to the text of a subtree: the
/// value of a static text.
pub open spec fn static_value(nodes: Seq<ElementData>, i: usize) -> Option<Seq<char>> {
    if text_attr(nodes, i, "AXRole"@) == Some("AXStaticText"@) {
        text_attr(nodes, i, "AXValue"@)
    } else {
        None
    }
}

/// The values of the static texts among `ids`.
pub open spec fn static_values(nodes: Seq<ElementData>, ids: Seq<usize>) -> Seq<Seq<char>>
    decreases ids.len(),
{
    if ids.len() == 0 {
        Seq::empty()
    } else {
        let before = static_values(nodes, ids.drop_last());
        match static_value(nodes, ids.last()) {
            Some(v) => before.push(v),
            None => before,
        }
    }
}

/// The values of the static texts up to `depth` levels below element `i`.
pub open spec fn static_texts(nodes: Seq<ElementData>, i: usize, depth: nat) -> Seq<Seq<char>> {
    static_values(nodes, descendants(nodes, i, depth))
}

proof fn lemma_static_values_add(nodes: Seq<ElementData>, a: Seq<usize>, b: Seq<usize>)
    ensures
        static_values(nodes, a + b) == static_values(nodes, a) + static_values(nodes, b),
    decreases b.len(),
{
    if b.len() == 0 {
        assert(a + b =~= a);
        assert(static_values(nodes, a) + static_values(nodes, b) =~= static_values(nodes, a));
    } else {
        assert((a + b).drop_last() =~= a + b.drop_last());
        lemma_static_values_add(nodes, a, b.drop_last());
        assert(static_values(nodes, a + b) =~= static_values(nodes, a) + static_values(nodes, b));
    }
}

/// Leaving out elements that contribute no text leaves the text as it is.
pub proof fn lemma_static_values_filter(
    nodes: Seq<ElementData>,
    ids: Seq<usize>,
    pred: spec_fn(usize) -> bool,
)
    requires
        forall|i: usize| (#[trigger] static_value(nodes, i)) is Some ==> pred(i),
    ensures
        static_values(nodes, ids.filter(pred)) == static_values(nodes, ids),
    decreases ids.len(),
{
    reveal(Seq::filter);
    if ids.len() > 0 {
        lemma_static_values_filter(nodes, ids.drop_last(), pred);
        let front = ids.drop_last().filter(pred);
        if pred(ids.last()) {
            assert(ids.filter(pred).drop_last() =~= front);
        } else {
            assert(static_value(nodes, ids.last()) is None);
        }
    }
}

fn static_value_of(element: Element<'_>) -> (r: Option<String>)
    ensures
        opt_text(r) == static_value(element.nodes(), element.index()),
{
    match attr_string(element, "AXRole") {
        Some(role) => if same_text(role.as_str(), "AXStaticText") {
            attr_string(element, "AXValue")
        } else {
            None
        },
        None => None,
    }
}

/// Appends the values of the static texts up to `max_depth` levels below
/// `root`.
pub fn collect_static_texts(root: Element<'_>, max_depth: usize, out: &mut Vec<String>)
    ensures
        views(final(out)@) == views(old(out)@) + static_texts(
            root.nodes(),
            root.index(),
            max_depth as nat,
        ),
    decreases max_depth,
{
    let ghost nodes = root.nodes();
    let ghost start = views(out@);
    if max_depth == 0 {
        assert(start + static_texts(nodes, root.index(), 0) =~= start);
        return;
    }
    let ghost ids = child_ids(nodes, root.index());
    let ghost depth = max_depth as nat;
    let kids = children(root);
    assert(start + static_values(nodes, subtrees(nodes, ids.take(0), depth)) =~= start);
    for k in 0..kids.len()
        invariant
            max_depth > 0,
            depth == max_depth,
            lists(kids@, nodes, ids),
            views(out@) == start + static_values(nodes, subtrees(nodes, ids.take(k as int), depth)),
    {
        proof {
            let front = subtrees(nodes, ids.take(k as int), depth);
            let below = descendants(nodes, ids[k as int], (depth - 1) as nat);
            lemma_subtrees_step(nodes, ids, depth, k as int);
            lemma_static_values_add(nodes, front.push(ids[k as int]), below);
            assert(front.push(ids[k as int]).drop_last() =~= front);
        }
        let kid = kids[k];
        let ghost before = out@;
        if let Some(v) = static_value_of(kid) {
            out.push(v);
            assert(views(out@) =~= views(before).push(v@));
        }
        let ghost own = views(out@);
        collect_static_texts(kid, max_depth - 1, out);
        assert(views(out@) =~= start + static_values(
            nodes,
            subtrees(nodes, ids.take(k + 1), depth),
        ));
    }
    assert(ids.take(kids@.len() as int) =~= ids);
}

// ---------------------------------------------------------------------------
// Matching
// ---------------------------------------------------------------------------

/// The attribute `name` of element `i` is a text that `part` stands in.
pub open spec fn attr_contains(
    nodes: Seq<ElementData>,
    i: usize,
    name: Seq<char>,
    part: Seq<char>,
) -> bool {
    text_attr(nodes, i, name) matches Some(v) && contains(v, part)
}

/// `part` stands in one of the texts.
pub open spec fn some_contains(texts: Seq<Seq<char>>, part: Seq<char>) -> bool {
    exists|k: int| 0 <= k < texts.len() && contains(#[trigger] texts[k], part)
}

/// Element `i` meets every condition that `q` sets.
pub open spec fn query_accepts(q: Query, nodes: Seq<ElementData>, i: usize) -> bool {
    &&& q.role matches Some(t) ==> text_attr(nodes, i, "AXRole"@) == Some(t)
    &&& q.title matches Some(t) ==> text_attr(nodes, i, "AXTitle"@) == Some(t)
    &&& q.title_contains matches Some(t) ==> attr_contains(nodes, i, "AXTitle"@, t)
    &&& q.value_contains matches Some(t) ==> attr_contains(nodes, i, "AXValue"@, t)
    &&& q.subrole matches Some(t) ==> text_attr(nodes, i, "AXSubrole"@) == Some(t)
    &&& q.min_children matches Some(n) ==> child_ids(nodes, i).len() >= n
    &&& q.has_descendant_text matches Some(t) ==> some_contains(
        static_texts(nodes, i, TEXT_DEPTH as nat),
        t,
    )
    &&& q.dom_class matches Some(c) ==> list_attr(nodes, i, "AXDOMClassList"@).contains(c)
    &&& q.dom_sel matches Some(s) ==> selector_accepts(s, list_attr(nodes, i, "AXDOMClassList"@))
    &&& q.predicate matches Some(p) ==> p.contains(i)
}

/// The elements that `q` accepts.
pub open spec fn accepted_by(q: Query, nodes: Seq<ElementData>) -> spec_fn(usize) -> bool {
    |i: usize| query_accepts(q, nodes, i)
}

/// The elements up to `depth` levels below element `i` that `q` accepts.
pub open spec fn found(q: Query, nodes: Seq<ElementData>, i: usize, depth: nat) -> Seq<usize> {
    descendants(nodes, i, depth).filter(accepted_by(q, nodes))
}

/// Whether an attribute is the given text.
pub fn attr_is(element: Element<'_>, name: &str, want: &str) -> (r: bool)
    ensures
        r == (text_attr(element.nodes(), element.index(), name@) == Some(want@)),
{
    match attr_string(element, name) {
        Some(v) => same_text(v.as_str(), want),
        None => false,
    }
}

/// Whether an attribute is a text that holds the given part.
pub fn attr_holds(element: Element<'_>, name: &str, part: &str) -> (r: bool)
    ensures
        r == attr_contains(element.nodes(), element.index(), name@, part@),
{
    match attr_string(element, name) {
        Some(v) => contains_text(v.as_str(), part),
        None => false,
    }
}

/// Whether `part` stands in one of the texts.
pub fn some_text_contains(texts: &Vec<String>, part: &str) -> (r: bool)
    ensures
        r == some_contains(views(texts@), part@),
{
    for k in 0..texts.len()
        invariant
            forall|j: int| 0 <= j < k ==> !contains(#[trigger] views(texts@)[j], part@),
    {
        if contains_text(texts[k].as_str(), part) {
            assert(contains(views(texts@)[k as int], part@));
            return true;
        }
    }
    false
}

impl AXQuery {
    pub fn new() -> (q: Self)
        ensures
            q@ == Query::any(),
    {
        AXQuery {
            role: None,
            title: None,
            title_contains: None,
            value_contains: None,
            subrole: None,
            min_children: None,
            has_descendant_text: None,
            dom_class: None,
            dom_sel: None,
            predicate: None,
        }
    }

    pub fn role(self, r: &str) -> (q: Self)
        ensures
            q@ == (Query { role: Some(r@), ..self@ }),
    {
        AXQuery { role: Some(r.to_owned()), ..self }
    }

    pub fn title(self, t: &str) -> (q: Self)
        ensures
            q@ == (Query { title: Some(t@), ..self@ }),
    {
        AXQuery { title: Some(t.to_owned()), ..self }
    }

    pub fn title_contains(self, t: &str) -> (q: Self)
        ensures
            q@ == (Query { title_contains: Some(t@), ..self@ }),
    {
        AXQuery { title_contains: Some(t.to_owned()), ..self }
    }

    pub fn value_contains(self, v: &str) -> (q: Self)
        ensures
            q@ == (Query { value_contains: Some(v@), ..self@ }),
    {
        AXQuery { value_contains: Some(v.to_owned()), ..self }
    }

    pub fn subrole(self, s: &str) -> (q: Self)
        ensures
            q@ == (Query { subrole: Some(s@), ..self@ }),
    {
        AXQuery { subrole: Some(s.to_owned()), ..self }
    }

    /// Match only elements with at least `n` direct children.
    pub fn min_children(self, n: usize) -> (q: Self)
        ensures
            q@ == (Query { min_children: Some(n), ..self@ }),
    {
        AXQuery { min_children: Some(n), ..self }
    }

    /// Match only elements that contain the given text somewhere in their subtree.
    pub fn has_text(self, text: &str) -> (q: Self)
        ensures
            q@ == (Query { has_descendant_text: Some(text@), ..self@ }),
    {
        AXQuery { has_descendant_text: Some(text.to_owned()), ..self }
    }

    /// Match elements whose `AXDOMClassList` contains the given class.
    pub fn dom_class(self, class: &str) -> (q: Self)
        ensures
            q@ == (Query { dom_class: Some(class@), ..self@ }),
    {
        AXQuery { dom_class: Some(class.to_owned()), ..self }
    }

    /// Match elements with a CSS-class selector.
    pub fn dom_selector(self, selector: &str) -> (q: Self)
        ensures
            q@ == (Query { dom_sel: Some(parse_selector(selector@)), ..self@ }),
    {
        AXQuery { dom_sel: Some(DOMSelector::parse(selector)), ..self }
    }

    /// Match with a condition of the caller's own.
    pub fn filter(self, f: NodePredicate) -> (q: Self)
        ensures
            q@ == (Query { predicate: Some(f.accepted@), ..self@ }),
    {
        AXQuery { predicate: Some(f), ..self }
    }

    /// Whether an element meets every condition that is set.
    pub fn matches(&self, element: Element<'_>) -> (r: bool)
        ensures
            r == query_accepts(self@, element.nodes(), element.index()),
    {
        if let Some(r) = &self.role {
            if !attr_is(element, "AXRole", r.as_str()) {
                return false;
            }
        }
        if let Some(t) = &self.title {
            if !attr_is(element, "AXTitle", t.as_str()) {
                return false;
            }
        }
        if let Some(t) = &self.title_contains {
            if !attr_holds(element, "AXTitle", t.as_str()) {
                return false;
            }
        }
        if let Some(v) = &self.value_contains {
            if !attr_holds(element, "AXValue", v.as_str()) {
                return false;
            }
        }
        if let Some(s) = &self.subrole {
            if !attr_is(element, "AXSubrole", s.as_str()) {
                return false;
            }
        }
        if let Some(min) = self.min_children {
            if children(element).len() < min {
                return false;
            }
        }
        if let Some(text) = &self.has_descendant_text {
            let mut texts: Vec<String> = Vec::new();
            collect_static_texts(element, TEXT_DEPTH, &mut texts);
            assert(views(Seq::<String>::empty()) + static_texts(
                element.nodes(),
                element.index(),
                TEXT_DEPTH as nat,
            ) =~= static_texts(element.nodes(), element.index(), TEXT_DEPTH as nat));
            if !some_text_contains(&texts, text.as_str()) {
                return false;
            }
        }
        // The class list is read only where a condition asks for it.
        if self.dom_class.is_some() || self.dom_sel.is_some() {
            let classes = attr_string_list(element, "AXDOMClassList");
            if let Some(class) = &self.dom_class {
                if !has_name(&classes, class.as_str()) {
                    return false;
                }
            }
            if let Some(sel) = &self.dom_sel {
                if !sel.matches(&classes) {
                    return false;
                }
            }
        }
        if let Some(p) = &self.predicate {
            if !contains_id(&p.accepted, element.id()) {
                return false;
            }
        }
        true
    }
}

impl Clone for AXQuery {
    fn clone(&self) -> (r: Self)
        ensures
            r@ == self@,
    {
        AXQuery {
            role: copy_opt(&self.role),
            title: copy_opt(&self.title),
            title_contains: copy_opt(&self.title_contains),
            value_contains: copy_opt(&self.value_contains),
            subrole: copy_opt(&self.subrole),
            min_children: self.min_children,
            has_descendant_text: copy_opt(&self.has_descendant_text),
            dom_class: copy_opt(&self.dom_class),
            dom_sel: match &self.dom_sel {
                Some(s) => Some(s.clone()),
                None => None,
            },
            predicate: match &self.predicate {
                Some(p) => Some(p.clone()),
                None => None,
            },
        }
    }
}

impl Default for AXQuery {
    fn default() -> (q: Self)
        ensures
            q@ == Query::any(),
    {
        AXQuery::new()
    }
}

/// A query that matches a role.
pub fn role(r: &str) -> (q: AXQuery)
    ensures
        q@ == (Query { role: Some(r@), ..Query::any() }),
{
    AXQuery::new().role(r)
}

/// A query that matches a title.
pub fn title(t: &str) -> (q: AXQuery)
    ensures
        q@ == (Query { title: Some(t@), ..Query::any() }),
{
    AXQuery::new().title(t)
}

// ---------------------------------------------------------------------------
// Searching
// ---------------------------------------------------------------------------

/// The first element that matches `query` up to `max_depth` levels below
/// `root`.
pub fn find_first<'a>(root: Element<'a>, query: &AXQuery, max_depth: usize) -> (r: Option<
    Element<'a>,
>)
    ensures
        is_handle(
            r,
            root.nodes(),
            first_of(found(query@, root.nodes(), root.index(), max_depth as nat)),
        ),
    decreases max_depth,
{
    let ghost nodes = root.nodes();
    let ghost pred = accepted_by(query@, nodes);
    proof {
        reveal(Seq::filter);
    }
    if max_depth == 0 {
        return None;
    }
    let ghost ids = child_ids(nodes, root.index());
    let ghost depth = max_depth as nat;
    let kids = children(root);
    for k in 0..kids.len()
        invariant
            max_depth > 0,
            depth == max_depth,
            lists(kids@, nodes, ids),
            pred == accepted_by(query@, nodes),
            nodes == root.nodes(),
            ids == child_ids(nodes, root.index()),
            subtrees(nodes, ids.take(k as int), depth).filter(pred).len() == 0,
    {
        let kid = kids[k];
        proof {
            lemma_subtrees_filter_step(nodes, ids, depth, k as int, pred);
            lemma_found_prefix(nodes, ids, depth, k + 1, pred);
        }
        let ghost part = subtrees(nodes, ids.take(k + 1), depth).filter(pred);
        if query.matches(kid) {
            assert(part[0] == ids[k as int]);
            return Some(kid);
        }
        let below = find_first(kid, query, max_depth - 1);
        if below.is_some() {
            return below;
        }
    }
    assert(ids.take(kids@.len() as int) =~= ids);
    None
}

/// What is found among the first `k` subtrees is a prefix of what is found
/// among all.
pub proof fn lemma_found_prefix(
    nodes: Seq<ElementData>,
    ids: Seq<usize>,
    depth: nat,
    k: int,
    pred: spec_fn(usize) -> bool,
)
    requires
        0 <= k <= ids.len(),
        depth > 0,
    ensures
        subtrees(nodes, ids.take(k), depth).filter(pred).is_prefix_of(
            subtrees(nodes, ids, depth).filter(pred),
        ),
    decreases ids.len() - k,
{
    let part = subtrees(nodes, ids.take(k), depth).filter(pred);
    let all = subtrees(nodes, ids, depth).filter(pred);
    if k == ids.len() {
        assert(ids.take(k) =~= ids);
    } else {
        lemma_found_prefix(nodes, ids, depth, k + 1, pred);
        lemma_subtrees_filter_step(nodes, ids, depth, k, pred);
    }
}

/// All elements that match `query` up to `max_depth` levels below `root`.
pub fn find_all<'a>(root: Element<'a>, query: &AXQuery, max_depth: usize) -> (r: Vec<Element<'a>>)
    ensures
        lists(
            r@,
            root.nodes(),
            found(query@, root.nodes(), root.index(), max_depth as nat),
        ),
{
    let mut results: Vec<Element<'a>> = Vec::new();
    find_all_inner(root, query, max_depth, &mut results, Ghost(Seq::empty()));
    assert(Seq::<usize>::empty() + found(query@, root.nodes(), root.index(), max_depth as nat)
        =~= found(query@, root.nodes(), root.index(), max_depth as nat));
    results
}

fn find_all_inner<'a>(
    root: Element<'a>,
    query: &AXQuery,
    max_depth: usize,
    results: &mut Vec<Element<'a>>,
    Ghost(start): Ghost<Seq<usize>>,
)
    requires
        lists(old(results)@, root.nodes(), start),
    ensures
        lists(
            final(results)@,
            root.nodes(),
            start + found(query@, root.nodes(), root.index(), max_depth as nat),
        ),
    decreases max_depth,
{
    let ghost nodes = root.nodes();
    let ghost pred = accepted_by(query@, nodes);
    proof {
        reveal(Seq::filter);
    }
    if max_depth == 0 {
        assert(start + found(query@, nodes, root.index(), 0) =~= start);
        return;
    }
    let ghost ids = child_ids(nodes, root.index());
    let ghost depth = max_depth as nat;
    let kids = children(root);
    assert(start + subtrees(nodes, ids.take(0), depth).filter(pred) =~= start);
    for k in 0..kids.len()
        invariant
            max_depth > 0,
            depth == max_depth,
            lists(kids@, nodes, ids),
            pred == accepted_by(query@, nodes),
            lists(
                results@,
                nodes,
                start + subtrees(nodes, ids.take(k as int), depth).filter(pred),
            ),
    {
        let kid = kids[k];
        let ghost front = start + subtrees(nodes, ids.take(k as int), depth).filter(pred);
        let ghost own = if pred(ids[k as int]) {
            seq![ids[k as int]]
        } else {
            Seq::empty()
        };
        proof {
            lemma_subtrees_filter_step(nodes, ids, depth, k as int, pred);
        }
        if query.matches(kid) {
            results.push(kid);
        }
        find_all_inner(kid, query, max_depth - 1, results, Ghost(front + own));
        assert(front + own + found(query@, nodes, ids[k as int], (depth - 1) as nat) =~= start
            + subtrees(nodes, ids.take(k + 1), depth).filter(pred));
    }
    assert(ids.take(kids@.len() as int) =~= ids);
}

/// The first `limit` elements that match `query` up to `max_depth` levels below
/// `root`, or all of them for a `limit` of `usize::MAX`.
pub fn find_limited<'a>(
    root: Element<'a>,
    query: &AXQuery,
    max_depth: usize,
    limit: usize,
) -> (r: Vec<Element<'a>>)
    ensures
        lists(
            r@,
            root.nodes(),
            limited(found(query@, root.nodes(), root.index(), max_depth as nat), limit),
        ),
{
    if limit == usize::MAX {
        return find_all(root, query, max_depth);
    }
    let mut results: Vec<Element<'a>> = Vec::new();
    find_limited_inner(root, query, max_depth, limit, &mut results, Ghost(Seq::empty()));
    assert(Seq::<usize>::empty() + found(query@, root.nodes(), root.index(), max_depth as nat)
        =~= found(query@, root.nodes(), root.index(), max_depth as nat));
    results
}

fn find_limited_inner<'a>(
    root: Element<'a>,
    query: &AXQuery,
    max_depth: usize,
    limit: usize,
    results: &mut Vec<Element<'a>>,
    Ghost(start): Ghost<Seq<usize>>,
)
    requires
        lists(old(results)@, root.nodes(), clip(start, limit as nat)),
    ensures
        lists(
            final(results)@,
            root.nodes(),
            clip(
                start + found(query@, root.nodes(), root.index(), max_depth as nat),
                limit as nat,
            ),
        ),
    decreases max_depth,
{
    let ghost nodes = root.nodes();
    let ghost pred = accepted_by(query@, nodes);
    let ghost all = found(query@, nodes, root.index(), max_depth as nat);
    proof {
        reveal(Seq::filter);
    }
    if max_depth == 0 {
        assert(start + all =~= start);
        return;
    }
    if results.len() >= limit {
        proof {
            lemma_clip_full(start, all, limit as nat);
        }
        return;
    }
    let ghost ids = child_ids(nodes, root.index());
    let ghost depth = max_depth as nat;
    let kids = children(root);
    assert(start + subtrees(nodes, ids.take(0), depth).filter(pred) =~= start);
    for k in 0..kids.len()
        invariant
            max_depth > 0,
            depth == max_depth,
            lists(kids@, nodes, ids),
            nodes == root.nodes(),
            ids == child_ids(nodes, root.index()),
            all == found(query@, nodes, root.index(), max_depth as nat),
            pred == accepted_by(query@, nodes),
            lists(
                results@,
                nodes,
                clip(
                    start + subtrees(nodes, ids.take(k as int), depth).filter(pred),
                    limit as nat,
                ),
            ),
            results@.len() < limit,
    {
        let kid = kids[k];
        let ghost front = start + subtrees(nodes, ids.take(k as int), depth).filter(pred);
        let ghost own = if pred(ids[k as int]) {
            seq![ids[k as int]]
        } else {
            Seq::empty()
        };
        let ghost below = found(query@, nodes, ids[k as int], (depth - 1) as nat);
        let ghost next = start + subtrees(nodes, ids.take(k + 1), depth).filter(pred);
        proof {
            lemma_subtrees_filter_step(nodes, ids, depth, k as int, pred);
            assert(next =~= front + own + below);
            lemma_found_prefix(nodes, ids, depth, k + 1, pred);
            let rest = all.skip(subtrees(nodes, ids.take(k + 1), depth).filter(pred).len() as int);
            assert(start + all =~= next + rest);
            if next.len() >= limit {
                lemma_clip_full(next, rest, limit as nat);
            }
        }
        if query.matches(kid) {
            results.push(kid);
        }
        assert(clip(front + own, limit as nat) =~= front + own);
        find_limited_inner(kid, query, max_depth - 1, limit, results, Ghost(front + own));
        if results.len() >= limit {
            return;
        }
    }
    assert(ids.take(kids@.len() as int) =~= ids);
}

// ---------------------------------------------------------------------------
// Laws
// ---------------------------------------------------------------------------

/// A query that sets no condition accepts every element.
pub proof fn lemma_any_accepts(nodes: Seq<ElementData>, i: usize)
    ensures
        query_accepts(Query::any(), nodes, i),
{
}

/// A search finds exactly the elements within its depth that the query accepts.
pub proof fn lemma_found(q: Query, nodes: Seq<ElementData>, i: usize, depth: nat, x: usize)
    ensures
        found(q, nodes, i, depth).contains(x) <==> descendants(nodes, i, depth).contains(x)
            && query_accepts(q, nodes, x),
{
    let all = descendants(nodes, i, depth);
    let pred = accepted_by(q, nodes);
    if all.contains(x) && pred(x) {
        let m = choose|m: int| 0 <= m < all.len() && all[m] == x;
        all.lemma_filter_contains(pred, m);
    }
    if all.filter(pred).contains(x) {
        all.lemma_filter_contains_rev(pred, x);
        let m = choose|m: int| 0 <= m < all.filter(pred).len() && all.filter(pred)[m] == x;
        all.lemma_filter_pred(pred, m);
    }
}

/// A deeper search finds everything that a shallower one finds.
pub proof fn lemma_found_deeper(
    q: Query,
    nodes: Seq<ElementData>,
    i: usize,
    a: nat,
    b: nat,
    x: usize,
)
    requires
        a <= b,
        found(q, nodes, i, a).contains(x),
    ensures
        found(q, nodes, i, b).contains(x),
{
    lemma_found(q, nodes, i, a, x);
    lemma_descendants_deeper(nodes, i, a, b, x);
    lemma_found(q, nodes, i, b, x);
}

/// A limited search finds the first elements that the search without a limit
/// finds, as many as the limit allows; and the same first element, where the
/// limit allows one.
pub proof fn lemma_found_limited(
    q: Query,
    nodes: Seq<ElementData>,
    i: usize,
    depth: nat,
    limit: usize,
)
    ensures
        limited(found(q, nodes, i, depth), limit).is_prefix_of(found(q, nodes, i, depth)),
        limit < usize::MAX ==> limited(found(q, nodes, i, depth), limit).len() <= limit,
        limited(found(q, nodes, i, depth), limit).len() < limit ==> limited(
            found(q, nodes, i, depth),
            limit,
        ) == found(q, nodes, i, depth),
        limit > 0 ==> first_of(limited(found(q, nodes, i, depth), limit)) == first_of(
            found(q, nodes, i, depth),
        ),
{
}

/// The text below an element is that of the static texts which a search for
/// their role finds.
pub proof fn lemma_static_texts_found(nodes: Seq<ElementData>, i: usize, depth: nat)
    ensures
        static_texts(nodes, i, depth) == static_values(
            nodes,
            found(Query { role: Some("AXStaticText"@), ..Query::any() }, nodes, i, depth),
        ),
{
    let q = Query { role: Some("AXStaticText"@), ..Query::any() };
    lemma_static_values_filter(nodes, descendants(nodes, i, depth), accepted_by(q, nodes));
}

/// What each condition of a query asks of an element, where it alone is set.
pub proof fn lemma_one_condition(
    nodes: Seq<ElementData>,
    i: usize,
    t: Seq<char>,
    n: usize,
    groups: Seq<ClassGroup>,
    ids: Seq<usize>,
)
    ensures
        query_accepts(Query { role: Some(t), ..Query::any() }, nodes, i) <==> text_attr(
            nodes,
            i,
            "AXRole"@,
        ) == Some(t),
        query_accepts(Query { title: Some(t), ..Query::any() }, nodes, i) <==> text_attr(
            nodes,
            i,
            "AXTitle"@,
        ) == Some(t),
        query_accepts(Query { title_contains: Some(t), ..Query::any() }, nodes, i) <==> (text_attr(
            nodes,
            i,
            "AXTitle"@,
        ) matches Some(v) && exists|k: int| occurs_at(v, t, k)),
        query_accepts(Query { value_contains: Some(t), ..Query::any() }, nodes, i) <==> (text_attr(
            nodes,
            i,
            "AXValue"@,
        ) matches Some(v) && exists|k: int| occurs_at(v, t, k)),
        query_accepts(Query { subrole: Some(t), ..Query::any() }, nodes, i) <==> text_attr(
            nodes,
            i,
            "AXSubrole"@,
        ) == Some(t),
        query_accepts(Query { min_children: Some(n), ..Query::any() }, nodes, i) <==> child_ids(
            nodes,
            i,
        ).len() >= n,
        query_accepts(Query { dom_class: Some(t), ..Query::any() }, nodes, i) <==> list_attr(
            nodes,
            i,
            "AXDOMClassList"@,
        ).contains(t),
        query_accepts(Query { dom_sel: Some(groups), ..Query::any() }, nodes, i)
            <==> selector_accepts(groups, list_attr(nodes, i, "AXDOMClassList"@)),
        query_accepts(Query { predicate: Some(ids), ..Query::any() }, nodes, i) <==> ids.contains(
            i,
        ),
{
    if let Some(v) = text_attr(nodes, i, "AXTitle"@) {
        assert(contains(v, t) <==> exists|k: int| occurs_at(v, t, k));
    }
    if let Some(v) = text_attr(nodes, i, "AXValue"@) {
        assert(contains(v, t) <==> exists|k: int| occurs_at(v, t, k));
    }
}

/// The condition on the text below asks for a static text up to 15 levels below
/// whose value holds the text.
pub proof fn lemma_text_condition(nodes: Seq<ElementData>, i: usize, t: Seq<char>)
    ensures
        query_accepts(Query { has_descendant_text: Some(t), ..Query::any() }, nodes, i)
            <==> exists|x: usize, k: int|
            #![trigger static_text_holds(nodes, x, t, k)]
            descendants(nodes, i, 15).contains(x) && static_text_holds(nodes, x, t, k),
{
    lemma_some_static_text(nodes, descendants(nodes, i, 15), t);
}

/// Element `x` is a static text, and `t` stands at position `k` of its value.
pub open spec fn static_text_holds(
    nodes: Seq<ElementData>,
    x: usize,
    t: Seq<char>,
    k: int,
) -> bool {
    &&& text_attr(nodes, x, "AXRole"@) == Some("AXStaticText"@)
    &&& text_attr(nodes, x, "AXValue"@) matches Some(v) && occurs_at(v, t, k)
}

/// A text stands in one of the values of the static texts among `ids` exactly where
/// one of them is a static text that holds it.
pub proof fn lemma_some_static_text(nodes: Seq<ElementData>, ids: Seq<usize>, t: Seq<char>)
    ensures
        some_contains(static_values(nodes, ids), t) <==> exists|x: usize, k: int|
            #![trigger static_text_holds(nodes, x, t, k)]
            ids.contains(x) && static_text_holds(nodes, x, t, k),
    decreases ids.len(),
{
    if ids.len() > 0 {
        let front = ids.drop_last();
        let last = ids.last();
        let values = static_values(nodes, ids);
        let before = static_values(nodes, front);
        lemma_some_static_text(nodes, front, t);
        assert(ids[ids.len() - 1] == last);
        if some_contains(values, t) {
            let m = choose|m: int| 0 <= m < values.len() && contains(#[trigger] values[m], t);
            if m < before.len() {
                assert(values[m] == before[m]);
                assert(some_contains(before, t));
                let (x, k) = choose|x: usize, k: int|
                    #![trigger static_text_holds(nodes, x, t, k)]
                    front.contains(x) && static_text_holds(nodes, x, t, k);
                let j = choose|j: int| 0 <= j < front.len() && front[j] == x;
                assert(ids[j] == x);
                assert(ids.contains(x) && static_text_holds(nodes, x, t, k));
            } else {
                let k = choose|k: int| occurs_at(values[m], t, k);
                assert(static_text_holds(nodes, last, t, k));
                assert(ids.contains(last));
            }
        }
        if exists|x: usize, k: int|
            #![trigger static_text_holds(nodes, x, t, k)]
            ids.contains(x) && static_text_holds(nodes, x, t, k) {
            let (x, k) = choose|x: usize, k: int|
                #![trigger static_text_holds(nodes, x, t, k)]
                ids.contains(x) && static_text_holds(nodes, x, t, k);
            let j = choose|j: int| 0 <= j < ids.len() && ids[j] == x;
            if j < front.len() {
                assert(front[j] == x);
                assert(front.contains(x) && static_text_holds(nodes, x, t, k));
                let m = choose|m: int| 0 <= m < before.len() && contains(#[trigger] before[m], t);
                assert(values[m] == before[m]);
            } else {
                let v = text_attr(nodes, last, "AXValue"@)->0;
                assert(values[before.len() as int] == v);
                assert(occurs_at(v, t, k));
                assert(contains(values[before.len() as int], t));
            }
        }
    }
}

/// A query accepts exactly what each of its conditions accepts.
pub proof fn lemma_all_conditions(q: Query, nodes: Seq<ElementData>, i: usize)
    ensures
        query_accepts(q, nodes, i) <==> {
            &&& query_accepts(Query { role: q.role, ..Query::any() }, nodes, i)
            &&& query_accepts(Query { title: q.title, ..Query::any() }, nodes, i)
            &&& query_accepts(Query { title_contains: q.title_contains, ..Query::any() }, nodes, i)
            &&& query_accepts(Query { value_contains: q.value_contains, ..Query::any() }, nodes, i)
            &&& query_accepts(Query { subrole: q.subrole, ..Query::any() }, nodes, i)
            &&& query_accepts(Query { min_children: q.min_children, ..Query::any() }, nodes, i)
            &&& query_accepts(
                Query { has_descendant_text: q.has_descendant_text, ..Query::any() },
                nodes,
                i,
            )
            &&& query_accepts(Query { dom_class: q.dom_class, ..Query::any() }, nodes, i)
            &&& query_accepts(Query { dom_sel: q.dom_sel, ..Query::any() }, nodes, i)
            &&& query_accepts(Query { predicate: q.predicate, ..Query::any() }, nodes, i)
        },
{
}

/// The values of the static texts below an element, in the order in which the
/// elements stand there.
pub proof fn lemma_static_texts_in_order(nodes: Seq<ElementData>, i: usize, depth: nat)
    ensures
        static_texts(nodes, i, depth) == descendants(nodes, i, depth).fold_left(
            Seq::<Seq<char>>::empty(),
            |values: Seq<Seq<char>>, x: usize|
                if text_attr(nodes, x, "AXRole"@) == Some("AXStaticText"@) && text_attr(
                    nodes,
                    x,
                    "AXValue"@,
                ) is Some {
                    values.push(text_attr(nodes, x, "AXValue"@)->0)
                } else {
                    values
                },
        ),
{
    lemma_static_values_fold(nodes, descendants(nodes, i, depth));
}

proof fn lemma_static_values_fold(nodes: Seq<ElementData>, ids: Seq<usize>)
    ensures
        static_values(nodes, ids) == ids.fold_left(
            Seq::<Seq<char>>::empty(),
            |values: Seq<Seq<char>>, x: usize|
                if text_attr(nodes, x, "AXRole"@) == Some("AXStaticText"@) && text_attr(
                    nodes,
                    x,
                    "AXValue"@,
                ) is Some {
                    values.push(text_attr(nodes, x, "AXValue"@)->0)
                } else {
                    values
                },
        ),
    decreases ids.len(),
{
    if ids.len() > 0 {
        lemma_static_values_fold(nodes, ids.drop_last());
    }
}

/// What a query stands for: each of its conditions, as it is set.
pub proof fn lemma_query_view(q: AXQuery)
    ensures
        q@.role == opt_text(q.role) && q@.title == opt_text(q.title),
        q@.title_contains == opt_text(q.title_contains),
        q@.value_contains == opt_text(q.value_contains),
        q@.subrole == opt_text(q.subrole) && q@.min_children == q.min_children,
        q@.has_descendant_text == opt_text(q.has_descendant_text),
        q@.dom_class == opt_text(q.dom_class),
        q.dom_sel matches Some(s) ==> q@.dom_sel == Some(s@),
        q.dom_sel is None ==> q@.dom_sel is None,
        q.predicate matches Some(p) ==> q@.predicate == Some(p.accepted@),
        q.predicate is None ==> q@.predicate is None,
{
}

} // verus!

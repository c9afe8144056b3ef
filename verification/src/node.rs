//! A convenient handle on an element.

use vstd::prelude::*;
use crate::dom_selector::has_name;
use crate::generate::{generate_locator, locator_for, only};
use crate::query::{
    accepted_by, find_all, find_first, found, lemma_static_values_filter, query_accepts, role,
    static_texts, static_values, AXQuery, Query,
};
use crate::resolve::{located, resolve_locator, resolve_locator_all, LOCATE_DEPTH};
use crate::text::{join, join_texts, opt_text, views};
use crate::tree::{
    action_names, attr_element, attr_names, attr_names_of, attr_string, attr_string_list, child_ids,
    children, descendants, first_of, is_handle, list_attr, lists, parent_id, text_attr,
    window_id_for_element, window_number, Element, ElementData,
};
use crate::unicode::{quote, quoted};

verus! {

/// A handle on an element.
#[derive(Clone, Copy)]
pub struct AXNode<'a>(pub Element<'a>);

/// How far below `find` and `find_all` look.
pub const FIND_DEPTH: usize = 20;

/// How far below a step of `select` looks.
pub const SELECT_DEPTH: usize = 30;

/// A change that is asked of an element.
#[derive(Debug)]
pub enum Change {
    /// Perform the named action.
    Perform(String),
    /// Set the named attribute to a text.
    SetText(String, String),
    /// Set the named attribute to a truth value.
    SetFlag(String, bool),
}

/// What a change asks for.
pub ghost enum Asked {
    Perform(Seq<char>),
    SetText(Seq<char>, Seq<char>),
    SetFlag(Seq<char>, bool),
}

impl View for Change {
    type V = Asked;

    open spec fn view(&self) -> Asked {
        match self {
            Change::Perform(a) => Asked::Perform(a@),
            Change::SetText(a, t) => Asked::SetText(a@, t@),
            Change::SetFlag(a, b) => Asked::SetFlag(a@, *b),
        }
    }
}

/// A change, and the element of which it is asked.
pub struct Request<'a> {
    pub node: AXNode<'a>,
    pub change: Change,
}

/// Element `n` of `ids`, where there is one.
pub open spec fn number_of(ids: Seq<usize>, n: nat) -> Option<usize> {
    if n < ids.len() {
        Some(ids[n as int])
    } else {
        None
    }
}

/// The children of element `i` that `q` accepts.
pub open spec fn matching_children(q: Query, nodes: Seq<ElementData>, i: usize) -> Seq<usize> {
    child_ids(nodes, i).filter(accepted_by(q, nodes))
}

/// The views of a list of queries.
pub open spec fn query_views(v: Seq<AXQuery>) -> Seq<Query> {
    Seq::new(v.len(), |i: int| v[i]@)
}

/// Where a path of queries leads from element `i`: each goes on to the first
/// element that it accepts, below or among the children.
pub open spec fn path_end(
    nodes: Seq<ElementData>,
    i: usize,
    steps: Seq<Query>,
    direct: bool,
) -> Option<usize>
    decreases steps.len(),
{
    if steps.len() == 0 {
        Some(i)
    } else {
        match path_end(nodes, i, steps.drop_last(), direct) {
            Some(j) => if direct {
                first_of(matching_children(steps.last(), nodes, j))
            } else {
                first_of(found(steps.last(), nodes, j, SELECT_DEPTH as nat))
            },
            None => None,
        }
    }
}

/// A path that has come to nothing stays there.
proof fn lemma_path_stops(
    nodes: Seq<ElementData>,
    i: usize,
    steps: Seq<Query>,
    direct: bool,
    k: int,
)
    requires
        0 <= k <= steps.len(),
        path_end(nodes, i, steps.take(k), direct) is None,
    ensures
        path_end(nodes, i, steps, direct) is None,
    decreases steps.len() - k,
{
    if k == steps.len() {
        assert(steps.take(k) =~= steps);
    } else {
        assert(steps.take(k + 1).drop_last() =~= steps.take(k));
        lemma_path_stops(nodes, i, steps, direct, k + 1);
    }
}

/// An optional text as it is shown for debugging.
pub open spec fn shown(t: Option<Seq<char>>) -> Seq<char> {
    match t {
        Some(s) => "Some("@ + quoted(s) + ")"@,
        None => "None"@,
    }
}

fn push_shown(out: &mut String, t: &Option<String>)
    ensures
        final(out)@ == old(out)@ + shown(opt_text(*t)),
{
    let ghost before = out@;
    match t {
        Some(s) => {
            out.append("Some(");
            out.append(quote(s.as_str()).as_str());
            out.append(")");
            assert(out@ =~= before + shown(opt_text(*t)));
        },
        None => {
            out.append("None");
        },
    }
}

/// The elements that the handles `v` are on.
pub open spec fn elements_of(v: Seq<AXNode<'_>>) -> Seq<Element<'_>> {
    Seq::new(v.len(), |i: int| v[i].0)
}

/// The handles `v` are on the elements `ids` of the snapshot `nodes`.
pub open spec fn lists_nodes(
    v: Seq<AXNode<'_>>,
    nodes: Seq<ElementData>,
    ids: Seq<usize>,
) -> bool {
    lists(elements_of(v), nodes, ids)
}

/// The handle `r`, where there is one, is on the element `id` of `nodes`.
pub open spec fn is_node(
    r: Option<AXNode<'_>>,
    nodes: Seq<ElementData>,
    id: Option<usize>,
) -> bool {
    is_handle(
        match r {
            Some(n) => Some(n.0),
            None => None,
        },
        nodes,
        id,
    )
}

/// The handles on the elements.
pub fn wrap_all<'a>(elements: &Vec<Element<'a>>) -> (r: Vec<AXNode<'a>>)
    ensures
        elements_of(r@) == elements@,
{
    let mut out: Vec<AXNode<'a>> = Vec::new();
    for i in 0..elements.len()
        invariant
            elements_of(out@) == elements@.take(i as int),
    {
        let ghost before = out@;
        out.push(AXNode(elements[i]));
        assert(elements_of(out@) =~= elements_of(before).push(elements@[i as int]));
        assert(elements@.take(i + 1) =~= elements@.take(i as int).push(elements@[i as int]));
    }
    assert(elements@.take(elements@.len() as int) =~= elements@);
    out
}

/// The handle on the element, where there is one.
fn wrap(element: Option<Element<'_>>) -> (r: Option<AXNode<'_>>)
    ensures
        match (element, r) {
            (Some(e), Some(n)) => n.0 == e,
            (None, None) => true,
            _ => false,
        },
{
    match element {
        Some(e) => Some(AXNode(e)),
        None => None,
    }
}

impl<'a> AXNode<'a> {
    /// The elements of the snapshot that the handle is on.
    pub open spec fn nodes(self) -> Seq<ElementData> {
        self.0.nodes()
    }

    /// The position of the element.
    pub open spec fn index(self) -> usize {
        self.0.index()
    }

    /// A handle on an element.
    pub fn new(element: Element<'a>) -> (r: Self)
        ensures
            r.0 == element,
    {
        AXNode(element)
    }

    pub fn role(&self) -> (r: Option<String>)
        ensures
            opt_text(r) == text_attr(self.nodes(), self.index(), "AXRole"@),
    {
        attr_string(self.0, "AXRole")
    }

    pub fn title(&self) -> (r: Option<String>)
        ensures
            opt_text(r) == text_attr(self.nodes(), self.index(), "AXTitle"@),
    {
        attr_string(self.0, "AXTitle")
    }

    pub fn value(&self) -> (r: Option<String>)
        ensures
            opt_text(r) == text_attr(self.nodes(), self.index(), "AXValue"@),
    {
        attr_string(self.0, "AXValue")
    }

    pub fn description(&self) -> (r: Option<String>)
        ensures
            opt_text(r) == text_attr(self.nodes(), self.index(), "AXDescription"@),
    {
        attr_string(self.0, "AXDescription")
    }

    pub fn subrole(&self) -> (r: Option<String>)
        ensures
            opt_text(r) == text_attr(self.nodes(), self.index(), "AXSubrole"@),
    {
        attr_string(self.0, "AXSubrole")
    }

    /// The DOM classes, which web content has.
    pub fn dom_classes(&self) -> (r: Vec<String>)
        ensures
            views(r@) == list_attr(self.nodes(), self.index(), "AXDOMClassList"@),
    {
        attr_string_list(self.0, "AXDOMClassList")
    }

    /// Whether the element has a DOM class.
    pub fn has_dom_class(&self, class: &str) -> (r: bool)
        ensures
            r == list_attr(self.nodes(), self.index(), "AXDOMClassList"@).contains(class@),
    {
        has_name(&self.dom_classes(), class)
    }

    /// The names of the attributes.
    pub fn attr_names(&self) -> (r: Vec<String>)
        ensures
            views(r@) == attr_names_of(self.nodes(), self.index()),
    {
        attr_names(self.0)
    }

    /// The direct children.
    pub fn children(&self) -> (r: Vec<AXNode<'a>>)
        ensures
            lists_nodes(r@, self.nodes(), child_ids(self.nodes(), self.index())),
    {
        wrap_all(&children(self.0))
    }

    /// Child number `index`, counted from 0.
    pub fn child(&self, index: usize) -> (r: Option<AXNode<'a>>)
        ensures
            is_node(
                r,
                self.nodes(),
                number_of(child_ids(self.nodes(), self.index()), index as nat),
            ),
    {
        let kids = children(self.0);
        if index < kids.len() {
            Some(AXNode(kids[index]))
        } else {
            None
        }
    }

    /// The number of direct children.
    pub fn child_count(&self) -> (n: usize)
        ensures
            n == child_ids(self.nodes(), self.index()).len(),
    {
        children(self.0).len()
    }

    /// The first direct child that matches a query.
    pub fn child_matching(&self, q: &AXQuery) -> (r: Option<AXNode<'a>>)
        ensures
            is_node(
                r,
                self.nodes(),
                first_of(matching_children(q@, self.nodes(), self.index())),
            ),
    {
        let all = self.children_matching(q);
        if all.len() > 0 {
            let n = all[0];
            assert(elements_of(all@)[0] == n.0);
            Some(n)
        } else {
            None
        }
    }

    /// All direct children that match a query.
    pub fn children_matching(&self, q: &AXQuery) -> (r: Vec<AXNode<'a>>)
        ensures
            lists_nodes(r@, self.nodes(), matching_children(q@, self.nodes(), self.index())),
    {
        let kids = children(self.0);
        let ghost nodes = self.nodes();
        let ghost ids = child_ids(nodes, self.index());
        let ghost pred = accepted_by(q@, nodes);
        let mut found: Vec<Element<'a>> = Vec::new();
        proof {
            reveal(Seq::filter);
        }
        for k in 0..kids.len()
            invariant
                lists(kids@, nodes, ids),
                pred == accepted_by(q@, nodes),
                lists(found@, nodes, ids.take(k as int).filter(pred)),
        {
            proof {
                reveal(Seq::filter);
                assert(ids.take(k + 1).drop_last() =~= ids.take(k as int));
            }
            let kid = kids[k];
            if q.matches(kid) {
                found.push(kid);
            }
        }
        assert(ids.take(kids@.len() as int) =~= ids);
        wrap_all(&found)
    }

    /// The first element up to `FIND_DEPTH` levels below that matches a query.
    pub fn find(&self, q: AXQuery) -> (r: Option<AXNode<'a>>)
        ensures
            is_node(
                r,
                self.nodes(),
                first_of(found(q@, self.nodes(), self.index(), FIND_DEPTH as nat)),
            ),
    {
        wrap(find_first(self.0, &q, FIND_DEPTH))
    }

    /// All elements up to `FIND_DEPTH` levels below that match a query.
    pub fn find_all(&self, q: AXQuery) -> (r: Vec<AXNode<'a>>)
        ensures
            lists_nodes(
                r@,
                self.nodes(),
                found(q@, self.nodes(), self.index(), FIND_DEPTH as nat),
            ),
    {
        wrap_all(&find_all(self.0, &q, FIND_DEPTH))
    }

    /// The first element that a locator string leads to.
    pub fn locate(&self, locator: &str) -> (r: Option<AXNode<'a>>)
        ensures
            is_node(
                r,
                self.nodes(),
                first_of(located(self.nodes(), self.index(), locator@)),
            ),
    {
        wrap(resolve_locator(self.0, locator))
    }

    /// All elements that a locator string leads to.
    pub fn locate_all(&self, locator: &str) -> (r: Vec<AXNode<'a>>)
        ensures
            lists_nodes(r@, self.nodes(), located(self.nodes(), self.index(), locator@)),
    {
        wrap_all(&resolve_locator_all(self.0, locator))
    }

    /// A locator string for `target`, an element below.
    pub fn locator(&self, target: &AXNode<'_>) -> (r: String)
        requires
            self.nodes() == target.nodes(),
        ensures
            r@ == locator_for(self.nodes(), self.index(), target.index()),
            descendants(self.nodes(), self.index(), LOCATE_DEPTH as nat).contains(target.index())
                ==> only(located(self.nodes(), self.index(), r@), target.index()) && first_of(
                located(self.nodes(), self.index(), r@),
            ) == Some(target.index()),
    {
        generate_locator(self.0, target.0)
    }

    /// Follows a path of queries: each step goes to the first element below,
    /// up to `SELECT_DEPTH` levels, that matches.
    pub fn select(&self, steps: &[AXQuery]) -> (r: Option<AXNode<'a>>)
        ensures
            is_node(
                r,
                self.nodes(),
                path_end(self.nodes(), self.index(), query_views(steps@), false),
            ),
    {
        self.follow(steps, false)
    }

    /// Follows a path of queries, each step among the direct children only.
    pub fn select_direct(&self, steps: &[AXQuery]) -> (r: Option<AXNode<'a>>)
        ensures
            is_node(
                r,
                self.nodes(),
                path_end(self.nodes(), self.index(), query_views(steps@), true),
            ),
    {
        self.follow(steps, true)
    }

    fn follow(&self, steps: &[AXQuery], direct: bool) -> (r: Option<AXNode<'a>>)
        ensures
            is_node(
                r,
                self.nodes(),
                path_end(self.nodes(), self.index(), query_views(steps@), direct),
            ),
    {
        let ghost nodes = self.nodes();
        let ghost all = query_views(steps@);
        let ghost start = self.index();
        let mut current = *self;
        current.0.always_valid();
        for k in 0..steps.len()
            invariant
                nodes == self.nodes(),
                start == self.index(),
                all == query_views(steps@),
                current.nodes() == nodes,
                current.0.valid(),
                path_end(nodes, start, all.take(k as int), direct) == Some(current.index()),
        {
            proof {
                assert(all.take(k + 1).drop_last() =~= all.take(k as int));
                assert(all.take(k + 1).last() == steps@[k as int]@);
            }
            let next = if direct {
                current.child_matching(&steps[k])
            } else {
                wrap(find_first(current.0, &steps[k], SELECT_DEPTH))
            };
            match next {
                Some(n) => {
                    current = n;
                },
                None => {
                    proof {
                        lemma_path_stops(nodes, start, all, direct, k + 1);
                    }
                    return None;
                },
            }
        }
        assert(all.take(steps@.len() as int) =~= all);
        Some(current)
    }

    /// The values of the static texts up to `max_depth` levels below.
    pub fn texts(&self, max_depth: usize) -> (r: Vec<String>)
        ensures
            views(r@) == static_texts(self.nodes(), self.index(), max_depth as nat),
    {
        let elements = find_all(self.0, &role("AXStaticText"), max_depth);
        let ghost q = Query { role: Some("AXStaticText"@), ..Query::any() };
        let ghost ids = found(q, self.nodes(), self.index(), max_depth as nat);
        let ghost pred = accepted_by(q, self.nodes());
        proof {
            let all = descendants(self.nodes(), self.index(), max_depth as nat);
            lemma_static_values_filter(self.nodes(), all, pred);
            assert forall|j: int| 0 <= j < ids.len() implies text_attr(
                self.nodes(),
                #[trigger] ids[j],
                "AXRole"@,
            ) == Some("AXStaticText"@) by {
                all.lemma_filter_pred(pred, j);
            }
        }
        let mut out: Vec<String> = Vec::new();
        assert(views(out@) =~= static_values(self.nodes(), ids.take(0)));
        for k in 0..elements.len()
            invariant
                lists(elements@, self.nodes(), ids),
                forall|j: int|
                    0 <= j < ids.len() ==> text_attr(
                        self.nodes(),
                        #[trigger] ids[j],
                        "AXRole"@,
                    ) == Some("AXStaticText"@),
                views(out@) == static_values(self.nodes(), ids.take(k as int)),
        {
            assert(ids.take(k + 1).drop_last() =~= ids.take(k as int));
            if let Some(v) = attr_string(elements[k], "AXValue") {
                let ghost before = out@;
                out.push(v);
                assert(views(out@) =~= views(before).push(v@));
            }
        }
        assert(ids.take(elements@.len() as int) =~= ids);
        out
    }

    /// The text below the element, up to `max_depth` levels, in one piece.
    pub fn text(&self, max_depth: usize) -> (r: String)
        ensures
            r@ == join(static_texts(self.nodes(), self.index(), max_depth as nat), ""@),
    {
        join_texts(self.texts(max_depth).as_slice(), "")
    }

    /// Whether something with the given role lies up to `max_depth` levels
    /// below.
    pub fn has_role(&self, r: &str, max_depth: usize) -> (b: bool)
        ensures
            b == (exists|i: usize| #[trigger]
                descendants(self.nodes(), self.index(), max_depth as nat).contains(i) && text_attr(
                    self.nodes(),
                    i,
                    "AXRole"@,
                ) == Some(r@)),
    {
        let q = role(r);
        let first = find_first(self.0, &q, max_depth);
        proof {
            let all = descendants(self.nodes(), self.index(), max_depth as nat);
            let pred = accepted_by(q@, self.nodes());
            if first is Some {
                let i = all.filter(pred)[0];
                all.lemma_filter_pred(pred, 0);
                assert(all.filter(pred).contains(i));
                all.lemma_filter_contains_rev(pred, i);
                assert(all.contains(i));
            } else {
                assert forall|i: usize| #[trigger] all.contains(i) implies text_attr(
                    self.nodes(),
                    i,
                    "AXRole"@,
                ) != Some(r@) by {
                    let m = choose|m: int| 0 <= m < all.len() && all[m] == i;
                    if pred(i) {
                        all.lemma_filter_contains(pred, m);
                    }
                }
            }
        }
        first.is_some()
    }

    /// The parent.
    pub fn parent(&self) -> (r: Option<AXNode<'a>>)
        ensures
            is_node(r, self.nodes(), parent_id(self.nodes(), self.index())),
    {
        wrap(attr_element(self.0, "AXParent"))
    }

    /// The names of the actions that can be performed.
    pub fn actions(&self) -> (r: Vec<String>)
        ensures
            views(r@) == views(self.nodes()[self.index() as int].actions@),
    {
        action_names(self.0)
    }

    /// The number of the window that holds the element, where there is one.
    pub fn window_id(&self) -> (r: Option<u32>)
        ensures
            r == window_number(self.nodes(), self.index()),
    {
        window_id_for_element(self.0)
    }

    /// The request to perform an action, such as `AXPress`.
    pub fn perform_action(&self, action: &str) -> (r: Request<'a>)
        ensures
            r.node == *self,
            r.change@ == Asked::Perform(action@),
    {
        Request { node: *self, change: Change::Perform(action.to_owned()) }
    }

    /// The request to set the value of the element to a text.
    pub fn set_value(&self, text: &str) -> (r: Request<'a>)
        ensures
            r.node == *self,
            r.change@ == Asked::SetText("AXValue"@, text@),
    {
        Request { node: *self, change: Change::SetText("AXValue".to_owned(), text.to_owned()) }
    }

    /// The request to give the element the focus, or to take it away.
    pub fn set_focused(&self, focused: bool) -> (r: Request<'a>)
        ensures
            r.node == *self,
            r.change@ == Asked::SetFlag("AXFocused"@, focused),
    {
        Request { node: *self, change: Change::SetFlag("AXFocused".to_owned(), focused) }
    }

    /// The element in one line.
    pub fn debug_text(&self) -> (r: String)
        ensures
            r@ == "AXNode { role: "@ + shown(
                text_attr(self.nodes(), self.index(), "AXRole"@),
            ) + ", title: "@ + shown(text_attr(self.nodes(), self.index(), "AXTitle"@)) + " }"@,
    {
        let mut out = "AXNode { role: ".to_owned();
        push_shown(&mut out, &self.role());
        out.append(", title: ");
        push_shown(&mut out, &self.title());
        out.append(" }");
        out
    }
}

// ---------------------------------------------------------------------------
// Laws
// ---------------------------------------------------------------------------

/// A path of queries is followed step by step: each goes on to the first element
/// that it accepts, up to 30 levels below or among the children, and a path that
/// comes to nothing ends there.
pub proof fn lemma_path(
    nodes: Seq<ElementData>,
    i: usize,
    steps: Seq<Query>,
    q: Query,
)
    ensures
        path_end(nodes, i, Seq::empty(), true) == Some(i),
        path_end(nodes, i, Seq::empty(), false) == Some(i),
        path_end(nodes, i, steps, false) matches Some(j) ==> path_end(
            nodes,
            i,
            steps.push(q),
            false,
        ) == first_of(descendants(nodes, j, 30).filter(|x: usize| query_accepts(q, nodes, x))),
        path_end(nodes, i, steps, true) matches Some(j) ==> path_end(nodes, i, steps.push(q), true)
            == first_of(child_ids(nodes, j).filter(|x: usize| query_accepts(q, nodes, x))),
        path_end(nodes, i, steps, false) is None ==> path_end(nodes, i, steps.push(q), false)
            is None,
        path_end(nodes, i, steps, true) is None ==> path_end(nodes, i, steps.push(q), true) is None,
{
    assert(steps.push(q).drop_last() =~= steps);
    assert(accepted_by(q, nodes) =~= (|x: usize| query_accepts(q, nodes, x)));
}

/// `find` and `find_all` look 20 levels down, and children are numbered from 0.
pub proof fn lemma_finds(nodes: Seq<ElementData>, i: usize, q: Query, n: nat)
    ensures
        found(q, nodes, i, FIND_DEPTH as nat) == descendants(nodes, i, 20).filter(
            |x: usize| query_accepts(q, nodes, x),
        ),
        matching_children(q, nodes, i) == child_ids(nodes, i).filter(
            |x: usize| query_accepts(q, nodes, x),
        ),
        n < child_ids(nodes, i).len() ==> number_of(child_ids(nodes, i), n) == Some(
            child_ids(nodes, i)[n as int],
        ),
        n >= child_ids(nodes, i).len() ==> number_of(child_ids(nodes, i), n) is None,
{
    assert(accepted_by(q, nodes) =~= (|x: usize| query_accepts(q, nodes, x)));
}

/// How a text is shown, where there is one.
pub proof fn lemma_shown(s: Seq<char>)
    ensures
        shown(Some(s)) == "Some("@ + quoted(s) + ")"@,
        shown(None) == "None"@,
{
}

/// What the requests ask for.
pub proof fn lemma_changes(a: String, t: String, b: bool)
    ensures
        Change::Perform(a)@ == Asked::Perform(a@),
        Change::SetText(a, t)@ == Asked::SetText(a@, t@),
        Change::SetFlag(a, b)@ == Asked::SetFlag(a@, b),
{
}

} // verus!

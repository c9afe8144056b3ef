//! A snapshot of an accessibility tree.
//!
//! The accessibility service of the system is read once, into plain values;
//! everything else in this library works on those. An element is known by its
//! position in the snapshot, so two handles on one snapshot stand for the same
//! element exactly where their positions agree.

use vstd::prelude::*;
use crate::text::{opt_text, same_text, views};

verus! {

/// The value of one attribute of an element.
pub enum AttrValue {
    /// A text.
    Text(String),
    /// A list of texts.
    TextList(Vec<String>),
    /// Another element, by its position.
    Element(usize),
    /// A list of elements, by their positions.
    ElementList(Vec<usize>),
    /// A size, of which only the signs matter here.
    Size { width_positive: bool, height_positive: bool },
    /// Any other value.
    Other,
    /// No value: the system lists the attribute, but does not give one.
    Missing,
}

/// A named attribute.
pub struct Attribute {
    pub name: String,
    pub value: AttrValue,
}

/// What the snapshot holds of one element.
pub struct ElementData {
    /// The attributes, in the order in which the system lists them.
    pub attributes: Vec<Attribute>,
    /// The names of the actions that the element offers.
    pub actions: Vec<String>,
    /// The number of the window that contains the element, where the system
    /// gives one.
    pub window_id: Option<u32>,
}

// ---------------------------------------------------------------------------
// The model
// ---------------------------------------------------------------------------

/// The value of the first attribute named `name`, where it has one.
pub open spec fn lookup(attributes: Seq<Attribute>, name: Seq<char>) -> Option<AttrValue>
    decreases attributes.len(),
{
    if attributes.len() == 0 {
        None
    } else if attributes[0].name@ == name {
        if attributes[0].value is Missing {
            None
        } else {
            Some(attributes[0].value)
        }
    } else {
        lookup(attributes.skip(1), name)
    }
}

/// The elements that the attribute `AXChildren` lists, none where it cannot be
/// read.
pub open spec fn listed_children(e: ElementData) -> Seq<usize> {
    match lookup(e.attributes@, "AXChildren"@) {
        Some(AttrValue::ElementList(l)) => l@,
        _ => Seq::empty(),
    }
}

/// The children of an element: those in its attribute `AXChildren`, followed by
/// the one in `AXExtrasMenuBar` where that is not among them.
pub open spec fn child_ids_of(e: ElementData) -> Seq<usize> {
    match lookup(e.attributes@, "AXExtrasMenuBar"@) {
        Some(AttrValue::Element(x)) => if listed_children(e).contains(x) {
            listed_children(e)
        } else {
            listed_children(e).push(x)
        },
        _ => listed_children(e),
    }
}

/// The elements that `value` refers to are among the first `n`.
pub open spec fn refers_below(value: AttrValue, n: nat) -> bool {
    match value {
        AttrValue::Element(x) => x < n,
        AttrValue::ElementList(l) => forall|j: int| 0 <= j < l@.len() ==> (#[trigger] l@[j]) < n,
        _ => true,
    }
}

/// Every reference of `e` is to one of `n` elements, and its children come
/// after position `i`.
pub open spec fn linked_at(e: ElementData, i: int, n: nat) -> bool {
    &&& forall|k: int|
        0 <= k < e.attributes@.len() ==> refers_below((#[trigger] e.attributes@[k]).value, n)
    &&& forall|j: int| 0 <= j < child_ids_of(e).len() ==> i < (#[trigger] child_ids_of(e)[j])
}

/// The references of the elements are to elements of the snapshot, and an
/// element stands before its children, so that nothing lies below itself.
pub open spec fn well_linked(nodes: Seq<ElementData>) -> bool {
    forall|i: int| 0 <= i < nodes.len() ==> linked_at(#[trigger] nodes[i], i, nodes.len())
}

/// The value of the attribute `name` of element `i`.
pub open spec fn attr(nodes: Seq<ElementData>, i: usize, name: Seq<char>) -> Option<AttrValue> {
    lookup(nodes[i as int].attributes@, name)
}

/// The attribute `name` of element `i`, where it is a text.
pub open spec fn text_attr(nodes: Seq<ElementData>, i: usize, name: Seq<char>) -> Option<
    Seq<char>,
> {
    match attr(nodes, i, name) {
        Some(AttrValue::Text(t)) => Some(t@),
        _ => None,
    }
}

/// The attribute `name` of element `i` as a text, empty where it is none.
pub open spec fn text_attr_or_empty(
    nodes: Seq<ElementData>,
    i: usize,
    name: Seq<char>,
) -> Seq<char> {
    match text_attr(nodes, i, name) {
        Some(t) => t,
        None => Seq::empty(),
    }
}

/// The attribute `name` of element `i`, where it is a list of texts.
pub open spec fn list_attr(nodes: Seq<ElementData>, i: usize, name: Seq<char>) -> Seq<Seq<char>> {
    match attr(nodes, i, name) {
        Some(AttrValue::TextList(l)) => views(l@),
        _ => Seq::empty(),
    }
}

/// The attribute `name` of element `i`, where it is an element.
pub open spec fn element_attr(nodes: Seq<ElementData>, i: usize, name: Seq<char>) -> Option<
    usize,
> {
    match attr(nodes, i, name) {
        Some(AttrValue::Element(x)) => Some(x),
        _ => None,
    }
}

/// The children of element `i`.
pub open spec fn child_ids(nodes: Seq<ElementData>, i: usize) -> Seq<usize> {
    child_ids_of(nodes[i as int])
}

/// The element that element `i` names as its parent.
pub open spec fn parent_id(nodes: Seq<ElementData>, i: usize) -> Option<usize> {
    element_attr(nodes, i, "AXParent"@)
}

/// The elements up to `depth` levels below element `i`, each before what lies
/// below it, children in their order.
pub open spec fn descendants(nodes: Seq<ElementData>, i: usize, depth: nat) -> Seq<usize>
    decreases depth, child_ids(nodes, i).len() + 1,
{
    if depth == 0 {
        Seq::empty()
    } else {
        subtrees(nodes, child_ids(nodes, i), depth)
    }
}

/// The elements `ids`, each followed by what lies up to `depth - 1` levels
/// below it.
pub open spec fn subtrees(nodes: Seq<ElementData>, ids: Seq<usize>, depth: nat) -> Seq<usize>
    decreases depth, ids.len(),
{
    if depth == 0 || ids.len() == 0 {
        Seq::empty()
    } else {
        subtrees(nodes, ids.drop_last(), depth).push(ids.last()) + descendants(
            nodes,
            ids.last(),
            (depth - 1) as nat,
        )
    }
}

/// The subtrees of the first `k + 1` elements are those of the first `k`, then
/// element `k`, then what lies below it.
pub proof fn lemma_subtrees_step(nodes: Seq<ElementData>, ids: Seq<usize>, depth: nat, k: int)
    requires
        0 <= k < ids.len(),
        depth > 0,
    ensures
        subtrees(nodes, ids.take(k + 1), depth) == subtrees(nodes, ids.take(k), depth).push(ids[k])
            + descendants(nodes, ids[k], (depth - 1) as nat),
{
    assert(ids.take(k + 1).drop_last() =~= ids.take(k));
}

/// The part of `subtrees` that `pred` holds of, one element further.
pub proof fn lemma_subtrees_filter_step(
    nodes: Seq<ElementData>,
    ids: Seq<usize>,
    depth: nat,
    k: int,
    pred: spec_fn(usize) -> bool,
)
    requires
        0 <= k < ids.len(),
        depth > 0,
    ensures
        subtrees(nodes, ids.take(k + 1), depth).filter(pred) == subtrees(
            nodes,
            ids.take(k),
            depth,
        ).filter(pred) + (if pred(ids[k]) {
            seq![ids[k]]
        } else {
            Seq::empty()
        }) + descendants(nodes, ids[k], (depth - 1) as nat).filter(pred),
{
    lemma_subtrees_step(nodes, ids, depth, k);
    let front = subtrees(nodes, ids.take(k), depth);
    let below = descendants(nodes, ids[k], (depth - 1) as nat);
    Seq::filter_distributes_over_add(front.push(ids[k]), below, pred);
    reveal(Seq::filter);
    assert(front.push(ids[k]).drop_last() =~= front);
    assert(front.push(ids[k]).filter(pred) =~= front.filter(pred) + (if pred(ids[k]) {
        seq![ids[k]]
    } else {
        Seq::empty()
    }));
}

/// The first `n` elements of `s`, or all where there are fewer.
pub open spec fn clip<A>(s: Seq<A>, n: nat) -> Seq<A> {
    if s.len() <= n {
        s
    } else {
        s.take(n as int)
    }
}

/// What follows the first `n` elements does not matter to `clip`.
pub proof fn lemma_clip_full<A>(a: Seq<A>, b: Seq<A>, n: nat)
    requires
        a.len() >= n,
    ensures
        clip(a + b, n) == clip(a, n),
{
    assert((a + b).take(n as int) =~= clip(a, n));
    assert(a.take(n as int) =~= clip(a, n));
}

/// The first `limit` elements of `s`, where `usize::MAX` sets no limit.
pub open spec fn limited<A>(s: Seq<A>, limit: usize) -> Seq<A> {
    if limit == usize::MAX {
        s
    } else {
        clip(s, limit as nat)
    }
}

/// The first element of `s`.
pub open spec fn first_of<A>(s: Seq<A>) -> Option<A> {
    if s.len() > 0 {
        Some(s[0])
    } else {
        None
    }
}

/// What lies in the subtrees of `ids` is one of them or lies below one.
pub proof fn lemma_subtrees_contains(nodes: Seq<ElementData>, ids: Seq<usize>, depth: nat, x: usize)
    ensures
        subtrees(nodes, ids, depth).contains(x) <==> depth > 0 && exists|k: int|
            #![trigger ids[k]]
            0 <= k < ids.len() && (ids[k] == x || descendants(
                nodes,
                ids[k],
                (depth - 1) as nat,
            ).contains(x)),
    decreases ids.len(),
{
    if depth > 0 && ids.len() > 0 {
        let d = (depth - 1) as nat;
        let front = subtrees(nodes, ids.drop_last(), depth);
        let below = descendants(nodes, ids.last(), d);
        let all = subtrees(nodes, ids, depth);
        lemma_subtrees_contains(nodes, ids.drop_last(), depth, x);
        if all.contains(x) {
            let m = choose|m: int| 0 <= m < all.len() && all[m] == x;
            if m < front.len() {
                assert(front[m] == x);
                let k = choose|k: int|
                    #![trigger ids.drop_last()[k]]
                    0 <= k < ids.drop_last().len() && (ids.drop_last()[k] == x || descendants(
                        nodes,
                        ids.drop_last()[k],
                        d,
                    ).contains(x));
                assert(ids[k] == ids.drop_last()[k]);
            } else if m == front.len() {
                assert(ids[ids.len() - 1] == x);
            } else {
                assert(below[m - front.len() - 1] == x);
                assert(descendants(nodes, ids[ids.len() - 1], d).contains(x));
            }
        }
        if exists|k: int|
            #![trigger ids[k]]
            0 <= k < ids.len() && (ids[k] == x || descendants(nodes, ids[k], d).contains(x)) {
            let k = choose|k: int|
                #![trigger ids[k]]
                0 <= k < ids.len() && (ids[k] == x || descendants(nodes, ids[k], d).contains(x));
            if k < ids.len() - 1 {
                assert(ids.drop_last()[k] == ids[k]);
                let m = choose|m: int| 0 <= m < front.len() && front[m] == x;
                assert(all[m] == x);
            } else if ids[k] == x {
                assert(all[front.len() as int] == x);
            } else {
                let m = choose|m: int| 0 <= m < below.len() && below[m] == x;
                assert(all[front.len() + 1 + m] == x);
            }
        }
    }
}

/// What lies below element `i` is a child of it or lies below one.
pub proof fn lemma_descendants_contains(nodes: Seq<ElementData>, i: usize, depth: nat, x: usize)
    ensures
        descendants(nodes, i, depth).contains(x) <==> depth > 0 && exists|k: int|
            #![trigger child_ids(nodes, i)[k]]
            0 <= k < child_ids(nodes, i).len() && (child_ids(nodes, i)[k] == x || descendants(
                nodes,
                child_ids(nodes, i)[k],
                (depth - 1) as nat,
            ).contains(x)),
{
    lemma_subtrees_contains(nodes, child_ids(nodes, i), depth, x);
}

/// Whatever is below something below element `i` is below element `i`.
pub proof fn lemma_descendants_join(
    nodes: Seq<ElementData>,
    i: usize,
    a: nat,
    y: usize,
    b: nat,
    z: usize,
)
    requires
        descendants(nodes, i, a).contains(y),
        descendants(nodes, y, b).contains(z),
    ensures
        descendants(nodes, i, a + b).contains(z),
    decreases a,
{
    lemma_descendants_contains(nodes, i, a, y);
    lemma_descendants_contains(nodes, i, a + b, z);
    let ids = child_ids(nodes, i);
    let k = choose|k: int|
        #![trigger ids[k]]
        0 <= k < ids.len() && (ids[k] == y || descendants(nodes, ids[k], (a - 1) as nat).contains(
            y,
        ));
    if ids[k] == y {
        lemma_descendants_deeper(nodes, y, b, (a + b - 1) as nat, z);
    } else {
        lemma_descendants_join(nodes, ids[k], (a - 1) as nat, y, b, z);
        assert((a - 1) as nat + b == (a + b - 1) as nat);
    }
}

/// What lies within some levels lies within more.
pub proof fn lemma_descendants_deeper(nodes: Seq<ElementData>, i: usize, a: nat, b: nat, z: usize)
    requires
        a <= b,
        descendants(nodes, i, a).contains(z),
    ensures
        descendants(nodes, i, b).contains(z),
    decreases a,
{
    lemma_descendants_contains(nodes, i, a, z);
    lemma_descendants_contains(nodes, i, b, z);
    let ids = child_ids(nodes, i);
    let k = choose|k: int|
        #![trigger ids[k]]
        0 <= k < ids.len() && (ids[k] == z || descendants(nodes, ids[k], (a - 1) as nat).contains(
            z,
        ));
    if ids[k] != z {
        lemma_descendants_deeper(nodes, ids[k], (a - 1) as nat, (b - 1) as nat, z);
    }
}

/// A child of an element of a well linked snapshot is one of its elements and
/// stands after it.
pub proof fn lemma_child_in_range(nodes: Seq<ElementData>, i: usize, k: int)
    requires
        well_linked(nodes),
        i < nodes.len(),
        0 <= k < child_ids(nodes, i).len(),
    ensures
        i < child_ids(nodes, i)[k] < nodes.len(),
{
    let e = nodes[i as int];
    assert(linked_at(e, i as int, nodes.len()));
    lemma_lookup_refers(e.attributes@, "AXChildren"@, nodes.len());
    lemma_lookup_refers(e.attributes@, "AXExtrasMenuBar"@, nodes.len());
}

/// A value found among attributes that refer below `n` refers below `n`.
pub proof fn lemma_lookup_refers(attributes: Seq<Attribute>, name: Seq<char>, n: nat)
    requires
        forall|k: int|
            0 <= k < attributes.len() ==> refers_below((#[trigger] attributes[k]).value, n),
    ensures
        lookup(attributes, name) matches Some(v) ==> refers_below(v, n),
    decreases attributes.len(),
{
    if attributes.len() > 0 && attributes[0].name@ != name {
        assert forall|k: int| 0 <= k < attributes.skip(1).len() implies refers_below(
            (#[trigger] attributes.skip(1)[k]).value,
            n,
        ) by {
            assert(attributes.skip(1)[k] == attributes[k + 1]);
        }
        lemma_lookup_refers(attributes.skip(1), name, n);
    }
}

/// Everything below an element of a well linked snapshot is one of its elements
/// and stands after it.
pub proof fn lemma_descendant_in_range(nodes: Seq<ElementData>, i: usize, depth: nat, x: usize)
    requires
        well_linked(nodes),
        i < nodes.len(),
        descendants(nodes, i, depth).contains(x),
    ensures
        i < x < nodes.len(),
    decreases depth,
{
    lemma_descendants_contains(nodes, i, depth, x);
    let k = choose|k: int|
        #![trigger child_ids(nodes, i)[k]]
        0 <= k < child_ids(nodes, i).len() && (child_ids(nodes, i)[k] == x || descendants(
            nodes,
            child_ids(nodes, i)[k],
            (depth - 1) as nat,
        ).contains(x));
    lemma_child_in_range(nodes, i, k);
    if child_ids(nodes, i)[k] != x {
        lemma_descendant_in_range(nodes, child_ids(nodes, i)[k], (depth - 1) as nat, x);
    }
}

// ---------------------------------------------------------------------------
// Reading attributes
// ---------------------------------------------------------------------------

/// The value of the first attribute named `name`.
fn find_attribute<'a>(attributes: &'a Vec<Attribute>, name: &str) -> (r: Option<&'a AttrValue>)
    ensures
        match r {
            Some(v) => lookup(attributes@, name@) == Some(*v),
            None => lookup(attributes@, name@) is None,
        },
{
    assert(attributes@.skip(0) =~= attributes@);
    for i in 0..attributes.len()
        invariant
            lookup(attributes@, name@) == lookup(attributes@.skip(i as int), name@),
    {
        if same_text(attributes[i].name.as_str(), name) {
            return match &attributes[i].value {
                AttrValue::Missing => None,
                value => Some(value),
            };
        }
        assert(attributes@.skip(i as int).skip(1) =~= attributes@.skip(i + 1));
    }
    None
}

/// Whether `x` is among `ids`.
pub fn contains_id(ids: &Vec<usize>, x: usize) -> (r: bool)
    ensures
        r == ids@.contains(x),
{
    for i in 0..ids.len()
        invariant
            forall|j: int| 0 <= j < i ==> ids@[j] != x,
    {
        if ids[i] == x {
            return true;
        }
    }
    false
}

/// A copy of `ids`.
fn copy_ids(ids: &Vec<usize>) -> (r: Vec<usize>)
    ensures
        r@ == ids@,
{
    let mut out: Vec<usize> = Vec::new();
    for i in 0..ids.len()
        invariant
            out@ == ids@.take(i as int),
    {
        out.push(ids[i]);
    }
    out
}

/// The children of an element.
fn list_children(e: &ElementData) -> (r: Vec<usize>)
    ensures
        r@ == child_ids_of(*e),
{
    let mut result: Vec<usize> = match find_attribute(&e.attributes, "AXChildren") {
        Some(AttrValue::ElementList(l)) => copy_ids(l),
        _ => Vec::new(),
    };
    // The status menu bar of an application is an attribute of its own.
    if let Some(AttrValue::Element(x)) = find_attribute(&e.attributes, "AXExtrasMenuBar") {
        if !contains_id(&result, *x) {
            result.push(*x);
        }
    }
    result
}

/// A well linked snapshot of an accessibility tree.
pub struct AXTree {
    elements: Vec<ElementData>,
}

fn all_below(ids: &Vec<usize>, n: usize) -> (r: bool)
    ensures
        r == (forall|j: int| 0 <= j < ids@.len() ==> (#[trigger] ids@[j]) < n),
{
    for j in 0..ids.len()
        invariant
            forall|k: int| 0 <= k < j ==> (#[trigger] ids@[k]) < n,
    {
        if ids[j] >= n {
            return false;
        }
    }
    true
}

fn value_refers_below(value: &AttrValue, n: usize) -> (r: bool)
    ensures
        r == refers_below(*value, n as nat),
{
    match value {
        AttrValue::Element(x) => *x < n,
        AttrValue::ElementList(l) => all_below(l, n),
        _ => true,
    }
}

fn is_linked_at(e: &ElementData, i: usize, n: usize) -> (r: bool)
    ensures
        r == linked_at(*e, i as int, n as nat),
{
    for k in 0..e.attributes.len()
        invariant
            forall|m: int|
                0 <= m < k ==> refers_below((#[trigger] e.attributes@[m]).value, n as nat),
    {
        if !value_refers_below(&e.attributes[k].value, n) {
            assert(!refers_below(e.attributes@[k as int].value, n as nat));
            return false;
        }
    }
    let ids = list_children(e);
    for j in 0..ids.len()
        invariant
            ids@ == child_ids_of(*e),
            forall|m: int| 0 <= m < j ==> i < (#[trigger] child_ids_of(*e)[m]),
    {
        if ids[j] <= i {
            assert(!(i < child_ids_of(*e)[j as int]));
            return false;
        }
    }
    true
}

impl AXTree {
    /// The elements of the snapshot.
    pub closed spec fn nodes(&self) -> Seq<ElementData> {
        self.elements@
    }

    #[verifier::type_invariant]
    spec fn inv(self) -> bool {
        well_linked(self.elements@)
    }

    /// The snapshot with these elements, where they are well linked.
    pub fn new(elements: Vec<ElementData>) -> (r: Option<AXTree>)
        ensures
            r is Some <==> well_linked(elements@),
            r matches Some(t) ==> t.nodes() == elements@,
    {
        for i in 0..elements.len()
            invariant
                forall|k: int|
                    0 <= k < i ==> linked_at(#[trigger] elements@[k], k, elements@.len()),
        {
            if !is_linked_at(&elements[i], i, elements.len()) {
                assert(!linked_at(elements@[i as int], i as int, elements@.len()));
                return None;
            }
        }
        Some(AXTree { elements })
    }

    /// The element at position `id`.
    pub fn element(&self, id: usize) -> (r: Option<Element<'_>>)
        ensures
            r is Some <==> id < self.nodes().len(),
            r matches Some(e) ==> e.nodes() == self.nodes() && e.index() == id && e.valid(),
    {
        proof {
            use_type_invariant(self);
        }
        if id < self.elements.len() {
            Some(Element { tree: self, id })
        } else {
            None
        }
    }

    /// The number of elements of the snapshot.
    pub fn len(&self) -> (n: usize)
        ensures
            n == self.nodes().len(),
    {
        self.elements.len()
    }
}

/// A handle on one element of a snapshot.
#[derive(Clone, Copy)]
pub struct Element<'a> {
    tree: &'a AXTree,
    id: usize,
}

impl<'a> Element<'a> {
    /// The elements of the snapshot that the handle is on.
    pub closed spec fn nodes(self) -> Seq<ElementData> {
        self.tree.nodes()
    }

    /// The position of the element.
    pub closed spec fn index(self) -> usize {
        self.id
    }

    /// The handle is on an element of a well linked snapshot.
    pub open spec fn valid(self) -> bool {
        &&& well_linked(self.nodes())
        &&& self.index() < self.nodes().len()
    }

    #[verifier::type_invariant]
    spec fn inv(self) -> bool {
        self.id < self.tree.nodes().len()
    }

    /// Every handle is on an element of a well linked snapshot.
    pub fn always_valid(self)
        ensures
            self.valid(),
    {
        proof {
            use_type_invariant(&self);
            use_type_invariant(self.tree);
        }
    }

    /// The position of the element.
    pub fn id(self) -> (r: usize)
        ensures
            r == self.index(),
            self.valid(),
    {
        self.always_valid();
        self.id
    }

    /// What the snapshot holds of the element.
    fn data(self) -> (r: &'a ElementData)
        ensures
            *r == self.nodes()[self.index() as int],
            self.valid(),
    {
        self.always_valid();
        &self.tree.elements[self.id]
    }
}

/// The handles `v` are on the elements `ids` of the snapshot `nodes`.
pub open spec fn lists(v: Seq<Element<'_>>, nodes: Seq<ElementData>, ids: Seq<usize>) -> bool {
    &&& v.len() == ids.len()
    &&& forall|j: int|
        0 <= j < v.len() ==> (#[trigger] v[j]).nodes() == nodes && v[j].index() == ids[j]
            && v[j].valid()
}

/// The positions of the elements that the handles `v` are on.
pub open spec fn ids_of(v: Seq<Element<'_>>) -> Seq<usize> {
    Seq::new(v.len(), |i: int| v[i].index())
}

/// The snapshot of the first of the handles `v`, or one of no elements where
/// there is no handle.
pub open spec fn tree_of(v: Seq<Element<'_>>) -> Seq<ElementData> {
    if v.len() > 0 {
        v[0].nodes()
    } else {
        Seq::empty()
    }
}

/// The handles `v` are all on elements of one snapshot.
pub open spec fn one_tree(v: Seq<Element<'_>>) -> bool {
    forall|j: int| 0 <= j < v.len() ==> (#[trigger] v[j]).nodes() == tree_of(v)
}

/// Handles on elements of one snapshot list those elements.
pub(crate) fn all_valid(v: &Vec<Element<'_>>)
    requires
        one_tree(v@),
    ensures
        lists(v@, tree_of(v@), ids_of(v@)),
{
    for k in 0..v.len()
        invariant
            forall|j: int| 0 <= j < k ==> (#[trigger] v@[j]).valid(),
    {
        v[k].always_valid();
    }
}

/// The handle `r`, where there is one, is on the element `id` of `nodes`.
pub open spec fn is_handle(
    r: Option<Element<'_>>,
    nodes: Seq<ElementData>,
    id: Option<usize>,
) -> bool {
    match (r, id) {
        (Some(e), Some(i)) => e.nodes() == nodes && e.index() == i && e.valid(),
        (None, None) => true,
        _ => false,
    }
}

/// The raw value of an attribute of an element.
pub fn attr_value<'a>(element: Element<'a>, attribute: &str) -> (r: Option<&'a AttrValue>)
    ensures
        match r {
            Some(v) => attr(element.nodes(), element.index(), attribute@) == Some(*v),
            None => attr(element.nodes(), element.index(), attribute@) is None,
        },
{
    find_attribute(&element.data().attributes, attribute)
}

/// An attribute of an element, where it is a text.
pub fn attr_string(element: Element<'_>, attribute: &str) -> (r: Option<String>)
    ensures
        opt_text(r) == text_attr(element.nodes(), element.index(), attribute@),
{
    match attr_value(element, attribute) {
        Some(AttrValue::Text(t)) => Some(t.clone()),
        _ => None,
    }
}

/// An attribute of an element as a text, empty where it is none.
pub fn attr_string_or_empty(element: Element<'_>, attribute: &str) -> (r: String)
    ensures
        r@ == text_attr_or_empty(element.nodes(), element.index(), attribute@),
{
    match attr_string(element, attribute) {
        Some(t) => t,
        None => String::new(),
    }
}

/// A copy of a list of strings.
pub fn copy_strings(v: &Vec<String>) -> (r: Vec<String>)
    ensures
        views(r@) == views(v@),
{
    let mut out: Vec<String> = Vec::new();
    for i in 0..v.len()
        invariant
            out@.len() == i,
            forall|j: int| 0 <= j < i ==> (#[trigger] out@[j])@ == v@[j]@,
    {
        out.push(v[i].clone());
    }
    assert(views(out@) =~= views(v@));
    out
}

/// An attribute of an element, where it is a list of texts (such as
/// `AXDOMClassList`).
pub fn attr_string_list(element: Element<'_>, attribute: &str) -> (r: Vec<String>)
    ensures
        views(r@) == list_attr(element.nodes(), element.index(), attribute@),
{
    match attr_value(element, attribute) {
        Some(AttrValue::TextList(l)) => copy_strings(l),
        _ => {
            let none: Vec<String> = Vec::new();
            assert(views(none@) =~= Seq::empty());
            none
        },
    }
}

/// The names of the attributes of element `i`.
pub open spec fn attr_names_of(nodes: Seq<ElementData>, i: usize) -> Seq<Seq<char>> {
    let attributes = nodes[i as int].attributes@;
    Seq::new(attributes.len(), |k: int| attributes[k].name@)
}

/// The names of all attributes of an element.
pub fn attr_names(element: Element<'_>) -> (r: Vec<String>)
    ensures
        views(r@) == attr_names_of(element.nodes(), element.index()),
{
    let data = element.data();
    let mut out: Vec<String> = Vec::new();
    for i in 0..data.attributes.len()
        invariant
            out@.len() == i,
            forall|j: int|
                0 <= j < i ==> (#[trigger] out@[j])@ == data.attributes@[j].name@,
    {
        out.push(data.attributes[i].name.clone());
    }
    assert(views(out@) =~= attr_names_of(element.nodes(), element.index()));
    out
}

/// The names of the actions that an element offers.
pub fn action_names(element: Element<'_>) -> (r: Vec<String>)
    ensures
        views(r@) == views(element.nodes()[element.index() as int].actions@),
{
    copy_strings(&element.data().actions)
}

/// The number of the window that contains element `i`. Zero is the number of no
/// window.
pub open spec fn window_number(nodes: Seq<ElementData>, i: usize) -> Option<u32> {
    match nodes[i as int].window_id {
        Some(w) => if w != 0 {
            Some(w)
        } else {
            None
        },
        None => None,
    }
}

/// The number of the window that contains an element.
pub fn window_id_for_element(element: Element<'_>) -> (r: Option<u32>)
    ensures
        r == window_number(element.nodes(), element.index()),
{
    match element.data().window_id {
        Some(w) => if w != 0 {
            Some(w)
        } else {
            None
        },
        None => None,
    }
}

/// The children of an element.
///
/// Those of an application end with its status menu bar, which the system
/// reports in the attribute `AXExtrasMenuBar` and not among `AXChildren`.
pub fn children<'a>(element: Element<'a>) -> (r: Vec<Element<'a>>)
    ensures
        lists(r@, element.nodes(), child_ids(element.nodes(), element.index())),
        forall|j: int| 0 <= j < r@.len() ==> (#[trigger] r@[j]).index() > element.index(),
{
    let ids = list_children(element.data());
    let ghost nodes = element.nodes();
    let mut out: Vec<Element<'a>> = Vec::new();
    for i in 0..ids.len()
        invariant
            element.valid(),
            nodes == element.nodes(),
            ids@ == child_ids(nodes, element.index()),
            lists(out@, nodes, ids@.take(i as int)),
            forall|j: int| 0 <= j < out@.len() ==> (#[trigger] out@[j]).index() > element.index(),
    {
        proof {
            lemma_child_in_range(nodes, element.index(), i as int);
            assert(ids@.take(i + 1) =~= ids@.take(i as int).push(ids@[i as int]));
        }
        out.push(Element { tree: element.tree, id: ids[i] });
    }
    assert(ids@.take(ids@.len() as int) =~= ids@);
    out
}

/// Whether two handles on one snapshot are on the same element.
pub fn is_same_element(a: Element<'_>, b: Element<'_>) -> (r: bool)
    ensures
        r == (a.index() == b.index()),
{
    a.id == b.id
}

/// The element in an attribute of an element.
pub fn attr_element<'a>(element: Element<'a>, attribute: &str) -> (r: Option<Element<'a>>)
    ensures
        is_handle(
            r,
            element.nodes(),
            element_attr(element.nodes(), element.index(), attribute@),
        ),
{
    element.always_valid();
    match attr_value(element, attribute) {
        Some(AttrValue::Element(x)) => {
            proof {
                let nodes = element.nodes();
                assert(linked_at(
                    nodes[element.index() as int],
                    element.index() as int,
                    nodes.len(),
                ));
                lemma_lookup_refers(
                    nodes[element.index() as int].attributes@,
                    attribute@,
                    nodes.len(),
                );
            }
            Some(Element { tree: element.tree, id: *x })
        },
        _ => None,
    }
}

// ---------------------------------------------------------------------------
// Laws
// ---------------------------------------------------------------------------

/// An attribute is the first of its name, where that has a value.
pub proof fn lemma_lookup(attributes: Seq<Attribute>, name: Seq<char>, k: int)
    requires
        forall|j: int|
            0 <= j < k && j < attributes.len() ==> (#[trigger] attributes[j]).name@ != name,
        0 <= k <= attributes.len(),
        k < attributes.len() ==> attributes[k].name@ == name,
    ensures
        k == attributes.len() ==> lookup(attributes, name) is None,
        k < attributes.len() && attributes[k].value is Missing ==> lookup(attributes, name) is None,
        k < attributes.len() && !(attributes[k].value is Missing) ==> lookup(attributes, name)
            == Some(attributes[k].value),
    decreases k,
{
    if k > 0 {
        let rest = attributes.skip(1);
        assert(attributes[0].name@ != name);
        assert forall|j: int| 0 <= j < k - 1 && j < rest.len() implies (#[trigger] rest[j]).name@
            != name by {
            assert(rest[j] == attributes[j + 1]);
        }
        lemma_lookup(rest, name, k - 1);
    }
}

/// What the attributes of an element are read as: a text, texts, or an element, and
/// nothing where they are of another kind.
pub proof fn lemma_attributes(nodes: Seq<ElementData>, i: usize, name: Seq<char>)
    ensures
        match attr(nodes, i, name) {
            Some(AttrValue::Text(t)) => text_attr(nodes, i, name) == Some(t@)
                && text_attr_or_empty(nodes, i, name) == t@,
            _ => text_attr(nodes, i, name) is None && text_attr_or_empty(nodes, i, name)
                == Seq::<char>::empty(),
        },
        match attr(nodes, i, name) {
            Some(AttrValue::TextList(l)) => list_attr(nodes, i, name) == Seq::new(
                l@.len(),
                |k: int| l@[k]@,
            ),
            _ => list_attr(nodes, i, name).len() == 0,
        },
        match attr(nodes, i, name) {
            Some(AttrValue::Element(x)) => element_attr(nodes, i, name) == Some(x),
            _ => element_attr(nodes, i, name) is None,
        },
        parent_id(nodes, i) == element_attr(nodes, i, "AXParent"@),
{
    if let Some(AttrValue::TextList(l)) = attr(nodes, i, name) {
        assert(list_attr(nodes, i, name) =~= Seq::new(l@.len(), |k: int| l@[k]@));
    }
}

/// The children of an element are those in `AXChildren`, and none where that is not
/// a list of elements; the one in `AXExtrasMenuBar` is the last of them, where it is
/// not in that list, and it stands there once.
pub proof fn lemma_children(nodes: Seq<ElementData>, i: usize)
    ensures
        ({
            let listed = match attr(nodes, i, "AXChildren"@) {
                Some(AttrValue::ElementList(l)) => l@,
                _ => Seq::empty(),
            };
            &&& !(attr(nodes, i, "AXExtrasMenuBar"@) matches Some(AttrValue::Element(_)))
                ==> child_ids(nodes, i) == listed
            &&& attr(nodes, i, "AXExtrasMenuBar"@) matches Some(AttrValue::Element(x)) ==> {
                &&& child_ids(nodes, i).contains(x)
                &&& listed.contains(x) ==> child_ids(nodes, i) == listed
                &&& !listed.contains(x) ==> child_ids(nodes, i) == listed.push(x)
            }
        }),
{
    if let Some(AttrValue::Element(x)) = attr(nodes, i, "AXExtrasMenuBar"@) {
        let listed = listed_children(nodes[i as int]);
        if !listed.contains(x) {
            assert(listed.push(x)[listed.len() as int] == x);
        }
    }
}

/// What lies below an element: its children in their order, each followed by what
/// lies below it, so many levels in all.
pub proof fn lemma_descendants_in_order(nodes: Seq<ElementData>, i: usize, depth: nat)
    ensures
        descendants(nodes, i, 0) == Seq::<usize>::empty(),
        descendants(nodes, i, depth + 1) == child_ids(nodes, i).fold_left(
            Seq::<usize>::empty(),
            |before: Seq<usize>, c: usize| before.push(c) + descendants(nodes, c, depth),
        ),
{
    lemma_subtrees_fold(nodes, child_ids(nodes, i), depth);
}

proof fn lemma_subtrees_fold(nodes: Seq<ElementData>, ids: Seq<usize>, depth: nat)
    ensures
        subtrees(nodes, ids, depth + 1) == ids.fold_left(
            Seq::<usize>::empty(),
            |before: Seq<usize>, c: usize| before.push(c) + descendants(nodes, c, depth),
        ),
    decreases ids.len(),
{
    if ids.len() > 0 {
        lemma_subtrees_fold(nodes, ids.drop_last(), depth);
    }
}

/// The first so many of a list are a prefix of it, of that length where the list is
/// as long; the largest number sets no limit.
pub proof fn lemma_limited<A>(s: Seq<A>, limit: usize)
    ensures
        limited(s, limit).is_prefix_of(s),
        limit < usize::MAX ==> limited(s, limit).len() == if s.len() < limit {
            s.len()
        } else {
            limit as nat
        },
        limit == usize::MAX ==> limited(s, limit) == s,
        s.len() > 0 ==> first_of(s) == Some(s[0]),
        s.len() == 0 ==> first_of(s) is None,
{
}

/// A window has a number other than 0.
pub proof fn lemma_window_number(nodes: Seq<ElementData>, i: usize)
    ensures
        window_number(nodes, i) matches Some(w) ==> w != 0 && nodes[i as int].window_id == Some(w),
        nodes[i as int].window_id matches Some(w) ==> (w != 0 ==> window_number(nodes, i) == Some(
            w,
        )),
{
}

/// Handles list elements where they are on them, one by one and in their order.
pub proof fn lemma_lists(v: Seq<Element<'_>>, nodes: Seq<ElementData>, ids: Seq<usize>, k: int)
    requires
        lists(v, nodes, ids),
    ensures
        v.len() == ids.len(),
        0 <= k < v.len() ==> v[k].nodes() == nodes && v[k].index() == ids[k],
{
}

/// The attributes are named in their order.
pub proof fn lemma_attr_names(nodes: Seq<ElementData>, i: usize, k: int)
    requires
        0 <= k < nodes[i as int].attributes@.len(),
    ensures
        attr_names_of(nodes, i).len() == nodes[i as int].attributes@.len(),
        attr_names_of(nodes, i)[k] == nodes[i as int].attributes@[k].name@,
{
}

/// A snapshot is well linked where every element that is referred to is one of it,
/// and every child stands behind its parent.
pub proof fn lemma_well_linked(nodes: Seq<ElementData>)
    ensures
        well_linked(nodes) <==> forall|i: int| 0 <= i < nodes.len() ==> {
            let e = #[trigger] nodes[i];
            &&& forall|k: int|
                0 <= k < e.attributes@.len() ==> match (#[trigger] e.attributes@[k]).value {
                    AttrValue::Element(x) => x < nodes.len(),
                    AttrValue::ElementList(l) => forall|j: int|
                        0 <= j < l@.len() ==> (#[trigger] l@[j]) < nodes.len(),
                    _ => true,
                }
            &&& forall|j: int|
                0 <= j < child_ids_of(e).len() ==> i < #[trigger] child_ids_of(e)[j]
        },
{
    if well_linked(nodes) {
        assert forall|i: int| 0 <= i < nodes.len() implies ({
            let e = #[trigger] nodes[i];
            &&& forall|k: int|
                0 <= k < e.attributes@.len() ==> match (#[trigger] e.attributes@[k]).value {
                    AttrValue::Element(x) => x < nodes.len(),
                    AttrValue::ElementList(l) => forall|j: int|
                        0 <= j < l@.len() ==> (#[trigger] l@[j]) < nodes.len(),
                    _ => true,
                }
            &&& forall|j: int|
                0 <= j < child_ids_of(e).len() ==> i < #[trigger] child_ids_of(e)[j]
        }) by {
            let e = nodes[i];
            assert(linked_at(e, i, nodes.len()));
            assert forall|k: int| 0 <= k < e.attributes@.len() implies match (
            #[trigger] e.attributes@[k]).value {
                AttrValue::Element(x) => x < nodes.len(),
                AttrValue::ElementList(l) => forall|j: int|
                    0 <= j < l@.len() ==> (#[trigger] l@[j]) < nodes.len(),
                _ => true,
            } by {
                assert(refers_below(e.attributes@[k].value, nodes.len()));
            }
        }
    }
}

} // verus!

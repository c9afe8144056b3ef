//! Applications that build the tree of their web content on demand.

use vstd::prelude::*;
use crate::dom_selector::has_name;
use crate::node::{Asked, AXNode, Change, Request};
use crate::query::attr_is;
use crate::tree::{
    attr_string_list, child_ids, children, descendants, lemma_descendants_contains, list_attr,
    lists, text_attr, Element, ElementData,
};

verus! {

/// How far below an application its web content is looked for.
pub const WEB_AREA_PROBE_DEPTH: usize = 12;

/// How far below an application the views of Chromium are looked for.
pub const CHROMIUM_PROBE_DEPTH: usize = 4;

/// How long to wait for web content, in milliseconds.
pub const WEB_ACCESSIBILITY_SETTLE_MS: u64 = 1500;

/// How long to wait before looking for web content again, in milliseconds.
pub const SETTLE_POLL_MS: u64 = 25;

/// Element `i`, or one up to `levels` levels below it, is one that `pred` holds
/// of.
pub open spec fn some_within(
    nodes: Seq<ElementData>,
    i: usize,
    levels: nat,
    pred: spec_fn(usize) -> bool,
) -> bool
    decreases levels,
{
    pred(i) || (levels > 0 && exists|k: int|
        0 <= k < child_ids(nodes, i).len() && some_within(
            nodes,
            #[trigger] child_ids(nodes, i)[k],
            (levels - 1) as nat,
            pred,
        ))
}

/// The element is a web area.
pub open spec fn is_web_area(nodes: Seq<ElementData>) -> spec_fn(usize) -> bool {
    |i: usize| text_attr(nodes, i, "AXRole"@) == Some("AXWebArea"@)
}

/// The element has one of the classes that Chromium gives to its own views.
pub open spec fn is_chromium_view(nodes: Seq<ElementData>) -> spec_fn(usize) -> bool {
    |i: usize|
        {
            let classes = list_attr(nodes, i, "AXDOMClassList"@);
            classes.contains("RootView"@) || classes.contains("NonClientView"@)
                || classes.contains("ClientView"@)
        }
}

/// Whether `element`, which lies `depth` levels below an application, is or
/// holds a web area, as far down as is looked.
pub fn has_web_area(element: Element<'_>, depth: usize) -> (r: bool)
    ensures
        r == (depth <= WEB_AREA_PROBE_DEPTH && some_within(
            element.nodes(),
            element.index(),
            (WEB_AREA_PROBE_DEPTH - depth) as nat,
            is_web_area(element.nodes()),
        )),
    decreases WEB_AREA_PROBE_DEPTH + 1 - depth,
{
    if depth > WEB_AREA_PROBE_DEPTH {
        return false;
    }
    if attr_is(element, "AXRole", "AXWebArea") {
        return true;
    }
    let kids = children(element);
    let ghost nodes = element.nodes();
    let ghost ids = child_ids(nodes, element.index());
    for k in 0..kids.len()
        invariant
            depth <= WEB_AREA_PROBE_DEPTH,
            nodes == element.nodes(),
            ids == child_ids(nodes, element.index()),
            lists(kids@, nodes, ids),
            forall|j: int|
                0 <= j < k ==> !(depth < WEB_AREA_PROBE_DEPTH && some_within(
                    nodes,
                    #[trigger] ids[j],
                    (WEB_AREA_PROBE_DEPTH - depth - 1) as nat,
                    is_web_area(nodes),
                )),
    {
        if has_web_area(kids[k], depth + 1) {
            assert(ids[k as int] == kids@[k as int].index());
            return true;
        }
    }
    false
}

/// Whether `element`, which lies `depth` levels below an application, is or
/// holds a view of Chromium, as far down as is looked.
///
/// Chromium tags its own window views with classes such as `RootView`, before
/// there is any web content. This tells an application whose web content is
/// still loading from one that has none.
pub fn looks_chromium(element: Element<'_>, depth: usize) -> (r: bool)
    ensures
        r == (depth <= CHROMIUM_PROBE_DEPTH && some_within(
            element.nodes(),
            element.index(),
            (CHROMIUM_PROBE_DEPTH - depth) as nat,
            is_chromium_view(element.nodes()),
        )),
    decreases CHROMIUM_PROBE_DEPTH + 1 - depth,
{
    if depth > CHROMIUM_PROBE_DEPTH {
        return false;
    }
    let classes = attr_string_list(element, "AXDOMClassList");
    if has_name(&classes, "RootView") || has_name(&classes, "NonClientView") || has_name(
        &classes,
        "ClientView",
    ) {
        return true;
    }
    let kids = children(element);
    let ghost nodes = element.nodes();
    let ghost ids = child_ids(nodes, element.index());
    for k in 0..kids.len()
        invariant
            depth <= CHROMIUM_PROBE_DEPTH,
            nodes == element.nodes(),
            ids == child_ids(nodes, element.index()),
            lists(kids@, nodes, ids),
            forall|j: int|
                0 <= j < k ==> !(depth < CHROMIUM_PROBE_DEPTH && some_within(
                    nodes,
                    #[trigger] ids[j],
                    (CHROMIUM_PROBE_DEPTH - depth - 1) as nat,
                    is_chromium_view(nodes),
                )),
    {
        if looks_chromium(kids[k], depth + 1) {
            assert(ids[k as int] == kids@[k as int].index());
            return true;
        }
    }
    false
}

/// Whether to wait for the web content of an application: it shows none yet, but
/// it looks as if it had some.
pub fn needs_settling(app: Element<'_>) -> (r: bool)
    ensures
        r == (!some_within(
            app.nodes(),
            app.index(),
            WEB_AREA_PROBE_DEPTH as nat,
            is_web_area(app.nodes()),
        ) && some_within(
            app.nodes(),
            app.index(),
            CHROMIUM_PROBE_DEPTH as nat,
            is_chromium_view(app.nodes()),
        )),
{
    !has_web_area(app, 0) && looks_chromium(app, 0)
}

/// What to do while waiting for web content.
#[derive(Debug, Clone, Copy, PartialEq, Eq, Structural)]
pub enum SettleStep {
    /// Stop: there is web content, or there is no time left.
    Stop { found: bool },
    /// Look again after so many milliseconds.
    Poll { after_ms: u64 },
}

/// What to do after a look at an application, `elapsed_ms` milliseconds into the
/// `timeout_ms` that there are to wait.
pub fn settle_step(app: Element<'_>, elapsed_ms: u64, timeout_ms: u64) -> (r: SettleStep)
    ensures
        r == if some_within(
            app.nodes(),
            app.index(),
            WEB_AREA_PROBE_DEPTH as nat,
            is_web_area(app.nodes()),
        ) {
            SettleStep::Stop { found: true }
        } else if elapsed_ms >= timeout_ms {
            SettleStep::Stop { found: false }
        } else {
            SettleStep::Poll { after_ms: SETTLE_POLL_MS }
        },
{
    if has_web_area(app, 0) {
        SettleStep::Stop { found: true }
    } else if elapsed_ms >= timeout_ms {
        SettleStep::Stop { found: false }
    } else {
        SettleStep::Poll { after_ms: SETTLE_POLL_MS }
    }
}

/// The requests that make an application build the tree of its web content.
///
/// Both are made whatever comes back: an application can act on the attempt and
/// still report an error.
pub fn enable_web_accessibility<'a>(app: AXNode<'a>) -> (r: Vec<Request<'a>>)
    ensures
        r@.len() == 2,
        r@[0].node == app && r@[0].change@ == Asked::SetFlag("AXManualAccessibility"@, true),
        r@[1].node == app && r@[1].change@ == Asked::SetFlag("AXEnhancedUserInterface"@, true),
{
    let mut r: Vec<Request<'a>> = Vec::new();
    r.push(
        Request {
            node: app,
            change: Change::SetFlag("AXManualAccessibility".to_owned(), true),
        },
    );
    r.push(
        Request {
            node: app,
            change: Change::SetFlag("AXEnhancedUserInterface".to_owned(), true),
        },
    );
    r
}

// ---------------------------------------------------------------------------
// Laws
// ---------------------------------------------------------------------------

/// Something is found where it is the element itself or up to so many levels below
/// it.
pub proof fn lemma_some_within(
    nodes: Seq<ElementData>,
    i: usize,
    levels: nat,
    pred: spec_fn(usize) -> bool,
)
    ensures
        some_within(nodes, i, levels, pred) <==> pred(i) || exists|x: usize| #[trigger]
            descendants(nodes, i, levels).contains(x) && pred(x),
    decreases levels,
{
    let ids = child_ids(nodes, i);
    if levels > 0 {
        let d = (levels - 1) as nat;
        if some_within(nodes, i, levels, pred) && !pred(i) {
            let k = choose|k: int|
                0 <= k < ids.len() && some_within(nodes, #[trigger] ids[k], d, pred);
            lemma_some_within(nodes, ids[k], d, pred);
            let x = if pred(ids[k]) {
                ids[k]
            } else {
                choose|x: usize| #[trigger] descendants(nodes, ids[k], d).contains(x) && pred(x)
            };
            lemma_descendants_contains(nodes, i, levels, x);
            assert(descendants(nodes, i, levels).contains(x));
        }
        if exists|x: usize| #[trigger] descendants(nodes, i, levels).contains(x) && pred(x) {
            let x = choose|x: usize| #[trigger]
                descendants(nodes, i, levels).contains(x) && pred(x);
            lemma_descendants_contains(nodes, i, levels, x);
            let k = choose|k: int|
                #![trigger ids[k]]
                0 <= k < ids.len() && (ids[k] == x || descendants(nodes, ids[k], d).contains(x));
            lemma_some_within(nodes, ids[k], d, pred);
            assert(some_within(nodes, ids[k], d, pred));
        }
    }
}

/// One of the classes of element `x` is `RootView`, `NonClientView` or `ClientView`.
pub open spec fn has_view_class(nodes: Seq<ElementData>, x: usize) -> bool {
    let classes = list_attr(nodes, x, "AXDOMClassList"@);
    classes.contains("RootView"@) || classes.contains("NonClientView"@) || classes.contains(
        "ClientView"@,
    )
}

/// Web content is a web area up to 12 levels below the application, and a view of
/// Chromium is one of three classes up to 4 levels below it.
pub proof fn lemma_web_probes(nodes: Seq<ElementData>, app: usize)
    ensures
        some_within(nodes, app, WEB_AREA_PROBE_DEPTH as nat, is_web_area(nodes)) <==> text_attr(
            nodes,
            app,
            "AXRole"@,
        ) == Some("AXWebArea"@) || exists|x: usize| #[trigger]
            descendants(nodes, app, 12).contains(x) && text_attr(nodes, x, "AXRole"@) == Some(
                "AXWebArea"@,
            ),
        some_within(nodes, app, CHROMIUM_PROBE_DEPTH as nat, is_chromium_view(nodes)) <==> exists|
            x: usize,
        | #[trigger]
            has_view_class(nodes, x) && (x == app || descendants(nodes, app, 4).contains(x)),
        WEB_ACCESSIBILITY_SETTLE_MS == 1500,
        SETTLE_POLL_MS == 25,
{
    lemma_some_within(nodes, app, 12, is_web_area(nodes));
    lemma_some_within(nodes, app, 4, is_chromium_view(nodes));
    assert forall|x: usize| #[trigger] has_view_class(nodes, x) == is_chromium_view(nodes)(x) by {}
    if some_within(nodes, app, 4, is_chromium_view(nodes)) {
        let x = if is_chromium_view(nodes)(app) {
            app
        } else {
            choose|x: usize| #[trigger]
                descendants(nodes, app, 4).contains(x) && is_chromium_view(nodes)(x)
        };
        assert(has_view_class(nodes, x));
    }
}

} // verus!

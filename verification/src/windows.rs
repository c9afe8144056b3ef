//! Decisions on the windows on screen.
//!
//! A list of windows holds those on screen, from front to back.

use vstd::prelude::*;
use crate::node::{is_node, AXNode};
use crate::number::{decimal, push_decimal, push_signed_decimal, signed_decimal};
use crate::query::attr_is;
use crate::selector::{element_is_visible, is_visible};
use crate::text::opt_text;
use crate::tree::{
    attr, child_ids, children, first_of, lists, parent_id, text_attr, window_number, AttrValue,
    ElementData,
};

verus! {

/// What is known of a window on screen.
#[derive(Debug)]
pub struct WindowInfo {
    pub number: Option<i64>,
    pub owner_pid: Option<i64>,
    pub owner_name: Option<String>,
    /// Normal windows are on layer 0, and so are those of which no layer is
    /// known.
    pub layer: Option<i64>,
    /// The window is known to be fully transparent.
    pub transparent: bool,
    /// Whether the bounds of the window are such as are looked for. `None` where
    /// the bounds are not known.
    pub fits: Option<bool>,
}

/// The window is a normal one.
pub open spec fn on_normal_layer(w: WindowInfo) -> bool {
    w.layer is None || w.layer == Some(0i64)
}

fn is_on_normal_layer(w: &WindowInfo) -> (r: bool)
    ensures
        r == on_normal_layer(*w),
{
    match w.layer {
        Some(layer) => layer == 0,
        None => true,
    }
}

/// The first of the windows for which `pred` holds.
pub open spec fn first_window(
    windows: Seq<WindowInfo>,
    pred: spec_fn(WindowInfo) -> bool,
) -> Option<WindowInfo>
    decreases windows.len(),
{
    if windows.len() == 0 {
        None
    } else {
        match first_window(windows.drop_last(), pred) {
            Some(w) => Some(w),
            None => if pred(windows.last()) {
                Some(windows.last())
            } else {
                None
            },
        }
    }
}

/// `first_window` gives a window for which `pred` holds, with none before it for
/// which it does, and gives one exactly where there is one.
pub proof fn lemma_first_window(windows: Seq<WindowInfo>, pred: spec_fn(WindowInfo) -> bool)
    ensures
        match first_window(windows, pred) {
            Some(w) => exists|k: int|
                0 <= k < windows.len() && #[trigger] windows[k] == w && pred(w) && forall|j: int|
                    0 <= j < k ==> !pred(#[trigger] windows[j]),
            None => forall|j: int| 0 <= j < windows.len() ==> !pred(#[trigger] windows[j]),
        },
    decreases windows.len(),
{
    if windows.len() > 0 {
        let front = windows.drop_last();
        lemma_first_window(front, pred);
        assert forall|j: int| 0 <= j < front.len() implies front[j] == #[trigger] windows[j] by {
        }
        match first_window(front, pred) {
            Some(w) => {
                let k = choose|k: int|
                    0 <= k < front.len() && #[trigger] front[k] == w && pred(w) && forall|j: int|
                        0 <= j < k ==> !pred(#[trigger] front[j]);
                assert(windows[k] == w);
                assert forall|j: int| 0 <= j < k implies !pred(#[trigger] windows[j]) by {
                    assert(front[j] == windows[j]);
                }
            },
            None => {
                assert(windows[windows.len() - 1] == windows.last());
            },
        }
    }
}

proof fn lemma_first_window_stays(
    windows: Seq<WindowInfo>,
    pred: spec_fn(WindowInfo) -> bool,
    k: int,
)
    requires
        0 <= k <= windows.len(),
        first_window(windows.take(k), pred) is Some,
    ensures
        first_window(windows, pred) == first_window(windows.take(k), pred),
    decreases windows.len() - k,
{
    if k == windows.len() {
        assert(windows.take(k) =~= windows);
    } else {
        assert(windows.take(k + 1).drop_last() =~= windows.take(k));
        lemma_first_window_stays(windows, pred, k + 1);
    }
}

// ---------------------------------------------------------------------------
// Visibility
// ---------------------------------------------------------------------------

/// The window is a normal one with bounds such as are looked for.
pub open spec fn covers() -> spec_fn(WindowInfo) -> bool {
    |w: WindowInfo| w.number is Some && on_normal_layer(w) && w.fits == Some(true)
}

/// The window has the number `id`.
pub open spec fn has_number(id: u32) -> spec_fn(WindowInfo) -> bool {
    |w: WindowInfo| w.number == Some(id as i64)
}

/// The message for a window that is not on screen.
pub open spec fn not_on_screen(id: u32) -> Seq<char> {
    "window "@ + decimal(id as nat) + " not found on screen"@
}

fn not_on_screen_text(id: u32) -> (r: String)
    ensures
        r@ == not_on_screen(id),
{
    let mut out = "window ".to_owned();
    push_decimal(&mut out, id as u64);
    out.append(" not found on screen");
    out
}

fn find_covering(windows: &Vec<WindowInfo>) -> (r: Option<usize>)
    ensures
        match r {
            Some(k) => k < windows@.len() && first_window(windows@, covers()) == Some(
                windows@[k as int],
            ) && covers()(windows@[k as int]),
            None => first_window(windows@, covers()) is None,
        },
{
    for k in 0..windows.len()
        invariant
            first_window(windows@.take(k as int), covers()) is None,
    {
        assert(windows@.take(k + 1).drop_last() =~= windows@.take(k as int));
        let w = &windows[k];
        let hit = match w.fits {
            Some(b) => b,
            None => false,
        };
        if w.number.is_some() && is_on_normal_layer(w) && hit {
            proof {
                assert(covers()(windows@[k as int]));
                lemma_first_window_stays(windows@, covers(), k + 1);
            }
            return Some(k);
        }
    }
    assert(windows@.take(windows@.len() as int) =~= windows@);
    None
}

fn find_number(windows: &Vec<WindowInfo>, id: u32) -> (r: Option<usize>)
    ensures
        match r {
            Some(k) => k < windows@.len() && first_window(windows@, has_number(id)) == Some(
                windows@[k as int],
            ),
            None => first_window(windows@, has_number(id)) is None,
        },
{
    for k in 0..windows.len()
        invariant
            first_window(windows@.take(k as int), has_number(id)) is None,
    {
        assert(windows@.take(k + 1).drop_last() =~= windows@.take(k as int));
        if let Some(n) = windows[k].number {
            if n == id as i64 {
                proof {
                    lemma_first_window_stays(windows@, has_number(id), k + 1);
                }
                return Some(k);
            }
        }
    }
    assert(windows@.take(windows@.len() as int) =~= windows@);
    None
}

/// Whether a window is visible at a point of the screen. `fits` of the windows
/// tells whether their bounds hold the point. The list is missing where it could
/// not be read.
///
/// - `Ok(true)` if the window is the topmost at the point.
/// - `Ok(false)` if another window covers it there.
/// - `Err` if the window is not on screen at all, or no window is there.
pub fn is_window_visible_at(windows: &Option<Vec<WindowInfo>>, window_id: u32) -> (r: Result<
    bool,
    String,
>)
    ensures
        match *windows {
            Some(ws) => if first_window(ws@, has_number(window_id)) is None {
                r matches Err(m) && m@ == not_on_screen(window_id)
            } else {
                match first_window(ws@, covers()) {
                    Some(w) => r == Ok::<bool, String>(has_number(window_id)(w)),
                    None => r matches Err(m) && m@ == not_on_screen(window_id),
                }
            },
            None => r matches Err(m) && m@ == "CGWindowListCopyWindowInfo returned null"@,
        },
{
    match windows {
        None => Err("CGWindowListCopyWindowInfo returned null".to_owned()),
        Some(ws) => {
            if find_number(ws, window_id).is_none() {
                return Err(not_on_screen_text(window_id));
            }
            match find_covering(ws) {
                Some(k) => match ws[k].number {
                    Some(n) => Ok(n == window_id as i64),
                    None => Ok(false),
                },
                None => Err(not_on_screen_text(window_id)),
            }
        },
    }
}

/// How the window is called that covers a point of the screen: by the name of
/// its owner, or else by its number.
pub open spec fn window_name(w: WindowInfo) -> Seq<char> {
    match w.owner_name {
        Some(name) => name@,
        None => "(wid="@ + signed_decimal(w.number->0 as int) + ")"@,
    }
}

/// How the window is called that covers a point of the screen.
pub fn covering_window(windows: &Vec<WindowInfo>) -> (r: Option<String>)
    ensures
        opt_text(r) == match first_window(windows@, covers()) {
            Some(w) => Some(window_name(w)),
            None => None,
        },
{
    match find_covering(windows) {
        Some(k) => {
            let w = &windows[k];
            match &w.owner_name {
                Some(name) => Some(name.clone()),
                None => {
                    let mut out = "(wid=".to_owned();
                    if let Some(n) = w.number {
                        push_signed_decimal(&mut out, n);
                    }
                    out.append(")");
                    Some(out)
                },
            }
        },
        None => None,
    }
}

// ---------------------------------------------------------------------------
// Owners
// ---------------------------------------------------------------------------

/// The window is a normal one of the process `pid`, not fully transparent, with
/// bounds such as are looked for.
pub open spec fn framed(pid: i32) -> spec_fn(WindowInfo) -> bool {
    |w: WindowInfo|
        w.owner_pid == Some(pid as i64) && on_normal_layer(w) && !w.transparent && w.fits == Some(
            true,
        )
}

/// The number of a window as events carry it.
pub open spec fn event_number(w: WindowInfo) -> Option<u32> {
    match w.number {
        Some(n) => Some(n as u32),
        None => None,
    }
}

/// The number of the first normal window of a process whose bounds are those of
/// a frame. `fits` of the windows tells whether their bounds are.
///
/// The window that an element reports can belong to a helper process. Its frame
/// then finds the window that events have to name.
pub fn window_id_for_frame(windows: &Option<Vec<WindowInfo>>, pid: i32) -> (r: Option<u32>)
    ensures
        r == match *windows {
            Some(ws) => match first_window(ws@, framed(pid)) {
                Some(w) => event_number(w),
                None => None,
            },
            None => None,
        },
{
    let ws = match windows {
        Some(ws) => ws,
        None => {
            return None;
        },
    };
    for k in 0..ws.len()
        invariant
            *windows == Some(*ws),
            first_window(ws@.take(k as int), framed(pid)) is None,
    {
        assert(ws@.take(k + 1).drop_last() =~= ws@.take(k as int));
        let w = &ws[k];
        let owned = match w.owner_pid {
            Some(p) => p == pid as i64,
            None => false,
        };
        let hit = match w.fits {
            Some(b) => b,
            None => false,
        };
        if owned && is_on_normal_layer(w) && !w.transparent && hit {
            proof {
                assert(framed(pid)(ws@[k as int]));
                lemma_first_window_stays(ws@, framed(pid), k + 1);
            }
            return match w.number {
                Some(n) => Some(
                    #[verifier::truncate]
                    (n as u32),
                ),
                None => None,
            };
        }
    }
    assert(ws@.take(ws@.len() as int) =~= ws@);
    None
}

/// Whether a window is on screen and belongs to a process.
pub open spec fn belongs(windows: Option<Vec<WindowInfo>>, window_id: u32, pid: i32) -> bool {
    match windows {
        Some(ws) => first_window(ws@, has_number(window_id)) matches Some(w) && w.owner_pid == Some(
            pid as i64,
        ),
        None => false,
    }
}

/// Whether a window is on screen and belongs to a process.
pub fn window_belongs_to_pid(windows: &Option<Vec<WindowInfo>>, window_id: u32, pid: i32) -> (r:
    bool)
    ensures
        r == belongs(*windows, window_id, pid),
{
    match windows {
        Some(ws) => match find_number(ws, window_id) {
            Some(k) => match ws[k].owner_pid {
                Some(p) => p == pid as i64,
                None => false,
            },
            None => false,
        },
        None => false,
    }
}

// ---------------------------------------------------------------------------
// The window of an element
// ---------------------------------------------------------------------------

/// How many elements are looked at on the way up to a window.
pub const WINDOW_SEARCH_LIMIT: usize = 50;

/// The first window among element `i` and the elements above it, of which `n`
/// are looked at.
pub open spec fn owning_window(nodes: Seq<ElementData>, i: usize, n: nat) -> Option<usize>
    decreases n,
{
    if n == 0 {
        None
    } else if text_attr(nodes, i, "AXRole"@) == Some("AXWindow"@) {
        Some(i)
    } else {
        match parent_id(nodes, i) {
            Some(p) => owning_window(nodes, p, (n - 1) as nat),
            None => None,
        }
    }
}

/// The window that holds an element.
pub fn find_owning_window<'a>(node: &AXNode<'a>) -> (r: Option<AXNode<'a>>)
    ensures
        is_node(
            r,
            node.nodes(),
            owning_window(node.nodes(), node.index(), WINDOW_SEARCH_LIMIT as nat),
        ),
{
    let ghost nodes = node.nodes();
    let ghost all = owning_window(nodes, node.index(), WINDOW_SEARCH_LIMIT as nat);
    let mut current = *node;
    current.0.always_valid();
    for k in 0..WINDOW_SEARCH_LIMIT
        invariant
            nodes == node.nodes(),
            current.nodes() == nodes,
            current.0.valid(),
            all == owning_window(nodes, node.index(), WINDOW_SEARCH_LIMIT as nat),
            all == owning_window(nodes, current.index(), (WINDOW_SEARCH_LIMIT - k) as nat),
    {
        if attr_is(current.0, "AXRole", "AXWindow") {
            return Some(current);
        }
        match current.parent() {
            Some(p) => {
                current = p;
            },
            None => {
                return None;
            },
        }
    }
    None
}

/// Element `i` is a window whose two extents are positive.
pub open spec fn is_shown_window(nodes: Seq<ElementData>, i: usize) -> bool {
    text_attr(nodes, i, "AXRole"@) == Some("AXWindow"@) && is_visible(nodes, i)
}

/// The elements that are windows whose two extents are positive.
pub open spec fn shown_windows(nodes: Seq<ElementData>) -> spec_fn(usize) -> bool {
    |i: usize| is_shown_window(nodes, i)
}

/// The first window of an application whose two extents are positive.
pub fn find_first_ax_window<'a>(app: &AXNode<'a>) -> (r: Option<AXNode<'a>>)
    ensures
        is_node(
            r,
            app.nodes(),
            first_of(child_ids(app.nodes(), app.index()).filter(shown_windows(app.nodes()))),
        ),
{
    let kids = children(app.0);
    let ghost nodes = app.nodes();
    let ghost ids = child_ids(nodes, app.index());
    let ghost pred = shown_windows(nodes);
    proof {
        reveal(Seq::filter);
    }
    for k in 0..kids.len()
        invariant
            nodes == app.nodes(),
            ids == child_ids(nodes, app.index()),
            pred == shown_windows(nodes),
            lists(kids@, nodes, ids),
            ids.take(k as int).filter(pred).len() == 0,
    {
        let kid = kids[k];
        proof {
            reveal(Seq::filter);
            assert(ids.take(k + 1).drop_last() =~= ids.take(k as int));
            let rest = ids.skip(k + 1);
            assert(ids =~= ids.take(k + 1) + rest);
            Seq::filter_distributes_over_add(ids.take(k + 1), rest, pred);
        }
        if attr_is(kid, "AXRole", "AXWindow") && element_is_visible(kid) {
            assert(pred(ids[k as int]));
            assert(ids.filter(pred)[0] == ids[k as int]);
            return Some(AXNode(kid));
        }
    }
    assert(ids.take(kids@.len() as int) =~= ids);
    None
}

/// The number of the window that events for an element have to name, to reach
/// the process `pid`. `fits` of the windows tells whether their bounds are those
/// of the window that holds the element.
///
/// The window that the element reports is taken where it belongs to the process.
/// Otherwise it is the window of the process with the frame of the one that
/// holds the element.
pub fn resolve_event_window_id(
    node: &AXNode<'_>,
    pid: i32,
    windows: &Option<Vec<WindowInfo>>,
) -> (r: Option<u32>)
    ensures
        r == match window_number(node.nodes(), node.index()) {
            Some(id) if belongs(*windows, id, pid) => Some(id),
            _ => if owning_window(
                node.nodes(),
                node.index(),
                WINDOW_SEARCH_LIMIT as nat,
            ) is None || *windows is None {
                None
            } else {
                match first_window((*windows)->0@, framed(pid)) {
                    Some(w) => event_number(w),
                    None => None,
                }
            },
        },
{
    if let Some(id) = node.window_id() {
        if window_belongs_to_pid(windows, id, pid) {
            return Some(id);
        }
    }
    if find_owning_window(node).is_none() {
        return None;
    }
    window_id_for_frame(windows, pid)
}

// ---------------------------------------------------------------------------
// Laws
// ---------------------------------------------------------------------------

/// What the windows are asked for: one that covers a point is a numbered one of the
/// normal layer there; one for a frame is of the process, of the normal layer, not
/// transparent, and there.
pub proof fn lemma_window_conditions(w: WindowInfo, id: u32, pid: i32)
    ensures
        covers()(w) <==> w.number is Some && (w.layer is None || w.layer == Some(0i64)) && w.fits
            == Some(true),
        has_number(id)(w) <==> (w.number matches Some(n) && n == id),
        framed(pid)(w) <==> (w.owner_pid matches Some(p) && p == pid) && (w.layer is None
            || w.layer == Some(0i64)) && !w.transparent && w.fits == Some(true),
{
}

/// The topmost window at a point is the first in the list that is numbered, of the
/// normal layer and there, whatever stands behind it.
pub proof fn lemma_topmost_window(ws: Seq<WindowInfo>, k: int)
    requires
        0 <= k < ws.len(),
        ws[k].number is Some,
        ws[k].layer is None || ws[k].layer == Some(0i64),
        ws[k].fits == Some(true),
        forall|j: int|
            0 <= j < k ==> (#[trigger] ws[j]).number is None || (ws[j].layer is Some
                && ws[j].layer != Some(0i64)) || ws[j].fits != Some(true),
    ensures
        first_window(ws, covers()) == Some(ws[k]),
{
    lemma_first_is(ws, covers(), k);
}

/// The window for a frame is the first in the list that is of the process, of the
/// normal layer, not transparent, and there.
pub proof fn lemma_framed_window(ws: Seq<WindowInfo>, pid: i32, k: int)
    requires
        0 <= k < ws.len(),
        ws[k].owner_pid == Some(pid as i64),
        ws[k].layer is None || ws[k].layer == Some(0i64),
        !ws[k].transparent,
        ws[k].fits == Some(true),
        forall|j: int|
            0 <= j < k ==> (#[trigger] ws[j]).owner_pid != Some(pid as i64) || (ws[j].layer is Some
                && ws[j].layer != Some(0i64)) || ws[j].transparent || ws[j].fits != Some(true),
    ensures
        first_window(ws, framed(pid)) == Some(ws[k]),
        ws[k].number matches Some(n) ==> (0 <= n <= u32::MAX ==> (event_number(ws[k]) matches Some(
            e,
        ) && e == n)),
        ws[k].number is None ==> event_number(ws[k]) is None,
{
    lemma_first_is(ws, framed(pid), k);
}

/// A window belongs to a process where the first in the list with its number does.
pub proof fn lemma_belongs(ws: Vec<WindowInfo>, id: u32, pid: i32, k: int)
    requires
        0 <= k < ws@.len(),
        ws@[k].number == Some(id as i64),
        forall|j: int| 0 <= j < k ==> (#[trigger] ws@[j]).number != Some(id as i64),
    ensures
        belongs(Some(ws), id, pid) <==> ws@[k].owner_pid == Some(pid as i64),
        !belongs(None, id, pid),
{
    lemma_first_is(ws@, has_number(id), k);
}

proof fn lemma_first_is(ws: Seq<WindowInfo>, pred: spec_fn(WindowInfo) -> bool, k: int)
    requires
        0 <= k < ws.len(),
        pred(ws[k]),
        forall|j: int| 0 <= j < k ==> !pred(#[trigger] ws[j]),
    ensures
        first_window(ws, pred) == Some(ws[k]),
{
    lemma_first_window(ws, pred);
    let w = first_window(ws, pred)->0;
    let m = choose|m: int|
        0 <= m < ws.len() && #[trigger] ws[m] == w && pred(w) && forall|j: int|
            0 <= j < m ==> !pred(#[trigger] ws[j]);
    if m < k {
        assert(!pred(ws[m]));
    } else if k < m {
        assert(!pred(ws[k]));
    }
}

/// The window that covers a point goes by the name of its owner.
pub proof fn lemma_window_name(w: WindowInfo)
    ensures
        w.owner_name matches Some(name) ==> window_name(w) == name@,
        w.owner_name is None && w.number is Some ==> window_name(w) == "(wid="@ + signed_decimal(
            w.number->0 as int,
        ) + ")"@,
{
}

/// The window of an element is the first one on the way up from it, the element
/// itself included, where it is fewer than 50 elements away.
pub proof fn lemma_owning_window(nodes: Seq<ElementData>, path: Seq<usize>)
    requires
        0 < path.len() <= 50,
        forall|k: int|
            0 <= k < path.len() - 1 ==> parent_id(nodes, #[trigger] path[k]) == Some(path[k + 1]),
        forall|k: int|
            0 <= k < path.len() - 1 ==> text_attr(nodes, #[trigger] path[k], "AXRole"@) != Some(
                "AXWindow"@,
            ),
    ensures
        text_attr(nodes, path.last(), "AXRole"@) == Some("AXWindow"@) ==> owning_window(
            nodes,
            path[0],
            WINDOW_SEARCH_LIMIT as nat,
        ) == Some(path.last()),
        text_attr(nodes, path.last(), "AXRole"@) != Some("AXWindow"@) && (parent_id(
            nodes,
            path.last(),
        ) is None || path.len() == 50) ==> owning_window(
            nodes,
            path[0],
            WINDOW_SEARCH_LIMIT as nat,
        ) is None,
{
    lemma_window_on_path(nodes, path, 50);
}

proof fn lemma_window_on_path(nodes: Seq<ElementData>, path: Seq<usize>, n: nat)
    requires
        0 < path.len() <= n,
        forall|k: int|
            0 <= k < path.len() - 1 ==> parent_id(nodes, #[trigger] path[k]) == Some(path[k + 1]),
        forall|k: int|
            0 <= k < path.len() - 1 ==> text_attr(nodes, #[trigger] path[k], "AXRole"@) != Some(
                "AXWindow"@,
            ),
    ensures
        text_attr(nodes, path.last(), "AXRole"@) == Some("AXWindow"@) ==> owning_window(
            nodes,
            path[0],
            n,
        ) == Some(path.last()),
        text_attr(nodes, path.last(), "AXRole"@) != Some("AXWindow"@) && (parent_id(
            nodes,
            path.last(),
        ) is None || path.len() == n) ==> owning_window(nodes, path[0], n) is None,
    decreases path.len(),
{
    if path.len() > 1 {
        let rest = path.skip(1);
        assert forall|k: int| 0 <= k < rest.len() - 1 implies parent_id(nodes, #[trigger] rest[k])
            == Some(rest[k + 1]) by {
            assert(path[k + 1] == rest[k]);
        }
        assert forall|k: int| 0 <= k < rest.len() - 1 implies text_attr(
            nodes,
            #[trigger] rest[k],
            "AXRole"@,
        ) != Some("AXWindow"@) by {
            assert(path[k + 1] == rest[k]);
        }
        lemma_window_on_path(nodes, rest, (n - 1) as nat);
        assert(rest.last() == path.last());
        assert(parent_id(nodes, path[0]) == Some(path[1]));
    } else if parent_id(nodes, path[0]) is Some {
        assert(owning_window(nodes, parent_id(nodes, path[0])->0, 0) is None);
    }
}

/// A window is shown where its width and its height are above zero.
pub proof fn lemma_shown_window(nodes: Seq<ElementData>, i: usize)
    ensures
        shown_windows(nodes)(i) <==> text_attr(nodes, i, "AXRole"@) == Some("AXWindow"@) && attr(
            nodes,
            i,
            "AXSize"@,
        ) == Some(AttrValue::Size { width_positive: true, height_positive: true }),
{
}

/// The message for a window that is not on screen names it.
pub proof fn lemma_not_on_screen(id: u32)
    ensures
        not_on_screen(id) == "window "@ + decimal(id as nat) + " not found on screen"@,
{
}

} // verus!

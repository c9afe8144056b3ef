//! What the commands decide.

use vstd::prelude::*;
use crate::error::AxError;
use crate::node::{elements_of, lists_nodes, AXNode};
use crate::number::{decimal, parse_u64, parse_unsigned, push_decimal};
use crate::query::attr_is;
use crate::resolve::located;
use crate::text::{append2, append3, same_text};
use crate::tree::{attr_string_or_empty, child_ids, text_attr, text_attr_or_empty, ElementData};
use crate::validate::{locator_error, validate_locator};

verus! {

// ---------------------------------------------------------------------------
// Resolving locators
// ---------------------------------------------------------------------------

/// The error for a locator that breaks the rules.
pub open spec fn invalid_text(locator: Seq<char>) -> Seq<char> {
    locator_error(locator)->0 + "\n  locator: "@ + locator
}

/// The elements that a locator leads to. There is an error where the locator
/// breaks the rules, and where it leads to none.
pub fn resolve_some<'a>(app: &AXNode<'a>, locator: &str) -> (r: Result<Vec<AXNode<'a>>, AxError>)
    ensures
        match r {
            Ok(v) => locator_error(locator@) is None && v@.len() > 0 && lists_nodes(
                v@,
                app.nodes(),
                located(app.nodes(), app.index(), locator@),
            ),
            Err(AxError::LocatorInvalid(m)) => locator_error(locator@) is Some && m@
                == invalid_text(locator@),
            Err(AxError::LocatorNotFound(m)) => locator_error(locator@) is None && located(
                app.nodes(),
                app.index(),
                locator@,
            ).len() == 0 && m@ == locator@,
            Err(_) => false,
        },
{
    if let Err(e) = validate_locator(locator) {
        return Err(e);
    }
    let found = app.locate_all(locator);
    if found.len() == 0 {
        return Err(AxError::LocatorNotFound(locator.to_owned()));
    }
    Ok(found)
}

/// The one element that a locator leads to. There is an error where the locator
/// breaks the rules, and where it leads to none or to several.
pub fn resolve_one<'a>(app: &AXNode<'a>, locator: &str) -> (r: Result<AXNode<'a>, AxError>)
    ensures
        match r {
            Ok(n) => locator_error(locator@) is None && n.nodes() == app.nodes() && located(
                app.nodes(),
                app.index(),
                locator@,
            ) == seq![n.index()],
            Err(AxError::LocatorInvalid(m)) => locator_error(locator@) is Some && m@
                == invalid_text(locator@),
            Err(AxError::LocatorNotFound(m)) => locator_error(locator@) is None && located(
                app.nodes(),
                app.index(),
                locator@,
            ).len() == 0 && m@ == locator@,
            Err(AxError::LocatorAmbiguous { locator: l, count, at_least }) => {
                &&& locator_error(locator@) is None
                &&& l@ == locator@
                &&& count == located(app.nodes(), app.index(), locator@).len()
                &&& count > 1
                &&& !at_least
            },
            Err(_) => false,
        },
{
    let found = match resolve_some(app, locator) {
        Ok(found) => found,
        Err(e) => {
            return Err(e);
        },
    };
    if found.len() > 1 {
        return Err(
            AxError::LocatorAmbiguous {
                locator: locator.to_owned(),
                count: found.len(),
                at_least: false,
            },
        );
    }
    let n = found[0];
    assert(elements_of(found@)[0] == n.0);
    assert(located(app.nodes(), app.index(), locator@) =~= seq![n.index()]);
    Ok(n)
}

/// The elements that a command works on: all that a locator leads to, or the
/// first of them.
pub fn snapshot_nodes<'a>(app: &AXNode<'a>, locator: &str, all: bool) -> (r: Result<
    Vec<AXNode<'a>>,
    AxError,
>)
    ensures
        match r {
            Ok(v) => locator_error(locator@) is None && v@.len() > 0 && lists_nodes(
                v@,
                app.nodes(),
                if all {
                    located(app.nodes(), app.index(), locator@)
                } else {
                    located(app.nodes(), app.index(), locator@).take(1)
                },
            ),
            Err(AxError::LocatorInvalid(m)) => locator_error(locator@) is Some && m@
                == invalid_text(locator@),
            Err(AxError::LocatorNotFound(m)) => locator_error(locator@) is None && located(
                app.nodes(),
                app.index(),
                locator@,
            ).len() == 0 && m@ == locator@,
            Err(_) => false,
        },
{
    let found = match resolve_some(app, locator) {
        Ok(found) => found,
        Err(e) => {
            return Err(e);
        },
    };
    if all {
        return Ok(found);
    }
    let n = found[0];
    assert(elements_of(found@)[0] == n.0);
    let mut first: Vec<AXNode<'a>> = Vec::new();
    first.push(n);
    Ok(first)
}

/// The elements that the command `get` reads: all that a locator leads to, or
/// the only one.
pub fn get_nodes<'a>(app: &AXNode<'a>, locator: &str, all: bool) -> (r: Result<
    Vec<AXNode<'a>>,
    AxError,
>)
    ensures
        match r {
            Ok(v) => locator_error(locator@) is None && v@.len() > 0 && lists_nodes(
                v@,
                app.nodes(),
                located(app.nodes(), app.index(), locator@),
            ) && (all || v@.len() == 1),
            Err(AxError::LocatorInvalid(m)) => locator_error(locator@) is Some && m@
                == invalid_text(locator@),
            Err(AxError::LocatorNotFound(m)) => locator_error(locator@) is None && located(
                app.nodes(),
                app.index(),
                locator@,
            ).len() == 0 && m@ == locator@,
            Err(AxError::LocatorAmbiguous { locator: l, count, at_least }) => {
                &&& !all
                &&& locator_error(locator@) is None
                &&& l@ == locator@
                &&& count == located(app.nodes(), app.index(), locator@).len()
                &&& count > 1
                &&& !at_least
            },
            Err(_) => false,
        },
{
    if all {
        return resolve_some(app, locator);
    }
    match resolve_one(app, locator) {
        Ok(n) => {
            n.0.always_valid();
            let mut one: Vec<AXNode<'a>> = Vec::new();
            one.push(n);
            Ok(one)
        },
        Err(e) => Err(e),
    }
}

// ---------------------------------------------------------------------------
// Messages
// ---------------------------------------------------------------------------

/// The message that tells which element a locator has led to.
pub fn resolved_message(node: &AXNode<'_>) -> (r: String)
    ensures
        r@ == "Resolved \u{2192} role=\""@ + text_attr_or_empty(
            node.nodes(),
            node.index(),
            "AXRole"@,
        ) + "\" title=\""@ + text_attr_or_empty(node.nodes(), node.index(), "AXTitle"@) + "\""@,
{
    let role = attr_string_or_empty(node.0, "AXRole");
    let mut out = append2("Resolved \u{2192} role=\"", role.as_str());
    out.append("\" title=\"");
    out.append(attr_string_or_empty(node.0, "AXTitle").as_str());
    out.append("\"");
    out
}

/// The same message, with the number of children.
pub fn resolved_message_with_children(node: &AXNode<'_>) -> (r: String)
    ensures
        r@ == "Resolved \u{2192} role=\""@ + text_attr_or_empty(
            node.nodes(),
            node.index(),
            "AXRole"@,
        ) + "\" title=\""@ + text_attr_or_empty(node.nodes(), node.index(), "AXTitle"@) + "\""@
            + " children="@ + decimal(child_ids(node.nodes(), node.index()).len()),
{
    let mut out = resolved_message(node);
    out.append(" children=");
    push_decimal(&mut out, node.child_count() as u64);
    out
}

/// The message that tells how many elements a locator has led to.
pub fn found_message(count: usize, locator: &str) -> (r: String)
    ensures
        r@ == "Found "@ + decimal(count as nat) + " matches for "@ + locator@,
{
    let mut out = "Found ".to_owned();
    push_decimal(&mut out, count as u64);
    out.append(" matches for ");
    out.append(locator);
    out
}

/// The message that only the first of several elements is shown.
pub fn first_of_many_message(count: usize) -> (r: String)
    ensures
        r@ == "Matched "@ + decimal(count as nat)
            + " elements, showing first. Use --all to see all."@,
{
    let mut out = "Matched ".to_owned();
    push_decimal(&mut out, count as u64);
    out.append(" elements, showing first. Use --all to see all.");
    out
}

/// The line before element number `index`, from 0, of `count` elements.
pub fn match_heading(index: usize, count: usize) -> (r: String)
    requires
        index < count,
    ensures
        r@ == "--- match "@ + decimal((index + 1) as nat) + "/"@ + decimal(count as nat) + " ---"@,
{
    let mut out = "--- match ".to_owned();
    push_decimal(&mut out, index as u64 + 1);
    out.append("/");
    push_decimal(&mut out, count as u64);
    out.append(" ---");
    out
}

// ---------------------------------------------------------------------------
// Clicking
// ---------------------------------------------------------------------------

/// How a click is delivered.
#[derive(Debug, Clone, Copy, PartialEq, Eq, Structural)]
pub enum ClickStrategy {
    /// Let the command choose.
    Auto,
    /// By a press through the accessibility interface.
    Ax,
    /// By an event at a point of the screen.
    Cg,
    /// By an event for the process, in the background.
    CgPid,
}

/// The strategy that a click without one gets: in the background.
pub fn choose_auto_strategy() -> (r: ClickStrategy)
    ensures
        r == ClickStrategy::CgPid,
{
    ClickStrategy::CgPid
}

/// What a click does.
#[derive(Debug, Clone, Copy, PartialEq, Eq, Structural)]
pub enum ClickPlan {
    /// Press the element, after a warning that it is not brought to the front
    /// where that was asked for.
    Press { warn: bool },
    /// Post events to the process, after such a warning.
    Background { warn: bool },
    /// Click at the center of the element, and activate nothing.
    MenuExtra,
    /// Press the element of a menu, after its application was activated where
    /// that was asked for.
    MenuPress { activate: bool },
    /// Click at the center of the element, after its application was activated
    /// where that was asked for.
    Point { activate: bool },
}

/// The role is that of an entry of a menu or of the menu bar.
pub open spec fn menu_role(role: Seq<char>) -> bool {
    role == "AXMenuItem"@ || role == "AXMenuBarItem"@
}

/// Whether a role is that of an entry of a menu or of the menu bar.
pub fn is_menu_role(role: &str) -> (r: bool)
    ensures
        r == menu_role(role@),
{
    same_text(role, "AXMenuItem") || same_text(role, "AXMenuBarItem")
}

/// What a click on element `i` does. Activating the application of a menu extra
/// would close its menu.
pub open spec fn click_plan_for(
    nodes: Seq<ElementData>,
    i: usize,
    strategy: ClickStrategy,
    activate: bool,
) -> ClickPlan {
    match strategy {
        ClickStrategy::Ax => ClickPlan::Press { warn: activate },
        ClickStrategy::CgPid | ClickStrategy::Auto => ClickPlan::Background { warn: activate },
        ClickStrategy::Cg => if text_attr(nodes, i, "AXSubrole"@) == Some("AXMenuExtra"@) {
            ClickPlan::MenuExtra
        } else if menu_role(text_attr_or_empty(nodes, i, "AXRole"@)) {
            ClickPlan::MenuPress { activate }
        } else {
            ClickPlan::Point { activate }
        },
    }
}

/// What a click on an element does.
pub fn click_plan(node: &AXNode<'_>, strategy: ClickStrategy, activate: bool) -> (r: ClickPlan)
    ensures
        r == click_plan_for(node.nodes(), node.index(), strategy, activate),
{
    let resolved = match strategy {
        ClickStrategy::Auto => choose_auto_strategy(),
        other => other,
    };
    match resolved {
        ClickStrategy::Ax => ClickPlan::Press { warn: activate },
        ClickStrategy::CgPid | ClickStrategy::Auto => ClickPlan::Background { warn: activate },
        ClickStrategy::Cg => {
            if attr_is(node.0, "AXSubrole", "AXMenuExtra") {
                return ClickPlan::MenuExtra;
            }
            let role = attr_string_or_empty(node.0, "AXRole");
            if is_menu_role(role.as_str()) {
                ClickPlan::MenuPress { activate }
            } else {
                ClickPlan::Point { activate }
            }
        },
    }
}

/// The window that a click in the background goes to. Without one it fails.
pub fn click_window(window: Option<u32>) -> (r: Result<u32, AxError>)
    ensures
        match window {
            Some(w) => r == Ok::<u32, AxError>(w),
            None => r matches Err(AxError::ActionFailed(m)) && m@
                == "could not find the window that owns this element"@,
        },
{
    match window {
        Some(w) => Ok(w),
        None => Err(
            AxError::ActionFailed("could not find the window that owns this element".to_owned()),
        ),
    }
}

/// The outcome of a press.
pub fn press_outcome(done: bool) -> (r: Result<(), AxError>)
    ensures
        done ==> r is Ok,
        !done ==> (r matches Err(AxError::ActionFailed(m)) && m@ == "AXPress"@),
{
    if done {
        Ok(())
    } else {
        Err(AxError::ActionFailed("AXPress".to_owned()))
    }
}

// ---------------------------------------------------------------------------
// Scrolling
// ---------------------------------------------------------------------------

/// How scrolling is delivered.
#[derive(Debug, Clone, Copy, PartialEq, Eq, Structural)]
pub enum ScrollStrategy {
    /// Let the command choose.
    Auto,
    /// By an event at a point of the screen.
    Cg,
    /// By an event for the process, in the background.
    CgPid,
}

/// How far to scroll, to the left and up, for a direction and a number of pixels.
pub open spec fn scroll_offsets(direction: Seq<char>, pixels: int) -> Option<(int, int)> {
    if direction == "up"@ {
        Some((0, pixels))
    } else if direction == "down"@ {
        Some((0, -pixels))
    } else if direction == "left"@ {
        Some((pixels, 0))
    } else if direction == "right"@ {
        Some((-pixels, 0))
    } else {
        None
    }
}

/// How far to scroll, to the left and up, for a direction and a number of
/// pixels. The opposite of the least number cannot be written.
pub fn scroll_delta(direction: &str, pixels: i32) -> (r: Result<(i32, i32), AxError>)
    requires
        direction@ == "down"@ || direction@ == "right"@ ==> pixels > i32::MIN,
    ensures
        match scroll_offsets(direction@, pixels as int) {
            Some((dx, dy)) => r matches Ok(d) && d.0 == dx && d.1 == dy,
            None => r matches Err(AxError::InvalidArgument(m)) && m@ == "invalid direction '"@
                + direction@ + "', use up/down/left/right"@,
        },
{
    proof {
        reveal_strlit("up");
        reveal_strlit("left");
        assert("up"@.len() == 2 && "left"@.len() == 4);
    }
    if same_text(direction, "up") {
        Ok((0, pixels))
    } else if same_text(direction, "down") {
        Ok((0, -pixels))
    } else if same_text(direction, "left") {
        Ok((pixels, 0))
    } else if same_text(direction, "right") {
        Ok((-pixels, 0))
    } else {
        Err(
            AxError::InvalidArgument(
                append3("invalid direction '", direction, "', use up/down/left/right"),
            ),
        )
    }
}

/// What scrolling does.
#[derive(Debug, Clone, Copy, PartialEq, Eq, Structural)]
pub enum ScrollPlan {
    /// Post events to the process, for this window.
    Background { window: u32 },
    /// Scroll at the center of the element, after the application was activated
    /// where its window is covered.
    Point { activate: bool },
}

/// What scrolling does: in the background it needs a window, and falls back to a
/// point of the screen without one. There, the application is activated where
/// the window of the element is known to be covered.
pub fn scroll_plan(
    strategy: ScrollStrategy,
    window: Option<u32>,
    visible: Option<Result<bool, String>>,
) -> (r: ScrollPlan)
    ensures
        r == match strategy {
            ScrollStrategy::Auto | ScrollStrategy::CgPid => match window {
                Some(w) => ScrollPlan::Background { window: w },
                None => ScrollPlan::Point { activate: false },
            },
            ScrollStrategy::Cg => ScrollPlan::Point {
                activate: visible matches Some(Ok(v)) && !v,
            },
        },
{
    match strategy {
        ScrollStrategy::Auto | ScrollStrategy::CgPid => match window {
            Some(w) => ScrollPlan::Background { window: w },
            None => ScrollPlan::Point { activate: false },
        },
        ScrollStrategy::Cg => {
            let covered = match visible {
                Some(Ok(v)) => !v,
                _ => false,
            };
            ScrollPlan::Point { activate: covered }
        },
    }
}

// ---------------------------------------------------------------------------
// Waiting, debugging
// ---------------------------------------------------------------------------

/// What to wait for.
#[derive(Debug)]
pub enum WaitTarget {
    /// So many milliseconds.
    Millis(u64),
    /// An element that a locator leads to.
    Locator(String),
}

/// How long to wait for an element, in milliseconds.
pub const WAIT_TIMEOUT_MS: u64 = 10000;

/// What to wait for: a number of milliseconds, or else a locator, which must
/// keep the rules.
pub fn wait_target(target: &str) -> (r: Result<WaitTarget, AxError>)
    ensures
        match parse_unsigned(target@, u64::MAX as nat) {
            Some(n) => r matches Ok(WaitTarget::Millis(ms)) && ms == n,
            None => if locator_error(target@) is None {
                r matches Ok(WaitTarget::Locator(l)) && l@ == target@
            } else {
                r matches Err(AxError::LocatorInvalid(m)) && m@ == invalid_text(target@)
            },
        },
{
    if let Some(ms) = parse_u64(target) {
        return Ok(WaitTarget::Millis(ms));
    }
    match validate_locator(target) {
        Ok(_) => Ok(WaitTarget::Locator(target.to_owned())),
        Err(e) => Err(e),
    }
}

/// What to do while waiting for an element.
pub enum WaitStep {
    /// The element is there.
    Done,
    /// It is too late.
    Failed(AxError),
    /// Look again, after a moment.
    Poll,
}

/// What to do after looking for an element for `elapsed_ms` milliseconds.
pub fn wait_step(found: bool, elapsed_ms: u64, locator: &str) -> (r: WaitStep)
    ensures
        match r {
            WaitStep::Done => found,
            WaitStep::Failed(e) => {
                &&& !found
                &&& elapsed_ms >= WAIT_TIMEOUT_MS
                &&& e matches AxError::LocatorNotFound(l) && l@ == locator@
            },
            WaitStep::Poll => !found && elapsed_ms < WAIT_TIMEOUT_MS,
        },
{
    if found {
        WaitStep::Done
    } else if elapsed_ms >= WAIT_TIMEOUT_MS {
        WaitStep::Failed(AxError::LocatorNotFound(locator.to_owned()))
    } else {
        WaitStep::Poll
    }
}

/// The error for a debug command that is not known.
pub fn debug_command(what: &str) -> (r: Result<(), AxError>)
    ensures
        what@ == "mouse"@ ==> r is Ok,
        what@ != "mouse"@ ==> (r matches Err(AxError::InvalidArgument(m)) && m@
            == "unknown debug command: "@ + what@ + " (available: mouse)"@),
{
    if same_text(what, "mouse") {
        Ok(())
    } else {
        Err(
            AxError::InvalidArgument(
                append3("unknown debug command: ", what, " (available: mouse)"),
            ),
        )
    }
}

// ---------------------------------------------------------------------------
// Laws
// ---------------------------------------------------------------------------

/// A press and a click in the background bring nothing to the front, whatever is
/// asked for, and a click without a strategy is one in the background.
pub proof fn lemma_click_stays_behind(nodes: Seq<ElementData>, i: usize, activate: bool)
    ensures
        click_plan_for(nodes, i, ClickStrategy::Ax, activate) == (ClickPlan::Press {
            warn: activate,
        }),
        click_plan_for(nodes, i, ClickStrategy::CgPid, activate) == (ClickPlan::Background {
            warn: activate,
        }),
        click_plan_for(nodes, i, ClickStrategy::Auto, activate) == click_plan_for(
            nodes,
            i,
            ClickStrategy::CgPid,
            activate,
        ),
{
}

/// A click at a point of the screen: on a menu extra it activates nothing, an entry
/// of a menu or of the menu bar is pressed, and anything else is clicked at its
/// center.
pub proof fn lemma_click_at_point(nodes: Seq<ElementData>, i: usize, activate: bool)
    ensures
        ({
            let plan = click_plan_for(nodes, i, ClickStrategy::Cg, activate);
            let extra = text_attr(nodes, i, "AXSubrole"@) == Some("AXMenuExtra"@);
            let entry = text_attr(nodes, i, "AXRole"@) == Some("AXMenuItem"@) || text_attr(
                nodes,
                i,
                "AXRole"@,
            ) == Some("AXMenuBarItem"@);
            &&& extra ==> plan == ClickPlan::MenuExtra
            &&& !extra && entry ==> plan == (ClickPlan::MenuPress { activate })
            &&& !extra && !entry ==> plan == (ClickPlan::Point { activate })
        }),
{
    reveal_strlit("AXMenuItem");
    reveal_strlit("AXMenuBarItem");
    assert("AXMenuItem"@.len() == 10 && "AXMenuBarItem"@.len() == 13);
}

/// Up and left count positive, and down and right are their opposites; nothing else
/// is a direction.
pub proof fn lemma_scroll_directions(direction: Seq<char>, pixels: int)
    ensures
        scroll_offsets("up"@, pixels) == Some((0int, pixels)),
        scroll_offsets("left"@, pixels) == Some((pixels, 0int)),
        scroll_offsets("down"@, pixels) == scroll_offsets("up"@, -pixels),
        scroll_offsets("right"@, pixels) == scroll_offsets("left"@, -pixels),
        direction != "up"@ && direction != "down"@ && direction != "left"@ && direction
            != "right"@ ==> scroll_offsets(direction, pixels) is None,
{
    reveal_strlit("up");
    reveal_strlit("down");
    reveal_strlit("left");
    reveal_strlit("right");
    assert("up"@.len() == 2 && "down"@.len() == 4 && "left"@.len() == 4 && "right"@.len() == 5);
    assert("down"@[0] == 'd' && "left"@[0] == 'l');
}

/// The message for a locator that breaks the rules says what is wrong, and then
/// which locator it is.
pub proof fn lemma_invalid_text(locator: Seq<char>)
    requires
        locator_error(locator) is Some,
    ensures
        locator_error(locator)->0.is_prefix_of(invalid_text(locator)),
        invalid_text(locator) == locator_error(locator)->0 + "\n  locator: "@ + locator,
        WAIT_TIMEOUT_MS == 10000,
{
    assert(invalid_text(locator).subrange(0, locator_error(locator)->0.len() as int)
        =~= locator_error(locator)->0);
}

} // verus!

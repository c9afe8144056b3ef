//! What a screenshot shows, and how it is taken.

use vstd::prelude::*;
use crate::commands::{invalid_text, resolve_one};
use crate::error::AxError;
use crate::node::{is_node, AXNode};
use crate::number::{decimal, push_decimal};
use crate::resolve::located;
use crate::selector::{element_is_visible, is_visible};
use crate::steps::{deeds, only_if, Deed, InputStep};
use crate::text::append2;
use crate::tree::{attr, child_ids, first_of, AttrValue};
use crate::validate::locator_error;
use crate::windows::{
    find_first_ax_window, find_owning_window, owning_window, shown_windows, WINDOW_SEARCH_LIMIT,
};

verus! {

/// What a screenshot shows.
pub struct Shot<'a> {
    /// The element, where one was asked for.
    pub element: Option<AXNode<'a>>,
    /// The window that holds the element. Without an element, the first window of
    /// the application.
    pub window: Option<AXNode<'a>>,
}

/// A way to take the image of a window.
#[derive(Clone, Copy)]
pub enum Capture<'a> {
    /// Of the window of the process that has the frame of this one.
    Frame(AXNode<'a>),
    /// Of a window of the process.
    Process,
}

/// A part of the screen.
pub enum Region<'a> {
    /// Where an element is.
    Of(AXNode<'a>),
    /// The whole screen.
    Screen,
}

/// What a way to take the image of a window goes by: the frame of a window, by
/// its position, or the process.
pub open spec fn capture_view(c: Capture<'_>) -> Option<AXNode<'_>> {
    match c {
        Capture::Frame(w) => Some(w),
        Capture::Process => None,
    }
}

/// The part of the screen where an element is, or the whole screen.
pub open spec fn region_view(r: Region<'_>) -> Option<AXNode<'_>> {
    match r {
        Region::Of(n) => Some(n),
        Region::Screen => None,
    }
}

/// What a screenshot shows: the one element that a locator leads to, in its
/// window, or else the first window of the application.
pub fn screenshot_target<'a>(app: &AXNode<'a>, locator: &Option<String>) -> (r: Result<
    Shot<'a>,
    AxError,
>)
    ensures
        match *locator {
            None => r matches Ok(s) && s.element is None && is_node(
                s.window,
                app.nodes(),
                first_of(child_ids(app.nodes(), app.index()).filter(shown_windows(app.nodes()))),
            ),
            Some(l) => match r {
                Ok(s) => locator_error(l@) is None && (s.element matches Some(n) && n.nodes()
                    == app.nodes() && located(app.nodes(), app.index(), l@) == seq![n.index()]
                    && is_node(
                    s.window,
                    app.nodes(),
                    owning_window(app.nodes(), n.index(), WINDOW_SEARCH_LIMIT as nat),
                )),
                Err(AxError::LocatorInvalid(m)) => locator_error(l@) is Some && m@
                    == invalid_text(l@),
                Err(AxError::LocatorNotFound(m)) => locator_error(l@) is None && located(
                    app.nodes(),
                    app.index(),
                    l@,
                ).len() == 0 && m@ == l@,
                Err(AxError::LocatorAmbiguous { locator: t, count, at_least }) => {
                    &&& locator_error(l@) is None
                    &&& t@ == l@
                    &&& count == located(app.nodes(), app.index(), l@).len()
                    &&& count > 1
                    &&& !at_least
                },
                Err(_) => false,
            },
        },
{
    match locator {
        None => Ok(Shot { element: None, window: find_first_ax_window(app) }),
        Some(l) => match resolve_one(app, l.as_str()) {
            Ok(n) => Ok(Shot { element: Some(n), window: find_owning_window(&n) }),
            Err(e) => Err(e),
        },
    }
}

/// The window of a screenshot, where its two extents are positive.
pub open spec fn sized_window(shot: Shot<'_>) -> Option<AXNode<'_>> {
    match shot.window {
        Some(w) => if is_visible(w.nodes(), w.index()) {
            Some(w)
        } else {
            None
        },
        None => None,
    }
}

/// The ways to take the image of the window, in the order in which they are
/// tried: by the frame of the window, and by the process. For an element, one of
/// the two is tried.
pub open spec fn capture_order(shot: Shot<'_>) -> Seq<Option<AXNode<'_>>> {
    if shot.element is Some {
        seq![sized_window(shot)]
    } else {
        match shot.window {
            Some(w) => seq![Some(w), None],
            None => seq![None],
        }
    }
}

/// The ways to take the image of the window, in the order in which they are
/// tried.
pub fn captures<'a>(shot: &Shot<'a>) -> (r: Vec<Capture<'a>>)
    ensures
        r@.len() == capture_order(*shot).len(),
        forall|k: int|
            0 <= k < r@.len() ==> capture_view(#[trigger] r@[k]) == capture_order(*shot)[k],
{
    let mut r: Vec<Capture<'a>> = Vec::new();
    match (&shot.element, &shot.window) {
        (Some(_), Some(w)) => {
            if element_is_visible(w.0) {
                r.push(Capture::Frame(*w));
            } else {
                r.push(Capture::Process);
            }
        },
        (None, Some(w)) => {
            r.push(Capture::Frame(*w));
            r.push(Capture::Process);
        },
        (_, None) => {
            r.push(Capture::Process);
        },
    }
    r
}

/// The part of the screen that is taken where there is no image of the window:
/// that of the element, or of the window, or the whole screen.
pub open spec fn fallback_view(shot: Shot<'_>) -> Option<AXNode<'_>> {
    if shot.element is Some {
        shot.element
    } else {
        shot.window
    }
}

/// The part of the screen that is taken where there is no image of the window.
pub fn fallback_region<'a>(shot: &Shot<'a>) -> (r: Region<'a>)
    ensures
        region_view(r) == fallback_view(*shot),
{
    match (&shot.element, &shot.window) {
        (Some(n), _) => Region::Of(*n),
        (None, Some(w)) => Region::Of(*w),
        (None, None) => Region::Screen,
    }
}

/// What brings the application to the front, and lets it be drawn there.
pub open spec fn to_front() -> Seq<Deed> {
    seq![Deed::Activate, Deed::Pause(100)]
}

fn front_steps(wanted: bool) -> (r: Vec<InputStep>)
    ensures
        deeds(r@) == only_if(wanted, to_front()),
{
    let mut r: Vec<InputStep> = Vec::new();
    if wanted {
        r.push(InputStep::Activate);
        r.push(InputStep::Pause(100));
    }
    assert(deeds(r@) =~= only_if(wanted, to_front()));
    r
}

/// The steps before the element or the window of a screenshot is looked for: the
/// application comes to the front only where the image is to show what is on the
/// screen.
pub fn shot_start(legacy: bool) -> (r: Vec<InputStep>)
    ensures
        deeds(r@) == only_if(legacy, to_front()),
{
    front_steps(legacy)
}

/// What to do next for a screenshot.
pub enum ShotStep<'a> {
    /// Use the image of the window: the part of it where the element is, where
    /// there is one, or else all of it.
    Use { crop: Option<AXNode<'a>> },
    /// Try this way to take the image of the window, in the background.
    Capture(Capture<'a>),
    /// Take the steps, and then the image of the part of the screen.
    Screen { before: Vec<InputStep>, region: Region<'a> },
}

/// What to do next for a screenshot, after so many of the ways to take the image
/// of the window were tried, the last of which brought one where `taken` holds.
///
/// The application comes to the front only where no image came in the background;
/// with `legacy`, where none is tried, it is in front already.
pub fn shot_step<'a>(shot: &Shot<'a>, legacy: bool, tried: usize, taken: bool) -> (r: ShotStep<'a>)
    requires
        tried <= capture_order(*shot).len(),
    ensures
        match r {
            ShotStep::Use { crop } => taken && crop == shot.element,
            ShotStep::Capture(c) => {
                &&& !taken
                &&& !legacy
                &&& tried < capture_order(*shot).len()
                &&& capture_view(c) == capture_order(*shot)[tried as int]
            },
            ShotStep::Screen { before, region } => {
                &&& !taken
                &&& legacy || tried == capture_order(*shot).len()
                &&& deeds(before@) == only_if(!legacy, to_front())
                &&& region_view(region) == fallback_view(*shot)
            },
        },
{
    if taken {
        return ShotStep::Use { crop: shot.element };
    }
    if !legacy {
        let ways = captures(shot);
        if tried < ways.len() {
            return ShotStep::Capture(ways[tried]);
        }
    }
    ShotStep::Screen { before: front_steps(!legacy), region: fallback_region(shot) }
}

/// Whatever part of the screen a screenshot ends with, the application was brought
/// to the front once before it: either at the start or after the last attempt in
/// the background.
pub proof fn lemma_front_once(legacy: bool)
    ensures
        only_if(legacy, to_front()) + only_if(!legacy, to_front()) == to_front(),
{
    assert(only_if(legacy, to_front()) + only_if(!legacy, to_front()) =~= to_front());
}

/// How a screenshot ended: there was an image, it could be cropped where it had
/// to be, and it could be saved.
pub fn shot_outcome(captured: bool, cropped: bool, saved: bool, path: &str) -> (r: Result<
    (),
    AxError,
>)
    ensures
        r is Ok <==> captured && cropped && saved,
        r matches Err(e) ==> (e matches AxError::ScreenshotFailed(m) && m@ == if !captured {
            "capture failed"@
        } else if !cropped {
            "crop failed"@
        } else {
            "failed to save "@ + path@
        }),
{
    if !captured {
        Err(AxError::ScreenshotFailed("capture failed".to_owned()))
    } else if !cropped {
        Err(AxError::ScreenshotFailed("crop failed".to_owned()))
    } else if !saved {
        Err(AxError::ScreenshotFailed(append2("failed to save ", path)))
    } else {
        Ok(())
    }
}

/// Where a screenshot is saved: at the path that was given, or else under a name
/// with the time, in seconds.
pub fn screenshot_path(output: &Option<String>, seconds: u64) -> (r: String)
    ensures
        r@ == match *output {
            Some(p) => p@,
            None => "/tmp/ax_screenshot_"@ + decimal(seconds as nat) + ".png"@,
        },
{
    match output {
        Some(p) => p.clone(),
        None => {
            let mut out = "/tmp/ax_screenshot_".to_owned();
            push_decimal(&mut out, seconds);
            out.append(".png");
            out
        },
    }
}

// ---------------------------------------------------------------------------
// Laws
// ---------------------------------------------------------------------------

/// How the image of a window is taken: without an element, by the frame of the
/// window and then by the process; for an element, by the frame of a window that
/// has a size, or else by the process.
pub proof fn lemma_capture_order<'a>(shot: Shot<'a>, w: AXNode<'a>, n: AXNode<'a>)
    ensures
        shot.element is None && shot.window == Some(w) ==> capture_order(shot) == seq![
            Some(w),
            None,
        ],
        shot.window is None ==> capture_order(shot) == seq![None::<AXNode<'a>>],
        shot.element is Some && shot.window == Some(w) && attr(w.nodes(), w.index(), "AXSize"@)
            == Some(AttrValue::Size { width_positive: true, height_positive: true })
            ==> capture_order(shot) == seq![Some(w)],
        shot.element is Some && shot.window == Some(w) && attr(w.nodes(), w.index(), "AXSize"@)
            != Some(AttrValue::Size { width_positive: true, height_positive: true })
            ==> capture_order(shot) == seq![None::<AXNode<'a>>],
        shot.element == Some(n) ==> fallback_view(shot) == Some(n),
        shot.element is None ==> fallback_view(shot) == shot.window,
        to_front() == seq![Deed::Activate, Deed::Pause(100)],
{
}

/// What the ways to take an image, and the parts of the screen, go by.
pub proof fn lemma_shot_views<'a>(n: AXNode<'a>)
    ensures
        capture_view(Capture::Frame(n)) == Some(n),
        capture_view(Capture::Process) is None,
        region_view(Region::Of(n)) == Some(n),
        region_view(Region::Screen) is None,
{
}

} // verus!

//! The steps that the commands take on an element.

use vstd::prelude::*;
use crate::commands::{ClickPlan, ScrollPlan};

verus! {

/// A step that a command takes on an element or on its application.
#[derive(Debug)]
pub enum InputStep {
    /// Bring the application to the front.
    Activate,
    /// Give the element the focus.
    Focus,
    /// Move the cursor to the center of the element.
    MoveToCenter,
    /// Click at the center of the element.
    ClickCenter,
    /// Press the element through the accessibility interface.
    PressElement,
    /// Post a click at the center of the element to the process.
    ClickInBackground,
    /// Post a double click at the center of the element to the process.
    DoubleClickInBackground,
    /// Scroll the element into view, through the accessibility interface.
    ScrollIntoView,
    /// Scroll at the center of the element, so far to the left and up.
    Scroll { dx: i32, dy: i32 },
    /// Post scrolling at the center of the element to the process, for a window.
    ScrollInBackground { window: u32, dx: i32, dy: i32 },
    /// Press a combination of keys.
    Keys(String),
    /// Post a combination of keys to the process.
    KeysInBackground(String),
    /// Type a text.
    Type(String),
    /// Wait so many milliseconds.
    Pause(u64),
}

/// What a step does.
pub ghost enum Deed {
    Activate,
    Focus,
    MoveToCenter,
    ClickCenter,
    PressElement,
    ClickInBackground,
    DoubleClickInBackground,
    ScrollIntoView,
    Scroll(int, int),
    ScrollInBackground(u32, int, int),
    Keys(Seq<char>),
    KeysInBackground(Seq<char>),
    Type(Seq<char>),
    Pause(nat),
}

impl View for InputStep {
    type V = Deed;

    open spec fn view(&self) -> Deed {
        match self {
            InputStep::Activate => Deed::Activate,
            InputStep::Focus => Deed::Focus,
            InputStep::MoveToCenter => Deed::MoveToCenter,
            InputStep::ClickCenter => Deed::ClickCenter,
            InputStep::PressElement => Deed::PressElement,
            InputStep::ClickInBackground => Deed::ClickInBackground,
            InputStep::DoubleClickInBackground => Deed::DoubleClickInBackground,
            InputStep::ScrollIntoView => Deed::ScrollIntoView,
            InputStep::Scroll { dx, dy } => Deed::Scroll(*dx as int, *dy as int),
            InputStep::ScrollInBackground { window, dx, dy } => Deed::ScrollInBackground(
                *window,
                *dx as int,
                *dy as int,
            ),
            InputStep::Keys(k) => Deed::Keys(k@),
            InputStep::KeysInBackground(k) => Deed::KeysInBackground(k@),
            InputStep::Type(t) => Deed::Type(t@),
            InputStep::Pause(ms) => Deed::Pause(*ms as nat),
        }
    }
}

/// What the steps do, one after the other.
pub open spec fn deeds(steps: Seq<InputStep>) -> Seq<Deed> {
    Seq::new(steps.len(), |i: int| steps[i]@)
}

/// The step, where `wanted` holds.
pub open spec fn only_if(wanted: bool, deed: Seq<Deed>) -> Seq<Deed> {
    if wanted {
        deed
    } else {
        Seq::empty()
    }
}

/// The steps that type a text into an element, after what it holds.
pub fn input_steps(text: &str) -> (r: Vec<InputStep>)
    ensures
        deeds(r@) == seq![Deed::Activate, Deed::Focus, Deed::Type(text@)],
{
    let mut r: Vec<InputStep> = Vec::new();
    r.push(InputStep::Activate);
    r.push(InputStep::Focus);
    r.push(InputStep::Type(text.to_owned()));
    assert(deeds(r@) =~= seq![Deed::Activate, Deed::Focus, Deed::Type(text@)]);
    r
}

/// The steps that type a text into an element, in place of what it holds: all is
/// selected and deleted before.
pub fn fill_steps(text: &str) -> (r: Vec<InputStep>)
    ensures
        deeds(r@) == seq![
            Deed::Activate,
            Deed::Focus,
            Deed::Keys("Command+a"@),
            Deed::Pause(50),
            Deed::Keys("Delete"@),
            Deed::Pause(100),
            Deed::Type(text@),
        ],
{
    let mut r: Vec<InputStep> = Vec::new();
    r.push(InputStep::Activate);
    r.push(InputStep::Focus);
    r.push(InputStep::Keys("Command+a".to_owned()));
    r.push(InputStep::Pause(50));
    r.push(InputStep::Keys("Delete".to_owned()));
    r.push(InputStep::Pause(100));
    r.push(InputStep::Type(text.to_owned()));
    assert(deeds(r@) =~= seq![
        Deed::Activate,
        Deed::Focus,
        Deed::Keys("Command+a"@),
        Deed::Pause(50),
        Deed::Keys("Delete"@),
        Deed::Pause(100),
        Deed::Type(text@),
    ]);
    r
}

/// The steps that give an element the focus.
pub fn focus_steps() -> (r: Vec<InputStep>)
    ensures
        deeds(r@) == seq![Deed::Activate, Deed::Focus],
{
    let mut r: Vec<InputStep> = Vec::new();
    r.push(InputStep::Activate);
    r.push(InputStep::Focus);
    assert(deeds(r@) =~= seq![Deed::Activate, Deed::Focus]);
    r
}

/// The steps that move the cursor over an element. The application stays where it
/// is.
pub fn hover_steps() -> (r: Vec<InputStep>)
    ensures
        deeds(r@) == seq![Deed::MoveToCenter],
{
    let mut r: Vec<InputStep> = Vec::new();
    r.push(InputStep::MoveToCenter);
    assert(deeds(r@) =~= seq![Deed::MoveToCenter]);
    r
}

/// The steps of a double click, which goes to the process in the background.
pub fn dblclick_steps() -> (r: Vec<InputStep>)
    ensures
        deeds(r@) == seq![Deed::DoubleClickInBackground],
{
    let mut r: Vec<InputStep> = Vec::new();
    r.push(InputStep::DoubleClickInBackground);
    assert(deeds(r@) =~= seq![Deed::DoubleClickInBackground]);
    r
}

/// The steps that bring an element into view.
pub fn scroll_to_steps() -> (r: Vec<InputStep>)
    ensures
        deeds(r@) == seq![Deed::Activate, Deed::ScrollIntoView],
{
    let mut r: Vec<InputStep> = Vec::new();
    r.push(InputStep::Activate);
    r.push(InputStep::ScrollIntoView);
    assert(deeds(r@) =~= seq![Deed::Activate, Deed::ScrollIntoView]);
    r
}

/// The steps after an attempt to give an element the focus: where it failed, the
/// element is clicked.
pub fn after_focus(focused: bool) -> (r: Vec<InputStep>)
    ensures
        deeds(r@) == only_if(
            !focused,
            seq![Deed::MoveToCenter, Deed::Pause(50), Deed::ClickCenter],
        ) + seq![Deed::Pause(200)],
{
    let mut r: Vec<InputStep> = Vec::new();
    if !focused {
        r.push(InputStep::MoveToCenter);
        r.push(InputStep::Pause(50));
        r.push(InputStep::ClickCenter);
    }
    r.push(InputStep::Pause(200));
    assert(deeds(r@) =~= only_if(
        !focused,
        seq![Deed::MoveToCenter, Deed::Pause(50), Deed::ClickCenter],
    ) + seq![Deed::Pause(200)]);
    r
}

/// How keys are delivered.
#[derive(Debug, Clone, Copy, PartialEq, Eq, Structural)]
pub enum PressStrategy {
    /// To whatever has the focus, after the application was activated.
    Hid,
    /// To the process, in the background.
    Pid,
}

/// The steps that press a combination of keys.
pub fn press_steps(key: &str, strategy: PressStrategy) -> (r: Vec<InputStep>)
    ensures
        deeds(r@) == match strategy {
            PressStrategy::Hid => seq![Deed::Activate, Deed::Keys(key@)],
            PressStrategy::Pid => seq![Deed::KeysInBackground(key@)],
        },
{
    let mut r: Vec<InputStep> = Vec::new();
    match strategy {
        PressStrategy::Hid => {
            r.push(InputStep::Activate);
            r.push(InputStep::Keys(key.to_owned()));
            assert(deeds(r@) =~= seq![Deed::Activate, Deed::Keys(key@)]);
        },
        PressStrategy::Pid => {
            r.push(InputStep::KeysInBackground(key.to_owned()));
            assert(deeds(r@) =~= seq![Deed::KeysInBackground(key@)]);
        },
    }
    r
}

/// What a click with the plan does.
pub open spec fn click_deeds(plan: ClickPlan) -> Seq<Deed> {
    match plan {
        ClickPlan::Press { .. } => seq![Deed::PressElement],
        ClickPlan::Background { .. } => seq![Deed::ClickInBackground],
        ClickPlan::MenuExtra => seq![Deed::ClickCenter],
        ClickPlan::MenuPress { activate } => only_if(activate, seq![Deed::Activate]) + seq![
            Deed::PressElement,
        ],
        ClickPlan::Point { activate } => only_if(activate, seq![Deed::Activate]) + seq![
            Deed::ClickCenter,
        ],
    }
}

/// The steps of a click. With `hover`, the cursor goes to the element first,
/// whatever the plan.
pub fn click_steps(plan: ClickPlan, hover: bool) -> (r: Vec<InputStep>)
    ensures
        deeds(r@) == only_if(hover, seq![Deed::MoveToCenter, Deed::Pause(50)]) + click_deeds(plan),
{
    let mut r: Vec<InputStep> = Vec::new();
    if hover {
        r.push(InputStep::MoveToCenter);
        r.push(InputStep::Pause(50));
    }
    match plan {
        ClickPlan::Press { .. } => {
            r.push(InputStep::PressElement);
        },
        ClickPlan::Background { .. } => {
            r.push(InputStep::ClickInBackground);
        },
        ClickPlan::MenuExtra => {
            r.push(InputStep::ClickCenter);
        },
        ClickPlan::MenuPress { activate } => {
            if activate {
                r.push(InputStep::Activate);
            }
            r.push(InputStep::PressElement);
        },
        ClickPlan::Point { activate } => {
            if activate {
                r.push(InputStep::Activate);
            }
            r.push(InputStep::ClickCenter);
        },
    }
    assert(deeds(r@) =~= only_if(hover, seq![Deed::MoveToCenter, Deed::Pause(50)]) + click_deeds(
        plan,
    ));
    r
}

/// What scrolling with the plan does.
pub open spec fn scroll_deeds(plan: ScrollPlan, dx: int, dy: int) -> Seq<Deed> {
    match plan {
        ScrollPlan::Background { window } => seq![Deed::ScrollInBackground(window, dx, dy)],
        ScrollPlan::Point { activate } => only_if(
            activate,
            seq![Deed::Activate, Deed::Pause(200)],
        ) + seq![Deed::MoveToCenter, Deed::Pause(50), Deed::Scroll(dx, dy)],
    }
}

/// The steps of scrolling, so far to the left and up.
pub fn scroll_steps(plan: ScrollPlan, dx: i32, dy: i32) -> (r: Vec<InputStep>)
    ensures
        deeds(r@) == scroll_deeds(plan, dx as int, dy as int),
{
    let mut r: Vec<InputStep> = Vec::new();
    match plan {
        ScrollPlan::Background { window } => {
            r.push(InputStep::ScrollInBackground { window, dx, dy });
        },
        ScrollPlan::Point { activate } => {
            if activate {
                r.push(InputStep::Activate);
                r.push(InputStep::Pause(200));
            }
            r.push(InputStep::MoveToCenter);
            r.push(InputStep::Pause(50));
            r.push(InputStep::Scroll { dx, dy });
        },
    }
    assert(deeds(r@) =~= scroll_deeds(plan, dx as int, dy as int));
    r
}

// ---------------------------------------------------------------------------
// Laws
// ---------------------------------------------------------------------------

/// What a click does last: it presses the element, posts a click to the process, or
/// clicks at the center; and it brings the application to the front only for a plan
/// that says so.
pub proof fn lemma_click_deeds(activate: bool, warn: bool)
    ensures
        click_deeds(ClickPlan::Press { warn }) == seq![Deed::PressElement],
        click_deeds(ClickPlan::Background { warn }) == seq![Deed::ClickInBackground],
        click_deeds(ClickPlan::MenuExtra) == seq![Deed::ClickCenter],
        click_deeds(ClickPlan::MenuPress { activate: false }) == seq![Deed::PressElement],
        click_deeds(ClickPlan::MenuPress { activate: true }) == seq![
            Deed::Activate,
            Deed::PressElement,
        ],
        click_deeds(ClickPlan::Point { activate: false }) == seq![Deed::ClickCenter],
        click_deeds(ClickPlan::Point { activate: true }) == seq![Deed::Activate, Deed::ClickCenter],
{
    assert(click_deeds(ClickPlan::MenuPress { activate: false }) =~= seq![Deed::PressElement]);
    assert(click_deeds(ClickPlan::MenuPress { activate: true }) =~= seq![
        Deed::Activate,
        Deed::PressElement,
    ]);
    assert(click_deeds(ClickPlan::Point { activate: false }) =~= seq![Deed::ClickCenter]);
    assert(click_deeds(ClickPlan::Point { activate: true }) =~= seq![
        Deed::Activate,
        Deed::ClickCenter,
    ]);
}

/// Scrolling in the background moves nothing on the screen; at a point the cursor
/// goes there first, and the application to the front before that where the plan
/// says so.
pub proof fn lemma_scroll_deeds(window: u32, dx: int, dy: int)
    ensures
        scroll_deeds(ScrollPlan::Background { window }, dx, dy) == seq![
            Deed::ScrollInBackground(window, dx, dy),
        ],
        scroll_deeds(ScrollPlan::Point { activate: false }, dx, dy) == seq![
            Deed::MoveToCenter,
            Deed::Pause(50),
            Deed::Scroll(dx, dy),
        ],
        scroll_deeds(ScrollPlan::Point { activate: true }, dx, dy) == seq![
            Deed::Activate,
            Deed::Pause(200),
            Deed::MoveToCenter,
            Deed::Pause(50),
            Deed::Scroll(dx, dy),
        ],
{
    assert(scroll_deeds(ScrollPlan::Point { activate: false }, dx, dy) =~= seq![
        Deed::MoveToCenter,
        Deed::Pause(50),
        Deed::Scroll(dx, dy),
    ]);
    assert(scroll_deeds(ScrollPlan::Point { activate: true }, dx, dy) =~= seq![
        Deed::Activate,
        Deed::Pause(200),
        Deed::MoveToCenter,
        Deed::Pause(50),
        Deed::Scroll(dx, dy),
    ]);
}

/// A step is taken where it is wanted, and only there.
pub proof fn lemma_only_if(deed: Seq<Deed>)
    ensures
        only_if(true, deed) == deed,
        only_if(false, deed) == Seq::<Deed>::empty(),
{
}

/// What the steps do.
pub proof fn lemma_step_deeds(s: String, window: u32, dx: i32, dy: i32, ms: u64)
    ensures
        InputStep::Activate@ == Deed::Activate && InputStep::Focus@ == Deed::Focus,
        InputStep::MoveToCenter@ == Deed::MoveToCenter,
        InputStep::ClickCenter@ == Deed::ClickCenter,
        InputStep::PressElement@ == Deed::PressElement,
        InputStep::ClickInBackground@ == Deed::ClickInBackground,
        InputStep::DoubleClickInBackground@ == Deed::DoubleClickInBackground,
        InputStep::ScrollIntoView@ == Deed::ScrollIntoView,
        (InputStep::Scroll { dx, dy })@ == Deed::Scroll(dx as int, dy as int),
        (InputStep::ScrollInBackground { window, dx, dy })@ == Deed::ScrollInBackground(
            window,
            dx as int,
            dy as int,
        ),
        InputStep::Keys(s)@ == Deed::Keys(s@),
        InputStep::KeysInBackground(s)@ == Deed::KeysInBackground(s@),
        InputStep::Type(s)@ == Deed::Type(s@),
        InputStep::Pause(ms)@ == Deed::Pause(ms as nat),
{
}

} // verus!

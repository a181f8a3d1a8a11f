//! Which way input takes to its target, and how a takeover activates the target
//! and gives the desktop back.

use vstd::prelude::*;

use crate::desktop::keys::DeliveryMode;
use crate::strings::{number, parse};
use crate::unicode::chars_of;

verus! {

/// The number of a window.
pub fn parse_window(id: &str) -> (window: Option<u32>)
    ensures
        match window {
            Some(w) => number(id@, 10, u32::MAX as int) == Some(w as int),
            None => number(id@, 10, u32::MAX as int) is None,
        },
{
    let chars = chars_of(id);
    match parse(chars.as_slice(), 10, u32::MAX as u64) {
        Some(w) => Some(w as u32),
        None => None,
    }
}

/// Why input is not sent in the background.
#[derive(Clone, Copy, Debug, PartialEq, Eq, Structural)]
pub enum Refusal {
    /// The toolkit needs core events and drops synthetic ones.
    NeedsCore,
    /// The toolkit drops synthetic events and the virtual pair is not available.
    DropsSynthetic,
    /// A popup may hold a grab.
    Popup(u32),
}

/// The way that input takes.
#[derive(Clone, Copy, Debug, PartialEq, Eq, Structural)]
pub enum Route {
    /// The user's own pointer and keyboard.
    Desktop,
    /// The same, after the target was activated.
    Takeover,
    /// Synthetic events to the window.
    SendEvent,
    /// The virtual pair.
    VirtualPair,
    Refuse(Refusal),
}

/// How a window takes input, and whether the virtual pair can be used.
#[derive(Clone, Copy, Debug, PartialEq, Eq, Structural)]
pub struct Reach {
    pub needs_core: bool,
    pub drops_synthetic: bool,
    pub pair: bool,
}

/// The way to a window in the background.
pub open spec fn background(reach: Reach) -> Route {
    if reach.needs_core {
        if reach.drops_synthetic {
            Route::Refuse(Refusal::NeedsCore)
        } else {
            Route::SendEvent
        }
    } else if reach.pair {
        Route::VirtualPair
    } else if reach.drops_synthetic {
        Route::Refuse(Refusal::DropsSynthetic)
    } else {
        Route::SendEvent
    }
}

/// The way that a pointer gesture takes; without a window the target is the
/// desktop.
pub open spec fn pointer_way(window: Option<u32>, mode: DeliveryMode, reach: Reach) -> Route {
    if window is None {
        Route::Desktop
    } else {
        match mode {
            DeliveryMode::Foreground => Route::Takeover,
            DeliveryMode::Background => background(reach),
        }
    }
}

/// The way that keys take: a popup that may hold a grab keeps the virtual keyboard
/// out.
pub open spec fn key_way(window: Option<u32>, mode: DeliveryMode, reach: Reach, popup: Option<u32>) -> Route {
    match (pointer_way(window, mode, reach), popup) {
        (Route::VirtualPair, Some(p)) => Route::Refuse(Refusal::Popup(p)),
        (way, _) => way,
    }
}

/// The way that a pointer gesture takes.
pub fn pointer_route(window: Option<u32>, mode: DeliveryMode, reach: Reach) -> (route: Route)
    ensures
        route == pointer_way(window, mode, reach),
{
    if window.is_none() {
        return Route::Desktop;
    }
    match mode {
        DeliveryMode::Foreground => Route::Takeover,
        DeliveryMode::Background => if reach.needs_core {
            if reach.drops_synthetic {
                Route::Refuse(Refusal::NeedsCore)
            } else {
                Route::SendEvent
            }
        } else if reach.pair {
            Route::VirtualPair
        } else if reach.drops_synthetic {
            Route::Refuse(Refusal::DropsSynthetic)
        } else {
            Route::SendEvent
        },
    }
}

/// The way that keys take.
pub fn key_route(window: Option<u32>, mode: DeliveryMode, reach: Reach, popup: Option<u32>) -> (route:
    Route)
    ensures
        route == key_way(window, mode, reach, popup),
{
    let route = pointer_route(window, mode, reach);
    match route {
        Route::VirtualPair => match popup {
            Some(p) => Route::Refuse(Refusal::Popup(p)),
            None => Route::VirtualPair,
        },
        other => other,
    }
}

/// Nothing is sent to a client that would drop it: synthetic events go only to
/// clients that take them, and the virtual pair only to clients that see it.
pub proof fn law_input_is_never_dropped_silently(
    window: Option<u32>,
    mode: DeliveryMode,
    reach: Reach,
    popup: Option<u32>,
)
    ensures
        key_way(window, mode, reach, popup) == Route::SendEvent ==> !reach.drops_synthetic,
        key_way(window, mode, reach, popup) == Route::VirtualPair ==> !reach.needs_core && reach.pair,
        mode == DeliveryMode::Background && window is Some ==> key_way(window, mode, reach, popup)
            != Route::Desktop && key_way(window, mode, reach, popup) != Route::Takeover,
{
}

/// The virtual pair over a session: it is created on first use, and a failure to
/// create it is final.
#[derive(Clone, Copy, Debug, PartialEq, Eq, Structural)]
pub enum Pair {
    Untried,
    Open,
    Unavailable,
}

impl Pair {
    /// Whether the pair has to be created now.
    pub fn must_create(&self) -> (r: bool)
        ensures
            r == (*self == Pair::Untried),
    {
        match self {
            Pair::Untried => true,
            _ => false,
        }
    }

    /// Notes what came of creating the pair.
    pub fn created(&mut self, succeeded: bool)
        ensures
            *final(self) == (if *old(self) != Pair::Untried {
                *old(self)
            } else if succeeded {
                Pair::Open
            } else {
                Pair::Unavailable
            }),
    {
        match *self {
            Pair::Untried => {
                if succeeded {
                    *self = Pair::Open;
                } else {
                    *self = Pair::Unavailable;
                }
            },
            _ => {},
        }
    }
}

// ---------------------------------------------------------------------------
// Takeovers
// ---------------------------------------------------------------------------
/// Activation of a target, as far as it has come.
#[derive(Clone, Copy, Debug, PartialEq, Eq, Structural)]
pub struct Activation {
    /// The time it may take, in milliseconds.
    pub budget: u64,
    pub retried: bool,
}

/// What to do next about an activation.
#[derive(Clone, Copy, Debug, PartialEq, Eq, Structural)]
pub enum Poll {
    /// The target is active and focused.
    Confirmed,
    /// It never became so; nothing was sent.
    GiveUp,
    /// Ask the window manager once more.
    AskAgain,
    /// Look again a little later.
    Wait,
}

impl Activation {
    /// An activation that was just asked for.
    pub fn new(budget: u64) -> (a: Self)
        ensures
            a == (Activation { budget, retried: false }),
    {
        Activation { budget, retried: false }
    }

    /// What to do after so many milliseconds.
    pub open spec fn next(&self, focused: bool, elapsed: u64) -> Poll {
        if focused {
            Poll::Confirmed
        } else if elapsed >= self.budget {
            Poll::GiveUp
        } else if !self.retried && 5 * elapsed >= 2 * self.budget {
            Poll::AskAgain
        } else {
            Poll::Wait
        }
    }

    /// Decides what to do after so many milliseconds. The request is repeated
    /// once, after two fifths of the time.
    pub fn poll(&mut self, focused: bool, elapsed: u64) -> (p: Poll)
        ensures
            p == old(self).next(focused, elapsed),
            *final(self) == (Activation {
                budget: old(self).budget,
                retried: old(self).retried || p == Poll::AskAgain,
            }),
    {
        if focused {
            return Poll::Confirmed;
        }
        if elapsed >= self.budget {
            return Poll::GiveUp;
        }
        if !self.retried && 5 * (elapsed as u128) >= 2 * (self.budget as u128) {
            self.retried = true;
            return Poll::AskAgain;
        }
        Poll::Wait
    }
}

/// What gives the desktop back after a takeover.
#[derive(Clone, Copy, Debug, PartialEq, Eq, Structural)]
pub enum Restore {
    Nothing,
    /// Activate this window again.
    Activate(u32),
    /// Give the keyboard focus back to this window.
    Focus(u32),
}

/// The state of the desktop when a takeover ends.
#[derive(Clone, Copy, Debug, PartialEq, Eq, Structural)]
pub struct AfterTakeover {
    pub window: u32,
    /// The window manager tracks the active window.
    pub ewmh: bool,
    pub previous_active: Option<u32>,
    pub previous_focus: Option<u32>,
    pub active: Option<u32>,
    /// The focus lies within the target.
    pub focus_within: bool,
}

/// What gives the desktop back. A switch to a third window is the user's and is
/// left alone.
pub open spec fn restoring(a: AfterTakeover) -> Restore {
    if a.ewmh {
        match a.previous_active {
            Some(previous) => if previous != a.window && a.active == Some(a.window)
                && a.focus_within {
                Restore::Activate(previous)
            } else {
                Restore::Nothing
            },
            None => Restore::Nothing,
        }
    } else {
        match a.previous_focus {
            Some(focus) => if focus > 1 && a.focus_within {
                Restore::Focus(focus)
            } else {
                Restore::Nothing
            },
            None => Restore::Nothing,
        }
    }
}

/// What gives the desktop back after a takeover.
pub fn restore_activation(a: AfterTakeover) -> (r: Restore)
    ensures
        r == restoring(a),
{
    if a.ewmh {
        match a.previous_active {
            Some(previous) => {
                let ours = match a.active {
                    Some(w) => w == a.window,
                    None => false,
                };
                if previous != a.window && ours && a.focus_within {
                    Restore::Activate(previous)
                } else {
                    Restore::Nothing
                }
            },
            None => Restore::Nothing,
        }
    } else {
        match a.previous_focus {
            Some(focus) => if focus > 1 && a.focus_within {
                Restore::Focus(focus)
            } else {
                Restore::Nothing
            },
            None => Restore::Nothing,
        }
    }
}

/// A takeover never touches the focus once it has left the target.
pub proof fn law_user_switches_are_left_alone(a: AfterTakeover)
    requires
        !a.focus_within || (a.ewmh && a.active != Some(a.window)),
    ensures
        restoring(a) == Restore::Nothing,
{
}

/// Where the pointer goes back to: only where the takeover moved it and the user
/// has not moved it since.
pub fn restore_pointer(
    before: Option<(i16, i16)>,
    moved_to: Option<(i16, i16)>,
    now: Option<(i16, i16)>,
) -> (r: Option<(i16, i16)>)
    ensures
        r == (if before is Some && moved_to is Some && now == moved_to && now != before {
            before
        } else {
            None
        }),
{
    match (before, moved_to, now) {
        (Some(b), Some(m), Some(n)) => if n.0 == m.0 && n.1 == m.1 && !(n.0 == b.0 && n.1 == b.1) {
            Some(b)
        } else {
            None
        },
        _ => None,
    }
}

} // verus!

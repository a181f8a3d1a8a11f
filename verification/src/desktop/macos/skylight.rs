//! Focus that is borrowed and given back: what a background action may restore,
//! when a takeover is confirmed, and the records that move the key window.

use vstd::prelude::*;

verus! {

/// The number of a process in the window server.
#[derive(Clone, Copy, Debug, PartialEq, Eq, Structural)]
pub struct ProcessSerialNumber {
    pub high: u32,
    pub low: u32,
}

/// Counts of the events by which a user changes windows.
#[derive(Clone, Copy, Debug, PartialEq, Eq, Structural)]
pub struct Activity {
    pub left_press: u32,
    pub right_press: u32,
    pub other_press: u32,
    pub key_press: u32,
    pub modifiers: u32,
}

/// What to do about the focus during a background action.
#[derive(Clone, Copy, Debug, PartialEq, Eq, Structural)]
pub enum FocusDecision {
    Observe,
    /// Send the target back behind the application that was in front.
    Restore,
    /// The user has chosen: leave the focus alone from now on.
    Disarm,
}

/// A claim on the focus during a background action.
#[derive(Clone, Copy, Debug, PartialEq, Eq, Structural)]
pub struct BackgroundFocusLease {
    pub previous: ProcessSerialNumber,
    pub target: ProcessSerialNumber,
    /// The key window of the application in front.
    pub key: u32,
    pub activity: Activity,
    pub disarmed: bool,
}

impl BackgroundFocusLease {
    /// The user has chosen: a third application is in front, the key window in
    /// front is another, or there was input since the target came to the front.
    pub open spec fn given_up(
        &self,
        front: ProcessSerialNumber,
        key: Option<u32>,
        activity: Activity,
    ) -> bool {
        ||| self.disarmed
        ||| front != self.previous && front != self.target
        ||| front == self.previous && (key matches Some(k) && k != self.key)
        ||| front == self.target && activity != self.activity
    }

    /// Looks at the focus once.
    pub fn observe(&mut self, front: ProcessSerialNumber, key: Option<u32>, activity: Activity) -> (d:
        FocusDecision)
        ensures
            d == (if old(self).given_up(front, key, activity) {
                FocusDecision::Disarm
            } else if front == old(self).target {
                FocusDecision::Restore
            } else {
                FocusDecision::Observe
            }),
            final(self).disarmed == old(self).given_up(front, key, activity),
            final(self).previous == old(self).previous,
            final(self).target == old(self).target,
            final(self).key == old(self).key,
            final(self).activity == (if d == FocusDecision::Observe {
                activity
            } else {
                old(self).activity
            }),
    {
        let other_key = match key {
            Some(k) => k != self.key,
            None => false,
        };
        if self.disarmed || (front != self.previous && front != self.target) || (front
            == self.previous && other_key) || (front == self.target && activity != self.activity) {
            self.disarmed = true;
            return FocusDecision::Disarm;
        }
        if front == self.target {
            FocusDecision::Restore
        } else {
            self.activity = activity;
            FocusDecision::Observe
        }
    }
}

/// Once the user has chosen, nothing brings the claim back.
pub proof fn law_disarmed_stays_disarmed(
    lease: BackgroundFocusLease,
    front: ProcessSerialNumber,
    key: Option<u32>,
    activity: Activity,
)
    requires
        lease.disarmed,
    ensures
        lease.given_up(front, key, activity),
{
}

/// Focus is taken back from the target only: never from a third application, and
/// never after input of the user's.
pub proof fn law_only_the_target_is_sent_back(
    lease: BackgroundFocusLease,
    front: ProcessSerialNumber,
    key: Option<u32>,
    activity: Activity,
)
    requires
        !lease.given_up(front, key, activity),
        front == lease.target,
    ensures
        activity == lease.activity,
        !lease.disarmed,
{
}

/// How a background action begins.
#[derive(Clone, Copy, Debug, PartialEq, Eq, Structural)]
pub enum GuardStart {
    /// The target is in front already.
    Plain,
    /// Watch the focus meanwhile.
    Guard(BackgroundFocusLease),
    /// The state of the focus cannot be told; nothing is sent.
    Refuse,
}

/// What is known when a background action begins.
#[derive(Clone, Copy, Debug, PartialEq, Eq, Structural)]
pub struct BeforeAction {
    pub front: Option<ProcessSerialNumber>,
    pub front_pid: Option<i32>,
    pub target: Option<ProcessSerialNumber>,
    /// The key window of the application in front.
    pub key: Option<u32>,
    pub activity: Activity,
}

/// How a background action on a process begins.
pub open spec fn guard_of(b: BeforeAction, pid: i32) -> GuardStart {
    match b.front {
        None => GuardStart::Refuse,
        Some(previous) => if b.front_pid == Some(pid) {
            GuardStart::Plain
        } else {
            match (b.target, b.front_pid, b.key) {
                (Some(target), Some(_), Some(key)) => GuardStart::Guard(
                    BackgroundFocusLease {
                        previous,
                        target,
                        key,
                        activity: b.activity,
                        disarmed: false,
                    },
                ),
                _ => GuardStart::Refuse,
            }
        },
    }
}

/// Decides how a background action on a process begins.
pub fn background_start(b: BeforeAction, pid: i32) -> (r: GuardStart)
    ensures
        r == guard_of(b, pid),
{
    match b.front {
        None => GuardStart::Refuse,
        Some(previous) => {
            let own = match b.front_pid {
                Some(p) => p == pid,
                None => false,
            };
            if own {
                return GuardStart::Plain;
            }
            match (b.target, b.front_pid, b.key) {
                (Some(target), Some(_), Some(key)) => GuardStart::Guard(
                    BackgroundFocusLease {
                        previous,
                        target,
                        key,
                        activity: b.activity,
                        disarmed: false,
                    },
                ),
                _ => GuardStart::Refuse,
            }
        },
    }
}

/// Whether to send the target back, looked at once more right before: it must
/// still be in front, and nothing may have been typed or clicked.
pub fn may_restore(lease: BackgroundFocusLease, front: Option<ProcessSerialNumber>, activity: Activity) -> (r:
    bool)
    ensures
        r == (front == Some(lease.target) && activity == lease.activity),
{
    match front {
        Some(f) => f == lease.target && activity == lease.activity,
        None => false,
    }
}

/// Whether a background action ends badly: the target came to the front again
/// after it was sent back.
pub fn reactivated(lease: BackgroundFocusLease, restored: bool, front: Option<ProcessSerialNumber>) -> (r:
    bool)
    ensures
        r == (restored && front == Some(lease.target)),
{
    match front {
        Some(f) => restored && f == lease.target,
        None => false,
    }
}

/// What an action and its cleanup come to together.
#[derive(Clone, Copy, Debug, PartialEq, Eq, Structural)]
pub enum Joined {
    /// The action succeeded, and so did the cleanup.
    Done,
    /// The action failed; the cleanup did not.
    ActionFailed,
    /// The input may have been delivered, but the cleanup failed.
    CleanupFailed,
    BothFailed,
}

/// Joins an action and its cleanup without hiding a failure of either.
pub fn after_cleanup(action: bool, cleanup: bool) -> (r: Joined)
    ensures
        r == (if action && cleanup {
            Joined::Done
        } else if cleanup {
            Joined::ActionFailed
        } else if action {
            Joined::CleanupFailed
        } else {
            Joined::BothFailed
        }),
{
    if cleanup {
        if action {
            Joined::Done
        } else {
            Joined::ActionFailed
        }
    } else if action {
        Joined::CleanupFailed
    } else {
        Joined::BothFailed
    }
}

// ---------------------------------------------------------------------------
// Focus without raising
// ---------------------------------------------------------------------------
/// How the key window is borrowed.
#[derive(Clone, Copy, Debug, PartialEq, Eq, Structural)]
pub enum Borrow {
    /// The target has it already.
    Nothing,
    /// Take it from this window first.
    From(u32),
    /// It cannot be told who has it.
    Refuse,
}

/// Decides how the key window of a target is borrowed, which must be known before
/// so that it can be given back.
pub fn borrow_key(
    front: Option<ProcessSerialNumber>,
    target: Option<ProcessSerialNumber>,
    key: Option<u32>,
    wid: u32,
) -> (r: Borrow)
    ensures
        r == (match (front, target, key) {
            (Some(f), Some(t), Some(k)) => if f == t && k == wid {
                Borrow::Nothing
            } else {
                Borrow::From(k)
            },
            _ => Borrow::Refuse,
        }),
{
    match (front, target, key) {
        (Some(f), Some(t), Some(k)) => if f == t && k == wid {
            Borrow::Nothing
        } else {
            Borrow::From(k)
        },
        _ => Borrow::Refuse,
    }
}

/// Whether the key window is given back: the application that lent it must still
/// be in front, with the window that lent it or the borrower as its key window.
pub fn give_back(
    front: ProcessSerialNumber,
    previous: ProcessSerialNumber,
    target: ProcessSerialNumber,
    key_now: Option<u32>,
    previous_key: u32,
    wid: u32,
) -> (r: bool)
    ensures
        r == (front == previous && !(key_now matches Some(k) && k != previous_key && !(previous
            == target && k == wid))),
{
    if front != previous {
        return false;
    }
    match key_now {
        Some(k) => k == previous_key || (previous == target && k == wid),
        None => true,
    }
}

// ---------------------------------------------------------------------------
// Takeovers
// ---------------------------------------------------------------------------
/// Whether the target already is the key window of the process in front.
pub fn preserves_exact_existing_focus(
    previous: Option<ProcessSerialNumber>,
    target: ProcessSerialNumber,
    focused: Option<u32>,
    wid: u32,
) -> (r: bool)
    ensures
        r == (previous == Some(target) && focused == Some(wid)),
{
    match (previous, focused) {
        (Some(p), Some(f)) => p == target && f == wid,
        _ => false,
    }
}

/// How a takeover begins.
#[derive(Clone, Copy, Debug, PartialEq, Eq, Structural)]
pub enum TakeoverStart {
    /// The target has the focus already.
    Already,
    /// Make it the key window, and this one of that process afterwards.
    Activate { previous_pid: i32, previous_key: u32 },
    /// It cannot be told what to restore; nothing is sent.
    Refuse,
}

/// Decides how a takeover of a window begins.
pub fn takeover_start(
    front: Option<ProcessSerialNumber>,
    front_pid: Option<i32>,
    front_key: Option<u32>,
    target: Option<ProcessSerialNumber>,
    focused: Option<u32>,
    wid: u32,
) -> (r: TakeoverStart)
    ensures
        r == (match (front, target) {
            (Some(f), Some(t)) => if f == t && focused == Some(wid) {
                TakeoverStart::Already
            } else {
                match (front_pid, front_key) {
                    (Some(previous_pid), Some(previous_key)) => TakeoverStart::Activate {
                        previous_pid,
                        previous_key,
                    },
                    _ => TakeoverStart::Refuse,
                }
            },
            _ => TakeoverStart::Refuse,
        }),
{
    match (front, target) {
        (Some(f), Some(t)) => {
            if preserves_exact_existing_focus(Some(f), t, focused, wid) {
                return TakeoverStart::Already;
            }
            match (front_pid, front_key) {
                (Some(previous_pid), Some(previous_key)) => TakeoverStart::Activate {
                    previous_pid,
                    previous_key,
                },
                _ => TakeoverStart::Refuse,
            }
        },
        _ => TakeoverStart::Refuse,
    }
}

/// A takeover gives the focus back: the target is in front, and its key window is
/// the taken one, or, where the takeover failed, the one it had before.
pub open spec fn takes_back(
    front: ProcessSerialNumber,
    target: ProcessSerialNumber,
    key_now: Option<u32>,
    key_before: Option<u32>,
    wid: u32,
    failed: bool,
) -> bool {
    front == target && !(key_now matches Some(k) && k != wid && (!failed || key_now != key_before))
}

/// Whether a takeover gives the focus back.
pub fn takeover_restores(
    front: ProcessSerialNumber,
    target: ProcessSerialNumber,
    key_now: Option<u32>,
    key_before: Option<u32>,
    wid: u32,
    failed: bool,
) -> (r: bool)
    ensures
        r == takes_back(front, target, key_now, key_before, wid, failed),
{
    if front != target {
        return false;
    }
    match key_now {
        None => true,
        Some(k) => {
            let as_before = match key_before {
                Some(b) => b == k,
                None => false,
            };
            k == wid || (failed && as_before)
        },
    }
}

/// A user's switch during a takeover is never undone: neither to another
/// application nor, after the takeover succeeded, to another window.
pub proof fn law_user_switches_are_left_alone(
    front: ProcessSerialNumber,
    target: ProcessSerialNumber,
    key_now: Option<u32>,
    key_before: Option<u32>,
    wid: u32,
)
    requires
        front != target || (key_now matches Some(k) && k != wid),
    ensures
        !takes_back(front, target, key_now, key_before, wid, false),
{
}

/// What to do while waiting for a window to get the focus.
#[derive(Clone, Copy, Debug, PartialEq, Eq, Structural)]
pub enum Await {
    Confirmed,
    Wait,
    GiveUp,
}

/// Whether a window has got the focus; a process in front is no proof of its key
/// window.
pub fn await_focused(focused: Option<u32>, wid: u32, target_front: bool, expired: bool) -> (r: Await)
    ensures
        r == (if focused == Some(wid) && target_front {
            Await::Confirmed
        } else if expired {
            Await::GiveUp
        } else {
            Await::Wait
        }),
{
    let own = match focused {
        Some(w) => w == wid,
        None => false,
    };
    if own && target_front {
        Await::Confirmed
    } else if expired {
        Await::GiveUp
    } else {
        Await::Wait
    }
}

/// Whether a window is the key window of the process in front.
pub fn is_front_window(front_pid: Option<i32>, pid: i32, focused: Option<u32>, wid: u32) -> (r: bool)
    ensures
        r == (front_pid == Some(pid) && focused == Some(wid)),
{
    match (front_pid, focused) {
        (Some(p), Some(w)) => p == pid && w == wid,
        _ => false,
    }
}

/// The calls that can find the number of a process.
#[derive(Clone, Copy, Debug, PartialEq, Eq, Structural)]
pub struct PsnLookup {
    pub main_connection: bool,
    pub window_owner: bool,
    pub connection_psn: bool,
    pub process_for_pid: bool,
}

impl PsnLookup {
    /// Whether the number of a process can be found: through its window, or by its
    /// process number.
    pub fn can_resolve(&self) -> (r: bool)
        ensures
            r == ((self.main_connection && self.window_owner && self.connection_psn)
                || self.process_for_pid),
    {
        (self.main_connection && self.window_owner && self.connection_psn) || self.process_for_pid
    }
}

// ---------------------------------------------------------------------------
// Records
// ---------------------------------------------------------------------------
/// The size of a record.
pub const EVENT_RECORD_LENGTH: usize = 248;

/// The mark of a record that gives a window the focus.
pub const FOCUS_MARKER: u8 = 1;

/// The mark of a record that takes it.
pub const DEFOCUS_MARKER: u8 = 2;

/// A byte of a window's number, the lowest first.
pub open spec fn window_byte(wid: u32, i: int) -> u8 {
    if i == 0 {
        (wid % 0x100) as u8
    } else if i == 1 {
        ((wid / 0x100) % 0x100) as u8
    } else if i == 2 {
        ((wid / 0x1_0000) % 0x100) as u8
    } else {
        (wid / 0x100_0000) as u8
    }
}

/// A record that gives a window the focus, or takes it.
pub open spec fn focus_bytes(wid: u32, marker: u8) -> Seq<u8> {
    Seq::new(
        EVENT_RECORD_LENGTH as nat,
        |i: int|
            if i == 0x04 {
                0xf8u8
            } else if i == 0x08 {
                0x0du8
            } else if 0x3c <= i < 0x40 {
                window_byte(wid, i - 0x3c)
            } else if i == 0x8a {
                marker
            } else {
                0u8
            },
    )
}

/// One of the two records that make a window the key window.
pub open spec fn key_bytes(wid: u32, kind: u8) -> Seq<u8> {
    Seq::new(
        EVENT_RECORD_LENGTH as nat,
        |i: int|
            if i == 0x04 {
                0xf8u8
            } else if i == 0x08 {
                kind
            } else if 0x20 <= i < 0x30 {
                0xffu8
            } else if i == 0x3a {
                0x10u8
            } else if 0x3c <= i < 0x40 {
                window_byte(wid, i - 0x3c)
            } else {
                0u8
            },
    )
}

fn byte_of(wid: u32, i: usize) -> (b: u8)
    requires
        i < 4,
    ensures
        b == window_byte(wid, i as int),
{
    if i == 0 {
        (wid % 0x100) as u8
    } else if i == 1 {
        ((wid / 0x100) % 0x100) as u8
    } else if i == 2 {
        ((wid / 0x1_0000) % 0x100) as u8
    } else {
        (wid / 0x100_0000) as u8
    }
}

/// A record that gives a window the focus, or takes it.
pub fn focus_record(wid: u32, marker: u8) -> (record: Vec<u8>)
    ensures
        record@ == focus_bytes(wid, marker),
{
    let mut record: Vec<u8> = Vec::new();
    let mut i: usize = 0;
    while i < EVENT_RECORD_LENGTH
        invariant
            i <= EVENT_RECORD_LENGTH,
            record@ == focus_bytes(wid, marker).take(i as int),
        decreases EVENT_RECORD_LENGTH - i,
    {
        let b: u8 = if i == 0x04 {
            0xf8
        } else if i == 0x08 {
            0x0d
        } else if 0x3c <= i && i < 0x40 {
            byte_of(wid, i - 0x3c)
        } else if i == 0x8a {
            marker
        } else {
            0
        };
        record.push(b);
        assert(record@ =~= focus_bytes(wid, marker).take(i + 1));
        i = i + 1;
    }
    assert(focus_bytes(wid, marker).take(i as int) =~= focus_bytes(wid, marker));
    record
}

/// One of the two records that make a window the key window.
pub fn make_key_record(wid: u32, kind: u8) -> (record: Vec<u8>)
    ensures
        record@ == key_bytes(wid, kind),
{
    let mut record: Vec<u8> = Vec::new();
    let mut i: usize = 0;
    while i < EVENT_RECORD_LENGTH
        invariant
            i <= EVENT_RECORD_LENGTH,
            record@ == key_bytes(wid, kind).take(i as int),
        decreases EVENT_RECORD_LENGTH - i,
    {
        let b: u8 = if i == 0x04 {
            0xf8
        } else if i == 0x08 {
            kind
        } else if 0x20 <= i && i < 0x30 {
            0xff
        } else if i == 0x3a {
            0x10
        } else if 0x3c <= i && i < 0x40 {
            byte_of(wid, i - 0x3c)
        } else {
            0
        };
        record.push(b);
        assert(record@ =~= key_bytes(wid, kind).take(i + 1));
        i = i + 1;
    }
    assert(key_bytes(wid, kind).take(i as int) =~= key_bytes(wid, kind));
    record
}

} // verus!

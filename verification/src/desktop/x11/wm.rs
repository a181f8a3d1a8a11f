//! What the window tree and the window manager say: which window holds which,
//! whether a point is the target's, and whether the focus moved.

use vstd::prelude::*;

verus! {

/// The window that is none.
pub const NONE: u32 = 0;

/// How far walks along the tree go.
pub const TREE_WALK_LIMIT: usize = 32;

/// `target` is met on the way up from the window `i` of a chain of ancestors,
/// before the root, the end of the chain or the limit.
pub open spec fn meets(chain: Seq<u32>, target: u32, root: u32, i: int) -> bool
    decreases chain.len() - i,
{
    if i < 0 || i >= chain.len() || i >= TREE_WALK_LIMIT {
        false
    } else if chain[i] == target {
        true
    } else if chain[i] == NONE || chain[i] == root {
        false
    } else {
        meets(chain, target, root, i + 1)
    }
}

/// Whether a window is the target or lies inside it; the chain holds the window
/// and its ancestors.
pub fn is_within(chain: &Vec<u32>, target: u32, root: u32) -> (r: bool)
    ensures
        r == meets(chain@, target, root, 0),
{
    let mut i: usize = 0;
    while i < chain.len() && i < TREE_WALK_LIMIT
        invariant
            i <= chain@.len(),
            meets(chain@, target, root, 0) == meets(chain@, target, root, i as int),
        decreases chain@.len() - i,
    {
        if chain[i] == target {
            return true;
        }
        if chain[i] == NONE || chain[i] == root {
            return false;
        }
        i = i + 1;
    }
    false
}

/// The window below the root on the way up from the window `i` of a chain.
pub open spec fn below_root(chain: Seq<u32>, root: u32, i: int) -> Option<u32>
    decreases chain.len() - i,
{
    if i < 0 || i + 1 >= chain.len() || i >= TREE_WALK_LIMIT {
        None
    } else if chain[i + 1] == root {
        Some(chain[i])
    } else {
        below_root(chain, root, i + 1)
    }
}

/// The child of the root that holds a window: its frame, or the window itself.
pub fn root_child_of(chain: &Vec<u32>, root: u32) -> (r: Option<u32>)
    ensures
        r == below_root(chain@, root, 0),
{
    let n: usize = chain.len();
    let mut i: usize = 0;
    while i < n && n - i > 1 && i < TREE_WALK_LIMIT
        invariant
            n == chain@.len(),
            i <= n,
            below_root(chain@, root, 0) == below_root(chain@, root, i as int),
        decreases n - i,
    {
        if chain[i + 1] == root {
            return Some(chain[i]);
        }
        i = i + 1;
    }
    None
}

/// The first process number on the way up from the window `i` of a chain of
/// windows and their process numbers. Zero is no process number.
pub open spec fn first_pid(chain: Seq<(u32, Option<u32>)>, root: u32, i: int) -> Option<u32>
    decreases chain.len() - i,
{
    if i < 0 || i >= chain.len() || i >= TREE_WALK_LIMIT {
        None
    } else if chain[i].0 == NONE || chain[i].0 == root {
        None
    } else if chain[i].1 matches Some(pid) && pid != 0 {
        chain[i].1
    } else {
        first_pid(chain, root, i + 1)
    }
}

/// The process of a window, or of its nearest ancestor that names one.
pub fn owning_pid(chain: &Vec<(u32, Option<u32>)>, root: u32) -> (r: Option<u32>)
    ensures
        r == first_pid(chain@, root, 0),
{
    let mut i: usize = 0;
    while i < chain.len() && i < TREE_WALK_LIMIT
        invariant
            i <= chain@.len(),
            first_pid(chain@, root, 0) == first_pid(chain@, root, i as int),
        decreases chain@.len() - i,
    {
        let (window, named) = chain[i];
        if window == NONE || window == root {
            return None;
        }
        match named {
            Some(pid) => {
                if pid != 0 {
                    return Some(pid);
                }
            },
            None => {},
        }
        i = i + 1;
    }
    None
}

/// The first window of a level, from `i` on, that a client owns.
pub open spec fn client_in(level: Seq<(u32, bool)>, i: int) -> Option<u32>
    decreases level.len() - i,
{
    if i < 0 || i >= level.len() {
        None
    } else if level[i].1 {
        Some(level[i].0)
    } else {
        client_in(level, i + 1)
    }
}

/// The first client on the levels from `l` on, three levels deep.
pub open spec fn client_below(levels: Seq<Vec<(u32, bool)>>, l: int) -> Option<u32>
    decreases levels.len() - l,
{
    if l < 0 || l >= levels.len() || l >= 3 {
        None
    } else {
        match client_in(levels[l]@, 0) {
            Some(window) => Some(window),
            None => client_below(levels, l + 1),
        }
    }
}

/// The client's window inside a child of the root: the levels hold the windows of
/// each depth and whether each is a client's.
pub fn client_of(levels: &Vec<Vec<(u32, bool)>>) -> (r: Option<u32>)
    ensures
        r == client_below(levels@, 0),
{
    let mut l: usize = 0;
    while l < levels.len() && l < 3
        invariant
            l <= levels@.len(),
            client_below(levels@, 0) == client_below(levels@, l as int),
        decreases levels@.len() - l,
    {
        let level = &levels[l];
        let mut i: usize = 0;
        while i < level.len()
            invariant
                l < levels@.len(),
                l < 3,
                *level == levels@[l as int],
                client_below(levels@, 0) == client_below(levels@, l as int),
                i <= level@.len(),
                client_in(level@, 0) == client_in(level@, i as int),
            decreases level@.len() - i,
        {
            let (window, client) = level[i];
            if client {
                return Some(window);
            }
            i = i + 1;
        }
        l = l + 1;
    }
    None
}

/// Whether the window is active, where the window manager tracks that, and holds
/// the keyboard focus.
pub fn is_focused(ewmh: bool, active: Option<u32>, window: u32, focus_within: bool) -> (r: bool)
    ensures
        r == ((!ewmh || active == Some(window)) && focus_within),
{
    let is_active = match active {
        Some(w) => w == window,
        None => false,
    };
    (!ewmh || is_active) && focus_within
}

/// What is known of a target and of the point that a gesture would touch.
#[derive(Clone, Copy, Debug, PartialEq, Eq, Structural)]
pub struct PointView {
    pub viewable: bool,
    pub left: i16,
    pub top: i16,
    pub width: u16,
    pub height: u16,
    /// The child of the root at the point.
    pub under: Option<u32>,
    /// The child of the root that holds the target.
    pub frame: Option<u32>,
}

/// Why a pointer event would not reach the target.
#[derive(Clone, Copy, Debug, PartialEq, Eq, Structural)]
pub enum PointRefusal {
    NotViewable,
    Outside,
    NothingThere,
    NotMapped,
    CoveredBy(u32),
}

/// Whether a pointer event at a point reaches the target, and why not.
pub open spec fn point_result(view: PointView, x: int, y: int) -> Result<(), PointRefusal> {
    if !view.viewable {
        Err(PointRefusal::NotViewable)
    } else if !(view.left <= x < view.left + view.width && view.top <= y < view.top + view.height) {
        Err(PointRefusal::Outside)
    } else {
        match (view.under, view.frame) {
            (None, _) => Err(PointRefusal::NothingThere),
            (Some(_), None) => Err(PointRefusal::NotMapped),
            (Some(under), Some(frame)) => if under == frame {
                Ok(())
            } else {
                Err(PointRefusal::CoveredBy(under))
            },
        }
    }
}

/// Refuses a pointer event that would not land on the target: another window of
/// the same process is not the target either.
pub fn check_pointer_target(view: PointView, x: i16, y: i16) -> (r: Result<(), PointRefusal>)
    ensures
        r == point_result(view, x as int, y as int),
{
    if !view.viewable {
        return Err(PointRefusal::NotViewable);
    }
    let px: i32 = x as i32;
    let py: i32 = y as i32;
    let left: i32 = view.left as i32;
    let top: i32 = view.top as i32;
    if px < left || py < top || px >= left + view.width as i32 || py >= top + view.height as i32 {
        return Err(PointRefusal::Outside);
    }
    match view.under {
        None => Err(PointRefusal::NothingThere),
        Some(under) => match view.frame {
            None => Err(PointRefusal::NotMapped),
            Some(frame) => if under == frame {
                Ok(())
            } else {
                Err(PointRefusal::CoveredBy(under))
            },
        },
    }
}

/// A pointer event is let through only where the target's own frame lies under
/// the point and the point is inside the target.
pub proof fn law_admitted_points_are_the_targets(view: PointView, x: int, y: int)
    requires
        point_result(view, x, y) is Ok,
    ensures
        view.viewable,
        view.left <= x < view.left + view.width,
        view.top <= y < view.top + view.height,
        view.under is Some,
        view.under == view.frame,
{
}

/// A child of the root, as far as it can be a popup that holds a grab.
#[derive(Clone, Copy, Debug, PartialEq, Eq, Structural)]
pub struct RootChild {
    pub window: u32,
    pub unmanaged: bool,
    pub viewable: bool,
    pub pid: Option<u32>,
    /// A tooltip, a notification or something dragged.
    pub passive: bool,
}

/// The child may hold a grab for the process.
pub open spec fn may_grab(child: RootChild, pid: u32) -> bool {
    child.unmanaged && child.viewable && child.pid == Some(pid) && !child.passive
}

/// The topmost of the first `k` children that may hold a grab.
pub open spec fn grabbing(children: Seq<RootChild>, pid: u32, k: int) -> Option<u32>
    decreases k,
{
    if k <= 0 {
        None
    } else if may_grab(children[k - 1], pid) {
        Some(children[k - 1].window)
    } else {
        grabbing(children, pid, k - 1)
    }
}

/// The topmost popup of a process that may hold a grab; the children are listed
/// from the bottom up.
pub fn grab_popup_of(children: &Vec<RootChild>, pid: u32) -> (r: Option<u32>)
    ensures
        r == grabbing(children@, pid, children@.len() as int),
{
    let mut k: usize = children.len();
    while k > 0
        invariant
            k <= children@.len(),
            grabbing(children@, pid, children@.len() as int) == grabbing(children@, pid, k as int),
        decreases k,
    {
        let child = children[k - 1];
        let owned = match child.pid {
            Some(p) => p == pid,
            None => false,
        };
        if child.unmanaged && child.viewable && owned && !child.passive {
            return Some(child.window);
        }
        k = k - 1;
    }
    None
}

/// Whether a window's types hold one of the types of popups that hold no grab.
pub fn is_passive_popup(types: &Vec<u32>, passive: [u32; 3]) -> (r: bool)
    ensures
        r == exists|i: int| 0 <= i < types@.len() && passive@.contains(#[trigger] types@[i]),
{
    let mut i: usize = 0;
    while i < types.len()
        invariant
            i <= types@.len(),
            forall|k: int| 0 <= k < i ==> !passive@.contains(#[trigger] types@[k]),
        decreases types@.len() - i,
    {
        let t: u32 = types[i];
        if t == passive[0] || t == passive[1] || t == passive[2] {
            assert(passive@[0] == t || passive@[1] == t || passive@[2] == t);
            assert(passive@.contains(types@[i as int]));
            return true;
        }
        proof {
            if passive@.contains(t) {
                let k = choose|k: int| 0 <= k < passive@.len() && passive@[k] == t;
                assert(k == 0 || k == 1 || k == 2);
            }
        }
        i = i + 1;
    }
    false
}

/// The user's focus before a background action.
#[derive(Clone, Copy, Debug, PartialEq, Eq, Structural)]
pub struct FocusSnapshot {
    pub active: Option<u32>,
    pub focus: u32,
}

/// The focus as it is now.
#[derive(Clone, Copy, Debug, PartialEq, Eq, Structural)]
pub struct FocusNow {
    pub active: Option<u32>,
    pub focus: Option<u32>,
    /// The window that held the focus before lies within the target.
    pub was_within: bool,
    /// The window that holds it now does.
    pub is_within: bool,
}

/// What a look at the focus says.
#[derive(Clone, Copy, Debug, PartialEq, Eq, Structural)]
pub enum Watch {
    /// Nothing changed so far.
    Unchanged,
    /// The focus moved elsewhere, which is the user's doing.
    Elsewhere,
    /// The target took the focus.
    TakenByTarget,
}

impl FocusSnapshot {
    /// What the focus does under a background action on the target.
    pub open spec fn watched(&self, now: FocusNow, target: u32) -> Watch {
        if now.active == self.active && now.focus == Some(self.focus) {
            Watch::Unchanged
        } else if (self.active != Some(target) && now.active == Some(target)) || (!now.was_within
            && now.is_within) {
            Watch::TakenByTarget
        } else {
            Watch::Elsewhere
        }
    }

    /// Looks at the focus during a background action on the target. Nothing is
    /// ever done about it.
    pub fn check(&self, now: FocusNow, target: u32) -> (w: Watch)
        ensures
            w == self.watched(now, target),
    {
        if same(now.active, self.active) && same(now.focus, Some(self.focus)) {
            return Watch::Unchanged;
        }
        let moved = !same(self.active, Some(target)) && same(now.active, Some(target));
        if moved || (!now.was_within && now.is_within) {
            Watch::TakenByTarget
        } else {
            Watch::Elsewhere
        }
    }
}

/// How long a background action is watched for a late focus change, in
/// milliseconds.
pub const FOCUS_SETTLE_WATCH: u64 = 150;

/// Decides whether the watch goes on after so many milliseconds: only while
/// nothing has changed and the time is not up.
pub fn watch_on(watch: Watch, elapsed: u64) -> (r: bool)
    ensures
        r == (watch == Watch::Unchanged && elapsed < FOCUS_SETTLE_WATCH),
{
    match watch {
        Watch::Unchanged => elapsed < FOCUS_SETTLE_WATCH,
        _ => false,
    }
}

fn same(a: Option<u32>, b: Option<u32>) -> (r: bool)
    ensures
        r == (a == b),
{
    match (a, b) {
        (Some(x), Some(y)) => x == y,
        (None, None) => true,
        _ => false,
    }
}

} // verus!

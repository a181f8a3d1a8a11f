//! Which window, which process and which focus a look at the tree gives, and
//! how a motion is told to the kernel.

use vstd::prelude::*;

use super::uinput::{button_code, motion_frame};
use super::wm::{
    below_root, client_below, client_in, first_pid, grabbing, meets, FocusNow, FocusSnapshot,
    RootChild, Watch,
};

verus! {

/// A walk up the tree meets a window that it comes to before the root, before
/// nothing, and within thirty-two steps, and no other.
pub proof fn law_walks_meet_what_they_pass(
    chain: Seq<u32>,
    target: u32,
    root: u32,
    i: int,
    p: int,
)
    requires
        0 <= i <= p <= chain.len(),
        forall|k: int|
            i <= k < p ==> #[trigger] chain[k] != target && chain[k] != root && chain[k] != 0,
    ensures
        p < chain.len() && p < 32 && chain[p] == target ==> meets(chain, target, root, i),
        p < chain.len() && chain[p] != target && (chain[p] == root || chain[p] == 0) ==> !meets(
            chain,
            target,
            root,
            i,
        ),
        p == chain.len() || p >= 32 ==> !meets(chain, target, root, i),
    decreases p - i,
{
    if i < p {
        assert(chain[i] != target && chain[i] != root && chain[i] != 0);
        law_walks_meet_what_they_pass(chain, target, root, i + 1, p);
    }
}

/// The window below the root is the one whose parent the root is.
pub proof fn law_the_frame_is_right_below_the_root(chain: Seq<u32>, root: u32, i: int, p: int)
    requires
        0 <= i <= p < chain.len(),
        forall|k: int| i < k <= p ==> #[trigger] chain[k] != root,
    ensures
        p + 1 < chain.len() && p < 32 && chain[p + 1] == root ==> below_root(chain, root, i) == Some(
            chain[p],
        ),
        p + 1 == chain.len() || p >= 32 ==> below_root(chain, root, i) is None,
    decreases p - i,
{
    if i < p {
        assert(chain[i + 1] != root);
        law_the_frame_is_right_below_the_root(chain, root, i + 1, p);
    }
}

/// The process of a window is that of the first window on the way up that names
/// one other than zero.
pub proof fn law_the_nearest_process_is_found(
    chain: Seq<(u32, Option<u32>)>,
    root: u32,
    i: int,
    p: int,
)
    requires
        0 <= i <= p <= chain.len(),
        forall|k: int|
            i <= k < p ==> (#[trigger] chain[k]).0 != 0 && chain[k].0 != root && (chain[k].1 is None
                || chain[k].1 == Some(0u32)),
    ensures
        p < chain.len() && p < 32 && chain[p].0 != 0 && chain[p].0 != root && chain[p].1 is Some
            && chain[p].1 != Some(0u32) ==> first_pid(chain, root, i) == chain[p].1,
        p < chain.len() && (chain[p].0 == 0 || chain[p].0 == root) ==> first_pid(chain, root, i) is None,
        p == chain.len() || p >= 32 ==> first_pid(chain, root, i) is None,
    decreases p - i,
{
    if i < p {
        assert(chain[i].0 != 0 && chain[i].0 != root);
        law_the_nearest_process_is_found(chain, root, i + 1, p);
    }
}

/// The client of a level is its first.
pub proof fn law_the_first_client_is_found(level: Seq<(u32, bool)>, i: int, p: int)
    requires
        0 <= i <= p <= level.len(),
        forall|k: int| i <= k < p ==> !(#[trigger] level[k]).1,
        p < level.len() ==> level[p].1,
    ensures
        client_in(level, i) == (if p < level.len() {
            Some(level[p].0)
        } else {
            None
        }),
    decreases p - i,
{
    if i < p {
        assert(!level[i].1);
        law_the_first_client_is_found(level, i + 1, p);
    }
}

/// The client below a window is on the highest of three levels that has one.
pub proof fn law_the_highest_client_is_found(levels: Seq<Vec<(u32, bool)>>, l: int, p: int)
    requires
        0 <= l <= p <= levels.len(),
        forall|k: int| l <= k < p ==> client_in((#[trigger] levels[k])@, 0) is None,
    ensures
        p < levels.len() && p < 3 && client_in(levels[p]@, 0) is Some ==> client_below(levels, l)
            == client_in(levels[p]@, 0),
        p == levels.len() || p >= 3 ==> client_below(levels, l) is None,
    decreases p - l,
{
    if l < p {
        assert(client_in(levels[l]@, 0) is None);
        law_the_highest_client_is_found(levels, l + 1, p);
    }
}

/// The child that may hold a grab is the topmost unmanaged, viewable one of the
/// process that is more than a tooltip.
pub proof fn law_the_topmost_popup_may_hold_the_grab(children: Seq<RootChild>, pid: u32, k: int, p: int)
    requires
        0 <= p <= k <= children.len(),
        forall|i: int|
            p <= i < k ==> !((#[trigger] children[i]).unmanaged && children[i].viewable
                && children[i].pid == Some(pid) && !children[i].passive),
    ensures
        p == 0 ==> grabbing(children, pid, k) is None,
        p > 0 && children[p - 1].unmanaged && children[p - 1].viewable && children[p - 1].pid
            == Some(pid) && !children[p - 1].passive ==> grabbing(children, pid, k) == Some(
            children[p - 1].window,
        ),
    decreases k - p,
{
    if p < k {
        assert(!(children[k - 1].unmanaged && children[k - 1].viewable && children[k - 1].pid
            == Some(pid) && !children[k - 1].passive));
        law_the_topmost_popup_may_hold_the_grab(children, pid, k - 1, p);
    }
}

/// A look at the focus blames the target only where it did not have the focus
/// and has it now, and says nothing changed only where both windows are the
/// same.
pub proof fn law_only_a_new_focus_is_blamed(before: FocusSnapshot, now: FocusNow, target: u32)
    ensures
        before.watched(now, target) == Watch::Unchanged <==> now.active == before.active
            && now.focus == Some(before.focus),
        before.watched(now, target) == Watch::TakenByTarget ==> (before.active != Some(target)
            && now.active == Some(target)) || (!now.was_within && now.is_within),
        now.focus != Some(before.focus) && !now.was_within && now.is_within ==> before.watched(
            now,
            target,
        ) == Watch::TakenByTarget,
        before.active != Some(target) && now.active == Some(target) ==> before.watched(now, target)
            == Watch::TakenByTarget,
{
}

/// A motion is told axis by axis, the horizontal first, each that moves and no
/// other, and ended by one mark; standing still is told by nothing.
pub proof fn law_motions_name_the_axes_that_move(dx: i32, dy: i32)
    ensures
        ({
            let frame = motion_frame(dx, dy);
            &&& dx == 0 && dy == 0 <==> frame.len() == 0
            &&& frame.len() > 0 ==> frame.last().kind == 0 && frame.last().code == 0
                && frame.last().value == 0
            &&& dx != 0 ==> frame[0].kind == 2 && frame[0].code == 0 && frame[0].value == dx
            &&& dy != 0 ==> frame[frame.len() - 2].kind == 2 && frame[frame.len() - 2].code == 1
                && frame[frame.len() - 2].value == dy
            &&& dx != 0 && dy != 0 ==> frame.len() == 3
            &&& (dx == 0) != (dy == 0) ==> frame.len() == 2
        }),
{
}

/// The left, middle and right button have the codes that the kernel gives them,
/// and no other button has one.
pub proof fn law_buttons_have_the_kernel_codes(button: u8)
    ensures
        button_code(1) == Some(0x110u16),
        button_code(2) == Some(0x112u16),
        button_code(3) == Some(0x111u16),
        button_code(button) is Some <==> 1 <= button <= 3,
{
}

} // verus!

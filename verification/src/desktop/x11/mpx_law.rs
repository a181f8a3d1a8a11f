//! Whose devices are removed, what a process status says, and which reports
//! confirm an event.

use vstd::prelude::*;
use vstd::utf8::encode_utf8;

use super::mpx::{
    after_paren, confirm_timeout, confirms, device_at, device_fits, domain_seed, ended, is_orphan,
    orphans_of, owner_named, rounded, status_fields, ticks_of, DeviceInfo, DeviceKind, Owner, Raw,
    Report, ReportKind, StartOf,
};
use crate::strings::{number, trimmed, words_from};

verus! {

/// A master pointer of this login is an orphan when its owner is gone, runs
/// again under the same number, or is an earlier life of this process; nothing
/// else is one, and not what cannot be looked up.
pub proof fn law_devices_of_ended_owners_are_orphans(
    d: DeviceInfo,
    owner: Owner,
    current: Owner,
    start: u64,
)
    requires
        owner_named(d.name@) == Some(owner),
        d.kind == DeviceKind::MasterPointer,
        owner.domain == current.domain,
    ensures
        owner.pid != current.pid ==> is_orphan(d, StartOf::Gone, current),
        owner.pid != current.pid && start != owner.start ==> is_orphan(
            d,
            StartOf::At(start),
            current,
        ),
        owner.pid != current.pid ==> !is_orphan(d, StartOf::Unknown, current),
        owner.pid == current.pid && owner.start != current.start ==> forall|s: StartOf| #[trigger]
            is_orphan(d, s, current),
{
}

/// Only master pointers that name an owner are ever orphans.
pub proof fn law_other_devices_are_no_orphans(d: DeviceInfo, s: StartOf, current: Owner)
    ensures
        d.kind != DeviceKind::MasterPointer ==> !is_orphan(d, s, current),
        owner_named(d.name@) is None ==> !is_orphan(d, s, current),
{
}

/// One of the first `n` devices is an orphan with this id.
pub open spec fn is_an_orphans_id(
    devices: Seq<DeviceInfo>,
    starts: Seq<StartOf>,
    current: Owner,
    n: int,
    id: u16,
) -> bool {
    exists|i: int|
        0 <= i < n && (#[trigger] devices[i]).id == id && is_orphan(devices[i], starts[i], current)
}

/// Every orphan is removed and nothing else.
pub proof fn law_every_orphan_is_removed(
    devices: Seq<DeviceInfo>,
    starts: Seq<StartOf>,
    current: Owner,
    n: int,
    id: u16,
)
    requires
        0 <= n <= devices.len(),
    ensures
        orphans_of(devices, starts, current, n).contains(id) <==> is_an_orphans_id(
            devices,
            starts,
            current,
            n,
            id,
        ),
    decreases n,
{
    if n > 0 {
        law_every_orphan_is_removed(devices, starts, current, n - 1, id);
        let earlier = orphans_of(devices, starts, current, n - 1);
        let all = orphans_of(devices, starts, current, n);
        if earlier.contains(id) {
            let k = choose|k: int| 0 <= k < earlier.len() && earlier[k] == id;
            assert(all[k] == id);
        }
        if is_orphan(devices[n - 1], starts[n - 1], current) {
            assert(all[earlier.len() as int] == devices[n - 1].id);
        }
        if all.contains(id) {
            let k = choose|k: int| 0 <= k < all.len() && all[k] == id;
            if k < earlier.len() {
                assert(earlier[k] == id);
            } else {
                assert(devices[n - 1].id == id);
            }
        }
    }
}

proof fn lemma_after_paren(text: Seq<char>, k: int, p: int)
    requires
        0 < p <= k <= text.len(),
        text[p - 1] == ')',
        forall|i: int| p <= i < k ==> #[trigger] text[i] != ')',
    ensures
        after_paren(text, k) == Some(p),
    decreases k - p,
{
    if p < k {
        assert(text[k - 1] != ')');
        lemma_after_paren(text, k - 1, p);
    }
}

/// The fields of a process status stand behind the last bracket, so a name with
/// brackets and white space does not shift them; the start is the twentieth of
/// them, and the first tells an ended process.
pub proof fn law_status_is_read_behind_the_name(head: Seq<char>, rest: Seq<char>)
    requires
        !rest.contains(')'),
    ensures
        ({
            let stat = head.push(')') + rest;
            let fields = words_from(rest, 0);
            &&& status_fields(stat) == Some(fields)
            &&& fields.len() >= 20 && number(fields[19], 10, u64::MAX as int) is Some ==> (ticks_of(
                stat,
            ) matches Some(t) && t == (number(fields[19], 10, u64::MAX as int)->0) as u64)
            &&& fields.len() < 20 || number(fields[19], 10, u64::MAX as int) is None ==> ticks_of(
                stat,
            ) is None
            &&& ended(stat) <==> fields.len() > 0 && (fields[0] == "Z"@ || fields[0] == "X"@)
        }),
{
    let stat = head.push(')') + rest;
    let p = head.len() as int + 1;
    assert forall|i: int| p <= i < stat.len() implies #[trigger] stat[i] != ')' by {
        assert(rest[i - p] == stat[i]);
        assert(rest.contains(rest[i - p]));
    }
    lemma_after_paren(stat, stat.len() as int, p);
    assert(stat.skip(p) =~= rest);
}

/// Rounding gives the nearest whole number, and of two the one farther from
/// zero.
pub proof fn law_rounding_is_to_the_nearest(n: int, d: int)
    requires
        0 < d,
    ensures
        -d <= 2 * (rounded(n, d) * d - n) <= d,
        n >= 0 ==> 2 * (rounded(n, d) * d - n) > -d,
        n < 0 ==> 2 * (rounded(n, d) * d - n) < d,
        rounded(-n, d) == -rounded(n, d),
{
    let up = if n >= 0 {
        n
    } else {
        -n
    };
    let q = (2 * up + d) / (2 * d);
    let r = (2 * up + d) % (2 * d);
    assert(2 * up + d == (2 * d) * q + r && 0 <= r < 2 * d) by (nonlinear_arith)
        requires
            0 < d,
            q == (2 * up + d) / (2 * d),
            r == (2 * up + d) % (2 * d),
    ;
    assert((2 * d) * q == 2 * (q * d)) by (nonlinear_arith);
    assert((-q) * d == -(q * d)) by (nonlinear_arith);
    if n == 0 {
        assert(q == 0) by (nonlinear_arith)
            requires
                0 < d,
                q == (2 * 0 + d) / (2 * d),
        ;
    }
}

/// A report of another device confirms nothing; one of this device confirms an
/// event of its own kind with its own button or key, and a turn of the wheel is
/// confirmed by a motion too.
pub proof fn law_reports_confirm_their_own_event(report: Report, device: u16, raw: Raw, code: u8)
    ensures
        report.device != device && report.source != device ==> !confirms(report, device, raw),
        report.device == device || report.source == device ==> {
            &&& report.kind == ReportKind::Motion ==> confirms(report, device, Raw::Motion)
                && confirms(report, device, Raw::Wheel)
            &&& report.kind == ReportKind::ButtonPress && 4 <= report.detail <= 7 ==> confirms(
                report,
                device,
                Raw::Wheel,
            )
            &&& report.kind == ReportKind::ButtonPress ==> !confirms(report, device, Raw::Motion)
            &&& confirms(report, device, Raw::KeyPress(code)) <==> report.kind
                == ReportKind::KeyPress && report.detail == code
            &&& confirms(report, device, Raw::KeyRelease(code)) <==> report.kind
                == ReportKind::KeyRelease && report.detail == code
            &&& confirms(report, device, Raw::ButtonPress(code)) <==> report.kind
                == ReportKind::ButtonPress && report.detail == code
            &&& confirms(report, device, Raw::ButtonRelease(code)) <==> report.kind
                == ReportKind::ButtonRelease && report.detail == code
            &&& report.kind == ReportKind::KeyPress || report.kind == ReportKind::KeyRelease
                ==> !confirms(report, device, Raw::Wheel) && !confirms(report, device, Raw::Motion)
        },
        raw is KeyPress ==> confirm_timeout(raw) == 1500,
        raw is KeyRelease ==> confirm_timeout(raw) == 1500,
        !(raw is KeyPress) && !(raw is KeyRelease) ==> confirm_timeout(raw) == 1000,
{
}

/// The device found is the first that has the name and the kind.
pub proof fn law_the_first_fitting_device_is_found(
    devices: Seq<DeviceInfo>,
    name: Seq<char>,
    kind: DeviceKind,
    floating: bool,
    i: int,
    p: int,
)
    requires
        0 <= i <= p <= devices.len(),
        forall|k: int|
            i <= k < p ==> (#[trigger] devices[k]).name@ != name || (devices[k].kind != kind && !(
            floating && devices[k].kind == DeviceKind::FloatingSlave)),
        p < devices.len() ==> devices[p].name@ == name && (devices[p].kind == kind || (floating
            && devices[p].kind == DeviceKind::FloatingSlave)),
    ensures
        device_at(devices, name, kind, floating, i) == (if p < devices.len() {
            Some(devices[p].id)
        } else {
            None
        }),
    decreases p - i,
{
    if i < p {
        assert(!device_fits(devices[i], name, kind, floating));
        law_the_first_fitting_device_is_found(devices, name, kind, floating, i + 1, p);
    }
}

/// Logins of different users on one machine have different seeds, and white
/// space around the boot id changes nothing.
pub proof fn law_users_have_their_own_domain(
    boot: Seq<char>,
    other: Seq<char>,
    namespace: Seq<u8>,
    a: u32,
    b: u32,
)
    ensures
        a != b ==> domain_seed(boot, namespace, a) != domain_seed(boot, namespace, b),
        trimmed(boot) == trimmed(other) ==> domain_seed(boot, namespace, a) == domain_seed(
            other,
            namespace,
            a,
        ),
        encode_utf8(trimmed(boot)).is_prefix_of(domain_seed(boot, namespace, a)),
        domain_seed(boot, namespace, a).len() == encode_utf8(trimmed(boot)).len() + namespace.len()
            + 6,
{
    let x = domain_seed(boot, namespace, a);
    let y = domain_seed(boot, namespace, b);
    let n = (encode_utf8(trimmed(boot)).len() + namespace.len() + 2) as int;
    assert(x[n] == ((a / 0x100_0000) % 0x100) as u8);
    assert(x[n + 1] == ((a / 0x1_0000) % 0x100) as u8);
    assert(x[n + 2] == ((a / 0x100) % 0x100) as u8);
    assert(x[n + 3] == (a % 0x100) as u8);
    assert(y[n] == ((b / 0x100_0000) % 0x100) as u8);
    assert(y[n + 1] == ((b / 0x1_0000) % 0x100) as u8);
    assert(y[n + 2] == ((b / 0x100) % 0x100) as u8);
    assert(y[n + 3] == (b % 0x100) as u8);
}

} // verus!

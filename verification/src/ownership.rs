//! What holds between seat ownership and device access, whatever the
//! sessions do.
//!
//! The manager grants a seat's owner access to the seat's devices and takes
//! it away when the owner leaves, so the lists of the devices mirror who owns
//! the seat. This module states that as a predicate on the manager's state
//! and proves that every operation of a session keeps it, with one exception
//! that the operations allow: a session that leaves a seat which another
//! session of the same user owns takes that user's entries away. The lists
//! that are read in from the files, and the devices that discovery reports,
//! are the manager's input; the predicate holds of them or not as they are.

use crate::acl::{
    entries_of_user, has_user, lemma_grant_keeps_others, lemma_revoke_keeps_others,
    lemma_with_user, lemma_without_user, read_write, with_user, without_user,
};
use crate::decimal::{decimal, lemma_as_text_injective, lemma_decimal_injective};
use crate::seat::has_name;
use crate::cgroupv2::{members, CgroupView};
use crate::state::{
    acl_uid, default_seat, first_untracked, lemma_acquired_wf, lemma_all_tracked,
    lemma_created_wf, lemma_distinct_ids, lemma_left_wf, lemma_removed_wf, lemma_seat_slot,
    lemma_tty_activated_wf, revoked, started, untracked, ManagerView,
};
use vstd::prelude::*;

verus! {

/// The path of device `d` of seat `k`.
pub open spec fn device_path(v: ManagerView, k: int, d: int) -> Seq<u8> {
    v.seats[k].devices[d].dev_name
}

/// Whether device `d` of seat `k` is a device whose list the manager keeps.
pub open spec fn is_kept_device(v: ManagerView, k: int, d: int) -> bool {
    &&& 0 <= k < v.seats.len()
    &&& 0 <= d < v.seats[k].devices.len()
    &&& v.access.dom().contains(device_path(v, k, d))
}

/// Whether the list of device `d` of seat `k` holds an entry of the user
/// `uid`.
pub open spec fn holds_entry(v: ManagerView, k: int, d: int, uid: u32) -> bool {
    has_user(v.access[device_path(v, k, d)], uid)
}

/// The user of the session that owns seat `k`, as access-control lists know
/// it.
pub open spec fn owner_uid(v: ManagerView, k: int) -> Option<u32> {
    match v.owners[k] {
        Some(id) => Some(acl_uid(v.sessions[v.session_slot(id).unwrap()].uid)),
        None => None,
    }
}

/// Device access mirrors seat ownership: on every device of a seat, the users
/// with an entry of their own are the user of the seat's owner, with one
/// entry that gives read and write access, or nobody where the seat has no
/// owner.
pub open spec fn grants_mirror_ownership(v: ManagerView) -> bool {
    forall|k: int, d: int, uid: u32|
        is_kept_device(v, k, d) ==> {
            &&& #[trigger] holds_entry(v, k, d, uid) <==> owner_uid(v, k) == Some(uid)
            &&& owner_uid(v, k) == Some(uid) ==> entries_of_user(
                v.access[device_path(v, k, d)],
                uid,
            ) == seq![read_write(uid)]
        }
}

/// Whether no two sessions belong to the same user.
pub open spec fn one_session_per_user(v: ManagerView) -> bool {
    forall|i: int, j: int|
        0 <= i < j < v.sessions.len() ==> (#[trigger] v.sessions[i]).uid != (
        #[trigger] v.sessions[j]).uid
}

/// Different users are different users to access-control lists too.
pub proof fn lemma_acl_uid_injective(a: i32, b: i32)
    requires
        acl_uid(a) == acl_uid(b),
    ensures
        a == b,
{
}

/// Acquiring a seat keeps device access the mirror of seat ownership.
pub proof fn lemma_acquire_keeps_mirror(v: ManagerView, session: Seq<char>, seat: Seq<char>)
    requires
        v.wf(),
        grants_mirror_ownership(v),
        v.refusal(session, seat) is None,
    ensures
        grants_mirror_ownership(v.acquired(session, seat)),
{
    let w = v.acquired(session, seat);
    let k0 = v.seat_slot(seat).unwrap();
    let user = acl_uid(v.sessions[v.session_slot(session).unwrap()].uid);
    assert(w.owners[k0] == Some(session));
    assert(owner_uid(w, k0) == Some(user));
    assert forall|k: int, d: int, uid: u32| is_kept_device(w, k, d) implies ({
        &&& #[trigger] holds_entry(w, k, d, uid) <==> owner_uid(w, k) == Some(uid)
        &&& owner_uid(w, k) == Some(uid) ==> entries_of_user(w.access[device_path(w, k, d)], uid)
            == seq![read_write(uid)]
    }) by {
        assert(k == k0);
        let path = device_path(v, k, d);
        assert(is_kept_device(v, k, d));
        assert(has_name(v.seats[k].devices, path));
        assert(w.access[path] == with_user(v.access[path], user));
        assert(!holds_entry(v, k, d, uid));
        lemma_with_user(v.access[path], user);
        if uid != user {
            lemma_grant_keeps_others(v.access[path], user, uid);
        }
    }
}

/// Leaving a seat keeps device access the mirror of seat ownership, unless
/// the seat is owned by another session of the same user.
pub proof fn lemma_leave_keeps_mirror(v: ManagerView, session: Seq<char>, seat: Seq<char>)
    requires
        v.wf(),
        grants_mirror_ownership(v),
        v.seat_slot(seat) is Some,
        v.session_slot(session) is Some,
        v.owner(seat) is Some && v.owner(seat) != Some(session) ==> owner_uid(
            v,
            v.seat_slot(seat).unwrap(),
        ) != Some(acl_uid(v.sessions[v.session_slot(session).unwrap()].uid)),
    ensures
        grants_mirror_ownership(v.left(session, seat)),
{
    let w = v.left(session, seat);
    let k0 = v.seat_slot(seat).unwrap();
    let user = acl_uid(v.sessions[v.session_slot(session).unwrap()].uid);
    assert forall|k: int, d: int, uid: u32| is_kept_device(w, k, d) implies ({
        &&& #[trigger] holds_entry(w, k, d, uid) <==> owner_uid(w, k) == Some(uid)
        &&& owner_uid(w, k) == Some(uid) ==> entries_of_user(w.access[device_path(w, k, d)], uid)
            == seq![read_write(uid)]
    }) by {
        assert(k == k0);
        let path = device_path(v, k, d);
        assert(is_kept_device(v, k, d));
        assert(has_name(v.seats[k].devices, path));
        assert(w.access[path] == without_user(v.access[path], user));
        assert(holds_entry(v, k, d, uid) <==> owner_uid(v, k) == Some(uid));
        assert(holds_entry(v, k, d, user) <==> owner_uid(v, k) == Some(user));
        lemma_without_user(v.access[path], user);
        if uid != user {
            lemma_revoke_keeps_others(v.access[path], user, uid);
        }
    }
}

/// A session other than the one at `i` is found after the removal of that
/// one as it was found before.
proof fn lemma_lookup_after_removal(v: ManagerView, i: int, other: Seq<char>)
    requires
        v.wf(),
        0 <= i < v.sessions.len(),
        v.session_slot(other) is Some,
        other != v.sessions[i].id,
    ensures
        ({
            let w = ManagerView { sessions: v.sessions.remove(i), ..v };
            w.session_slot(other) is Some && w.sessions[w.session_slot(other).unwrap()]
                == v.sessions[v.session_slot(other).unwrap()]
        }),
{
    let w = ManagerView { sessions: v.sessions.remove(i), ..v };
    let j = v.session_slot(other).unwrap();
    assert(v.sessions[j].id == other);
    let j1 = if j < i {
        j
    } else {
        j - 1
    };
    assert(w.sessions[j1] == v.sessions[j]);
    let c = w.session_slot(other).unwrap();
    assert(w.sessions[c].id == other);
    let c0 = if c < i {
        c
    } else {
        c + 1
    };
    assert(w.sessions[c] == v.sessions[c0]);
    if c0 != j {
        lemma_distinct_ids(v, c0, j);
    }
}

/// Removing a session keeps device access the mirror of seat ownership.
pub proof fn lemma_remove_keeps_mirror(v: ManagerView, session: Seq<char>)
    requires
        v.wf(),
        grants_mirror_ownership(v),
    ensures
        grants_mirror_ownership(v.removed(session)),
{
    if v.session_slot(session) is Some {
        let i = v.session_slot(session).unwrap();
        assert(v.sessions[i].id == session);
        let released = match v.owned_slot(session) {
            Some(k) => v.left(session, v.seats[k].id),
            None => v,
        };
        if v.owned_slot(session) is Some {
            let k = v.owned_slot(session).unwrap();
            lemma_seat_slot(v, k);
            assert(v.owners[k] == Some(session));
            lemma_leave_keeps_mirror(v, session, v.seats[k].id);
            assert(released.owners[k] is None);
        }
        assert(released.sessions == v.sessions);
        assert(released.seats == v.seats);
        let w = v.removed(session);
        assert(w == ManagerView { sessions: released.sessions.remove(i), ..released });
        assert forall|k: int| 0 <= k < released.owners.len() implies (#[trigger] released.owners[k])
            != Some(session) by {
            if v.owned_slot(session) is None {
                assert(v.owners[k] != Some(session));
            }
        }
        assert forall|k: int| 0 <= k < w.seats.len() implies owner_uid(w, k) == owner_uid(
            released,
            k,
        ) by {
            if released.owners[k] is Some {
                let owner = released.owners[k].unwrap();
                assert(v.owners[k] == Some(owner));
                assert(v.session_slot(owner) is Some);
                assert(released.session_slot(owner) == v.session_slot(owner));
                let r = ManagerView { sessions: v.sessions, ..released };
                assert(r == released);
                lemma_lookup_after_removal(released, i, owner);
            }
        }
        assert forall|k: int, d: int, uid: u32| is_kept_device(w, k, d) implies ({
            &&& #[trigger] holds_entry(w, k, d, uid) <==> owner_uid(w, k) == Some(uid)
            &&& owner_uid(w, k) == Some(uid) ==> entries_of_user(
                w.access[device_path(w, k, d)],
                uid,
            ) == seq![read_write(uid)]
        }) by {
            assert(is_kept_device(released, k, d));
            assert(holds_entry(released, k, d, uid) <==> owner_uid(released, k) == Some(uid));
            assert(holds_entry(w, k, d, uid) == holds_entry(released, k, d, uid));
        }
    }
}

/// Creating a session keeps device access the mirror of seat ownership.
pub proof fn lemma_create_keeps_mirror(v: ManagerView, pid: i32, uid: i32, tty: Option<Seq<char>>)
    requires
        v.wf(),
        grants_mirror_ownership(v),
    ensures
        grants_mirror_ownership(v.created(pid, uid, tty)),
{
    let w = v.created(pid, uid, tty);
    assert forall|k: int| 0 <= k < w.seats.len() implies owner_uid(w, k) == owner_uid(v, k) by {
        if v.owners[k] is Some {
            let owner = v.owners[k].unwrap();
            let j = v.session_slot(owner).unwrap();
            assert(v.sessions[j].id == owner);
            assert(w.sessions[j] == v.sessions[j]);
            let c = w.session_slot(owner).unwrap();
            assert(w.sessions[c].id == owner);
            if c < v.sessions.len() {
                assert(w.sessions[c] == v.sessions[c]);
                if c != j {
                    lemma_distinct_ids(v, c, j);
                }
            } else {
                lemma_as_text_injective(decimal(v.counter), decimal(v.sessions[j].serial));
                lemma_decimal_injective(v.counter, v.sessions[j].serial);
            }
        }
    }
    assert forall|k: int, d: int, user: u32| is_kept_device(w, k, d) implies ({
        &&& #[trigger] holds_entry(w, k, d, user) <==> owner_uid(w, k) == Some(user)
        &&& owner_uid(w, k) == Some(user) ==> entries_of_user(
            w.access[device_path(w, k, d)],
            user,
        ) == seq![read_write(user)]
    }) by {
        assert(is_kept_device(v, k, d));
        assert(holds_entry(v, k, d, user) <==> owner_uid(v, k) == Some(user));
        assert(holds_entry(w, k, d, user) == holds_entry(v, k, d, user));
    }
}

/// The activation of a terminal keeps device access the mirror of seat
/// ownership.
pub proof fn lemma_tty_keeps_mirror(v: ManagerView, tty: Seq<char>)
    requires
        v.wf(),
        grants_mirror_ownership(v),
    ensures
        grants_mirror_ownership(v.tty_activated(tty)),
{
    if v.tty_slot(tty) is Some {
        let session = v.sessions[v.tty_slot(tty).unwrap()].id;
        if v.refusal(session, default_seat()) is None {
            lemma_acquire_keeps_mirror(v, session, default_seat());
        }
    }
}

/// Where device access mirrors seat ownership, a session whose user has an
/// entry on a device of a seat is of the same user as the seat's owner; and
/// it is the owner, where no two sessions belong to the same user.
pub proof fn lemma_holder_is_owner(v: ManagerView, k: int, d: int, i: int)
    requires
        v.wf(),
        grants_mirror_ownership(v),
        is_kept_device(v, k, d),
        0 <= i < v.sessions.len(),
        holds_entry(v, k, d, acl_uid(v.sessions[i].uid)),
    ensures
        v.owners[k] is Some,
        v.sessions[v.session_slot(v.owners[k].unwrap()).unwrap()].uid == v.sessions[i].uid,
        one_session_per_user(v) ==> v.owners[k] == Some(v.sessions[i].id),
{
    let owner = v.owners[k].unwrap();
    let j = v.session_slot(owner).unwrap();
    assert(v.sessions[j].id == owner);
    lemma_acl_uid_injective(v.sessions[j].uid, v.sessions[i].uid);
    if one_session_per_user(v) {
        if j < i {
            assert(v.sessions[j].uid != v.sessions[i].uid);
        } else if i < j {
            assert(v.sessions[i].uid != v.sessions[j].uid);
        }
    }
}

/// Where device access mirrors seat ownership, the user of a seat's owner has
/// one entry on every device of the seat, which gives read and write access;
/// and on the devices of a seat without an owner no user has an entry.
pub proof fn lemma_owner_holds(v: ManagerView, k: int, d: int)
    requires
        v.wf(),
        grants_mirror_ownership(v),
        is_kept_device(v, k, d),
    ensures
        match owner_uid(v, k) {
            Some(uid) => entries_of_user(v.access[device_path(v, k, d)], uid) == seq![
                read_write(uid),
            ],
            None => forall|uid: u32| !has_user(v.access[device_path(v, k, d)], uid),
        },
{
    match owner_uid(v, k) {
        Some(uid) => {
            assert(holds_entry(v, k, d, uid));
        },
        None => {
            assert forall|uid: u32| !has_user(v.access[device_path(v, k, d)], uid) by {
                assert(!holds_entry(v, k, d, uid));
            }
        },
    }
}

/// A session that acquires a seat without an owner and leaves it at once
/// leaves the seat without an owner and its user without an entry on any
/// device of the seat. Every list is as revoking alone would have left it:
/// as it was before, where it held no entry of that user.
pub proof fn lemma_acquire_then_leave(v: ManagerView, session: Seq<char>, seat: Seq<char>)
    requires
        v.wf(),
        v.refusal(session, seat) is None,
    ensures
        ({
            let w = v.acquired(session, seat).left(session, seat);
            let devices = v.seats[v.seat_slot(seat).unwrap()].devices;
            let uid = acl_uid(v.sessions[v.session_slot(session).unwrap()].uid);
            &&& w == ManagerView { access: revoked(v.access, devices, uid), ..v }
            &&& w.owner(seat) is None
            &&& forall|d: int|
                0 <= d < devices.len() ==> !has_user(
                    w.access[(#[trigger] devices[d]).dev_name],
                    uid,
                )
            &&& (forall|d: int|
                0 <= d < devices.len() ==> !has_user(
                    v.access[(#[trigger] devices[d]).dev_name],
                    uid,
                )) ==> w == v
        }),
{
    let a = v.acquired(session, seat);
    let w = a.left(session, seat);
    let k = v.seat_slot(seat).unwrap();
    let devices = v.seats[k].devices;
    let uid = acl_uid(v.sessions[v.session_slot(session).unwrap()].uid);
    assert(a.seat_slot(seat) == v.seat_slot(seat));
    assert(a.session_slot(session) == v.session_slot(session));
    assert(v.owners[k] is None);
    assert(w.owners =~= v.owners);
    assert forall|path: Seq<u8>| v.access.dom().contains(path) implies #[trigger] w.access[path]
        == revoked(v.access, devices, uid)[path] by {
        if has_name(devices, path) {
            lemma_with_user(v.access[path], uid);
        }
    }
    assert(w.access =~= revoked(v.access, devices, uid));
    assert forall|d: int| 0 <= d < devices.len() implies !has_user(
        w.access[(#[trigger] devices[d]).dev_name],
        uid,
    ) by {
        let path = devices[d].dev_name;
        lemma_all_tracked(v.access, devices, d);
        assert(has_name(devices, path));
        lemma_without_user(v.access[path], uid);
    }
    if forall|d: int|
        0 <= d < devices.len() ==> !has_user(v.access[(#[trigger] devices[d]).dev_name], uid) {
        assert forall|path: Seq<u8>| v.access.dom().contains(path) implies #[trigger] w.access[path]
            == v.access[path] by {
            if has_name(devices, path) {
                let d = choose|d: int|
                    0 <= d < devices.len() && (#[trigger] devices[d]).dev_name == path;
                assert(!has_user(v.access[devices[d].dev_name], uid));
                lemma_without_user(v.access[path], uid);
            }
        }
        assert(w.access =~= v.access);
    }
}

/// Where device access mirrors seat ownership, a session that acquires a
/// seat and leaves it at once leaves the manager as it was.
pub proof fn lemma_acquire_then_leave_restores(
    v: ManagerView,
    session: Seq<char>,
    seat: Seq<char>,
)
    requires
        v.wf(),
        grants_mirror_ownership(v),
        v.refusal(session, seat) is None,
    ensures
        v.acquired(session, seat).left(session, seat) == v,
{
    lemma_acquire_then_leave(v, session, seat);
    let k = v.seat_slot(seat).unwrap();
    let devices = v.seats[k].devices;
    let uid = acl_uid(v.sessions[v.session_slot(session).unwrap()].uid);
    assert forall|d: int| 0 <= d < devices.len() implies !has_user(
        v.access[(#[trigger] devices[d]).dev_name],
        uid,
    ) by {
        lemma_all_tracked(v.access, devices, d);
        assert(is_kept_device(v, k, d));
        assert(!holds_entry(v, k, d, uid));
    }
}

/// The removal of the session that owns a seat leaves the seat without an
/// owner, and any other session can then acquire it.
pub proof fn lemma_removal_frees_seat(
    v: ManagerView,
    owner: Seq<char>,
    other: Seq<char>,
    seat: Seq<char>,
)
    requires
        v.wf(),
        v.owner(seat) == Some(owner),
        v.session_slot(other) is Some,
        other != owner,
        untracked(v.access, v.seats[v.seat_slot(seat).unwrap()].devices) is None,
    ensures
        v.removed(owner).owner(seat) is None,
        v.removed(owner).refusal(other, seat) is None,
{
    let k = v.seat_slot(seat).unwrap();
    lemma_seat_slot(v, k);
    assert(v.owners[k] == Some(owner));
    assert(v.session_slot(owner) is Some);
    let i = v.session_slot(owner).unwrap();
    assert(v.sessions[i].id == owner);
    let c = v.owned_slot(owner).unwrap();
    assert(c == k);
    let released = v.left(owner, v.seats[k].id);
    let w = v.removed(owner);
    assert(w == ManagerView { sessions: released.sessions.remove(i), ..released });
    assert(w.seat_slot(seat) == v.seat_slot(seat));
    assert(w.owners[k] is None);
    let r = ManagerView { sessions: v.sessions, ..released };
    assert(r == released);
    lemma_lookup_after_removal(released, i, other);
    let devices = v.seats[k].devices;
    if exists|d: int| first_untracked(w.access, devices, d) {
        let d = choose|d: int| first_untracked(w.access, devices, d);
        lemma_all_tracked(v.access, devices, d);
    }
}

/// One operation of a session on the manager.
pub enum Step {
    /// A session is created for the process `pid` of the user `uid`; `made`
    /// says whether the file system made the session's group and moved the
    /// process into it.
    Create { pid: i32, uid: i32, tty: Option<Seq<char>>, made: bool },
    /// The session `session` is removed.
    Remove { session: Seq<char> },
    /// The session `session` asks for the seat `seat`.
    Acquire { session: Seq<char>, seat: Seq<char> },
    /// The session `session` leaves the seat `seat`.
    Leave { session: Seq<char>, seat: Seq<char> },
    /// The terminal `active` becomes the active one.
    Activate { active: Seq<char> },
}

/// Whether the manager carries `step` out. It refuses to create a session on
/// a terminal that is taken, when the counter has run out, while its own
/// group holds processes or cannot be read, and where the file system did
/// not do its part; it refuses a seat as `refusal` says; and nobody leaves a
/// seat or is a session that the manager does not know.
pub open spec fn carries_out(v: ManagerView, step: Step) -> bool {
    match step {
        Step::Create { pid, uid, tty, made } => {
            &&& tty is Some ==> v.tty_slot(tty.unwrap()) is None
            &&& v.counter < u64::MAX
            &&& members(v.cgroup) == Some(Seq::<i32>::empty())
            &&& made
        },
        Step::Remove { session } => true,
        Step::Acquire { session, seat } => v.refusal(session, seat) is None,
        Step::Leave { session, seat } => v.seat_slot(seat) is Some && v.session_slot(session)
            is Some,
        Step::Activate { active } => true,
    }
}

/// The state after `step`: the same state where the manager refuses.
pub open spec fn after(v: ManagerView, step: Step) -> ManagerView {
    if carries_out(v, step) {
        match step {
            Step::Create { pid, uid, tty, made } => v.created(pid, uid, tty),
            Step::Remove { session } => v.removed(session),
            Step::Acquire { session, seat } => v.acquired(session, seat),
            Step::Leave { session, seat } => v.left(session, seat),
            Step::Activate { active } => v.tty_activated(active),
        }
    } else {
        v
    }
}

/// Whether `step` takes the access of a seat's owner away without taking the
/// seat: a session leaves a seat that another session of the same user owns.
pub open spec fn strips_owner(v: ManagerView, step: Step) -> bool {
    match step {
        Step::Leave { session, seat } => {
            &&& carries_out(v, step)
            &&& v.owner(seat) is Some
            &&& v.owner(seat) != Some(session)
            &&& owner_uid(v, v.seat_slot(seat).unwrap()) == Some(
                acl_uid(v.sessions[v.session_slot(session).unwrap()].uid),
            )
        },
        _ => false,
    }
}

/// The state after the steps of `steps`, one after the other.
pub open spec fn run(v: ManagerView, steps: Seq<Step>) -> ManagerView
    decreases steps.len(),
{
    if steps.len() == 0 {
        v
    } else {
        after(run(v, steps.drop_last()), steps.last())
    }
}

/// Whether none of `steps`, taken one after the other, strips an owner.
pub open spec fn never_strips_owner(v: ManagerView, steps: Seq<Step>) -> bool
    decreases steps.len(),
{
    steps.len() == 0 || (never_strips_owner(v, steps.drop_last()) && !strips_owner(
        run(v, steps.drop_last()),
        steps.last(),
    ))
}

/// A manager that has just started has no seat, so device access mirrors
/// seat ownership.
pub proof fn lemma_start_mirrors(top: CgroupView)
    ensures
        grants_mirror_ownership(started(top)),
{
}

/// Every step leaves the manager in order.
pub proof fn lemma_step_keeps_order(v: ManagerView, step: Step)
    requires
        v.wf(),
    ensures
        after(v, step).wf(),
{
    if carries_out(v, step) {
        match step {
            Step::Create { pid, uid, tty, made } => lemma_created_wf(v, pid, uid, tty),
            Step::Remove { session } => lemma_removed_wf(v, session),
            Step::Acquire { session, seat } => lemma_acquired_wf(v, session, seat),
            Step::Leave { session, seat } => lemma_left_wf(v, session, seat),
            Step::Activate { active } => lemma_tty_activated_wf(v, active),
        }
    }
}

/// Every step that strips no owner keeps device access the mirror of seat
/// ownership.
pub proof fn lemma_step_keeps_mirror(v: ManagerView, step: Step)
    requires
        v.wf(),
        grants_mirror_ownership(v),
        !strips_owner(v, step),
    ensures
        grants_mirror_ownership(after(v, step)),
{
    if carries_out(v, step) {
        match step {
            Step::Create { pid, uid, tty, made } => lemma_create_keeps_mirror(v, pid, uid, tty),
            Step::Remove { session } => lemma_remove_keeps_mirror(v, session),
            Step::Acquire { session, seat } => lemma_acquire_keeps_mirror(v, session, seat),
            Step::Leave { session, seat } => lemma_leave_keeps_mirror(v, session, seat),
            Step::Activate { active } => lemma_tty_keeps_mirror(v, active),
        }
    }
}

/// Whatever the sessions do, one step after the other, the manager stays in
/// order, and device access stays the mirror of seat ownership as long as no
/// step strips an owner.
pub proof fn lemma_run_keeps_mirror(v: ManagerView, steps: Seq<Step>)
    requires
        v.wf(),
        grants_mirror_ownership(v),
        never_strips_owner(v, steps),
    ensures
        run(v, steps).wf(),
        grants_mirror_ownership(run(v, steps)),
    decreases steps.len(),
{
    if steps.len() > 0 {
        lemma_run_keeps_mirror(v, steps.drop_last());
        lemma_step_keeps_order(run(v, steps.drop_last()), steps.last());
        lemma_step_keeps_mirror(run(v, steps.drop_last()), steps.last());
    }
}

} // verus!

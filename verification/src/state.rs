//! The state of the manager as a mathematical value, and the steps that the
//! manager's operations take on it.

use crate::acl::{
    performed, performed_one, with_user, without_user, AclEntry, FileOperationView,
};
use crate::cgroupv2::{
    child_path, first_leaf, fresh_node, inner_node, own_node, text_bytes, with_child, CgroupView,
};
use crate::decimal::{
    as_text, decimal, lemma_as_text_injective, lemma_decimal_injective, signed_decimal,
};
use crate::seat::{
    distinct_names, has_name, lemma_upsert_all, upsert_all, DeviceView, SeatView,
};
use crate::text::{pieces, NEWLINE};
use vstd::prelude::*;

verus! {

/// What a `Session` stands for.
pub struct SessionView {
    /// The identifier: the decimal notation of `serial`.
    pub id: Seq<char>,
    /// What the manager's counter showed when the session was created.
    pub serial: nat,
    /// The name of the session's resource group.
    pub name: Seq<char>,
    /// The user that the session belongs to.
    pub uid: i32,
    /// The controlling terminal, if the session has one.
    pub tty: Option<Seq<char>>,
    /// The session's own resource group.
    pub cgroup: CgroupView,
}

/// Why a seat cannot be acquired, as far as the state of the manager says.
pub enum Refusal {
    /// The seat has an owner.
    SeatTaken,
    /// No seat has the name.
    UnknownSeat,
    /// No session has the identifier.
    UnknownSession,
    /// The device file at this path carries no access-control list.
    NoAcl(Seq<u8>),
}

/// The name of the seat that terminals belong to.
pub open spec fn default_seat() -> Seq<char> {
    "seat0"@
}

/// The user id under which access-control lists know the user `uid`: the
/// same 32 bits, read without a sign.
pub open spec fn acl_uid(uid: i32) -> u32 {
    if uid >= 0 {
        uid as u32
    } else {
        (uid + 0x1_0000_0000) as u32
    }
}

/// The name of the resource group of the session of user `uid` that was
/// created when the counter showed `serial`.
pub open spec fn session_name(uid: i32, serial: nat) -> Seq<char> {
    "User_"@ + as_text(signed_decimal(uid as int)) + "_Session_"@ + as_text(decimal(serial))
}

/// The lists of `access` after the user `uid` was granted access to every one
/// of `devices`.
pub open spec fn granted(
    access: Map<Seq<u8>, Seq<AclEntry>>,
    devices: Seq<DeviceView>,
    uid: u32,
) -> Map<Seq<u8>, Seq<AclEntry>> {
    Map::new(
        |path: Seq<u8>| access.dom().contains(path),
        |path: Seq<u8>|
            if has_name(devices, path) {
                with_user(access[path], uid)
            } else {
                access[path]
            },
    )
}

/// The lists of `access` after the access of the user `uid` to every one of
/// `devices` was revoked.
pub open spec fn revoked(
    access: Map<Seq<u8>, Seq<AclEntry>>,
    devices: Seq<DeviceView>,
    uid: u32,
) -> Map<Seq<u8>, Seq<AclEntry>> {
    Map::new(
        |path: Seq<u8>| access.dom().contains(path),
        |path: Seq<u8>|
            if has_name(devices, path) {
                without_user(access[path], uid)
            } else {
                access[path]
            },
    )
}

/// The operations that grant the user `uid` access to every one of
/// `devices`, in the order of the devices.
pub open spec fn grant_operations(devices: Seq<DeviceView>, uid: u32) -> Seq<FileOperationView> {
    Seq::new(
        devices.len(),
        |d: int| FileOperationView { path: devices[d].dev_name, uid, grant: true },
    )
}

/// The operations that revoke the access of the user `uid` to those of
/// `devices` whose files carry a list, in the order of the devices.
pub open spec fn revoke_operations(
    access: Map<Seq<u8>, Seq<AclEntry>>,
    devices: Seq<DeviceView>,
    uid: u32,
) -> Seq<FileOperationView>
    decreases devices.len(),
{
    if devices.len() == 0 {
        Seq::empty()
    } else {
        let before = revoke_operations(access, devices.drop_last(), uid);
        if access.dom().contains(devices.last().dev_name) {
            before.push(FileOperationView { path: devices.last().dev_name, uid, grant: false })
        } else {
            before
        }
    }
}

/// Whether `devices[i]` is the first device whose file carries no
/// access-control list.
pub open spec fn first_untracked(
    access: Map<Seq<u8>, Seq<AclEntry>>,
    devices: Seq<DeviceView>,
    i: int,
) -> bool {
    &&& 0 <= i < devices.len()
    &&& !access.dom().contains(devices[i].dev_name)
    &&& forall|j: int| 0 <= j < i ==> access.dom().contains((#[trigger] devices[j]).dev_name)
}

/// The path of the first device whose file carries no access-control list, if
/// there is such a device.
pub open spec fn untracked(access: Map<Seq<u8>, Seq<AclEntry>>, devices: Seq<DeviceView>) -> Option<
    Seq<u8>,
> {
    if exists|i: int| first_untracked(access, devices, i) {
        Some(devices[choose|i: int| first_untracked(access, devices, i)].dev_name)
    } else {
        None
    }
}

/// What a `SessionManager` stands for.
pub struct ManagerView {
    /// The sessions, oldest first.
    pub sessions: Seq<SessionView>,
    /// The seats.
    pub seats: Seq<SeatView>,
    /// For each seat, in the order of `seats`, the session that owns it.
    pub owners: Seq<Option<Seq<char>>>,
    /// The number of sessions created so far.
    pub counter: nat,
    /// The manager's resource group, below which the sessions' groups lie.
    pub cgroup: CgroupView,
    /// The child of the manager's group that holds the manager's own
    /// processes.
    pub own_leaf: CgroupView,
    /// The access-control lists of the device files, by path.
    pub access: Map<Seq<u8>, Seq<AclEntry>>,
}

impl ManagerView {
    /// Where the session `id` stands in the registry, if it is registered.
    pub open spec fn session_slot(self, id: Seq<char>) -> Option<int> {
        if exists|i: int| 0 <= i < self.sessions.len() && (#[trigger] self.sessions[i]).id == id {
            Some(
                choose|i: int|
                    0 <= i < self.sessions.len() && (#[trigger] self.sessions[i]).id == id,
            )
        } else {
            None
        }
    }

    /// Where the seat `id` stands among the seats, if there is such a seat.
    pub open spec fn seat_slot(self, id: Seq<char>) -> Option<int> {
        if exists|k: int| 0 <= k < self.seats.len() && (#[trigger] self.seats[k]).id == id {
            Some(choose|k: int| 0 <= k < self.seats.len() && (#[trigger] self.seats[k]).id == id)
        } else {
            None
        }
    }

    /// Where the session with the terminal `tty` stands in the registry, if
    /// a session has that terminal.
    pub open spec fn tty_slot(self, tty: Seq<char>) -> Option<int> {
        if exists|i: int|
            0 <= i < self.sessions.len() && (#[trigger] self.sessions[i]).tty == Some(tty) {
            Some(
                choose|i: int|
                    0 <= i < self.sessions.len() && (#[trigger] self.sessions[i]).tty == Some(tty),
            )
        } else {
            None
        }
    }

    /// Which seat the session `id` owns, if it owns one.
    pub open spec fn owned_slot(self, id: Seq<char>) -> Option<int> {
        if exists|k: int| 0 <= k < self.owners.len() && #[trigger] self.owners[k] == Some(id) {
            Some(choose|k: int| 0 <= k < self.owners.len() && #[trigger] self.owners[k] == Some(id))
        } else {
            None
        }
    }

    /// The session that owns the seat `seat`, if the seat is there and owned.
    pub open spec fn owner(self, seat: Seq<char>) -> Option<Seq<char>> {
        match self.seat_slot(seat) {
            Some(k) => self.owners[k],
            None => None,
        }
    }

    /// What holds of the manager at all times. There is no seat but the
    /// default seat, and every seat has an owner or none; no two devices of a
    /// seat share a path; every session's identifier is the decimal notation
    /// of its serial number, which is below the counter and above that of
    /// every older session, so no two sessions share an identifier; no two
    /// sessions share a terminal; and whoever owns a seat is registered.
    pub open spec fn wf(self) -> bool {
        &&& self.seats.len() == self.owners.len()
        &&& self.seats.len() <= 1
        &&& forall|k: int|
            0 <= k < self.seats.len() ==> (#[trigger] self.seats[k]).id == default_seat()
                && distinct_names(self.seats[k].devices)
        &&& forall|i: int|
            0 <= i < self.sessions.len() ==> (#[trigger] self.sessions[i]).id == as_text(
                decimal(self.sessions[i].serial),
            ) && self.sessions[i].serial < self.counter
        &&& forall|i: int, j: int|
            0 <= i < j < self.sessions.len() ==> (#[trigger] self.sessions[i]).serial < (
            #[trigger] self.sessions[j]).serial
        &&& forall|i: int, j: int|
            0 <= i < j < self.sessions.len() && (#[trigger] self.sessions[i]).tty is Some
                ==> self.sessions[i].tty != (#[trigger] self.sessions[j]).tty
        &&& forall|k: int|
            0 <= k < self.owners.len() && (#[trigger] self.owners[k]) is Some
                ==> self.session_slot(self.owners[k].unwrap()) is Some
    }

    /// Why the session `session` cannot acquire the seat `seat`, or `None`
    /// where it can. An owner of the seat is looked for first, whoever it is;
    /// then the seat and the session; then the devices' lists.
    pub open spec fn refusal(self, session: Seq<char>, seat: Seq<char>) -> Option<Refusal> {
        if self.owner(seat) is Some {
            Some(Refusal::SeatTaken)
        } else if self.seat_slot(seat) is None {
            Some(Refusal::UnknownSeat)
        } else if self.session_slot(session) is None {
            Some(Refusal::UnknownSession)
        } else {
            match untracked(self.access, self.seats[self.seat_slot(seat).unwrap()].devices) {
                Some(path) => Some(Refusal::NoAcl(path)),
                None => None,
            }
        }
    }

    /// The state after the session `session` acquired the seat `seat`: the
    /// session's user has access to every device of the seat, and the session
    /// owns the seat.
    pub open spec fn acquired(self, session: Seq<char>, seat: Seq<char>) -> ManagerView {
        let k = self.seat_slot(seat).unwrap();
        let uid = acl_uid(self.sessions[self.session_slot(session).unwrap()].uid);
        ManagerView {
            access: granted(self.access, self.seats[k].devices, uid),
            owners: self.owners.update(k, Some(session)),
            ..self
        }
    }

    /// The state after the session `session` left the seat `seat`: the
    /// session's user has no access of its own to any device of the seat, and
    /// the seat has no owner if the session owned it.
    pub open spec fn left(self, session: Seq<char>, seat: Seq<char>) -> ManagerView {
        let k = self.seat_slot(seat).unwrap();
        let uid = acl_uid(self.sessions[self.session_slot(session).unwrap()].uid);
        ManagerView {
            access: revoked(self.access, self.seats[k].devices, uid),
            owners: if self.owners[k] == Some(session) {
                self.owners.update(k, None)
            } else {
                self.owners
            },
            ..self
        }
    }

    /// What is to be done to the device files when the session `session`
    /// acquires the seat `seat`: nothing where the manager refuses.
    pub open spec fn acquire_operations(self, session: Seq<char>, seat: Seq<char>) -> Seq<
        FileOperationView,
    > {
        if self.refusal(session, seat) is None {
            grant_operations(
                self.seats[self.seat_slot(seat).unwrap()].devices,
                acl_uid(self.sessions[self.session_slot(session).unwrap()].uid),
            )
        } else {
            Seq::empty()
        }
    }

    /// What is to be done to the device files when the session `session`
    /// leaves the seat `seat`.
    pub open spec fn leave_operations(self, session: Seq<char>, seat: Seq<char>) -> Seq<
        FileOperationView,
    > {
        revoke_operations(
            self.access,
            self.seats[self.seat_slot(seat).unwrap()].devices,
            acl_uid(self.sessions[self.session_slot(session).unwrap()].uid),
        )
    }

    /// What is to be done to the device files when the session `session` is
    /// removed: what its leaving the seat that it owns asks for.
    pub open spec fn remove_operations(self, session: Seq<char>) -> Seq<FileOperationView> {
        match (self.session_slot(session), self.owned_slot(session)) {
            (Some(_), Some(k)) => self.leave_operations(session, self.seats[k].id),
            _ => Seq::empty(),
        }
    }

    /// What is to be done to the device files when the terminal `tty` becomes
    /// the active one.
    pub open spec fn tty_operations(self, tty: Seq<char>) -> Seq<FileOperationView> {
        match self.tty_slot(tty) {
            Some(i) => self.acquire_operations(self.sessions[i].id, default_seat()),
            None => Seq::empty(),
        }
    }

    /// The state after the session `session` was removed: it has left the
    /// seat that it owned, if it owned one, and is no longer registered. The
    /// same state where no such session is registered.
    pub open spec fn removed(self, session: Seq<char>) -> ManagerView {
        match self.session_slot(session) {
            Some(i) => {
                let released = match self.owned_slot(session) {
                    Some(k) => self.left(session, self.seats[k].id),
                    None => self,
                };
                ManagerView { sessions: released.sessions.remove(i), ..released }
            },
            None => self,
        }
    }

    /// The state after the terminal `tty` became the active one: the session
    /// on that terminal has acquired the default seat if it could. The same
    /// state where it could not, or where no session is on that terminal.
    pub open spec fn tty_activated(self, tty: Seq<char>) -> ManagerView {
        match self.tty_slot(tty) {
            Some(i) => {
                let session = self.sessions[i].id;
                if self.refusal(session, default_seat()) is None {
                    self.acquired(session, default_seat())
                } else {
                    self
                }
            },
            None => self,
        }
    }

    /// The state after a session was created for the process `pid` of the
    /// user `uid`: the session is the newest of the registry, it is named by
    /// the counter, which has moved on, and its resource group is a new child
    /// of the manager's group that holds `pid`. No seat changes hands.
    pub open spec fn created(self, pid: i32, uid: i32, tty: Option<Seq<char>>) -> ManagerView {
        let name = session_name(uid, self.counter);
        ManagerView {
            sessions: self.sessions.push(
                SessionView {
                    id: as_text(decimal(self.counter)),
                    serial: self.counter,
                    name,
                    uid,
                    tty,
                    cgroup: CgroupView {
                        procs: seq![signed_decimal(pid as int)],
                        ..fresh_node(child_path(self.cgroup.path, text_bytes(name)))
                    },
                },
            ),
            counter: self.counter + 1,
            cgroup: CgroupView {
                children: with_child(self.cgroup.children, text_bytes(name)),
                ..self.cgroup
            },
            ..self
        }
    }

    /// The state after device discovery reported `reported`: the default seat
    /// is there, and every seat has taken the reported devices in.
    pub open spec fn reloaded(self, reported: Seq<DeviceView>) -> ManagerView {
        if self.seats.len() == 0 {
            ManagerView {
                seats: seq![
                    SeatView {
                        id: default_seat(),
                        devices: upsert_all(Seq::empty(), reported),
                    },
                ],
                owners: seq![None],
                ..self
            }
        } else {
            ManagerView {
                seats: Seq::new(
                    self.seats.len(),
                    |k: int|
                        SeatView {
                            devices: upsert_all(self.seats[k].devices, reported),
                            ..self.seats[k]
                        },
                ),
                ..self
            }
        }
    }
}

/// The manager's own group as the manager finds it when it starts: the group
/// that the process's list of groups names, with `procs_content` as the text
/// of its membership record.
pub open spec fn top_node(proc_content: Seq<u8>, procs_content: Seq<u8>) -> Option<CgroupView> {
    match own_node(proc_content) {
        Some(node) => Some(CgroupView { procs: pieces(procs_content, NEWLINE), ..node }),
        None => None,
    }
}

/// The name of the child that takes the manager's own processes.
pub open spec fn own_leaf_name() -> Seq<u8> {
    text_bytes("sessionman_self"@)
}

/// The state of a manager that has just started in the group `top`: no
/// session, no seat, no list, and its own processes moved into a child of
/// `top`.
pub open spec fn started(top: CgroupView) -> ManagerView {
    ManagerView {
        sessions: Seq::empty(),
        seats: Seq::empty(),
        owners: Seq::empty(),
        counter: 0,
        cgroup: inner_node(top, own_leaf_name()),
        own_leaf: first_leaf(top, own_leaf_name()),
        access: Map::empty(),
    }
}

/// Two sessions of a manager have different identifiers.
pub proof fn lemma_distinct_ids(v: ManagerView, i: int, j: int)
    requires
        v.wf(),
        0 <= i < v.sessions.len(),
        0 <= j < v.sessions.len(),
        i != j,
    ensures
        v.sessions[i].id != v.sessions[j].id,
{
    let a = v.sessions[i].serial;
    let b = v.sessions[j].serial;
    if i < j {
        assert(v.sessions[i].serial < v.sessions[j].serial);
    } else {
        assert(v.sessions[j].serial < v.sessions[i].serial);
    }
    if v.sessions[i].id == v.sessions[j].id {
        lemma_as_text_injective(decimal(a), decimal(b));
        lemma_decimal_injective(a, b);
    }
}

/// A registered session is found where it stands.
pub proof fn lemma_session_slot(v: ManagerView, i: int)
    requires
        v.wf(),
        0 <= i < v.sessions.len(),
    ensures
        v.session_slot(v.sessions[i].id) == Some(i),
{
    let id = v.sessions[i].id;
    let j = choose|j: int| 0 <= j < v.sessions.len() && (#[trigger] v.sessions[j]).id == id;
    if j != i {
        lemma_distinct_ids(v, i, j);
    }
}

/// No two sessions of a manager are on the same terminal.
pub proof fn lemma_one_session_per_tty(v: ManagerView, i: int, j: int)
    requires
        v.wf(),
        0 <= i < v.sessions.len(),
        0 <= j < v.sessions.len(),
        i != j,
        v.sessions[i].tty is Some,
    ensures
        v.sessions[i].tty != v.sessions[j].tty,
{
    if i < j {
        assert(v.sessions[i].tty != v.sessions[j].tty);
    } else {
        if v.sessions[j].tty is Some {
            assert(v.sessions[j].tty != v.sessions[i].tty);
        }
    }
}

/// The session on a terminal is found where it stands.
pub proof fn lemma_tty_slot(v: ManagerView, i: int)
    requires
        v.wf(),
        0 <= i < v.sessions.len(),
        v.sessions[i].tty is Some,
    ensures
        v.tty_slot(v.sessions[i].tty.unwrap()) == Some(i),
{
    let tty = v.sessions[i].tty.unwrap();
    let j = choose|j: int| 0 <= j < v.sessions.len() && (#[trigger] v.sessions[j]).tty == Some(tty);
    if j < i {
        assert(v.sessions[j].tty != v.sessions[i].tty);
    } else if i < j {
        assert(v.sessions[i].tty != v.sessions[j].tty);
    }
}

/// Where no device is untracked, every device's file carries a list.
pub proof fn lemma_all_tracked(
    access: Map<Seq<u8>, Seq<AclEntry>>,
    devices: Seq<DeviceView>,
    j: int,
)
    requires
        untracked(access, devices) is None,
        0 <= j < devices.len(),
    ensures
        access.dom().contains(devices[j].dev_name),
    decreases j,
{
    if !access.dom().contains(devices[j].dev_name) {
        if exists|i: int| 0 <= i < j && !access.dom().contains((#[trigger] devices[i]).dev_name) {
            let i = choose|i: int|
                0 <= i < j && !access.dom().contains((#[trigger] devices[i]).dev_name);
            lemma_all_tracked(access, devices, i);
        } else {
            assert(first_untracked(access, devices, j));
        }
    }
}

/// The paths among the first `i + 1` devices are those among the first `i`
/// and that of the next.
pub proof fn lemma_prefix_names(devices: Seq<DeviceView>, i: int)
    requires
        0 <= i < devices.len(),
    ensures
        forall|path: Seq<u8>|
            has_name(devices.subrange(0, i + 1), path) <==> has_name(devices.subrange(0, i), path)
                || path == devices[i].dev_name,
{
    let shorter = devices.subrange(0, i);
    let longer = devices.subrange(0, i + 1);
    assert forall|path: Seq<u8>|
        has_name(longer, path) <==> has_name(shorter, path) || path == devices[i].dev_name by {
        if has_name(longer, path) {
            let j = choose|j: int| 0 <= j < longer.len() && (#[trigger] longer[j]).dev_name == path;
            if j < i {
                assert(shorter[j].dev_name == path);
            }
        }
        if has_name(shorter, path) {
            let j = choose|j: int|
                0 <= j < shorter.len() && (#[trigger] shorter[j]).dev_name == path;
            assert(longer[j].dev_name == path);
        }
        if path == devices[i].dev_name {
            assert(longer[i].dev_name == path);
        }
    }
}

/// A manager that has just started is in order.
pub proof fn lemma_started_wf(top: CgroupView)
    ensures
        started(top).wf(),
{
}

/// Taking in what discovery reported leaves the manager in order.
pub proof fn lemma_reloaded_wf(v: ManagerView, reported: Seq<DeviceView>)
    requires
        v.wf(),
    ensures
        v.reloaded(reported).wf(),
{
    let w = v.reloaded(reported);
    if v.seats.len() == 0 {
        lemma_upsert_all(Seq::empty(), reported);
        assert(w.owners[0] is None);
    } else {
        assert forall|k: int| 0 <= k < w.seats.len() implies (#[trigger] w.seats[k]).id
            == default_seat() && distinct_names(w.seats[k].devices) by {
            assert(v.seats[k].id == default_seat());
            lemma_upsert_all(v.seats[k].devices, reported);
        }
    }
}

/// Acquiring a seat leaves the manager in order.
pub proof fn lemma_acquired_wf(v: ManagerView, session: Seq<char>, seat: Seq<char>)
    requires
        v.wf(),
        v.refusal(session, seat) is None,
    ensures
        v.acquired(session, seat).wf(),
{
    let w = v.acquired(session, seat);
    let k0 = v.seat_slot(seat).unwrap();
    assert forall|k: int|
        0 <= k < w.owners.len() && (#[trigger] w.owners[k]) is Some implies w.session_slot(
        w.owners[k].unwrap(),
    ) is Some by {
        assert(k == k0);
    }
}

/// Leaving a seat leaves the manager in order.
pub proof fn lemma_left_wf(v: ManagerView, session: Seq<char>, seat: Seq<char>)
    requires
        v.wf(),
        v.seat_slot(seat) is Some,
        v.session_slot(session) is Some,
    ensures
        v.left(session, seat).wf(),
{
    let w = v.left(session, seat);
    assert forall|k: int|
        0 <= k < w.owners.len() && (#[trigger] w.owners[k]) is Some implies w.session_slot(
        w.owners[k].unwrap(),
    ) is Some by {
        assert(w.owners[k] == v.owners[k]);
    }
}

/// A seat is found where it stands, and that is the first place.
pub proof fn lemma_seat_slot(v: ManagerView, k: int)
    requires
        v.wf(),
        0 <= k < v.seats.len(),
    ensures
        v.seat_slot(v.seats[k].id) == Some(k),
        k == 0,
{
    let c = choose|c: int| 0 <= c < v.seats.len() && (#[trigger] v.seats[c]).id == v.seats[k].id;
    assert(c == 0);
}

/// The removal of a session leaves the manager in order.
pub proof fn lemma_removed_wf(v: ManagerView, session: Seq<char>)
    requires
        v.wf(),
    ensures
        v.removed(session).wf(),
{
    if v.session_slot(session) is Some {
        let i = v.session_slot(session).unwrap();
        assert(v.sessions[i].id == session);
        let released = match v.owned_slot(session) {
            Some(k) => v.left(session, v.seats[k].id),
            None => v,
        };
        if v.owned_slot(session) is Some {
            let k = v.owned_slot(session).unwrap();
            lemma_seat_slot(v, k);
            lemma_left_wf(v, session, v.seats[k].id);
        }
        assert(released.wf());
        assert(released.sessions == v.sessions);
        assert forall|k: int| 0 <= k < released.owners.len() implies (#[trigger] released.owners[k])
            != Some(session) by {
            if v.owned_slot(session) is None {
                assert(v.owners[k] != Some(session));
            }
        }
        let w = v.removed(session);
        let before = v.sessions;
        let after = w.sessions;
        assert(after == before.remove(i));
        assert forall|a: int, b: int| 0 <= a < b < after.len() implies (#[trigger] after[a]).serial
            < (#[trigger] after[b]).serial by {
            let a0 = if a < i {
                a
            } else {
                a + 1
            };
            let b0 = if b < i {
                b
            } else {
                b + 1
            };
            assert(before[a0].serial < before[b0].serial);
        }
        assert forall|a: int, b: int|
            0 <= a < b < after.len() && (#[trigger] after[a]).tty is Some implies after[a].tty != (
            #[trigger] after[b]).tty by {
            let a0 = if a < i {
                a
            } else {
                a + 1
            };
            let b0 = if b < i {
                b
            } else {
                b + 1
            };
            assert(before[a0].tty != before[b0].tty);
        }
        assert forall|j: int| 0 <= j < after.len() implies (#[trigger] after[j]).id == as_text(
            decimal(after[j].serial),
        ) && after[j].serial < w.counter by {
            let j0 = if j < i {
                j
            } else {
                j + 1
            };
            assert(after[j] == before[j0]);
        }
        assert forall|k: int|
            0 <= k < w.owners.len() && (#[trigger] w.owners[k]) is Some implies w.session_slot(
            w.owners[k].unwrap(),
        ) is Some by {
            let owner = released.owners[k].unwrap();
            assert(released.session_slot(owner) is Some);
            let j = released.session_slot(owner).unwrap();
            assert(before[j].id == owner);
            assert(j != i);
            let j1 = if j < i {
                j
            } else {
                j - 1
            };
            assert(after[j1].id == owner);
        }
    }
}

/// The activation of a terminal leaves the manager in order.
pub proof fn lemma_tty_activated_wf(v: ManagerView, tty: Seq<char>)
    requires
        v.wf(),
    ensures
        v.tty_activated(tty).wf(),
{
    if v.tty_slot(tty) is Some {
        let session = v.sessions[v.tty_slot(tty).unwrap()].id;
        if v.refusal(session, default_seat()) is None {
            lemma_acquired_wf(v, session, default_seat());
        }
    }
}

/// The creation of a session on a terminal that no session has, or on none,
/// leaves the manager in order.
pub proof fn lemma_created_wf(v: ManagerView, pid: i32, uid: i32, tty: Option<Seq<char>>)
    requires
        v.wf(),
        tty is Some ==> v.tty_slot(tty.unwrap()) is None,
    ensures
        v.created(pid, uid, tty).wf(),
{
    let w = v.created(pid, uid, tty);
    assert forall|a: int, b: int| 0 <= a < b < w.sessions.len() implies (
    #[trigger] w.sessions[a]).serial < (#[trigger] w.sessions[b]).serial by {
        if b < v.sessions.len() {
            assert(v.sessions[a].serial < v.sessions[b].serial);
        } else {
            assert(v.sessions[a].serial < v.counter);
        }
    }
    assert forall|a: int, b: int|
        0 <= a < b < w.sessions.len() && (#[trigger] w.sessions[a]).tty is Some
            implies w.sessions[a].tty
        != (#[trigger] w.sessions[b]).tty by {
        if b < v.sessions.len() {
            assert(v.sessions[a].tty != v.sessions[b].tty);
        } else {
            if tty is Some {
                assert(v.sessions[a].tty != Some(tty.unwrap()));
            }
        }
    }
    assert forall|j: int|
        0 <= j < w.sessions.len() implies (#[trigger] w.sessions[j]).id == as_text(
        decimal(w.sessions[j].serial),
    ) && w.sessions[j].serial < w.counter by {
        if j < v.sessions.len() {
            assert(w.sessions[j] == v.sessions[j]);
        }
    }
    assert forall|k: int|
        0 <= k < w.owners.len() && (#[trigger] w.owners[k]) is Some implies w.session_slot(
        w.owners[k].unwrap(),
    ) is Some by {
        let owner = v.owners[k].unwrap();
        let j = v.session_slot(owner).unwrap();
        assert(v.sessions[j].id == owner);
        assert(w.sessions[j].id == owner);
    }
}

/// Performing the operations that grant a user access to every device gives
/// the lists that `granted` describes.
pub proof fn lemma_grants_performed(
    access: Map<Seq<u8>, Seq<AclEntry>>,
    devices: Seq<DeviceView>,
    uid: u32,
)
    requires
        distinct_names(devices),
        untracked(access, devices) is None,
    ensures
        performed(access, grant_operations(devices, uid)) == granted(access, devices, uid),
    decreases devices.len(),
{
    let ops = grant_operations(devices, uid);
    if devices.len() == 0 {
        assert(granted(access, devices, uid) =~= access);
    } else {
        let n = devices.len() - 1;
        let shorter = devices.drop_last();
        assert(shorter =~= devices.subrange(0, n));
        assert(devices.subrange(0, n + 1) =~= devices);
        assert forall|j: int| 0 <= j < devices.len() implies access.dom().contains(
            (#[trigger] devices[j]).dev_name,
        ) by {
            lemma_all_tracked(access, devices, j);
        }
        assert(untracked(access, shorter) is None) by {
            if exists|i: int| first_untracked(access, shorter, i) {
                let i = choose|i: int| first_untracked(access, shorter, i);
                assert(access.dom().contains(devices[i].dev_name));
            }
        }
        lemma_grants_performed(access, shorter, uid);
        assert(ops.drop_last() =~= grant_operations(shorter, uid));
        lemma_prefix_names(devices, n);
        let path = devices[n].dev_name;
        assert(!has_name(shorter, path)) by {
            if has_name(shorter, path) {
                let j = choose|j: int|
                    0 <= j < shorter.len() && (#[trigger] shorter[j]).dev_name == path;
                assert(devices[j].dev_name != devices[n].dev_name);
            }
        }
        assert(performed_one(granted(access, shorter, uid), ops.last()) =~= granted(
            access,
            devices,
            uid,
        ));
    }
}

/// Performing the operations that revoke a user's access to every device
/// whose file carries a list gives the lists that `revoked` describes.
pub proof fn lemma_revokes_performed(
    access: Map<Seq<u8>, Seq<AclEntry>>,
    devices: Seq<DeviceView>,
    uid: u32,
)
    requires
        distinct_names(devices),
    ensures
        performed(access, revoke_operations(access, devices, uid)) == revoked(
            access,
            devices,
            uid,
        ),
    decreases devices.len(),
{
    if devices.len() == 0 {
        assert(revoked(access, devices, uid) =~= access);
    } else {
        let n = devices.len() - 1;
        let shorter = devices.drop_last();
        assert(shorter =~= devices.subrange(0, n));
        assert(devices.subrange(0, n + 1) =~= devices);
        lemma_revokes_performed(access, shorter, uid);
        lemma_prefix_names(devices, n);
        let path = devices[n].dev_name;
        assert(!has_name(shorter, path)) by {
            if has_name(shorter, path) {
                let j = choose|j: int|
                    0 <= j < shorter.len() && (#[trigger] shorter[j]).dev_name == path;
                assert(devices[j].dev_name != devices[n].dev_name);
            }
        }
        let before = revoke_operations(access, shorter, uid);
        if access.dom().contains(path) {
            let ops = revoke_operations(access, devices, uid);
            assert(ops.drop_last() =~= before);
            assert(performed_one(revoked(access, shorter, uid), ops.last()) =~= revoked(
                access,
                devices,
                uid,
            ));
        } else {
            assert(revoked(access, shorter, uid) =~= revoked(access, devices, uid));
        }
    }
}

/// The operations of an acquisition, performed on the lists from before it,
/// give the lists after it.
pub proof fn lemma_acquire_operations(v: ManagerView, session: Seq<char>, seat: Seq<char>)
    requires
        v.wf(),
        v.refusal(session, seat) is None,
    ensures
        performed(v.access, v.acquire_operations(session, seat)) == v.acquired(
            session,
            seat,
        ).access,
{
    let k = v.seat_slot(seat).unwrap();
    lemma_grants_performed(
        v.access,
        v.seats[k].devices,
        acl_uid(v.sessions[v.session_slot(session).unwrap()].uid),
    );
}

/// The operations of a leave, performed on the lists from before it, give
/// the lists after it.
pub proof fn lemma_leave_operations(v: ManagerView, session: Seq<char>, seat: Seq<char>)
    requires
        v.wf(),
        v.seat_slot(seat) is Some,
        v.session_slot(session) is Some,
    ensures
        performed(v.access, v.leave_operations(session, seat)) == v.left(session, seat).access,
{
    let k = v.seat_slot(seat).unwrap();
    lemma_revokes_performed(
        v.access,
        v.seats[k].devices,
        acl_uid(v.sessions[v.session_slot(session).unwrap()].uid),
    );
}

/// The operations of a removal, performed on the lists from before it, give
/// the lists after it.
pub proof fn lemma_remove_operations(v: ManagerView, session: Seq<char>)
    requires
        v.wf(),
    ensures
        performed(v.access, v.remove_operations(session)) == v.removed(session).access,
{
    if v.session_slot(session) is Some && v.owned_slot(session) is Some {
        let k = v.owned_slot(session).unwrap();
        lemma_seat_slot(v, k);
        lemma_leave_operations(v, session, v.seats[k].id);
    }
}

/// The operations of a terminal's activation, performed on the lists from
/// before it, give the lists after it.
pub proof fn lemma_tty_operations(v: ManagerView, tty: Seq<char>)
    requires
        v.wf(),
    ensures
        performed(v.access, v.tty_operations(tty)) == v.tty_activated(tty).access,
{
    if v.tty_slot(tty) is Some {
        let session = v.sessions[v.tty_slot(tty).unwrap()].id;
        if v.refusal(session, default_seat()) is None {
            lemma_acquire_operations(v, session, default_seat());
        }
    }
}

} // verus!

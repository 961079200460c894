//! Sessions, and the manager that arbitrates the seats among them.
//!
//! The manager holds the registry of sessions, the seats, who owns which
//! seat, the manager's own resource group, and the access-control lists of
//! the device files. Every operation is a step of one state machine: its
//! contract gives the state after the step as a function of the state before
//! it.

use crate::acl;
use crate::acl::{
    operation_views, performed, AclEntry, DeviceAccess, FileOperation, FileOperationView,
};
use crate::cgroupv2;
use crate::cgroupv2::{
    can_make_inner, can_make_leaf, child_path, is_inner_failure, is_leaf_failure, join,
    text_bytes, Cgroup, CgroupView,
};
use crate::decimal::{
    as_text, decimal, decimal_string, format_i32, format_u64, lemma_decimal_value, push_decimal,
    signed_decimal,
};
use crate::seat;
use crate::seat::{device_views, distinct_names, has_name, Device, Seat, SeatId, SeatView};
use crate::state::{
    acl_uid, first_untracked, grant_operations, granted, lemma_acquire_operations,
    lemma_acquired_wf, lemma_all_tracked, lemma_created_wf, lemma_leave_operations,
    lemma_remove_operations, lemma_tty_operations, revoke_operations,
    lemma_left_wf, lemma_prefix_names, lemma_reloaded_wf, lemma_removed_wf, lemma_seat_slot,
    lemma_session_slot,
    lemma_tty_slot, revoked, session_name, started, top_node, untracked, ManagerView, Refusal,
    SessionView,
};
use crate::text::{copy, pieces, NEWLINE};
use vstd::prelude::*;
use vstd::std_specs::cmp::PartialEqSpecImpl;
use vstd::std_specs::convert::FromSpecImpl;
use vstd::string::StringExecFns;

verus! {

/// The identifier of a session: the decimal notation of the number that the
/// manager's counter showed when the session was created.
#[derive(Debug, Eq, Hash)]
pub struct SessionId {
    id: String,
}

impl View for SessionId {
    type V = Seq<char>;

    closed spec fn view(&self) -> Seq<char> {
        self.id@
    }
}

impl PartialEq for SessionId {
    fn eq(&self, other: &SessionId) -> (r: bool) {
        self.id == other.id
    }
}

impl PartialEqSpecImpl for SessionId {
    open spec fn obeys_eq_spec() -> bool {
        true
    }

    open spec fn eq_spec(&self, other: &SessionId) -> bool {
        self@ == other@
    }
}

impl Clone for SessionId {
    fn clone(&self) -> (r: SessionId)
        ensures
            r@ == self@,
    {
        SessionId { id: self.id.clone() }
    }
}

impl<'a> From<&'a str> for SessionId {
    fn from(r: &'a str) -> (id: SessionId)
        ensures
            id@ == r@,
    {
        SessionId { id: r.to_owned() }
    }
}

impl<'a> FromSpecImpl<&'a str> for SessionId {
    open spec fn obeys_from_spec() -> bool {
        false
    }

    open spec fn from_spec(r: &'a str) -> SessionId {
        arbitrary()
    }
}

impl SessionId {
    /// The identifier as text.
    pub fn as_str(&self) -> (r: &str)
        ensures
            r@ == self@,
    {
        self.id.as_str()
    }
}

/// One login: a user, a process group in a resource group of its own, and
/// maybe a controlling terminal.
#[derive(Debug)]
pub struct Session {
    id: SessionId,
    serial: u64,
    name: String,
    uid: i32,
    tty: Option<String>,
    cgroup: Cgroup,
}

impl View for Session {
    type V = SessionView;

    closed spec fn view(&self) -> SessionView {
        SessionView {
            id: self.id@,
            serial: self.serial as nat,
            name: self.name@,
            uid: self.uid,
            tty: match self.tty {
                Some(tty) => Some(tty@),
                None => None,
            },
            cgroup: self.cgroup@,
        }
    }
}

impl Session {
    /// The identifier of the session.
    pub fn id(&self) -> (r: &SessionId)
        ensures
            r@ == self@.id,
    {
        &self.id
    }

    /// The name of the session's resource group.
    pub fn name(&self) -> (r: &str)
        ensures
            r@ == self@.name,
    {
        self.name.as_str()
    }

    /// The user that the session belongs to.
    pub fn uid(&self) -> (r: i32)
        ensures
            r == self@.uid,
    {
        self.uid
    }

    /// The controlling terminal, if the session has one.
    pub fn tty(&self) -> (r: Option<&str>)
        ensures
            match r {
                Some(tty) => self@.tty == Some(tty@),
                None => self@.tty is None,
            },
    {
        match &self.tty {
            Some(tty) => Some(tty.as_str()),
            None => None,
        }
    }

    /// The session's own resource group.
    pub fn cgroup(&self) -> (r: &Cgroup)
        ensures
            r@ == self@.cgroup,
    {
        &self.cgroup
    }
}

/// Why no session was created.
#[derive(Debug)]
pub enum Error {
    /// A session has this terminal already.
    SessionExistsOnTTY(String),
    /// No resource group could be created for the session.
    CantCreateCgroup(cgroupv2::Error),
    /// The session's process could not be moved into its resource group.
    CantMoveCgroup(cgroupv2::Error),
    /// The counter of sessions has run out: no identifier is left that was
    /// never used.
    CounterExhausted,
}

/// Why a seat was not acquired or left.
#[derive(Debug)]
pub enum AquireError {
    /// The seat has an owner. Carries the session that asked for it.
    SeatTaken(SessionId),
    /// No seat has this name.
    UnknownSeat(SeatId),
    /// No session has this identifier.
    UnknownSession(SessionId),
    /// Access to a device of the seat could not be granted.
    NoAccess(acl::Error),
}


/// What an optional terminal name stands for.
pub open spec fn tty_view(tty: Option<String>) -> Option<Seq<char>> {
    match tty {
        Some(tty) => Some(tty@),
        None => None,
    }
}

/// Whether the manager registers a new session on the terminal `tty`, where
/// the file system answered `created` when the session's group was to be made
/// and `moved` when the session's process was to be moved into it: no session
/// has the terminal, the counter has not run out, the manager's group can
/// have a leaf, and the process was moved.
pub open spec fn can_create(
    v: ManagerView,
    tty: Option<Seq<char>>,
    created: Result<(), cgroupv2::Error>,
    moved: Result<(), cgroupv2::Error>,
) -> bool {
    &&& tty is Some ==> v.tty_slot(tty.unwrap()) is None
    &&& v.counter < u64::MAX
    &&& can_make_leaf(v.cgroup, created)
    &&& moved is Ok
}

/// Whether `e` says why the manager registers no new session. The terminal
/// is looked at first, then the counter, then the manager's group and
/// whether the session's group was made, and last whether the process was
/// moved.
pub open spec fn is_creation_failure(
    e: Error,
    v: ManagerView,
    tty: Option<Seq<char>>,
    created: Result<(), cgroupv2::Error>,
    moved: Result<(), cgroupv2::Error>,
) -> bool {
    if tty is Some && v.tty_slot(tty.unwrap()) is Some {
        e matches Error::SessionExistsOnTTY(taken) && taken@ == tty.unwrap()
    } else if v.counter >= u64::MAX {
        e is CounterExhausted
    } else if !can_make_leaf(v.cgroup, created) {
        e matches Error::CantCreateCgroup(why) && is_leaf_failure(why, v.cgroup, created)
    } else {
        e matches Error::CantMoveCgroup(why) && moved == Err::<(), cgroupv2::Error>(why)
    }
}

/// The path of the group that the next session of the user `uid` gets.
pub open spec fn next_group_path(v: ManagerView, uid: i32) -> Seq<u8> {
    child_path(v.cgroup.path, text_bytes(session_name(uid, v.counter)))
}

/// The user id under which access-control lists know the user `uid`.
pub fn acl_uid_of(uid: i32) -> (r: u32)
    ensures
        r == acl_uid(uid),
{
    if uid >= 0 {
        uid as u32
    } else {
        ((uid as i64) + 0x1_0000_0000) as u32
    }
}

/// The first of `devices` whose file carries no access-control list.
fn find_untracked(access: &DeviceAccess, devices: &Vec<Device>) -> (r: Option<usize>)
    requires
        access.wf(),
    ensures
        match r {
            Some(i) => i < devices.len() && untracked(access@, device_views(devices@)) == Some(
                devices[i as int].dev_name@,
            ),
            None => untracked(access@, device_views(devices@)) is None,
        },
{
    let ghost views = device_views(devices@);
    let mut i: usize = 0;
    while i < devices.len()
        invariant
            i <= devices.len(),
            access.wf(),
            views == device_views(devices@),
            forall|j: int| 0 <= j < i ==> access@.dom().contains((#[trigger] views[j]).dev_name),
        decreases devices.len() - i,
    {
        if !access.is_tracked(devices[i].dev_name.as_slice()) {
            proof {
                assert(views[i as int].dev_name == devices[i as int].dev_name@);
                assert(first_untracked(access@, views, i as int));
                let c = choose|c: int| first_untracked(access@, views, c);
                if c < i {
                    assert(access@.dom().contains(views[c].dev_name));
                } else if i < c {
                    assert(access@.dom().contains(views[i as int].dev_name));
                }
            }
            return Some(i);
        }
        proof {
            assert(views[i as int].dev_name == devices[i as int].dev_name@);
        }
        i = i + 1;
    }
    proof {
        if exists|c: int| first_untracked(access@, views, c) {
            let c = choose|c: int| first_untracked(access@, views, c);
            assert(access@.dom().contains(views[c].dev_name));
        }
    }
    None
}

/// Grants the user `uid` access to every one of `devices`, and says what is
/// to be done to the device files for it.
fn grant_all(access: &mut DeviceAccess, devices: &Vec<Device>, uid: u32) -> (ops: Vec<
    FileOperation,
>)
    requires
        old(access).wf(),
        distinct_names(device_views(devices@)),
        untracked(old(access)@, device_views(devices@)) is None,
    ensures
        final(access).wf(),
        final(access)@ == granted(old(access)@, device_views(devices@), uid),
        operation_views(ops@) == grant_operations(device_views(devices@), uid),
{
    let mut ops: Vec<FileOperation> = Vec::new();
    let ghost views = device_views(devices@);
    let ghost before = access@;
    proof {
        assert forall|j: int| 0 <= j < views.len() implies before.dom().contains(
            (#[trigger] views[j]).dev_name,
        ) by {
            lemma_all_tracked(before, views, j);
        }
        assert(access@ =~= granted(before, views.subrange(0, 0), uid));
        assert(operation_views(ops@) =~= grant_operations(views.subrange(0, 0), uid));
    }
    let mut i: usize = 0;
    while i < devices.len()
        invariant
            i <= devices.len(),
            access.wf(),
            views == device_views(devices@),
            distinct_names(views),
            forall|j: int| 0 <= j < views.len() ==> before.dom().contains(
                (#[trigger] views[j]).dev_name,
            ),
            access@ == granted(before, views.subrange(0, i as int), uid),
            operation_views(ops@) == grant_operations(views.subrange(0, i as int), uid),
        decreases devices.len() - i,
    {
        let ghost path = views[i as int].dev_name;
        let ghost listed = operation_views(ops@);
        proof {
            assert(path == devices[i as int].dev_name@);
            assert(before.dom().contains(path));
            assert(!has_name(views.subrange(0, i as int), path)) by {
                if has_name(views.subrange(0, i as int), path) {
                    let j = choose|j: int|
                        0 <= j < i && (#[trigger] views.subrange(0, i as int)[j]).dev_name == path;
                    assert(views[j].dev_name != views[i as int].dev_name);
                }
            }
        }
        let _ = access.grant(devices[i].dev_name.as_slice(), uid);
        ops.push(FileOperation { path: copy(devices[i].dev_name.as_slice()), uid, grant: true });
        proof {
            lemma_prefix_names(views, i as int);
            assert(access@ =~= granted(before, views.subrange(0, i + 1), uid));
            assert(operation_views(ops@) =~= listed.push(
                FileOperationView { path, uid, grant: true },
            ));
            assert(operation_views(ops@) =~= grant_operations(views.subrange(0, i + 1), uid));
        }
        i = i + 1;
    }
    proof {
        assert(views.subrange(0, views.len() as int) =~= views);
    }
    ops
}

/// Revokes the access of the user `uid` to every one of `devices`, and says
/// what is to be done to the device files for it.
fn revoke_all(access: &mut DeviceAccess, devices: &Vec<Device>, uid: u32) -> (ops: Vec<
    FileOperation,
>)
    requires
        old(access).wf(),
        distinct_names(device_views(devices@)),
    ensures
        final(access).wf(),
        final(access)@ == revoked(old(access)@, device_views(devices@), uid),
        operation_views(ops@) == revoke_operations(old(access)@, device_views(devices@), uid),
{
    let mut ops: Vec<FileOperation> = Vec::new();
    let ghost views = device_views(devices@);
    let ghost before = access@;
    proof {
        assert(access@ =~= revoked(before, views.subrange(0, 0), uid));
        assert(operation_views(ops@) =~= revoke_operations(before, views.subrange(0, 0), uid));
    }
    let mut i: usize = 0;
    while i < devices.len()
        invariant
            i <= devices.len(),
            access.wf(),
            views == device_views(devices@),
            distinct_names(views),
            access@ == revoked(before, views.subrange(0, i as int), uid),
            operation_views(ops@) == revoke_operations(before, views.subrange(0, i as int), uid),
        decreases devices.len() - i,
    {
        let ghost path = views[i as int].dev_name;
        let ghost listed = operation_views(ops@);
        proof {
            assert(path == devices[i as int].dev_name@);
            assert(!has_name(views.subrange(0, i as int), path)) by {
                if has_name(views.subrange(0, i as int), path) {
                    let j = choose|j: int|
                        0 <= j < i && (#[trigger] views.subrange(0, i as int)[j]).dev_name == path;
                    assert(views[j].dev_name != views[i as int].dev_name);
                }
            }
        }
        if access.is_tracked(devices[i].dev_name.as_slice()) {
            access.revoke(devices[i].dev_name.as_slice(), uid);
            ops.push(
                FileOperation { path: copy(devices[i].dev_name.as_slice()), uid, grant: false },
            );
        }
        proof {
            lemma_prefix_names(views, i as int);
            assert(access@ =~= revoked(before, views.subrange(0, i + 1), uid));
            let longer = views.subrange(0, i + 1);
            assert(longer.drop_last() =~= views.subrange(0, i as int));
            assert(longer.last() == views[i as int]);
            assert(before.dom().contains(path) == access@.dom().contains(path));
            if before.dom().contains(path) {
                assert(operation_views(ops@) =~= listed.push(
                    FileOperationView { path, uid, grant: false },
                ));
            } else {
                assert(operation_views(ops@) =~= listed);
            }
            assert(operation_views(ops@) =~= revoke_operations(before, longer, uid));
        }
        i = i + 1;
    }
    proof {
        assert(views.subrange(0, views.len() as int) =~= views);
    }
    ops
}

/// The sessions, the seats and what else the manager arbitrates.
#[derive(Debug)]
pub struct SessionManager {
    sessions: Vec<Session>,
    seats: Vec<Seat>,
    owners: Vec<Option<SessionId>>,
    session_counter: u64,
    cgroup: Cgroup,
    own_leaf: Cgroup,
    access: DeviceAccess,
}

/// The contents of a list of sessions.
pub open spec fn session_views(sessions: Seq<Session>) -> Seq<SessionView> {
    Seq::new(sessions.len(), |i: int| sessions[i]@)
}

/// The contents of a list of seats.
pub open spec fn seat_views(seats: Seq<Seat>) -> Seq<SeatView> {
    Seq::new(seats.len(), |k: int| seats[k]@)
}

/// The contents of a list of owners.
pub open spec fn owner_views(owners: Seq<Option<SessionId>>) -> Seq<Option<Seq<char>>> {
    Seq::new(
        owners.len(),
        |k: int|
            match owners[k] {
                Some(id) => Some(id@),
                None => None,
            },
    )
}

impl View for SessionManager {
    type V = ManagerView;

    closed spec fn view(&self) -> ManagerView {
        ManagerView {
            sessions: session_views(self.sessions@),
            seats: seat_views(self.seats@),
            owners: owner_views(self.owners@),
            counter: self.session_counter as nat,
            cgroup: self.cgroup@,
            own_leaf: self.own_leaf@,
            access: self.access@,
        }
    }
}

impl SessionManager {
    /// What holds of the manager at all times: see `ManagerView::wf`.
    pub closed spec fn wf(&self) -> bool {
        self@.wf() && self.access.wf() && self@.counter <= u64::MAX
    }

    /// A manager in order stands for a state in order.
    pub proof fn lemma_wf(&self)
        requires
            self.wf(),
        ensures
            self@.wf(),
            self@.counter <= u64::MAX,
    {
    }

    /// Starts the manager in the group that `proc_content`, the text of the
    /// process's list of groups, names. `procs_content` is the text of that
    /// group's membership record: the processes that it lists move into a
    /// child, so that the group can hold the sessions' groups. `created` and
    /// `moved` are what the file system answered when that child was to be
    /// made and the processes were to be moved into it.
    pub fn new(
        proc_content: &[u8],
        procs_content: &[u8],
        created: Result<(), cgroupv2::Error>,
        moved: Result<(), cgroupv2::Error>,
    ) -> (r: Result<SessionManager, cgroupv2::Error>)
        ensures
            match r {
                Ok(manager) => {
                    &&& manager.wf()
                    &&& top_node(proc_content@, procs_content@) is Some
                    &&& can_make_inner(
                        top_node(proc_content@, procs_content@).unwrap(),
                        created,
                        moved,
                    )
                    &&& manager@ == started(top_node(proc_content@, procs_content@).unwrap())
                },
                Err(e) => match top_node(proc_content@, procs_content@) {
                    Some(top) => !can_make_inner(top, created, moved) && is_inner_failure(
                        e,
                        top,
                        created,
                        moved,
                    ),
                    None => e is NoCgroupv2,
                },
            },
    {
        let mut top_cgroup = match Cgroup::new_self(proc_content) {
            Ok(group) => group,
            Err(e) => {
                return Err(e);
            },
        };
        top_cgroup.load_procs(procs_content);
        let own_leaf = match top_cgroup.make_inner_node("sessionman_self", created, moved) {
            Ok(leaf) => leaf,
            Err(e) => {
                return Err(e);
            },
        };
        let manager = SessionManager {
            sessions: Vec::new(),
            seats: Vec::new(),
            owners: Vec::new(),
            session_counter: 0,
            cgroup: top_cgroup,
            own_leaf,
            access: DeviceAccess::new(),
        };
        proof {
            assert(manager@.sessions =~= Seq::<SessionView>::empty());
            assert(manager@.seats =~= Seq::<SeatView>::empty());
            assert(manager@.owners =~= Seq::<Option<Seq<char>>>::empty());
        }
        Ok(manager)
    }

    /// The manager's resource group.
    pub fn cgroup(&self) -> (r: &Cgroup)
        ensures
            r@ == self@.cgroup,
    {
        &self.cgroup
    }

    /// Takes `content` as the text of the membership record of the manager's
    /// group, as it was read from the group.
    pub fn load_procs(&mut self, content: &[u8])
        requires
            old(self).wf(),
        ensures
            final(self).wf(),
            final(self)@ == (ManagerView {
                cgroup: CgroupView { procs: pieces(content@, NEWLINE), ..old(self)@.cgroup },
                ..old(self)@
            }),
    {
        self.cgroup.load_procs(content);
    }

    /// Records whether the control files of the manager's group can still be
    /// reached.
    pub fn set_present(&mut self, present: bool)
        requires
            old(self).wf(),
        ensures
            final(self).wf(),
            final(self)@ == (ManagerView {
                cgroup: CgroupView { present, ..old(self)@.cgroup },
                ..old(self)@
            }),
    {
        self.cgroup.set_present(present);
    }

    /// The child of the manager's group that holds the manager's own
    /// processes.
    pub fn own_leaf(&self) -> (r: &Cgroup)
        ensures
            r@ == self@.own_leaf,
    {
        &self.own_leaf
    }

    /// The number of sessions created so far.
    pub fn session_counter(&self) -> (r: u64)
        ensures
            r == self@.counter,
    {
        self.session_counter
    }

    /// The seats.
    pub fn seats(&self) -> (r: &Vec<Seat>)
        ensures
            seat_views(r@) == self@.seats,
    {
        &self.seats
    }

    /// The sessions, oldest first.
    pub fn sessions(&self) -> (r: &Vec<Session>)
        ensures
            session_views(r@) == self@.sessions,
    {
        &self.sessions
    }

    fn find_session(&self, id: &SessionId) -> (r: Option<usize>)
        requires
            self.wf(),
        ensures
            match r {
                Some(i) => i < self.sessions.len() && self@.session_slot(id@) == Some(i as int),
                None => self@.session_slot(id@) is None,
            },
    {
        let mut i: usize = 0;
        while i < self.sessions.len()
            invariant
                i <= self.sessions.len(),
                self.wf(),
                forall|j: int| 0 <= j < i ==> (#[trigger] self@.sessions[j]).id != id@,
            decreases self.sessions.len() - i,
        {
            if self.sessions[i].id == *id {
                proof {
                    assert(self@.sessions[i as int].id == id@);
                    lemma_session_slot(self@, i as int);
                }
                return Some(i);
            }
            proof {
                assert(self@.sessions[i as int].id != id@);
            }
            i = i + 1;
        }
        None
    }

    fn find_seat(&self, id: &SeatId) -> (r: Option<usize>)
        requires
            self.wf(),
        ensures
            match r {
                Some(k) => k < self.seats.len() && self@.seat_slot(id@) == Some(k as int),
                None => self@.seat_slot(id@) is None,
            },
    {
        let mut k: usize = 0;
        while k < self.seats.len()
            invariant
                k <= self.seats.len(),
                self.wf(),
                forall|j: int| 0 <= j < k ==> (#[trigger] self@.seats[j]).id != id@,
            decreases self.seats.len() - k,
        {
            if *self.seats[k].id() == *id {
                proof {
                    assert(self@.seats[k as int].id == id@);
                }
                return Some(k);
            }
            proof {
                assert(self@.seats[k as int].id != id@);
            }
            k = k + 1;
        }
        None
    }

    /// The seat `id`.
    pub fn seat(&self, id: &SeatId) -> (r: Result<&Seat, AquireError>)
        requires
            self.wf(),
        ensures
            match r {
                Ok(seat) => self@.seat_slot(id@) is Some && seat@
                    == self@.seats[self@.seat_slot(id@).unwrap()],
                Err(AquireError::UnknownSeat(unknown)) => self@.seat_slot(id@) is None
                    && unknown@ == id@,
                Err(_) => false,
            },
    {
        match self.find_seat(id) {
            Some(k) => Ok(&self.seats[k]),
            None => Err(AquireError::UnknownSeat(id.clone())),
        }
    }

    /// The session `id`.
    pub fn session(&self, id: &SessionId) -> (r: Result<&Session, AquireError>)
        requires
            self.wf(),
        ensures
            match r {
                Ok(session) => self@.session_slot(id@) is Some && session@
                    == self@.sessions[self@.session_slot(id@).unwrap()],
                Err(AquireError::UnknownSession(unknown)) => self@.session_slot(id@) is None
                    && unknown@ == id@,
                Err(_) => false,
            },
    {
        match self.find_session(id) {
            Some(i) => Ok(&self.sessions[i]),
            None => Err(AquireError::UnknownSession(id.clone())),
        }
    }

    /// The session that owns the seat `seat`, if the seat is there and owned.
    pub fn owner(&self, seat: &SeatId) -> (r: Option<SessionId>)
        requires
            self.wf(),
        ensures
            match r {
                Some(id) => self@.owner(seat@) == Some(id@),
                None => self@.owner(seat@) is None,
            },
    {
        match self.find_seat(seat) {
            Some(k) => match &self.owners[k] {
                Some(id) => {
                    proof {
                        assert(self@.owners[k as int] == Some(id@));
                    }
                    Some(id.clone())
                },
                None => {
                    proof {
                        assert(self@.owners[k as int] is None);
                    }
                    None
                },
            },
            None => None,
        }
    }

    /// The access-control list that is kept for the device file at `path`.
    pub fn acl(&self, path: &[u8]) -> (r: Option<&Vec<AclEntry>>)
        requires
            self.wf(),
        ensures
            match r {
                Some(entries) => self@.access.dom().contains(path@) && entries@
                    == self@.access[path@],
                None => !self@.access.dom().contains(path@),
            },
    {
        self.access.entries(path)
    }

    /// Takes `entries` as the access-control list of the device file at
    /// `path`, as it was read from the file.
    pub fn track_acl(&mut self, path: &[u8], entries: Vec<AclEntry>)
        requires
            old(self).wf(),
        ensures
            final(self).wf(),
            final(self)@ == (ManagerView {
                access: old(self)@.access.insert(path@, entries@),
                ..old(self)@
            }),
    {
        self.access.track(path, entries);
    }

    /// The session whose terminal is `tty`, if there is one.
    pub fn get_session_for_tty(&self, tty: &String) -> (r: Option<SessionId>)
        requires
            self.wf(),
        ensures
            match r {
                Some(id) => self@.tty_slot(tty@) is Some && id@
                    == self@.sessions[self@.tty_slot(tty@).unwrap()].id,
                None => self@.tty_slot(tty@) is None,
            },
    {
        let mut i: usize = 0;
        while i < self.sessions.len()
            invariant
                i <= self.sessions.len(),
                self.wf(),
                forall|j: int| 0 <= j < i ==> (#[trigger] self@.sessions[j]).tty != Some(tty@),
            decreases self.sessions.len() - i,
        {
            let found = match &self.sessions[i].tty {
                Some(ses_tty) => *ses_tty == *tty,
                None => false,
            };
            proof {
                assert(found == (self@.sessions[i as int].tty == Some(tty@)));
            }
            if found {
                proof {
                    lemma_tty_slot(self@, i as int);
                }
                return Some(self.sessions[i].id.clone());
            }
            i = i + 1;
        }
        None
    }

    /// Takes in what device discovery reported. The first time, the default
    /// seat is made from it; later every seat takes the reported devices in.
    /// Nobody's ownership of a seat changes.
    pub fn reload_seats(&mut self, reported: &Vec<Device>) -> (r: Result<(), seat::Error>)
        requires
            old(self).wf(),
        ensures
            r is Ok,
            final(self).wf(),
            final(self)@ == old(self)@.reloaded(device_views(reported@)),
    {
        if self.seats.len() == 0 {
            let seat = match Seat::get_seat("seat0", reported) {
                Ok(seat) => seat,
                Err(e) => {
                    return Err(e);
                },
            };
            self.seats.push(seat);
            self.owners.push(None);
            proof {
                assert(self@.seats =~= old(self)@.reloaded(device_views(reported@)).seats);
                assert(self@.owners =~= old(self)@.reloaded(device_views(reported@)).owners);
                lemma_reloaded_wf(old(self)@, device_views(reported@));
            }
        } else {
            let mut seat = self.seats.remove(0);
            proof {
                assert(seat@ == old(self)@.seats[0]);
            }
            let _ = seat.reload_devices(reported);
            self.seats.insert(0, seat);
            proof {
                assert(self@.seats =~= old(self)@.reloaded(device_views(reported@)).seats);
                lemma_reloaded_wf(old(self)@, device_views(reported@));
            }
        }
        Ok(())
    }

    /// Lets the session `session_id` acquire the seat `seat_id`: the
    /// session's user is granted access to every device of the seat, and the
    /// session becomes the seat's owner. A seat that has an owner is not
    /// given away, not even to its owner. Where the manager refuses, nothing
    /// changes.
    pub fn session_aquire_seat(&mut self, session_id: &SessionId, seat_id: &SeatId) -> (r: Result<
        Vec<FileOperation>,
        AquireError,
    >)
        requires
            old(self).wf(),
        ensures
            final(self).wf(),
            match r {
                Ok(ops) => {
                    &&& old(self)@.refusal(session_id@, seat_id@) is None
                    &&& final(self)@ == old(self)@.acquired(session_id@, seat_id@)
                    &&& operation_views(ops@) == old(self)@.acquire_operations(
                        session_id@,
                        seat_id@,
                    )
                    &&& performed(old(self)@.access, operation_views(ops@)) == final(self)@.access
                },
                Err(e) => {
                    &&& final(self)@ == old(self)@
                    &&& match e {
                        AquireError::SeatTaken(id) => id@ == session_id@ && old(self)@.refusal(
                            session_id@,
                            seat_id@,
                        ) == Some(Refusal::SeatTaken),
                        AquireError::UnknownSeat(id) => id@ == seat_id@ && old(self)@.refusal(
                            session_id@,
                            seat_id@,
                        ) == Some(Refusal::UnknownSeat),
                        AquireError::UnknownSession(id) => id@ == session_id@ && old(
                            self,
                        )@.refusal(session_id@, seat_id@) == Some(Refusal::UnknownSession),
                        AquireError::NoAccess(acl::Error::NoAcl(path)) => old(self)@.refusal(
                            session_id@,
                            seat_id@,
                        ) == Some(Refusal::NoAcl(path@)),
                    }
                },
            },
    {
        let k = match self.find_seat(seat_id) {
            Some(k) => k,
            None => {
                return Err(AquireError::UnknownSeat(seat_id.clone()));
            },
        };
        proof {
            assert(self@.owners[k as int] is Some <==> self.owners[k as int] is Some);
        }
        if self.owners[k].is_some() {
            return Err(AquireError::SeatTaken(session_id.clone()));
        }
        let i = match self.find_session(session_id) {
            Some(i) => i,
            None => {
                return Err(AquireError::UnknownSession(session_id.clone()));
            },
        };
        let uid = acl_uid_of(self.sessions[i].uid);
        proof {
            assert(self@.sessions[i as int].uid == self.sessions[i as int].uid);
            assert(self@.seats[k as int] == self.seats[k as int]@);
        }
        let devices = self.seats[k].devices();
        match find_untracked(&self.access, devices) {
            Some(d) => {
                let path = copy(devices[d].dev_name.as_slice());
                return Err(AquireError::NoAccess(acl::Error::NoAcl(path)));
            },
            None => {},
        }
        let ops = grant_all(&mut self.access, devices, uid);
        self.owners.set(k, Some(session_id.clone()));
        proof {
            assert(self@.owners =~= old(self)@.acquired(session_id@, seat_id@).owners);
            lemma_acquired_wf(old(self)@, session_id@, seat_id@);
            lemma_acquire_operations(old(self)@, session_id@, seat_id@);
        }
        Ok(ops)
    }

    /// Lets the session `session_id` leave the seat `seat_id`: the access of
    /// the session's user to every device of the seat is revoked, and the
    /// seat has no owner any more if the session owned it.
    pub fn session_leave_seat(&mut self, session_id: &SessionId, seat_id: &SeatId) -> (r: Result<
        Vec<FileOperation>,
        AquireError,
    >)
        requires
            old(self).wf(),
        ensures
            final(self).wf(),
            match r {
                Ok(ops) => {
                    &&& old(self)@.seat_slot(seat_id@) is Some
                    &&& old(self)@.session_slot(session_id@) is Some
                    &&& final(self)@ == old(self)@.left(session_id@, seat_id@)
                    &&& operation_views(ops@) == old(self)@.leave_operations(session_id@, seat_id@)
                    &&& performed(old(self)@.access, operation_views(ops@)) == final(self)@.access
                },
                Err(AquireError::UnknownSeat(id)) => {
                    &&& id@ == seat_id@
                    &&& old(self)@.seat_slot(seat_id@) is None
                    &&& final(self)@ == old(self)@
                },
                Err(AquireError::UnknownSession(id)) => {
                    &&& id@ == session_id@
                    &&& old(self)@.seat_slot(seat_id@) is Some
                    &&& old(self)@.session_slot(session_id@) is None
                    &&& final(self)@ == old(self)@
                },
                Err(_) => false,
            },
    {
        let k = match self.find_seat(seat_id) {
            Some(k) => k,
            None => {
                return Err(AquireError::UnknownSeat(seat_id.clone()));
            },
        };
        let i = match self.find_session(session_id) {
            Some(i) => i,
            None => {
                return Err(AquireError::UnknownSession(session_id.clone()));
            },
        };
        let uid = acl_uid_of(self.sessions[i].uid);
        proof {
            assert(self@.sessions[i as int].uid == self.sessions[i as int].uid);
            assert(self@.seats[k as int] == self.seats[k as int]@);
        }
        let devices = self.seats[k].devices();
        let ops = revoke_all(&mut self.access, devices, uid);
        let owned = match &self.owners[k] {
            Some(owner) => *owner == *session_id,
            None => false,
        };
        proof {
            assert(owned == (old(self)@.owners[k as int] == Some(session_id@)));
        }
        if owned {
            self.owners.set(k, None);
        }
        proof {
            assert(self@.owners =~= old(self)@.left(session_id@, seat_id@).owners);
            lemma_left_wf(old(self)@, session_id@, seat_id@);
            lemma_leave_operations(old(self)@, session_id@, seat_id@);
        }
        Ok(ops)
    }

    fn find_owned(&self, id: &SessionId) -> (r: Option<usize>)
        requires
            self.wf(),
        ensures
            match r {
                Some(k) => k < self.seats.len() && self@.owned_slot(id@) == Some(k as int)
                    && self@.seat_slot(self@.seats[k as int].id) == Some(k as int),
                None => self@.owned_slot(id@) is None,
            },
    {
        let mut k: usize = 0;
        while k < self.owners.len()
            invariant
                k <= self.owners.len(),
                self.wf(),
                forall|j: int| 0 <= j < k ==> (#[trigger] self@.owners[j]) != Some(id@),
            decreases self.owners.len() - k,
        {
            let owned = match &self.owners[k] {
                Some(owner) => *owner == *id,
                None => false,
            };
            proof {
                assert(owned == (self@.owners[k as int] == Some(id@)));
            }
            if owned {
                proof {
                    lemma_seat_slot(self@, k as int);
                }
                return Some(k);
            }
            k = k + 1;
        }
        None
    }

    /// Removes the session `session_id`: it leaves the seat that it owns, if
    /// it owns one, and then leaves the registry. Nothing happens where no
    /// such session is registered.
    pub fn remove_session(&mut self, session_id: &SessionId) -> (ops: Vec<FileOperation>)
        requires
            old(self).wf(),
        ensures
            final(self).wf(),
            final(self)@ == old(self)@.removed(session_id@),
            operation_views(ops@) == old(self)@.remove_operations(session_id@),
            performed(old(self)@.access, operation_views(ops@)) == final(self)@.access,
    {
        proof {
            lemma_remove_operations(old(self)@, session_id@);
        }
        let i = match self.find_session(session_id) {
            Some(i) => i,
            None => {
                let nothing: Vec<FileOperation> = Vec::new();
                proof {
                    assert(operation_views(nothing@) =~= Seq::<FileOperationView>::empty());
                }
                return nothing;
            },
        };
        let ops = match self.find_owned(session_id) {
            Some(k) => {
                let seat_id = self.seats[k].id().clone();
                proof {
                    assert(seat_id@ == self@.seats[k as int].id);
                }
                match self.session_leave_seat(session_id, &seat_id) {
                    Ok(ops) => ops,
                    Err(_) => Vec::new(),
                }
            },
            None => {
                let nothing: Vec<FileOperation> = Vec::new();
                proof {
                    assert(operation_views(nothing@) =~= Seq::<FileOperationView>::empty());
                }
                nothing
            },
        };
        let _ = self.sessions.remove(i);
        proof {
            assert(self@.sessions =~= old(self)@.removed(session_id@).sessions);
            lemma_removed_wf(old(self)@, session_id@);
        }
        ops
    }

    /// Takes note that the terminal `new_tty` has become the active one: the
    /// session on that terminal, if there is one, tries once to acquire the
    /// default seat. Where the seat is not to be had, nothing changes.
    pub fn tty_changed(&mut self, new_tty: &String) -> (ops: Vec<FileOperation>)
        requires
            old(self).wf(),
        ensures
            final(self).wf(),
            final(self)@ == old(self)@.tty_activated(new_tty@),
            operation_views(ops@) == old(self)@.tty_operations(new_tty@),
            performed(old(self)@.access, operation_views(ops@)) == final(self)@.access,
    {
        proof {
            lemma_tty_operations(old(self)@, new_tty@);
        }
        let acquired = match self.get_session_for_tty(new_tty) {
            Some(session_id) => {
                let seat_id = SeatId::from("seat0");
                self.session_aquire_seat(&session_id, &seat_id)
            },
            None => Ok(Vec::new()),
        };
        match acquired {
            Ok(ops) => {
                proof {
                    assert(operation_views(ops@) =~= old(self)@.tty_operations(new_tty@));
                }
                ops
            },
            Err(_) => {
                let nothing: Vec<FileOperation> = Vec::new();
                proof {
                    assert(operation_views(nothing@) =~= Seq::<FileOperationView>::empty());
                }
                nothing
            },
        }
    }

    /// The name of the group of the session of the user `uid` that is created
    /// when the counter shows `counter`.
    fn group_name(uid: i32, counter: u64) -> (name: String)
        ensures
            name@ == session_name(uid, counter as nat),
    {
        let mut name = String::from_str("User_");
        let uid_digits = format_i32(uid);
        let counter_digits = format_u64(counter);
        proof {
            lemma_decimal_value(counter as nat);
            if uid < 0 {
                lemma_decimal_value((-(uid as int)) as nat);
            } else {
                lemma_decimal_value(uid as nat);
            }
        }
        push_decimal(&mut name, uid_digits.as_slice());
        name.append("_Session_");
        push_decimal(&mut name, counter_digits.as_slice());
        proof {
            assert(name@ =~= session_name(uid, counter as nat));
        }
        name
    }

    /// Whether the manager would register a session on the terminal `tty`,
    /// as far as its own state says.
    fn check_new_session(&self, tty: &Option<String>) -> (r: Result<(), Error>)
        requires
            self.wf(),
        ensures
            match r {
                Ok(()) => can_create(
                    self@,
                    tty_view(*tty),
                    Ok::<(), cgroupv2::Error>(()),
                    Ok::<(), cgroupv2::Error>(()),
                ),
                Err(e) => {
                    &&& !can_create(
                        self@,
                        tty_view(*tty),
                        Ok::<(), cgroupv2::Error>(()),
                        Ok::<(), cgroupv2::Error>(()),
                    )
                    &&& is_creation_failure(
                        e,
                        self@,
                        tty_view(*tty),
                        Ok::<(), cgroupv2::Error>(()),
                        Ok::<(), cgroupv2::Error>(()),
                    )
                },
            },
    {
        match tty {
            Some(wanted_tty) => {
                if self.get_session_for_tty(wanted_tty).is_some() {
                    return Err(Error::SessionExistsOnTTY(wanted_tty.clone()));
                }
            },
            None => {},
        }
        if self.session_counter == u64::MAX {
            return Err(Error::CounterExhausted);
        }
        match self.cgroup.get_pids() {
            Ok(pids) => {
                if pids.len() > 0 {
                    return Err(Error::CantCreateCgroup(cgroupv2::Error::IsLeaf));
                }
                proof {
                    assert(pids@ =~= Seq::<i32>::empty());
                }
            },
            Err(e) => {
                return Err(Error::CantCreateCgroup(e));
            },
        }
        Ok(())
    }

    /// Says what is to be done on the file system before a session of the
    /// user `uid` on the terminal `tty` can be created: the group at the
    /// returned path is to be made, and the session's process moved into it.
    /// Where the manager would refuse the session whatever the file system
    /// answers, it says why, and nothing is to be done.
    pub fn plan_new_session(&self, uid: i32, tty: &Option<String>) -> (r: Result<Vec<u8>, Error>)
        requires
            self.wf(),
        ensures
            match r {
                Ok(path) => {
                    &&& can_create(
                        self@,
                        tty_view(*tty),
                        Ok::<(), cgroupv2::Error>(()),
                        Ok::<(), cgroupv2::Error>(()),
                    )
                    &&& path@ == next_group_path(self@, uid)
                },
                Err(e) => {
                    &&& !can_create(
                        self@,
                        tty_view(*tty),
                        Ok::<(), cgroupv2::Error>(()),
                        Ok::<(), cgroupv2::Error>(()),
                    )
                    &&& is_creation_failure(
                        e,
                        self@,
                        tty_view(*tty),
                        Ok::<(), cgroupv2::Error>(()),
                        Ok::<(), cgroupv2::Error>(()),
                    )
                },
            },
    {
        match self.check_new_session(tty) {
            Ok(()) => {},
            Err(e) => {
                return Err(e);
            },
        }
        let name = Self::group_name(uid, self.session_counter);
        Ok(join(self.cgroup.path().as_slice(), name.as_str().as_bytes()))
    }

    /// Creates a session for the process `pid` of the user `uid`. The
    /// session gets the next identifier and a resource group of its own
    /// below the manager's, which holds the process. `created` and `moved`
    /// are what the file system answered when that group was to be made and
    /// the process was to be moved into it. No session is created on a
    /// terminal that another session has, nor when the counter has run out,
    /// nor where the manager's group still holds processes directly or cannot
    /// be read, nor where the group was not made or the process not moved;
    /// nothing changes then. The session acquires no seat, whatever `seat`
    /// says.
    pub fn add_new_session(
        &mut self,
        pid: i32,
        uid: i32,
        seat: &str,
        tty: Option<String>,
        created: Result<(), cgroupv2::Error>,
        moved: Result<(), cgroupv2::Error>,
    ) -> (r: Result<SessionId, Error>)
        requires
            old(self).wf(),
        ensures
            final(self).wf(),
            match r {
                Ok(id) => {
                    &&& can_create(old(self)@, tty_view(tty), created, moved)
                    &&& id@ == as_text(decimal(old(self)@.counter))
                    &&& final(self)@ == old(self)@.created(pid, uid, tty_view(tty))
                },
                Err(e) => {
                    &&& !can_create(old(self)@, tty_view(tty), created, moved)
                    &&& is_creation_failure(e, old(self)@, tty_view(tty), created, moved)
                    &&& final(self)@ == old(self)@
                },
            },
    {
        let ghost wanted = tty_view(tty);
        match self.check_new_session(&tty) {
            Ok(()) => {},
            Err(e) => {
                return Err(e);
            },
        }
        match created {
            Ok(()) => {},
            Err(e) => {
                return Err(Error::CantCreateCgroup(e));
            },
        }
        match moved {
            Ok(()) => {},
            Err(e) => {
                return Err(Error::CantMoveCgroup(e));
            },
        }
        let counter: u64 = self.session_counter;
        let name = Self::group_name(uid, counter);
        let mut cgroup = match self.cgroup.new_leaf(name.as_str(), Ok(())) {
            Ok(cgroup) => cgroup,
            Err(e) => {
                return Err(Error::CantCreateCgroup(e));
            },
        };
        match cgroup.move_into(pid) {
            Ok(()) => {},
            Err(e) => {
                return Err(Error::CantMoveCgroup(e));
            },
        }
        let id = SessionId { id: decimal_string(counter) };
        let session = Session { name, id: id.clone(), serial: counter, uid, tty, cgroup };
        self.session_counter = counter + 1;
        let ghost newest = session@;
        self.sessions.push(session);
        proof {
            let after = old(self)@.created(pid, uid, wanted);
            assert(newest.cgroup.procs =~= seq![signed_decimal(pid as int)]);
            assert(newest == after.sessions[after.sessions.len() - 1]);
            assert(self@.sessions =~= after.sessions);
            lemma_created_wf(old(self)@, pid, uid, wanted);
        }
        Ok(id)
    }
}

/// Takes a reading of which terminal is the active one. A reading that
/// differs from the last one is remembered in `current_tty` and activates
/// the terminal: what is then to be done to the device files comes back. A
/// reading that repeats the last one does nothing, and nothing comes back.
pub fn active_tty_read(
    manager: &mut SessionManager,
    current_tty: &mut String,
    new_tty: String,
) -> (r: Option<Vec<FileOperation>>)
    requires
        old(manager).wf(),
    ensures
        final(manager).wf(),
        r is Some <==> new_tty@ != old(current_tty)@,
        match r {
            Some(ops) => {
                &&& final(current_tty)@ == new_tty@
                &&& final(manager)@ == old(manager)@.tty_activated(new_tty@)
                &&& operation_views(ops@) == old(manager)@.tty_operations(new_tty@)
            },
            None => final(current_tty)@ == old(current_tty)@ && final(manager)@ == old(manager)@,
        },
{
    if new_tty == *current_tty {
        return None;
    }
    let ops = manager.tty_changed(&new_tty);
    *current_tty = new_tty;
    Some(ops)
}

} // verus!

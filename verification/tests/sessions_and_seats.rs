use sessionman::acl::{AclEntry, AclPerms, AclTag, FileOperation};
use sessionman::cgroupv2;
use sessionman::seat::{Device, SeatId};
use sessionman::session::{
    acl_uid_of, active_tty_read, AquireError, Error, SessionId, SessionManager,
};

const CARD: &[u8] = b"/dev/dri/card0";
const EVENT: &[u8] = b"/dev/input/event3";

fn rw(uid: u32) -> AclEntry {
    AclEntry { tag: AclTag::User(uid), perms: AclPerms { read: true, write: true, execute: false } }
}

fn owner_entry() -> AclEntry {
    AclEntry { tag: AclTag::UserObj, perms: AclPerms { read: true, write: true, execute: false } }
}

fn group_entry() -> AclEntry {
    AclEntry {
        tag: AclTag::Group(44),
        perms: AclPerms { read: true, write: true, execute: false },
    }
}

fn grant_op(path: &[u8], uid: u32) -> FileOperation {
    FileOperation { path: path.to_vec(), uid, grant: true }
}

fn revoke_op(path: &[u8], uid: u32) -> FileOperation {
    FileOperation { path: path.to_vec(), uid, grant: false }
}

fn fresh() -> SessionManager {
    SessionManager::new(b"0::/system.slice/sessionman.service\n", b"321\n", Ok(()), Ok(())).unwrap()
}

/// A manager with the default seat, two devices on it, and their lists.
fn with_seat() -> SessionManager {
    let mut m = fresh();
    m.reload_seats(&vec![
        Device { dev_name: CARD.to_vec(), seat_tag: Some("seat0".to_string()) },
        Device { dev_name: EVENT.to_vec(), seat_tag: None },
    ])
    .unwrap();
    m.track_acl(CARD, vec![owner_entry(), group_entry()]);
    m.track_acl(EVENT, vec![owner_entry()]);
    m
}

fn seat0() -> SeatId {
    SeatId::from("seat0")
}

#[test]
fn session_ids_compare_by_text() {
    assert_eq!(SessionId::from("0"), SessionId::from("0"));
    assert_ne!(SessionId::from("0"), SessionId::from("00"));
    assert_eq!(SessionId::from("12").clone().as_str(), "12");
}

#[test]
fn a_new_manager_has_moved_its_own_processes() {
    let m = SessionManager::new(b"0::/system.slice/sessionman.service\n", b"321\n654\n", Ok(()), Ok(())).unwrap();
    assert_eq!(
        m.cgroup().path(),
        &b"/sys/fs/cgroup/unified/system.slice/sessionman.service".to_vec()
    );
    assert_eq!(m.cgroup().get_pids().unwrap(), Vec::<i32>::new());
    assert_eq!(m.cgroup().children(), &vec![b"sessionman_self".to_vec()]);
    assert_eq!(
        m.own_leaf().path(),
        &b"/sys/fs/cgroup/unified/system.slice/sessionman.service/sessionman_self".to_vec()
    );
    assert_eq!(m.own_leaf().get_pids().unwrap(), vec![321, 654]);
    assert_eq!(m.session_counter(), 0);
    assert!(m.sessions().is_empty());
    assert!(m.seats().is_empty());
}

#[test]
fn a_manager_needs_the_unified_hierarchy() {
    assert!(matches!(
        SessionManager::new(b"1:name=systemd:/\n", b"", Ok(()), Ok(())),
        Err(cgroupv2::Error::NoCgroupv2)
    ));
}

#[test]
fn a_manager_needs_a_readable_membership_record() {
    match SessionManager::new(b"0::/x\n", b"12\nnot a pid\n", Ok(()), Ok(())) {
        Err(cgroupv2::Error::InvalidPidEntry(line)) => assert_eq!(line, b"not a pid".to_vec()),
        other => panic!("unexpected {:?}", other.map(|_| ())),
    }
}

#[test]
fn reload_seats_makes_the_default_seat_once() {
    let mut m = fresh();
    m.reload_seats(&vec![Device { dev_name: CARD.to_vec(), seat_tag: None }]).unwrap();
    assert_eq!(m.seats().len(), 1);
    assert_eq!(m.seats()[0].id(), &seat0());
    assert_eq!(m.seats()[0].devices().len(), 1);
    assert!(m.owner(&seat0()).is_none());
    m.reload_seats(&vec![Device { dev_name: EVENT.to_vec(), seat_tag: None }]).unwrap();
    assert_eq!(m.seats().len(), 1);
    let names: Vec<Vec<u8>> =
        m.seats()[0].devices().iter().map(|d| d.dev_name.clone()).collect();
    assert_eq!(names, vec![CARD.to_vec(), EVENT.to_vec()]);
    assert!(m.seat(&seat0()).is_ok());
    assert!(matches!(m.seat(&SeatId::from("seat1")), Err(AquireError::UnknownSeat(_))));
}

#[test]
fn reload_seats_keeps_the_owner() {
    let mut m = with_seat();
    let s = m.add_new_session(10, 1000, "seat0", None, Ok(()), Ok(())).unwrap();
    m.session_aquire_seat(&s, &seat0()).unwrap();
    m.reload_seats(&vec![Device { dev_name: b"/dev/new".to_vec(), seat_tag: None }]).unwrap();
    assert_eq!(m.owner(&seat0()), Some(s));
    assert_eq!(m.seats()[0].devices().len(), 3);
}

#[test]
fn sessions_are_numbered_by_the_counter() {
    let mut m = fresh();
    let a = m.add_new_session(4242, 1000, "seat0", Some("tty3".to_string()), Ok(()), Ok(())).unwrap();
    let b = m.add_new_session(4243, 1001, "seat0", None, Ok(()), Ok(())).unwrap();
    let c = m.add_new_session(4244, -2, "seat9", None, Ok(()), Ok(())).unwrap();
    assert_eq!(a, SessionId::from("0"));
    assert_eq!(b, SessionId::from("1"));
    assert_eq!(c, SessionId::from("2"));
    assert_eq!(m.session_counter(), 3);
    assert_eq!(m.sessions().len(), 3);
    let first = m.session(&a).unwrap();
    assert_eq!(first.id(), &a);
    assert_eq!(first.name(), "User_1000_Session_0");
    assert_eq!(first.uid(), 1000);
    assert_eq!(first.tty(), Some("tty3"));
    assert_eq!(
        first.cgroup().path(),
        &b"/sys/fs/cgroup/unified/system.slice/sessionman.service/User_1000_Session_0".to_vec()
    );
    assert_eq!(first.cgroup().get_pids().unwrap(), vec![4242]);
    let third = m.session(&c).unwrap();
    assert_eq!(third.name(), "User_-2_Session_2");
    assert_eq!(third.tty(), None);
    assert_eq!(third.cgroup().get_pids().unwrap(), vec![4244]);
    assert_eq!(
        m.cgroup().children(),
        &vec![
            b"sessionman_self".to_vec(),
            b"User_1000_Session_0".to_vec(),
            b"User_1001_Session_1".to_vec(),
            b"User_-2_Session_2".to_vec()
        ]
    );
}

#[test]
fn creating_a_session_acquires_no_seat() {
    let mut m = with_seat();
    let s = m.add_new_session(1, 1000, "seat0", Some("tty1".to_string()), Ok(()), Ok(())).unwrap();
    assert!(m.owner(&seat0()).is_none());
    assert_eq!(m.acl(CARD), Some(&vec![owner_entry(), group_entry()]));
    assert!(m.session_aquire_seat(&s, &seat0()).is_ok());
}

#[test]
fn identifiers_are_not_used_again() {
    let mut m = fresh();
    let a = m.add_new_session(1, 1000, "seat0", None, Ok(()), Ok(())).unwrap();
    m.remove_session(&a);
    let b = m.add_new_session(2, 1000, "seat0", None, Ok(()), Ok(())).unwrap();
    assert_eq!(b, SessionId::from("1"));
    assert!(matches!(m.session(&a), Err(AquireError::UnknownSession(_))));
}

#[test]
fn two_sessions_cannot_share_a_terminal() {
    let mut m = fresh();
    let a = m.add_new_session(1, 1000, "seat0", Some("tty3".to_string()), Ok(()), Ok(())).unwrap();
    match m.add_new_session(2, 1001, "seat0", Some("tty3".to_string()), Ok(()), Ok(())) {
        Err(Error::SessionExistsOnTTY(tty)) => assert_eq!(tty, "tty3"),
        other => panic!("unexpected {:?}", other),
    }
    assert_eq!(m.sessions().len(), 1);
    assert_eq!(m.session_counter(), 1);
    assert_eq!(m.cgroup().children().len(), 2);
    assert_eq!(m.get_session_for_tty(&"tty3".to_string()), Some(a.clone()));
    assert!(m.add_new_session(3, 1001, "seat0", Some("tty4".to_string()), Ok(()), Ok(())).is_ok());
    assert!(m.add_new_session(4, 1002, "seat0", None, Ok(()), Ok(())).is_ok());
    assert!(m.add_new_session(5, 1003, "seat0", None, Ok(()), Ok(())).is_ok());
    m.remove_session(&a);
    assert!(m.add_new_session(6, 1004, "seat0", Some("tty3".to_string()), Ok(()), Ok(())).is_ok());
}

#[test]
fn no_session_while_the_managers_group_holds_processes() {
    let mut m = fresh();
    m.load_procs(b"55\n");
    assert!(matches!(
        m.add_new_session(1, 1000, "seat0", Some("tty1".to_string()), Ok(()), Ok(())),
        Err(Error::CantCreateCgroup(cgroupv2::Error::IsLeaf))
    ));
    assert!(m.sessions().is_empty());
    assert_eq!(m.session_counter(), 0);
    assert_eq!(m.cgroup().children(), &vec![b"sessionman_self".to_vec()]);
    assert_eq!(m.get_session_for_tty(&"tty1".to_string()), None);
    m.load_procs(b"");
    assert_eq!(
        m.add_new_session(1, 1000, "seat0", Some("tty1".to_string()), Ok(()), Ok(())).unwrap(),
        SessionId::from("0")
    );
}

#[test]
fn no_session_while_the_managers_group_cannot_be_read() {
    let mut m = fresh();
    m.load_procs(b"12\nwhat\n");
    match m.add_new_session(1, 1000, "seat0", None, Ok(()), Ok(())) {
        Err(Error::CantCreateCgroup(cgroupv2::Error::InvalidPidEntry(line))) => {
            assert_eq!(line, b"what".to_vec())
        }
        other => panic!("unexpected {:?}", other),
    }
    m.load_procs(b"\n");
    m.set_present(false);
    match m.add_new_session(1, 1000, "seat0", None, Ok(()), Ok(())) {
        Err(Error::CantCreateCgroup(cgroupv2::Error::IoError(path))) => {
            assert_eq!(path, b"/sys/fs/cgroup/unified/system.slice/sessionman.service".to_vec())
        }
        other => panic!("unexpected {:?}", other),
    }
    assert!(m.sessions().is_empty());
    m.set_present(true);
    assert!(m.add_new_session(1, 1000, "seat0", None, Ok(()), Ok(())).is_ok());
}

#[test]
fn the_terminal_is_looked_at_before_the_group() {
    let mut m = fresh();
    m.add_new_session(1, 1000, "seat0", Some("tty1".to_string()), Ok(()), Ok(())).unwrap();
    m.load_procs(b"55\n");
    assert!(matches!(
        m.add_new_session(2, 1001, "seat0", Some("tty1".to_string()), Ok(()), Ok(())),
        Err(Error::SessionExistsOnTTY(_))
    ));
}

#[test]
fn lookup_by_terminal() {
    let mut m = fresh();
    assert_eq!(m.get_session_for_tty(&"tty3".to_string()), None);
    let a = m.add_new_session(1, 1000, "seat0", Some("tty3".to_string()), Ok(()), Ok(())).unwrap();
    let _b = m.add_new_session(2, 1000, "seat0", None, Ok(()), Ok(())).unwrap();
    let c = m.add_new_session(3, 1000, "seat0", Some("tty4".to_string()), Ok(()), Ok(())).unwrap();
    assert_eq!(m.get_session_for_tty(&"tty3".to_string()), Some(a));
    assert_eq!(m.get_session_for_tty(&"tty4".to_string()), Some(c));
    assert_eq!(m.get_session_for_tty(&"tty5".to_string()), None);
    assert_eq!(m.get_session_for_tty(&"".to_string()), None);
}

#[test]
fn acquire_grants_and_records() {
    let mut m = with_seat();
    let s = m.add_new_session(4242, 1000, "seat0", Some("tty3".to_string()), Ok(()), Ok(())).unwrap();
    m.session_aquire_seat(&s, &seat0()).unwrap();
    assert_eq!(m.owner(&seat0()), Some(s));
    assert_eq!(m.acl(CARD), Some(&vec![owner_entry(), group_entry(), rw(1000)]));
    assert_eq!(m.acl(EVENT), Some(&vec![owner_entry(), rw(1000)]));
}

#[test]
fn acquire_is_refused_on_a_taken_seat_even_for_the_owner() {
    let mut m = with_seat();
    let a = m.add_new_session(1, 1000, "seat0", None, Ok(()), Ok(())).unwrap();
    let b = m.add_new_session(2, 1001, "seat0", None, Ok(()), Ok(())).unwrap();
    m.session_aquire_seat(&a, &seat0()).unwrap();
    match m.session_aquire_seat(&b, &seat0()) {
        Err(AquireError::SeatTaken(id)) => assert_eq!(id, b),
        other => panic!("unexpected {:?}", other),
    }
    match m.session_aquire_seat(&a, &seat0()) {
        Err(AquireError::SeatTaken(id)) => assert_eq!(id, a),
        other => panic!("unexpected {:?}", other),
    }
    match m.session_aquire_seat(&SessionId::from("99"), &seat0()) {
        Err(AquireError::SeatTaken(id)) => assert_eq!(id, SessionId::from("99")),
        other => panic!("unexpected {:?}", other),
    }
    assert_eq!(m.owner(&seat0()), Some(a));
    assert_eq!(m.acl(CARD), Some(&vec![owner_entry(), group_entry(), rw(1000)]));
}

#[test]
fn acquire_wants_a_known_seat_and_session() {
    let mut m = with_seat();
    let a = m.add_new_session(1, 1000, "seat0", None, Ok(()), Ok(())).unwrap();
    match m.session_aquire_seat(&a, &SeatId::from("seat1")) {
        Err(AquireError::UnknownSeat(id)) => assert_eq!(id, SeatId::from("seat1")),
        other => panic!("unexpected {:?}", other),
    }
    match m.session_aquire_seat(&SessionId::from("7"), &seat0()) {
        Err(AquireError::UnknownSession(id)) => assert_eq!(id, SessionId::from("7")),
        other => panic!("unexpected {:?}", other),
    }
    match m.session_aquire_seat(&SessionId::from("7"), &SeatId::from("seat1")) {
        Err(AquireError::UnknownSeat(id)) => assert_eq!(id, SeatId::from("seat1")),
        other => panic!("unexpected {:?}", other),
    }
    assert!(m.owner(&seat0()).is_none());
    let mut empty = fresh();
    let s = empty.add_new_session(1, 1000, "seat0", None, Ok(()), Ok(())).unwrap();
    assert!(matches!(empty.session_aquire_seat(&s, &seat0()), Err(AquireError::UnknownSeat(_))));
}

#[test]
fn acquire_grants_nothing_where_a_device_has_no_list() {
    let mut m = fresh();
    m.reload_seats(&vec![
        Device { dev_name: CARD.to_vec(), seat_tag: None },
        Device { dev_name: b"/dev/plain".to_vec(), seat_tag: None },
        Device { dev_name: b"/dev/plain2".to_vec(), seat_tag: None },
    ])
    .unwrap();
    m.track_acl(CARD, vec![owner_entry()]);
    let s = m.add_new_session(1, 1000, "seat0", None, Ok(()), Ok(())).unwrap();
    match m.session_aquire_seat(&s, &seat0()) {
        Err(AquireError::NoAccess(sessionman::acl::Error::NoAcl(path))) => {
            assert_eq!(path, b"/dev/plain".to_vec())
        }
        other => panic!("unexpected {:?}", other),
    }
    assert!(m.owner(&seat0()).is_none());
    assert_eq!(m.acl(CARD), Some(&vec![owner_entry()]));
    m.track_acl(b"/dev/plain", Vec::new());
    m.track_acl(b"/dev/plain2", Vec::new());
    assert!(m.session_aquire_seat(&s, &seat0()).is_ok());
    assert_eq!(m.acl(b"/dev/plain2"), Some(&vec![rw(1000)]));
}

#[test]
fn acquire_on_a_seat_without_devices() {
    let mut m = fresh();
    m.reload_seats(&Vec::new()).unwrap();
    let s = m.add_new_session(1, 1000, "seat0", None, Ok(()), Ok(())).unwrap();
    m.session_aquire_seat(&s, &seat0()).unwrap();
    assert_eq!(m.owner(&seat0()), Some(s));
}

#[test]
fn acquire_then_leave_restores_every_list() {
    let mut m = with_seat();
    let s = m.add_new_session(1, 1000, "seat0", None, Ok(()), Ok(())).unwrap();
    m.session_aquire_seat(&s, &seat0()).unwrap();
    m.session_leave_seat(&s, &seat0()).unwrap();
    assert!(m.owner(&seat0()).is_none());
    assert_eq!(m.acl(CARD), Some(&vec![owner_entry(), group_entry()]));
    assert_eq!(m.acl(EVENT), Some(&vec![owner_entry()]));
    assert!(m.session(&s).is_ok());
    assert!(m.session_aquire_seat(&s, &seat0()).is_ok());
}

#[test]
fn leave_wants_a_known_seat_and_session() {
    let mut m = with_seat();
    let a = m.add_new_session(1, 1000, "seat0", None, Ok(()), Ok(())).unwrap();
    match m.session_leave_seat(&a, &SeatId::from("nowhere")) {
        Err(AquireError::UnknownSeat(id)) => assert_eq!(id, SeatId::from("nowhere")),
        other => panic!("unexpected {:?}", other),
    }
    match m.session_leave_seat(&SessionId::from("5"), &seat0()) {
        Err(AquireError::UnknownSession(id)) => assert_eq!(id, SessionId::from("5")),
        other => panic!("unexpected {:?}", other),
    }
}

#[test]
fn leave_by_another_session_keeps_the_owner() {
    let mut m = with_seat();
    let a = m.add_new_session(1, 1000, "seat0", None, Ok(()), Ok(())).unwrap();
    let b = m.add_new_session(2, 1001, "seat0", None, Ok(()), Ok(())).unwrap();
    m.session_aquire_seat(&a, &seat0()).unwrap();
    m.session_leave_seat(&b, &seat0()).unwrap();
    assert_eq!(m.owner(&seat0()), Some(a));
    assert_eq!(m.acl(CARD), Some(&vec![owner_entry(), group_entry(), rw(1000)]));
}

#[test]
fn removing_the_owner_frees_the_seat() {
    let mut m = with_seat();
    let a = m.add_new_session(1, 1000, "seat0", None, Ok(()), Ok(())).unwrap();
    let b = m.add_new_session(2, 1001, "seat0", None, Ok(()), Ok(())).unwrap();
    m.session_aquire_seat(&a, &seat0()).unwrap();
    m.remove_session(&a);
    assert!(m.owner(&seat0()).is_none());
    assert_eq!(m.acl(CARD), Some(&vec![owner_entry(), group_entry()]));
    assert_eq!(m.sessions().len(), 1);
    m.session_aquire_seat(&b, &seat0()).unwrap();
    assert_eq!(m.owner(&seat0()), Some(b));
    assert_eq!(m.acl(CARD), Some(&vec![owner_entry(), group_entry(), rw(1001)]));
}

#[test]
fn removing_is_idempotent() {
    let mut m = with_seat();
    let a = m.add_new_session(1, 1000, "seat0", None, Ok(()), Ok(())).unwrap();
    let b = m.add_new_session(2, 1001, "seat0", None, Ok(()), Ok(())).unwrap();
    m.session_aquire_seat(&a, &seat0()).unwrap();
    m.remove_session(&SessionId::from("17"));
    assert_eq!(m.sessions().len(), 2);
    assert_eq!(m.owner(&seat0()), Some(a.clone()));
    m.remove_session(&b);
    assert_eq!(m.sessions().len(), 1);
    assert_eq!(m.owner(&seat0()), Some(a.clone()));
    assert_eq!(m.acl(CARD), Some(&vec![owner_entry(), group_entry(), rw(1000)]));
    m.remove_session(&b);
    assert_eq!(m.sessions().len(), 1);
    m.remove_session(&a);
    m.remove_session(&a);
    assert!(m.sessions().is_empty());
    assert!(m.owner(&seat0()).is_none());
}

#[test]
fn end_to_end() {
    let mut m = with_seat();
    let s1 = m.add_new_session(4242, 1000, "seat0", Some("tty3".to_string()), Ok(()), Ok(())).unwrap();
    let s2 = m.add_new_session(4343, 1001, "seat0", Some("tty4".to_string()), Ok(()), Ok(())).unwrap();
    assert!(m.session_aquire_seat(&s1, &seat0()).is_ok());
    for path in [CARD, EVENT] {
        let acl = m.acl(path).unwrap();
        assert_eq!(acl.iter().filter(|e| e.tag == AclTag::User(1000)).count(), 1);
        assert!(acl.contains(&rw(1000)));
    }
    assert!(matches!(m.session_aquire_seat(&s2, &seat0()), Err(AquireError::SeatTaken(_))));
    m.remove_session(&s1);
    assert!(m.owner(&seat0()).is_none());
    for path in [CARD, EVENT] {
        let acl = m.acl(path).unwrap();
        assert!(acl.iter().all(|e| e.tag != AclTag::User(1000)));
    }
    assert!(m.session_aquire_seat(&s2, &seat0()).is_ok());
    assert_eq!(m.owner(&seat0()), Some(s2));
    assert_eq!(m.acl(EVENT), Some(&vec![owner_entry(), rw(1001)]));
}

#[test]
fn only_the_owner_holds_entries() {
    let mut m = with_seat();
    let a = m.add_new_session(1, 1000, "seat0", None, Ok(()), Ok(())).unwrap();
    let b = m.add_new_session(2, 1001, "seat0", None, Ok(()), Ok(())).unwrap();
    let c = m.add_new_session(3, 1002, "seat0", None, Ok(()), Ok(())).unwrap();
    let holders = |m: &SessionManager| -> Vec<i32> {
        let mut out = Vec::new();
        for s in m.sessions() {
            let on_card =
                m.acl(CARD).unwrap().iter().any(|e| e.tag == AclTag::User(acl_uid_of(s.uid())));
            let on_event =
                m.acl(EVENT).unwrap().iter().any(|e| e.tag == AclTag::User(acl_uid_of(s.uid())));
            assert_eq!(on_card, on_event);
            if on_card {
                out.push(s.uid());
            }
        }
        out
    };
    assert_eq!(holders(&m), Vec::<i32>::new());
    m.session_aquire_seat(&b, &seat0()).unwrap();
    assert_eq!(holders(&m), vec![1001]);
    let _ = m.session_aquire_seat(&a, &seat0());
    assert_eq!(holders(&m), vec![1001]);
    m.session_leave_seat(&c, &seat0()).unwrap();
    assert_eq!(holders(&m), vec![1001]);
    m.remove_session(&a);
    assert_eq!(holders(&m), vec![1001]);
    m.session_leave_seat(&b, &seat0()).unwrap();
    assert_eq!(holders(&m), Vec::<i32>::new());
    m.session_aquire_seat(&c, &seat0()).unwrap();
    assert_eq!(holders(&m), vec![1002]);
    m.remove_session(&c);
    assert_eq!(holders(&m), Vec::<i32>::new());
}

#[test]
fn terminal_activation_acquires_the_default_seat_once() {
    let mut m = with_seat();
    let a = m.add_new_session(4242, 1000, "seat0", Some("tty3".to_string()), Ok(()), Ok(())).unwrap();
    m.tty_changed(&"tty3".to_string());
    assert_eq!(m.owner(&seat0()), Some(a.clone()));
    assert_eq!(m.acl(CARD), Some(&vec![owner_entry(), group_entry(), rw(1000)]));
    m.tty_changed(&"tty3".to_string());
    assert_eq!(m.owner(&seat0()), Some(a));
    assert_eq!(m.acl(CARD), Some(&vec![owner_entry(), group_entry(), rw(1000)]));
}

#[test]
fn terminal_activation_without_a_session_does_nothing() {
    let mut m = with_seat();
    let _a = m.add_new_session(4242, 1000, "seat0", Some("tty3".to_string()), Ok(()), Ok(())).unwrap();
    m.tty_changed(&"tty9".to_string());
    assert!(m.owner(&seat0()).is_none());
    assert_eq!(m.acl(CARD), Some(&vec![owner_entry(), group_entry()]));
    assert_eq!(m.sessions().len(), 1);
    assert_eq!(m.session_counter(), 1);
}

#[test]
fn terminal_activation_loses_to_the_owner() {
    let mut m = with_seat();
    let a = m.add_new_session(1, 1000, "seat0", Some("tty3".to_string()), Ok(()), Ok(())).unwrap();
    let _b = m.add_new_session(2, 1001, "seat0", Some("tty4".to_string()), Ok(()), Ok(())).unwrap();
    m.tty_changed(&"tty3".to_string());
    m.tty_changed(&"tty4".to_string());
    assert_eq!(m.owner(&seat0()), Some(a));
    assert_eq!(m.acl(EVENT), Some(&vec![owner_entry(), rw(1000)]));
}

#[test]
fn terminal_activation_without_a_seat_does_nothing() {
    let mut m = fresh();
    let _a = m.add_new_session(1, 1000, "seat0", Some("tty3".to_string()), Ok(()), Ok(())).unwrap();
    m.tty_changed(&"tty3".to_string());
    assert!(m.owner(&seat0()).is_none());
    assert!(m.seats().is_empty());
}

#[test]
fn a_repeated_reading_of_the_terminal_is_passed_over() {
    let mut m = with_seat();
    let a = m.add_new_session(1, 1000, "seat0", Some("tty3".to_string()), Ok(()), Ok(())).unwrap();
    let mut current = "tty3".to_string();
    assert_eq!(active_tty_read(&mut m, &mut current, "tty3".to_string()), None);
    assert!(m.owner(&seat0()).is_none());
    assert_eq!(active_tty_read(&mut m, &mut current, "tty4".to_string()), Some(Vec::new()));
    assert_eq!(current, "tty4");
    assert!(m.owner(&seat0()).is_none());
    assert_eq!(
        active_tty_read(&mut m, &mut current, "tty3".to_string()),
        Some(vec![grant_op(CARD, 1000), grant_op(EVENT, 1000)])
    );
    assert_eq!(current, "tty3");
    assert_eq!(m.owner(&seat0()), Some(a));
}

#[test]
fn negative_user_ids_keep_their_bits() {
    assert_eq!(acl_uid_of(1000), 1000);
    assert_eq!(acl_uid_of(0), 0);
    assert_eq!(acl_uid_of(-1), u32::MAX);
    assert_eq!(acl_uid_of(-2), (-2i32) as u32);
    assert_eq!(acl_uid_of(i32::MIN), 0x8000_0000);
    let mut m = with_seat();
    let s = m.add_new_session(1, -1, "seat0", None, Ok(()), Ok(())).unwrap();
    m.session_aquire_seat(&s, &seat0()).unwrap();
    assert_eq!(m.acl(EVENT), Some(&vec![owner_entry(), rw(u32::MAX)]));
}

#[test]
fn no_session_where_its_group_was_not_made() {
    let mut m = fresh();
    let why = cgroupv2::Error::CantCreate(b"/sys/fs/cgroup/unified/x".to_vec());
    match m.add_new_session(1, 1000, "seat0", Some("tty1".to_string()), Err(why), Ok(())) {
        Err(Error::CantCreateCgroup(cgroupv2::Error::CantCreate(path))) => {
            assert_eq!(path, b"/sys/fs/cgroup/unified/x".to_vec())
        }
        other => panic!("unexpected {:?}", other),
    }
    assert!(m.sessions().is_empty());
    assert_eq!(m.session_counter(), 0);
    assert_eq!(m.cgroup().children(), &vec![b"sessionman_self".to_vec()]);
    assert_eq!(m.get_session_for_tty(&"tty1".to_string()), None);
}

#[test]
fn no_session_where_its_process_was_not_moved() {
    let mut m = with_seat();
    let owner = m.add_new_session(1, 1000, "seat0", None, Ok(()), Ok(())).unwrap();
    m.session_aquire_seat(&owner, &seat0()).unwrap();
    let why = cgroupv2::Error::IoError(b"/sys/fs/cgroup/unified/leaf".to_vec());
    match m.add_new_session(4242, 1001, "seat0", Some("tty3".to_string()), Ok(()), Err(why)) {
        Err(Error::CantMoveCgroup(cgroupv2::Error::IoError(path))) => {
            assert_eq!(path, b"/sys/fs/cgroup/unified/leaf".to_vec())
        }
        other => panic!("unexpected {:?}", other),
    }
    assert_eq!(m.sessions().len(), 1);
    assert_eq!(m.session_counter(), 1);
    assert_eq!(m.owner(&seat0()), Some(owner));
    assert_eq!(m.cgroup().children().len(), 2);
    assert_eq!(m.get_session_for_tty(&"tty3".to_string()), None);
    assert_eq!(
        m.add_new_session(4242, 1001, "seat0", Some("tty3".to_string()), Ok(()), Ok(())).unwrap(),
        SessionId::from("1")
    );
}

#[test]
fn the_manager_looks_at_itself_before_the_file_system() {
    let mut m = fresh();
    m.add_new_session(1, 1000, "seat0", Some("tty1".to_string()), Ok(()), Ok(())).unwrap();
    let denied = || Err(cgroupv2::Error::CantCreate(b"/denied".to_vec()));
    assert!(matches!(
        m.add_new_session(2, 1001, "seat0", Some("tty1".to_string()), denied(), denied()),
        Err(Error::SessionExistsOnTTY(_))
    ));
    m.load_procs(b"55\n");
    assert!(matches!(
        m.add_new_session(2, 1001, "seat0", None, denied(), denied()),
        Err(Error::CantCreateCgroup(cgroupv2::Error::IsLeaf))
    ));
    m.load_procs(b"");
    assert!(matches!(
        m.add_new_session(2, 1001, "seat0", None, denied(), denied()),
        Err(Error::CantCreateCgroup(cgroupv2::Error::CantCreate(_)))
    ));
    assert_eq!(m.sessions().len(), 1);
}

#[test]
fn a_plan_names_the_group_to_make() {
    let mut m = fresh();
    assert_eq!(
        m.plan_new_session(1000, &Some("tty1".to_string())).unwrap(),
        b"/sys/fs/cgroup/unified/system.slice/sessionman.service/User_1000_Session_0".to_vec()
    );
    assert!(m.sessions().is_empty());
    assert_eq!(m.session_counter(), 0);
    let id = m.add_new_session(7, 1000, "seat0", Some("tty1".to_string()), Ok(()), Ok(())).unwrap();
    assert_eq!(
        m.session(&id).unwrap().cgroup().path(),
        &b"/sys/fs/cgroup/unified/system.slice/sessionman.service/User_1000_Session_0".to_vec()
    );
    assert!(matches!(
        m.plan_new_session(1001, &Some("tty1".to_string())),
        Err(Error::SessionExistsOnTTY(_))
    ));
    assert_eq!(
        m.plan_new_session(-3, &None).unwrap(),
        b"/sys/fs/cgroup/unified/system.slice/sessionman.service/User_-3_Session_1".to_vec()
    );
    m.load_procs(b"9\n");
    assert!(matches!(
        m.plan_new_session(1001, &None),
        Err(Error::CantCreateCgroup(cgroupv2::Error::IsLeaf))
    ));
}

#[test]
fn a_manager_does_not_start_where_the_file_system_fails() {
    let denied = cgroupv2::Error::CantCreate(b"/denied".to_vec());
    assert!(matches!(
        SessionManager::new(b"0::/x\n", b"12\n", Err(denied), Ok(())),
        Err(cgroupv2::Error::CantCreate(_))
    ));
    let stuck = cgroupv2::Error::IoError(b"/stuck".to_vec());
    assert!(matches!(
        SessionManager::new(b"0::/x\n", b"12\n", Ok(()), Err(stuck)),
        Err(cgroupv2::Error::IoError(_))
    ));
}

#[test]
fn every_step_says_what_to_do_to_the_files() {
    let mut m = with_seat();
    m.reload_seats(&vec![Device { dev_name: b"/dev/plain".to_vec(), seat_tag: None }]).unwrap();
    let a = m.add_new_session(1, 1000, "seat0", Some("tty1".to_string()), Ok(()), Ok(())).unwrap();
    let b = m.add_new_session(2, 1001, "seat0", Some("tty2".to_string()), Ok(()), Ok(())).unwrap();
    // One device carries no list: nothing is granted, and leaving passes it over.
    assert!(m.session_aquire_seat(&a, &seat0()).is_err());
    assert_eq!(
        m.session_leave_seat(&a, &seat0()).unwrap(),
        vec![revoke_op(CARD, 1000), revoke_op(EVENT, 1000)]
    );
    m.track_acl(b"/dev/plain", Vec::new());
    assert_eq!(
        m.session_aquire_seat(&a, &seat0()).unwrap(),
        vec![grant_op(CARD, 1000), grant_op(EVENT, 1000), grant_op(b"/dev/plain", 1000)]
    );
    assert_eq!(m.tty_changed(&"tty2".to_string()), Vec::new());
    assert_eq!(m.remove_session(&b), Vec::new());
    assert_eq!(
        m.remove_session(&a),
        vec![revoke_op(CARD, 1000), revoke_op(EVENT, 1000), revoke_op(b"/dev/plain", 1000)]
    );
    assert_eq!(m.remove_session(&a), Vec::new());
    let c = m.add_new_session(3, 1002, "seat0", Some("tty3".to_string()), Ok(()), Ok(())).unwrap();
    assert_eq!(
        m.tty_changed(&"tty3".to_string()),
        vec![grant_op(CARD, 1002), grant_op(EVENT, 1002), grant_op(b"/dev/plain", 1002)]
    );
    assert_eq!(m.tty_changed(&"tty9".to_string()), Vec::new());
    assert_eq!(m.owner(&seat0()), Some(c));
}

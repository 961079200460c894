use sessionman::acl::{AclEntry, AclPerms, AclTag, FileOperation};
use sessionman::dbus_server::{
    decode, route, serve, to_signed, Method, Param, Reply, Request, Route,
};
use sessionman::seat::{Device, SeatId};
use sessionman::session::{AquireError, Error, SessionId, SessionManager};

fn text(s: &str) -> Option<String> {
    Some(s.to_string())
}

fn manager() -> SessionManager {
    let mut m = SessionManager::new(b"0::/m\n", b"", Ok(()), Ok(())).unwrap();
    m.reload_seats(&vec![Device { dev_name: b"/dev/a".to_vec(), seat_tag: None }]).unwrap();
    m.track_acl(b"/dev/a", Vec::new());
    m
}

#[test]
fn calls_for_the_manager_are_routed_by_member() {
    let object = text("/org/freedesktop/login1");
    let interface = text("org.freedesktop.login1.Manager");
    assert_eq!(
        route(&object, &interface, &text("CreateSession")),
        Route::Call(Method::CreateSession)
    );
    assert_eq!(
        route(&object, &interface, &text("ReleaseSession")),
        Route::Call(Method::ReleaseSession)
    );
    assert_eq!(
        route(&object, &interface, &text("ActivateSessionOnSeat")),
        Route::Call(Method::ActivateSessionOnSeat)
    );
}

#[test]
fn unknown_members_are_passed_over() {
    let object = text("/org/freedesktop/login1");
    let interface = text("org.freedesktop.login1.Manager");
    assert_eq!(route(&object, &interface, &text("PowerOff")), Route::Unsupported);
    assert_eq!(route(&object, &interface, &text("createsession")), Route::Unsupported);
    assert_eq!(route(&object, &interface, &text("")), Route::Unsupported);
    assert_eq!(route(&object, &interface, &None), Route::Unsupported);
}

#[test]
fn calls_for_others_are_passed_over() {
    let object = text("/org/freedesktop/login1");
    let interface = text("org.freedesktop.login1.Manager");
    let member = text("CreateSession");
    assert_eq!(route(&text("/org/freedesktop/login2"), &interface, &member), Route::Elsewhere);
    assert_eq!(route(&object, &text("org.freedesktop.DBus"), &member), Route::Elsewhere);
    assert_eq!(route(&None, &interface, &member), Route::Elsewhere);
    assert_eq!(route(&object, &None, &member), Route::Elsewhere);
    assert_eq!(route(&None, &None, &None), Route::Elsewhere);
}

#[test]
fn unsigned_arguments_keep_their_bits() {
    assert_eq!(to_signed(0), 0);
    assert_eq!(to_signed(1000), 1000);
    assert_eq!(to_signed(0x7fff_ffff), i32::MAX);
    assert_eq!(to_signed(0x8000_0000), i32::MIN);
    assert_eq!(to_signed(u32::MAX), -1);
}

#[test]
fn create_release_and_activate() {
    let mut m = manager();
    let created = serve(
        &mut m,
        Request::CreateSession {
            uid: 1000,
            pid: 4242,
            tty: text("tty3"),
            seat: "seat0".to_string(),
        }, Ok(()), Ok(()));
    let id = match created {
        Reply::Created(id) => id,
        other => panic!("unexpected {:?}", other),
    };
    assert_eq!(id, SessionId::from("0"));
    assert_eq!(m.session(&id).unwrap().uid(), 1000);
    assert_eq!(m.session(&id).unwrap().cgroup().get_pids().unwrap(), vec![4242]);
    assert!(m.owner(&SeatId::from("seat0")).is_none());

    let activated = serve(
        &mut m,
        Request::ActivateSessionOnSeat { session: "0".to_string(), seat: "seat0".to_string() }, Ok(()), Ok(()));
    assert!(matches!(activated, Reply::Done(_)));
    assert_eq!(m.owner(&SeatId::from("seat0")), Some(id.clone()));
    assert_eq!(
        m.acl(b"/dev/a"),
        Some(&vec![AclEntry {
            tag: AclTag::User(1000),
            perms: AclPerms { read: true, write: true, execute: false }
        }])
    );

    let released = serve(&mut m, Request::ReleaseSession { session: "0".to_string() }, Ok(()), Ok(()));
    assert!(matches!(released, Reply::Done(_)));
    assert!(m.sessions().is_empty());
    assert!(m.owner(&SeatId::from("seat0")).is_none());
    assert_eq!(m.acl(b"/dev/a"), Some(&Vec::new()));
}

#[test]
fn refusals_come_back_as_replies() {
    let mut m = manager();
    let first = serve(
        &mut m,
        Request::CreateSession { uid: 1, pid: 2, tty: text("tty1"), seat: "seat0".to_string() }, Ok(()), Ok(()));
    assert!(matches!(first, Reply::Created(_)));
    let second = serve(
        &mut m,
        Request::CreateSession { uid: 3, pid: 4, tty: text("tty1"), seat: "seat0".to_string() }, Ok(()), Ok(()));
    assert!(matches!(second, Reply::NotCreated(Error::SessionExistsOnTTY(_))));
    let nobody = serve(
        &mut m,
        Request::ActivateSessionOnSeat { session: "5".to_string(), seat: "seat0".to_string() }, Ok(()), Ok(()));
    assert!(matches!(nobody, Reply::NotAcquired(AquireError::UnknownSession(_))));
    let nowhere = serve(
        &mut m,
        Request::ActivateSessionOnSeat { session: "0".to_string(), seat: "seat5".to_string() }, Ok(()), Ok(()));
    assert!(matches!(nowhere, Reply::NotAcquired(AquireError::UnknownSeat(_))));
    let gone = serve(&mut m, Request::ReleaseSession { session: "77".to_string() }, Ok(()), Ok(()));
    assert!(matches!(gone, Reply::Done(_)));
    assert_eq!(m.sessions().len(), 1);
}

#[test]
fn create_without_a_terminal() {
    let mut m = manager();
    let a = serve(
        &mut m,
        Request::CreateSession { uid: u32::MAX, pid: 9, tty: None, seat: "".to_string() }, Ok(()), Ok(()));
    let b = serve(
        &mut m,
        Request::CreateSession { uid: 5, pid: 10, tty: None, seat: "".to_string() }, Ok(()), Ok(()));
    assert!(matches!(a, Reply::Created(_)));
    assert!(matches!(b, Reply::Created(_)));
    assert_eq!(m.sessions()[0].uid(), -1);
    assert_eq!(m.sessions()[0].name(), "User_-1_Session_0");
    assert_eq!(m.sessions()[1].name(), "User_5_Session_1");
}

fn call(member: &str) -> rustbus::message_builder::MarshalledMessage {
    rustbus::MessageBuilder::new()
        .call(member)
        .on("/org/freedesktop/login1")
        .with_interface("org.freedesktop.login1.Manager")
        .build()
}

/// The arguments of a message, read as the program reads them.
fn arguments(msg: rustbus::message_builder::MarshalledMessage) -> Vec<Param> {
    let message = msg.unmarshall_all().unwrap();
    let mut out = Vec::new();
    for p in message.params {
        out.push(match p {
            rustbus::params::Param::Base(rustbus::params::Base::Uint32(x)) => Param::U32(x),
            rustbus::params::Param::Base(rustbus::params::Base::String(s)) => Param::Str(s),
            rustbus::params::Param::Base(rustbus::params::Base::StringRef(s)) => {
                Param::Str(s.to_owned())
            }
            _ => Param::Other,
        });
    }
    out
}

#[test]
fn create_session_takes_two_numbers_and_two_texts() {
    let params = vec![
        Param::U32(1000),
        Param::U32(4242),
        Param::Str("tty3".to_string()),
        Param::Str("seat0".to_string()),
        Param::Other,
    ];
    match decode(Method::CreateSession, &params) {
        Some(Request::CreateSession { uid, pid, tty, seat }) => {
            assert_eq!(uid, 1000);
            assert_eq!(pid, 4242);
            assert_eq!(tty, Some("tty3".to_string()));
            assert_eq!(seat, "seat0");
        }
        other => panic!("unexpected {:?}", other),
    }
}

#[test]
fn create_session_wants_all_its_arguments() {
    let short = vec![Param::U32(1000), Param::U32(4242), Param::Str("tty3".to_string())];
    assert!(decode(Method::CreateSession, &short).is_none());
    let swapped = vec![
        Param::Str("x".to_string()),
        Param::U32(4242),
        Param::Str("tty3".to_string()),
        Param::Str("seat0".to_string()),
    ];
    assert!(decode(Method::CreateSession, &swapped).is_none());
    let no_pid = vec![
        Param::U32(1),
        Param::Other,
        Param::Str("tty3".to_string()),
        Param::Str("seat0".to_string()),
    ];
    assert!(decode(Method::CreateSession, &no_pid).is_none());
    let no_tty =
        vec![Param::U32(1), Param::U32(2), Param::Other, Param::Str("seat0".to_string())];
    assert!(decode(Method::CreateSession, &no_tty).is_none());
    let no_seat = vec![Param::U32(1), Param::U32(2), Param::Str("tty3".to_string()), Param::U32(3)];
    assert!(decode(Method::CreateSession, &no_seat).is_none());
    assert!(decode(Method::CreateSession, &Vec::new()).is_none());
}

#[test]
fn release_and_activate_take_text() {
    match decode(Method::ReleaseSession, &vec![Param::Str("7".to_string()), Param::U32(1)]) {
        Some(Request::ReleaseSession { session }) => assert_eq!(session, "7"),
        other => panic!("unexpected {:?}", other),
    }
    assert!(decode(Method::ReleaseSession, &vec![Param::U32(7)]).is_none());
    assert!(decode(Method::ReleaseSession, &Vec::new()).is_none());
    match decode(
        Method::ActivateSessionOnSeat,
        &vec![Param::Str("7".to_string()), Param::Str("seat0".to_string())],
    ) {
        Some(Request::ActivateSessionOnSeat { session, seat }) => {
            assert_eq!(session, "7");
            assert_eq!(seat, "seat0");
        }
        other => panic!("unexpected {:?}", other),
    }
    assert!(decode(Method::ActivateSessionOnSeat, &vec![Param::Str("7".to_string())]).is_none());
    assert!(decode(
        Method::ActivateSessionOnSeat,
        &vec![Param::Str("7".to_string()), Param::Other]
    )
    .is_none());
}

#[test]
fn a_call_is_read_out_of_its_message() {
    let mut msg = call("CreateSession");
    msg.body.push_param(1000u32).unwrap();
    msg.body.push_param(4242u32).unwrap();
    msg.body.push_param("tty3").unwrap();
    msg.body.push_param("seat0").unwrap();
    msg.body.push_param(true).unwrap();
    assert_eq!(
        route(&msg.dynheader.object, &msg.dynheader.interface, &msg.dynheader.member),
        Route::Call(Method::CreateSession)
    );
    match decode(Method::CreateSession, &arguments(msg)) {
        Some(Request::CreateSession { uid, pid, tty, seat }) => {
            assert_eq!(uid, 1000);
            assert_eq!(pid, 4242);
            assert_eq!(tty, Some("tty3".to_string()));
            assert_eq!(seat, "seat0");
        }
        other => panic!("unexpected {:?}", other),
    }

    let mut msg = call("ActivateSessionOnSeat");
    msg.body.push_param("0").unwrap();
    msg.body.push_param("seat0").unwrap();
    match decode(Method::ActivateSessionOnSeat, &arguments(msg)) {
        Some(Request::ActivateSessionOnSeat { session, seat }) => {
            assert_eq!(session, "0");
            assert_eq!(seat, "seat0");
        }
        other => panic!("unexpected {:?}", other),
    }

    let mut msg = call("ReleaseSession");
    msg.body.push_param(12u32).unwrap();
    assert!(decode(Method::ReleaseSession, &arguments(msg)).is_none());
    assert!(decode(Method::ReleaseSession, &arguments(call("ReleaseSession"))).is_none());
}

#[test]
fn a_call_from_its_message_to_the_manager() {
    let mut m = manager();
    let mut msg = call("CreateSession");
    msg.body.push_param(1000u32).unwrap();
    msg.body.push_param(4242u32).unwrap();
    msg.body.push_param("tty3").unwrap();
    msg.body.push_param("seat0").unwrap();
    let request = decode(Method::CreateSession, &arguments(msg)).unwrap();
    assert!(matches!(serve(&mut m, request, Ok(()), Ok(())), Reply::Created(_)));
    assert_eq!(m.get_session_for_tty(&"tty3".to_string()), Some(SessionId::from("0")));
    assert_eq!(m.sessions()[0].uid(), 1000);
    let mut msg = call("ActivateSessionOnSeat");
    msg.body.push_param("0").unwrap();
    msg.body.push_param("seat0").unwrap();
    let request = decode(Method::ActivateSessionOnSeat, &arguments(msg)).unwrap();
    match serve(&mut m, request, Ok(()), Ok(())) {
        Reply::Done(ops) => assert_eq!(
            ops,
            vec![FileOperation { path: b"/dev/a".to_vec(), uid: 1000, grant: true }]
        ),
        other => panic!("unexpected {:?}", other),
    }
}

#[test]
fn a_failing_file_system_comes_back_as_a_reply() {
    let mut m = manager();
    let stuck = sessionman::cgroupv2::Error::IoError(b"/stuck".to_vec());
    let reply = serve(
        &mut m,
        Request::CreateSession { uid: 1, pid: 2, tty: None, seat: "seat0".to_string() },
        Ok(()),
        Err(stuck),
    );
    assert!(matches!(reply, Reply::NotCreated(Error::CantMoveCgroup(_))));
    assert!(m.sessions().is_empty());
    assert_eq!(m.session_counter(), 0);
}

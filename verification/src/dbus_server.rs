//! The control channel: which calls the manager answers, and what each of
//! them does to the manager. Receiving a call and sending the reply are not
//! part of this; whoever owns the connection hands the decoded call in.

use crate::acl::{operation_views, FileOperation};
use crate::cgroupv2;
use crate::decimal::{as_text, decimal};
use crate::seat::SeatId;
use crate::session::{
    can_create, is_creation_failure, tty_view, AquireError, Error, SessionId, SessionManager,
};
use crate::state::Refusal;
use vstd::prelude::*;

verus! {

/// A method of the manager's interface.
#[derive(Clone, Copy, Debug, PartialEq, Eq, Structural)]
pub enum Method {
    CreateSession,
    ReleaseSession,
    ActivateSessionOnSeat,
}

/// What becomes of an incoming call.
#[derive(Clone, Copy, Debug, PartialEq, Eq, Structural)]
pub enum Route {
    /// The call is for another object or interface: it is passed over.
    Elsewhere,
    /// The call is for the manager, but names no method of it: it is
    /// reported and passed over.
    Unsupported,
    /// The call is for this method of the manager.
    Call(Method),
}

/// The object that the manager answers for.
pub open spec fn manager_object() -> Seq<char> {
    "/org/freedesktop/login1"@
}

/// The interface that the manager offers.
pub open spec fn manager_interface() -> Seq<char> {
    "org.freedesktop.login1.Manager"@
}

/// The method that `member` names, if it names one.
pub open spec fn method_named(member: Seq<char>) -> Option<Method> {
    if member == "CreateSession"@ {
        Some(Method::CreateSession)
    } else if member == "ReleaseSession"@ {
        Some(Method::ReleaseSession)
    } else if member == "ActivateSessionOnSeat"@ {
        Some(Method::ActivateSessionOnSeat)
    } else {
        None
    }
}

/// What becomes of a call for `member` of `interface` at `object`.
pub open spec fn route_of(
    object: Option<Seq<char>>,
    interface: Option<Seq<char>>,
    member: Option<Seq<char>>,
) -> Route {
    if object == Some(manager_object()) && interface == Some(manager_interface()) {
        match member {
            Some(name) => match method_named(name) {
                Some(method) => Route::Call(method),
                None => Route::Unsupported,
            },
            None => Route::Unsupported,
        }
    } else {
        Route::Elsewhere
    }
}

/// Whether `given` is the text `wanted`.
fn is_text(given: &Option<String>, wanted: &str) -> (r: bool)
    ensures
        r == (tty_view(*given) == Some(wanted@)),
{
    match given {
        Some(text) => *text == wanted.to_owned(),
        None => false,
    }
}

/// Decides what becomes of an incoming call, by the object, the interface
/// and the member that it names.
pub fn route(object: &Option<String>, interface: &Option<String>, member: &Option<String>) -> (r:
    Route)
    ensures
        r == route_of(tty_view(*object), tty_view(*interface), tty_view(*member)),
{
    if !(is_text(object, "/org/freedesktop/login1") && is_text(
        interface,
        "org.freedesktop.login1.Manager",
    )) {
        return Route::Elsewhere;
    }
    if is_text(member, "CreateSession") {
        Route::Call(Method::CreateSession)
    } else if is_text(member, "ReleaseSession") {
        Route::Call(Method::ReleaseSession)
    } else if is_text(member, "ActivateSessionOnSeat") {
        Route::Call(Method::ActivateSessionOnSeat)
    } else {
        Route::Unsupported
    }
}

/// A call of the manager's interface, with its arguments.
#[derive(Debug)]
pub enum Request {
    /// Create a session for the process `pid` of the user `uid`.
    CreateSession { uid: u32, pid: u32, tty: Option<String>, seat: String },
    /// Remove the session `session`.
    ReleaseSession { session: String },
    /// Let the session `session` acquire the seat `seat`.
    ActivateSessionOnSeat { session: String, seat: String },
}

/// What a `Request` stands for.
pub enum RequestView {
    CreateSession { uid: u32, pid: u32, tty: Option<Seq<char>>, seat: Seq<char> },
    ReleaseSession { session: Seq<char> },
    ActivateSessionOnSeat { session: Seq<char>, seat: Seq<char> },
}

impl View for Request {
    type V = RequestView;

    open spec fn view(&self) -> RequestView {
        match *self {
            Request::CreateSession { uid, pid, tty, seat } => RequestView::CreateSession {
                uid,
                pid,
                tty: tty_view(tty),
                seat: seat@,
            },
            Request::ReleaseSession { session } => RequestView::ReleaseSession {
                session: session@,
            },
            Request::ActivateSessionOnSeat { session, seat } => RequestView::ActivateSessionOnSeat {
                session: session@,
                seat: seat@,
            },
        }
    }
}

/// One argument of a call, as far as the manager looks at arguments: an
/// unsigned 32-bit number, a text, or anything else.
#[derive(Debug)]
pub enum Param {
    U32(u32),
    Str(String),
    Other,
}

/// What a `Param` stands for.
pub enum ParamView {
    U32(u32),
    Str(Seq<char>),
    Other,
}

impl View for Param {
    type V = ParamView;

    open spec fn view(&self) -> ParamView {
        match *self {
            Param::U32(x) => ParamView::U32(x),
            Param::Str(s) => ParamView::Str(s@),
            Param::Other => ParamView::Other,
        }
    }
}

/// The contents of a list of arguments.
pub open spec fn param_views(params: Seq<Param>) -> Seq<ParamView> {
    Seq::new(params.len(), |i: int| params[i]@)
}

/// The number that is argument `i`, if there is such an argument and it is a
/// number.
pub open spec fn number_at(params: Seq<ParamView>, i: int) -> Option<u32> {
    if 0 <= i < params.len() {
        match params[i] {
            ParamView::U32(x) => Some(x),
            _ => None,
        }
    } else {
        None
    }
}

/// The text that is argument `i`, if there is such an argument and it is a
/// text.
pub open spec fn text_at(params: Seq<ParamView>, i: int) -> Option<Seq<char>> {
    if 0 <= i < params.len() {
        match params[i] {
            ParamView::Str(s) => Some(s),
            _ => None,
        }
    } else {
        None
    }
}

/// The request that a call of `method` with the arguments `params` makes, if
/// the arguments are what the method takes. `CreateSession` takes the user
/// and the process, both as numbers, then the terminal and the seat, both as
/// text. `ReleaseSession` takes the session as text. `ActivateSessionOnSeat`
/// takes the session and then the seat, both as text. Further arguments are
/// not looked at.
pub open spec fn request_of(method: Method, params: Seq<ParamView>) -> Option<RequestView> {
    match method {
        Method::CreateSession => match (
            number_at(params, 0),
            number_at(params, 1),
            text_at(params, 2),
            text_at(params, 3),
        ) {
            (Some(uid), Some(pid), Some(tty), Some(seat)) => Some(
                RequestView::CreateSession { uid, pid, tty: Some(tty), seat },
            ),
            _ => None,
        },
        Method::ReleaseSession => match text_at(params, 0) {
            Some(session) => Some(RequestView::ReleaseSession { session }),
            None => None,
        },
        Method::ActivateSessionOnSeat => match (text_at(params, 0), text_at(params, 1)) {
            (Some(session), Some(seat)) => Some(
                RequestView::ActivateSessionOnSeat { session, seat },
            ),
            _ => None,
        },
    }
}

/// What a request stands for, if there is one.
pub open spec fn request_view(request: Option<Request>) -> Option<RequestView> {
    match request {
        Some(request) => Some(request@),
        None => None,
    }
}

fn number(params: &Vec<Param>, i: usize) -> (r: Option<u32>)
    ensures
        r == number_at(param_views(params@), i as int),
{
    if i >= params.len() {
        return None;
    }
    match &params[i] {
        Param::U32(x) => Some(*x),
        _ => None,
    }
}

fn text(params: &Vec<Param>, i: usize) -> (r: Option<String>)
    ensures
        tty_view(r) == text_at(param_views(params@), i as int),
{
    if i >= params.len() {
        return None;
    }
    match &params[i] {
        Param::Str(s) => Some(s.clone()),
        _ => None,
    }
}

/// Reads the arguments of a call of `method`.
pub fn decode(method: Method, params: &Vec<Param>) -> (r: Option<Request>)
    ensures
        request_view(r) == request_of(method, param_views(params@)),
{
    match method {
        Method::CreateSession => {
            let uid = number(params, 0);
            let pid = number(params, 1);
            let tty = text(params, 2);
            let seat = text(params, 3);
            match (uid, pid, tty, seat) {
                (Some(uid), Some(pid), Some(tty), Some(seat)) => Some(
                    Request::CreateSession { uid, pid, tty: Some(tty), seat },
                ),
                _ => None,
            }
        },
        Method::ReleaseSession => match text(params, 0) {
            Some(session) => Some(Request::ReleaseSession { session }),
            None => None,
        },
        Method::ActivateSessionOnSeat => {
            let session = text(params, 0);
            let seat = text(params, 1);
            match (session, seat) {
                (Some(session), Some(seat)) => Some(
                    Request::ActivateSessionOnSeat { session, seat },
                ),
                _ => None,
            }
        },
    }
}

/// The answer to a call.
#[derive(Debug)]
pub enum Reply {
    /// The session was created, with this identifier.
    Created(SessionId),
    /// The call was carried out; this is to be done to the device files.
    Done(Vec<FileOperation>),
    /// No session was created.
    NotCreated(Error),
    /// The seat was not acquired.
    NotAcquired(AquireError),
}

/// The signed integer with the same 32 bits as `x`.
pub open spec fn as_signed(x: u32) -> i32 {
    if x <= i32::MAX {
        x as i32
    } else {
        (x - 0x1_0000_0000) as i32
    }
}

/// The signed integer with the same 32 bits as `x`.
pub fn to_signed(x: u32) -> (r: i32)
    ensures
        r == as_signed(x),
{
    if x <= 0x7fff_ffff {
        x as i32
    } else {
        ((x as i64) - 0x1_0000_0000) as i32
    }
}

/// Carries out one call on the manager and says how it went. A call that the
/// manager refuses changes nothing. `created` and `moved` are what the file
/// system answered when the group of a new session was to be made and the
/// session's process was to be moved into it; they count for `CreateSession`
/// alone.
pub fn serve(
    manager: &mut SessionManager,
    request: Request,
    created: Result<(), cgroupv2::Error>,
    moved: Result<(), cgroupv2::Error>,
) -> (reply: Reply)
    requires
        old(manager).wf(),
    ensures
        final(manager).wf(),
        match request {
            Request::CreateSession { uid, pid, tty, seat } => match reply {
                Reply::Created(id) => {
                    &&& can_create(old(manager)@, tty_view(tty), created, moved)
                    &&& id@ == as_text(decimal(old(manager)@.counter))
                    &&& final(manager)@ == old(manager)@.created(
                        as_signed(pid),
                        as_signed(uid),
                        tty_view(tty),
                    )
                },
                Reply::NotCreated(e) => {
                    &&& !can_create(old(manager)@, tty_view(tty), created, moved)
                    &&& is_creation_failure(e, old(manager)@, tty_view(tty), created, moved)
                    &&& final(manager)@ == old(manager)@
                },
                _ => false,
            },
            Request::ReleaseSession { session } => {
                &&& final(manager)@ == old(manager)@.removed(session@)
                &&& reply matches Reply::Done(ops) && operation_views(ops@) == old(
                    manager,
                )@.remove_operations(session@)
            },
            Request::ActivateSessionOnSeat { session, seat } => match reply {
                Reply::Done(ops) => {
                    &&& old(manager)@.refusal(session@, seat@) is None
                    &&& final(manager)@ == old(manager)@.acquired(session@, seat@)
                    &&& operation_views(ops@) == old(manager)@.acquire_operations(
                        session@,
                        seat@,
                    )
                },
                Reply::NotAcquired(e) => {
                    &&& final(manager)@ == old(manager)@
                    &&& match e {
                        AquireError::SeatTaken(id) => id@ == session@ && old(manager)@.refusal(
                            session@,
                            seat@,
                        ) == Some(Refusal::SeatTaken),
                        AquireError::UnknownSeat(id) => id@ == seat@ && old(manager)@.refusal(
                            session@,
                            seat@,
                        ) == Some(Refusal::UnknownSeat),
                        AquireError::UnknownSession(id) => id@ == session@ && old(
                            manager,
                        )@.refusal(session@, seat@) == Some(Refusal::UnknownSession),
                        AquireError::NoAccess(crate::acl::Error::NoAcl(path)) => old(
                            manager,
                        )@.refusal(session@, seat@) == Some(Refusal::NoAcl(path@)),
                    }
                },
                _ => false,
            },
        },
{
    match request {
        Request::CreateSession { uid, pid, tty, seat } => {
            match manager.add_new_session(
                to_signed(pid),
                to_signed(uid),
                seat.as_str(),
                tty,
                created,
                moved,
            ) {
                Ok(id) => Reply::Created(id),
                Err(e) => Reply::NotCreated(e),
            }
        },
        Request::ReleaseSession { session } => {
            Reply::Done(manager.remove_session(&SessionId::from(session.as_str())))
        },
        Request::ActivateSessionOnSeat { session, seat } => {
            match manager.session_aquire_seat(
                &SessionId::from(session.as_str()),
                &SeatId::from(seat.as_str()),
            ) {
                Ok(ops) => Reply::Done(ops),
                Err(e) => Reply::NotAcquired(e),
            }
        },
    }
}

} // verus!

//! Decisions of the cell wait-path command host: which commands go to a cell,
//! how a remote failure maps to a dispatch error, and the order in which one
//! routed invocation reserves, calls, validates, settles or abandons its
//! attempt. The transport and the ledger calls are made by the host around
//! these decisions.
use vstd::prelude::*;
use vstd::string::*;

use crate::command_ledger::reservation::{binding_part_error, ExternalDispatchBinding, BindingView};
use crate::command_ledger::{error_message, CommandLedgerError};
use crate::text::{decimal, push_decimal, push_str, str_eq};

verus! {

/// The code a refused remote call reports.
#[derive(Clone, Copy, Debug, PartialEq, Eq, Structural)]
pub enum RejectedCode {
    Unauthorized,
    NotFound,
    Rejected,
}

impl RejectedCode {
    pub fn as_str(&self) -> (r: &'static str)
        ensures
            r@ == rejected_code_name(*self),
    {
        match self {
            RejectedCode::Unauthorized => "UNAUTHORIZED",
            RejectedCode::NotFound => "NOT_FOUND",
            RejectedCode::Rejected => "REJECTED",
        }
    }
}

pub open spec fn rejected_code_name(c: RejectedCode) -> Seq<char> {
    match c {
        RejectedCode::Unauthorized => "UNAUTHORIZED"@,
        RejectedCode::NotFound => "NOT_FOUND"@,
        RejectedCode::Rejected => "REJECTED"@,
    }
}

/// Why a causal command dispatch failed.
#[derive(Clone, Debug)]
pub enum CausalDispatchError {
    BadRequest(String),
    Forbidden,
    CommandIdReuse,
    InProgress,
    Expired,
    Internal(String),
    Rejected { code: RejectedCode, status: u16, message: String },
}

/// `e` is `BadRequest` with message `m`.
pub open spec fn is_bad_request(e: CausalDispatchError, m: Seq<char>) -> bool {
    e matches CausalDispatchError::BadRequest(x) && x@ == m
}

/// `e` is `Internal` with message `m`.
pub open spec fn is_internal(e: CausalDispatchError, m: Seq<char>) -> bool {
    e matches CausalDispatchError::Internal(x) && x@ == m
}

/// `e` is `Rejected` with these code, status and message.
pub open spec fn is_rejected(e: CausalDispatchError, code: RejectedCode, status: u16, m: Seq<char>) -> bool {
    e matches CausalDispatchError::Rejected { code: c, status: s, message: x } && c == code && s
        == status && x@ == m
}

/// The error a cell's refusal maps to, from the HTTP status and the body's
/// `code` and `error` strings (absent when missing or not strings).
pub open spec fn remote_error_matches(
    e: CausalDispatchError,
    status: u16,
    code: Option<Seq<char>>,
    error: Option<Seq<char>>,
) -> bool {
    let message = match error {
        Some(m) => m,
        None => "wait-path rejected"@,
    };
    if code == Some("BAD_REQUEST"@) {
        is_bad_request(e, message)
    } else if code == Some("FORBIDDEN"@) {
        e is Forbidden
    } else if code == Some("COMMAND_ID_REUSE"@) {
        e is CommandIdReuse
    } else if code == Some("COMMAND_IN_PROGRESS"@) {
        e is InProgress
    } else if code == Some("COMMAND_EXPIRED"@) {
        e is Expired
    } else if code == Some("INTERNAL"@) {
        is_internal(e, "cell wait-path failed with HTTP "@ + decimal(status as nat))
    } else if code == Some("UNAUTHORIZED"@) {
        is_rejected(e, RejectedCode::Unauthorized, status, message)
    } else if code == Some("NOT_FOUND"@) {
        is_rejected(e, RejectedCode::NotFound, status, message)
    } else {
        is_rejected(e, RejectedCode::Rejected, status, message)
    }
}

pub open spec fn opt_str_view(o: Option<&str>) -> Option<Seq<char>> {
    match o {
        Some(s) => Some(s@),
        None => None,
    }
}

pub fn opt_str_is(o: Option<&str>, lit: &str) -> (r: bool)
    ensures
        r == (opt_str_view(o) == Some(lit@)),
{
    match o {
        Some(s) => str_eq(s, lit),
        None => false,
    }
}

/// Map a refused cell wait-path response to the dispatch error it reports.
pub fn remote_dispatch_error(status: u16, code: Option<&str>, error: Option<&str>) -> (r:
    CausalDispatchError)
    ensures
        remote_error_matches(r, status, opt_str_view(code), opt_str_view(error)),
{
    let message = match error {
        Some(m) => String::from_str(m),
        None => String::from_str("wait-path rejected"),
    };
    if opt_str_is(code, "BAD_REQUEST") {
        CausalDispatchError::BadRequest(message)
    } else if opt_str_is(code, "FORBIDDEN") {
        CausalDispatchError::Forbidden
    } else if opt_str_is(code, "COMMAND_ID_REUSE") {
        CausalDispatchError::CommandIdReuse
    } else if opt_str_is(code, "COMMAND_IN_PROGRESS") {
        CausalDispatchError::InProgress
    } else if opt_str_is(code, "COMMAND_EXPIRED") {
        CausalDispatchError::Expired
    } else if opt_str_is(code, "INTERNAL") {
        let mut m = String::from_str("cell wait-path failed with HTTP ");
        push_decimal(&mut m, status as u64);
        CausalDispatchError::Internal(m)
    } else if opt_str_is(code, "UNAUTHORIZED") {
        CausalDispatchError::Rejected { code: RejectedCode::Unauthorized, status, message }
    } else if opt_str_is(code, "NOT_FOUND") {
        CausalDispatchError::Rejected { code: RejectedCode::NotFound, status, message }
    } else {
        CausalDispatchError::Rejected { code: RejectedCode::Rejected, status, message }
    }
}

/// The base URL of the cell wait-path: the configured URL without trailing `/`.
pub open spec fn trimmed_url(url: Seq<char>) -> Seq<char>
    decreases url.len(),
{
    if url.len() > 0 && url.last() == '/' {
        trimmed_url(url.drop_last())
    } else {
        url
    }
}

pub fn celld_base_url(url: &str) -> (r: String)
    ensures
        r@ == trimmed_url(url@),
{
    let mut end = url.unicode_len();
    assert(url@.take(end as int) =~= url@);
    while end > 0 && url.get_char(end - 1) == '/'
        invariant
            end <= url@.len(),
            trimmed_url(url@) == trimmed_url(url@.take(end as int)),
        decreases end,
    {
        assert(url@.take(end as int).drop_last() =~= url@.take(end - 1));
        end = end - 1;
    }
    assert(url@.take(end as int) =~= url@.subrange(0, end as int));
    String::from_str(url.substring_char(0, end))
}

/// One aggregate's cell route: the command names it serves and its URL kind.
#[derive(Debug)]
pub struct RouteEntry {
    pub commands: Vec<String>,
    pub kind: String,
}

/// The routes of a cell command host, in registration order.
#[derive(Debug)]
pub struct RouteTable {
    pub routes: Vec<RouteEntry>,
}

pub open spec fn route_serves(r: RouteEntry, command: Seq<char>) -> bool {
    exists|j: int| 0 <= j < r.commands@.len() && (#[trigger] r.commands@[j])@ == command
}

/// The first registered route that serves `command`, if any.
pub open spec fn is_first_route(t: Seq<RouteEntry>, command: Seq<char>, i: int) -> bool {
    &&& 0 <= i < t.len()
    &&& route_serves(t[i], command)
    &&& forall|k: int| 0 <= k < i ==> !route_serves(#[trigger] t[k], command)
}

impl RouteTable {
    pub fn new() -> (r: RouteTable)
        ensures
            r.routes@.len() == 0,
    {
        RouteTable { routes: Vec::new() }
    }

    /// Register a route after the existing ones.
    pub fn route(self, entry: RouteEntry) -> (r: RouteTable)
        ensures
            r.routes@ == self.routes@.push(entry),
    {
        let mut s = self;
        s.routes.push(entry);
        s
    }

    /// The route that handles `command`: the first one that lists it.
    pub fn route_for(&self, command: &str) -> (r: Option<usize>)
        ensures
            match r {
                Some(i) => is_first_route(self.routes@, command@, i as int),
                None => forall|k: int| 0 <= k < self.routes@.len() ==> !route_serves(#[trigger] self.routes@[k], command@),
            },
    {
        let mut i: usize = 0;
        while i < self.routes.len()
            invariant
                i <= self.routes@.len(),
                forall|k: int| 0 <= k < i ==> !route_serves(#[trigger] self.routes@[k], command@),
            decreases self.routes.len() - i,
        {
            let entry = &self.routes[i];
            let mut j: usize = 0;
            while j < entry.commands.len()
                invariant
                    i < self.routes@.len(),
                    *entry == self.routes@[i as int],
                    forall|k: int| 0 <= k < i ==> !route_serves(#[trigger] self.routes@[k], command@),
                    j <= entry.commands@.len(),
                    forall|q: int| 0 <= q < j ==> (#[trigger] entry.commands@[q])@ != command@,
                decreases entry.commands.len() - j,
            {
                if str_eq(entry.commands[j].as_str(), command) {
                    assert(0 <= j < entry.commands@.len() && entry.commands@[j as int]@ == command@);
                    assert(route_serves(self.routes@[i as int], command@));
                    return Some(i);
                }
                j = j + 1;
            }
            i = i + 1;
        }
        None
    }
}

/// Where one routed invocation stands.
#[derive(Debug)]
pub enum WaitPathPhase {
    /// The principal and session are being checked.
    CheckingSession,
    /// The command is not routed; the local host runs it.
    Local,
    /// The route reads the shard identity from the input.
    ReadingShard,
    /// The executable service's name is being resolved.
    NamingService,
    /// The external attempt is being reserved in the local ledger.
    Reserving,
    /// The transport is retargeted to the cell's kind and shard.
    Retargeting,
    /// The wait-path request is posted to the cell.
    Posting,
    /// The cell's reply body is decoded.
    Decoding,
    /// The decoded reply is checked against the reserved attempt.
    ValidatingRemote,
    /// The route's payload shaping is applied to the reply.
    ApplyingPayload,
    /// The reply is sealed for the projection protocol.
    Sealing,
    /// The external completion is stored.
    Completing,
    /// The attempt is abandoned before `error` is reported.
    Abandoning(CausalDispatchError),
    /// The invocation has finished.
    Done,
}

/// One routed invocation's decision state.
#[derive(Debug)]
pub struct WaitPath {
    pub phase: WaitPathPhase,
    pub route: Option<usize>,
    pub kind: String,
    pub shard: String,
    pub has_protocol: bool,
}

/// How the ledger answered the reservation.
#[derive(Debug)]
pub enum ExternalReservation {
    /// This invocation owns a fresh or reclaimed attempt.
    Acquired,
    /// The command already finished; its replay is the answer.
    Replay,
}

/// What the cell answered, as far as the host's decisions read it.
#[derive(Debug)]
pub struct RemoteReply {
    pub status: u16,
    /// The body's `code` string, when present.
    pub code: Option<String>,
    /// The body's `error` string, when present.
    pub error: Option<String>,
}

/// The result of the last step the host performed.
#[derive(Debug)]
pub enum WaitPathEvent {
    SessionChecked(Result<(), CausalDispatchError>),
    LocalFinished,
    ShardRead(Option<String>),
    ServiceNamed(Option<String>),
    Reserved(Result<ExternalReservation, CausalDispatchError>),
    Retargeted(Result<(), CausalDispatchError>),
    Posted(Result<RemoteReply, CausalDispatchError>),
    /// Decoding the reply body; the error text on failure.
    Decoded(Result<(), String>),
    RemoteValidated(Result<(), CausalDispatchError>),
    PayloadApplied,
    Sealed(Result<(), CausalDispatchError>),
    Completed(Result<(), CausalDispatchError>),
    Abandoned,
}

/// How an invocation ends.
#[derive(Debug)]
pub enum WaitPathOutcome {
    /// The local host's own result is the answer.
    Local,
    /// The ledger's replay of the finished command is the answer.
    Replay,
    /// The cell's reply, completed in the ledger, is the answer.
    Remote,
    Failed(CausalDispatchError),
}

/// The next thing the host does.
#[derive(Debug)]
pub enum WaitPathAction {
    ValidateSession,
    InvokeLocal,
    ReadShard { route: usize },
    NameService,
    Reserve { binding: ExternalDispatchBinding },
    Retarget,
    Post,
    Decode,
    ValidateRemote,
    ApplyPayload { route: usize },
    Seal,
    Complete,
    Abandon,
    Finish(WaitPathOutcome),
}

/// The invocation owns a reserved attempt that is neither completed nor abandoned.
pub open spec fn holds_attempt(p: WaitPathPhase) -> bool {
    p is Retargeting || p is Posting || p is Decoding || p is ValidatingRemote
        || p is ApplyingPayload || p is Sealing || p is Completing || p is Abandoning
}

/// The event is the answer to the step the phase waits for.
pub open spec fn answers(p: WaitPathPhase, e: WaitPathEvent) -> bool {
    match p {
        WaitPathPhase::CheckingSession => e is SessionChecked,
        WaitPathPhase::Local => e is LocalFinished,
        WaitPathPhase::ReadingShard => e is ShardRead,
        WaitPathPhase::NamingService => e is ServiceNamed,
        WaitPathPhase::Reserving => e is Reserved,
        WaitPathPhase::Retargeting => e is Retargeted,
        WaitPathPhase::Posting => e is Posted,
        WaitPathPhase::Decoding => e is Decoded,
        WaitPathPhase::ValidatingRemote => e is RemoteValidated,
        WaitPathPhase::ApplyingPayload => e is PayloadApplied,
        WaitPathPhase::Sealing => e is Sealed,
        WaitPathPhase::Completing => e is Completed,
        WaitPathPhase::Abandoning(_) => e is Abandoned,
        WaitPathPhase::Done => false,
    }
}

/// The step fails with `err` after abandoning the attempt.
pub open spec fn abandons(n: WaitPath, a: WaitPathAction, err: CausalDispatchError) -> bool {
    n.phase == WaitPathPhase::Abandoning(err) && a is Abandon
}

/// The invocation ends with `o`.
pub open spec fn finishes(n: WaitPath, a: WaitPathAction, o: WaitPathOutcome) -> bool {
    n.phase is Done && a == WaitPathAction::Finish(o)
}

/// The error the invocation finishes with at once, if it does.
pub open spec fn fails_with(n: WaitPath, a: WaitPathAction) -> Option<CausalDispatchError> {
    match (n.phase, a) {
        (WaitPathPhase::Done, WaitPathAction::Finish(WaitPathOutcome::Failed(e))) => Some(e),
        _ => None,
    }
}

/// The exact decision for each phase and answer.
pub open spec fn step_spec(w: WaitPath, e: WaitPathEvent, n: WaitPath, a: WaitPathAction) -> bool {
    &&& n.route == w.route
    &&& n.has_protocol == w.has_protocol
    &&& match (w.phase, e) {
        (WaitPathPhase::CheckingSession, WaitPathEvent::SessionChecked(Err(err))) => finishes(
            n,
            a,
            WaitPathOutcome::Failed(err),
        ) && n.kind == w.kind && n.shard == w.shard,
        (WaitPathPhase::CheckingSession, WaitPathEvent::SessionChecked(Ok(()))) => (match w.route {
            None => n.phase is Local && a is InvokeLocal,
            Some(i) => n.phase is ReadingShard && a == WaitPathAction::ReadShard { route: i },
        }) && n.kind == w.kind && n.shard == w.shard,
        (WaitPathPhase::Local, WaitPathEvent::LocalFinished) => finishes(
            n,
            a,
            WaitPathOutcome::Local,
        ) && n.kind == w.kind && n.shard == w.shard,
        (WaitPathPhase::ReadingShard, WaitPathEvent::ShardRead(shard)) => n.kind == w.kind && (if shard is Some
            && shard->0@.len() > 0 {
            n.phase is NamingService && a is NameService && n.shard == shard->0
        } else {
            fails_with(n, a) is Some && is_bad_request(
                fails_with(n, a)->0,
                w.kind@ + " id required for celld wait-path"@,
            )
        }),
        (WaitPathPhase::NamingService, WaitPathEvent::ServiceNamed(name)) => n.kind == w.kind
            && n.shard == w.shard && match name {
            None => fails_with(n, a) is Some && is_internal(
                fails_with(n, a)->0,
                "celld command host requires a named executable service"@,
            ),
            Some(_) => match binding_part_error("external route kind"@, w.kind@) {
                Some(m) => fails_with(n, a) is Some && is_bad_request(fails_with(n, a)->0, m),
                None => match binding_part_error("external shard"@, w.shard@) {
                    Some(m) => fails_with(n, a) is Some && is_bad_request(fails_with(n, a)->0, m),
                    None => n.phase is Reserving && (a matches WaitPathAction::Reserve { binding }
                        && binding@ == (BindingView {
                        version: 1,
                        route_kind: w.kind@,
                        shard: w.shard@,
                    })),
                },
            },
        },
        (WaitPathPhase::Reserving, WaitPathEvent::Reserved(res)) => n.kind == w.kind && n.shard
            == w.shard && match res {
            Err(err) => finishes(n, a, WaitPathOutcome::Failed(err)),
            Ok(ExternalReservation::Replay) => finishes(n, a, WaitPathOutcome::Replay),
            Ok(ExternalReservation::Acquired) => n.phase is Retargeting && a is Retarget,
        },
        (WaitPathPhase::Retargeting, WaitPathEvent::Retargeted(res)) => n.kind == w.kind && n.shard
            == w.shard && match res {
            Err(err) => abandons(n, a, err),
            Ok(()) => n.phase is Posting && a is Post,
        },
        (WaitPathPhase::Posting, WaitPathEvent::Posted(res)) => n.kind == w.kind && n.shard
            == w.shard && match res {
            Err(err) => abandons(n, a, err),
            Ok(reply) => if reply.status >= 400 {
                n.phase matches WaitPathPhase::Abandoning(err) && a is Abandon && remote_error_matches(
                    err,
                    reply.status,
                    match reply.code {
                        Some(c) => Some(c@),
                        None => None,
                    },
                    match reply.error {
                        Some(c) => Some(c@),
                        None => None,
                    },
                )
            } else {
                n.phase is Decoding && a is Decode
            },
        },
        (WaitPathPhase::Decoding, WaitPathEvent::Decoded(res)) => n.kind == w.kind && n.shard
            == w.shard && match res {
            Err(msg) => n.phase matches WaitPathPhase::Abandoning(err) && a is Abandon
                && is_internal(err, "wait-path decode: "@ + msg@),
            Ok(()) => n.phase is ValidatingRemote && a is ValidateRemote,
        },
        (WaitPathPhase::ValidatingRemote, WaitPathEvent::RemoteValidated(res)) => n.kind == w.kind
            && n.shard == w.shard && match res {
            Err(err) => abandons(n, a, err),
            Ok(()) => n.phase is ApplyingPayload && w.route is Some && a
                == WaitPathAction::ApplyPayload { route: w.route->0 },
        },
        (WaitPathPhase::ApplyingPayload, WaitPathEvent::PayloadApplied) => n.kind == w.kind
            && n.shard == w.shard && (if w.has_protocol {
            n.phase is Sealing && a is Seal
        } else {
            n.phase is Completing && a is Complete
        }),
        (WaitPathPhase::Sealing, WaitPathEvent::Sealed(res)) => n.kind == w.kind && n.shard
            == w.shard && match res {
            Err(err) => abandons(n, a, err),
            Ok(()) => n.phase is Completing && a is Complete,
        },
        (WaitPathPhase::Completing, WaitPathEvent::Completed(res)) => n.kind == w.kind && n.shard
            == w.shard && match res {
            Err(err) => finishes(n, a, WaitPathOutcome::Failed(err)),
            Ok(()) => finishes(n, a, WaitPathOutcome::Remote),
        },
        (WaitPathPhase::Abandoning(err), WaitPathEvent::Abandoned) => n.kind == w.kind && n.shard
            == w.shard && finishes(n, a, WaitPathOutcome::Failed(err)),
        _ => false,
    }
}

/// A routed phase knows its route.
pub open spec fn well_formed(w: WaitPath) -> bool {
    !(w.phase is CheckingSession || w.phase is Local || w.phase is Done) ==> w.route is Some
}

impl WaitPath {
    /// Begin an invocation of `command`: the session is checked first, and
    /// the route that will serve the command is the first that lists it.
    pub fn start(routes: &RouteTable, command: &str, has_protocol: bool) -> (r: (
        WaitPath,
        WaitPathAction,
    ))
        ensures
            r.0.phase is CheckingSession,
            r.1 is ValidateSession,
            r.0.has_protocol == has_protocol,
            match r.0.route {
                Some(i) => is_first_route(routes.routes@, command@, i as int)
                    && r.0.kind@ == routes.routes@[i as int].kind@,
                None => forall|k: int|
                    0 <= k < routes.routes@.len() ==> !route_serves(#[trigger] routes.routes@[k], command@),
            },
            well_formed(r.0),
    {
        let route = routes.route_for(command);
        let kind = match route {
            Some(i) => routes.routes[i].kind.clone(),
            None => String::new(),
        };
        (
            WaitPath { phase: WaitPathPhase::CheckingSession, route, kind, shard: String::new(), has_protocol },
            WaitPathAction::ValidateSession,
        )
    }

    /// Whether `event` answers the step this invocation waits for.
    pub fn accepts(&self, event: &WaitPathEvent) -> (r: bool)
        ensures
            r == answers(self.phase, *event),
    {
        match (&self.phase, event) {
            (WaitPathPhase::CheckingSession, WaitPathEvent::SessionChecked(_)) => true,
            (WaitPathPhase::Local, WaitPathEvent::LocalFinished) => true,
            (WaitPathPhase::ReadingShard, WaitPathEvent::ShardRead(_)) => true,
            (WaitPathPhase::NamingService, WaitPathEvent::ServiceNamed(_)) => true,
            (WaitPathPhase::Reserving, WaitPathEvent::Reserved(_)) => true,
            (WaitPathPhase::Retargeting, WaitPathEvent::Retargeted(_)) => true,
            (WaitPathPhase::Posting, WaitPathEvent::Posted(_)) => true,
            (WaitPathPhase::Decoding, WaitPathEvent::Decoded(_)) => true,
            (WaitPathPhase::ValidatingRemote, WaitPathEvent::RemoteValidated(_)) => true,
            (WaitPathPhase::ApplyingPayload, WaitPathEvent::PayloadApplied) => true,
            (WaitPathPhase::Sealing, WaitPathEvent::Sealed(_)) => true,
            (WaitPathPhase::Completing, WaitPathEvent::Completed(_)) => true,
            (WaitPathPhase::Abandoning(_), WaitPathEvent::Abandoned) => true,
            _ => false,
        }
    }

    /// Decide the next step from the answer to the current one. Once an
    /// attempt is reserved, every failure first abandons it, except a failed
    /// completion, which the ledger already fenced.
    pub fn step(self, event: WaitPathEvent) -> (r: (WaitPath, WaitPathAction))
        requires
            answers(self.phase, event),
            well_formed(self),
        ensures
            step_spec(self, event, r.0, r.1),
            well_formed(r.0),
            holds_attempt(self.phase) && r.1 is Finish ==> (self.phase is Abandoning
                || self.phase is Completing),
            holds_attempt(self.phase) && !(self.phase is Completing) ==> holds_attempt(r.0.phase)
                || r.1 is Finish && self.phase is Abandoning,
            !holds_attempt(self.phase) && holds_attempt(r.0.phase) ==> event matches WaitPathEvent::Reserved(Ok(ExternalReservation::Acquired)),
    {
        let WaitPath { phase, route, kind, shard, has_protocol } = self;
        let ghost w = self;
        match (phase, event) {
            (WaitPathPhase::CheckingSession, WaitPathEvent::SessionChecked(Err(err))) => (
                WaitPath { phase: WaitPathPhase::Done, route, kind, shard, has_protocol },
                WaitPathAction::Finish(WaitPathOutcome::Failed(err)),
            ),
            (WaitPathPhase::CheckingSession, WaitPathEvent::SessionChecked(Ok(()))) => {
                match route {
                    None => (
                        WaitPath { phase: WaitPathPhase::Local, route, kind, shard, has_protocol },
                        WaitPathAction::InvokeLocal,
                    ),
                    Some(i) => (
                        WaitPath { phase: WaitPathPhase::ReadingShard, route, kind, shard, has_protocol },
                        WaitPathAction::ReadShard { route: i },
                    ),
                }
            },
            (WaitPathPhase::Local, WaitPathEvent::LocalFinished) => (
                WaitPath { phase: WaitPathPhase::Done, route, kind, shard, has_protocol },
                WaitPathAction::Finish(WaitPathOutcome::Local),
            ),
            (WaitPathPhase::ReadingShard, WaitPathEvent::ShardRead(read)) => {
                match read {
                    Some(s) => {
                        if s.as_str().is_empty() {
                            let mut m = kind.clone();
                            push_str(&mut m, " id required for celld wait-path");
                            (
                                WaitPath { phase: WaitPathPhase::Done, route, kind, shard, has_protocol },
                                WaitPathAction::Finish(
                                    WaitPathOutcome::Failed(CausalDispatchError::BadRequest(m)),
                                ),
                            )
                        } else {
                            (
                                WaitPath {
                                    phase: WaitPathPhase::NamingService,
                                    route,
                                    kind,
                                    shard: s,
                                    has_protocol,
                                },
                                WaitPathAction::NameService,
                            )
                        }
                    },
                    None => {
                        let mut m = kind.clone();
                        push_str(&mut m, " id required for celld wait-path");
                        (
                            WaitPath { phase: WaitPathPhase::Done, route, kind, shard, has_protocol },
                            WaitPathAction::Finish(
                                WaitPathOutcome::Failed(CausalDispatchError::BadRequest(m)),
                            ),
                        )
                    },
                }
            },
            (WaitPathPhase::NamingService, WaitPathEvent::ServiceNamed(name)) => {
                if name.is_none() {
                    return (
                        WaitPath { phase: WaitPathPhase::Done, route, kind, shard, has_protocol },
                        WaitPathAction::Finish(
                            WaitPathOutcome::Failed(
                                CausalDispatchError::Internal(
                                    String::from_str(
                                        "celld command host requires a named executable service",
                                    ),
                                ),
                            ),
                        ),
                    );
                }
                match ExternalDispatchBinding::new(kind.as_str(), shard.as_str()) {
                    Ok(binding) => (
                        WaitPath { phase: WaitPathPhase::Reserving, route, kind, shard, has_protocol },
                        WaitPathAction::Reserve { binding },
                    ),
                    Err(e) => {
                        let m = String::from_str(e.message());
                        (
                            WaitPath { phase: WaitPathPhase::Done, route, kind, shard, has_protocol },
                            WaitPathAction::Finish(
                                WaitPathOutcome::Failed(CausalDispatchError::BadRequest(m)),
                            ),
                        )
                    },
                }
            },
            (WaitPathPhase::Reserving, WaitPathEvent::Reserved(res)) => match res {
                Err(err) => (
                    WaitPath { phase: WaitPathPhase::Done, route, kind, shard, has_protocol },
                    WaitPathAction::Finish(WaitPathOutcome::Failed(err)),
                ),
                Ok(ExternalReservation::Replay) => (
                    WaitPath { phase: WaitPathPhase::Done, route, kind, shard, has_protocol },
                    WaitPathAction::Finish(WaitPathOutcome::Replay),
                ),
                Ok(ExternalReservation::Acquired) => (
                    WaitPath { phase: WaitPathPhase::Retargeting, route, kind, shard, has_protocol },
                    WaitPathAction::Retarget,
                ),
            },
            (WaitPathPhase::Retargeting, WaitPathEvent::Retargeted(res)) => match res {
                Err(err) => (
                    WaitPath { phase: WaitPathPhase::Abandoning(err), route, kind, shard, has_protocol },
                    WaitPathAction::Abandon,
                ),
                Ok(()) => (
                    WaitPath { phase: WaitPathPhase::Posting, route, kind, shard, has_protocol },
                    WaitPathAction::Post,
                ),
            },
            (WaitPathPhase::Posting, WaitPathEvent::Posted(res)) => match res {
                Err(err) => (
                    WaitPath { phase: WaitPathPhase::Abandoning(err), route, kind, shard, has_protocol },
                    WaitPathAction::Abandon,
                ),
                Ok(reply) => {
                    if reply.status >= 400 {
                        let code = match &reply.code {
                            Some(c) => Some(c.as_str()),
                            None => None,
                        };
                        let error = match &reply.error {
                            Some(c) => Some(c.as_str()),
                            None => None,
                        };
                        let err = remote_dispatch_error(reply.status, code, error);
                        (
                            WaitPath {
                                phase: WaitPathPhase::Abandoning(err),
                                route,
                                kind,
                                shard,
                                has_protocol,
                            },
                            WaitPathAction::Abandon,
                        )
                    } else {
                        (
                            WaitPath { phase: WaitPathPhase::Decoding, route, kind, shard, has_protocol },
                            WaitPathAction::Decode,
                        )
                    }
                },
            },
            (WaitPathPhase::Decoding, WaitPathEvent::Decoded(res)) => match res {
                Err(msg) => {
                    let mut m = String::from_str("wait-path decode: ");
                    push_str(&mut m, msg.as_str());
                    (
                        WaitPath {
                            phase: WaitPathPhase::Abandoning(CausalDispatchError::Internal(m)),
                            route,
                            kind,
                            shard,
                            has_protocol,
                        },
                        WaitPathAction::Abandon,
                    )
                },
                Ok(()) => (
                    WaitPath { phase: WaitPathPhase::ValidatingRemote, route, kind, shard, has_protocol },
                    WaitPathAction::ValidateRemote,
                ),
            },
            (WaitPathPhase::ValidatingRemote, WaitPathEvent::RemoteValidated(res)) => match res {
                Err(err) => (
                    WaitPath { phase: WaitPathPhase::Abandoning(err), route, kind, shard, has_protocol },
                    WaitPathAction::Abandon,
                ),
                Ok(()) => {
                    let i = match route {
                        Some(i) => i,
                        None => 0,
                    };
                    (
                        WaitPath { phase: WaitPathPhase::ApplyingPayload, route, kind, shard, has_protocol },
                        WaitPathAction::ApplyPayload { route: i },
                    )
                },
            },
            (WaitPathPhase::ApplyingPayload, WaitPathEvent::PayloadApplied) => {
                if has_protocol {
                    (
                        WaitPath { phase: WaitPathPhase::Sealing, route, kind, shard, has_protocol },
                        WaitPathAction::Seal,
                    )
                } else {
                    (
                        WaitPath { phase: WaitPathPhase::Completing, route, kind, shard, has_protocol },
                        WaitPathAction::Complete,
                    )
                }
            },
            (WaitPathPhase::Sealing, WaitPathEvent::Sealed(res)) => match res {
                Err(err) => (
                    WaitPath { phase: WaitPathPhase::Abandoning(err), route, kind, shard, has_protocol },
                    WaitPathAction::Abandon,
                ),
                Ok(()) => (
                    WaitPath { phase: WaitPathPhase::Completing, route, kind, shard, has_protocol },
                    WaitPathAction::Complete,
                ),
            },
            (WaitPathPhase::Completing, WaitPathEvent::Completed(res)) => match res {
                Err(err) => (
                    WaitPath { phase: WaitPathPhase::Done, route, kind, shard, has_protocol },
                    WaitPathAction::Finish(WaitPathOutcome::Failed(err)),
                ),
                Ok(()) => (
                    WaitPath { phase: WaitPathPhase::Done, route, kind, shard, has_protocol },
                    WaitPathAction::Finish(WaitPathOutcome::Remote),
                ),
            },
            (WaitPathPhase::Abandoning(err), WaitPathEvent::Abandoned) => (
                WaitPath { phase: WaitPathPhase::Done, route, kind, shard, has_protocol },
                WaitPathAction::Finish(WaitPathOutcome::Failed(err)),
            ),
            (phase, _) => {
                proof {
                    assert(false);
                }
                (
                    WaitPath { phase: WaitPathPhase::Done, route, kind, shard, has_protocol },
                    WaitPathAction::Finish(WaitPathOutcome::Local),
                )
            },
        }
    }
}

/// Every HTTP status of 400 and above is a refusal: when the cell answers
/// the post with such a status the attempt is abandoned with the error the
/// refusal maps to (a `BAD_REQUEST` code gives `BadRequest` with the body's
/// message), and only a status below 400 goes on to decode the reply.
pub proof fn lemma_posted_refusal_abandons(w: WaitPath, reply: RemoteReply, n: WaitPath, a: WaitPathAction)
    requires
        w.phase is Posting,
        step_spec(w, WaitPathEvent::Posted(Ok(reply)), n, a),
    ensures
        (a is Abandon) <==> reply.status >= 400,
        (a is Decode) <==> reply.status < 400,
        reply.status >= 400 ==> n.phase is Abandoning && remote_error_matches(
            n.phase->Abandoning_0,
            reply.status,
            match reply.code {
                Some(c) => Some(c@),
                None => None,
            },
            match reply.error {
                Some(c) => Some(c@),
                None => None,
            },
        ),
        reply.status >= 400 && (match reply.code {
            Some(c) => c@ == "BAD_REQUEST"@,
            None => false,
        }) ==> is_bad_request(
            n.phase->Abandoning_0,
            match reply.error {
                Some(t) => t@,
                None => "wait-path rejected"@,
            },
        ),
        reply.status < 400 ==> n.phase is Decoding,
{
    if reply.status >= 400 {
        let err = n.phase->Abandoning_0;
        assert(remote_error_matches(
            err,
            reply.status,
            match reply.code {
                Some(c) => Some(c@),
                None => None,
            },
            match reply.error {
                Some(c) => Some(c@),
                None => None,
            },
        ));
    }
}

} // verus!

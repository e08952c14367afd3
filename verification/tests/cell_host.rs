use distributed::cell_host::{
    celld_base_url, remote_dispatch_error, CausalDispatchError, ExternalReservation, RejectedCode,
    RemoteReply, RouteEntry, RouteTable, WaitPath, WaitPathAction, WaitPathEvent, WaitPathOutcome,
};

fn routes() -> RouteTable {
    RouteTable::new()
        .route(RouteEntry {
            commands: vec!["CreateIssue".into(), "CloseIssue".into()],
            kind: "repository".into(),
        })
        .route(RouteEntry {
            commands: vec!["CloseIssue".into(), "Ping".into()],
            kind: "chat".into(),
        })
}

fn drive(
    has_protocol: bool,
    command: &str,
    events: Vec<WaitPathEvent>,
) -> (Vec<String>, WaitPathAction) {
    let table = routes();
    let (mut path, mut action) = WaitPath::start(&table, command, has_protocol);
    let mut seen = Vec::new();
    for event in events {
        seen.push(format!("{action:?}"));
        assert!(path.accepts(&event));
        let (next, next_action) = path.step(event);
        path = next;
        action = next_action;
    }
    (seen, action)
}

#[test]
fn remote_refusals_map_to_dispatch_errors() {
    assert!(matches!(
        remote_dispatch_error(400, Some("BAD_REQUEST"), Some("bad shard")),
        CausalDispatchError::BadRequest(m) if m == "bad shard"
    ));
    assert!(matches!(
        remote_dispatch_error(403, Some("FORBIDDEN"), None),
        CausalDispatchError::Forbidden
    ));
    assert!(matches!(
        remote_dispatch_error(409, Some("COMMAND_ID_REUSE"), None),
        CausalDispatchError::CommandIdReuse
    ));
    assert!(matches!(
        remote_dispatch_error(409, Some("COMMAND_IN_PROGRESS"), None),
        CausalDispatchError::InProgress
    ));
    assert!(matches!(
        remote_dispatch_error(410, Some("COMMAND_EXPIRED"), None),
        CausalDispatchError::Expired
    ));
    assert!(matches!(
        remote_dispatch_error(503, Some("INTERNAL"), Some("boom")),
        CausalDispatchError::Internal(m) if m == "cell wait-path failed with HTTP 503"
    ));
    assert!(matches!(
        remote_dispatch_error(401, Some("UNAUTHORIZED"), None),
        CausalDispatchError::Rejected { code: RejectedCode::Unauthorized, status: 401, message }
            if message == "wait-path rejected"
    ));
    assert!(matches!(
        remote_dispatch_error(404, Some("NOT_FOUND"), Some("gone")),
        CausalDispatchError::Rejected { code: RejectedCode::NotFound, status: 404, message }
            if message == "gone"
    ));
    assert!(matches!(
        remote_dispatch_error(418, Some("TEAPOT"), None),
        CausalDispatchError::Rejected { code: RejectedCode::Rejected, status: 418, .. }
    ));
    assert!(matches!(
        remote_dispatch_error(500, None, Some("x")),
        CausalDispatchError::Rejected { code: RejectedCode::Rejected, status: 500, message }
            if message == "x"
    ));
    assert_eq!(RejectedCode::NotFound.as_str(), "NOT_FOUND");
}

#[test]
fn base_url_drops_trailing_slashes() {
    assert_eq!(celld_base_url("http://cells:8080//"), "http://cells:8080");
    assert_eq!(celld_base_url("http://cells"), "http://cells");
    assert_eq!(celld_base_url("///"), "");
}

#[test]
fn first_registered_route_serves_a_command() {
    let table = routes();
    assert_eq!(table.route_for("CreateIssue"), Some(0));
    assert_eq!(table.route_for("CloseIssue"), Some(0));
    assert_eq!(table.route_for("Ping"), Some(1));
    assert_eq!(table.route_for("Unknown"), None);
}

#[test]
fn unrouted_commands_run_locally_after_the_session_check() {
    let (_, action) = drive(
        false,
        "Unknown",
        vec![WaitPathEvent::SessionChecked(Ok(())), WaitPathEvent::LocalFinished],
    );
    assert!(matches!(action, WaitPathAction::Finish(WaitPathOutcome::Local)));
    let (_, action) = drive(
        false,
        "CreateIssue",
        vec![WaitPathEvent::SessionChecked(Err(CausalDispatchError::Forbidden))],
    );
    assert!(matches!(
        action,
        WaitPathAction::Finish(WaitPathOutcome::Failed(CausalDispatchError::Forbidden))
    ));
}

fn happy_prefix() -> Vec<WaitPathEvent> {
    vec![
        WaitPathEvent::SessionChecked(Ok(())),
        WaitPathEvent::ShardRead(Some("repo-1".into())),
        WaitPathEvent::ServiceNamed(Some("forge".into())),
        WaitPathEvent::Reserved(Ok(ExternalReservation::Acquired)),
    ]
}

#[test]
fn routed_commands_reserve_post_validate_seal_and_complete() {
    let mut events = happy_prefix();
    events.extend([
        WaitPathEvent::Retargeted(Ok(())),
        WaitPathEvent::Posted(Ok(RemoteReply {
            status: 200,
            code: None,
            error: None,
        })),
        WaitPathEvent::Decoded(Ok(())),
        WaitPathEvent::RemoteValidated(Ok(())),
        WaitPathEvent::PayloadApplied,
        WaitPathEvent::Sealed(Ok(())),
        WaitPathEvent::Completed(Ok(())),
    ]);
    let (seen, action) = drive(true, "CreateIssue", events);
    assert!(matches!(action, WaitPathAction::Finish(WaitPathOutcome::Remote)));
    assert_eq!(seen[0], "ValidateSession");
    assert_eq!(seen[1], "ReadShard { route: 0 }");
    assert_eq!(seen[2], "NameService");
    assert!(seen[3].starts_with("Reserve"));
    assert_eq!(&seen[4..], &["Retarget", "Post", "Decode", "ValidateRemote", "ApplyPayload { route: 0 }", "Seal", "Complete"]);
    let mut events = happy_prefix();
    events.extend([
        WaitPathEvent::Retargeted(Ok(())),
        WaitPathEvent::Posted(Ok(RemoteReply {
            status: 200,
            code: None,
            error: None,
        })),
        WaitPathEvent::Decoded(Ok(())),
        WaitPathEvent::RemoteValidated(Ok(())),
        WaitPathEvent::PayloadApplied,
    ]);
    let (_, action) = drive(false, "Ping", events);
    assert!(matches!(action, WaitPathAction::Complete));
}

#[test]
fn replays_and_early_failures_finish_without_an_attempt() {
    let mut events = happy_prefix();
    events.pop();
    events.push(WaitPathEvent::Reserved(Ok(ExternalReservation::Replay)));
    let (_, action) = drive(false, "CreateIssue", events);
    assert!(matches!(action, WaitPathAction::Finish(WaitPathOutcome::Replay)));
    let (_, action) = drive(
        false,
        "CreateIssue",
        vec![
            WaitPathEvent::SessionChecked(Ok(())),
            WaitPathEvent::ShardRead(Some(String::new())),
        ],
    );
    assert!(matches!(
        action,
        WaitPathAction::Finish(WaitPathOutcome::Failed(CausalDispatchError::BadRequest(m)))
            if m == "repository id required for celld wait-path"
    ));
    let (_, action) = drive(
        false,
        "Ping",
        vec![WaitPathEvent::SessionChecked(Ok(())), WaitPathEvent::ShardRead(None)],
    );
    assert!(matches!(
        action,
        WaitPathAction::Finish(WaitPathOutcome::Failed(CausalDispatchError::BadRequest(m)))
            if m == "chat id required for celld wait-path"
    ));
    let (_, action) = drive(
        false,
        "CreateIssue",
        vec![
            WaitPathEvent::SessionChecked(Ok(())),
            WaitPathEvent::ShardRead(Some("x".into())),
            WaitPathEvent::ServiceNamed(None),
        ],
    );
    assert!(matches!(
        action,
        WaitPathAction::Finish(WaitPathOutcome::Failed(CausalDispatchError::Internal(m)))
            if m == "celld command host requires a named executable service"
    ));
    let (_, action) = drive(
        false,
        "CreateIssue",
        vec![
            WaitPathEvent::SessionChecked(Ok(())),
            WaitPathEvent::ShardRead(Some("bad\nshard".into())),
            WaitPathEvent::ServiceNamed(Some("forge".into())),
        ],
    );
    assert!(matches!(
        action,
        WaitPathAction::Finish(WaitPathOutcome::Failed(CausalDispatchError::BadRequest(m)))
            if m == "external shard must be at most 256 bytes and contain no control characters"
    ));
}

#[test]
fn failures_after_reservation_abandon_the_attempt_first() {
    let failures: Vec<Vec<WaitPathEvent>> = vec![
        vec![WaitPathEvent::Retargeted(Err(CausalDispatchError::Expired))],
        vec![
            WaitPathEvent::Retargeted(Ok(())),
            WaitPathEvent::Posted(Err(CausalDispatchError::InProgress)),
        ],
        vec![
            WaitPathEvent::Retargeted(Ok(())),
            WaitPathEvent::Posted(Ok(RemoteReply {
                status: 404,
                code: Some("NOT_FOUND".into()),
                error: Some("no such issue".into()),
            })),
        ],
        vec![
            WaitPathEvent::Retargeted(Ok(())),
            WaitPathEvent::Posted(Ok(RemoteReply {
                status: 200,
                code: None,
                error: None,
            })),
            WaitPathEvent::Decoded(Err("missing field `receipt`".into())),
        ],
        vec![
            WaitPathEvent::Retargeted(Ok(())),
            WaitPathEvent::Posted(Ok(RemoteReply {
                status: 200,
                code: None,
                error: None,
            })),
            WaitPathEvent::Decoded(Ok(())),
            WaitPathEvent::RemoteValidated(Err(CausalDispatchError::Forbidden)),
        ],
        vec![
            WaitPathEvent::Retargeted(Ok(())),
            WaitPathEvent::Posted(Ok(RemoteReply {
                status: 200,
                code: None,
                error: None,
            })),
            WaitPathEvent::Decoded(Ok(())),
            WaitPathEvent::RemoteValidated(Ok(())),
            WaitPathEvent::PayloadApplied,
            WaitPathEvent::Sealed(Err(CausalDispatchError::CommandIdReuse)),
        ],
    ];
    let mut messages = Vec::new();
    for tail in failures {
        let mut events = happy_prefix();
        events.extend(tail);
        let (_, action) = drive(true, "CreateIssue", events.clone_events());
        assert!(matches!(action, WaitPathAction::Abandon));
        events.push(WaitPathEvent::Abandoned);
        let (_, action) = drive(true, "CreateIssue", events);
        match action {
            WaitPathAction::Finish(WaitPathOutcome::Failed(e)) => messages.push(format!("{e:?}")),
            other => panic!("unexpected {other:?}"),
        }
    }
    assert_eq!(messages[0], "Expired");
    assert_eq!(messages[1], "InProgress");
    assert_eq!(
        messages[2],
        "Rejected { code: NotFound, status: 404, message: \"no such issue\" }"
    );
    assert_eq!(messages[3], "Internal(\"wait-path decode: missing field `receipt`\")");
    assert_eq!(messages[4], "Forbidden");
    assert_eq!(messages[5], "CommandIdReuse");
}

#[test]
fn a_failed_completion_is_reported_without_abandoning() {
    let mut events = happy_prefix();
    events.extend([
        WaitPathEvent::Retargeted(Ok(())),
        WaitPathEvent::Posted(Ok(RemoteReply {
            status: 201,
            code: None,
            error: None,
        })),
        WaitPathEvent::Decoded(Ok(())),
        WaitPathEvent::RemoteValidated(Ok(())),
        WaitPathEvent::PayloadApplied,
        WaitPathEvent::Completed(Err(CausalDispatchError::Internal("ledger".into()))),
    ]);
    let (_, action) = drive(false, "CreateIssue", events);
    assert!(matches!(
        action,
        WaitPathAction::Finish(WaitPathOutcome::Failed(CausalDispatchError::Internal(m))) if m == "ledger"
    ));
}

trait CloneEvents {
    fn clone_events(&self) -> Vec<WaitPathEvent>;
}

impl CloneEvents for Vec<WaitPathEvent> {
    fn clone_events(&self) -> Vec<WaitPathEvent> {
        self.iter()
            .map(|e| match e {
                WaitPathEvent::SessionChecked(r) => WaitPathEvent::SessionChecked(r.clone()),
                WaitPathEvent::LocalFinished => WaitPathEvent::LocalFinished,
                WaitPathEvent::ShardRead(s) => WaitPathEvent::ShardRead(s.clone()),
                WaitPathEvent::ServiceNamed(s) => WaitPathEvent::ServiceNamed(s.clone()),
                WaitPathEvent::Reserved(r) => WaitPathEvent::Reserved(match r {
                    Ok(ExternalReservation::Acquired) => Ok(ExternalReservation::Acquired),
                    Ok(ExternalReservation::Replay) => Ok(ExternalReservation::Replay),
                    Err(e) => Err(e.clone()),
                }),
                WaitPathEvent::Retargeted(r) => WaitPathEvent::Retargeted(r.clone()),
                WaitPathEvent::Posted(r) => WaitPathEvent::Posted(match r {
                    Ok(reply) => Ok(RemoteReply {
                        status: reply.status,
                        code: reply.code.clone(),
                        error: reply.error.clone(),
                    }),
                    Err(e) => Err(e.clone()),
                }),
                WaitPathEvent::Decoded(r) => WaitPathEvent::Decoded(r.clone()),
                WaitPathEvent::RemoteValidated(r) => WaitPathEvent::RemoteValidated(r.clone()),
                WaitPathEvent::PayloadApplied => WaitPathEvent::PayloadApplied,
                WaitPathEvent::Sealed(r) => WaitPathEvent::Sealed(r.clone()),
                WaitPathEvent::Completed(r) => WaitPathEvent::Completed(r.clone()),
                WaitPathEvent::Abandoned => WaitPathEvent::Abandoned,
            })
            .collect()
    }
}

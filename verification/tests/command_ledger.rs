use base64::Engine;
use distributed::command_ledger::reservation::{
    validate_binding_part, validate_projection_metadata_bytes, CommandReservation,
    ExternalDispatchBinding, ProjectionObligations,
};
use distributed::command_ledger::{
    AttemptToken, CausationId, CommandLedgerError, CommandLedgerKey, CommandLedgerState,
    TerminalCommandState,
};
use std::time::{Duration, SystemTime, UNIX_EPOCH};

const SECOND: u128 = 1_000_000_000;

fn invalid(e: CommandLedgerError) -> String {
    match e {
        CommandLedgerError::Invalid(m) => m,
        CommandLedgerError::Corrupt(m) => panic!("expected Invalid, got Corrupt({m})"),
    }
}

fn corrupt(e: CommandLedgerError) -> String {
    match e {
        CommandLedgerError::Corrupt(m) => m,
        CommandLedgerError::Invalid(m) => panic!("expected Corrupt, got Invalid({m})"),
    }
}

fn reservation(name: &str, lease: u128, retention: u128) -> Result<CommandReservation, CommandLedgerError> {
    CommandReservation::new(
        CommandLedgerKey { value: "svc/cmd-1".into() },
        name,
        [7u8; 32],
        [9u8; 32],
        lease,
        retention,
        CausationId { value: "cause-1".into() },
        AttemptToken { value: "token-1".into() },
    )
}

#[test]
fn binding_parts_must_be_short_nonblank_and_free_of_controls() {
    assert!(validate_binding_part("external shard", "repo-1").is_ok());
    assert_eq!(
        invalid(validate_binding_part("external shard", " \t").err().unwrap()),
        "external shard must not be empty"
    );
    assert_eq!(
        invalid(validate_binding_part("external shard", "").err().unwrap()),
        "external shard must not be empty"
    );
    assert_eq!(
        invalid(validate_binding_part("external route kind", "a\u{7}b").err().unwrap()),
        "external route kind must be at most 256 bytes and contain no control characters"
    );
    assert!(validate_binding_part("x", &"é".repeat(128)).is_ok());
    assert!(validate_binding_part("x", &"é".repeat(129)).is_err());
    assert!(validate_binding_part("x", &"a".repeat(256)).is_ok());
    assert!(validate_binding_part("x", &"a".repeat(257)).is_err());
    assert!(validate_binding_part("x", "\u{85}").is_err());
    assert!(validate_binding_part("x", "a\u{9f}").is_err());
    assert!(validate_binding_part("x", "\u{3000}a").is_ok());
}

#[test]
fn binding_checks_kind_before_shard_and_keeps_both() {
    let b = ExternalDispatchBinding::new("repository", "repo-7").unwrap();
    assert_eq!(b.route_kind(), "repository");
    assert_eq!(b.shard(), "repo-7");
    assert_eq!(b.version(), 1);
    assert_eq!(
        invalid(ExternalDispatchBinding::new(" ", "").err().unwrap()),
        "external route kind must not be empty"
    );
    assert_eq!(
        invalid(ExternalDispatchBinding::new("repository", "").err().unwrap()),
        "external shard must not be empty"
    );
    let again = ExternalDispatchBinding::from_stored(1, "repository", "repo-7").unwrap();
    assert!(again.same_as(&b));
    assert!(!again.same_as(&ExternalDispatchBinding::new("repository", "repo-8").unwrap()));
}

#[test]
fn stored_bindings_refuse_other_versions_and_invalid_parts_as_corrupt() {
    assert_eq!(
        corrupt(ExternalDispatchBinding::from_stored(2, "repository", "repo").err().unwrap()),
        "stored external dispatch binding version `2` is unsupported"
    );
    assert_eq!(
        corrupt(ExternalDispatchBinding::from_stored(65535, "repository", "repo").err().unwrap()),
        "stored external dispatch binding version `65535` is unsupported"
    );
    assert_eq!(
        corrupt(ExternalDispatchBinding::from_stored(1, "repository", "\n").err().unwrap()),
        "external shard must not be empty"
    );
}

#[test]
fn reservations_need_a_name_and_retention_beyond_the_lease() {
    let r = reservation("CreateRepository", 30 * SECOND, 3600 * SECOND).unwrap();
    assert_eq!(r.command_name(), "CreateRepository");
    assert_eq!(r.lease(), 30 * SECOND);
    assert_eq!(r.retention(), 3600 * SECOND);
    assert_eq!(r.key().value, "svc/cmd-1");
    assert_eq!(r.contract_fingerprint_bytes(), &[7u8; 32]);
    assert_eq!(r.input_hash_bytes(), &[9u8; 32]);
    assert!(r.external_binding().is_none());
    assert_eq!(
        invalid(reservation("  ", 1, 2).err().unwrap()),
        "command name must not be empty"
    );
    assert_eq!(
        invalid(reservation("C", 0, 2).err().unwrap()),
        "command attempt lease must be a finite positive duration"
    );
    assert_eq!(
        invalid(reservation("C", 1, 0).err().unwrap()),
        "command replay retention must be a finite positive duration"
    );
    assert_eq!(
        invalid(reservation("C", 5, 5).err().unwrap()),
        "command replay retention must be longer than the attempt lease"
    );
}

#[test]
fn the_candidate_attempt_is_generation_one_and_its_fence_names_it() {
    let binding = ExternalDispatchBinding::new("repository", "repo-7").unwrap();
    let r = reservation("C", 1, 2).unwrap().with_external_binding(binding);
    assert_eq!(r.external_binding().unwrap().shard(), "repo-7");
    let attempt = r.acquired_candidate_attempt();
    assert_eq!(attempt.attempt_number(), 1);
    assert_eq!(attempt.causation_id().value, "cause-1");
    assert_eq!(attempt.attempt_token().value, "token-1");
    assert_eq!(attempt.key().value, "svc/cmd-1");
    assert_eq!(attempt.external_binding().unwrap().route_kind(), "repository");
    let fence = attempt.fence();
    assert_eq!(fence.attempt_number(), 1);
    assert_eq!(fence.causation_id().value, "cause-1");
    assert_eq!(fence.attempt_token().value, "token-1");
    assert_eq!(fence.key().value, "svc/cmd-1");
    assert_eq!(fence.contract_fingerprint_bytes(), &[7u8; 32]);
    assert_eq!(fence.input_hash_bytes(), &[9u8; 32]);
}

#[test]
fn replay_envelope_is_sorted_compact_json() {
    let attempt = reservation("C", 1, 2).unwrap().acquired_candidate_attempt();
    let c = attempt
        .complete(TerminalCommandState::Succeeded, "{\"ok\":true}", 10)
        .unwrap();
    assert_eq!(
        c.replay_json(),
        "{\"outcome\":{\"ok\":true},\"projection_obligations\":[],\"version\":1}"
    );
    assert_eq!(c.state(), TerminalCommandState::Succeeded);
    assert_eq!(c.retention(), 10);
    assert!(c.retention_expires_at().is_none());
    assert_eq!(c.attempt_fence().attempt_number(), 1);
    assert!(c.validate_direct_projection().is_ok());

    let attempt = reservation("C", 1, 2).unwrap().acquired_candidate_attempt();
    let c = attempt
        .complete_with_projection_metadata(
            TerminalCommandState::SucceededPendingProjection,
            "null",
            b"hi?".to_vec(),
            10,
        )
        .unwrap();
    assert_eq!(
        c.replay_json(),
        "{\"outcome\":null,\"projection_metadata\":\"aGk_\",\"projection_obligations\":[],\"version\":1}"
    );

    let attempt = reservation("C", 1, 2).unwrap().acquired_candidate_attempt();
    let obligations = ProjectionObligations::from_serialized("[{\"p\":1}]".into(), 1).unwrap();
    let c = attempt
        .complete_with_obligations(TerminalCommandState::Succeeded, "\"no\"", &obligations, Ok(()), 10)
        .unwrap();
    assert_eq!(
        c.replay_json(),
        "{\"outcome\":\"no\",\"projection_obligations\":[{\"p\":1}],\"version\":1}"
    );
}

#[test]
fn completion_rules_refuse_bad_retention_metadata_and_mixing() {
    let attempt = || reservation("C", 1, 2).unwrap().acquired_candidate_attempt();
    assert_eq!(
        invalid(
            attempt()
                .complete(TerminalCommandState::Succeeded, "1", 0)
                .err().unwrap()
        ),
        "command replay retention must be a finite positive duration"
    );
    assert_eq!(
        invalid(
            attempt()
                .complete_with_projection_metadata(TerminalCommandState::Succeeded, "1", vec![], 5)
                .err().unwrap()
        ),
        "command projection metadata must contain 1..=1048576 bytes"
    );
    assert!(attempt()
        .complete_with_projection_metadata(TerminalCommandState::Succeeded, "1", vec![0; 1_048_577], 5)
        .is_err());
    assert_eq!(
        invalid(
            attempt()
                .complete_with_projection_metadata(TerminalCommandState::Rejected, "1", vec![1], 5)
                .err().unwrap()
        ),
        "state `rejected` cannot contain modeled projection metadata"
    );
    assert!(validate_projection_metadata_bytes(CommandLedgerState::ProjectionFailed, Some(&[1])).is_ok());
    assert!(validate_projection_metadata_bytes(CommandLedgerState::InProgress, None).is_ok());
    assert_eq!(
        invalid(validate_projection_metadata_bytes(CommandLedgerState::Atomic, Some(&[1])).err().unwrap()),
        "state `atomic` cannot contain modeled projection metadata"
    );
}

#[test]
fn direct_projection_only_completes_atomic_commands_once() {
    let attempt = reservation("C", 1, 2).unwrap().acquired_candidate_attempt();
    let mut c = attempt.complete(TerminalCommandState::Atomic, "1", 10).unwrap();
    assert_eq!(
        invalid(c.validate_direct_projection().err().unwrap()),
        "projected command completion has no exact direct projection evidence"
    );
    c.attach_direct_projection("{\"revision\":3}", Ok(())).unwrap();
    assert_eq!(
        c.replay_json(),
        "{\"direct_projection\":{\"revision\":3},\"outcome\":1,\"projection_obligations\":[],\"version\":1}"
    );
    assert!(c.validate_direct_projection().is_ok());
    assert_eq!(
        invalid(c.attach_direct_projection("{}", Ok(())).err().unwrap()),
        "command completion already contains direct projection evidence"
    );
    let attempt = reservation("C", 1, 2).unwrap().acquired_candidate_attempt();
    let mut c = attempt.complete(TerminalCommandState::Succeeded, "1", 10).unwrap();
    assert_eq!(
        invalid(c.attach_direct_projection("{}", Ok(())).err().unwrap()),
        "direct projection evidence may only complete a projected command"
    );
    assert_eq!(
        c.replay_json(),
        "{\"outcome\":1,\"projection_obligations\":[],\"version\":1}"
    );
}

#[test]
fn external_completion_requires_the_reserved_binding_and_a_non_atomic_state() {
    let binding = || ExternalDispatchBinding::new("repository", "repo-7").unwrap();
    let attempt = || {
        reservation("C", 1, 2)
            .unwrap()
            .with_external_binding(binding())
            .acquired_candidate_attempt()
    };
    let none = ProjectionObligations::none();
    assert_eq!(
        invalid(
            attempt()
                .complete_external(binding(), TerminalCommandState::Atomic, "1", &none, Ok(()), 5)
                .err().unwrap()
        ),
        "external command completion cannot be atomic"
    );
    let other = ExternalDispatchBinding::new("repository", "repo-8").unwrap();
    assert_eq!(
        invalid(
            attempt()
                .complete_external(other, TerminalCommandState::Succeeded, "1", &none, Ok(()), 5)
                .err().unwrap()
        ),
        "external command completion binding does not match its reservation"
    );
    let local = reservation("C", 1, 2).unwrap().acquired_candidate_attempt();
    assert!(local
        .complete_external(binding(), TerminalCommandState::Succeeded, "1", &none, Ok(()), 5)
        .is_err());
    let done = attempt()
        .complete_external(binding(), TerminalCommandState::Succeeded, "{}", &none, Ok(()), 5)
        .unwrap();
    assert_eq!(done.binding().shard(), "repo-7");
    assert_eq!(done.state(), TerminalCommandState::Succeeded);
    assert_eq!(
        done.replay_json(),
        "{\"outcome\":{},\"projection_obligations\":[],\"version\":1}"
    );
    assert_eq!(done.attempt_fence().causation_id().value, "cause-1");
    let deadline = UNIX_EPOCH + Duration::from_secs(1_700_000_000);
    let sealed = attempt()
        .complete_external_with_projection_metadata_until(
            binding(),
            TerminalCommandState::Succeeded,
            "{}",
            vec![0xfb, 0xff],
            5,
            deadline,
        )
        .unwrap();
    assert_eq!(sealed.retention_expires_at(), Some(deadline));
    assert_eq!(
        sealed.replay_json(),
        "{\"outcome\":{},\"projection_metadata\":\"-_8\",\"projection_obligations\":[],\"version\":1}"
    );
    let _ = SystemTime::now();
}

#[test]
fn binding_storage_text_is_canonical_and_reads_back() {
    let b = ExternalDispatchBinding::new("repo\"kind", "sh\\ard").unwrap();
    let text = b.to_storage();
    assert_eq!(
        text,
        "{\"version\":1,\"route_kind\":\"repo\\\"kind\",\"shard\":\"sh\\\\ard\"}"
    );
    let again = ExternalDispatchBinding::from_storage_parts(&text, 1, "repo\"kind", "sh\\ard").unwrap();
    assert!(again.same_as(&b));
    assert_eq!(
        corrupt(
            ExternalDispatchBinding::from_storage_parts(
                "{\"shard\":\"sh\\\\ard\",\"version\":1,\"route_kind\":\"repo\\\"kind\"}",
                1,
                "repo\"kind",
                "sh\\ard"
            )
            .err()
            .unwrap()
        ),
        "stored external dispatch binding is not canonical JSON"
    );
    assert_eq!(
        corrupt(ExternalDispatchBinding::from_storage_parts(&text, 3, "k", "s").err().unwrap()),
        "stored external dispatch binding version `3` is unsupported"
    );
    let plain = ExternalDispatchBinding::new("repository", "repo-7").unwrap();
    assert_eq!(
        plain.to_storage(),
        "{\"version\":1,\"route_kind\":\"repository\",\"shard\":\"repo-7\"}"
    );
}

#[test]
fn replay_metadata_is_the_base64url_of_the_exact_bytes() {
    let bytes: Vec<u8> = (0u8..=255).collect();
    let attempt = reservation("C", 1, 2).unwrap().acquired_candidate_attempt();
    let c = attempt
        .complete_with_projection_metadata(TerminalCommandState::Succeeded, "0", bytes.clone(), 10)
        .unwrap();
    let encoded = base64::engine::general_purpose::URL_SAFE_NO_PAD.encode(&bytes);
    assert_eq!(
        c.replay_json(),
        format!("{{\"outcome\":0,\"projection_metadata\":\"{encoded}\",\"projection_obligations\":[],\"version\":1}}")
    );
    assert!(!encoded.contains('=') && !encoded.contains('+') && !encoded.contains('/'));
}

#[test]
fn obligations_count_matches_the_empty_array() {
    assert!(ProjectionObligations::from_serialized("[]".into(), 0).unwrap().is_empty());
    assert!(ProjectionObligations::from_serialized("[]".into(), 1).is_none());
    assert!(ProjectionObligations::from_serialized("[{\"p\":1}]".into(), 0).is_none());
    assert!(!ProjectionObligations::from_serialized("[{\"p\":1}]".into(), 1).unwrap().is_empty());
}

#[test]
fn refused_obligations_and_evidence_leave_nothing_completed() {
    let attempt = reservation("C", 1, 2).unwrap().acquired_candidate_attempt();
    let obligations = ProjectionObligations::from_serialized("[{\"p\":1}]".into(), 1).unwrap();
    let refusal = "state `rejected` cannot contain projection obligations".to_string();
    assert_eq!(
        invalid(
            attempt
                .complete_with_obligations(
                    TerminalCommandState::Rejected,
                    "\"no\"",
                    &obligations,
                    Err(refusal.clone()),
                    10,
                )
                .err()
                .unwrap()
        ),
        refusal
    );
    let attempt = reservation("C", 1, 2).unwrap().acquired_candidate_attempt();
    assert_eq!(
        invalid(
            attempt
                .complete_with_obligations(
                    TerminalCommandState::Rejected,
                    "1",
                    &obligations,
                    Err(refusal),
                    0,
                )
                .err()
                .unwrap()
        ),
        "command replay retention must be a finite positive duration"
    );
    let attempt = reservation("C", 1, 2).unwrap().acquired_candidate_attempt();
    let mut c = attempt.complete(TerminalCommandState::Atomic, "1", 10).unwrap();
    let before = c.replay_json().to_string();
    assert_eq!(
        invalid(
            c.attach_direct_projection("{}", Err("evidence is not a projection batch".into()))
                .err()
                .unwrap()
        ),
        "evidence is not a projection batch"
    );
    assert_eq!(c.replay_json(), before);
    assert!(c.validate_direct_projection().is_err());
}

//! Reservation of a command attempt, its fence, and the terminal completion
//! that carries its replay envelope.
use base64::Engine;
use vstd::prelude::*;
use vstd::string::*;

use super::{
    is_corrupt, is_invalid, ledger_state_of, state_name, AttemptToken, CausationId,
    CommandLedgerError, CommandLedgerKey, CommandLedgerState, TerminalCommandState,
    COMMAND_REPLAY_VERSION, MAX_DOMAIN_EVENT_BODY_BYTES, SHA256_BYTES,
};
use crate::text::{
    decimal, has_control, has_control_text, is_blank, is_blank_text, push_decimal, push_str,
    str_eq, utf8_len,
};

verus! {

/// Storage version of an external dispatch binding.
pub const EXTERNAL_BINDING_VERSION: u16 = 1;

/// Declares `std::time::SystemTime` so that completions can carry an
/// absolute retention deadline; nothing is claimed of its values, which the
/// ledger only stores and returns.
#[verifier::external_type_specification]
#[verifier::external_body]
pub struct ExSystemTime(std::time::SystemTime);

impl CommandLedgerKey {
    pub fn duplicate(&self) -> (r: CommandLedgerKey)
        ensures
            r.value@ == self.value@,
    {
        CommandLedgerKey { value: self.value.clone() }
    }
}

impl CausationId {
    pub fn duplicate(&self) -> (r: CausationId)
        ensures
            r.value@ == self.value@,
    {
        CausationId { value: self.value.clone() }
    }
}

impl AttemptToken {
    pub fn duplicate(&self) -> (r: AttemptToken)
        ensures
            r.value@ == self.value@,
    {
        AttemptToken { value: self.value.clone() }
    }
}

/// Message for a refused binding part, if `value` is refused.
pub open spec fn binding_part_error(label: Seq<char>, value: Seq<char>) -> Option<Seq<char>> {
    if is_blank_text(value) {
        Some(label + " must not be empty"@)
    } else if utf8_len(value) > 256 || has_control_text(value) {
        Some(label + " must be at most 256 bytes and contain no control characters"@)
    } else {
        None
    }
}

/// A binding part is a non-blank text of at most 256 bytes without control characters.
pub fn validate_binding_part(label: &str, value: &str) -> (r: Result<(), CommandLedgerError>)
    ensures
        match binding_part_error(label@, value@) {
            None => r is Ok,
            Some(m) => r is Err && is_invalid(r->Err_0, m),
        },
{
    if is_blank(value) {
        let mut m = String::from_str(label);
        push_str(&mut m, " must not be empty");
        return Err(CommandLedgerError::Invalid(m));
    }
    if value.len() > 256 || has_control(value) {
        let mut m = String::from_str(label);
        push_str(&mut m, " must be at most 256 bytes and contain no control characters");
        return Err(CommandLedgerError::Invalid(m));
    }
    Ok(())
}

/// Immutable logical route ownership for a command dispatched outside the
/// repository that owns its ledger row. Transport addresses and retry leases
/// are intentionally not part of this identity.
#[derive(Debug)]
pub struct ExternalDispatchBinding {
    version: u16,
    route_kind: String,
    shard: String,
}

pub struct BindingView {
    pub version: u16,
    pub route_kind: Seq<char>,
    pub shard: Seq<char>,
}

impl View for ExternalDispatchBinding {
    type V = BindingView;

    closed spec fn view(&self) -> BindingView {
        BindingView { version: self.version, route_kind: self.route_kind@, shard: self.shard@ }
    }
}

pub open spec fn option_binding_view(b: Option<ExternalDispatchBinding>) -> Option<BindingView> {
    match b {
        Some(b) => Some(b@),
        None => None,
    }
}

/// The text with `"` and `\\` escaped as in a JSON string.
pub open spec fn json_escaped(s: Seq<char>) -> Seq<char>
    decreases s.len(),
{
    if s.len() == 0 {
        Seq::<char>::empty()
    } else {
        (if s[0] == '"' || s[0] == '\\' {
            seq!['\\', s[0]]
        } else {
            seq![s[0]]
        }) + json_escaped(s.drop_first())
    }
}

pub proof fn lemma_json_escaped_push(s: Seq<char>, c: char)
    ensures
        json_escaped(s.push(c)) == json_escaped(s) + (if c == '"' || c == '\\' {
            seq!['\\', c]
        } else {
            seq![c]
        }),
    decreases s.len(),
{
    let h = if c == '"' || c == '\\' {
        seq!['\\', c]
    } else {
        seq![c]
    };
    if s.len() == 0 {
        assert(s.push(c).drop_first() =~= Seq::<char>::empty());
        assert(json_escaped(Seq::<char>::empty()) =~= Seq::<char>::empty());
        assert(s.push(c)[0] == c);
        assert(json_escaped(s.push(c)) =~= h + json_escaped(s.push(c).drop_first()));
        assert(json_escaped(s) =~= Seq::<char>::empty());
        assert(json_escaped(s.push(c)) =~= json_escaped(s) + h);
    } else {
        assert(s.push(c).drop_first() =~= s.drop_first().push(c));
        lemma_json_escaped_push(s.drop_first(), c);
        let h0 = if s[0] == '"' || s[0] == '\\' {
            seq!['\\', s[0]]
        } else {
            seq![s[0]]
        };
        assert(s.push(c)[0] == s[0]);
        assert(json_escaped(s.push(c)) == h0 + json_escaped(s.drop_first().push(c)));
        assert(json_escaped(s) == h0 + json_escaped(s.drop_first()));
        assert(json_escaped(s.push(c)) =~= json_escaped(s) + h);
    }
}

/// Append `s` escaped as the inside of a JSON string.
pub fn push_json_escaped(out: &mut String, s: &str)
    ensures
        final(out)@ == old(out)@ + json_escaped(s@),
{
    let ghost start = out@;
    let n = s.unicode_len();
    let mut i: usize = 0;
    assert(s@.take(0) =~= Seq::<char>::empty());
    while i < n
        invariant
            n == s@.len(),
            i <= n,
            out@ == start + json_escaped(s@.take(i as int)),
        decreases n - i,
    {
        let c = s.get_char(i);
        let ghost before = s@.take(i as int);
        let ghost prev = out@;
        proof {
            reveal_strlit("\\");
        }
        if c == '"' || c == '\\' {
            push_str(out, "\\");
        }
        let one = s.substring_char(i, i + 1);
        assert(one@ =~= seq![c]);
        push_str(out, one);
        proof {
            lemma_json_escaped_push(before, c);
            assert(s@.take(i + 1) =~= before.push(c));
            let h = if c == '"' || c == '\\' {
                seq!['\\', c]
            } else {
                seq![c]
            };
            assert(out@ =~= prev + h);
            assert(out@ =~= start + json_escaped(s@.take(i + 1)));
        }
        i = i + 1;
    }
    assert(s@.take(n as int) =~= s@);
}

/// Canonical storage text of a binding.
pub open spec fn storage_text(b: BindingView) -> Seq<char> {
    "{\"version\":"@ + decimal(b.version as nat) + ",\"route_kind\":\""@ + json_escaped(b.route_kind)
        + "\",\"shard\":\""@ + json_escaped(b.shard) + "\"}"@
}

/// Why stored binding fields and text are corrupt, checked in this order;
/// `None` when they spell a valid binding canonically.
pub open spec fn storage_rejection(
    stored: Seq<char>,
    version: u16,
    route_kind: Seq<char>,
    shard: Seq<char>,
) -> Option<Seq<char>> {
    if version != EXTERNAL_BINDING_VERSION {
        Some(
            "stored external dispatch binding version `"@ + decimal(version as nat)
                + "` is unsupported"@,
        )
    } else if binding_part_error("external route kind"@, route_kind) is Some {
        binding_part_error("external route kind"@, route_kind)
    } else if binding_part_error("external shard"@, shard) is Some {
        binding_part_error("external shard"@, shard)
    } else if stored != storage_text(BindingView { version, route_kind, shard }) {
        Some("stored external dispatch binding is not canonical JSON"@)
    } else {
        None
    }
}

/// A valid binding's own storage text reads back as that binding.
pub proof fn lemma_storage_round_trip(b: BindingView)
    requires
        b.version == EXTERNAL_BINDING_VERSION,
        binding_parts_ok(b),
    ensures
        storage_rejection(storage_text(b), b.version, b.route_kind, b.shard) is None,
{
}

/// A binding with both parts accepted.
pub open spec fn binding_parts_ok(b: BindingView) -> bool {
    binding_part_error("external route kind"@, b.route_kind) is None && binding_part_error(
        "external shard"@,
        b.shard,
    ) is None
}

impl ExternalDispatchBinding {
    #[verifier::type_invariant]
    closed spec fn is_valid(&self) -> bool {
        self.version == EXTERNAL_BINDING_VERSION && binding_parts_ok(self@)
    }

    /// A binding for route `route_kind` and shard `shard`, both checked as binding parts.
    pub fn new(route_kind: &str, shard: &str) -> (r: Result<Self, CommandLedgerError>)
        ensures
            match binding_part_error("external route kind"@, route_kind@) {
                Some(m) => r is Err && is_invalid(r->Err_0, m),
                None => match binding_part_error("external shard"@, shard@) {
                    Some(m) => r is Err && is_invalid(r->Err_0, m),
                    None => r is Ok && r->Ok_0@ == (BindingView {
                        version: EXTERNAL_BINDING_VERSION,
                        route_kind: route_kind@,
                        shard: shard@,
                    }),
                },
            },
    {
        match validate_binding_part("external route kind", route_kind) {
            Ok(()) => {},
            Err(e) => {
                return Err(e);
            },
        }
        match validate_binding_part("external shard", shard) {
            Ok(()) => {},
            Err(e) => {
                return Err(e);
            },
        }
        Ok(
            ExternalDispatchBinding {
                version: EXTERNAL_BINDING_VERSION,
                route_kind: String::from_str(route_kind),
                shard: String::from_str(shard),
            },
        )
    }

    /// Rebuild a binding from its stored fields. Any refusal means the stored
    /// row is corrupt; the caller also requires the stored text to be the
    /// canonical spelling of the result.
    pub fn from_stored(version: u16, route_kind: &str, shard: &str) -> (r: Result<
        Self,
        CommandLedgerError,
    >)
        ensures
            version != EXTERNAL_BINDING_VERSION ==> r is Err && is_corrupt(
                r->Err_0,
                "stored external dispatch binding version `"@ + decimal(version as nat)
                    + "` is unsupported"@,
            ),
            version == EXTERNAL_BINDING_VERSION ==> match binding_part_error(
                "external route kind"@,
                route_kind@,
            ) {
                Some(m) => r is Err && is_corrupt(r->Err_0, m),
                None => match binding_part_error("external shard"@, shard@) {
                    Some(m) => r is Err && is_corrupt(r->Err_0, m),
                    None => r is Ok && r->Ok_0@ == (BindingView {
                        version,
                        route_kind: route_kind@,
                        shard: shard@,
                    }),
                },
            },
    {
        if version != EXTERNAL_BINDING_VERSION {
            let mut m = String::from_str("stored external dispatch binding version `");
            push_decimal(&mut m, version as u64);
            push_str(&mut m, "` is unsupported");
            return Err(CommandLedgerError::Corrupt(m));
        }
        match validate_binding_part("external route kind", route_kind) {
            Ok(()) => {},
            Err(CommandLedgerError::Invalid(m)) => {
                return Err(CommandLedgerError::Corrupt(m));
            },
            Err(CommandLedgerError::Corrupt(m)) => {
                return Err(CommandLedgerError::Corrupt(m));
            },
        }
        match validate_binding_part("external shard", shard) {
            Ok(()) => {},
            Err(CommandLedgerError::Invalid(m)) => {
                return Err(CommandLedgerError::Corrupt(m));
            },
            Err(CommandLedgerError::Corrupt(m)) => {
                return Err(CommandLedgerError::Corrupt(m));
            },
        }
        Ok(
            ExternalDispatchBinding {
                version,
                route_kind: String::from_str(route_kind),
                shard: String::from_str(shard),
            },
        )
    }

    /// Stable storage spelling: compact JSON with the fields in declaration
    /// order. Binding parts hold no control characters, so only quotes and
    /// backslashes are escaped.
    pub fn to_storage(&self) -> (r: String)
        ensures
            r@ == storage_text(self@),
    {
        proof {
            use_type_invariant(self);
        }
        let mut out = String::from_str("{\"version\":");
        push_decimal(&mut out, self.version as u64);
        push_str(&mut out, ",\"route_kind\":\"");
        push_json_escaped(&mut out, self.route_kind.as_str());
        push_str(&mut out, "\",\"shard\":\"");
        push_json_escaped(&mut out, self.shard.as_str());
        push_str(&mut out, "\"}");
        proof {
            assert(out@ =~= storage_text(self@));
        }
        out
    }

    /// Rebuild a stored binding from the text and the fields decoded from it.
    /// Parsing requires this exact canonical form so equivalent-looking
    /// bindings cannot bypass the immutable row value.
    pub fn from_storage_parts(stored: &str, version: u16, route_kind: &str, shard: &str) -> (r:
        Result<Self, CommandLedgerError>)
        ensures
            match storage_rejection(stored@, version, route_kind@, shard@) {
                Some(m) => r is Err && is_corrupt(r->Err_0, m),
                None => r is Ok && r->Ok_0@ == (BindingView {
                    version,
                    route_kind: route_kind@,
                    shard: shard@,
                }),
            },
    {
        let binding = match Self::from_stored(version, route_kind, shard) {
            Ok(b) => b,
            Err(e) => {
                return Err(e);
            },
        };
        let canonical = binding.to_storage();
        if !str_eq(canonical.as_str(), stored) {
            return Err(
                CommandLedgerError::Corrupt(
                    String::from_str("stored external dispatch binding is not canonical JSON"),
                ),
            );
        }
        Ok(binding)
    }

    pub fn version(&self) -> (r: u16)
        ensures
            r == self@.version,
            r == EXTERNAL_BINDING_VERSION,
    {
        proof {
            use_type_invariant(self);
        }
        self.version
    }

    pub fn route_kind(&self) -> (r: &str)
        ensures
            r@ == self@.route_kind,
            binding_part_error("external route kind"@, r@) is None,
    {
        proof {
            use_type_invariant(self);
        }
        self.route_kind.as_str()
    }

    pub fn shard(&self) -> (r: &str)
        ensures
            r@ == self@.shard,
            binding_part_error("external shard"@, r@) is None,
    {
        proof {
            use_type_invariant(self);
        }
        self.shard.as_str()
    }

    pub fn duplicate(&self) -> (r: ExternalDispatchBinding)
        ensures
            r@ == self@,
    {
        proof {
            use_type_invariant(self);
        }
        ExternalDispatchBinding {
            version: self.version,
            route_kind: self.route_kind.clone(),
            shard: self.shard.clone(),
        }
    }

    /// Whether both name the same route and shard.
    pub fn same_as(&self, other: &ExternalDispatchBinding) -> (r: bool)
        ensures
            r == (self@ == other@),
    {
        self.version == other.version && self.route_kind == other.route_kind && self.shard
            == other.shard
    }
}

/// Message of a duration that is not positive.
pub open spec fn nonpositive_duration_message(label: Seq<char>) -> Seq<char> {
    label + " must be a finite positive duration"@
}

/// A lease or retention span, in nanoseconds, must be positive.
pub fn validate_positive_duration(label: &str, nanos: u128) -> (r: Result<(), CommandLedgerError>)
    ensures
        nanos == 0 ==> r is Err && is_invalid(r->Err_0, nonpositive_duration_message(label@)),
        nanos != 0 ==> r is Ok,
{
    if nanos == 0 {
        let mut m = String::from_str(label);
        push_str(&mut m, " must be a finite positive duration");
        return Err(CommandLedgerError::Invalid(m));
    }
    Ok(())
}

/// One validated reservation request. Fresh candidate IDs lose a race safely:
/// only the inserted row keeps them; every retry reads the winner's causation.
pub struct CommandReservation {
    key: CommandLedgerKey,
    command_name: String,
    contract_fingerprint: [u8; SHA256_BYTES],
    input_hash: [u8; SHA256_BYTES],
    lease: u128,
    retention: u128,
    candidate_causation: CausationId,
    candidate_attempt: AttemptToken,
    external_binding: Option<ExternalDispatchBinding>,
}

pub struct ReservationView {
    pub key: Seq<char>,
    pub command_name: Seq<char>,
    pub contract_fingerprint: Seq<u8>,
    pub input_hash: Seq<u8>,
    pub lease: u128,
    pub retention: u128,
    pub candidate_causation: Seq<char>,
    pub candidate_attempt: Seq<char>,
    pub external_binding: Option<BindingView>,
}

impl View for CommandReservation {
    type V = ReservationView;

    closed spec fn view(&self) -> ReservationView {
        ReservationView {
            key: self.key.value@,
            command_name: self.command_name@,
            contract_fingerprint: self.contract_fingerprint@,
            input_hash: self.input_hash@,
            lease: self.lease,
            retention: self.retention,
            candidate_causation: self.candidate_causation.value@,
            candidate_attempt: self.candidate_attempt.value@,
            external_binding: option_binding_view(self.external_binding),
        }
    }
}

/// Why a reservation request is refused, checked in this order.
pub open spec fn reservation_error(command_name: Seq<char>, lease: u128, retention: u128) -> Option<
    Seq<char>,
> {
    if is_blank_text(command_name) {
        Some("command name must not be empty"@)
    } else if lease == 0 {
        Some(nonpositive_duration_message("command attempt lease"@))
    } else if retention == 0 {
        Some(nonpositive_duration_message("command replay retention"@))
    } else if retention <= lease {
        Some("command replay retention must be longer than the attempt lease"@)
    } else {
        None
    }
}

impl CommandReservation {
    #[verifier::type_invariant]
    closed spec fn is_valid(&self) -> bool {
        reservation_error(self.command_name@, self.lease, self.retention) is None
    }

    /// A reservation for a non-blank command name whose replay retention
    /// outlives its positive attempt lease. The candidate causation and
    /// attempt token are fresh identifiers minted by the caller.
    pub fn new(
        key: CommandLedgerKey,
        command_name: &str,
        contract_fingerprint: [u8; SHA256_BYTES],
        input_hash: [u8; SHA256_BYTES],
        lease: u128,
        retention: u128,
        candidate_causation: CausationId,
        candidate_attempt: AttemptToken,
    ) -> (r: Result<Self, CommandLedgerError>)
        ensures
            match reservation_error(command_name@, lease, retention) {
                Some(m) => r is Err && is_invalid(r->Err_0, m),
                None => r is Ok && r->Ok_0@ == (ReservationView {
                    key: key.value@,
                    command_name: command_name@,
                    contract_fingerprint: contract_fingerprint@,
                    input_hash: input_hash@,
                    lease,
                    retention,
                    candidate_causation: candidate_causation.value@,
                    candidate_attempt: candidate_attempt.value@,
                    external_binding: None,
                }),
            },
    {
        if is_blank(command_name) {
            return Err(CommandLedgerError::Invalid(String::from_str("command name must not be empty")));
        }
        match validate_positive_duration("command attempt lease", lease) {
            Ok(()) => {},
            Err(e) => {
                return Err(e);
            },
        }
        match validate_positive_duration("command replay retention", retention) {
            Ok(()) => {},
            Err(e) => {
                return Err(e);
            },
        }
        if retention <= lease {
            return Err(
                CommandLedgerError::Invalid(
                    String::from_str("command replay retention must be longer than the attempt lease"),
                ),
            );
        }
        Ok(
            CommandReservation {
                key,
                command_name: String::from_str(command_name),
                contract_fingerprint,
                input_hash,
                lease,
                retention,
                candidate_causation,
                candidate_attempt,
                external_binding: None,
            },
        )
    }

    /// Mark this reservation as owned by an external logical route. The
    /// binding is persisted with the reservation and cannot be changed by a
    /// reclaim or completion.
    pub fn with_external_binding(self, binding: ExternalDispatchBinding) -> (r: Self)
        ensures
            r@ == (ReservationView { external_binding: Some(binding@), ..self@ }),
    {
        proof {
            use_type_invariant(&self);
        }
        let mut s = self;
        s.external_binding = Some(binding);
        s
    }

    pub fn key(&self) -> (r: &CommandLedgerKey)
        ensures
            r.value@ == self@.key,
    {
        &self.key
    }

    pub fn command_name(&self) -> (r: &str)
        ensures
            r@ == self@.command_name,
            !is_blank_text(r@),
    {
        proof {
            use_type_invariant(self);
        }
        self.command_name.as_str()
    }

    pub fn contract_fingerprint_bytes(&self) -> (r: &[u8; SHA256_BYTES])
        ensures
            r@ == self@.contract_fingerprint,
    {
        &self.contract_fingerprint
    }

    pub fn input_hash_bytes(&self) -> (r: &[u8; SHA256_BYTES])
        ensures
            r@ == self@.input_hash,
    {
        &self.input_hash
    }

    /// The attempt lease; always positive and shorter than the retention.
    pub fn lease(&self) -> (r: u128)
        ensures
            r == self@.lease,
            0 < r < self@.retention,
    {
        proof {
            use_type_invariant(self);
        }
        self.lease
    }

    /// The replay retention; always longer than the lease.
    pub fn retention(&self) -> (r: u128)
        ensures
            r == self@.retention,
            self@.lease < r,
    {
        proof {
            use_type_invariant(self);
        }
        self.retention
    }

    pub fn candidate_causation(&self) -> (r: &CausationId)
        ensures
            r.value@ == self@.candidate_causation,
    {
        &self.candidate_causation
    }

    pub fn candidate_attempt(&self) -> (r: &AttemptToken)
        ensures
            r.value@ == self@.candidate_attempt,
    {
        &self.candidate_attempt
    }

    pub fn external_binding(&self) -> (r: Option<&ExternalDispatchBinding>)
        ensures
            match r {
                Some(b) => self@.external_binding == Some(b@),
                None => self@.external_binding is None,
            },
    {
        match &self.external_binding {
            Some(b) => Some(b),
            None => None,
        }
    }

    /// The first attempt of a freshly inserted reservation: it carries the
    /// candidate causation and token, attempt number 1 and the binding.
    pub fn acquired_candidate_attempt(&self) -> (r: CommandAttempt)
        ensures
            r@ == (AttemptView {
                key: self@.key,
                contract_fingerprint: self@.contract_fingerprint,
                input_hash: self@.input_hash,
                causation_id: self@.candidate_causation,
                attempt_token: self@.candidate_attempt,
                attempt_number: 1,
                external_binding: self@.external_binding,
            }),
    {
        let external_binding = match &self.external_binding {
            Some(b) => Some(b.duplicate()),
            None => None,
        };
        CommandAttempt {
            key: self.key.duplicate(),
            contract_fingerprint: self.contract_fingerprint,
            input_hash: self.input_hash,
            causation_id: self.candidate_causation.duplicate(),
            attempt_token: self.candidate_attempt.duplicate(),
            attempt_number: 1,
            external_binding,
        }
    }
}

/// Exclusive capability returned to the process that owns the current lease.
/// It is intentionally not `Clone`: one owned value must be consumed by either
/// terminal completion or the retryable-unknown transition.
pub struct CommandAttempt {
    key: CommandLedgerKey,
    contract_fingerprint: [u8; SHA256_BYTES],
    input_hash: [u8; SHA256_BYTES],
    causation_id: CausationId,
    attempt_token: AttemptToken,
    attempt_number: u64,
    external_binding: Option<ExternalDispatchBinding>,
}

pub struct AttemptView {
    pub key: Seq<char>,
    pub contract_fingerprint: Seq<u8>,
    pub input_hash: Seq<u8>,
    pub causation_id: Seq<char>,
    pub attempt_token: Seq<char>,
    pub attempt_number: u64,
    pub external_binding: Option<BindingView>,
}

impl View for CommandAttempt {
    type V = AttemptView;

    closed spec fn view(&self) -> AttemptView {
        AttemptView {
            key: self.key.value@,
            contract_fingerprint: self.contract_fingerprint@,
            input_hash: self.input_hash@,
            causation_id: self.causation_id.value@,
            attempt_token: self.attempt_token.value@,
            attempt_number: self.attempt_number,
            external_binding: option_binding_view(self.external_binding),
        }
    }
}

/// The fence of an attempt names exactly that attempt generation.
pub open spec fn fence_of(a: AttemptView) -> FenceView {
    FenceView {
        key: a.key,
        contract_fingerprint: a.contract_fingerprint,
        input_hash: a.input_hash,
        causation_id: a.causation_id,
        attempt_token: a.attempt_token,
        attempt_number: a.attempt_number,
    }
}

/// Message when modeled metadata is refused, if it is.
pub open spec fn metadata_error(state: CommandLedgerState, metadata: Option<Seq<u8>>) -> Option<
    Seq<char>,
> {
    match metadata {
        None => None,
        Some(bytes) => if bytes.len() == 0 || bytes.len() > MAX_DOMAIN_EVENT_BODY_BYTES {
            Some("command projection metadata must contain 1..=1048576 bytes"@)
        } else if !(state == CommandLedgerState::Succeeded || state
            == CommandLedgerState::SucceededPendingProjection || state
            == CommandLedgerState::ProjectionFailed) {
            Some("state `"@ + state_name(state) + "` cannot contain modeled projection metadata"@)
        } else {
            None
        },
    }
}

pub open spec fn option_bytes_view(o: Option<Vec<u8>>) -> Option<Seq<u8>> {
    match o {
        Some(v) => Some(v@),
        None => None,
    }
}

/// Modeled projection metadata is 1..=MAX bytes and only for succeeded or
/// projection-failed states.
pub fn validate_projection_metadata_bytes(
    state: CommandLedgerState,
    projection_metadata: Option<&[u8]>,
) -> (r: Result<(), CommandLedgerError>)
    ensures
        match metadata_error(
            state,
            match projection_metadata {
                Some(b) => Some(b@),
                None => None,
            },
        ) {
            None => r is Ok,
            Some(m) => r is Err && is_invalid(r->Err_0, m),
        },
{
    let bytes = match projection_metadata {
        None => {
            return Ok(());
        },
        Some(b) => b,
    };
    if bytes.len() == 0 || bytes.len() > MAX_DOMAIN_EVENT_BODY_BYTES {
        return Err(
            CommandLedgerError::Invalid(
                String::from_str("command projection metadata must contain 1..=1048576 bytes"),
            ),
        );
    }
    match state {
        CommandLedgerState::Succeeded | CommandLedgerState::SucceededPendingProjection
        | CommandLedgerState::ProjectionFailed => Ok(()),
        _ => {
            let mut m = String::from_str("state `");
            push_str(&mut m, state.as_str());
            push_str(&mut m, "` cannot contain modeled projection metadata");
            Err(CommandLedgerError::Invalid(m))
        },
    }
}

/// Legacy projection obligations in their canonical JSON array spelling,
/// with the number of obligations the array holds.
#[derive(Debug)]
pub struct ProjectionObligations {
    json: String,
    count: usize,
}

impl ProjectionObligations {
    pub closed spec fn json_view(&self) -> Seq<char> {
        self.json@
    }

    pub closed spec fn count_view(&self) -> nat {
        self.count as nat
    }

    /// The array is empty exactly when it counts no obligations.
    #[verifier::type_invariant]
    closed spec fn empty_iff_none(&self) -> bool {
        (self.count == 0) == (self.json@ == "[]"@)
    }

    /// No obligations: the empty JSON array.
    pub fn none() -> (r: ProjectionObligations)
        ensures
            r.json_view() == "[]"@,
            r.count_view() == 0,
    {
        ProjectionObligations { json: String::from_str("[]"), count: 0 }
    }

    /// Obligations already serialized as a canonical JSON array of `count`
    /// items. Refused (`None`) when the array is `[]` but `count` is not 0,
    /// or `count` is 0 but the array is not `[]`.
    pub fn from_serialized(json: String, count: usize) -> (r: Option<ProjectionObligations>)
        ensures
            r is Some <==> ((count == 0) == (json@ == "[]"@)),
            r is Some ==> r->0.json_view() == json@ && r->0.count_view() == count,
    {
        let empty_text = str_eq(json.as_str(), "[]");
        if (count == 0) != empty_text {
            return None;
        }
        Some(ProjectionObligations { json, count })
    }

    /// Whether there are no obligations; then the array is `[]`.
    pub fn is_empty(&self) -> (r: bool)
        ensures
            r == (self.count_view() == 0),
            r == (self.json_view() == "[]"@),
    {
        proof {
            use_type_invariant(self);
        }
        self.count == 0
    }
}

/// The base64url alphabet (RFC 4648, section 5): `A-Z`, `a-z`, `0-9`, `-`, `_`.
pub open spec fn base64_url_char(s: nat) -> char {
    if s < 26 {
        (65 + s) as char
    } else if s < 52 {
        (71 + s) as char
    } else if s < 62 {
        (s - 4) as char
    } else if s == 62 {
        '-'
    } else {
        '_'
    }
}

/// Base64url text of `bytes` without padding: each group of three bytes
/// becomes four characters of six bits each, a last group of one or two
/// bytes two or three characters.
pub open spec fn base64_url_no_pad(bytes: Seq<u8>) -> Seq<char>
    decreases bytes.len(),
{
    if bytes.len() == 0 {
        Seq::empty()
    } else if bytes.len() == 1 {
        seq![base64_url_char(bytes[0] as nat / 4), base64_url_char((bytes[0] as nat % 4) * 16)]
    } else if bytes.len() == 2 {
        seq![
            base64_url_char(bytes[0] as nat / 4),
            base64_url_char((bytes[0] as nat % 4) * 16 + bytes[1] as nat / 16),
            base64_url_char((bytes[1] as nat % 16) * 4),
        ]
    } else {
        seq![
            base64_url_char(bytes[0] as nat / 4),
            base64_url_char((bytes[0] as nat % 4) * 16 + bytes[1] as nat / 16),
            base64_url_char((bytes[1] as nat % 16) * 4 + bytes[2] as nat / 64),
            base64_url_char(bytes[2] as nat % 64),
        ] + base64_url_no_pad(bytes.skip(3))
    }
}

/// The six bits a base64url character stands for.
pub open spec fn base64_url_value(c: char) -> nat {
    let v = c as nat;
    if 65 <= v <= 90 {
        (v - 65) as nat
    } else if 97 <= v <= 122 {
        (v - 71) as nat
    } else if 48 <= v <= 57 {
        (v + 4) as nat
    } else if c == '-' {
        62
    } else {
        63
    }
}

/// The bytes a base64url text without padding holds.
pub open spec fn base64_url_decode(text: Seq<char>) -> Seq<u8>
    decreases text.len(),
{
    let v = |i: int| base64_url_value(text[i]);
    if text.len() < 2 {
        Seq::empty()
    } else if text.len() == 2 {
        seq![(v(0) * 4 + v(1) / 16) as u8]
    } else if text.len() == 3 {
        seq![(v(0) * 4 + v(1) / 16) as u8, ((v(1) % 16) * 16 + v(2) / 4) as u8]
    } else {
        seq![
            (v(0) * 4 + v(1) / 16) as u8,
            ((v(1) % 16) * 16 + v(2) / 4) as u8,
            ((v(2) % 4) * 64 + v(3)) as u8,
        ] + base64_url_decode(text.skip(4))
    }
}

proof fn lemma_base64_char_value(s: nat)
    requires
        s < 64,
    ensures
        base64_url_value(base64_url_char(s)) == s,
{
}

/// Base64url without padding loses nothing: decoding the text of `bytes`
/// gives back exactly `bytes`.
pub proof fn lemma_base64_url_round_trip(bytes: Seq<u8>)
    ensures
        base64_url_decode(base64_url_no_pad(bytes)) == bytes,
    decreases bytes.len(),
{
    let t = base64_url_no_pad(bytes);
    if bytes.len() == 0 {
    } else if bytes.len() < 3 {
        let a = bytes[0] as nat;
        lemma_base64_char_value(a / 4);
        lemma_base64_char_value((a % 4) * 16);
        if bytes.len() == 2 {
            let b = bytes[1] as nat;
            lemma_base64_char_value((a % 4) * 16 + b / 16);
            lemma_base64_char_value((b % 16) * 4);
        }
        assert(base64_url_decode(t) =~= bytes);
    } else {
        let a = bytes[0] as nat;
        let b = bytes[1] as nat;
        let c = bytes[2] as nat;
        lemma_base64_char_value(a / 4);
        lemma_base64_char_value((a % 4) * 16 + b / 16);
        lemma_base64_char_value((b % 16) * 4 + c / 64);
        lemma_base64_char_value(c % 64);
        lemma_base64_url_round_trip(bytes.skip(3));
        assert(t.skip(4) =~= base64_url_no_pad(bytes.skip(3)));
        assert(base64_url_decode(t) =~= bytes);
    }
}

/// The `projection_metadata` field of a replay envelope decodes back to the
/// exact metadata bytes the completion was given.
pub proof fn lemma_replay_metadata_decodes(outcome: Seq<char>, metadata: Seq<u8>, obligations: Seq<char>)
    ensures
        replay_envelope(outcome, Some(metadata), obligations) == "{\"outcome\":"@ + outcome + ","@
            + "\"projection_metadata\":\""@ + base64_url_no_pad(metadata) + "\","@
            + "\"projection_obligations\":"@ + obligations + ",\"version\":"@ + decimal(
            COMMAND_REPLAY_VERSION as nat,
        ) + "}"@,
        base64_url_decode(base64_url_no_pad(metadata)) == metadata,
{
    lemma_base64_url_round_trip(metadata);
}

/// Calls `base64::Engine::encode` of `base64::engine::general_purpose::URL_SAFE_NO_PAD`.
/// Claimed: the text is the RFC 4648 base64url encoding of exactly `bytes`
/// without padding, as `base64_url_no_pad` spells it out. The engine panics
/// only when the encoded length overflows `usize`, which the `requires`
/// excludes.
#[verifier::external_body]
fn encode_base64_url(bytes: &[u8]) -> (r: String)
    requires
        bytes@.len() <= usize::MAX / 4,
    ensures
        r@ == base64_url_no_pad(bytes@),
{
    base64::engine::general_purpose::URL_SAFE_NO_PAD.encode(bytes)
}

/// The replay envelope: a compact JSON object with sorted keys holding the
/// outcome, the base64url metadata when present, the legacy obligations and
/// the envelope version.
pub open spec fn replay_envelope(
    outcome: Seq<char>,
    metadata: Option<Seq<u8>>,
    obligations: Seq<char>,
) -> Seq<char> {
    "{\"outcome\":"@ + outcome + ","@ + match metadata {
        Some(m) => "\"projection_metadata\":\""@ + base64_url_no_pad(m) + "\","@,
        None => Seq::<char>::empty(),
    } + "\"projection_obligations\":"@ + obligations + ",\"version\":"@ + decimal(
        COMMAND_REPLAY_VERSION as nat,
    ) + "}"@
}

/// Why a completion is refused, checked in this order. `obligation_check` is
/// the verdict of the projection-obligation rules for this terminal state on
/// the legacy obligations; it applies when no modeled metadata is given.
pub open spec fn completion_error(
    state: TerminalCommandState,
    obligations_count: nat,
    obligation_check: Result<(), String>,
    metadata: Option<Seq<u8>>,
    retention: u128,
) -> Option<Seq<char>> {
    if retention == 0 {
        Some(nonpositive_duration_message("command replay retention"@))
    } else if metadata is None && obligation_check is Err {
        Some(obligation_check->Err_0@)
    } else if metadata_error(ledger_state_of(state), metadata) is Some {
        metadata_error(ledger_state_of(state), metadata)
    } else if metadata is Some && obligations_count != 0 {
        Some("command replay cannot mix legacy and modeled projection obligations"@)
    } else {
        None
    }
}

impl CommandAttempt {
    pub fn key(&self) -> (r: &CommandLedgerKey)
        ensures
            r.value@ == self@.key,
    {
        &self.key
    }

    pub fn causation_id(&self) -> (r: &CausationId)
        ensures
            r.value@ == self@.causation_id,
    {
        &self.causation_id
    }

    pub fn external_binding(&self) -> (r: Option<&ExternalDispatchBinding>)
        ensures
            match r {
                Some(b) => self@.external_binding == Some(b@),
                None => self@.external_binding is None,
            },
    {
        match &self.external_binding {
            Some(b) => Some(b),
            None => None,
        }
    }

    pub fn attempt_token(&self) -> (r: &AttemptToken)
        ensures
            r.value@ == self@.attempt_token,
    {
        &self.attempt_token
    }

    pub fn attempt_number(&self) -> (r: u64)
        ensures
            r == self@.attempt_number,
    {
        self.attempt_number
    }

    /// Cloneable, read-only generation fence retained across a consuming
    /// causal commit.
    pub fn fence(&self) -> (r: AttemptFence)
        ensures
            r@ == fence_of(self@),
    {
        AttemptFence {
            key: self.key.duplicate(),
            contract_fingerprint: self.contract_fingerprint,
            input_hash: self.input_hash,
            causation_id: self.causation_id.duplicate(),
            attempt_token: self.attempt_token.duplicate(),
            attempt_number: self.attempt_number,
        }
    }

    /// Complete with an outcome and no projection obligations.
    pub fn complete(self, state: TerminalCommandState, outcome_json: &str, retention: u128) -> (r:
        Result<CommandCompletion, CommandLedgerError>)
        ensures
            match completion_error(state, 0, Ok(()), None, retention) {
                Some(m) => r is Err && is_invalid(r->Err_0, m),
                None => r is Ok && r->Ok_0@ == (CompletionView {
                    attempt: self@,
                    state,
                    replay: replay_envelope(outcome_json@, None, "[]"@),
                    direct_projection: None,
                    retention,
                    retention_expires_at: None,
                }),
            },
    {
        let obligations = ProjectionObligations::none();
        self.complete_with_replay_metadata(
            state,
            outcome_json,
            &obligations,
            Ok(()),
            None,
            retention,
            None,
        )
    }

    /// Complete with an outcome and legacy projection obligations.
    pub fn complete_with_obligations(
        self,
        state: TerminalCommandState,
        outcome_json: &str,
        projection_obligations: &ProjectionObligations,
        obligation_check: Result<(), String>,
        retention: u128,
    ) -> (r: Result<CommandCompletion, CommandLedgerError>)
        ensures
            match completion_error(state, projection_obligations.count_view(), obligation_check, None, retention) {
                Some(m) => r is Err && is_invalid(r->Err_0, m),
                None => r is Ok && r->Ok_0@ == (CompletionView {
                    attempt: self@,
                    state,
                    replay: replay_envelope(outcome_json@, None, projection_obligations.json_view()),
                    direct_projection: None,
                    retention,
                    retention_expires_at: None,
                }),
            },
    {
        self.complete_with_replay_metadata(
            state,
            outcome_json,
            projection_obligations,
            obligation_check,
            None,
            retention,
            None,
        )
    }

    /// Complete with exact already-canonical modeled projection metadata;
    /// the ledger preserves the bytes and applies only size and state rules.
    pub fn complete_with_projection_metadata(
        self,
        state: TerminalCommandState,
        outcome_json: &str,
        projection_metadata: Vec<u8>,
        retention: u128,
    ) -> (r: Result<CommandCompletion, CommandLedgerError>)
        ensures
            match completion_error(state, 0, Ok(()), Some(projection_metadata@), retention) {
                Some(m) => r is Err && is_invalid(r->Err_0, m),
                None => r is Ok && r->Ok_0@ == (CompletionView {
                    attempt: self@,
                    state,
                    replay: replay_envelope(outcome_json@, Some(projection_metadata@), "[]"@),
                    direct_projection: None,
                    retention,
                    retention_expires_at: None,
                }),
            },
    {
        let obligations = ProjectionObligations::none();
        self.complete_with_replay_metadata(
            state,
            outcome_json,
            &obligations,
            Ok(()),
            Some(projection_metadata),
            retention,
            None,
        )
    }

    /// As `complete_with_projection_metadata`, with the absolute retention
    /// boundary sealed into the metadata.
    pub fn complete_with_projection_metadata_until(
        self,
        state: TerminalCommandState,
        outcome_json: &str,
        projection_metadata: Vec<u8>,
        retention: u128,
        retention_expires_at: std::time::SystemTime,
    ) -> (r: Result<CommandCompletion, CommandLedgerError>)
        ensures
            match completion_error(state, 0, Ok(()), Some(projection_metadata@), retention) {
                Some(m) => r is Err && is_invalid(r->Err_0, m),
                None => r is Ok && r->Ok_0@ == (CompletionView {
                    attempt: self@,
                    state,
                    replay: replay_envelope(outcome_json@, Some(projection_metadata@), "[]"@),
                    direct_projection: None,
                    retention,
                    retention_expires_at: Some(retention_expires_at),
                }),
            },
    {
        let obligations = ProjectionObligations::none();
        self.complete_with_replay_metadata(
            state,
            outcome_json,
            &obligations,
            Ok(()),
            Some(projection_metadata),
            retention,
            Some(retention_expires_at),
        )
    }

    /// The one completion rule every completion goes through.
    fn complete_with_replay_metadata(
        self,
        state: TerminalCommandState,
        outcome_json: &str,
        projection_obligations: &ProjectionObligations,
        obligation_check: Result<(), String>,
        projection_metadata: Option<Vec<u8>>,
        retention: u128,
        retention_expires_at: Option<std::time::SystemTime>,
    ) -> (r: Result<CommandCompletion, CommandLedgerError>)
        ensures
            match completion_error(
                state,
                projection_obligations.count_view(),
                obligation_check,
                option_bytes_view(projection_metadata),
                retention,
            ) {
                Some(m) => r is Err && is_invalid(r->Err_0, m),
                None => r is Ok && r->Ok_0@ == (CompletionView {
                    attempt: self@,
                    state,
                    replay: replay_envelope(
                        outcome_json@,
                        option_bytes_view(projection_metadata),
                        projection_obligations.json_view(),
                    ),
                    direct_projection: None,
                    retention,
                    retention_expires_at,
                }),
            },
    {
        match validate_positive_duration("command replay retention", retention) {
            Ok(()) => {},
            Err(e) => {
                return Err(e);
            },
        }
        if projection_metadata.is_none() {
            match obligation_check {
                Ok(()) => {},
                Err(m) => {
                    return Err(CommandLedgerError::Invalid(m));
                },
            }
        }
        let checked = match &projection_metadata {
            Some(m) => validate_projection_metadata_bytes(state.ledger_state(), Some(m.as_slice())),
            None => validate_projection_metadata_bytes(state.ledger_state(), None),
        };
        match checked {
            Ok(()) => {},
            Err(e) => {
                return Err(e);
            },
        }
        if projection_metadata.is_some() && !projection_obligations.is_empty() {
            return Err(
                CommandLedgerError::Invalid(
                    String::from_str(
                        "command replay cannot mix legacy and modeled projection obligations",
                    ),
                ),
            );
        }
        let mut replay = String::from_str("{\"outcome\":");
        push_str(&mut replay, outcome_json);
        push_str(&mut replay, ",");
        match &projection_metadata {
            Some(m) => {
                push_str(&mut replay, "\"projection_metadata\":\"");
                let encoded = encode_base64_url(m.as_slice());
                push_str(&mut replay, encoded.as_str());
                push_str(&mut replay, "\",");
            },
            None => {},
        }
        push_str(&mut replay, "\"projection_obligations\":");
        push_str(&mut replay, projection_obligations.json.as_str());
        push_str(&mut replay, ",\"version\":");
        push_decimal(&mut replay, COMMAND_REPLAY_VERSION as u64);
        push_str(&mut replay, "}");
        proof {
            reveal_strlit("{\"outcome\":");
            let v = replay_envelope(
                outcome_json@,
                option_bytes_view(projection_metadata),
                projection_obligations.json_view(),
            );
            assert(replay@ =~= v);
        }
        Ok(
            CommandCompletion {
                attempt: self,
                state,
                replay,
                direct_projection: None,
                retention,
                retention_expires_at,
            },
        )
    }

    /// Complete an externally dispatched command without local domain
    /// effects. The reservation binding is checked before a replay payload
    /// is constructed.
    pub fn complete_external(
        self,
        binding: ExternalDispatchBinding,
        state: TerminalCommandState,
        outcome_json: &str,
        projection_obligations: &ProjectionObligations,
        obligation_check: Result<(), String>,
        retention: u128,
    ) -> (r: Result<ExternalCommandCompletion, CommandLedgerError>)
        ensures
            ({
                let replay_error = completion_error(
                    state,
                    projection_obligations.count_view(),
                    obligation_check,
                    None,
                    retention,
                );
                if state == TerminalCommandState::Atomic {
                    r is Err && is_invalid(r->Err_0, "external command completion cannot be atomic"@)
                } else if self@.external_binding != Some(binding@) {
                    r is Err && is_invalid(
                        r->Err_0,
                        "external command completion binding does not match its reservation"@,
                    )
                } else if replay_error is Some {
                    r is Err && is_invalid(r->Err_0, replay_error->0)
                } else {
                    r is Ok && r->Ok_0@ == (ExternalCompletionView {
                        attempt: self@,
                        binding: binding@,
                        state,
                        replay: replay_envelope(outcome_json@, None, projection_obligations.json_view()),
                        retention,
                        retention_expires_at: None,
                    })
                }
            }),
    {
        self.complete_external_with_replay_metadata(
            binding,
            state,
            outcome_json,
            projection_obligations,
            obligation_check,
            None,
            retention,
            None,
        )
    }

    /// Complete a remote command while retaining the exact sealed projection
    /// metadata and absolute deadline returned by the remote command host.
    pub fn complete_external_with_projection_metadata_until(
        self,
        binding: ExternalDispatchBinding,
        state: TerminalCommandState,
        outcome_json: &str,
        projection_metadata: Vec<u8>,
        retention: u128,
        retention_expires_at: std::time::SystemTime,
    ) -> (r: Result<ExternalCommandCompletion, CommandLedgerError>)
        ensures
            ({
                let replay_error = completion_error(state, 0, Ok(()), Some(projection_metadata@), retention);
                if state == TerminalCommandState::Atomic {
                    r is Err && is_invalid(r->Err_0, "external command completion cannot be atomic"@)
                } else if self@.external_binding != Some(binding@) {
                    r is Err && is_invalid(
                        r->Err_0,
                        "external command completion binding does not match its reservation"@,
                    )
                } else if replay_error is Some {
                    r is Err && is_invalid(r->Err_0, replay_error->0)
                } else {
                    r is Ok && r->Ok_0@ == (ExternalCompletionView {
                        attempt: self@,
                        binding: binding@,
                        state,
                        replay: replay_envelope(outcome_json@, Some(projection_metadata@), "[]"@),
                        retention,
                        retention_expires_at: Some(retention_expires_at),
                    })
                }
            }),
    {
        let obligations = ProjectionObligations::none();
        self.complete_external_with_replay_metadata(
            binding,
            state,
            outcome_json,
            &obligations,
            Ok(()),
            Some(projection_metadata),
            retention,
            Some(retention_expires_at),
        )
    }

    fn complete_external_with_replay_metadata(
        self,
        binding: ExternalDispatchBinding,
        state: TerminalCommandState,
        outcome_json: &str,
        projection_obligations: &ProjectionObligations,
        obligation_check: Result<(), String>,
        projection_metadata: Option<Vec<u8>>,
        retention: u128,
        retention_expires_at: Option<std::time::SystemTime>,
    ) -> (r: Result<ExternalCommandCompletion, CommandLedgerError>)
        ensures
            ({
                let replay_error = completion_error(
                    state,
                    projection_obligations.count_view(),
                    obligation_check,
                    option_bytes_view(projection_metadata),
                    retention,
                );
                if state == TerminalCommandState::Atomic {
                    r is Err && is_invalid(r->Err_0, "external command completion cannot be atomic"@)
                } else if self@.external_binding != Some(binding@) {
                    r is Err && is_invalid(
                        r->Err_0,
                        "external command completion binding does not match its reservation"@,
                    )
                } else if replay_error is Some {
                    r is Err && is_invalid(r->Err_0, replay_error->0)
                } else {
                    r is Ok && r->Ok_0@ == (ExternalCompletionView {
                        attempt: self@,
                        binding: binding@,
                        state,
                        replay: replay_envelope(
                            outcome_json@,
                            option_bytes_view(projection_metadata),
                            projection_obligations.json_view(),
                        ),
                        retention,
                        retention_expires_at,
                    })
                }
            }),
    {
        if state == TerminalCommandState::Atomic {
            return Err(
                CommandLedgerError::Invalid(
                    String::from_str("external command completion cannot be atomic"),
                ),
            );
        }
        let matches = match &self.external_binding {
            Some(b) => b.same_as(&binding),
            None => false,
        };
        if !matches {
            return Err(
                CommandLedgerError::Invalid(
                    String::from_str(
                        "external command completion binding does not match its reservation",
                    ),
                ),
            );
        }
        let completion = match self.complete_with_replay_metadata(
            state,
            outcome_json,
            projection_obligations,
            obligation_check,
            projection_metadata,
            retention,
            retention_expires_at,
        ) {
            Ok(c) => c,
            Err(e) => {
                return Err(e);
            },
        };
        proof {
            use_type_invariant(&completion);
        }
        let CommandCompletion {
            attempt,
            state,
            replay,
            direct_projection: _,
            retention,
            retention_expires_at,
        } = completion;
        Ok(
            ExternalCommandCompletion {
                attempt,
                binding,
                state,
                replay,
                retention,
                retention_expires_at,
            },
        )
    }
}

/// Read-only snapshot of one attempt generation, safe to retain while the
/// owned `CommandAttempt` is consumed by completion.
#[derive(Debug)]
pub struct AttemptFence {
    key: CommandLedgerKey,
    contract_fingerprint: [u8; SHA256_BYTES],
    input_hash: [u8; SHA256_BYTES],
    causation_id: CausationId,
    attempt_token: AttemptToken,
    attempt_number: u64,
}

pub struct FenceView {
    pub key: Seq<char>,
    pub contract_fingerprint: Seq<u8>,
    pub input_hash: Seq<u8>,
    pub causation_id: Seq<char>,
    pub attempt_token: Seq<char>,
    pub attempt_number: u64,
}

impl View for AttemptFence {
    type V = FenceView;

    closed spec fn view(&self) -> FenceView {
        FenceView {
            key: self.key.value@,
            contract_fingerprint: self.contract_fingerprint@,
            input_hash: self.input_hash@,
            causation_id: self.causation_id.value@,
            attempt_token: self.attempt_token.value@,
            attempt_number: self.attempt_number,
        }
    }
}

impl AttemptFence {
    pub fn key(&self) -> (r: &CommandLedgerKey)
        ensures
            r.value@ == self@.key,
    {
        &self.key
    }

    pub fn causation_id(&self) -> (r: &CausationId)
        ensures
            r.value@ == self@.causation_id,
    {
        &self.causation_id
    }

    pub fn attempt_token(&self) -> (r: &AttemptToken)
        ensures
            r.value@ == self@.attempt_token,
    {
        &self.attempt_token
    }

    pub fn attempt_number(&self) -> (r: u64)
        ensures
            r == self@.attempt_number,
    {
        self.attempt_number
    }

    pub fn contract_fingerprint_bytes(&self) -> (r: &[u8; SHA256_BYTES])
        ensures
            r@ == self@.contract_fingerprint,
    {
        &self.contract_fingerprint
    }

    pub fn input_hash_bytes(&self) -> (r: &[u8; SHA256_BYTES])
        ensures
            r@ == self@.input_hash,
    {
        &self.input_hash
    }

    pub fn duplicate(&self) -> (r: AttemptFence)
        ensures
            r@ == self@,
    {
        AttemptFence {
            key: self.key.duplicate(),
            contract_fingerprint: self.contract_fingerprint,
            input_hash: self.input_hash,
            causation_id: self.causation_id.duplicate(),
            attempt_token: self.attempt_token.duplicate(),
            attempt_number: self.attempt_number,
        }
    }
}

/// Exactly one fenced ledger completion attached to a domain commit.
pub struct CommandCompletion {
    attempt: CommandAttempt,
    state: TerminalCommandState,
    replay: String,
    direct_projection: Option<String>,
    retention: u128,
    retention_expires_at: Option<std::time::SystemTime>,
}

pub struct CompletionView {
    pub attempt: AttemptView,
    pub state: TerminalCommandState,
    pub replay: Seq<char>,
    pub direct_projection: Option<Seq<char>>,
    pub retention: u128,
    pub retention_expires_at: Option<std::time::SystemTime>,
}

impl View for CommandCompletion {
    type V = CompletionView;

    closed spec fn view(&self) -> CompletionView {
        CompletionView {
            attempt: self.attempt@,
            state: self.state,
            replay: self.replay@,
            direct_projection: match self.direct_projection {
                Some(d) => Some(d@),
                None => None,
            },
            retention: self.retention,
            retention_expires_at: self.retention_expires_at,
        }
    }
}

/// The replay with direct projection evidence placed first among its keys.
pub open spec fn with_direct_projection(replay: Seq<char>, evidence: Seq<char>) -> Seq<char> {
    "{\"direct_projection\":"@ + evidence + ","@ + replay.skip(1)
}

/// Why direct projection evidence cannot be attached, if it cannot.
pub open spec fn attach_error(c: CompletionView) -> Option<Seq<char>> {
    if c.state != TerminalCommandState::Atomic {
        Some("direct projection evidence may only complete a projected command"@)
    } else if c.direct_projection is Some {
        Some("command completion already contains direct projection evidence"@)
    } else {
        None
    }
}

/// Why a completion is not ready to commit, if it is not: a projected
/// (atomic) completion needs its evidence, and no other completion may hold any.
pub open spec fn direct_projection_error(c: CompletionView) -> Option<Seq<char>> {
    if c.state == TerminalCommandState::Atomic && c.direct_projection is None {
        Some("projected command completion has no exact direct projection evidence"@)
    } else if c.state != TerminalCommandState::Atomic && c.direct_projection is Some {
        Some("non-projected command completion contains direct projection evidence"@)
    } else {
        None
    }
}

impl CommandCompletion {
    #[verifier::type_invariant]
    closed spec fn is_valid(&self) -> bool {
        &&& self.replay@.len() > 0
        &&& self.replay@[0] == '{'
        &&& self.direct_projection is Some ==> self.state == TerminalCommandState::Atomic
    }

    pub fn attempt(&self) -> (r: &CommandAttempt)
        ensures
            r@ == self@.attempt,
    {
        &self.attempt
    }

    pub fn state(&self) -> (r: TerminalCommandState)
        ensures
            r == self@.state,
    {
        self.state
    }

    /// The replay envelope; a JSON object, and direct projection evidence
    /// only ever completes an atomic command.
    pub fn replay_json(&self) -> (r: &str)
        ensures
            r@ == self@.replay,
            r@.len() > 0 && r@[0] == '{',
            self@.direct_projection is Some ==> self@.state == TerminalCommandState::Atomic,
    {
        proof {
            use_type_invariant(self);
        }
        self.replay.as_str()
    }

    pub fn retention(&self) -> (r: u128)
        ensures
            r == self@.retention,
    {
        self.retention
    }

    pub fn retention_expires_at(&self) -> (r: Option<std::time::SystemTime>)
        ensures
            r == self@.retention_expires_at,
    {
        self.retention_expires_at
    }

    pub fn attempt_fence(&self) -> (r: AttemptFence)
        ensures
            r@ == fence_of(self@.attempt),
    {
        self.attempt.fence()
    }

    /// Attach same-transaction projection evidence (its canonical compact
    /// JSON) before the ledger row is completed in that same transaction.
    /// `evidence_check` is the verdict of the evidence's own replay-value
    /// rules on `evidence_json`; a refusal is returned after the state checks
    /// and leaves the completion unchanged.
    pub fn attach_direct_projection(
        &mut self,
        evidence_json: &str,
        evidence_check: Result<(), String>,
    ) -> (r: Result<(), CommandLedgerError>)
        ensures
            match attach_error(old(self)@) {
                Some(m) => r is Err && is_invalid(r->Err_0, m) && final(self)@ == old(self)@,
                None => match evidence_check {
                    Err(m) => r is Err && is_invalid(r->Err_0, m@) && final(self)@ == old(self)@,
                    Ok(()) => r is Ok && final(self)@ == (CompletionView {
                        replay: with_direct_projection(old(self)@.replay, evidence_json@),
                        direct_projection: Some(evidence_json@),
                        ..old(self)@
                    }),
                },
            },
    {
        proof {
            use_type_invariant(&*self);
        }
        if self.state != TerminalCommandState::Atomic {
            return Err(
                CommandLedgerError::Invalid(
                    String::from_str(
                        "direct projection evidence may only complete a projected command",
                    ),
                ),
            );
        }
        if self.direct_projection.is_some() {
            return Err(
                CommandLedgerError::Invalid(
                    String::from_str("command completion already contains direct projection evidence"),
                ),
            );
        }
        match evidence_check {
            Ok(()) => {},
            Err(m) => {
                return Err(CommandLedgerError::Invalid(m));
            },
        }
        let mut replay = String::from_str("{\"direct_projection\":");
        push_str(&mut replay, evidence_json);
        push_str(&mut replay, ",");
        let n = self.replay.as_str().unicode_len();
        push_str(&mut replay, self.replay.as_str().substring_char(1, n));
        proof {
            reveal_strlit("{\"direct_projection\":");
            assert(replay@ =~= with_direct_projection(old(self)@.replay, evidence_json@));
        }
        self.replay = replay;
        self.direct_projection = Some(String::from_str(evidence_json));
        Ok(())
    }

    /// Check that the evidence matches the terminal state before commit.
    pub fn validate_direct_projection(&self) -> (r: Result<(), CommandLedgerError>)
        ensures
            match direct_projection_error(self@) {
                Some(m) => r is Err && is_invalid(r->Err_0, m),
                None => r is Ok,
            },
    {
        match (self.state, self.direct_projection.is_some()) {
            (TerminalCommandState::Atomic, true) => Ok(()),
            (TerminalCommandState::Atomic, false) => Err(
                CommandLedgerError::Invalid(
                    String::from_str(
                        "projected command completion has no exact direct projection evidence",
                    ),
                ),
            ),
            (_, true) => Err(
                CommandLedgerError::Invalid(
                    String::from_str(
                        "non-projected command completion contains direct projection evidence",
                    ),
                ),
            ),
            (_, false) => Ok(()),
        }
    }
}

/// Terminal receipt for a command whose domain effects were committed by a
/// different aggregate cell; it has no local domain batch companion.
pub struct ExternalCommandCompletion {
    attempt: CommandAttempt,
    binding: ExternalDispatchBinding,
    state: TerminalCommandState,
    replay: String,
    retention: u128,
    retention_expires_at: Option<std::time::SystemTime>,
}

pub struct ExternalCompletionView {
    pub attempt: AttemptView,
    pub binding: BindingView,
    pub state: TerminalCommandState,
    pub replay: Seq<char>,
    pub retention: u128,
    pub retention_expires_at: Option<std::time::SystemTime>,
}

impl View for ExternalCommandCompletion {
    type V = ExternalCompletionView;

    closed spec fn view(&self) -> ExternalCompletionView {
        ExternalCompletionView {
            attempt: self.attempt@,
            binding: self.binding@,
            state: self.state,
            replay: self.replay@,
            retention: self.retention,
            retention_expires_at: self.retention_expires_at,
        }
    }
}

impl ExternalCommandCompletion {
    #[verifier::type_invariant]
    closed spec fn is_valid(&self) -> bool {
        &&& self.state != TerminalCommandState::Atomic
        &&& self.attempt@.external_binding == Some(self.binding@)
    }

    pub fn attempt(&self) -> (r: &CommandAttempt)
        ensures
            r@ == self@.attempt,
    {
        &self.attempt
    }

    /// The binding; always the one the attempt was reserved with.
    pub fn binding(&self) -> (r: &ExternalDispatchBinding)
        ensures
            r@ == self@.binding,
            self@.attempt.external_binding == Some(r@),
    {
        proof {
            use_type_invariant(self);
        }
        &self.binding
    }

    /// The terminal state; an external completion is never atomic.
    pub fn state(&self) -> (r: TerminalCommandState)
        ensures
            r == self@.state,
            r != TerminalCommandState::Atomic,
    {
        proof {
            use_type_invariant(self);
        }
        self.state
    }

    pub fn replay_json(&self) -> (r: &str)
        ensures
            r@ == self@.replay,
    {
        self.replay.as_str()
    }

    pub fn retention(&self) -> (r: u128)
        ensures
            r == self@.retention,
    {
        self.retention
    }

    pub fn retention_expires_at(&self) -> (r: Option<std::time::SystemTime>)
        ensures
            r == self@.retention_expires_at,
    {
        self.retention_expires_at
    }

    pub fn attempt_fence(&self) -> (r: AttemptFence)
        ensures
            r@ == fence_of(self@.attempt),
    {
        self.attempt.fence()
    }
}

/// Attaching direct projection evidence makes a projected completion ready
/// to commit; a completion that refuses it keeps whatever state it had.
pub proof fn lemma_attached_completion_is_ready(c: CompletionView, evidence: Seq<char>)
    requires
        attach_error(c) is None,
    ensures
        direct_projection_error(
            CompletionView {
                replay: with_direct_projection(c.replay, evidence),
                direct_projection: Some(evidence),
                ..c
            },
        ) is None,
{
}

/// A projected (atomic) completion is not ready until evidence is attached,
/// and a non-projected one is ready as completed.
pub proof fn lemma_fresh_completion_readiness(c: CompletionView)
    requires
        c.direct_projection is None,
    ensures
        (direct_projection_error(c) is None) == (c.state != TerminalCommandState::Atomic),
{
}

/// Mixing modeled metadata with legacy obligations is refused for every
/// state and retention.
pub proof fn lemma_metadata_excludes_obligations(
    state: TerminalCommandState,
    count: nat,
    metadata: Seq<u8>,
    retention: u128,
)
    requires
        count > 0,
    ensures
        completion_error(state, count, Ok(()), Some(metadata), retention) is Some,
{
}

} // verus!

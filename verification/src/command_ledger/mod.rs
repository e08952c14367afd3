//! The command ledger: identities, states and errors of reserved command
//! attempts, and the reservation and completion rules.
use vstd::prelude::*;

pub mod reservation;

verus! {

/// Length of a SHA-256 digest.
pub const SHA256_BYTES: usize = 32;

/// Upper bound on one domain-event body, and on modeled projection metadata.
pub const MAX_DOMAIN_EVENT_BODY_BYTES: usize = 1_048_576;

/// Version of the replay envelope written at completion.
pub const COMMAND_REPLAY_VERSION: u16 = 1;

/// Ledger row identity of one command.
#[derive(Clone, Debug)]
pub struct CommandLedgerKey {
    pub value: String,
}

/// Stable causation shared by every effect of one command.
#[derive(Clone, Debug)]
pub struct CausationId {
    pub value: String,
}

impl CausationId {
    pub fn as_str(&self) -> (r: &str)
        ensures
            r@ == self.value@,
    {
        self.value.as_str()
    }
}

/// Secret token of one attempt generation.
#[derive(Clone, Debug)]
pub struct AttemptToken {
    pub value: String,
}

/// Why a ledger request is refused.
#[derive(Clone, Debug)]
pub enum CommandLedgerError {
    /// The caller asked for something the ledger rules forbid.
    Invalid(String),
    /// Stored data does not satisfy the ledger rules.
    Corrupt(String),
}

impl CommandLedgerError {
    /// The message the error carries.
    pub fn message(&self) -> (r: &str)
        ensures
            r@ == error_message(*self),
    {
        match self {
            CommandLedgerError::Invalid(m) => m.as_str(),
            CommandLedgerError::Corrupt(m) => m.as_str(),
        }
    }
}

pub open spec fn error_message(e: CommandLedgerError) -> Seq<char> {
    match e {
        CommandLedgerError::Invalid(m) => m@,
        CommandLedgerError::Corrupt(m) => m@,
    }
}

/// `e` is `Invalid` with exactly the message `msg`.
pub open spec fn is_invalid(e: CommandLedgerError, msg: Seq<char>) -> bool {
    e matches CommandLedgerError::Invalid(m) && m@ == msg
}

/// `e` is `Corrupt` with exactly the message `msg`.
pub open spec fn is_corrupt(e: CommandLedgerError, msg: Seq<char>) -> bool {
    e matches CommandLedgerError::Corrupt(m) && m@ == msg
}

/// State a completed attempt leaves its command in.
#[derive(Clone, Copy, Debug, PartialEq, Eq, Structural)]
pub enum TerminalCommandState {
    Succeeded,
    SucceededPendingProjection,
    Rejected,
    /// Domain effects and their direct projection committed in one transaction.
    Atomic,
}

/// Every state a ledger row can be in.
#[derive(Clone, Copy, Debug, PartialEq, Eq, Structural)]
pub enum CommandLedgerState {
    InProgress,
    RetryableUnknown,
    Succeeded,
    SucceededPendingProjection,
    ProjectionFailed,
    Rejected,
    Atomic,
    Expired,
}

pub open spec fn ledger_state_of(s: TerminalCommandState) -> CommandLedgerState {
    match s {
        TerminalCommandState::Succeeded => CommandLedgerState::Succeeded,
        TerminalCommandState::SucceededPendingProjection => CommandLedgerState::SucceededPendingProjection,
        TerminalCommandState::Rejected => CommandLedgerState::Rejected,
        TerminalCommandState::Atomic => CommandLedgerState::Atomic,
    }
}

impl TerminalCommandState {
    pub fn ledger_state(self) -> (r: CommandLedgerState)
        ensures
            r == ledger_state_of(self),
    {
        match self {
            TerminalCommandState::Succeeded => CommandLedgerState::Succeeded,
            TerminalCommandState::SucceededPendingProjection => CommandLedgerState::SucceededPendingProjection,
            TerminalCommandState::Rejected => CommandLedgerState::Rejected,
            TerminalCommandState::Atomic => CommandLedgerState::Atomic,
        }
    }
}

pub open spec fn state_name(s: CommandLedgerState) -> Seq<char> {
    match s {
        CommandLedgerState::InProgress => "in_progress"@,
        CommandLedgerState::RetryableUnknown => "retryable_unknown"@,
        CommandLedgerState::Succeeded => "succeeded"@,
        CommandLedgerState::SucceededPendingProjection => "succeeded_pending_projection"@,
        CommandLedgerState::ProjectionFailed => "projection_failed"@,
        CommandLedgerState::Rejected => "rejected"@,
        CommandLedgerState::Atomic => "atomic"@,
        CommandLedgerState::Expired => "expired"@,
    }
}

impl CommandLedgerState {
    /// Stable storage spelling of the state.
    pub fn as_str(&self) -> (r: &'static str)
        ensures
            r@ == state_name(*self),
    {
        match self {
            CommandLedgerState::InProgress => "in_progress",
            CommandLedgerState::RetryableUnknown => "retryable_unknown",
            CommandLedgerState::Succeeded => "succeeded",
            CommandLedgerState::SucceededPendingProjection => "succeeded_pending_projection",
            CommandLedgerState::ProjectionFailed => "projection_failed",
            CommandLedgerState::Rejected => "rejected",
            CommandLedgerState::Atomic => "atomic",
            CommandLedgerState::Expired => "expired",
        }
    }
}

} // verus!

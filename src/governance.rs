use vstd::prelude::*;

verus! {

/// Errors of the governance collaborator, which weights votes by ledger
/// balances.
#[derive(Clone, Copy, Debug, PartialEq, Eq, PartialOrd, Ord, Structural)]
pub enum GovernanceError {
    AlreadyInitialized,
    NotInitialized,
    Unauthorized,
    InvalidParameters,
    PollNotFound,
    PollNotActive,
    PollExpired,
    AlreadyVoted,
    InsufficientVotingPower,
    InvalidOption,
    InvalidOptions,
    InvalidDuration,
    CannotExecuteYet,
    CrossContractCallFailed,
}

/// Thresholds a poll must reach, as percentages, and the default poll
/// lifetime in days.
#[derive(Clone, Debug, PartialEq, Eq, Structural)]
pub struct GovernanceParams {
    pub threshold_percentage: u32,
    pub quorum_percentage: u32,
    pub default_expiry_days: u32,
}

/// Whether a poll's action should run, with the approval and participation
/// it reached, as percentages.
#[derive(Clone, Debug, PartialEq, Eq, Structural)]
pub struct ExecutionResult {
    pub should_execute: bool,
    pub approval_percentage: u32,
    pub participation_percentage: u32,
}

} // verus!

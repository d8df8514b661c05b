use vstd::prelude::*;

verus! {

/// The error codes the server answers with.
#[derive(Debug, Clone, Copy, PartialEq, Eq, Structural)]
pub enum ErrorCode {
    InvalidPayload,
    NotRegistered,
    Unauthorized,
    UnsupportedProtocol,
    RateLimitAgents,
    AgentIdTaken,
    InternalError,
    AccessDenied,
    VoteNotFound,
    InvalidOption,
    AlreadyVoted,
    ElectionInProgress,
    NoElectionActive,
    ConstraintViolation,
}

} // verus!

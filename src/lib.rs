use vstd::prelude::*;

pub mod laws;
pub mod principal;
pub mod proposals;
pub mod state;
pub mod users;

verus! {

/// Every failure that an operation on the governance state can report.
#[derive(Debug)]
pub enum Error {
    TweetTooLong,
    NoPermission,
    UserExistsAlready,
    AlreadyProposed,
    UserDoesNotExist,
    AlreadyVoted,
    ProposalDoesNotExist,
    ProposalLimitReached,
    NoWithdrawableE8s,
    PaymentInProgress,
    NoDepositAddress,
    PaymentError(String),
    RoundResultDoesNotExist,
    UserProposalLimitReached,
    UsernameTooLong,
}

pub const NANOS_PER_SEC: u64 = 1000000000;

/// Converts a duration in seconds to nanoseconds.
pub fn sec_to_nanos(secs: u64) -> (r: u64)
    requires
        secs * NANOS_PER_SEC <= u64::MAX,
    ensures
        r == secs * NANOS_PER_SEC,
{
    secs * NANOS_PER_SEC
}

} // verus!

//! The ways an operation on a pool can fail.

use vstd::prelude::*;

verus! {

/// Why an operation was refused. Every failure is final for the operation
/// that met it: nothing is retried.
#[derive(Clone, Copy, Debug, PartialEq, Eq, Structural)]
pub enum PoolError {
    /// The pool was set up before.
    AlreadyInitialized,
    /// The commitment period is none of 7, 15 and 30 days.
    InvalidPeriod,
    /// The amount is zero or negative.
    InvalidAmount,
    /// The withdrawal exceeds the participant's balance.
    InsufficientBalance,
    /// The ledger did not move the funds.
    TransferFailed,
    /// The prize fund is empty.
    NoPrize,
    /// The pool holds no tickets.
    NoTickets,
    /// No participant holds a ticket.
    NoEligibleParticipants,
    /// The caller is not the identity the operation is reserved for.
    Unauthorized,
}

} // verus!

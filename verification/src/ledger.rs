//! What the pool asks of the asset ledger.
//!
//! The pool never moves funds itself. Each operation that needs funds moved
//! names the transfer, the caller has the ledger attempt it, and the outcome
//! is handed back to the pool.

use vstd::prelude::*;
use crate::identity::Address;

verus! {

/// One end of a transfer.
#[derive(Debug, PartialEq, Eq)]
pub enum Party {
    /// The pool's own holding account.
    Custody,
    /// The account of an identity outside the pool.
    Account(Address),
}

/// What a [`Party`] stands for.
pub enum PartyView {
    Custody,
    Account(Seq<u8>),
}

impl View for Party {
    type V = PartyView;

    open spec fn view(&self) -> PartyView {
        match self {
            Party::Custody => PartyView::Custody,
            Party::Account(id) => PartyView::Account(id@),
        }
    }
}

impl Clone for Party {
    fn clone(&self) -> (copy: Party)
        ensures
            copy@ == self@,
    {
        match self {
            Party::Custody => Party::Custody,
            Party::Account(id) => Party::Account(id.clone()),
        }
    }
}

/// A movement of `amount` units of the pool's asset.
#[derive(Debug, PartialEq, Eq)]
pub struct Transfer {
    pub from: Party,
    pub to: Party,
    pub amount: i128,
}

/// What a [`Transfer`] stands for.
pub struct TransferView {
    pub from: PartyView,
    pub to: PartyView,
    pub amount: int,
}

impl View for Transfer {
    type V = TransferView;

    open spec fn view(&self) -> TransferView {
        TransferView { from: self.from@, to: self.to@, amount: self.amount as int }
    }
}

impl Clone for Transfer {
    fn clone(&self) -> (copy: Transfer)
        ensures
            copy@ == self@,
    {
        Transfer { from: self.from.clone(), to: self.to.clone(), amount: self.amount }
    }
}

/// The movement of `amount` from the account of `from` into custody.
pub open spec fn into_custody(from: Seq<u8>, amount: int) -> TransferView {
    TransferView { from: PartyView::Account(from), to: PartyView::Custody, amount }
}

/// The movement of `amount` out of custody to the account of `to`.
pub open spec fn out_of_custody(to: Seq<u8>, amount: int) -> TransferView {
    TransferView { from: PartyView::Custody, to: PartyView::Account(to), amount }
}

impl Transfer {
    /// Names the movement of `amount` from `from` into custody.
    pub fn collect(from: Address, amount: i128) -> (transfer: Transfer)
        ensures
            transfer@ == into_custody(from@, amount as int),
    {
        Transfer { from: Party::Account(from), to: Party::Custody, amount }
    }

    /// Names the movement of `amount` out of custody to `to`.
    pub fn pay_out(to: Address, amount: i128) -> (transfer: Transfer)
        ensures
            transfer@ == out_of_custody(to@, amount as int),
    {
        Transfer { from: Party::Custody, to: Party::Account(to), amount }
    }
}

/// What the outcome of a check that names a transfer stands for.
pub open spec fn transfer_view<E>(outcome: Result<Transfer, E>) -> Result<TransferView, E> {
    match outcome {
        Ok(transfer) => Ok(transfer@),
        Err(e) => Err(e),
    }
}

/// The ledger refused or failed to carry out a transfer.
#[derive(Clone, Copy, Debug, PartialEq, Eq, Structural)]
pub struct TransferError;

} // verus!

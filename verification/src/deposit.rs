//! The plain deposit vault: balances per depositor and their total, without
//! tickets or draws.

use vstd::prelude::*;
use crate::error::PoolError;
use crate::identity::Address;
use crate::ledger::into_custody;
use crate::ledger::transfer_view;
use crate::ledger::Transfer;
use crate::ledger::TransferError;
use crate::ledger::TransferView;
use crate::registry::balance_of;
use crate::registry::balance_sum;
use crate::registry::credited;
use crate::registry::distinct;
use crate::registry::lemma_credited;
use crate::registry::lemma_holdings_bounded;
use crate::registry::solvent;
use crate::registry::views;
use crate::registry::Participant;
use crate::registry::ParticipantView;
use crate::registry::Registry;

verus! {

/// Who administers a vault and which asset it accepts.
#[derive(Debug, PartialEq, Eq)]
pub struct VaultConfig {
    pub admin: Address,
    pub token: Address,
}

/// What a [`VaultConfig`] stands for.
pub struct VaultConfigView {
    pub admin: Seq<u8>,
    pub token: Seq<u8>,
}

impl View for VaultConfig {
    type V = VaultConfigView;

    open spec fn view(&self) -> VaultConfigView {
        VaultConfigView { admin: self.admin@, token: self.token@ }
    }
}

/// What a vault holds, as mathematics.
pub struct VaultView {
    pub config: Option<VaultConfigView>,
    /// One account per depositor, in order of first deposit.
    pub accounts: Seq<ParticipantView>,
    pub total_deposits: int,
}

/// No account of `accounts` holds a ticket.
pub open spec fn ticketless(accounts: Seq<ParticipantView>) -> bool {
    forall|i: int| 0 <= i < accounts.len() ==> (#[trigger] accounts[i]).tickets == 0
}

impl VaultView {
    /// The vault before it is set up.
    pub open spec fn blank() -> VaultView {
        VaultView { config: None, accounts: Seq::empty(), total_deposits: 0 }
    }

    /// The vault has been set up.
    pub open spec fn initialized(self) -> bool {
        self.config is Some
    }

    /// The balance of `id`: zero for an identity that never deposited.
    pub open spec fn balance_of(self, id: Seq<u8>) -> int {
        balance_of(self.accounts, id)
    }

    /// The books are consistent: the total is the sum of the balances, no
    /// identity has two accounts, no balance is negative, and a vault not yet
    /// set up is blank.
    pub open spec fn wf(self) -> bool {
        &&& distinct(self.accounts)
        &&& solvent(self.accounts)
        &&& ticketless(self.accounts)
        &&& self.total_deposits == balance_sum(self.accounts)
        &&& self.config is None ==> self == VaultView::blank()
    }

    /// Setting the vault up: refused on a vault that is set up already, and
    /// to a caller other than the administrator to be.
    pub open spec fn initialize(self, caller: Seq<u8>, admin: Seq<u8>, token: Seq<u8>) -> (
        VaultView,
        Result<(), PoolError>,
    ) {
        if self.initialized() {
            (self, Err(PoolError::AlreadyInitialized))
        } else if caller != admin {
            (self, Err(PoolError::Unauthorized))
        } else {
            (
                VaultView { config: Some(VaultConfigView { admin, token }), ..VaultView::blank() },
                Ok(()),
            )
        }
    }

    /// The transfer that a deposit calls for: `amount` from the depositor
    /// into custody.
    pub open spec fn deposit_transfer(self, caller: Seq<u8>, depositor: Seq<u8>, amount: int) -> Result<
        TransferView,
        PoolError,
    > {
        if caller != depositor {
            Err(PoolError::Unauthorized)
        } else if amount <= 0 {
            Err(PoolError::InvalidAmount)
        } else {
            Ok(into_custody(depositor, amount))
        }
    }

    /// A deposit: the funds are moved first, and the books are touched only
    /// when they arrived.
    pub open spec fn deposit(self, caller: Seq<u8>, depositor: Seq<u8>, amount: int, moved: bool) -> (
        VaultView,
        Result<(), PoolError>,
    ) {
        match self.deposit_transfer(caller, depositor, amount) {
            Err(e) => (self, Err(e)),
            Ok(_) => if moved {
                (
                    VaultView {
                        accounts: credited(self.accounts, depositor, amount, 0),
                        total_deposits: self.total_deposits + amount,
                        ..self
                    },
                    Ok(()),
                )
            } else {
                (self, Err(PoolError::TransferFailed))
            },
        }
    }
}

/// What the parts of a vault stand for together.
pub open spec fn assembled_vault(
    config: Option<VaultConfig>,
    accounts: Seq<Participant>,
    total_deposits: i128,
) -> VaultView {
    VaultView {
        config: match config {
            Some(config) => Some(config@),
            None => None,
        },
        accounts: views(accounts),
        total_deposits: total_deposits as int,
    }
}

/// A deposit vault.
#[derive(Debug)]
pub struct LuckyStake {
    config: Option<VaultConfig>,
    registry: Registry,
    total_deposits: i128,
}

impl View for LuckyStake {
    type V = VaultView;

    closed spec fn view(&self) -> VaultView {
        VaultView {
            config: match self.config {
                Some(config) => Some(config@),
                None => None,
            },
            accounts: self.registry@,
            total_deposits: self.total_deposits as int,
        }
    }
}

impl LuckyStake {
    /// The books of the vault are consistent.
    pub open spec fn wf(&self) -> bool {
        self@.wf()
    }

    /// The vault before it is set up.
    pub fn new() -> (vault: LuckyStake)
        ensures
            vault@ == VaultView::blank(),
            vault.wf(),
    {
        LuckyStake { config: None, registry: Registry::new(), total_deposits: 0 }
    }

    /// Puts a vault together from its parts, as they were kept between
    /// operations. There is a vault only where the parts are consistent.
    pub fn restore(config: Option<VaultConfig>, accounts: Vec<Participant>, total_deposits: i128) -> (vault:
        Option<LuckyStake>)
        ensures
            match vault {
                Some(vault) => vault.wf() && vault@ == assembled_vault(
                    config,
                    accounts@,
                    total_deposits,
                ),
                None => !assembled_vault(config, accounts@, total_deposits).wf(),
            },
    {
        let ghost parts = assembled_vault(config, accounts@, total_deposits);
        if config.is_none() && (accounts.len() != 0 || total_deposits != 0) {
            assert(parts.wf() ==> parts.accounts.len() == 0);
            return None;
        }
        let mut i: usize = 0;
        while i < accounts.len()
            invariant
                i <= accounts.len(),
                parts.accounts == views(accounts@),
                forall|k: int| 0 <= k < i ==> (#[trigger] parts.accounts[k]).tickets == 0,
            decreases accounts.len() - i,
        {
            if accounts[i].tickets != 0 {
                assert(parts.accounts[i as int].tickets != 0);
                return None;
            }
            i += 1;
        }
        let registry: Registry = match Registry::from_entries(accounts) {
            Some(registry) => registry,
            None => {
                return None;
            },
        };
        match registry.balance_total() {
            Some(balances) => {
                if balances != total_deposits {
                    return None;
                }
            },
            None => {
                return None;
            },
        }
        let vault = LuckyStake { config, registry, total_deposits };
        assert(vault@.config is None ==> vault@.accounts == Seq::<ParticipantView>::empty());
        Some(vault)
    }

    /// Tells whether the vault has been set up.
    pub fn is_initialized(&self) -> (set_up: bool)
        ensures
            set_up == self@.initialized(),
    {
        self.config.is_some()
    }

    /// Sets the vault up, once, with `admin` and the asset `token`. The total
    /// starts at zero. On every refusal the vault is left as it was.
    pub fn initialize(&mut self, caller: &Address, admin: Address, token: Address) -> (outcome: Result<
        (),
        PoolError,
    >)
        requires
            old(self).wf(),
        ensures
            final(self).wf(),
            (final(self)@, outcome) == old(self)@.initialize(caller@, admin@, token@),
    {
        if self.config.is_some() {
            return Err(PoolError::AlreadyInitialized);
        }
        if !caller.same(&admin) {
            return Err(PoolError::Unauthorized);
        }
        self.config = Some(VaultConfig { admin, token });
        self.registry = Registry::new();
        self.total_deposits = 0;
        Ok(())
    }

    /// Tells whether the total can take a deposit of `amount`.
    pub fn has_room_for(&self, amount: i128) -> (room: bool)
        requires
            self.wf(),
        ensures
            room == (self@.total_deposits + amount <= i128::MAX),
    {
        amount <= 0 || self.total_deposits <= i128::MAX - amount
    }

    /// Checks a deposit and names the transfer it calls for.
    pub fn deposit_transfer(&self, caller: &Address, depositor: &Address, amount: i128) -> (outcome:
        Result<Transfer, PoolError>)
        ensures
            transfer_view(outcome) == self@.deposit_transfer(caller@, depositor@, amount as int),
    {
        if !caller.same(depositor) {
            return Err(PoolError::Unauthorized);
        }
        if amount <= 0 {
            return Err(PoolError::InvalidAmount);
        }
        Ok(Transfer::collect(depositor.clone(), amount))
    }

    /// Books a deposit of `amount` by `depositor`, given in `moved` how the
    /// transfer named by [`Self::deposit_transfer`] went. On every refusal, a
    /// failed transfer included, the vault is left as it was.
    pub fn deposit(
        &mut self,
        caller: &Address,
        depositor: Address,
        amount: i128,
        moved: Result<(), TransferError>,
    ) -> (outcome: Result<(), PoolError>)
        requires
            old(self).wf(),
            old(self)@.initialized(),
            old(self)@.total_deposits + amount <= i128::MAX,
        ensures
            final(self).wf(),
            (final(self)@, outcome) == old(self)@.deposit(
                caller@,
                depositor@,
                amount as int,
                moved is Ok,
            ),
    {
        if !caller.same(&depositor) {
            return Err(PoolError::Unauthorized);
        }
        if amount <= 0 {
            return Err(PoolError::InvalidAmount);
        }
        if moved.is_err() {
            return Err(PoolError::TransferFailed);
        }
        proof {
            lemma_holdings_bounded(self@.accounts, depositor@);
            lemma_credited(self@.accounts, depositor@, amount as int, 0);
        }
        self.registry.credit(depositor, amount, 0);
        self.total_deposits = self.total_deposits + amount;
        Ok(())
    }

    /// The balance of `user`: zero for an identity that never deposited.
    pub fn get_balance(&self, user: &Address) -> (balance: i128)
        requires
            self.wf(),
        ensures
            balance == self@.balance_of(user@),
    {
        self.registry.balance_of(user)
    }

    /// The sum of all balances.
    pub fn get_total_deposits(&self) -> (total: i128)
        ensures
            total == self@.total_deposits,
    {
        self.total_deposits
    }

    /// What the vault was set up with, once it is.
    pub fn config(&self) -> (config: &Option<VaultConfig>)
        ensures
            match *config {
                Some(c) => self@.config == Some(c@),
                None => self@.config is None,
            },
    {
        &self.config
    }

    /// The accounts, in order of first deposit.
    pub fn accounts(&self) -> (accounts: &Vec<Participant>)
        ensures
            views(accounts@) == self@.accounts,
    {
        self.registry.entries()
    }
}

} // verus!

//! The shared prize pool: a prize fund that is paid out to all depositors at
//! once, each in proportion to its balance.

use vstd::prelude::*;
use crate::deposit::VaultConfig;
use crate::deposit::VaultConfigView;
use crate::identity::Address;
use crate::ledger::into_custody;
use crate::ledger::out_of_custody;
use crate::ledger::transfer_view;
use crate::ledger::Transfer;
use crate::ledger::TransferError;
use crate::ledger::TransferView;
use crate::registry::balance_of;
use crate::registry::balance_sum;
use crate::registry::by_balance;
use crate::registry::distinct;
use crate::registry::lemma_holdings_bounded;
use crate::registry::lemma_sum_prefix;
use crate::registry::solvent;
use crate::registry::views;
use crate::registry::Participant;
use crate::registry::ParticipantView;
use crate::registry::Registry;
use crate::shares::proportional_share;
use crate::shares::share_floor;

verus! {

/// Why an operation on the prize pool was refused.
#[derive(Clone, Copy, Debug, PartialEq, Eq, Structural)]
pub enum PrizeError {
    /// The pool was set up before.
    AlreadyInitialized,
    /// The caller is not the identity the operation is reserved for.
    Unauthorized,
    /// The amount is zero or negative.
    InvalidAmount,
    /// The ledger did not move the funds.
    TransferFailed,
    /// The prize fund is empty.
    NoPrize,
    /// Nothing is deposited.
    NoDeposits,
}

/// The basis points in a whole.
pub const BASIS_POINTS: i128 = 10_000;

/// What a prize pool holds, as mathematics.
pub struct PrizeView {
    pub config: Option<VaultConfigView>,
    /// One account per depositor, in order of first deposit.
    pub accounts: Seq<ParticipantView>,
    pub total_deposits: int,
    pub prize_fund: int,
}

/// What a list of transfers stands for, entry by entry.
pub open spec fn transfer_views(transfers: Seq<Transfer>) -> Seq<TransferView> {
    transfers.map_values(|t: Transfer| t@)
}

/// What an outcome carrying a list of transfers stands for.
pub open spec fn payouts_view(outcome: Result<Vec<Transfer>, PrizeError>) -> Result<
    Seq<TransferView>,
    PrizeError,
> {
    match outcome {
        Ok(transfers) => Ok(transfer_views(transfers@)),
        Err(e) => Err(e),
    }
}

/// The payouts of `prize` among `accounts` holding `total` together: to each
/// account, in order, its proportion of the prize rounded down, where that is
/// anything at all.
pub open spec fn payouts(accounts: Seq<ParticipantView>, prize: int, total: int) -> Seq<
    TransferView,
>
    decreases accounts.len(),
{
    if accounts.len() == 0 {
        Seq::empty()
    } else {
        let earlier = payouts(accounts.drop_last(), prize, total);
        let share = share_floor(prize, accounts.last().balance, total);
        if share > 0 {
            earlier.push(out_of_custody(accounts.last().id, share))
        } else {
            earlier
        }
    }
}

/// The sum of the amounts of `transfers`.
pub open spec fn paid_out(transfers: Seq<TransferView>) -> int
    decreases transfers.len(),
{
    if transfers.len() == 0 {
        0
    } else {
        paid_out(transfers.drop_last()) + transfers.last().amount
    }
}

impl PrizeView {
    /// The pool before it is set up.
    pub open spec fn blank() -> PrizeView {
        PrizeView { config: None, accounts: Seq::empty(), total_deposits: 0, prize_fund: 0 }
    }

    /// The pool has been set up.
    pub open spec fn initialized(self) -> bool {
        self.config is Some
    }

    /// The administrator of a pool that is set up.
    pub open spec fn admin(self) -> Seq<u8> {
        self.config->Some_0.admin
    }

    /// The books are consistent: the total is the sum of the balances, no
    /// identity has two accounts, nothing is negative, and a pool not yet set
    /// up is blank.
    pub open spec fn wf(self) -> bool {
        &&& distinct(self.accounts)
        &&& solvent(self.accounts)
        &&& self.total_deposits == balance_sum(self.accounts)
        &&& self.prize_fund >= 0
        &&& self.config is None ==> self == PrizeView::blank()
    }

    /// Setting the pool up: refused on a pool that is set up already, and to
    /// a caller other than the administrator to be.
    pub open spec fn initialize(self, caller: Seq<u8>, admin: Seq<u8>, token: Seq<u8>) -> (
        PrizeView,
        Result<(), PrizeError>,
    ) {
        if self.initialized() {
            (self, Err(PrizeError::AlreadyInitialized))
        } else if caller != admin {
            (self, Err(PrizeError::Unauthorized))
        } else {
            (
                PrizeView { config: Some(VaultConfigView { admin, token }), ..PrizeView::blank() },
                Ok(()),
            )
        }
    }

    /// The transfer that a prize top-up calls for: `amount` from the
    /// administrator into custody.
    pub open spec fn add_prize_transfer(self, caller: Seq<u8>, amount: int) -> Result<
        TransferView,
        PrizeError,
    > {
        if caller != self.admin() {
            Err(PrizeError::Unauthorized)
        } else if amount <= 0 {
            Err(PrizeError::InvalidAmount)
        } else {
            Ok(into_custody(self.admin(), amount))
        }
    }

    /// A prize top-up: the fund grows once the funds arrived.
    pub open spec fn add_prize(self, caller: Seq<u8>, amount: int, moved: bool) -> (
        PrizeView,
        Result<(), PrizeError>,
    ) {
        match self.add_prize_transfer(caller, amount) {
            Err(e) => (self, Err(e)),
            Ok(_) => if moved {
                (PrizeView { prize_fund: self.prize_fund + amount, ..self }, Ok(()))
            } else {
                (self, Err(PrizeError::TransferFailed))
            },
        }
    }

    /// The transfers that a distribution calls for.
    pub open spec fn distribute_transfers(self) -> Result<Seq<TransferView>, PrizeError> {
        if self.prize_fund <= 0 {
            Err(PrizeError::NoPrize)
        } else if self.total_deposits <= 0 {
            Err(PrizeError::NoDeposits)
        } else {
            Ok(payouts(self.accounts, self.prize_fund, self.total_deposits))
        }
    }

    /// A distribution: once every payout is made the fund is empty, whatever
    /// was lost to rounding.
    pub open spec fn distribute(self, paid: bool) -> (PrizeView, Result<(), PrizeError>) {
        match self.distribute_transfers() {
            Err(e) => (self, Err(e)),
            Ok(_) => if paid {
                (PrizeView { prize_fund: 0, ..self }, Ok(()))
            } else {
                (self, Err(PrizeError::TransferFailed))
            },
        }
    }

    /// The share of `user` in all deposits, in basis points, rounded down;
    /// zero while nothing is deposited.
    pub open spec fn user_share_bp(self, user: Seq<u8>) -> int {
        if self.total_deposits == 0 {
            0
        } else {
            (balance_of(self.accounts, user) * BASIS_POINTS) / self.total_deposits
        }
    }
}

/// A distribution never pays out more than the prize.
pub proof fn lemma_payouts_within_prize(accounts: Seq<ParticipantView>, prize: int, total: int)
    requires
        solvent(accounts),
        0 <= prize,
        0 < total,
    ensures
        paid_out(payouts(accounts, prize, total)) * total <= prize * balance_sum(accounts),
        balance_sum(accounts) == total ==> paid_out(payouts(accounts, prize, total)) <= prize,
        0 <= paid_out(payouts(accounts, prize, total)),
    decreases accounts.len(),
{
    if accounts.len() > 0 {
        let earlier = accounts.drop_last();
        let last = accounts.last();
        assert forall|i: int| 0 <= i < earlier.len() implies (#[trigger] earlier[i]).balance >= 0
            && earlier[i].tickets >= 0 by {
            assert(earlier[i] == accounts[i]);
        }
        lemma_payouts_within_prize(earlier, prize, total);
        assert(accounts[accounts.len() - 1].balance >= 0);
        let share = share_floor(prize, last.balance, total);
        vstd::arithmetic::div_mod::lemma_fundamental_div_mod(prize * last.balance, total);
        vstd::arithmetic::div_mod::lemma_mod_pos_bound(prize * last.balance, total);
        assert(share * total <= prize * last.balance && 0 <= share) by (nonlinear_arith)
            requires
                prize * last.balance == total * share + (prize * last.balance) % total,
                0 <= (prize * last.balance) % total < total,
                0 <= prize,
                0 <= last.balance,
                0 < total,
        ;
        let before = payouts(earlier, prize, total);
        if share > 0 {
            assert(before.push(out_of_custody(last.id, share)).drop_last() == before);
        }
        assert((paid_out(before) + share) * total <= prize * (balance_sum(earlier)
            + last.balance)) by (nonlinear_arith)
            requires
                paid_out(before) * total <= prize * balance_sum(earlier),
                share * total <= prize * last.balance,
        ;
    }
    if balance_sum(accounts) == total {
        assert(paid_out(payouts(accounts, prize, total)) <= prize) by (nonlinear_arith)
            requires
                paid_out(payouts(accounts, prize, total)) * total <= prize * total,
                0 < total,
        ;
    }
}

/// What the parts of a prize pool stand for together.
pub open spec fn assembled_prize_pool(
    config: Option<VaultConfig>,
    accounts: Seq<Participant>,
    total_deposits: i128,
    prize_fund: i128,
) -> PrizeView {
    PrizeView {
        config: match config {
            Some(config) => Some(config@),
            None => None,
        },
        accounts: views(accounts),
        total_deposits: total_deposits as int,
        prize_fund: prize_fund as int,
    }
}

/// A prize pool that shares its prize among all depositors.
#[derive(Debug)]
pub struct PrizePoolContract {
    config: Option<VaultConfig>,
    registry: Registry,
    total_deposits: i128,
    prize_fund: i128,
}

impl View for PrizePoolContract {
    type V = PrizeView;

    closed spec fn view(&self) -> PrizeView {
        PrizeView {
            config: match self.config {
                Some(config) => Some(config@),
                None => None,
            },
            accounts: self.registry@,
            total_deposits: self.total_deposits as int,
            prize_fund: self.prize_fund as int,
        }
    }
}

impl PrizePoolContract {
    /// The books of the pool are consistent.
    pub open spec fn wf(&self) -> bool {
        self@.wf()
    }

    /// The pool before it is set up.
    pub fn new() -> (pool: PrizePoolContract)
        ensures
            pool@ == PrizeView::blank(),
            pool.wf(),
    {
        PrizePoolContract { config: None, registry: Registry::new(), total_deposits: 0, prize_fund: 0 }
    }

    /// Puts a pool together from its parts, as they were kept between
    /// operations. There is a pool only where the parts are consistent.
    pub fn restore(
        config: Option<VaultConfig>,
        accounts: Vec<Participant>,
        total_deposits: i128,
        prize_fund: i128,
    ) -> (pool: Option<PrizePoolContract>)
        ensures
            match pool {
                Some(pool) => pool.wf() && pool@ == assembled_prize_pool(
                    config,
                    accounts@,
                    total_deposits,
                    prize_fund,
                ),
                None => !assembled_prize_pool(config, accounts@, total_deposits, prize_fund).wf(),
            },
    {
        let ghost parts = assembled_prize_pool(config, accounts@, total_deposits, prize_fund);
        if config.is_none() && (accounts.len() != 0 || total_deposits != 0 || prize_fund != 0) {
            assert(parts.wf() ==> parts.accounts.len() == 0);
            return None;
        }
        if prize_fund < 0 {
            return None;
        }
        let registry: Registry = match Registry::from_entries(accounts) {
            Some(registry) => registry,
            None => {
                return None;
            },
        };
        let balances: i128 = match registry.balance_total() {
            Some(balances) => balances,
            None => {
                return None;
            },
        };
        if balances != total_deposits {
            return None;
        }
        let pool = PrizePoolContract { config, registry, total_deposits, prize_fund };
        assert(pool@.config is None ==> pool@.accounts == Seq::<ParticipantView>::empty());
        Some(pool)
    }

    /// Tells whether the pool has been set up.
    pub fn is_initialized(&self) -> (set_up: bool)
        ensures
            set_up == self@.initialized(),
    {
        self.config.is_some()
    }

    /// Sets the pool up, once, with `admin` and the asset `token`. The prize
    /// fund and the total start at zero. On every refusal the pool is left as
    /// it was.
    pub fn initialize(&mut self, caller: &Address, admin: Address, token: Address) -> (outcome: Result<
        (),
        PrizeError,
    >)
        requires
            old(self).wf(),
        ensures
            final(self).wf(),
            (final(self)@, outcome) == old(self)@.initialize(caller@, admin@, token@),
    {
        if self.config.is_some() {
            return Err(PrizeError::AlreadyInitialized);
        }
        if !caller.same(&admin) {
            return Err(PrizeError::Unauthorized);
        }
        self.config = Some(VaultConfig { admin, token });
        self.registry = Registry::new();
        self.total_deposits = 0;
        self.prize_fund = 0;
        Ok(())
    }

    /// The administrator.
    pub fn get_admin(&self) -> (admin: &Address)
        requires
            self@.initialized(),
        ensures
            admin@ == self@.admin(),
    {
        match &self.config {
            Some(config) => &config.admin,
            None => vstd::pervasive::unreached(),
        }
    }

    /// Checks a prize top-up and names the transfer it calls for.
    pub fn add_prize_transfer(&self, caller: &Address, amount: i128) -> (outcome: Result<
        Transfer,
        PrizeError,
    >)
        requires
            self@.initialized(),
        ensures
            transfer_view(outcome) == self@.add_prize_transfer(caller@, amount as int),
    {
        let admin: &Address = self.get_admin();
        if !caller.same(admin) {
            return Err(PrizeError::Unauthorized);
        }
        if amount <= 0 {
            return Err(PrizeError::InvalidAmount);
        }
        Ok(Transfer::collect(admin.clone(), amount))
    }

    /// Tells whether the prize fund can take `amount` more.
    pub fn can_fund(&self, amount: i128) -> (room: bool)
        requires
            self.wf(),
        ensures
            room == (self@.prize_fund + amount <= i128::MAX),
    {
        amount <= 0 || self.prize_fund <= i128::MAX - amount
    }

    /// Books a prize top-up of `amount`, given in `moved` how the transfer
    /// named by [`Self::add_prize_transfer`] went. On every refusal, a failed
    /// transfer included, the pool is left as it was.
    pub fn add_prize(&mut self, caller: &Address, amount: i128, moved: Result<(), TransferError>) -> (outcome:
        Result<(), PrizeError>)
        requires
            old(self).wf(),
            old(self)@.initialized(),
            old(self)@.prize_fund + amount <= i128::MAX,
        ensures
            final(self).wf(),
            (final(self)@, outcome) == old(self)@.add_prize(caller@, amount as int, moved is Ok),
    {
        if !caller.same(self.get_admin()) {
            return Err(PrizeError::Unauthorized);
        }
        if amount <= 0 {
            return Err(PrizeError::InvalidAmount);
        }
        if moved.is_err() {
            return Err(PrizeError::TransferFailed);
        }
        self.prize_fund = self.prize_fund + amount;
        Ok(())
    }

    /// Checks a distribution and names the payouts it calls for, in order of
    /// first deposit: to each depositor `prize * balance / total`, rounded
    /// down, where that is anything at all.
    pub fn distribute_transfers(&self) -> (outcome: Result<Vec<Transfer>, PrizeError>)
        requires
            self.wf(),
        ensures
            payouts_view(outcome) == self@.distribute_transfers(),
    {
        if self.prize_fund <= 0 {
            return Err(PrizeError::NoPrize);
        }
        if self.total_deposits <= 0 {
            return Err(PrizeError::NoDeposits);
        }
        let entries: &Vec<Participant> = self.registry.entries();
        let ghost accounts = self@.accounts;
        let mut transfers: Vec<Transfer> = Vec::new();
        let mut i: usize = 0;
        proof {
            assert(accounts.take(0).len() == 0);
            assert(transfer_views(transfers@) == payouts(
                accounts.take(0),
                self.prize_fund as int,
                self.total_deposits as int,
            ));
        }
        while i < entries.len()
            invariant
                i <= entries.len(),
                accounts == views(entries@),
                accounts == self@.accounts,
                self.wf(),
                0 < self.prize_fund,
                0 < self.total_deposits,
                transfer_views(transfers@) == payouts(
                    accounts.take(i as int),
                    self.prize_fund as int,
                    self.total_deposits as int,
                ),
            decreases entries.len() - i,
        {
            proof {
                assert forall|k: int| 0 <= k < accounts.len() implies by_balance()(
                    #[trigger] accounts[k],
                ) >= 0 by {}
                lemma_sum_prefix(accounts, i as int, by_balance());
                assert(accounts.take(i + 1).drop_last() == accounts.take(i as int));
                assert(accounts.take(i + 1).last() == accounts[i as int]);
            }
            let entry: &Participant = &entries[i];
            let share: i128 = proportional_share(
                self.prize_fund,
                entry.balance,
                self.total_deposits,
            );
            if share > 0 {
                let ghost before = transfers@;
                transfers.push(Transfer::pay_out(entry.id.clone(), share));
                assert(transfer_views(transfers@) == transfer_views(before).push(
                    out_of_custody(accounts[i as int].id, share as int),
                ));
            }
            i += 1;
        }
        assert(accounts.take(i as int) == accounts);
        Ok(transfers)
    }

    /// Closes a distribution, given in `paid` whether every transfer named by
    /// [`Self::distribute_transfers`] was made: the prize fund is then empty.
    /// On every refusal, a failed payout included, the pool is left as it was.
    pub fn distribute(&mut self, paid: Result<(), TransferError>) -> (outcome: Result<
        (),
        PrizeError,
    >)
        requires
            old(self).wf(),
        ensures
            final(self).wf(),
            (final(self)@, outcome) == old(self)@.distribute(paid is Ok),
    {
        if self.prize_fund <= 0 {
            return Err(PrizeError::NoPrize);
        }
        if self.total_deposits <= 0 {
            return Err(PrizeError::NoDeposits);
        }
        if paid.is_err() {
            return Err(PrizeError::TransferFailed);
        }
        self.prize_fund = 0;
        Ok(())
    }

    /// The prize waiting to be distributed.
    pub fn get_prize_fund(&self) -> (prize: i128)
        ensures
            prize == self@.prize_fund,
    {
        self.prize_fund
    }

    /// The share of `user` in all deposits, in basis points, rounded down;
    /// zero while nothing is deposited.
    pub fn get_user_share_bp(&self, user: &Address) -> (share: u64)
        requires
            self.wf(),
        ensures
            share == self@.user_share_bp(user@),
            share <= BASIS_POINTS,
    {
        if self.total_deposits == 0 {
            return 0;
        }
        proof {
            lemma_holdings_bounded(self@.accounts, user@);
        }
        let balance: i128 = self.registry.balance_of(user);
        let share: i128 = proportional_share(BASIS_POINTS, balance, self.total_deposits);
        assert(balance * BASIS_POINTS == BASIS_POINTS * balance) by (nonlinear_arith);
        share as u64
    }

    /// The sum of all balances.
    pub fn get_total_deposits(&self) -> (total: i128)
        ensures
            total == self@.total_deposits,
    {
        self.total_deposits
    }

    /// What the pool was set up with, once it is.
    pub fn config(&self) -> (config: &Option<VaultConfig>)
        ensures
            match *config {
                Some(c) => self@.config == Some(c@),
                None => self@.config is None,
            },
    {
        &self.config
    }

    /// The accounts, in order of first deposit.
    pub fn accounts(&self) -> (accounts: &Vec<Participant>)
        ensures
            views(accounts@) == self@.accounts,
    {
        self.registry.entries()
    }
}

} // verus!

//! The staking pool: deposits, withdrawals, the prize fund and the draw.
//!
//! A pool is a value that the caller owns and hands to each operation. It
//! does not move funds: an operation that needs funds moved comes in two
//! steps. The first, named after the operation with `_transfer` added, checks
//! the request and names the transfer. The caller has the ledger attempt that
//! transfer and passes the outcome to the second step, which does the
//! bookkeeping. The second step repeats the checks of the first, so it is
//! safe on its own.
//!
//! Every operation takes the `caller`: the identity whose authorization of
//! this very operation has been verified.

use vstd::prelude::*;
use crate::draw::draw_seed;
use crate::draw::drawn;
use crate::draw::lemma_line_empty;
use crate::draw::lemma_stake_is_tickets;
use crate::draw::lemma_winner_eligible;
use crate::draw::seed_of;
use crate::draw::select_winner;
use crate::error::PoolError;
use crate::identity::Address;
use crate::ledger::into_custody;
use crate::ledger::out_of_custody;
use crate::ledger::transfer_view;
use crate::ledger::Transfer;
use crate::ledger::TransferError;
use crate::ledger::TransferView;
use crate::registry::balance_of;
use crate::registry::balance_sum;
use crate::registry::credited;
use crate::registry::debited;
use crate::registry::distinct;
use crate::registry::lemma_credited;
use crate::registry::lemma_debited;
use crate::registry::lemma_holdings_bounded;
use crate::registry::lemma_sums_nonnegative;
use crate::registry::solvent;
use crate::registry::ticket_sum;
use crate::registry::tickets_of;
use crate::registry::views;
use crate::registry::Participant;
use crate::registry::ParticipantView;
use crate::registry::Registry;
use crate::shares::tickets_burned;
use crate::shares::tickets_earned;
use crate::shares::tickets_for;
use crate::shares::tickets_to_remove;

verus! {

/// What a pool is set up with, once and for good.
#[derive(Debug, PartialEq, Eq)]
pub struct PoolConfig {
    /// Who may fund the prize and run the draw.
    pub admin: Address,
    /// The asset that the pool accepts.
    pub token: Address,
    /// For how many days deposits are committed: 7, 15 or 30.
    pub period_days: u32,
}

/// What a [`PoolConfig`] stands for.
pub struct ConfigView {
    pub admin: Seq<u8>,
    pub token: Seq<u8>,
    pub period_days: int,
}

impl View for PoolConfig {
    type V = ConfigView;

    open spec fn view(&self) -> ConfigView {
        ConfigView { admin: self.admin@, token: self.token@, period_days: self.period_days as int }
    }
}

/// The commitment periods that a pool can be set up with.
pub open spec fn valid_period(period_days: int) -> bool {
    period_days == 7 || period_days == 15 || period_days == 30
}

/// What a pool holds, as mathematics: the configuration, once it is set up,
/// the registry in order of first deposit, and the four counters.
pub struct PoolView {
    pub config: Option<ConfigView>,
    pub participants: Seq<ParticipantView>,
    pub total_deposits: int,
    pub total_tickets: int,
    pub prize_fund: int,
    pub draw_nonce: int,
}

/// What the outcome of a draw stands for.
pub open spec fn winner_view(outcome: Result<Address, PoolError>) -> Result<Seq<u8>, PoolError> {
    match outcome {
        Ok(winner) => Ok(winner@),
        Err(e) => Err(e),
    }
}

impl PoolView {
    /// The pool before it is set up.
    pub open spec fn blank() -> PoolView {
        PoolView {
            config: None,
            participants: Seq::empty(),
            total_deposits: 0,
            total_tickets: 0,
            prize_fund: 0,
            draw_nonce: 0,
        }
    }

    /// The pool as `initialize` leaves it.
    pub open spec fn fresh(admin: Seq<u8>, token: Seq<u8>, period_days: int) -> PoolView {
        PoolView { config: Some(ConfigView { admin, token, period_days }), ..PoolView::blank() }
    }

    /// The pool has been set up.
    pub open spec fn initialized(self) -> bool {
        self.config is Some
    }

    /// The commitment period; zero before the pool is set up.
    pub open spec fn period_days(self) -> int {
        match self.config {
            Some(config) => config.period_days,
            None => 0,
        }
    }

    /// The balance of `id`.
    pub open spec fn balance_of(self, id: Seq<u8>) -> int {
        balance_of(self.participants, id)
    }

    /// The tickets of `id`.
    pub open spec fn tickets_of(self, id: Seq<u8>) -> int {
        tickets_of(self.participants, id)
    }

    /// The books are consistent: the totals are the sums over the registry,
    /// no identity is registered twice, nothing is negative, the period is
    /// one of the three on offer, and a pool not yet set up is blank.
    pub open spec fn wf(self) -> bool {
        &&& distinct(self.participants)
        &&& solvent(self.participants)
        &&& self.total_deposits == balance_sum(self.participants)
        &&& self.total_tickets == ticket_sum(self.participants)
        &&& self.prize_fund >= 0
        &&& self.draw_nonce >= 0
        &&& match self.config {
            Some(config) => valid_period(config.period_days),
            None => self == PoolView::blank(),
        }
    }

    /// Setting the pool up: refused on a pool that is set up already, to a
    /// caller other than the administrator to be, and for a period that is
    /// not on offer.
    pub open spec fn initialize(
        self,
        caller: Seq<u8>,
        admin: Seq<u8>,
        token: Seq<u8>,
        period_days: int,
    ) -> (PoolView, Result<(), PoolError>) {
        if self.initialized() {
            (self, Err(PoolError::AlreadyInitialized))
        } else if caller != admin {
            (self, Err(PoolError::Unauthorized))
        } else if !valid_period(period_days) {
            (self, Err(PoolError::InvalidPeriod))
        } else {
            (PoolView::fresh(admin, token, period_days), Ok(()))
        }
    }

    /// The transfer that a deposit calls for: `amount` from the depositor
    /// into custody.
    pub open spec fn deposit_transfer(self, caller: Seq<u8>, depositor: Seq<u8>, amount: int) -> Result<
        TransferView,
        PoolError,
    > {
        if caller != depositor {
            Err(PoolError::Unauthorized)
        } else if amount <= 0 {
            Err(PoolError::InvalidAmount)
        } else {
            Ok(into_custody(depositor, amount))
        }
    }

    /// The pool after `depositor` put in `amount`.
    pub open spec fn credited(self, depositor: Seq<u8>, amount: int) -> PoolView {
        let tickets = tickets_earned(amount, self.period_days());
        PoolView {
            participants: credited(self.participants, depositor, amount, tickets),
            total_deposits: self.total_deposits + amount,
            total_tickets: self.total_tickets + tickets,
            ..self
        }
    }

    /// A deposit: the funds are moved first, and the books are touched only
    /// when they arrived.
    pub open spec fn deposit(self, caller: Seq<u8>, depositor: Seq<u8>, amount: int, moved: bool) -> (
        PoolView,
        Result<(), PoolError>,
    ) {
        match self.deposit_transfer(caller, depositor, amount) {
            Err(e) => (self, Err(e)),
            Ok(_) => if moved {
                (self.credited(depositor, amount), Ok(()))
            } else {
                (self, Err(PoolError::TransferFailed))
            },
        }
    }

    /// The transfer that a withdrawal calls for: `amount` out of custody to
    /// the depositor.
    pub open spec fn withdraw_transfer(self, caller: Seq<u8>, depositor: Seq<u8>, amount: int) -> Result<
        TransferView,
        PoolError,
    > {
        if caller != depositor {
            Err(PoolError::Unauthorized)
        } else if amount <= 0 {
            Err(PoolError::InvalidAmount)
        } else if amount > self.balance_of(depositor) {
            Err(PoolError::InsufficientBalance)
        } else {
            Ok(out_of_custody(depositor, amount))
        }
    }

    /// The pool after `depositor` took out `amount`, giving up the same
    /// proportion of its tickets, rounded down.
    pub open spec fn debited(self, depositor: Seq<u8>, amount: int) -> PoolView {
        let burned = tickets_burned(
            self.tickets_of(depositor),
            amount,
            self.balance_of(depositor),
        );
        PoolView {
            participants: debited(self.participants, depositor, amount, burned),
            total_deposits: self.total_deposits - amount,
            total_tickets: self.total_tickets - burned,
            ..self
        }
    }

    /// A withdrawal: the payout is attempted first, and the books are debited
    /// only when it was made.
    pub open spec fn withdraw(self, caller: Seq<u8>, depositor: Seq<u8>, amount: int, moved: bool) -> (
        PoolView,
        Result<(), PoolError>,
    ) {
        match self.withdraw_transfer(caller, depositor, amount) {
            Err(e) => (self, Err(e)),
            Ok(_) => if moved {
                (self.debited(depositor, amount), Ok(()))
            } else {
                (self, Err(PoolError::TransferFailed))
            },
        }
    }

    /// The administrator of a pool that is set up.
    pub open spec fn admin(self) -> Seq<u8> {
        self.config->Some_0.admin
    }

    /// The transfer that a prize top-up calls for: `amount` from the
    /// administrator into custody.
    pub open spec fn add_prize_transfer(self, caller: Seq<u8>, amount: int) -> Result<
        TransferView,
        PoolError,
    > {
        if caller != self.admin() {
            Err(PoolError::Unauthorized)
        } else if amount <= 0 {
            Err(PoolError::InvalidAmount)
        } else {
            Ok(into_custody(self.admin(), amount))
        }
    }

    /// A prize top-up: the fund grows once the funds arrived.
    pub open spec fn add_prize(self, caller: Seq<u8>, amount: int, moved: bool) -> (
        PoolView,
        Result<(), PoolError>,
    ) {
        match self.add_prize_transfer(caller, amount) {
            Err(e) => (self, Err(e)),
            Ok(_) => if moved {
                (PoolView { prize_fund: self.prize_fund + amount, ..self }, Ok(()))
            } else {
                (self, Err(PoolError::TransferFailed))
            },
        }
    }

    /// The winner of the draw made at `timestamp` and ledger `sequence`: the
    /// identity at the position drawn among the registry with the seed of
    /// this draw.
    pub open spec fn winner(self, timestamp: int, sequence: int) -> Result<Seq<u8>, PoolError> {
        match drawn(self.participants, seed_of(timestamp, sequence, self.draw_nonce)) {
            Ok(slot) => Ok(self.participants[slot].id),
            Err(e) => Err(e),
        }
    }

    /// The transfer that a draw calls for: the whole prize fund out of
    /// custody to the winner.
    pub open spec fn draw_transfer(self, caller: Seq<u8>, timestamp: int, sequence: int) -> Result<
        TransferView,
        PoolError,
    > {
        if caller != self.admin() {
            Err(PoolError::Unauthorized)
        } else if self.prize_fund <= 0 {
            Err(PoolError::NoPrize)
        } else if self.total_tickets <= 0 {
            Err(PoolError::NoTickets)
        } else {
            match self.winner(timestamp, sequence) {
                Ok(winner) => Ok(out_of_custody(winner, self.prize_fund)),
                Err(e) => Err(e),
            }
        }
    }

    /// A draw: the prize is paid first; once it is, the fund is empty and
    /// the nonce has advanced by one.
    pub open spec fn execute_draw(self, caller: Seq<u8>, timestamp: int, sequence: int, paid: bool) -> (
        PoolView,
        Result<Seq<u8>, PoolError>,
    ) {
        match self.draw_transfer(caller, timestamp, sequence) {
            Err(e) => (self, Err(e)),
            Ok(_) => if paid {
                (
                    PoolView { prize_fund: 0, draw_nonce: self.draw_nonce + 1, ..self },
                    self.winner(timestamp, sequence),
                )
            } else {
                (self, Err(PoolError::TransferFailed))
            },
        }
    }

    /// The counters can take a deposit of `amount` without leaving their
    /// 128 bits.
    pub open spec fn has_room_for(self, amount: int) -> bool {
        &&& self.total_deposits + amount <= i128::MAX
        &&& self.total_tickets + tickets_earned(amount, self.period_days()) <= i128::MAX
    }
}

/// What the parts of a pool stand for together.
pub open spec fn assembled(
    config: Option<PoolConfig>,
    entries: Seq<Participant>,
    total_deposits: i128,
    total_tickets: i128,
    prize_fund: i128,
    draw_nonce: u64,
) -> PoolView {
    PoolView {
        config: match config {
            Some(config) => Some(config@),
            None => None,
        },
        participants: views(entries),
        total_deposits: total_deposits as int,
        total_tickets: total_tickets as int,
        prize_fund: prize_fund as int,
        draw_nonce: draw_nonce as int,
    }
}

/// A ticket-weighted staking pool.
#[derive(Debug)]
pub struct LuckyStakePool {
    config: Option<PoolConfig>,
    registry: Registry,
    total_deposits: i128,
    total_tickets: i128,
    prize_fund: i128,
    draw_nonce: u64,
}

impl View for LuckyStakePool {
    type V = PoolView;

    closed spec fn view(&self) -> PoolView {
        PoolView {
            config: match self.config {
                Some(config) => Some(config@),
                None => None,
            },
            participants: self.registry@,
            total_deposits: self.total_deposits as int,
            total_tickets: self.total_tickets as int,
            prize_fund: self.prize_fund as int,
            draw_nonce: self.draw_nonce as int,
        }
    }
}

impl LuckyStakePool {
    /// The books of the pool are consistent.
    pub open spec fn wf(&self) -> bool {
        self@.wf()
    }

    /// The pool before it is set up.
    pub fn new() -> (pool: LuckyStakePool)
        ensures
            pool@ == PoolView::blank(),
            pool.wf(),
    {
        LuckyStakePool {
            config: None,
            registry: Registry::new(),
            total_deposits: 0,
            total_tickets: 0,
            prize_fund: 0,
            draw_nonce: 0,
        }
    }

    /// Puts a pool together from its parts, as they were kept between
    /// operations. There is a pool only where the parts are consistent.
    pub fn restore(
        config: Option<PoolConfig>,
        entries: Vec<Participant>,
        total_deposits: i128,
        total_tickets: i128,
        prize_fund: i128,
        draw_nonce: u64,
    ) -> (pool: Option<LuckyStakePool>)
        ensures
            match pool {
                Some(pool) => pool.wf() && pool@ == assembled(
                    config,
                    entries@,
                    total_deposits,
                    total_tickets,
                    prize_fund,
                    draw_nonce,
                ),
                None => !assembled(
                    config,
                    entries@,
                    total_deposits,
                    total_tickets,
                    prize_fund,
                    draw_nonce,
                ).wf(),
            },
    {
        let valid_config: bool = match &config {
            Some(c) => c.period_days == 7 || c.period_days == 15 || c.period_days == 30,
            None => entries.len() == 0 && total_deposits == 0 && total_tickets == 0 && prize_fund
                == 0 && draw_nonce == 0,
        };
        if !valid_config || prize_fund < 0 {
            proof {
                let view = assembled(
                    config,
                    entries@,
                    total_deposits,
                    total_tickets,
                    prize_fund,
                    draw_nonce,
                );
                if config is None && view.wf() {
                    assert(view.participants.len() == 0);
                }
            }
            return None;
        }
        let registry: Registry = match Registry::from_entries(entries) {
            Some(registry) => registry,
            None => {
                return None;
            },
        };
        match registry.totals() {
            Some((balances, tickets)) => {
                if balances != total_deposits || tickets != total_tickets {
                    return None;
                }
            },
            None => {
                return None;
            },
        }
        let pool = LuckyStakePool {
            config,
            registry,
            total_deposits,
            total_tickets,
            prize_fund,
            draw_nonce,
        };
        assert(pool@.config is None ==> pool@.participants == Seq::<ParticipantView>::empty());
        Some(pool)
    }

    /// Tells whether the pool has been set up.
    pub fn is_initialized(&self) -> (set_up: bool)
        ensures
            set_up == self@.initialized(),
    {
        self.config.is_some()
    }

    /// Sets the pool up, once: with `admin`, the asset `token` and a
    /// commitment period of 7, 15 or 30 days. All counters start at zero and
    /// the registry empty. On every refusal the pool is left as it was.
    pub fn initialize(
        &mut self,
        caller: &Address,
        admin: Address,
        token: Address,
        period_days: u32,
    ) -> (outcome: Result<(), PoolError>)
        requires
            old(self).wf(),
        ensures
            final(self).wf(),
            (final(self)@, outcome) == old(self)@.initialize(
                caller@,
                admin@,
                token@,
                period_days as int,
            ),
    {
        if self.config.is_some() {
            return Err(PoolError::AlreadyInitialized);
        }
        if !caller.same(&admin) {
            return Err(PoolError::Unauthorized);
        }
        if !(period_days == 7 || period_days == 15 || period_days == 30) {
            return Err(PoolError::InvalidPeriod);
        }
        self.config = Some(PoolConfig { admin, token, period_days });
        self.registry = Registry::new();
        self.total_deposits = 0;
        self.total_tickets = 0;
        self.prize_fund = 0;
        self.draw_nonce = 0;
        Ok(())
    }

    /// Tells whether the counters can take a deposit of `amount`.
    pub fn has_room_for(&self, amount: i128) -> (room: bool)
        requires
            self.wf(),
        ensures
            room == self@.has_room_for(amount as int),
    {
        let period_days: u32 = self.get_period_days();
        proof {
            lemma_sums_nonnegative(self@.participants);
        }
        if amount <= 0 {
            assert(tickets_earned(amount as int, period_days as int) <= 0) by (nonlinear_arith)
                requires
                    amount <= 0,
                    period_days >= 0,
            ;
            return true;
        }
        match amount.checked_mul(period_days as i128) {
            None => {
                false
            },
            Some(tickets) => {
                assert(tickets >= 0) by (nonlinear_arith)
                    requires
                        tickets == amount * period_days,
                        amount > 0,
                        period_days >= 0,
                ;
                self.total_deposits <= i128::MAX - amount && self.total_tickets <= i128::MAX
                    - tickets
            },
        }
    }

    /// Checks a deposit and names the transfer it calls for.
    pub fn deposit_transfer(&self, caller: &Address, depositor: &Address, amount: i128) -> (outcome:
        Result<Transfer, PoolError>)
        ensures
            transfer_view(outcome) == self@.deposit_transfer(caller@, depositor@, amount as int),
    {
        if !caller.same(depositor) {
            return Err(PoolError::Unauthorized);
        }
        if amount <= 0 {
            return Err(PoolError::InvalidAmount);
        }
        Ok(Transfer::collect(depositor.clone(), amount))
    }

    /// Books a deposit of `amount` by `depositor`, given in `moved` how the
    /// transfer named by [`Self::deposit_transfer`] went. The depositor
    /// earns `amount * period_days` tickets and is registered on its first
    /// deposit. On every refusal, a failed transfer included, the pool is
    /// left as it was.
    pub fn deposit(
        &mut self,
        caller: &Address,
        depositor: Address,
        amount: i128,
        moved: Result<(), TransferError>,
    ) -> (outcome: Result<(), PoolError>)
        requires
            old(self).wf(),
            old(self)@.initialized(),
            old(self)@.has_room_for(amount as int),
        ensures
            final(self).wf(),
            (final(self)@, outcome) == old(self)@.deposit(
                caller@,
                depositor@,
                amount as int,
                moved is Ok,
            ),
    {
        if !caller.same(&depositor) {
            return Err(PoolError::Unauthorized);
        }
        if amount <= 0 {
            return Err(PoolError::InvalidAmount);
        }
        if moved.is_err() {
            return Err(PoolError::TransferFailed);
        }
        let period_days: u32 = self.get_period_days();
        proof {
            assert(0 <= tickets_earned(amount as int, period_days as int)) by (nonlinear_arith)
                requires
                    amount > 0,
                    period_days >= 0,
            ;
            lemma_holdings_bounded(self@.participants, depositor@);
            lemma_credited(
                self@.participants,
                depositor@,
                amount as int,
                tickets_earned(amount as int, period_days as int),
            );
        }
        let tickets: i128 = tickets_for(amount, period_days);
        self.registry.credit(depositor, amount, tickets);
        self.total_deposits = self.total_deposits + amount;
        self.total_tickets = self.total_tickets + tickets;
        Ok(())
    }

    /// Checks a withdrawal and names the transfer it calls for.
    pub fn withdraw_transfer(&self, caller: &Address, depositor: &Address, amount: i128) -> (outcome:
        Result<Transfer, PoolError>)
        requires
            self.wf(),
        ensures
            transfer_view(outcome) == self@.withdraw_transfer(caller@, depositor@, amount as int),
    {
        if !caller.same(depositor) {
            return Err(PoolError::Unauthorized);
        }
        if amount <= 0 {
            return Err(PoolError::InvalidAmount);
        }
        if amount > self.registry.balance_of(depositor) {
            return Err(PoolError::InsufficientBalance);
        }
        Ok(Transfer::pay_out(depositor.clone(), amount))
    }

    /// Books a withdrawal of `amount` by `depositor`, given in `moved` how
    /// the transfer named by [`Self::withdraw_transfer`] went. The depositor
    /// gives up `tickets * amount / balance` tickets, rounded down, and stays
    /// registered even with nothing left. The payout comes before the
    /// bookkeeping, so that on every refusal, a failed payout included, the
    /// pool is left as it was.
    pub fn withdraw(
        &mut self,
        caller: &Address,
        depositor: Address,
        amount: i128,
        moved: Result<(), TransferError>,
    ) -> (outcome: Result<(), PoolError>)
        requires
            old(self).wf(),
        ensures
            final(self).wf(),
            (final(self)@, outcome) == old(self)@.withdraw(
                caller@,
                depositor@,
                amount as int,
                moved is Ok,
            ),
    {
        if !caller.same(&depositor) {
            return Err(PoolError::Unauthorized);
        }
        if amount <= 0 {
            return Err(PoolError::InvalidAmount);
        }
        let balance: i128 = self.registry.balance_of(&depositor);
        if amount > balance {
            return Err(PoolError::InsufficientBalance);
        }
        if moved.is_err() {
            return Err(PoolError::TransferFailed);
        }
        let tickets: i128 = self.registry.tickets_of(&depositor);
        proof {
            lemma_holdings_bounded(self@.participants, depositor@);
        }
        let burned: i128 = tickets_to_remove(tickets, amount, balance);
        proof {
            lemma_debited(self@.participants, depositor@, amount as int, burned as int);
        }
        self.registry.debit(depositor, amount, burned);
        self.total_deposits = self.total_deposits - amount;
        self.total_tickets = self.total_tickets - burned;
        Ok(())
    }

    /// Checks a prize top-up and names the transfer it calls for.
    pub fn add_prize_transfer(&self, caller: &Address, amount: i128) -> (outcome: Result<
        Transfer,
        PoolError,
    >)
        requires
            self@.initialized(),
        ensures
            transfer_view(outcome) == self@.add_prize_transfer(caller@, amount as int),
    {
        let admin: &Address = self.get_admin();
        if !caller.same(admin) {
            return Err(PoolError::Unauthorized);
        }
        if amount <= 0 {
            return Err(PoolError::InvalidAmount);
        }
        Ok(Transfer::collect(admin.clone(), amount))
    }

    /// Tells whether the prize fund can take `amount` more.
    pub fn can_fund(&self, amount: i128) -> (room: bool)
        requires
            self.wf(),
        ensures
            room == (self@.prize_fund + amount <= i128::MAX),
    {
        amount <= 0 || self.prize_fund <= i128::MAX - amount
    }

    /// Books a prize top-up of `amount`, given in `moved` how the transfer
    /// named by [`Self::add_prize_transfer`] went. On every refusal, a failed
    /// transfer included, the pool is left as it was.
    pub fn add_prize(&mut self, caller: &Address, amount: i128, moved: Result<(), TransferError>) -> (outcome:
        Result<(), PoolError>)
        requires
            old(self).wf(),
            old(self)@.initialized(),
            old(self)@.prize_fund + amount <= i128::MAX,
        ensures
            final(self).wf(),
            (final(self)@, outcome) == old(self)@.add_prize(caller@, amount as int, moved is Ok),
    {
        if !caller.same(self.get_admin()) {
            return Err(PoolError::Unauthorized);
        }
        if amount <= 0 {
            return Err(PoolError::InvalidAmount);
        }
        if moved.is_err() {
            return Err(PoolError::TransferFailed);
        }
        self.prize_fund = self.prize_fund + amount;
        Ok(())
    }

    /// Runs the checks of a draw and picks the winner.
    fn draw_winner(&self, caller: &Address, timestamp: u64, sequence: u32) -> (outcome: Result<
        Address,
        PoolError,
    >)
        requires
            self.wf(),
            self@.initialized(),
        ensures
            match self@.draw_transfer(caller@, timestamp as int, sequence as int) {
                Ok(_) => winner_view(outcome) == self@.winner(timestamp as int, sequence as int)
                    && outcome is Ok,
                Err(e) => outcome == Err::<Address, PoolError>(e),
            },
    {
        if !caller.same(self.get_admin()) {
            return Err(PoolError::Unauthorized);
        }
        if self.prize_fund <= 0 {
            return Err(PoolError::NoPrize);
        }
        if self.total_tickets <= 0 {
            return Err(PoolError::NoTickets);
        }
        proof {
            lemma_stake_is_tickets(self@.participants);
        }
        let seed: u128 = draw_seed(timestamp, sequence, self.draw_nonce);
        let entries: &Vec<Participant> = self.registry.entries();
        match select_winner(entries, seed) {
            Ok(slot) => {
                proof {
                    lemma_line_empty(self@.participants);
                    lemma_winner_eligible(self@.participants, seed as int);
                }
                Ok(entries[slot].id.clone())
            },
            Err(e) => Err(e),
        }
    }

    /// Checks a draw, picks the winner and names the transfer that pays it.
    pub fn draw_transfer(&self, caller: &Address, timestamp: u64, sequence: u32) -> (outcome: Result<
        Transfer,
        PoolError,
    >)
        requires
            self.wf(),
            self@.initialized(),
        ensures
            transfer_view(outcome) == self@.draw_transfer(
                caller@,
                timestamp as int,
                sequence as int,
            ),
    {
        match self.draw_winner(caller, timestamp, sequence) {
            Ok(winner) => Ok(Transfer::pay_out(winner, self.prize_fund)),
            Err(e) => Err(e),
        }
    }

    /// Tells whether the nonce can advance once more.
    pub fn can_draw(&self) -> (room: bool)
        ensures
            room == (self@.draw_nonce < u64::MAX),
    {
        self.draw_nonce < u64::MAX
    }

    /// Runs the draw made at `timestamp` and ledger `sequence`, given in
    /// `paid` how the transfer named by [`Self::draw_transfer`] went: names
    /// the winner, empties the prize fund and advances the nonce by one. On
    /// every refusal, a failed payment included, the pool is left as it
    /// was.
    pub fn execute_draw(
        &mut self,
        caller: &Address,
        timestamp: u64,
        sequence: u32,
        paid: Result<(), TransferError>,
    ) -> (outcome: Result<Address, PoolError>)
        requires
            old(self).wf(),
            old(self)@.initialized(),
            old(self)@.draw_nonce < u64::MAX,
        ensures
            final(self).wf(),
            (final(self)@, winner_view(outcome)) == old(self)@.execute_draw(
                caller@,
                timestamp as int,
                sequence as int,
                paid is Ok,
            ),
    {
        match self.draw_winner(caller, timestamp, sequence) {
            Ok(winner) => {
                if paid.is_err() {
                    return Err(PoolError::TransferFailed);
                }
                self.prize_fund = 0;
                self.draw_nonce = self.draw_nonce + 1;
                Ok(winner)
            },
            Err(e) => Err(e),
        }
    }

    /// The balance of `user`: zero for an identity that never deposited.
    pub fn get_balance(&self, user: &Address) -> (balance: i128)
        requires
            self.wf(),
        ensures
            balance == self@.balance_of(user@),
    {
        self.registry.balance_of(user)
    }

    /// The tickets of `user`: zero for an identity that never deposited.
    pub fn get_tickets(&self, user: &Address) -> (tickets: i128)
        requires
            self.wf(),
        ensures
            tickets == self@.tickets_of(user@),
    {
        self.registry.tickets_of(user)
    }

    /// The sum of all balances.
    pub fn get_total_deposits(&self) -> (total: i128)
        ensures
            total == self@.total_deposits,
    {
        self.total_deposits
    }

    /// The sum of all tickets.
    pub fn get_total_tickets(&self) -> (total: i128)
        ensures
            total == self@.total_tickets,
    {
        self.total_tickets
    }

    /// The prize waiting for the next draw.
    pub fn get_prize_fund(&self) -> (prize: i128)
        ensures
            prize == self@.prize_fund,
    {
        self.prize_fund
    }

    /// The commitment period in days; zero before the pool is set up.
    pub fn get_period_days(&self) -> (period_days: u32)
        ensures
            period_days == self@.period_days(),
    {
        match &self.config {
            Some(config) => config.period_days,
            None => 0,
        }
    }

    /// The administrator.
    pub fn get_admin(&self) -> (admin: &Address)
        requires
            self@.initialized(),
        ensures
            admin@ == self@.admin(),
    {
        match &self.config {
            Some(config) => &config.admin,
            None => vstd::pervasive::unreached(),
        }
    }

    /// The asset that the pool accepts.
    pub fn get_token(&self) -> (token: &Address)
        requires
            self@.initialized(),
        ensures
            token@ == self@.config->Some_0.token,
    {
        match &self.config {
            Some(config) => &config.token,
            None => vstd::pervasive::unreached(),
        }
    }

    /// The number of draws made so far.
    pub fn get_draw_nonce(&self) -> (nonce: u64)
        ensures
            nonce == self@.draw_nonce,
    {
        self.draw_nonce
    }

    /// The registry entries, in order of first deposit.
    pub fn participants(&self) -> (entries: &Vec<Participant>)
        ensures
            views(entries@) == self@.participants,
    {
        self.registry.entries()
    }
}

} // verus!

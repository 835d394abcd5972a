//! What holds of every pool, proved from the definitions of the operations.

use vstd::prelude::*;
use crate::draw::drawn;
use crate::draw::eligible_tickets;
use crate::draw::has_eligible;
use crate::draw::holds_ticket;
use crate::draw::lemma_line;
use crate::draw::lemma_line_empty;
use crate::draw::lemma_one_winner;
use crate::draw::lemma_stake_is_tickets;
use crate::draw::line_start;
use crate::draw::seed_of;
use crate::draw::stake;
use crate::draw::winner_slot;
use crate::error::PoolError;
use crate::pool::valid_period;
use crate::pool::PoolView;
use crate::registry::depositors;
use crate::registry::knows;
use crate::registry::lemma_credited;
use crate::registry::lemma_debited;
use crate::registry::lemma_holdings_bounded;
use crate::registry::ParticipantView;
use crate::shares::share_floor;
use crate::shares::tickets_burned;
use crate::shares::tickets_earned;

verus! {

/// The pool after each of `deposits` was made in turn, each by its own
/// depositor and with the funds moved.
pub open spec fn after_deposits(pool: PoolView, deposits: Seq<(Seq<u8>, int)>) -> PoolView
    decreases deposits.len(),
{
    if deposits.len() == 0 {
        pool
    } else {
        let (depositor, amount) = deposits.last();
        after_deposits(pool, deposits.drop_last()).deposit(depositor, depositor, amount, true).0
    }
}

/// The sum of the amounts of `deposits`.
pub open spec fn deposited(deposits: Seq<(Seq<u8>, int)>) -> int
    decreases deposits.len(),
{
    if deposits.len() == 0 {
        0
    } else {
        deposited(deposits.drop_last()) + deposits.last().1
    }
}

/// Every deposit of `deposits` is of a positive amount.
pub open spec fn all_positive(deposits: Seq<(Seq<u8>, int)>) -> bool {
    forall|i: int| 0 <= i < deposits.len() ==> (#[trigger] deposits[i]).1 > 0
}

/// No two deposits of `deposits` are by the same depositor.
pub open spec fn by_distinct_depositors(deposits: Seq<(Seq<u8>, int)>) -> bool {
    forall|i: int, j: int|
        0 <= i < j < deposits.len() ==> (#[trigger] deposits[i]).0 != (#[trigger] deposits[j]).0
}

/// A deposit keeps the books consistent, adds the amount to the depositor's
/// balance and to the total, and adds `amount * period_days` tickets to the
/// depositor's tickets and to the total.
pub proof fn lemma_deposit_books(pool: PoolView, depositor: Seq<u8>, amount: int)
    requires
        pool.wf(),
        pool.initialized(),
        amount > 0,
    ensures
        pool.deposit(depositor, depositor, amount, true) == (
            pool.credited(depositor, amount),
            Ok::<(), PoolError>(()),
        ),
        pool.credited(depositor, amount).wf(),
        pool.credited(depositor, amount).initialized(),
        pool.credited(depositor, amount).period_days() == pool.period_days(),
        pool.credited(depositor, amount).total_deposits == pool.total_deposits + amount,
        pool.credited(depositor, amount).total_tickets == pool.total_tickets + amount
            * pool.period_days(),
        pool.credited(depositor, amount).balance_of(depositor) == pool.balance_of(depositor)
            + amount,
        pool.credited(depositor, amount).tickets_of(depositor) == pool.tickets_of(depositor)
            + amount * pool.period_days(),
        forall|other: Seq<u8>|
            #![trigger pool.credited(depositor, amount).balance_of(other)]
            #![trigger pool.credited(depositor, amount).tickets_of(other)]
            other != depositor ==> {
                &&& pool.credited(depositor, amount).balance_of(other) == pool.balance_of(other)
                &&& pool.credited(depositor, amount).tickets_of(other) == pool.tickets_of(other)
            },
{
    let tickets = tickets_earned(amount, pool.period_days());
    assert(tickets > 0) by (nonlinear_arith)
        requires
            tickets == amount * pool.period_days(),
            amount > 0,
            pool.period_days() >= 7,
    ;
    lemma_credited(pool.participants, depositor, amount, tickets);
}

/// Deposits add up: after any sequence of deposits the total of deposits has
/// grown by the sum of the amounts, the total of tickets by that sum times the
/// commitment period, and the books are consistent.
pub proof fn lemma_deposits_add_up(pool: PoolView, deposits: Seq<(Seq<u8>, int)>)
    requires
        pool.wf(),
        pool.initialized(),
        all_positive(deposits),
    ensures
        after_deposits(pool, deposits).wf(),
        after_deposits(pool, deposits).initialized(),
        after_deposits(pool, deposits).period_days() == pool.period_days(),
        after_deposits(pool, deposits).total_deposits == pool.total_deposits + deposited(
            deposits,
        ),
        after_deposits(pool, deposits).total_tickets == pool.total_tickets + deposited(deposits)
            * pool.period_days(),
    decreases deposits.len(),
{
    if deposits.len() > 0 {
        let earlier = deposits.drop_last();
        let (depositor, amount) = deposits.last();
        assert(deposits[deposits.len() - 1].1 > 0);
        assert forall|i: int| 0 <= i < earlier.len() implies (#[trigger] earlier[i]).1 > 0 by {
            assert(earlier[i] == deposits[i]);
        }
        lemma_deposits_add_up(pool, earlier);
        lemma_deposit_books(after_deposits(pool, earlier), depositor, amount);
        assert((deposited(earlier) + amount) * pool.period_days() == deposited(earlier)
            * pool.period_days() + amount * pool.period_days()) by (nonlinear_arith);
    }
}

/// In a pool that was set up and then took deposits by distinct
/// participants, the total of deposits is the sum of the amounts, the total
/// of tickets is that sum times the commitment period, each depositor holds
/// what it deposited, with the tickets that this earned, and nobody else
/// holds anything.
pub proof fn lemma_distinct_deposits(
    admin: Seq<u8>,
    token: Seq<u8>,
    period_days: int,
    deposits: Seq<(Seq<u8>, int)>,
)
    requires
        valid_period(period_days),
        all_positive(deposits),
        by_distinct_depositors(deposits),
    ensures
        after_deposits(PoolView::fresh(admin, token, period_days), deposits).total_deposits
            == deposited(deposits),
        after_deposits(PoolView::fresh(admin, token, period_days), deposits).total_tickets
            == deposited(deposits) * period_days,
        forall|i: int|
            #![trigger deposits[i]]
            0 <= i < deposits.len() ==> {
                &&& after_deposits(
                    PoolView::fresh(admin, token, period_days),
                    deposits,
                ).balance_of(deposits[i].0) == deposits[i].1
                &&& after_deposits(
                    PoolView::fresh(admin, token, period_days),
                    deposits,
                ).tickets_of(deposits[i].0) == deposits[i].1 * period_days
            },
        forall|id: Seq<u8>|
            #![trigger knows(after_deposits(PoolView::fresh(admin, token, period_days), deposits).participants, id)]
            knows(
                after_deposits(PoolView::fresh(admin, token, period_days), deposits).participants,
                id,
            ) <==> exists|i: int| 0 <= i < deposits.len() && (#[trigger] deposits[i]).0 == id,
    decreases deposits.len(),
{
    let start = PoolView::fresh(admin, token, period_days);
    assert(start.wf());
    lemma_deposits_add_up(start, deposits);
    let after = after_deposits(start, deposits);
    if deposits.len() == 0 {
        assert forall|id: Seq<u8>| !knows(after.participants, id) by {}
    } else {
        let earlier = deposits.drop_last();
        let (depositor, amount) = deposits.last();
        let before = after_deposits(start, earlier);
        assert(deposits[deposits.len() - 1].1 > 0);
        assert forall|i: int| 0 <= i < earlier.len() implies (#[trigger] earlier[i]).1 > 0 by {
            assert(earlier[i] == deposits[i]);
        }
        assert forall|i: int, j: int| 0 <= i < j < earlier.len() implies (#[trigger] earlier[i]).0
            != (#[trigger] earlier[j]).0 by {
            assert(earlier[i] == deposits[i]);
            assert(earlier[j] == deposits[j]);
        }
        lemma_distinct_deposits(admin, token, period_days, earlier);
        lemma_deposits_add_up(start, earlier);
        lemma_deposit_books(before, depositor, amount);
        lemma_credited(
            before.participants,
            depositor,
            amount,
            tickets_earned(amount, before.period_days()),
        );
        // The last depositor is new to the pool.
        assert(!knows(before.participants, depositor)) by {
            if knows(before.participants, depositor) {
                let i = choose|i: int| 0 <= i < earlier.len() && (#[trigger] earlier[i]).0 == depositor;
                assert(earlier[i] == deposits[i]);
                assert(deposits[i].0 != deposits[deposits.len() - 1].0);
            }
        }
        assert forall|i: int| #![trigger deposits[i]] 0 <= i < deposits.len() implies {
            &&& after.balance_of(deposits[i].0) == deposits[i].1
            &&& after.tickets_of(deposits[i].0) == deposits[i].1 * period_days
        } by {
            if i < earlier.len() {
                assert(earlier[i] == deposits[i]);
                assert(deposits[i].0 != deposits[deposits.len() - 1].0);
            }
        }
        assert forall|id: Seq<u8>|
            #![trigger knows(after.participants, id)]
            knows(after.participants, id) <==> exists|i: int|
                0 <= i < deposits.len() && (#[trigger] deposits[i]).0 == id by {
            if id == depositor {
                assert(deposits[deposits.len() - 1].0 == id);
            } else {
                if knows(before.participants, id) {
                    let i = choose|i: int| 0 <= i < earlier.len() && (#[trigger] earlier[i]).0 == id;
                    assert(earlier[i] == deposits[i]);
                }
                if exists|i: int| 0 <= i < deposits.len() && (#[trigger] deposits[i]).0 == id {
                    let i = choose|i: int| 0 <= i < deposits.len() && (#[trigger] deposits[i]).0 == id;
                    assert(earlier[i] == deposits[i]);
                }
            }
        }
    }
}

/// Rounding down gives up the largest whole number of tickets that does not
/// exceed the exact proportion: less than one ticket is lost to truncation.
pub proof fn lemma_burn_is_floor(tickets: int, amount: int, balance: int)
    requires
        0 <= tickets,
        0 <= amount <= balance,
        0 < balance,
    ensures
        tickets_burned(tickets, amount, balance) * balance <= tickets * amount,
        tickets * amount < (tickets_burned(tickets, amount, balance) + 1) * balance,
        0 <= tickets_burned(tickets, amount, balance) <= tickets,
{
    let product = tickets * amount;
    let burned = share_floor(tickets, amount, balance);
    vstd::arithmetic::div_mod::lemma_fundamental_div_mod(product, balance);
    vstd::arithmetic::div_mod::lemma_mod_pos_bound(product, balance);
    assert(burned * balance == balance * (product / balance)) by (nonlinear_arith)
        requires
            burned == product / balance,
    ;
    assert((burned + 1) * balance == burned * balance + balance) by (nonlinear_arith);
    assert(0 <= product <= tickets * balance) by (nonlinear_arith)
        requires
            product == tickets * amount,
            0 <= tickets,
            0 <= amount <= balance,
    ;
    assert(0 <= burned <= tickets) by (nonlinear_arith)
        requires
            burned * balance <= product,
            product < (burned + 1) * balance,
            0 <= product <= tickets * balance,
            0 < balance,
    ;
}

/// Withdrawing the whole balance gives up every ticket.
pub proof fn lemma_burn_all(tickets: int, balance: int)
    requires
        0 < balance,
    ensures
        tickets_burned(tickets, balance, balance) == tickets,
{
    vstd::arithmetic::div_mod::lemma_div_multiples_vanish(tickets, balance);
    assert(tickets * balance == balance * tickets) by (nonlinear_arith);
}

/// Withdrawing half of the balance gives up half of the tickets, rounded
/// down: exactly half of an even number of tickets, and one ticket less than
/// the larger half of an odd number.
pub proof fn lemma_burn_half(tickets: int, half: int)
    requires
        0 <= tickets,
        0 < half,
    ensures
        tickets_burned(tickets, half, 2 * half) == tickets / 2,
        tickets % 2 == 0 ==> 2 * tickets_burned(tickets, half, 2 * half) == tickets,
        tickets % 2 == 1 ==> 2 * tickets_burned(tickets, half, 2 * half) == tickets - 1,
{
    lemma_burn_is_floor(tickets, half, 2 * half);
    let burned = tickets_burned(tickets, half, 2 * half);
    assert(2 * burned <= tickets < 2 * burned + 2) by (nonlinear_arith)
        requires
            burned * (2 * half) <= tickets * half,
            tickets * half < (burned + 1) * (2 * half),
            0 < half,
    ;
}

/// What a withdrawal that passes its checks does: the books stay consistent,
/// and the depositor's balance and the total of deposits shrink by the
/// amount, its tickets and the total of tickets by the tickets given up.
pub proof fn lemma_withdraw_books(pool: PoolView, depositor: Seq<u8>, amount: int)
    requires
        pool.wf(),
        0 < amount <= pool.balance_of(depositor),
    ensures
        pool.withdraw(depositor, depositor, amount, true) == (
            pool.debited(depositor, amount),
            Ok::<(), PoolError>(()),
        ),
        pool.debited(depositor, amount).wf(),
        pool.debited(depositor, amount).total_deposits == pool.total_deposits - amount,
        pool.debited(depositor, amount).balance_of(depositor) == pool.balance_of(depositor)
            - amount,
        pool.debited(depositor, amount).tickets_of(depositor) == pool.tickets_of(depositor)
            - tickets_burned(pool.tickets_of(depositor), amount, pool.balance_of(depositor)),
        pool.debited(depositor, amount).total_tickets == pool.total_tickets - tickets_burned(
            pool.tickets_of(depositor),
            amount,
            pool.balance_of(depositor),
        ),
        forall|other: Seq<u8>|
            #![trigger pool.debited(depositor, amount).balance_of(other)]
            #![trigger pool.debited(depositor, amount).tickets_of(other)]
            other != depositor ==> {
                &&& pool.debited(depositor, amount).balance_of(other) == pool.balance_of(other)
                &&& pool.debited(depositor, amount).tickets_of(other) == pool.tickets_of(other)
            },
{
    lemma_holdings_bounded(pool.participants, depositor);
    let burned = tickets_burned(
        pool.tickets_of(depositor),
        amount,
        pool.balance_of(depositor),
    );
    lemma_burn_is_floor(pool.tickets_of(depositor), amount, pool.balance_of(depositor));
    lemma_debited(pool.participants, depositor, amount, burned);
}

/// Withdrawing the whole balance leaves the participant without a ticket.
pub proof fn lemma_full_withdrawal(pool: PoolView, depositor: Seq<u8>)
    requires
        pool.wf(),
        pool.balance_of(depositor) > 0,
    ensures
        pool.withdraw(depositor, depositor, pool.balance_of(depositor), true).1 is Ok,
        pool.withdraw(depositor, depositor, pool.balance_of(depositor), true).0.balance_of(
            depositor,
        ) == 0,
        pool.withdraw(depositor, depositor, pool.balance_of(depositor), true).0.tickets_of(
            depositor,
        ) == 0,
{
    lemma_withdraw_books(pool, depositor, pool.balance_of(depositor));
    lemma_burn_all(pool.tickets_of(depositor), pool.balance_of(depositor));
}

/// Withdrawing half of a balance leaves half of the tickets, rounded up:
/// exactly half of an even number of tickets.
pub proof fn lemma_half_withdrawal(pool: PoolView, depositor: Seq<u8>, half: int)
    requires
        pool.wf(),
        half > 0,
        pool.balance_of(depositor) == 2 * half,
    ensures
        pool.withdraw(depositor, depositor, half, true).1 is Ok,
        pool.withdraw(depositor, depositor, half, true).0.balance_of(depositor) == half,
        pool.withdraw(depositor, depositor, half, true).0.tickets_of(depositor)
            == pool.tickets_of(depositor) - pool.tickets_of(depositor) / 2,
{
    lemma_holdings_bounded(pool.participants, depositor);
    lemma_withdraw_books(pool, depositor, half);
    lemma_burn_half(pool.tickets_of(depositor), half);
}

proof fn lemma_line_of_one(ps: Seq<ParticipantView>, only: int, k: int)
    requires
        0 <= only < ps.len(),
        0 <= k <= ps.len(),
        forall|i: int| 0 <= i < ps.len() && i != only ==> (#[trigger] ps[i]).tickets <= 0,
    ensures
        line_start(ps, k) == if k <= only {
            0
        } else {
            stake(ps[only])
        },
    decreases k,
{
    lemma_line(ps, 0);
    if k > 0 {
        lemma_line_of_one(ps, only, k - 1);
        lemma_line(ps, k - 1);
        if k - 1 != only {
            assert(ps[k - 1].tickets <= 0);
        }
    }
}

/// Where a single participant holds tickets, it wins the draw whatever the
/// seed.
pub proof fn lemma_single_eligible_wins(ps: Seq<ParticipantView>, only: int, seed: int)
    requires
        0 <= only < ps.len(),
        ps[only].tickets > 0,
        forall|i: int| 0 <= i < ps.len() && i != only ==> (#[trigger] ps[i]).tickets <= 0,
    ensures
        drawn(ps, seed) == Ok::<int, PoolError>(only),
{
    assert(has_eligible(ps));
    lemma_line_empty(ps);
    lemma_line(ps, ps.len() as int);
    lemma_line_of_one(ps, only, ps.len() as int);
    lemma_line_of_one(ps, only, only);
    let index = seed % eligible_tickets(ps);
    assert(holds_ticket(ps, only, index));
    lemma_one_winner(ps, index);
}

/// A pool in which a single participant holds tickets pays every prize to
/// that participant, whatever the time, the ledger sequence and the nonce.
pub proof fn lemma_sole_ticket_holder_wins(
    pool: PoolView,
    only: int,
    caller: Seq<u8>,
    timestamp: int,
    sequence: int,
)
    requires
        0 <= only < pool.participants.len(),
        pool.participants[only].tickets > 0,
        forall|i: int|
            0 <= i < pool.participants.len() && i != only ==> (
            #[trigger] pool.participants[i]).tickets <= 0,
        pool.execute_draw(caller, timestamp, sequence, true).1 is Ok,
    ensures
        pool.execute_draw(caller, timestamp, sequence, true).1 == Ok::<Seq<u8>, PoolError>(
            pool.participants[only].id,
        ),
{
    lemma_single_eligible_wins(
        pool.participants,
        only,
        seed_of(timestamp, sequence, pool.draw_nonce),
    );
}

/// A draw by the administrator is refused with `NoPrize` while the prize
/// fund is empty, and with `NoTickets` while there is a prize and no ticket,
/// whoever is registered. The pool is left as it was.
pub proof fn lemma_draw_refused(pool: PoolView, timestamp: int, sequence: int, paid: bool)
    requires
        pool.initialized(),
    ensures
        pool.prize_fund == 0 ==> pool.execute_draw(pool.admin(), timestamp, sequence, paid) == (
            pool,
            Err::<Seq<u8>, PoolError>(PoolError::NoPrize),
        ),
        pool.prize_fund > 0 && pool.total_tickets == 0 ==> pool.execute_draw(
            pool.admin(),
            timestamp,
            sequence,
            paid,
        ) == (pool, Err::<Seq<u8>, PoolError>(PoolError::NoTickets)),
{
}

/// The seed never wraps around for a time, a sequence and a nonce that the
/// ledger can give, and it grows by one with the nonce.
pub proof fn lemma_seed_exact(timestamp: int, sequence: int, nonce: int)
    requires
        0 <= timestamp <= u64::MAX,
        0 <= sequence <= u32::MAX,
        0 <= nonce <= u64::MAX,
    ensures
        seed_of(timestamp, sequence, nonce) == (timestamp * 31 + sequence) * 31 + nonce,
        nonce < u64::MAX ==> seed_of(timestamp, sequence, nonce + 1) == seed_of(
            timestamp,
            sequence,
            nonce,
        ) + 1,
{
}

/// A draw that pays leaves the prize fund empty and the nonce one higher,
/// and touches nothing else. The next draw is seeded differently even at the
/// same time and ledger sequence, and is refused until the fund is topped
/// up again.
pub proof fn lemma_draw_pays_once(
    pool: PoolView,
    caller: Seq<u8>,
    timestamp: int,
    sequence: int,
    paid: bool,
)
    requires
        0 <= timestamp <= u64::MAX,
        0 <= sequence <= u32::MAX,
        0 <= pool.draw_nonce < u64::MAX,
        pool.execute_draw(caller, timestamp, sequence, paid).1 is Ok,
    ensures
        pool.execute_draw(caller, timestamp, sequence, paid).0 == (PoolView {
            prize_fund: 0,
            draw_nonce: pool.draw_nonce + 1,
            ..pool
        }),
        seed_of(
            timestamp,
            sequence,
            pool.execute_draw(caller, timestamp, sequence, paid).0.draw_nonce,
        ) != seed_of(timestamp, sequence, pool.draw_nonce),
        forall|again: bool|
            (#[trigger] pool.execute_draw(caller, timestamp, sequence, paid).0.execute_draw(
                caller,
                timestamp,
                sequence,
                again,
            )).1 == Err::<Seq<u8>, PoolError>(PoolError::NoPrize),
{
    lemma_seed_exact(timestamp, sequence, pool.draw_nonce);
}

/// A pool is set up once: on a pool that is set up, `initialize` fails with
/// `AlreadyInitialized` whatever it is given, and changes nothing.
pub proof fn lemma_initialize_once(
    pool: PoolView,
    caller: Seq<u8>,
    admin: Seq<u8>,
    token: Seq<u8>,
    period_days: int,
)
    requires
        pool.initialized(),
    ensures
        pool.initialize(caller, admin, token, period_days) == (
            pool,
            Err::<(), PoolError>(PoolError::AlreadyInitialized),
        ),
{
}

/// Setting a pool up twice: where the first call succeeds, the second fails
/// with `AlreadyInitialized` and leaves the pool as the first call set it up.
pub proof fn lemma_second_initialize_fails(
    pool: PoolView,
    caller: Seq<u8>,
    admin: Seq<u8>,
    token: Seq<u8>,
    period_days: int,
    second_caller: Seq<u8>,
    second_admin: Seq<u8>,
    second_token: Seq<u8>,
    second_period_days: int,
)
    requires
        pool.initialize(caller, admin, token, period_days).1 is Ok,
    ensures
        pool.initialize(caller, admin, token, period_days).0.initialize(
            second_caller,
            second_admin,
            second_token,
            second_period_days,
        ) == (
            pool.initialize(caller, admin, token, period_days).0,
            Err::<(), PoolError>(PoolError::AlreadyInitialized),
        ),
        pool.initialize(caller, admin, token, period_days).0 == PoolView::fresh(
            admin,
            token,
            period_days,
        ),
{
}

/// Every operation keeps the books consistent, whatever it is given and
/// however the transfer went.
pub proof fn lemma_books_stay_consistent(
    pool: PoolView,
    caller: Seq<u8>,
    who: Seq<u8>,
    token: Seq<u8>,
    amount: int,
    period_days: int,
    timestamp: int,
    sequence: int,
    moved: bool,
)
    requires
        pool.wf(),
    ensures
        pool.initialize(caller, who, token, period_days).0.wf(),
        pool.initialized() ==> pool.deposit(caller, who, amount, moved).0.wf(),
        pool.withdraw(caller, who, amount, moved).0.wf(),
        pool.initialized() ==> pool.add_prize(caller, amount, moved).0.wf(),
        pool.initialized() ==> pool.execute_draw(caller, timestamp, sequence, moved).0.wf(),
{
    if pool.initialized() && pool.deposit(caller, who, amount, moved).1 is Ok {
        lemma_deposit_books(pool, who, amount);
    }
    if pool.withdraw_transfer(caller, who, amount) is Ok {
        lemma_withdraw_books(pool, who, amount);
    }
}

/// While the books are consistent, a pool with a ticket has a participant
/// that holds one: a draw never fails for want of an eligible participant.
pub proof fn lemma_tickets_have_holders(pool: PoolView, timestamp: int, sequence: int)
    requires
        pool.wf(),
        pool.total_tickets > 0,
    ensures
        has_eligible(pool.participants),
        pool.winner(timestamp, sequence) is Ok,
        knows(pool.participants, pool.winner(timestamp, sequence)->Ok_0),
        pool.tickets_of(pool.winner(timestamp, sequence)->Ok_0) > 0,
{
    lemma_stake_is_tickets(pool.participants);
    lemma_line_empty(pool.participants);
    let seed = seed_of(timestamp, sequence, pool.draw_nonce);
    crate::draw::lemma_winner_eligible(pool.participants, seed);
    let slot = winner_slot(pool.participants, seed % eligible_tickets(pool.participants));
    crate::registry::lemma_slot(pool.participants, slot);
}

/// A refused operation changes nothing: whatever an operation is given and
/// however the transfer went, where it fails the pool is as it was.
pub proof fn lemma_refusals_change_nothing(
    pool: PoolView,
    caller: Seq<u8>,
    who: Seq<u8>,
    token: Seq<u8>,
    amount: int,
    period_days: int,
    timestamp: int,
    sequence: int,
    moved: bool,
)
    ensures
        pool.initialize(caller, who, token, period_days).1 is Err ==> pool.initialize(
            caller,
            who,
            token,
            period_days,
        ).0 == pool,
        pool.deposit(caller, who, amount, moved).1 is Err ==> pool.deposit(
            caller,
            who,
            amount,
            moved,
        ).0 == pool,
        pool.withdraw(caller, who, amount, moved).1 is Err ==> pool.withdraw(
            caller,
            who,
            amount,
            moved,
        ).0 == pool,
        pool.add_prize(caller, amount, moved).1 is Err ==> pool.add_prize(caller, amount, moved).0
            == pool,
        pool.execute_draw(caller, timestamp, sequence, moved).1 is Err ==> pool.execute_draw(
            caller,
            timestamp,
            sequence,
            moved,
        ).0 == pool,
        !moved ==> {
            &&& pool.deposit(caller, who, amount, moved).1 is Err
            &&& pool.withdraw(caller, who, amount, moved).1 is Err
            &&& pool.add_prize(caller, amount, moved).1 is Err
            &&& pool.execute_draw(caller, timestamp, sequence, moved).1 is Err
        },
{
}

/// The draw is fair: the participant at position `w` wins on exactly the
/// tickets of its own range of the line, which are as many as it holds. With
/// a seed spread evenly over the line, a participant wins with probability
/// `tickets / eligible_tickets`.
pub proof fn lemma_fair_share(ps: Seq<ParticipantView>, w: int, index: int)
    requires
        0 <= w < ps.len(),
        0 <= index < eligible_tickets(ps),
    ensures
        (winner_slot(ps, index) == w) == holds_ticket(ps, w, index),
        0 <= line_start(ps, w),
        line_start(ps, w) + stake(ps[w]) <= eligible_tickets(ps),
{
    lemma_one_winner(ps, index);
    lemma_line(ps, w);
    lemma_line(ps, w + 1);
}

/// Every participant holds `period_days` tickets for each unit of its
/// balance.
pub open spec fn tickets_follow_balance(pool: PoolView) -> bool {
    forall|i: int|
        0 <= i < pool.participants.len() ==> (#[trigger] pool.participants[i]).tickets
            == pool.participants[i].balance * pool.period_days()
}

/// Where the tickets are `period_days` times the balance, a withdrawal gives
/// up `period_days` tickets for each unit withdrawn: nothing is lost to
/// rounding.
pub proof fn lemma_burn_without_loss(balance: int, amount: int, period_days: int)
    requires
        0 < amount <= balance,
    ensures
        tickets_burned(balance * period_days, amount, balance) == amount * period_days,
{
    assert((balance * period_days) * amount == balance * (amount * period_days))
        by (nonlinear_arith);
    vstd::arithmetic::div_mod::lemma_div_multiples_vanish(amount * period_days, balance);
}

/// Tickets follow the balance in a pool as it is set up, and every operation
/// keeps it so. In a pool that came about by its operations alone no
/// withdrawal ever rounds, and a participant without a balance holds no
/// ticket.
pub proof fn lemma_tickets_follow_balance(
    pool: PoolView,
    caller: Seq<u8>,
    who: Seq<u8>,
    token: Seq<u8>,
    amount: int,
    period_days: int,
    timestamp: int,
    sequence: int,
    moved: bool,
)
    requires
        pool.wf(),
        tickets_follow_balance(pool),
    ensures
        tickets_follow_balance(PoolView::fresh(who, token, period_days)),
        tickets_follow_balance(pool.initialize(caller, who, token, period_days).0),
        tickets_follow_balance(pool.deposit(caller, who, amount, moved).0),
        tickets_follow_balance(pool.withdraw(caller, who, amount, moved).0),
        tickets_follow_balance(pool.add_prize(caller, amount, moved).0),
        tickets_follow_balance(pool.execute_draw(caller, timestamp, sequence, moved).0),
        pool.tickets_of(who) == pool.balance_of(who) * pool.period_days(),
{
    let ps = pool.participants;
    let days = pool.period_days();
    if knows(ps, who) {
        let slot = crate::registry::slot_of(ps, who);
        assert(ps[slot].tickets == ps[slot].balance * days);
    } else {
        assert(0 == 0 * days);
    }
    if pool.deposit(caller, who, amount, moved).1 is Ok {
        let after = pool.deposit(caller, who, amount, moved).0;
        assert forall|i: int| 0 <= i < after.participants.len() implies (
        #[trigger] after.participants[i]).tickets == after.participants[i].balance * days by {
            if i < ps.len() {
                assert(ps[i].tickets == ps[i].balance * days);
            }
            assert((pool.balance_of(who) + amount) * days == pool.balance_of(who) * days + amount
                * days) by (nonlinear_arith);
        }
    }
    if pool.withdraw(caller, who, amount, moved).1 is Ok {
        let after = pool.withdraw(caller, who, amount, moved).0;
        lemma_burn_without_loss(pool.balance_of(who), amount, days);
        assert forall|i: int| 0 <= i < after.participants.len() implies (
        #[trigger] after.participants[i]).tickets == after.participants[i].balance * days by {
            assert(ps[i].tickets == ps[i].balance * days);
            assert((pool.balance_of(who) - amount) * days == pool.balance_of(who) * days - amount
                * days) by (nonlinear_arith);
        }
    }
}

/// `after` keeps what was settled in `before`: the configuration, the
/// registered participants in their order, and a nonce that is no lower.
pub open spec fn settled(before: PoolView, after: PoolView) -> bool {
    &&& after.config == before.config
    &&& after.draw_nonce >= before.draw_nonce
    &&& depositors(before.participants).is_prefix_of(depositors(after.participants))
}

/// What is settled stays settled: no operation changes the configuration of
/// a pool that is set up, lowers the nonce, or removes or reorders a
/// registered participant. The registry only ever grows at its end.
pub proof fn lemma_settled_for_good(
    pool: PoolView,
    caller: Seq<u8>,
    who: Seq<u8>,
    token: Seq<u8>,
    amount: int,
    period_days: int,
    timestamp: int,
    sequence: int,
    moved: bool,
)
    requires
        pool.wf(),
        pool.initialized(),
    ensures
        settled(pool, pool.initialize(caller, who, token, period_days).0),
        settled(pool, pool.deposit(caller, who, amount, moved).0),
        settled(pool, pool.withdraw(caller, who, amount, moved).0),
        settled(pool, pool.add_prize(caller, amount, moved).0),
        settled(pool, pool.execute_draw(caller, timestamp, sequence, moved).0),
{
    assert(depositors(pool.participants).is_prefix_of(depositors(pool.participants)));
    if pool.deposit(caller, who, amount, moved).1 is Ok {
        lemma_credited(
            pool.participants,
            who,
            amount,
            tickets_earned(amount, pool.period_days()),
        );
        let after = pool.deposit(caller, who, amount, moved).0;
        assert(depositors(pool.participants).is_prefix_of(depositors(after.participants)));
    }
    if pool.withdraw(caller, who, amount, moved).1 is Ok {
        lemma_debited(
            pool.participants,
            who,
            amount,
            tickets_burned(pool.tickets_of(who), amount, pool.balance_of(who)),
        );
    }
}

} // verus!

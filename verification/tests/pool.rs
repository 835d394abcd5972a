use lucky_stake::error::PoolError;
use lucky_stake::identity::Address;
use lucky_stake::ledger::Party;
use lucky_stake::ledger::Transfer;
use lucky_stake::ledger::TransferError;
use lucky_stake::pool::LuckyStakePool;
use lucky_stake::pool::PoolConfig;
use lucky_stake::registry::Participant;

/// A ledger kept in memory: it carries out the transfers that the pool names.
struct Ledger {
    accounts: Vec<(Party, i128)>,
    broken: bool,
}

impl Ledger {
    fn new() -> Ledger {
        Ledger { accounts: Vec::new(), broken: false }
    }

    fn balance(&self, party: &Party) -> i128 {
        for (who, amount) in self.accounts.iter() {
            if who == party {
                return *amount;
            }
        }
        0
    }

    fn set(&mut self, party: &Party, amount: i128) {
        for entry in self.accounts.iter_mut() {
            if &entry.0 == party {
                entry.1 = amount;
                return;
            }
        }
        self.accounts.push((party.clone(), amount));
    }

    fn mint(&mut self, who: &Address, amount: i128) {
        let party = Party::Account(who.clone());
        let held = self.balance(&party);
        self.set(&party, held + amount);
    }

    fn held_by(&self, who: &Address) -> i128 {
        self.balance(&Party::Account(who.clone()))
    }

    fn transfer(&mut self, transfer: &Transfer) -> Result<(), TransferError> {
        if self.broken || transfer.amount < 0 || self.balance(&transfer.from) < transfer.amount {
            return Err(TransferError);
        }
        let from = self.balance(&transfer.from) - transfer.amount;
        self.set(&transfer.from, from);
        let to = self.balance(&transfer.to) + transfer.amount;
        self.set(&transfer.to, to);
        Ok(())
    }
}

fn address(name: &str) -> Address {
    Address::new(name.as_bytes().to_vec())
}

fn setup(period_days: u32) -> (LuckyStakePool, Ledger, Address, Address) {
    let admin = address("admin");
    let user1 = address("user1");
    let token = address("token");
    let mut pool = LuckyStakePool::new();
    pool.initialize(&admin, admin.clone(), token, period_days)
        .expect("period_days must be 7, 15, or 30");
    (pool, Ledger::new(), admin, user1)
}

fn deposit(
    pool: &mut LuckyStakePool,
    ledger: &mut Ledger,
    depositor: &Address,
    amount: i128,
) -> Result<(), PoolError> {
    let transfer = pool.deposit_transfer(depositor, depositor, amount)?;
    assert!(pool.is_initialized() && pool.has_room_for(amount));
    let moved = ledger.transfer(&transfer);
    pool.deposit(depositor, depositor.clone(), amount, moved)
}

fn withdraw(
    pool: &mut LuckyStakePool,
    ledger: &mut Ledger,
    depositor: &Address,
    amount: i128,
) -> Result<(), PoolError> {
    let transfer = pool.withdraw_transfer(depositor, depositor, amount)?;
    let moved = ledger.transfer(&transfer);
    pool.withdraw(depositor, depositor.clone(), amount, moved)
}

fn add_prize(pool: &mut LuckyStakePool, ledger: &mut Ledger, amount: i128) -> Result<(), PoolError> {
    let admin = pool.get_admin().clone();
    let transfer = pool.add_prize_transfer(&admin, amount)?;
    assert!(pool.can_fund(amount));
    let moved = ledger.transfer(&transfer);
    pool.add_prize(&admin, amount, moved)
}

fn execute_draw(
    pool: &mut LuckyStakePool,
    ledger: &mut Ledger,
    timestamp: u64,
    sequence: u32,
) -> Result<Address, PoolError> {
    let admin = pool.get_admin().clone();
    let transfer = pool.draw_transfer(&admin, timestamp, sequence)?;
    assert!(pool.can_draw());
    let paid = ledger.transfer(&transfer);
    pool.execute_draw(&admin, timestamp, sequence, paid)
}

fn participant(name: &str, balance: i128, tickets: i128) -> Participant {
    Participant { id: address(name), balance, tickets }
}

fn config(period_days: u32) -> Option<PoolConfig> {
    Some(PoolConfig { admin: address("admin"), token: address("token"), period_days })
}

#[test]
fn test_initialize_weekly() {
    let (pool, _ledger, _admin, _user) = setup(7);

    assert_eq!(pool.get_period_days(), 7);
    assert_eq!(pool.get_total_deposits(), 0);
    assert_eq!(pool.get_total_tickets(), 0);
    assert_eq!(pool.get_prize_fund(), 0);
}

#[test]
fn test_initialize_biweekly() {
    let (pool, _ledger, _admin, _user) = setup(15);

    assert_eq!(pool.get_period_days(), 15);
}

#[test]
fn test_initialize_monthly() {
    let (pool, _ledger, _admin, _user) = setup(30);

    assert_eq!(pool.get_period_days(), 30);
}

#[test]
#[should_panic(expected = "period_days must be 7, 15, or 30")]
fn test_initialize_invalid_period() {
    let _ = setup(5);
}

#[test]
fn test_deposit_and_tickets_weekly() {
    let (mut pool, mut ledger, _admin, user) = setup(7);

    ledger.mint(&user, 1_000_000);

    deposit(&mut pool, &mut ledger, &user, 1_000).unwrap();

    assert_eq!(pool.get_balance(&user), 1_000);
    assert_eq!(pool.get_tickets(&user), 7_000);
    assert_eq!(pool.get_total_deposits(), 1_000);
    assert_eq!(pool.get_total_tickets(), 7_000);
}

#[test]
fn test_deposit_and_withdraw() {
    let (mut pool, mut ledger, _admin, user) = setup(7);

    ledger.mint(&user, 1_000_000);

    deposit(&mut pool, &mut ledger, &user, 1_000).unwrap();
    assert_eq!(pool.get_balance(&user), 1_000);

    withdraw(&mut pool, &mut ledger, &user, 500).unwrap();
    assert_eq!(pool.get_balance(&user), 500);
    assert_eq!(pool.get_total_deposits(), 500);
}

#[test]
fn test_add_prize_and_draw() {
    let (mut pool, mut ledger, _admin, user) = setup(7);

    let admin = pool.get_admin().clone();
    ledger.mint(&admin, 10_000);
    ledger.mint(&user, 1_000);

    deposit(&mut pool, &mut ledger, &user, 500).unwrap();
    add_prize(&mut pool, &mut ledger, 100).unwrap();

    assert_eq!(pool.get_prize_fund(), 100);

    let winner = execute_draw(&mut pool, &mut ledger, 0, 0).unwrap();
    assert_eq!(winner, user);
    assert_eq!(pool.get_prize_fund(), 0);
}

#[test]
fn initialize_reports_an_invalid_period() {
    let admin = address("admin");
    for period_days in [0u32, 1, 5, 8, 14, 16, 29, 31, 365] {
        let mut pool = LuckyStakePool::new();
        let outcome = pool.initialize(&admin, admin.clone(), address("token"), period_days);
        assert_eq!(outcome, Err(PoolError::InvalidPeriod));
        assert!(!pool.is_initialized());
        assert_eq!(pool.get_period_days(), 0);
    }
}

#[test]
fn initialize_needs_the_admin_as_caller() {
    let mut pool = LuckyStakePool::new();
    let outcome = pool.initialize(&address("mallory"), address("admin"), address("token"), 7);
    assert_eq!(outcome, Err(PoolError::Unauthorized));
    assert!(!pool.is_initialized());
}

#[test]
fn initialize_twice_fails_and_changes_nothing() {
    let (mut pool, mut ledger, admin, user) = setup(7);
    ledger.mint(&user, 50);
    deposit(&mut pool, &mut ledger, &user, 50).unwrap();

    let again = pool.initialize(&admin, admin.clone(), address("other token"), 30);
    assert_eq!(again, Err(PoolError::AlreadyInitialized));
    let other = address("other");
    let again = pool.initialize(&other, other.clone(), address("token"), 5);
    assert_eq!(again, Err(PoolError::AlreadyInitialized));

    assert_eq!(pool.get_period_days(), 7);
    assert_eq!(pool.get_admin(), &admin);
    assert_eq!(pool.get_token(), &address("token"));
    assert_eq!(pool.get_balance(&user), 50);
    assert_eq!(pool.get_tickets(&user), 350);
    assert_eq!(pool.get_total_deposits(), 50);
    assert_eq!(pool.get_total_tickets(), 350);
}

#[test]
fn a_blank_pool_reads_as_zero() {
    let pool = LuckyStakePool::new();
    assert!(!pool.is_initialized());
    assert_eq!(pool.get_period_days(), 0);
    assert_eq!(pool.get_total_deposits(), 0);
    assert_eq!(pool.get_total_tickets(), 0);
    assert_eq!(pool.get_prize_fund(), 0);
    assert_eq!(pool.get_draw_nonce(), 0);
    assert_eq!(pool.get_balance(&address("anyone")), 0);
    assert_eq!(pool.get_tickets(&address("anyone")), 0);
    assert!(pool.participants().is_empty());
}

#[test]
fn deposits_by_distinct_participants_add_up() {
    let (mut pool, mut ledger, _admin, _user) = setup(15);
    let amounts: [(&str, i128); 4] = [("ann", 10), ("bob", 250), ("cyd", 1), ("dee", 9_999)];
    for (name, amount) in amounts {
        ledger.mint(&address(name), amount);
        deposit(&mut pool, &mut ledger, &address(name), amount).unwrap();
    }
    assert_eq!(pool.get_total_deposits(), 10 + 250 + 1 + 9_999);
    assert_eq!(pool.get_total_tickets(), (10 + 250 + 1 + 9_999) * 15);
    for (name, amount) in amounts {
        assert_eq!(pool.get_balance(&address(name)), amount);
        assert_eq!(pool.get_tickets(&address(name)), amount * 15);
        assert_eq!(ledger.held_by(&address(name)), 0);
    }
    assert_eq!(ledger.balance(&Party::Custody), 10_260);
    let order: Vec<Address> = pool.participants().iter().map(|p| p.id.clone()).collect();
    assert_eq!(order, vec![address("ann"), address("bob"), address("cyd"), address("dee")]);
}

#[test]
fn a_second_deposit_grows_the_same_entry() {
    let (mut pool, mut ledger, _admin, user) = setup(30);
    ledger.mint(&user, 100);
    ledger.mint(&address("bob"), 100);
    deposit(&mut pool, &mut ledger, &user, 40).unwrap();
    deposit(&mut pool, &mut ledger, &address("bob"), 5).unwrap();
    deposit(&mut pool, &mut ledger, &user, 60).unwrap();
    assert_eq!(pool.participants().len(), 2);
    assert_eq!(pool.participants()[0], participant("user1", 100, 3_000));
    assert_eq!(pool.participants()[1], participant("bob", 5, 150));
    assert_eq!(pool.get_total_deposits(), 105);
    assert_eq!(pool.get_total_tickets(), 3_150);
}

#[test]
fn deposit_refuses_what_is_not_positive() {
    let (mut pool, mut ledger, _admin, user) = setup(7);
    ledger.mint(&user, 10);
    assert_eq!(deposit(&mut pool, &mut ledger, &user, 0), Err(PoolError::InvalidAmount));
    assert_eq!(deposit(&mut pool, &mut ledger, &user, -5), Err(PoolError::InvalidAmount));
    assert_eq!(pool.deposit(&user, user.clone(), 0, Ok(())), Err(PoolError::InvalidAmount));
    assert_eq!(pool.deposit(&user, user.clone(), -5, Ok(())), Err(PoolError::InvalidAmount));
    assert_eq!(pool.get_total_deposits(), 0);
    assert!(pool.participants().is_empty());
}

#[test]
fn deposit_needs_the_depositor_as_caller() {
    let (mut pool, _ledger, admin, user) = setup(7);
    assert_eq!(pool.deposit_transfer(&admin, &user, 10), Err(PoolError::Unauthorized));
    assert_eq!(pool.deposit(&admin, user.clone(), 10, Ok(())), Err(PoolError::Unauthorized));
    // The caller is looked at before the amount.
    assert_eq!(pool.deposit(&admin, user.clone(), 0, Ok(())), Err(PoolError::Unauthorized));
    assert_eq!(pool.get_total_deposits(), 0);
}

#[test]
fn deposit_names_the_transfer_into_custody() {
    let (pool, _ledger, _admin, user) = setup(7);
    let transfer = pool.deposit_transfer(&user, &user, 77).unwrap();
    assert_eq!(
        transfer,
        Transfer { from: Party::Account(user.clone()), to: Party::Custody, amount: 77 }
    );
}

#[test]
fn a_failed_transfer_leaves_a_deposit_unbooked() {
    let (mut pool, mut ledger, _admin, user) = setup(7);
    // Nothing was minted: the ledger cannot move the funds.
    assert_eq!(deposit(&mut pool, &mut ledger, &user, 10), Err(PoolError::TransferFailed));
    assert_eq!(pool.get_balance(&user), 0);
    assert_eq!(pool.get_tickets(&user), 0);
    assert_eq!(pool.get_total_deposits(), 0);
    assert_eq!(pool.get_total_tickets(), 0);
    assert!(pool.participants().is_empty());
}

#[test]
fn room_for_a_deposit_ends_at_the_width_of_the_counters() {
    let (mut pool, _ledger, _admin, user) = setup(30);
    assert!(pool.has_room_for(1));
    assert!(pool.has_room_for(i128::MAX / 30));
    assert!(!pool.has_room_for(i128::MAX / 30 + 1));
    assert!(!pool.has_room_for(i128::MAX));
    assert!(pool.has_room_for(0));
    assert!(pool.has_room_for(-1));
    pool.deposit(&user, user.clone(), i128::MAX / 30, Ok(())).unwrap();
    assert_eq!(pool.get_total_tickets(), (i128::MAX / 30) * 30);
    assert!(pool.has_room_for(0));
    assert!(!pool.has_room_for(1));
}

#[test]
fn withdrawing_the_whole_balance_clears_the_tickets() {
    let (mut pool, mut ledger, _admin, user) = setup(7);
    ledger.mint(&user, 1_000);
    deposit(&mut pool, &mut ledger, &user, 1_000).unwrap();
    withdraw(&mut pool, &mut ledger, &user, 1_000).unwrap();
    assert_eq!(pool.get_balance(&user), 0);
    assert_eq!(pool.get_tickets(&user), 0);
    assert_eq!(pool.get_total_deposits(), 0);
    assert_eq!(pool.get_total_tickets(), 0);
    assert_eq!(ledger.held_by(&user), 1_000);
    // The participant stays registered.
    assert_eq!(pool.participants().len(), 1);
    assert_eq!(pool.participants()[0], participant("user1", 0, 0));
}

#[test]
fn withdrawing_half_halves_an_even_number_of_tickets() {
    let (mut pool, mut ledger, _admin, user) = setup(7);
    ledger.mint(&user, 1_000);
    deposit(&mut pool, &mut ledger, &user, 1_000).unwrap();
    withdraw(&mut pool, &mut ledger, &user, 500).unwrap();
    assert_eq!(pool.get_tickets(&user), 3_500);
    assert_eq!(pool.get_total_tickets(), 3_500);
}

#[test]
fn withdrawing_from_three_with_seven_tickets_burns_two() {
    let mut pool = LuckyStakePool::restore(
        config(7),
        vec![participant("odd", 3, 7), participant("bob", 10, 70)],
        13,
        77,
        0,
        0,
    )
    .unwrap();
    let odd = address("odd");
    assert_eq!(pool.withdraw(&odd, odd.clone(), 1, Ok(())), Ok(()));
    assert_eq!(pool.get_balance(&odd), 2);
    assert_eq!(pool.get_tickets(&odd), 5);
    assert_eq!(pool.get_total_deposits(), 12);
    assert_eq!(pool.get_total_tickets(), 75);
    assert_eq!(pool.get_tickets(&address("bob")), 70);
}

#[test]
fn withdrawing_half_of_an_odd_number_of_tickets_rounds_the_burn_down() {
    let mut pool =
        LuckyStakePool::restore(config(7), vec![participant("odd", 4, 7)], 4, 7, 0, 0).unwrap();
    let odd = address("odd");
    assert_eq!(pool.withdraw(&odd, odd.clone(), 2, Ok(())), Ok(()));
    assert_eq!(pool.get_tickets(&odd), 4);
    // What is left at a zero balance is burnt with the last unit.
    assert_eq!(pool.withdraw(&odd, odd.clone(), 2, Ok(())), Ok(()));
    assert_eq!(pool.get_balance(&odd), 0);
    assert_eq!(pool.get_tickets(&odd), 0);
}

#[test]
fn withdraw_refuses_more_than_the_balance() {
    let (mut pool, mut ledger, _admin, user) = setup(7);
    ledger.mint(&user, 100);
    deposit(&mut pool, &mut ledger, &user, 100).unwrap();
    assert_eq!(withdraw(&mut pool, &mut ledger, &user, 101), Err(PoolError::InsufficientBalance));
    assert_eq!(
        pool.withdraw(&user, user.clone(), 101, Ok(())),
        Err(PoolError::InsufficientBalance)
    );
    let stranger = address("stranger");
    assert_eq!(
        pool.withdraw(&stranger, stranger.clone(), 1, Ok(())),
        Err(PoolError::InsufficientBalance)
    );
    assert_eq!(pool.get_balance(&user), 100);
    assert_eq!(pool.get_tickets(&user), 700);
    assert_eq!(pool.participants().len(), 1);
}

#[test]
fn withdraw_refuses_what_is_not_positive() {
    let (mut pool, mut ledger, _admin, user) = setup(7);
    ledger.mint(&user, 100);
    deposit(&mut pool, &mut ledger, &user, 100).unwrap();
    assert_eq!(pool.withdraw(&user, user.clone(), 0, Ok(())), Err(PoolError::InvalidAmount));
    assert_eq!(pool.withdraw(&user, user.clone(), -1, Ok(())), Err(PoolError::InvalidAmount));
    assert_eq!(pool.withdraw_transfer(&user, &user, 0), Err(PoolError::InvalidAmount));
    assert_eq!(pool.get_balance(&user), 100);
}

#[test]
fn withdraw_needs_the_depositor_as_caller() {
    let (mut pool, mut ledger, admin, user) = setup(7);
    ledger.mint(&user, 100);
    deposit(&mut pool, &mut ledger, &user, 100).unwrap();
    assert_eq!(pool.withdraw_transfer(&admin, &user, 10), Err(PoolError::Unauthorized));
    assert_eq!(pool.withdraw(&admin, user.clone(), 10, Ok(())), Err(PoolError::Unauthorized));
    assert_eq!(pool.get_balance(&user), 100);
}

#[test]
fn withdraw_names_the_transfer_out_of_custody() {
    let (mut pool, mut ledger, _admin, user) = setup(7);
    ledger.mint(&user, 100);
    deposit(&mut pool, &mut ledger, &user, 100).unwrap();
    let transfer = pool.withdraw_transfer(&user, &user, 30).unwrap();
    assert_eq!(
        transfer,
        Transfer { from: Party::Custody, to: Party::Account(user.clone()), amount: 30 }
    );
}

#[test]
fn a_failed_payout_leaves_a_withdrawal_unbooked() {
    let (mut pool, mut ledger, _admin, user) = setup(7);
    ledger.mint(&user, 100);
    deposit(&mut pool, &mut ledger, &user, 100).unwrap();
    ledger.broken = true;
    assert_eq!(withdraw(&mut pool, &mut ledger, &user, 40), Err(PoolError::TransferFailed));
    assert_eq!(pool.get_balance(&user), 100);
    assert_eq!(pool.get_tickets(&user), 700);
    assert_eq!(pool.get_total_deposits(), 100);
    assert_eq!(pool.get_total_tickets(), 700);
    assert_eq!(ledger.balance(&Party::Custody), 100);
    assert_eq!(ledger.held_by(&user), 0);
}

#[test]
fn add_prize_grows_the_fund() {
    let (mut pool, mut ledger, admin, _user) = setup(7);
    ledger.mint(&admin, 1_000);
    add_prize(&mut pool, &mut ledger, 100).unwrap();
    add_prize(&mut pool, &mut ledger, 250).unwrap();
    assert_eq!(pool.get_prize_fund(), 350);
    assert_eq!(pool.get_total_deposits(), 0);
    assert_eq!(ledger.held_by(&admin), 650);
    assert_eq!(ledger.balance(&Party::Custody), 350);
    assert_eq!(
        pool.add_prize_transfer(&admin, 5),
        Ok(Transfer { from: Party::Account(admin.clone()), to: Party::Custody, amount: 5 })
    );
}

#[test]
fn add_prize_refusals_leave_the_fund_alone() {
    let (mut pool, mut ledger, admin, user) = setup(7);
    ledger.mint(&admin, 10);
    add_prize(&mut pool, &mut ledger, 10).unwrap();
    assert_eq!(pool.add_prize(&admin, 0, Ok(())), Err(PoolError::InvalidAmount));
    assert_eq!(pool.add_prize(&admin, -3, Ok(())), Err(PoolError::InvalidAmount));
    assert_eq!(pool.add_prize(&user, 5, Ok(())), Err(PoolError::Unauthorized));
    assert_eq!(pool.add_prize_transfer(&user, 5), Err(PoolError::Unauthorized));
    assert_eq!(pool.add_prize(&admin, 5, Err(TransferError)), Err(PoolError::TransferFailed));
    assert_eq!(add_prize(&mut pool, &mut ledger, 5), Err(PoolError::TransferFailed));
    assert_eq!(pool.get_prize_fund(), 10);
    assert!(pool.can_fund(i128::MAX - 10));
    assert!(!pool.can_fund(i128::MAX - 9));
}

#[test]
fn a_single_ticket_holder_wins_every_draw() {
    for (timestamp, sequence) in
        [(0u64, 0u32), (1, 0), (0, 1), (1_700_000_000, 51_234_567), (u64::MAX, u32::MAX)]
    {
        let (mut pool, mut ledger, admin, user) = setup(15);
        ledger.mint(&admin, 1_000);
        ledger.mint(&user, 1_000);
        ledger.mint(&address("gone"), 1_000);
        // A participant that withdrew everything stays registered without tickets.
        deposit(&mut pool, &mut ledger, &address("gone"), 3).unwrap();
        withdraw(&mut pool, &mut ledger, &address("gone"), 3).unwrap();
        deposit(&mut pool, &mut ledger, &user, 7).unwrap();
        for round in 0..4 {
            add_prize(&mut pool, &mut ledger, 10).unwrap();
            let winner = execute_draw(&mut pool, &mut ledger, timestamp, sequence).unwrap();
            assert_eq!(winner, user);
            assert_eq!(pool.get_draw_nonce(), round + 1);
        }
        assert_eq!(ledger.held_by(&user), 1_000 - 7 + 40);
    }
}

#[test]
fn a_draw_needs_a_prize() {
    let (mut pool, mut ledger, admin, user) = setup(7);
    ledger.mint(&user, 100);
    deposit(&mut pool, &mut ledger, &user, 100).unwrap();
    assert_eq!(execute_draw(&mut pool, &mut ledger, 5, 6), Err(PoolError::NoPrize));
    assert_eq!(pool.execute_draw(&admin, 5, 6, Ok(())), Err(PoolError::NoPrize));
    assert_eq!(pool.get_draw_nonce(), 0);
    // Without a prize and without tickets, the prize is missed first.
    let (mut empty, _ledger, admin, _user) = setup(7);
    assert_eq!(empty.execute_draw(&admin, 5, 6, Ok(())), Err(PoolError::NoPrize));
}

#[test]
fn a_draw_needs_tickets() {
    let (mut pool, mut ledger, admin, user) = setup(7);
    ledger.mint(&admin, 100);
    ledger.mint(&user, 100);
    add_prize(&mut pool, &mut ledger, 100).unwrap();
    assert_eq!(execute_draw(&mut pool, &mut ledger, 5, 6), Err(PoolError::NoTickets));
    // A participant without tickets does not change that.
    deposit(&mut pool, &mut ledger, &user, 100).unwrap();
    withdraw(&mut pool, &mut ledger, &user, 100).unwrap();
    assert_eq!(pool.participants().len(), 1);
    assert_eq!(execute_draw(&mut pool, &mut ledger, 5, 6), Err(PoolError::NoTickets));
    assert_eq!(pool.execute_draw(&admin, 5, 6, Ok(())), Err(PoolError::NoTickets));
    assert_eq!(pool.get_prize_fund(), 100);
    assert_eq!(pool.get_draw_nonce(), 0);
}

#[test]
fn a_draw_needs_the_admin_as_caller() {
    let (mut pool, mut ledger, admin, user) = setup(7);
    ledger.mint(&admin, 100);
    ledger.mint(&user, 100);
    add_prize(&mut pool, &mut ledger, 100).unwrap();
    deposit(&mut pool, &mut ledger, &user, 100).unwrap();
    assert_eq!(pool.draw_transfer(&user, 0, 0), Err(PoolError::Unauthorized));
    assert_eq!(pool.execute_draw(&user, 0, 0, Ok(())), Err(PoolError::Unauthorized));
    assert_eq!(pool.get_prize_fund(), 100);
}

#[test]
fn a_draw_pays_the_whole_fund_and_advances_the_nonce() {
    let (mut pool, mut ledger, admin, user) = setup(7);
    ledger.mint(&admin, 100);
    ledger.mint(&user, 100);
    add_prize(&mut pool, &mut ledger, 100).unwrap();
    deposit(&mut pool, &mut ledger, &user, 100).unwrap();
    assert_eq!(
        pool.draw_transfer(&admin, 9, 9),
        Ok(Transfer { from: Party::Custody, to: Party::Account(user.clone()), amount: 100 })
    );
    assert_eq!(execute_draw(&mut pool, &mut ledger, 9, 9), Ok(user.clone()));
    assert_eq!(pool.get_prize_fund(), 0);
    assert_eq!(pool.get_draw_nonce(), 1);
    assert_eq!(pool.get_balance(&user), 100);
    assert_eq!(pool.get_tickets(&user), 700);
    assert_eq!(pool.get_total_deposits(), 100);
    assert_eq!(ledger.held_by(&user), 100);
    assert_eq!(ledger.balance(&Party::Custody), 100);
    // The fund is paid once.
    assert_eq!(execute_draw(&mut pool, &mut ledger, 9, 9), Err(PoolError::NoPrize));
    assert_eq!(pool.get_draw_nonce(), 1);
}

#[test]
fn a_failed_payment_leaves_the_draw_undone() {
    let (mut pool, mut ledger, admin, user) = setup(7);
    ledger.mint(&admin, 100);
    ledger.mint(&user, 100);
    add_prize(&mut pool, &mut ledger, 100).unwrap();
    deposit(&mut pool, &mut ledger, &user, 100).unwrap();
    ledger.broken = true;
    assert_eq!(execute_draw(&mut pool, &mut ledger, 9, 9), Err(PoolError::TransferFailed));
    assert_eq!(pool.get_prize_fund(), 100);
    assert_eq!(pool.get_draw_nonce(), 0);
}

#[test]
fn the_nonce_moves_the_winning_ticket() {
    // Two participants with one ticket each: the seed's parity picks the winner,
    // and the nonce flips it from one draw to the next.
    let mut pool = LuckyStakePool::restore(
        config(7),
        vec![participant("even", 1, 1), participant("odd", 1, 1)],
        2,
        2,
        1_000,
        0,
    )
    .unwrap();
    let admin = address("admin");
    // seed = (4 * 31 + 2) * 31 + nonce = 3906 + nonce
    assert_eq!(pool.execute_draw(&admin, 4, 2, Ok(())), Ok(address("even")));
    assert_eq!(pool.add_prize(&admin, 1, Ok(())), Ok(()));
    assert_eq!(pool.execute_draw(&admin, 4, 2, Ok(())), Ok(address("odd")));
    assert_eq!(pool.add_prize(&admin, 1, Ok(())), Ok(()));
    assert_eq!(pool.execute_draw(&admin, 4, 2, Ok(())), Ok(address("even")));
    assert_eq!(pool.get_draw_nonce(), 3);
}

#[test]
fn the_winner_is_picked_by_ticket_weight() {
    // Tickets: a 70, b 0, c 140, d 35. The line is 245 tickets long.
    let build = |nonce: u64| {
        LuckyStakePool::restore(
            config(7),
            vec![
                participant("a", 10, 70),
                participant("b", 0, 0),
                participant("c", 20, 140),
                participant("d", 5, 35),
            ],
            35,
            245,
            9,
            nonce,
        )
        .unwrap()
    };
    let admin = address("admin");
    // With timestamp and sequence zero the seed is the nonce.
    for (nonce, winner) in [
        (0u64, "a"),
        (69, "a"),
        (70, "c"),
        (209, "c"),
        (210, "d"),
        (244, "d"),
        (245, "a"),
        (245 + 70, "c"),
    ] {
        let mut pool = build(nonce);
        assert_eq!(pool.execute_draw(&admin, 0, 0, Ok(())), Ok(address(winner)));
    }
}

#[test]
fn the_nonce_stops_at_its_width() {
    let pool = LuckyStakePool::restore(config(7), vec![participant("a", 1, 7)], 1, 7, 5, u64::MAX)
        .unwrap();
    assert!(!pool.can_draw());
    let pool =
        LuckyStakePool::restore(config(7), vec![participant("a", 1, 7)], 1, 7, 5, u64::MAX - 1)
            .unwrap();
    assert!(pool.can_draw());
}

#[test]
fn restore_takes_consistent_parts() {
    let pool = LuckyStakePool::restore(
        config(15),
        vec![participant("a", 10, 150), participant("b", 1, 15)],
        11,
        165,
        3,
        8,
    )
    .unwrap();
    assert!(pool.is_initialized());
    assert_eq!(pool.get_period_days(), 15);
    assert_eq!(pool.get_admin(), &address("admin"));
    assert_eq!(pool.get_token(), &address("token"));
    assert_eq!(pool.get_total_deposits(), 11);
    assert_eq!(pool.get_total_tickets(), 165);
    assert_eq!(pool.get_prize_fund(), 3);
    assert_eq!(pool.get_draw_nonce(), 8);
    assert_eq!(pool.get_balance(&address("b")), 1);
    assert_eq!(pool.get_tickets(&address("b")), 15);
    assert_eq!(pool.participants().len(), 2);
    assert!(LuckyStakePool::restore(None, vec![], 0, 0, 0, 0).is_some());
}

#[test]
fn restore_refuses_inconsistent_parts() {
    let entries = || vec![participant("a", 10, 150), participant("b", 1, 15)];
    // A total that is not the sum.
    assert!(LuckyStakePool::restore(config(15), entries(), 12, 165, 3, 8).is_none());
    assert!(LuckyStakePool::restore(config(15), entries(), 11, 164, 3, 8).is_none());
    // A period that is not on offer.
    assert!(LuckyStakePool::restore(config(10), entries(), 11, 165, 3, 8).is_none());
    // A negative prize fund.
    assert!(LuckyStakePool::restore(config(15), entries(), 11, 165, -1, 8).is_none());
    // An identity registered twice.
    let twice = vec![participant("a", 10, 150), participant("a", 1, 15)];
    assert!(LuckyStakePool::restore(config(15), twice, 11, 165, 3, 8).is_none());
    // A negative holding.
    let negative = vec![participant("a", 12, 150), participant("b", -1, 15)];
    assert!(LuckyStakePool::restore(config(15), negative, 11, 165, 3, 8).is_none());
    // Sums that leave 128 bits.
    let huge = vec![participant("a", i128::MAX, 0), participant("b", 1, 0)];
    assert!(LuckyStakePool::restore(config(15), huge, i128::MAX, 0, 0, 0).is_none());
    // Anything but blank before the pool is set up.
    assert!(LuckyStakePool::restore(None, vec![], 0, 0, 1, 0).is_none());
    assert!(LuckyStakePool::restore(None, vec![], 0, 0, 0, 1).is_none());
    assert!(LuckyStakePool::restore(None, vec![participant("a", 0, 0)], 0, 0, 0, 0).is_none());
}

#[test]
fn tickets_always_follow_the_balance() {
    let (mut pool, mut ledger, _admin, user) = setup(30);
    ledger.mint(&user, 1_000);
    let steps: [i128; 8] = [7, 1, -3, 100, -52, -1, 13, -65];
    let mut balance: i128 = 0;
    for step in steps {
        if step > 0 {
            deposit(&mut pool, &mut ledger, &user, step).unwrap();
        } else {
            withdraw(&mut pool, &mut ledger, &user, -step).unwrap();
        }
        balance += step;
        assert_eq!(pool.get_balance(&user), balance);
        assert_eq!(pool.get_tickets(&user), balance * 30);
        assert_eq!(pool.get_total_deposits(), balance);
        assert_eq!(pool.get_total_tickets(), balance * 30);
    }
    assert_eq!(balance, 0);
}

use lucky_stake::deposit::VaultConfig;
use lucky_stake::identity::Address;
use lucky_stake::ledger::Party;
use lucky_stake::ledger::Transfer;
use lucky_stake::ledger::TransferError;
use lucky_stake::prize_pool::PrizeError;
use lucky_stake::prize_pool::PrizePoolContract;
use lucky_stake::prize_pool::BASIS_POINTS;
use lucky_stake::registry::Participant;

fn address(name: &str) -> Address {
    Address::new(name.as_bytes().to_vec())
}

fn config() -> Option<VaultConfig> {
    Some(VaultConfig { admin: address("admin"), token: address("token") })
}

fn account(name: &str, balance: i128) -> Participant {
    Participant { id: address(name), balance, tickets: 0 }
}

fn pay(name: &str, amount: i128) -> Transfer {
    Transfer { from: Party::Custody, to: Party::Account(address(name)), amount }
}

#[test]
fn a_prize_pool_is_set_up_once_by_its_admin() {
    let mut pool = PrizePoolContract::new();
    assert!(!pool.is_initialized());
    assert_eq!(pool.get_prize_fund(), 0);
    assert_eq!(
        pool.initialize(&address("mallory"), address("admin"), address("token")),
        Err(PrizeError::Unauthorized)
    );
    let admin = address("admin");
    assert_eq!(pool.initialize(&admin, admin.clone(), address("token")), Ok(()));
    assert!(pool.is_initialized());
    assert_eq!(pool.get_admin(), &admin);
    assert_eq!(pool.config(), &config());
    assert_eq!(pool.get_prize_fund(), 0);
    assert_eq!(pool.get_total_deposits(), 0);
    assert_eq!(
        pool.initialize(&admin, admin.clone(), address("coin")),
        Err(PrizeError::AlreadyInitialized)
    );
    assert_eq!(pool.config(), &config());
}

#[test]
fn the_prize_fund_takes_top_ups_from_the_admin() {
    let mut pool = PrizePoolContract::restore(config(), vec![], 0, 0).unwrap();
    let admin = address("admin");
    assert_eq!(
        pool.add_prize_transfer(&admin, 100),
        Ok(Transfer { from: Party::Account(admin.clone()), to: Party::Custody, amount: 100 })
    );
    assert_eq!(pool.add_prize(&admin, 100, Ok(())), Ok(()));
    assert_eq!(pool.add_prize(&admin, 23, Ok(())), Ok(()));
    assert_eq!(pool.get_prize_fund(), 123);
    assert_eq!(pool.add_prize(&admin, 0, Ok(())), Err(PrizeError::InvalidAmount));
    assert_eq!(pool.add_prize(&admin, -1, Ok(())), Err(PrizeError::InvalidAmount));
    assert_eq!(pool.add_prize(&address("ann"), 5, Ok(())), Err(PrizeError::Unauthorized));
    assert_eq!(pool.add_prize_transfer(&address("ann"), 5), Err(PrizeError::Unauthorized));
    assert_eq!(pool.add_prize_transfer(&admin, 0), Err(PrizeError::InvalidAmount));
    assert_eq!(pool.add_prize(&admin, 5, Err(TransferError)), Err(PrizeError::TransferFailed));
    assert_eq!(pool.get_prize_fund(), 123);
    assert!(pool.can_fund(i128::MAX - 123));
    assert!(!pool.can_fund(i128::MAX - 122));
}

#[test]
fn a_distribution_pays_each_depositor_its_proportion() {
    let mut pool = PrizePoolContract::restore(
        config(),
        vec![account("a", 50), account("b", 0), account("c", 30), account("d", 20)],
        100,
        1_000,
    )
    .unwrap();
    assert_eq!(pool.distribute_transfers(), Ok(vec![pay("a", 500), pay("c", 300), pay("d", 200)]));
    assert_eq!(pool.distribute(Ok(())), Ok(()));
    assert_eq!(pool.get_prize_fund(), 0);
    assert_eq!(pool.get_total_deposits(), 100);
    assert_eq!(pool.distribute_transfers(), Err(PrizeError::NoPrize));
    assert_eq!(pool.distribute(Ok(())), Err(PrizeError::NoPrize));
}

#[test]
fn a_distribution_rounds_every_share_down() {
    let pool = PrizePoolContract::restore(
        config(),
        vec![account("a", 1), account("b", 1), account("c", 1)],
        3,
        100,
    )
    .unwrap();
    assert_eq!(pool.distribute_transfers(), Ok(vec![pay("a", 33), pay("b", 33), pay("c", 33)]));
    // A share that rounds down to nothing is not paid.
    let pool =
        PrizePoolContract::restore(config(), vec![account("a", 999), account("b", 1)], 1_000, 10)
            .unwrap();
    assert_eq!(pool.distribute_transfers(), Ok(vec![pay("a", 9)]));
    // Amounts whose product leaves 128 bits.
    let big: i128 = 1_000_000_000_000_000_000_000_000_000_000;
    let pool = PrizePoolContract::restore(
        config(),
        vec![account("a", big), account("b", 2 * big)],
        3 * big,
        3 * big + 2,
    )
    .unwrap();
    assert_eq!(pool.distribute_transfers(), Ok(vec![pay("a", big), pay("b", 2 * big + 1)]));
}

#[test]
fn a_distribution_needs_a_prize_and_deposits() {
    let mut pool = PrizePoolContract::restore(config(), vec![account("a", 5)], 5, 0).unwrap();
    assert_eq!(pool.distribute_transfers(), Err(PrizeError::NoPrize));
    assert_eq!(pool.distribute(Ok(())), Err(PrizeError::NoPrize));
    let mut pool = PrizePoolContract::restore(config(), vec![account("a", 0)], 0, 7).unwrap();
    assert_eq!(pool.distribute_transfers(), Err(PrizeError::NoDeposits));
    assert_eq!(pool.distribute(Ok(())), Err(PrizeError::NoDeposits));
    assert_eq!(pool.get_prize_fund(), 7);
    let mut pool = PrizePoolContract::restore(config(), vec![account("a", 5)], 5, 7).unwrap();
    assert_eq!(pool.distribute(Err(TransferError)), Err(PrizeError::TransferFailed));
    assert_eq!(pool.get_prize_fund(), 7);
}

#[test]
fn the_share_of_a_user_is_in_basis_points() {
    assert_eq!(BASIS_POINTS, 10_000);
    let pool = PrizePoolContract::restore(
        config(),
        vec![account("a", 1), account("b", 2), account("c", 0)],
        3,
        0,
    )
    .unwrap();
    assert_eq!(pool.get_user_share_bp(&address("a")), 3_333);
    assert_eq!(pool.get_user_share_bp(&address("b")), 6_666);
    assert_eq!(pool.get_user_share_bp(&address("c")), 0);
    assert_eq!(pool.get_user_share_bp(&address("nobody")), 0);
    let pool = PrizePoolContract::restore(config(), vec![account("a", 9)], 9, 0).unwrap();
    assert_eq!(pool.get_user_share_bp(&address("a")), 10_000);
    let pool = PrizePoolContract::restore(config(), vec![], 0, 0).unwrap();
    assert_eq!(pool.get_user_share_bp(&address("a")), 0);
    let pool = PrizePoolContract::restore(
        config(),
        vec![account("a", i128::MAX - 1), account("b", 1)],
        i128::MAX,
        0,
    )
    .unwrap();
    assert_eq!(pool.get_user_share_bp(&address("a")), 9_999);
    assert_eq!(pool.get_user_share_bp(&address("b")), 0);
}

#[test]
fn a_prize_pool_is_restored_from_consistent_parts_only() {
    assert!(PrizePoolContract::restore(None, vec![], 0, 0).is_some());
    assert!(PrizePoolContract::restore(None, vec![], 0, 1).is_none());
    assert!(PrizePoolContract::restore(None, vec![], 1, 0).is_none());
    assert!(PrizePoolContract::restore(config(), vec![account("a", 1)], 2, 0).is_none());
    assert!(PrizePoolContract::restore(config(), vec![account("a", 1)], 1, -1).is_none());
    assert!(PrizePoolContract::restore(config(), vec![account("a", 1), account("a", 1)], 2, 0)
        .is_none());
    assert!(PrizePoolContract::restore(config(), vec![account("a", -1), account("b", 2)], 1, 0)
        .is_none());
    let pool = PrizePoolContract::restore(config(), vec![account("a", 1)], 1, 4).unwrap();
    assert_eq!(pool.accounts().len(), 1);
    assert_eq!(pool.get_total_deposits(), 1);
    assert_eq!(pool.get_prize_fund(), 4);
}

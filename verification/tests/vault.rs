use lucky_stake::deposit::LuckyStake;
use lucky_stake::deposit::VaultConfig;
use lucky_stake::error::PoolError;
use lucky_stake::identity::Address;
use lucky_stake::ledger::Party;
use lucky_stake::ledger::Transfer;
use lucky_stake::ledger::TransferError;
use lucky_stake::registry::Participant;

fn address(name: &str) -> Address {
    Address::new(name.as_bytes().to_vec())
}

fn vault() -> LuckyStake {
    let mut vault = LuckyStake::new();
    let admin = address("admin");
    assert_eq!(vault.initialize(&admin, admin.clone(), address("token")), Ok(()));
    vault
}

#[test]
fn a_vault_starts_empty() {
    let blank = LuckyStake::new();
    assert!(!blank.is_initialized());
    assert_eq!(blank.get_total_deposits(), 0);
    assert_eq!(blank.get_balance(&address("ann")), 0);
    assert!(blank.config().is_none());
    let vault = vault();
    assert!(vault.is_initialized());
    assert_eq!(vault.get_total_deposits(), 0);
    assert_eq!(
        vault.config(),
        &Some(VaultConfig { admin: address("admin"), token: address("token") })
    );
    assert!(vault.accounts().is_empty());
}

#[test]
fn a_vault_is_set_up_once_by_its_admin() {
    let mut blank = LuckyStake::new();
    assert_eq!(
        blank.initialize(&address("mallory"), address("admin"), address("token")),
        Err(PoolError::Unauthorized)
    );
    assert!(!blank.is_initialized());
    let mut vault = vault();
    let other = address("other");
    assert_eq!(
        vault.initialize(&other, other.clone(), address("coin")),
        Err(PoolError::AlreadyInitialized)
    );
    assert_eq!(
        vault.config(),
        &Some(VaultConfig { admin: address("admin"), token: address("token") })
    );
}

#[test]
fn vault_deposits_add_up() {
    let mut vault = vault();
    let ann = address("ann");
    let bob = address("bob");
    assert_eq!(
        vault.deposit_transfer(&ann, &ann, 40),
        Ok(Transfer { from: Party::Account(ann.clone()), to: Party::Custody, amount: 40 })
    );
    assert_eq!(vault.deposit(&ann, ann.clone(), 40, Ok(())), Ok(()));
    assert_eq!(vault.deposit(&bob, bob.clone(), 2, Ok(())), Ok(()));
    assert_eq!(vault.deposit(&ann, ann.clone(), 60, Ok(())), Ok(()));
    assert_eq!(vault.get_balance(&ann), 100);
    assert_eq!(vault.get_balance(&bob), 2);
    assert_eq!(vault.get_balance(&address("cyd")), 0);
    assert_eq!(vault.get_total_deposits(), 102);
    assert_eq!(vault.accounts().len(), 2);
    assert_eq!(vault.accounts()[0], Participant { id: ann, balance: 100, tickets: 0 });
}

#[test]
fn vault_refusals_change_nothing() {
    let mut vault = vault();
    let ann = address("ann");
    assert_eq!(vault.deposit(&ann, ann.clone(), 10, Ok(())), Ok(()));
    assert_eq!(vault.deposit(&ann, ann.clone(), 0, Ok(())), Err(PoolError::InvalidAmount));
    assert_eq!(vault.deposit(&ann, ann.clone(), -1, Ok(())), Err(PoolError::InvalidAmount));
    assert_eq!(vault.deposit_transfer(&ann, &ann, 0), Err(PoolError::InvalidAmount));
    assert_eq!(
        vault.deposit(&address("bob"), ann.clone(), 5, Ok(())),
        Err(PoolError::Unauthorized)
    );
    assert_eq!(vault.deposit_transfer(&address("bob"), &ann, 5), Err(PoolError::Unauthorized));
    assert_eq!(
        vault.deposit(&ann, ann.clone(), 5, Err(TransferError)),
        Err(PoolError::TransferFailed)
    );
    assert_eq!(vault.get_balance(&ann), 10);
    assert_eq!(vault.get_total_deposits(), 10);
    assert!(vault.has_room_for(i128::MAX - 10));
    assert!(!vault.has_room_for(i128::MAX - 9));
    assert!(vault.has_room_for(-1));
}

#[test]
fn a_vault_is_restored_from_consistent_parts_only() {
    let config = || Some(VaultConfig { admin: address("admin"), token: address("token") });
    let account =
        |name: &str, balance: i128, tickets: i128| Participant { id: address(name), balance, tickets };
    let vault =
        LuckyStake::restore(config(), vec![account("a", 5, 0), account("b", 6, 0)], 11).unwrap();
    assert_eq!(vault.get_balance(&address("b")), 6);
    assert_eq!(vault.get_total_deposits(), 11);
    assert!(LuckyStake::restore(None, vec![], 0).is_some());
    assert!(LuckyStake::restore(config(), vec![account("a", 5, 0)], 6).is_none());
    assert!(LuckyStake::restore(config(), vec![account("a", 5, 1)], 5).is_none());
    assert!(LuckyStake::restore(config(), vec![account("a", 5, 0), account("a", 1, 0)], 6).is_none());
    assert!(LuckyStake::restore(config(), vec![account("a", -5, 0)], -5).is_none());
    assert!(LuckyStake::restore(None, vec![], 1).is_none());
    assert!(LuckyStake::restore(None, vec![account("a", 0, 0)], 0).is_none());
}

use lucky_stake::identity::bytes_copy;
use lucky_stake::identity::bytes_equal;
use lucky_stake::identity::Address;
use lucky_stake::ledger::Party;
use lucky_stake::ledger::Transfer;
use lucky_stake::registry::Participant;
use lucky_stake::registry::Registry;

fn address(name: &str) -> Address {
    Address::new(name.as_bytes().to_vec())
}

fn participant(name: &str, balance: i128, tickets: i128) -> Participant {
    Participant { id: address(name), balance, tickets }
}

#[test]
fn identities_compare_by_their_bytes() {
    assert!(address("alice").same(&address("alice")));
    assert!(!address("alice").same(&address("alicf")));
    assert!(!address("alice").same(&address("alic")));
    assert!(!address("").same(&address("a")));
    assert!(address("").same(&address("")));
    assert_eq!(address("alice"), address("alice"));
    assert_ne!(address("alice"), address("bob"));
    assert_eq!(address("alice").clone(), address("alice"));
    assert_eq!(address("alice").as_bytes(), &b"alice".to_vec());
}

#[test]
fn byte_strings_compare_and_copy() {
    assert!(bytes_equal(&vec![], &vec![]));
    assert!(bytes_equal(&vec![1, 2, 3], &vec![1, 2, 3]));
    assert!(!bytes_equal(&vec![1, 2, 3], &vec![1, 2, 4]));
    assert!(!bytes_equal(&vec![1, 2, 3], &vec![1, 2]));
    assert!(!bytes_equal(&vec![0], &vec![]));
    assert_eq!(bytes_copy(&vec![9, 8, 7]), vec![9, 8, 7]);
    assert_eq!(bytes_copy(&vec![]), Vec::<u8>::new());
}

#[test]
fn transfers_name_both_ends() {
    assert_eq!(
        Transfer::collect(address("ann"), 5),
        Transfer { from: Party::Account(address("ann")), to: Party::Custody, amount: 5 }
    );
    assert_eq!(
        Transfer::pay_out(address("ann"), 6),
        Transfer { from: Party::Custody, to: Party::Account(address("ann")), amount: 6 }
    );
    let transfer = Transfer::pay_out(address("ann"), 6);
    assert_eq!(transfer.clone(), transfer);
    assert_ne!(Party::Custody, Party::Account(address("")));
}

#[test]
fn a_registry_keeps_the_order_of_first_deposit() {
    let mut registry = Registry::new();
    assert_eq!(registry.len(), 0);
    registry.credit(address("b"), 5, 50);
    registry.credit(address("a"), 1, 10);
    registry.credit(address("b"), 2, 20);
    assert_eq!(registry.len(), 2);
    assert_eq!(registry.entries()[0], participant("b", 7, 70));
    assert_eq!(registry.entries()[1], participant("a", 1, 10));
    assert_eq!(registry.find(&address("b")), Some(0));
    assert_eq!(registry.find(&address("a")), Some(1));
    assert_eq!(registry.find(&address("c")), None);
    assert_eq!(registry.balance_of(&address("b")), 7);
    assert_eq!(registry.tickets_of(&address("b")), 70);
    assert_eq!(registry.balance_of(&address("c")), 0);
    assert_eq!(registry.tickets_of(&address("c")), 0);
    assert_eq!(registry.totals(), Some((8, 80)));
    assert_eq!(registry.balance_total(), Some(8));
}

#[test]
fn a_debit_keeps_the_entry() {
    let mut registry = Registry::new();
    registry.credit(address("a"), 10, 100);
    registry.credit(address("b"), 3, 30);
    registry.debit(address("a"), 4, 40);
    assert_eq!(registry.entries()[0], participant("a", 6, 60));
    registry.debit(address("a"), 6, 60);
    assert_eq!(registry.len(), 2);
    assert_eq!(registry.entries()[0], participant("a", 0, 0));
    assert_eq!(registry.entries()[1], participant("b", 3, 30));
    registry.debit(address("nobody"), 0, 0);
    assert_eq!(registry.len(), 2);
    assert_eq!(registry.totals(), Some((3, 30)));
}

#[test]
fn a_registry_is_taken_from_valid_entries_only() {
    let registry =
        Registry::from_entries(vec![participant("a", 1, 2), participant("b", 0, 0)]).unwrap();
    assert_eq!(registry.len(), 2);
    assert_eq!(registry.balance_of(&address("a")), 1);
    assert!(Registry::from_entries(vec![]).is_some());
    assert!(Registry::from_entries(vec![participant("a", 1, 2), participant("a", 0, 0)]).is_none());
    assert!(Registry::from_entries(vec![
        participant("a", 1, 2),
        participant("b", 0, 0),
        participant("c", 0, 0),
        participant("b", 5, 5)
    ])
    .is_none());
    assert!(Registry::from_entries(vec![participant("a", -1, 2)]).is_none());
    assert!(Registry::from_entries(vec![participant("a", 1, -2)]).is_none());
}

#[test]
fn totals_that_leave_128_bits_are_not_given() {
    let registry =
        Registry::from_entries(vec![participant("a", i128::MAX, 1), participant("b", 1, 1)])
            .unwrap();
    assert_eq!(registry.totals(), None);
    assert_eq!(registry.balance_total(), None);
    let registry =
        Registry::from_entries(vec![participant("a", 1, i128::MAX), participant("b", 1, 1)])
            .unwrap();
    assert_eq!(registry.totals(), None);
    assert_eq!(registry.balance_total(), Some(2));
    let registry =
        Registry::from_entries(vec![participant("a", i128::MAX - 1, 0), participant("b", 1, 0)])
            .unwrap();
    assert_eq!(registry.totals(), Some((i128::MAX, 0)));
}

use bank_system::errors::BankError;
use bank_system::storage::Balance;
use bank_system::storage::Storage;
use bank_system::transaction::Deposit;
use bank_system::transaction::Transaction;
use bank_system::transaction::Transfer;
use bank_system::transaction::TxCombinator;
use bank_system::transaction::Withdraw;

fn store_with(users: &[(&str, i64)]) -> Storage {
    let mut storage = Storage::new();
    for (name, amount) in users {
        storage.add_user(name.to_string());
        storage.deposit(&name.to_string(), Balance::new(*amount)).unwrap();
    }
    storage
}

#[test]
fn deposit_transaction_credits_account() {
    let mut storage = store_with(&[("Alice", 10)]);
    let tx = Deposit::new("Alice", Balance::new(90));
    assert!(tx.apply(&mut storage).is_ok());
    assert_eq!(
        storage.get_balance(&"Alice".to_string()),
        Some(Balance::new(100))
    );
}

#[test]
fn withdraw_transaction_debits_account() {
    let mut storage = store_with(&[("Alice", 100)]);
    let tx = Withdraw::new("Alice", Balance::new(30));
    assert!(tx.apply(&mut storage).is_ok());
    assert_eq!(
        storage.get_balance(&"Alice".to_string()),
        Some(Balance::new(70))
    );
}

#[test]
fn transfer_moves_funds_and_conserves_total() {
    let mut storage = store_with(&[("Alice", 100), ("Bob", 5)]);
    let tx = Transfer::new("Alice", "Bob", Balance::new(40));
    assert!(tx.apply(&mut storage).is_ok());
    let a = storage.get_balance(&"Alice".to_string()).unwrap().value();
    let b = storage.get_balance(&"Bob".to_string()).unwrap().value();
    assert_eq!(a, 60);
    assert_eq!(b, 45);
    assert_eq!(a + b, 105);
}

#[test]
fn transfer_without_funds_changes_nothing() {
    let mut storage = store_with(&[("Alice", 10), ("Bob", 5)]);
    let tx = Transfer::new("Alice", "Bob", Balance::new(40));
    let res = tx.apply(&mut storage);
    assert!(matches!(res, Err(BankError::FundsLimit)));
    assert_eq!(
        storage.get_balance(&"Alice".to_string()),
        Some(Balance::new(10))
    );
    assert_eq!(
        storage.get_balance(&"Bob".to_string()),
        Some(Balance::new(5))
    );
}

#[test]
fn transfer_to_missing_account_loses_the_withdrawal() {
    let mut storage = store_with(&[("Alice", 100)]);
    let tx = Transfer::new("Alice", "Nobody", Balance::new(25));
    let res = tx.apply(&mut storage);
    assert!(matches!(res, Err(BankError::UserNotFound)));
    // The documented non-atomicity: the source is already debited.
    assert_eq!(
        storage.get_balance(&"Alice".to_string()),
        Some(Balance::new(75))
    );
    assert_eq!(storage.get_balance(&"Nobody".to_string()), None);
}

#[test]
fn combinator_applies_both_in_order() {
    let mut storage = store_with(&[("Alice", 0), ("Bob", 0)]);
    let tx = TxCombinator::new(
        Deposit::new("Alice", Balance::new(100)),
        Transfer::new("Alice", "Bob", Balance::new(30)),
    );
    assert!(tx.apply(&mut storage).is_ok());
    assert_eq!(
        storage.get_balance(&"Alice".to_string()),
        Some(Balance::new(70))
    );
    assert_eq!(
        storage.get_balance(&"Bob".to_string()),
        Some(Balance::new(30))
    );
}

#[test]
fn combinator_stops_after_first_failure() {
    let mut storage = store_with(&[("Alice", 10), ("Bob", 0)]);
    let tx = TxCombinator::new(
        Withdraw::new("Alice", Balance::new(50)),
        Deposit::new("Bob", Balance::new(50)),
    );
    let res = tx.apply(&mut storage);
    assert!(matches!(res, Err(BankError::FundsLimit)));
    assert_eq!(
        storage.get_balance(&"Alice".to_string()),
        Some(Balance::new(10))
    );
    assert_eq!(
        storage.get_balance(&"Bob".to_string()),
        Some(Balance::new(0))
    );
}

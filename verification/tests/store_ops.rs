use bank_system::analytics::compute_most_profitable;
use bank_system::errors::BankError;
use bank_system::storage::Balance;
use bank_system::storage::Operation;
use bank_system::storage::Storage;

#[test]
fn test_new_storage_is_empty() {
    let bank = Storage::new();
    assert_eq!(bank.get_all().len(), 0);
}

#[test]
fn test_add_user() {
    let mut storage = Storage::new();
    assert_eq!(
        storage.add_user("Alice".to_string()),
        Some(Balance::default())
    ); // new user
    assert_eq!(storage.add_user("Alice".to_string()), None); // already exists
}

#[test]
fn test_remove_user() {
    let mut storage = Storage::new();
    storage.add_user("Bob".to_string());
    storage.deposit(&"Bob".to_string(), Balance::new(100)).unwrap();

    assert_eq!(
        storage.remove_user(&"Bob".to_string()),
        Some(Balance::new(100))
    ); // removed, last balance returned
    assert_eq!(storage.remove_user(&"Bob".to_string()), None); // second time: not found
}

#[test]
fn test_deposit_and_withdraw() {
    let mut storage = Storage::new();
    storage.add_user("Charlie".to_string());

    assert!(storage.deposit(&"Charlie".to_string(), Balance::new(200)).is_ok());
    assert_eq!(
        storage.get_balance(&"Charlie".to_string()),
        Some(Balance::new(200))
    );

    assert!(storage.withdraw(&"Charlie".to_string(), Balance::new(150)).is_ok());
    assert_eq!(
        storage.get_balance(&"Charlie".to_string()),
        Some(Balance::new(50))
    );

    assert!(storage.withdraw(&"Charlie".to_string(), Balance::new(100)).is_err());
    assert_eq!(
        storage.get_balance(&"Charlie".to_string()),
        Some(Balance::new(50))
    );
}

#[test]
fn test_nonexistent_user() {
    let mut storage = Storage::new();

    assert!(storage.deposit(&"Dana".to_string(), Balance::new(100)).is_err());
    assert!(storage.withdraw(&"Dana".to_string(), Balance::new(50)).is_err());
    assert_eq!(storage.get_balance(&"Dana".to_string()), None);
}

#[test]
fn test_apply_operations() {
    let mut balance = Balance::default();
    let ops = vec![
        Operation::Deposit(100),
        Operation::Deposit(200),
        Operation::Withdraw(250),
    ];

    let failed_ops = balance.apply_operations(&ops);
    assert!(failed_ops.is_empty());
    assert_eq!(balance, Balance::new(50));
}

#[test]
fn test_compute_most_profitable() {
    let mut storage = Storage::new();
    storage.add_user("Alice".to_owned());
    storage.deposit(&"Alice".to_owned(), Balance::new(100)).unwrap();
    storage.add_user("Bob".to_owned());
    storage.deposit(&"Bob".to_owned(), Balance::new(200)).unwrap();

    let res = compute_most_profitable(&storage).unwrap();
    assert_eq!(res.0, "Bob");
    assert_eq!(res.1, Balance::new(200));
}

#[test]
fn most_profitable_of_empty_store_is_none() {
    let storage = Storage::new();
    assert!(compute_most_profitable(&storage).is_none());
}

#[test]
fn deposits_accumulate_to_their_sum() {
    let mut storage = Storage::new();
    storage.add_user("Eve".to_string());
    let amounts: [i64; 5] = [3, 14, 15, 92, 65];
    for a in amounts {
        storage.deposit(&"Eve".to_string(), Balance::new(a)).unwrap();
    }
    assert_eq!(
        storage.get_balance(&"Eve".to_string()),
        Some(Balance::new(189))
    );
}

#[test]
fn add_user_twice_keeps_zero_balance() {
    let mut storage = Storage::new();
    assert!(storage.add_user("Frank".to_string()).is_some());
    assert!(storage.add_user("Frank".to_string()).is_none());
    assert_eq!(
        storage.get_balance(&"Frank".to_string()),
        Some(Balance::new(0))
    );
}

#[test]
fn removed_user_is_gone_from_lookup() {
    let mut storage = Storage::new();
    storage.add_user("Grace".to_string());
    storage.deposit(&"Grace".to_string(), Balance::new(7)).unwrap();
    assert_eq!(
        storage.remove_user(&"Grace".to_string()),
        Some(Balance::new(7))
    );
    assert_eq!(storage.get_balance(&"Grace".to_string()), None);
}

#[test]
fn account_lifecycle_example() {
    let mut storage = Storage::new();
    storage.add_user("Alice".to_string());
    assert!(storage.deposit(&"Alice".to_string(), Balance::new(100)).is_ok());
    let over = storage.withdraw(&"Alice".to_string(), Balance::new(150));
    assert!(matches!(over, Err(BankError::FundsLimit)));
    assert_eq!(
        storage.get_balance(&"Alice".to_string()),
        Some(Balance::new(100))
    );
    assert!(storage.withdraw(&"Alice".to_string(), Balance::new(100)).is_ok());
    assert_eq!(
        storage.get_balance(&"Alice".to_string()),
        Some(Balance::new(0))
    );
}

#[test]
fn error_messages_by_variant() {
    assert_eq!(BankError::UserNotFound.describe(), "User not found");
    assert_eq!(BankError::FundsLimit.describe(), "Isn't enought money");
    assert_eq!(
        BankError::System("broken".to_string()).describe(),
        "System error: broken"
    );
}

#[test]
fn deposit_to_missing_user_reports_user_not_found() {
    let mut storage = Storage::new();
    let res = storage.deposit(&"Hugo".to_string(), Balance::new(1));
    assert!(matches!(res, Err(BankError::UserNotFound)));
}

#[test]
fn balance_value_round_trip() {
    assert_eq!(Balance::new(-42).value(), -42);
    assert_eq!(Balance::new(0).value(), 0);
    assert_eq!(Balance::default().value(), 0);
}

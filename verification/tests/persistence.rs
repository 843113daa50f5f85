use bank_system::codec::balance_repr;
use bank_system::codec::parse_balance;
use bank_system::codec::split_str;
use bank_system::codec::trim_str;
use bank_system::errors::BankError;
use bank_system::storage::Balance;
use bank_system::storage::Storage;

#[test]
fn test_load_data_existing_cursor() {
    let data = "John,100\nAlice,200\nBob,50\n";
    let storage = Storage::from_encoded(data).unwrap();

    assert_eq!(
        storage.get_balance(&"John".to_string()),
        Some(Balance::new(100))
    );
    assert_eq!(
        storage.get_balance(&"Alice".to_string()),
        Some(Balance::new(200))
    );
    assert_eq!(
        storage.get_balance(&"Bob".to_string()),
        Some(Balance::new(50))
    );
    assert_eq!(storage.get_balance(&"Vasya".to_string()), None); // not in the data
}

#[test]
fn test_save_writes_to_cursor_correctly() {
    let mut storage = Storage::new();
    storage.add_user("John".to_string());
    storage.add_user("Alice".to_string());
    storage.deposit(&"John".to_string(), Balance::new(150)).unwrap();
    storage.deposit(&"Alice".to_string(), Balance::new(300)).unwrap();

    let mut lines: Vec<String> = storage
        .get_all()
        .into_iter()
        .map(|(name, balance)| format!("{},{}", name, balance.value()))
        .collect();
    lines.sort();

    assert_eq!(lines, vec!["Alice,300", "John,150"]);
}

#[test]
fn save_and_load_round_trip() {
    let mut storage = Storage::new();
    storage.add_user("John".to_string());
    storage.add_user("Alice".to_string());
    storage.deposit(&"John".to_string(), Balance::new(-7)).unwrap();
    storage.deposit(&"Alice".to_string(), Balance::new(12345)).unwrap();

    let text = storage.encode();
    let reloaded = Storage::from_encoded(text.as_str()).unwrap();

    let mut before: Vec<(String, i64)> = storage
        .get_all()
        .into_iter()
        .map(|(n, b)| (n, b.value()))
        .collect();
    let mut after: Vec<(String, i64)> = reloaded
        .get_all()
        .into_iter()
        .map(|(n, b)| (n, b.value()))
        .collect();
    before.sort();
    after.sort();
    assert_eq!(before, after);
}

#[test]
fn encode_writes_one_line_per_account() {
    let mut storage = Storage::new();
    storage.add_user("A".to_string());
    storage.deposit(&"A".to_string(), Balance::new(5)).unwrap();
    assert_eq!(storage.encode(), "A,5\n");
}

#[test]
fn malformed_lines_are_skipped() {
    let data = "onlyname\nAlice,200\ntoo,many,fields\n\n";
    let storage = Storage::from_encoded(data).unwrap();
    assert_eq!(storage.get_all().len(), 1);
    assert_eq!(
        storage.get_balance(&"Alice".to_string()),
        Some(Balance::new(200))
    );
}

#[test]
fn bad_balance_fails_the_whole_load() {
    let data = "Alice,200\nBob,notanumber\n";
    let res = Storage::from_encoded(data);
    assert!(matches!(res, Err(BankError::System(_))));
}

#[test]
fn lines_are_trimmed_before_parsing() {
    let data = "  Alice,200  \r\n";
    let storage = Storage::from_encoded(data).unwrap();
    assert_eq!(
        storage.get_balance(&"Alice".to_string()),
        Some(Balance::new(200))
    );
}

#[test]
fn default_users_start_at_zero() {
    let storage = Storage::with_default_users();
    for name in ["John", "Alice", "Bob", "Vasya"] {
        assert_eq!(
            storage.get_balance(&name.to_string()),
            Some(Balance::new(0))
        );
    }
    assert_eq!(storage.get_all().len(), 4);
}

#[test]
fn balance_text_exact_values() {
    assert_eq!(balance_repr(0), "0");
    assert_eq!(balance_repr(50), "50");
    assert_eq!(balance_repr(-123), "-123");
    assert_eq!(balance_repr(i64::MAX), "9223372036854775807");
    assert_eq!(balance_repr(i64::MIN), "-9223372036854775808");
}

#[test]
fn parse_balance_accepts_well_formed_integers() {
    assert_eq!(parse_balance("100"), Some(100));
    assert_eq!(parse_balance("+42"), Some(42));
    assert_eq!(parse_balance("-42"), Some(-42));
    assert_eq!(parse_balance("9223372036854775807"), Some(i64::MAX));
    assert_eq!(parse_balance("-9223372036854775808"), Some(i64::MIN));
}

#[test]
fn parse_balance_rejects_malformed_or_oversized() {
    assert_eq!(parse_balance(""), None);
    assert_eq!(parse_balance("-"), None);
    assert_eq!(parse_balance("+"), None);
    assert_eq!(parse_balance("12a"), None);
    assert_eq!(parse_balance(" 5"), None);
    assert_eq!(parse_balance("9223372036854775808"), None);
    assert_eq!(parse_balance("-9223372036854775809"), None);
    assert_eq!(parse_balance("99999999999999999999999999"), None);
}

#[test]
fn split_keeps_every_piece() {
    assert_eq!(split_str("a,b,c", ','), vec!["a", "b", "c"]);
    assert_eq!(split_str("", ','), vec![""]);
    assert_eq!(split_str(",x,", ','), vec!["", "x", ""]);
}

#[test]
fn trim_strips_both_ends_only() {
    assert_eq!(trim_str("  a b \t"), "a b");
    assert_eq!(trim_str("\r\n"), "");
    assert_eq!(trim_str("plain"), "plain");
}

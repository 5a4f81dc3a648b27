use bank_system::Storage;

#[test]
fn test_load_data_existing_file() {
    let storage = Storage::parse_lines("John,100\nAlice,200\nBob,50\n");

    assert_eq!(storage.get_balance(&"John".to_string()), Some(100));
    assert_eq!(storage.get_balance(&"Alice".to_string()), Some(200));
    assert_eq!(storage.get_balance(&"Bob".to_string()), Some(50));
    assert_eq!(storage.get_balance(&"Vasya".to_string()), None);
}

#[test]
fn test_save_writes_to_cursor_correctly() {
    let mut storage = Storage::new();
    storage.add_user("John".to_string());
    storage.add_user("Alice".to_string());
    storage.deposit(&"John".to_string(), 150).unwrap();
    storage.deposit(&"Alice".to_string(), 300).unwrap();

    let text = storage.to_lines();
    let mut lines: Vec<&str> = text.lines().collect();
    lines.sort();

    assert_eq!(lines, vec!["Alice,300", "John,150"]);
}

#[test]
fn test_seeded_default_accounts() {
    let storage = Storage::seeded();
    assert_eq!(storage.get_balance(&"John".to_string()), Some(0));
    assert_eq!(storage.get_balance(&"Alice".to_string()), Some(0));
    assert_eq!(storage.get_balance(&"Bob".to_string()), Some(0));
    assert_eq!(storage.get_balance(&"Vasya".to_string()), Some(0));
    assert_eq!(storage.get_all().len(), 4);
}

#[test]
fn test_round_trip_reproduces_accounts() {
    let mut storage = Storage::new();
    storage.add_user("John".to_string());
    storage.add_user("Alice".to_string());
    storage.deposit(&"John".to_string(), 42).unwrap();
    storage.deposit(&"Alice".to_string(), -7).unwrap();

    let reloaded = Storage::parse_lines(&storage.to_lines());
    let mut before = storage.get_all();
    let mut after = reloaded.get_all();
    before.sort();
    after.sort();
    assert_eq!(before, after);
}

#[test]
fn test_malformed_lines_are_skipped() {
    let storage = Storage::parse_lines("justaname\nJohn,100\nA,B,C\n\nAlice,200\n");
    assert_eq!(storage.get_all().len(), 2);
    assert_eq!(storage.get_balance(&"John".to_string()), Some(100));
    assert_eq!(storage.get_balance(&"Alice".to_string()), Some(200));
    assert_eq!(storage.get_balance(&"justaname".to_string()), None);
}

#[test]
fn test_unparsable_balance_defaults_to_zero() {
    let storage = Storage::parse_lines("John,abc\nAlice,12x\nBob,\n");
    assert_eq!(storage.get_balance(&"John".to_string()), Some(0));
    assert_eq!(storage.get_balance(&"Alice".to_string()), Some(0));
    assert_eq!(storage.get_balance(&"Bob".to_string()), Some(0));
}

#[test]
fn test_duplicate_names_accumulate() {
    let storage = Storage::parse_lines("John,100\nJohn,23\n");
    assert_eq!(storage.get_balance(&"John".to_string()), Some(123));
    assert_eq!(storage.get_all().len(), 1);
}

#[test]
fn test_lines_are_trimmed() {
    let storage = Storage::parse_lines("  John,100  \r\nAlice,7");
    assert_eq!(storage.get_balance(&"John".to_string()), Some(100));
    assert_eq!(storage.get_balance(&"Alice".to_string()), Some(7));
}

#[test]
fn test_signed_and_overflowing_balances() {
    let storage = Storage::parse_lines(
        "A,-25\nB,+25\nC,9223372036854775807\nD,9223372036854775808\nE,99999999999999999999\n",
    );
    assert_eq!(storage.get_balance(&"A".to_string()), Some(-25));
    assert_eq!(storage.get_balance(&"B".to_string()), Some(25));
    assert_eq!(storage.get_balance(&"C".to_string()), Some(9223372036854775807));
    assert_eq!(storage.get_balance(&"D".to_string()), Some(0));
    assert_eq!(storage.get_balance(&"E".to_string()), Some(0));
}

#[test]
fn test_negative_balance_renders_and_reloads() {
    let mut storage = Storage::new();
    storage.add_user("Carl".to_string());
    storage.deposit(&"Carl".to_string(), -9007).unwrap();
    assert_eq!(storage.to_lines(), "Carl,-9007\n");
    let reloaded = Storage::parse_lines(&storage.to_lines());
    assert_eq!(reloaded.get_balance(&"Carl".to_string()), Some(-9007));
}

#[test]
fn test_empty_text_loads_empty_ledger() {
    let storage = Storage::parse_lines("");
    assert_eq!(storage.get_all().len(), 0);
}

use bank_system::Storage;

#[test]
fn lib_test_new_storage_is_empty() {
    let bank = Storage::new();
    assert_eq!(bank.get_all().len(), 0);
}

#[test]
fn lib_test_add_user() {
    let mut storage = Storage::new();
    let option1 = storage.add_user("Kirill".to_string());
    assert_eq!(option1, Some(0));

    let option2 = storage.add_user("Kirill".to_string());
    assert_eq!(option2, None);
}

#[test]
fn lib_test_remove_user() {
    let mut storage = Storage::new();
    storage.add_user("Kirill".to_string());
    storage.deposit(&"Kirill".to_string(), 100).unwrap();

    assert_eq!(storage.remove_user(&"Kirill".to_string()), Some(100));
    assert_eq!(storage.remove_user(&"Kirill".to_string()), None);
}

#[test]
fn lib_test_deposit_and_withdraw() {
    let mut storage = Storage::new();
    storage.add_user("Kirill".to_string());
    let result = storage.deposit(&"Kirill".to_string(), 100);
    assert_eq!(result, Ok(()));
    assert_eq!(storage.get_balance(&"Kirill".to_string()), Some(100));

    assert!(storage.withdraw(&"Kirill".to_string(), 50).is_ok());
    assert_eq!(storage.get_balance(&"Kirill".to_string()), Some(50));

    assert!(storage.withdraw(&"Kirill".to_string(), 100).is_err());
    assert_eq!(storage.get_balance(&"Kirill".to_string()), Some(50));
}

#[test]
fn lib_test_nonexistent_user() {
    let mut storage = Storage::new();

    assert!(storage.deposit(&"Diana".to_string(), 100).is_err());
    assert!(storage.withdraw(&"Diana".to_string(), 50).is_err());

    assert_eq!(storage.get_balance(&"Diana".to_string()), None);
}

#[test]
fn storage_test_new_storage_is_empty() {
    let bank = Storage::new();
    assert_eq!(bank.get_all().len(), 0);
}

#[test]
fn storage_test_add_user() {
    let mut storage = Storage::new();
    let option1 = storage.add_user("Kirill".to_string());
    assert_eq!(option1, Some(0));

    let option2 = storage.add_user("Kirill".to_string());
    assert_eq!(option2, None);
}

#[test]
fn storage_test_remove_user() {
    let mut storage = Storage::new();
    storage.add_user("Kirill".to_string());
    storage.deposit(&"Kirill".to_string(), 100).unwrap();

    assert_eq!(storage.remove_user(&"Kirill".to_string()), Some(100));
    assert_eq!(storage.remove_user(&"Kirill".to_string()), None);
}

#[test]
fn storage_test_deposit_and_withdraw() {
    let mut storage = Storage::new();
    storage.add_user("Kirill".to_string());
    let result = storage.deposit(&"Kirill".to_string(), 100);
    assert_eq!(result, Ok(()));
    assert_eq!(storage.get_balance(&"Kirill".to_string()), Some(100));

    assert!(storage.withdraw(&"Kirill".to_string(), 50).is_ok());
    assert_eq!(storage.get_balance(&"Kirill".to_string()), Some(50));

    assert!(storage.withdraw(&"Kirill".to_string(), 100).is_err());
    assert_eq!(storage.get_balance(&"Kirill".to_string()), Some(50));
}

#[test]
fn storage_test_nonexistent_user() {
    let mut storage = Storage::new();

    assert!(storage.deposit(&"Diana".to_string(), 100).is_err());
    assert!(storage.withdraw(&"Diana".to_string(), 50).is_err());

    assert_eq!(storage.get_balance(&"Diana".to_string()), None);
}

#[test]
fn test_withdraw_exact_balance_leaves_zero() {
    let mut storage = Storage::new();
    storage.add_user("Kirill".to_string());
    storage.deposit(&"Kirill".to_string(), 75).unwrap();
    assert!(storage.withdraw(&"Kirill".to_string(), 75).is_ok());
    assert_eq!(storage.get_balance(&"Kirill".to_string()), Some(0));
}

#[test]
fn test_error_messages() {
    let mut storage = Storage::new();
    storage.add_user("Kirill".to_string());
    assert_eq!(
        storage.withdraw(&"Kirill".to_string(), 1),
        Err("Not enough money on balance".to_string())
    );
    assert_eq!(
        storage.deposit(&"Diana".to_string(), 1),
        Err("User is not found".to_string())
    );
    assert_eq!(
        storage.withdraw(&"Diana".to_string(), 1),
        Err("User is not found".to_string())
    );
}

#[test]
fn test_get_all_snapshot() {
    let mut storage = Storage::new();
    storage.add_user("John".to_string());
    storage.add_user("Alice".to_string());
    storage.deposit(&"John".to_string(), 10).unwrap();
    let mut all = storage.get_all();
    all.sort();
    assert_eq!(all, vec![("Alice".to_string(), 0), ("John".to_string(), 10)]);
}

use bank::balance::{Balance, BalanceError};
use bank::operation::{BalanceOpError, Operation, OperationType, Status};
use bank::storage::{BalanceManagerError, Storage, StorageError};

#[test]
fn files_test_new_storage_is_empty() {
    let bank = Storage::new();
    assert_eq!(bank.get_all().len(), 0);
}

#[test]
fn storage_test_add_user() {
    let mut storage = Storage::new();
    assert_eq!(storage.add_user("Alice".to_string()), Some(Balance::default()));
    assert_eq!(storage.add_user("Alice".to_string()), None);
}

#[test]
fn storage_test_remove_user() {
    let mut storage = Storage::new();
    storage.add_user("Bob".to_string());
    storage.deposit(&"Bob".to_string(), 100).unwrap();

    let removed = storage.remove_user(&"Bob".to_string()).unwrap();
    assert_eq!(removed.get_value(), 100);
    assert_eq!(removed.get_history().len(), 1);
    assert_eq!(removed.get_history()[0].tx_type, OperationType::Deposit(100));
    assert_eq!(storage.remove_user(&"Bob".to_string()), None);
}

#[test]
fn storage_test_nonexistent_user() {
    let mut storage = Storage::new();

    assert!(storage.deposit(&"Dana".to_string(), 100).is_err());
    assert!(storage.withdraw(&"Dana".to_string(), 50).is_err());
    assert_eq!(storage.get_balance(&"Dana".to_string()), None);
}

#[test]
fn manager_test_remove_user() {
    let mut storage = Storage::new();
    storage.add_user("Bob".to_string());
    storage.deposit(&"Bob".to_string(), 100).unwrap();

    let mut balance = Balance::default();
    let _ = bank::operation::Operation::deposit(1, 100).apply(&mut balance);

    let removed = storage.remove_user(&"Bob".to_string()).unwrap();
    assert_eq!(removed.get_value(), balance.get_value());
    assert_eq!(removed.get_history().len(), balance.get_history().len());
    assert_eq!(removed.get_history()[0].tx_type, balance.get_history()[0].tx_type);
    assert_eq!(removed.get_history()[0].status, balance.get_history()[0].status);
    assert_eq!(storage.remove_user(&"Bob".to_string()), None);
}

#[test]
fn manager_test_nonexistent_user() {
    let mut storage = Storage::new();

    assert!(storage.deposit(&"Dana".to_string(), 100).is_err());
    assert!(storage.withdraw(&"Dana".to_string(), 50).is_err());
    assert_eq!(storage.get_balance(&"Dana".to_string()), None);
}

#[test]
fn test_load_data_existing_cursor() {
    let data = "John,100\nAlice,200\nBob,50\n";

    let mut storage = Storage::new();
    for line in data.lines() {
        let parts: Vec<&str> = line.trim().split(',').collect();
        if parts.len() == 2 {
            let name = parts[0].to_string();
            let balance: u64 = parts[1].parse().unwrap_or(0);
            storage.add_user(name.clone());
            storage.deposit(&name, balance).unwrap();
        }
    }
    assert_eq!(storage.get_balance(&"John".to_string()).unwrap().get_value(), 100);
    assert_eq!(storage.get_balance(&"Alice".to_string()).unwrap().get_value(), 200);
    assert_eq!(storage.get_balance(&"Bob".to_string()).unwrap().get_value(), 50);
    assert_eq!(storage.get_balance(&"Vasya".to_string()), None);
}

#[test]
fn files_test_load_data_existing_file() {
    let text = "Ivan;300,[1,1764444526,D100,success,Record number #1|3,1764444535,T(Julia:200:true),success,Record number #3]
Julia;400,[2,1764444530,D600,success,Record number #2|3,1764444535,T(Ivan:200:false),success,Record number #3]";
    let storage = Storage::from_text(text);
    assert!(storage.is_ok());

    let storage = storage.unwrap();

    let j_balance = storage.get_balance(&"Ivan".to_string());
    let a_balance = storage.get_balance(&"Julia".to_string());

    assert!(j_balance.is_some());
    assert!(a_balance.is_some());

    let j_balance = j_balance.unwrap();
    let a_balance = a_balance.unwrap();

    assert_eq!(j_balance.get_value(), 300);
    assert_eq!(a_balance.get_value(), 400);
}

#[test]
fn test_load_data_not_existing_file() {
    let storage = Storage::from_text("Ivan;300,[1,1764444526,O100,success,Record number #1]\n");
    assert!(storage.is_err());
}

#[test]
fn load_errors_name_the_fault() {
    assert_eq!(
        Storage::from_text("Ivan;300,[]\nno separator here\n").err(),
        Some(StorageError::InvalidLine("no separator here".to_string()))
    );
    assert_eq!(
        Storage::from_text("a;b;0,[]").err(),
        Some(StorageError::InvalidBalance(BalanceError::InvalidParseBalance("b;0".to_string())))
    );
    assert_eq!(
        Storage::from_text("Ivan;x,[]").err(),
        Some(StorageError::InvalidBalance(BalanceError::InvalidParseBalance("x".to_string())))
    );
    assert_eq!(
        Storage::from_text("Ivan;3,[1,1,O1,success,y]").err(),
        Some(StorageError::InvalidBalance(BalanceError::InvalidParseOperation(
            BalanceOpError::ParseError("1,1,O1,success,y".to_string())
        )))
    );
    assert_eq!(
        Storage::from_text("a;1,[]\n\nb;2,[]\n").err(),
        Some(StorageError::InvalidLine(String::new()))
    );
}

#[test]
fn empty_text_is_an_empty_store() {
    let s = Storage::from_text("").unwrap();
    assert!(s.get_all().is_empty());
    assert_eq!(s.to_text(), "");
}

#[test]
fn later_line_for_a_name_wins() {
    let s = Storage::from_text("a;1,[]\na;2,[]\n").unwrap();
    assert_eq!(s.get_all().len(), 1);
    assert_eq!(s.get_balance(&"a".to_string()).unwrap().get_value(), 2);
}

#[test]
fn store_text_round_trips() {
    let mut s = Storage::new();
    s.add_user("Alice".to_string());
    s.add_user("Bob".to_string());
    s.deposit(&"Alice".to_string(), 500).unwrap();
    s.transfer(&"Alice".to_string(), &"Bob".to_string(), 50).unwrap();
    let text = s.to_text();
    assert_eq!(text.lines().count(), 2);
    assert!(text.ends_with('\n'));
    let back = Storage::from_text(&text).unwrap();
    for name in ["Alice", "Bob"] {
        let n = name.to_string();
        assert_eq!(back.get_balance(&n), s.get_balance(&n));
    }
    assert_eq!(back.get_balance(&"Alice".to_string()).unwrap().get_value(), 450);
    assert_eq!(back.to_text(), text);
}

#[test]
fn adding_twice_keeps_one_balance() {
    let mut s = Storage::new();
    assert!(s.add_user("Alice".to_string()).is_some());
    s.deposit(&"Alice".to_string(), 30).unwrap();
    assert_eq!(s.add_user("Alice".to_string()), None);
    assert_eq!(s.get_all().len(), 1);
    assert_eq!(s.get_balance(&"Alice".to_string()).unwrap().get_value(), 30);
}

#[test]
fn set_balance_opens_or_replaces() {
    let mut s = Storage::new();
    s.set_balance("x", Balance::new(5, vec![]));
    assert_eq!(s.get_balance(&"x".to_string()).unwrap().get_value(), 5);
    s.set_balance("x", Balance::new(9, vec![]));
    assert_eq!(s.get_balance(&"x".to_string()).unwrap().get_value(), 9);
    assert_eq!(s.get_all().len(), 1);
}

#[test]
fn get_all_lists_every_account_once() {
    let mut s = Storage::new();
    for n in ["a", "b", "c"] {
        s.add_user(n.to_string());
    }
    s.remove_user(&"b".to_string());
    let mut names: Vec<String> = s.get_all().into_iter().map(|(n, _)| n).collect();
    names.sort();
    assert_eq!(names, vec!["a".to_string(), "c".to_string()]);
}

#[test]
fn store_errors_carry_details() {
    let mut s = Storage::new();
    s.add_user("a".to_string());
    assert_eq!(
        s.deposit(&"zz".to_string(), 1),
        Err(BalanceManagerError::UserNotFound("zz".to_string()))
    );
    assert_eq!(
        s.withdraw(&"a".to_string(), 1),
        Err(BalanceManagerError::NotEnoughMoney {
            required: 1,
            available: 0
        })
    );
    let h = s.get_balance(&"a".to_string()).unwrap().get_history();
    assert_eq!(h.len(), 1);
    assert_eq!(h[0].status, Status::FAILURE);
    s.set_balance("a", Balance::new(i128::MAX, vec![]));
    assert_eq!(s.deposit(&"a".to_string(), 1), Err(BalanceManagerError::OverLimit));
}

#[test]
fn operation_ids_count_up_per_account() {
    let mut s = Storage::new();
    s.add_user("a".to_string());
    s.deposit(&"a".to_string(), 1).unwrap();
    s.deposit(&"a".to_string(), 2).unwrap();
    s.close(&"a".to_string()).unwrap();
    let b = s.get_balance(&"a".to_string()).unwrap();
    let ids: Vec<u64> = b.get_history().iter().map(|o| o.id).collect();
    assert_eq!(ids, vec![1, 2, 3]);
    assert_eq!(b.get_history()[2].description, "Record number #3");
    assert_eq!(b.get_value(), 0);
}

#[test]
fn transfer_moves_money_between_accounts() {
    let mut s = Storage::new();
    s.add_user("a".to_string());
    s.add_user("b".to_string());
    s.deposit(&"a".to_string(), 100).unwrap();
    assert_eq!(s.transfer(&"a".to_string(), &"b".to_string(), 40), Ok(()));
    let a = s.get_balance(&"a".to_string()).unwrap();
    let b = s.get_balance(&"b".to_string()).unwrap();
    assert_eq!(a.get_value(), 60);
    assert_eq!(b.get_value(), 40);
    assert_eq!(a.get_history()[1].tx_type, OperationType::Transfer("b".to_string(), 40, false));
    assert_eq!(b.get_history()[0].tx_type, OperationType::Transfer("a".to_string(), 40, true));
}

#[test]
fn short_transfer_changes_neither_value() {
    let mut s = Storage::new();
    s.add_user("a".to_string());
    s.add_user("b".to_string());
    s.deposit(&"a".to_string(), 10).unwrap();
    assert_eq!(
        s.transfer(&"a".to_string(), &"b".to_string(), 11),
        Err(BalanceManagerError::NotEnoughMoney {
            required: 11,
            available: 10
        })
    );
    let a = s.get_balance(&"a".to_string()).unwrap();
    assert_eq!(a.get_value(), 10);
    assert_eq!(a.get_history().len(), 1);
    assert_eq!(a.get_history()[0].status, Status::SUCCESS);
    let b = s.get_balance(&"b".to_string()).unwrap();
    assert_eq!(b.get_value(), 0);
    assert!(b.get_history().is_empty());
}

#[test]
fn transfer_to_an_account_that_would_overflow_changes_neither_value() {
    let mut s = Storage::new();
    s.add_user("a".to_string());
    s.set_balance("b", Balance::new(i128::MAX, vec![]));
    s.deposit(&"a".to_string(), 10).unwrap();
    assert_eq!(
        s.transfer(&"a".to_string(), &"b".to_string(), 1),
        Err(BalanceManagerError::OverLimit)
    );
    assert_eq!(s.get_balance(&"a".to_string()).unwrap().get_value(), 10);
    assert_eq!(s.get_balance(&"a".to_string()).unwrap().get_history().len(), 1);
    assert_eq!(s.get_balance(&"b".to_string()).unwrap().get_value(), i128::MAX);
    assert!(s.get_balance(&"b".to_string()).unwrap().get_history().is_empty());
}

#[test]
fn transfer_with_a_missing_or_repeated_account_is_refused() {
    let mut s = Storage::new();
    s.add_user("a".to_string());
    s.deposit(&"a".to_string(), 10).unwrap();
    assert_eq!(
        s.transfer(&"nobody".to_string(), &"a".to_string(), 1),
        Err(BalanceManagerError::UserNotFound("nobody".to_string()))
    );
    assert_eq!(
        s.transfer(&"a".to_string(), &"nobody".to_string(), 1),
        Err(BalanceManagerError::UserNotFound("nobody".to_string()))
    );
    assert_eq!(
        s.transfer(&"a".to_string(), &"a".to_string(), 1),
        Err(BalanceManagerError::UserNotFound("a".to_string()))
    );
    let a = s.get_balance(&"a".to_string()).unwrap();
    assert_eq!(a.get_value(), 10);
    assert_eq!(a.get_history().len(), 1);
}

#[test]
fn semicolons_in_descriptions_round_trip() {
    let mut b = Balance::default();
    let op = Operation::with_timestamp(1, 5, OperationType::Deposit(9), Some("rent; march".into()));
    assert_eq!(b.apply_op(op), Ok(()));
    let mut s = Storage::new();
    s.set_balance("Ann", b);
    let text = s.to_text();
    assert_eq!(text, "Ann;9,[1,5,D9,success,rent; march]\n");
    let back = Storage::from_text(&text).unwrap();
    assert_eq!(back.get_balance(&"Ann".to_string()), s.get_balance(&"Ann".to_string()));
}

#[test]
fn crlf_and_padded_lines_load() {
    let s = Storage::from_text("  Ivan;300,[] \r\nJulia;400,[1,1,D400,success,x]\r\n").unwrap();
    assert_eq!(s.get_balance(&"Ivan".to_string()), None);
    assert_eq!(s.get_balance(&"  Ivan".to_string()).unwrap().get_value(), 300);
    assert_eq!(s.get_balance(&"Julia".to_string()).unwrap().get_value(), 400);
    assert_eq!(s.get_all().len(), 2);
}

#[test]
fn refused_transfer_leaves_the_store_as_it_was() {
    let mut s = Storage::new();
    s.add_user("a".to_string());
    s.add_user("b".to_string());
    s.deposit(&"a".to_string(), 5).unwrap();
    let before = s.to_text();
    assert!(s.transfer(&"a".to_string(), &"b".to_string(), 6).is_err());
    assert_eq!(s.to_text(), before);
}

#[test]
fn names_with_leading_blanks_round_trip() {
    let mut s = Storage::new();
    s.add_user(" Bob".to_string());
    let text = s.to_text();
    assert_eq!(text, " Bob;0,[]\n");
    let back = Storage::from_text(&text).unwrap();
    assert_eq!(back.get_all().len(), 1);
    assert_eq!(back.get_balance(&" Bob".to_string()), s.get_balance(&" Bob".to_string()));
    assert_eq!(back.get_balance(&"Bob".to_string()), None);
}

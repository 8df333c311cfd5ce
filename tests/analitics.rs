use bank::analitics::Analitic;
use bank::storage::Storage;

fn get_storage() -> Storage {
    let mut storage = Storage::new();
    storage.add_user("a".into());
    storage.add_user("b".into());

    let _ = storage.deposit(&"a".into(), 15);
    let _ = storage.deposit(&"b".into(), 20);
    let _ = storage.withdraw(&"a".into(), 15);
    storage
}

#[test]
fn test_find_most_active_none() {
    let storage = Storage::new();
    assert_eq!(Analitic::find_most_active(&storage), None);
}

#[test]
fn test_find_most_active_some() {
    let storage = get_storage();
    let balance = storage.get_balance(&"a".into()).unwrap();
    assert_eq!(
        Analitic::find_most_active(&storage),
        Some(("a".into(), balance))
    );
}

#[test]
fn test_find_most_rich_none() {
    let storage = Storage::new();
    assert_eq!(Analitic::find_most_rich(&storage), None);
}

#[test]
fn test_find_most_rich_some() {
    let storage = get_storage();
    let balance = storage.get_balance(&"b".into()).unwrap();
    assert_eq!(
        Analitic::find_most_rich(&storage),
        Some(("b".into(), balance))
    );
}

#[test]
fn failed_attempts_do_not_count_as_activity() {
    let mut storage = Storage::new();
    storage.add_user("a".into());
    storage.add_user("b".into());
    let _ = storage.deposit(&"b".into(), 5);
    let _ = storage.withdraw(&"a".into(), 1000);
    let (name, _) = Analitic::find_most_active(&storage).unwrap();
    assert_eq!(name, "b");
}

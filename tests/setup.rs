use journal::{build_application, setup_database, EntryRead, ListEntriesParams, StoreError};

fn entry(id: u128, at: i64) -> EntryRead {
    EntryRead { id, message: format!("m{}", id), created_at: at, updated_at: at }
}

#[test]
fn loads_rows_newest_first() {
    let client = build_application(vec![entry(1, 10), entry(2, 30), entry(3, 20)]).unwrap();
    let all = client.entries_service.all(ListEntriesParams::default());
    assert_eq!(all.iter().map(|e| e.id).collect::<Vec<_>>(), vec![2, 3, 1]);
}

#[test]
fn loading_nothing_gives_an_empty_store() {
    let client = build_application(Vec::new()).unwrap();
    assert_eq!(client.entries_service.len(), 0);
}

#[test]
fn rows_sharing_an_id_are_refused() {
    let r = build_application(vec![entry(1, 10), entry(2, 20), entry(1, 30)]);
    assert_eq!(r.err().map(|_| ()), Some(()));
    assert!(matches!(build_application(vec![entry(7, 1), entry(7, 1)]), Err(StoreError::DuplicateId)));
}

#[test]
fn row_updated_before_created_is_refused() {
    let bad = EntryRead { id: 1, message: "x".to_string(), created_at: 5, updated_at: 4 };
    assert!(matches!(build_application(vec![bad]), Err(StoreError::InvalidArgument)));
}

#[test]
fn schema_names_the_table_and_columns() {
    let sql = setup_database();
    assert!(sql.starts_with("CREATE TABLE journal_entries ("));
    for col in ["id TEXT PRIMARY KEY", "message TEXT NOT NULL", "created_at DATETIME", "updated_at DATETIME"] {
        assert!(sql.contains(col), "{}", col);
    }
}

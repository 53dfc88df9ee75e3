use journal::{
    Client, EntriesService, EntryCreate, EntryDestroy, EntryRead, ListEntriesParams, StoreError,
};

fn entry(id: u128, message: &str, at: i64) -> EntryRead {
    EntryRead { id, message: message.to_string(), created_at: at, updated_at: at }
}

fn store_of(entries: Vec<EntryRead>) -> EntriesService {
    let mut store = EntriesService::new();
    for e in entries {
        store.insert_entry(e).unwrap();
    }
    store
}

fn ids(entries: &[EntryRead]) -> Vec<u128> {
    entries.iter().map(|e| e.id).collect()
}

#[test]
fn three_entries_paged_by_two() {
    let store = store_of(vec![entry(1, "first", 100), entry(2, "second", 200), entry(3, "third", 300)]);

    let page = store.list_entries(1, 2).unwrap();
    assert_eq!(ids(&page.items), vec![3, 2]);
    assert_eq!(page.items[0].message, "third");
    assert_eq!(page.total_items, 3);
    assert_eq!(page.total_pages, 2);
    assert_eq!(page.page, 1);

    let page = store.list_entries(2, 2).unwrap();
    assert_eq!(ids(&page.items), vec![1]);
    assert_eq!(page.items[0].message, "first");
    assert_eq!(page.total_pages, 2);
}

#[test]
fn insertion_order_does_not_matter() {
    let store = store_of(vec![entry(2, "b", 200), entry(3, "c", 300), entry(1, "a", 100), entry(4, "d", 200)]);
    let all = store.all(ListEntriesParams::default());
    assert_eq!(ids(&all), vec![3, 2, 4, 1]);
}

#[test]
fn pages_cover_every_entry_once() {
    let entries: Vec<EntryRead> = (0..7u128).map(|i| entry(i, "m", i as i64 * 10)).collect();
    let store = store_of(entries);
    for limit in 1..=9u32 {
        let first = store.list_entries(1, limit).unwrap();
        let expected_pages = (7 + limit as usize - 1) / limit as usize;
        assert_eq!(first.total_pages, expected_pages);
        let mut seen = Vec::new();
        for p in 1..=first.total_pages as u32 {
            seen.extend(ids(&store.list_entries(p, limit).unwrap().items));
        }
        assert_eq!(seen, vec![6, 5, 4, 3, 2, 1, 0]);
        assert!(store.list_entries(first.total_pages as u32 + 1, limit).unwrap().items.is_empty());
    }
}

#[test]
fn empty_store_has_no_pages() {
    let store = EntriesService::new();
    let page = store.list_entries(1, 10).unwrap();
    assert!(page.items.is_empty());
    assert_eq!(page.total_items, 0);
    assert_eq!(page.total_pages, 0);
}

#[test]
fn remainder_gets_its_own_page() {
    let store = store_of((0..5u128).map(|i| entry(i, "m", i as i64)).collect());
    assert_eq!(store.list_entries(1, 2).unwrap().total_pages, 3);
    assert_eq!(store.list_entries(1, 5).unwrap().total_pages, 1);
    assert_eq!(ids(&store.list_entries(3, 2).unwrap().items), vec![0]);
}

#[test]
fn largest_page_numbers_do_not_overflow() {
    let store = store_of(vec![entry(1, "a", 1)]);
    let page = store.list_entries(u32::MAX, u32::MAX).unwrap();
    assert!(page.items.is_empty());
    assert_eq!(page.total_pages, 1);
}

#[test]
fn zero_page_or_limit_is_invalid() {
    let store = store_of(vec![entry(1, "a", 1)]);
    assert_eq!(store.list_entries(0, 2).err(), Some(StoreError::InvalidArgument));
    assert_eq!(store.list_entries(1, 0).err(), Some(StoreError::InvalidArgument));
}

#[test]
fn since_filter_is_inclusive() {
    let store = store_of(vec![entry(1, "a", 100), entry(2, "b", 200), entry(3, "c", 300)]);
    assert_eq!(ids(&store.all(ListEntriesParams { since: Some(200) })), vec![3, 2]);
    assert_eq!(ids(&store.all(ListEntriesParams { since: Some(201) })), vec![3]);
    assert_eq!(ids(&store.all(ListEntriesParams { since: Some(301) })), Vec::<u128>::new());
    assert_eq!(ids(&store.all(ListEntriesParams { since: None })), vec![3, 2, 1]);
}

#[test]
fn deleting_twice_equals_deleting_once() {
    let mut once = store_of(vec![entry(1, "a", 100), entry(2, "b", 200)]);
    let mut twice = store_of(vec![entry(1, "a", 100), entry(2, "b", 200)]);
    once.delete_entry(EntryDestroy { id: 1 });
    twice.delete_entry(EntryDestroy { id: 1 });
    twice.delete_entry(EntryDestroy { id: 1 });
    let a = ids(&once.all(ListEntriesParams::default()));
    assert_eq!(a, vec![2]);
    assert_eq!(a, ids(&twice.all(ListEntriesParams::default())));
}

#[test]
fn deleting_unknown_id_changes_nothing() {
    let mut store = store_of(vec![entry(1, "a", 100)]);
    store.delete_entry(EntryDestroy { id: 42 });
    assert_eq!(store.len(), 1);
}

#[test]
fn destroy_all_empties_the_store() {
    let mut store = store_of(vec![entry(1, "a", 100), entry(2, "b", 200)]);
    store.destroy_all();
    assert_eq!(store.len(), 0);
    assert!(store.all(ListEntriesParams::default()).is_empty());
}

#[test]
fn duplicate_id_is_refused() {
    let mut store = store_of(vec![entry(1, "a", 100)]);
    assert_eq!(store.insert_entry(entry(1, "b", 300)), Err(StoreError::DuplicateId));
    assert_eq!(store.len(), 1);
}

#[test]
fn updated_before_created_is_refused() {
    let mut store = EntriesService::new();
    let e = EntryRead { id: 1, message: "a".to_string(), created_at: 10, updated_at: 9 };
    assert_eq!(store.insert_entry(e), Err(StoreError::InvalidArgument));
    assert_eq!(store.len(), 0);
}

#[test]
fn created_entries_get_distinct_ids_and_equal_stamps() {
    let mut client = Client::new(EntriesService::new());
    let mut made = Vec::new();
    for i in 0..50 {
        let e = client
            .entries_service
            .create_entry(EntryCreate { message: format!("note {}", i) })
            .unwrap();
        assert_eq!(e.created_at, e.updated_at);
        assert_eq!(e.message, format!("note {}", i));
        made.push(e.id);
    }
    let mut sorted = made.clone();
    sorted.sort();
    sorted.dedup();
    assert_eq!(sorted.len(), 50);
    let all = client.entries_service.all(ListEntriesParams::default());
    assert_eq!(all.len(), 50);
    for w in all.windows(2) {
        assert!(w[0].created_at >= w[1].created_at);
    }
}

#[test]
fn created_entry_is_stamped_now() {
    let mut store = EntriesService::new();
    let before = chrono::Utc::now().timestamp_micros();
    let e = store.create_entry(EntryCreate { message: "hi".to_string() }).unwrap();
    let after = chrono::Utc::now().timestamp_micros();
    assert!(before <= e.created_at && e.created_at <= after);
    assert_ne!(e.id, 0);
}

#[test]
fn create_on_empty_store_succeeds() {
    let mut store = EntriesService::new();
    let e = store.create_entry(EntryCreate { message: "first".to_string() }).unwrap();
    assert_eq!(store.len(), 1);
    let all = store.all(ListEntriesParams::default());
    assert_eq!(all[0].id, e.id);
    assert_eq!(all[0].message, "first");
}

//! Bringing a journal up: its table layout, and loading its stored rows into a store.
use vstd::prelude::*;

use crate::entries::{
    ids_distinct, is_insert_point, timestamps_ordered, Client, EntriesService, EntryRead,
    StoreError,
};

verus! {

/// The table that holds the entries: ids as UUID text, timestamps as RFC 3339 text.
pub open spec fn journal_schema() -> Seq<char> {
    "CREATE TABLE journal_entries (id TEXT PRIMARY KEY, message TEXT NOT NULL, created_at DATETIME DEFAULT CURRENT_TIMESTAMP, updated_at DATETIME DEFAULT CURRENT_TIMESTAMP);"@
}

/// The statement that creates the journal's table.
pub fn setup_database() -> (r: String)
    ensures
        r@ == journal_schema(),
{
    "CREATE TABLE journal_entries (id TEXT PRIMARY KEY, message TEXT NOT NULL, created_at DATETIME DEFAULT CURRENT_TIMESTAMP, updated_at DATETIME DEFAULT CURRENT_TIMESTAMP);".to_owned()
}

/// Loads stored rows into a fresh store and binds it for the front ends. Fails when two
/// rows share an id or a row was updated before it was created.
pub fn build_application(rows: Vec<EntryRead>) -> (r: Result<Client, StoreError>)
    ensures
        r is Ok <==> (ids_distinct(rows@) && timestamps_ordered(rows@)),
        r matches Ok(c) ==> {
            &&& c.entries_service.wf()
            &&& c.entries_service@.len() == rows@.len()
            &&& forall|x: EntryRead| c.entries_service@.contains(x) <==> rows@.contains(x)
        },
{
    let mut store = EntriesService::new();
    let mut i: usize = 0;
    while i < rows.len()
        invariant
            i <= rows@.len(),
            store.wf(),
            store@.len() == i,
            forall|j: int| 0 <= j < i ==> store@.contains(#[trigger] rows@[j]),
            forall|x: EntryRead| #[trigger] store@.contains(x) ==> rows@.take(i as int).contains(x),
            ids_distinct(rows@.take(i as int)),
            timestamps_ordered(rows@.take(i as int)),
        decreases rows@.len() - i,
    {
        let row = rows[i].duplicate();
        let ghost before = store@;
        let ghost prefix = rows@.take(i as int);
        let ghost next = rows@.take(i + 1);
        assert(next =~= prefix.push(row));
        match store.insert_entry(row) {
            Ok(()) => {
                proof {
                    let k = choose|k: int|
                        is_insert_point(before, row.created_at, k) && store@ == before.insert(
                            k,
                            row,
                        );
                    assert(store@[k] == row);
                    assert forall|j: int| 0 <= j < i + 1 implies store@.contains(
                        #[trigger] rows@[j],
                    ) by {
                        if j < i {
                            let m = choose|m: int| 0 <= m < before.len() && before[m] == rows@[j];
                            if m < k {
                                assert(store@[m] == before[m]);
                            } else {
                                assert(store@[m + 1] == before[m]);
                            }
                        }
                    }
                    assert forall|x: EntryRead| #[trigger] store@.contains(x) implies next.contains(
                        x,
                    ) by {
                        let m = choose|m: int| 0 <= m < store@.len() && store@[m] == x;
                        if m == k {
                            assert(next[i as int] == x);
                        } else {
                            let m0 = if m < k {
                                m
                            } else {
                                m - 1
                            };
                            assert(before[m0] == x);
                            assert(before.contains(x));
                            let j = choose|j: int| 0 <= j < prefix.len() && prefix[j] == x;
                            assert(next[j] == x);
                        }
                    }
                    assert forall|a: int, b: int|
                        0 <= a < next.len() && 0 <= b < next.len() && a != b implies next[a].id
                        != next[b].id by {
                        if a == i {
                            assert(before.contains(next[b]));
                            let m = choose|m: int| 0 <= m < before.len() && before[m] == next[b];
                            assert(before[m].id != row.id);
                        } else if b == i {
                            assert(before.contains(next[a]));
                            let m = choose|m: int| 0 <= m < before.len() && before[m] == next[a];
                            assert(before[m].id != row.id);
                        } else {
                            assert(prefix[a] == next[a] && prefix[b] == next[b]);
                        }
                    }
                    assert forall|a: int| 0 <= a < next.len() implies next[a].created_at
                        <= next[a].updated_at by {
                        if a < i {
                            assert(prefix[a] == next[a]);
                        }
                    }
                }
            },
            Err(e) => {
                proof {
                    assert(rows@[i as int] == row);
                    if e == StoreError::DuplicateId {
                        let m = choose|m: int| 0 <= m < before.len() && before[m].id == row.id;
                        assert(before.contains(before[m]));
                        let j = choose|j: int| 0 <= j < prefix.len() && prefix[j] == before[m];
                        assert(rows@[j] == prefix[j]);
                        assert(!ids_distinct(rows@));
                    } else {
                        assert(!timestamps_ordered(rows@));
                    }
                }
                return Err(e);
            },
        }
        i += 1;
    }
    assert(rows@.take(i as int) =~= rows@);
    Ok(Client::new(store))
}

} // verus!

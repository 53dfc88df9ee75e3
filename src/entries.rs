//! The entry store: entries kept newest first, with unique ids.
use vstd::prelude::*;

use crate::system::{fresh_id, now_micros};

verus! {

/// A stored journal entry. Timestamps are microseconds since the Unix epoch (UTC).
#[derive(Debug)]
pub struct EntryRead {
    pub id: u128,
    pub message: String,
    pub created_at: i64,
    pub updated_at: i64,
}

/// What a caller supplies to create an entry.
#[derive(Debug)]
pub struct EntryCreate {
    pub message: String,
}

/// Names the entry to delete.
#[derive(Debug, Clone, Copy)]
pub struct EntryDestroy {
    pub id: u128,
}

/// One page of entries with the pagination figures of the whole collection.
#[derive(Debug)]
pub struct EntryPagination {
    pub items: Vec<EntryRead>,
    pub total_items: usize,
    pub page: u32,
    pub total_pages: usize,
}

/// Filter for listing: when `since` is set, only entries created at or after it.
#[derive(Debug, Clone, Copy)]
pub struct ListEntriesParams {
    pub since: Option<i64>,
}

impl Default for ListEntriesParams {
    fn default() -> (r: ListEntriesParams)
        ensures
            r.since is None,
    {
        ListEntriesParams { since: None }
    }
}

#[derive(Debug, Clone, Copy, PartialEq, Eq, Structural)]
pub enum StoreError {
    /// A page or limit below one, or an entry updated before it was created.
    InvalidArgument,
    /// An entry with the same id is already stored.
    DuplicateId,
}

impl EntryRead {
    pub fn duplicate(&self) -> (r: EntryRead)
        ensures
            r == *self,
    {
        EntryRead {
            id: self.id,
            message: self.message.clone(),
            created_at: self.created_at,
            updated_at: self.updated_at,
        }
    }
}

/// Every entry is at least as recent as the ones after it.
pub open spec fn newest_first(s: Seq<EntryRead>) -> bool {
    forall|i: int, j: int| 0 <= i < j < s.len() ==> s[i].created_at >= s[j].created_at
}

/// No two positions hold the same id.
pub open spec fn ids_distinct(s: Seq<EntryRead>) -> bool {
    forall|i: int, j: int|
        0 <= i < s.len() && 0 <= j < s.len() && i != j ==> s[i].id != s[j].id
}

pub open spec fn timestamps_ordered(s: Seq<EntryRead>) -> bool {
    forall|i: int| 0 <= i < s.len() ==> s[i].created_at <= s[i].updated_at
}

pub open spec fn has_id(s: Seq<EntryRead>, id: u128) -> bool {
    exists|i: int| 0 <= i < s.len() && s[i].id == id
}

/// Where an entry created at `t` goes: after every entry at or after `t`,
/// before every older one.
pub open spec fn is_insert_point(s: Seq<EntryRead>, t: i64, k: int) -> bool {
    &&& 0 <= k <= s.len()
    &&& forall|i: int| 0 <= i < k ==> s[i].created_at >= t
    &&& forall|i: int| k <= i < s.len() ==> s[i].created_at < t
}

pub open spec fn since_pred(since: Option<i64>) -> spec_fn(EntryRead) -> bool {
    |e: EntryRead|
        match since {
            None => true,
            Some(t) => e.created_at >= t,
        }
}

pub open spec fn id_differs(id: u128) -> spec_fn(EntryRead) -> bool {
    |e: EntryRead| e.id != id
}

/// The collection after deleting `id`.
pub open spec fn without_id(s: Seq<EntryRead>, id: u128) -> Seq<EntryRead> {
    s.filter(id_differs(id))
}

pub open spec fn min_int(a: int, b: int) -> int {
    if a <= b {
        a
    } else {
        b
    }
}

/// Number of pages of `limit` entries that hold `n` entries: the ceiling of `n / limit`.
pub open spec fn total_pages_of(n: int, limit: int) -> int {
    n / limit + if n % limit == 0 {
        0int
    } else {
        1int
    }
}

/// Page `page` (from one) of `limit` entries of `s`.
pub open spec fn page_of(s: Seq<EntryRead>, page: int, limit: int) -> Seq<EntryRead> {
    s.subrange(min_int((page - 1) * limit, s.len() as int), min_int(page * limit, s.len() as int))
}

/// Pages one to `k`, one after the other.
pub open spec fn pages_upto(s: Seq<EntryRead>, limit: int, k: int) -> Seq<EntryRead>
    decreases k,
{
    if k <= 0 {
        Seq::empty()
    } else {
        pages_upto(s, limit, k - 1) + page_of(s, k, limit)
    }
}

/// Filtering keeps only entries of the original, in their order, with their ids distinct.
pub proof fn lemma_filter_sub(s: Seq<EntryRead>, p: spec_fn(EntryRead) -> bool)
    ensures
        forall|x: EntryRead| #[trigger] s.filter(p).contains(x) ==> s.contains(x) && p(x),
        newest_first(s) ==> newest_first(s.filter(p)),
        ids_distinct(s) ==> ids_distinct(s.filter(p)),
        timestamps_ordered(s) ==> timestamps_ordered(s.filter(p)),
    decreases s.len(),
{
    reveal(Seq::filter);
    if s.len() > 0 {
        let d = s.drop_last();
        let fd = d.filter(p);
        lemma_filter_sub(d, p);
        let f = s.filter(p);
        assert forall|x: EntryRead| f.contains(x) implies s.contains(x) && p(x) by {
            let i = choose|i: int| 0 <= i < f.len() && f[i] == x;
            if i < fd.len() {
                if p(s.last()) {
                    assert(f[i] == fd.push(s.last())[i]);
                }
                assert(fd[i] == x);
                assert(fd.contains(x));
                let j = choose|j: int| 0 <= j < d.len() && d[j] == x;
                assert(s[j] == d[j]);
            } else {
                assert(x == s.last());
            }
        }
        if p(s.last()) {
            assert(f == fd.push(s.last()));
            assert forall|i: int| 0 <= i < fd.len() implies #[trigger] fd[i] == f[i] && d.contains(
                fd[i],
            ) by {
                assert(fd.contains(fd[i]));
            }
            if newest_first(s) {
                assert forall|i: int, j: int| 0 <= i < j < f.len() implies f[i].created_at
                    >= f[j].created_at by {
                    if j == f.len() - 1 {
                        let k = choose|k: int| 0 <= k < d.len() && d[k] == fd[i];
                        assert(s[k] == f[i]);
                    } else {
                        assert(fd[i] == f[i] && fd[j] == f[j]);
                    }
                }
            }
            if ids_distinct(s) {
                assert forall|i: int, j: int|
                    0 <= i < f.len() && 0 <= j < f.len() && i != j implies f[i].id != f[j].id by {
                    if j == f.len() - 1 {
                        let k = choose|k: int| 0 <= k < d.len() && d[k] == fd[i];
                        assert(s[k] == f[i]);
                    } else if i == f.len() - 1 {
                        let k = choose|k: int| 0 <= k < d.len() && d[k] == fd[j];
                        assert(s[k] == f[j]);
                    } else {
                        assert(fd[i] == f[i] && fd[j] == f[j]);
                    }
                }
            }
            if timestamps_ordered(s) {
                assert forall|i: int| 0 <= i < f.len() implies f[i].created_at
                    <= f[i].updated_at by {
                    if i < f.len() - 1 {
                        assert(fd[i] == f[i]);
                    }
                }
            }
        } else {
            assert(f == fd);
        }
    }
}

/// An id that is not yet stored keeps the ids pairwise distinct when its entry is added,
/// so ids stay unique across any sequence of creations.
pub proof fn lemma_insert_keeps_ids_distinct(s: Seq<EntryRead>, e: EntryRead, k: int)
    requires
        ids_distinct(s),
        !has_id(s, e.id),
        0 <= k <= s.len(),
    ensures
        ids_distinct(s.insert(k, e)),
{
    let r = s.insert(k, e);
    assert forall|i: int, j: int|
        0 <= i < r.len() && 0 <= j < r.len() && i != j implies r[i].id != r[j].id by {
        if i == k {
            if j < k {
                assert(s[j] == r[j]);
            } else {
                assert(s[j - 1] == r[j]);
            }
        } else if j == k {
            if i < k {
                assert(s[i] == r[i]);
            } else {
                assert(s[i - 1] == r[i]);
            }
        }
    }
}

/// An entry lies in the listing since `t` exactly when it is stored and was created
/// at or after `t`.
pub proof fn lemma_since_filter(s: Seq<EntryRead>, t: i64, e: EntryRead)
    ensures
        s.filter(since_pred(Some(t))).contains(e) <==> (s.contains(e) && e.created_at >= t),
{
    lemma_filter_sub(s, since_pred(Some(t)));
    if s.contains(e) && e.created_at >= t {
        let i = choose|i: int| 0 <= i < s.len() && s[i] == e;
        s.lemma_filter_contains(since_pred(Some(t)), i);
    }
}

/// Filtering twice by the same predicate is filtering once.
proof fn lemma_filter_twice(s: Seq<EntryRead>, p: spec_fn(EntryRead) -> bool)
    ensures
        s.filter(p).filter(p) == s.filter(p),
    decreases s.len(),
{
    reveal(Seq::filter);
    if s.len() > 0 {
        let d = s.drop_last();
        lemma_filter_twice(d, p);
        let f = s.filter(p);
        if p(s.last()) {
            assert(f.drop_last() =~= d.filter(p));
        } else {
            assert(f == d.filter(p));
        }
    }
}

/// Deleting the same id twice leaves what deleting it once leaves.
pub proof fn lemma_delete_idempotent(s: Seq<EntryRead>, id: u128)
    ensures
        without_id(without_id(s, id), id) == without_id(s, id),
{
    lemma_filter_twice(s, id_differs(id));
}

/// Pages one to `k` are the first `k * limit` entries (or all of them).
proof fn lemma_pages_prefix(s: Seq<EntryRead>, limit: int, k: int)
    requires
        limit >= 1,
        k >= 0,
    ensures
        pages_upto(s, limit, k) =~= s.subrange(0, min_int(k * limit, s.len() as int)),
    decreases k,
{
    if k > 0 {
        lemma_pages_prefix(s, limit, k - 1);
        assert((k - 1) * limit + limit == k * limit) by (nonlinear_arith);
        assert(0 <= (k - 1) * limit <= k * limit) by (nonlinear_arith)
            requires
                k >= 1,
                limit >= 1,
        ;
        let a = min_int((k - 1) * limit, s.len() as int);
        let b = min_int(k * limit, s.len() as int);
        assert(s.subrange(0, a) + s.subrange(a, b) =~= s.subrange(0, b));
        assert(page_of(s, k, limit) == s.subrange(a, b));
        assert(pages_upto(s, limit, k) == pages_upto(s, limit, k - 1) + page_of(s, k, limit));
    } else {
        assert(k * limit == 0) by (nonlinear_arith)
            requires
                k == 0,
        ;
    }
}

/// The pages from one to the page count, put together, are the whole collection, each
/// entry once and in order; the page count is the ceiling of `n / limit`.
pub proof fn lemma_pages_cover(s: Seq<EntryRead>, limit: int)
    requires
        limit >= 1,
    ensures
        pages_upto(s, limit, total_pages_of(s.len() as int, limit)) == s,
        total_pages_of(s.len() as int, limit) * limit >= s.len(),
        (total_pages_of(s.len() as int, limit) - 1) * limit < s.len() || s.len() == 0,
{
    let n = s.len() as int;
    let q = n / limit;
    let m = n % limit;
    vstd::arithmetic::div_mod::lemma_fundamental_div_mod(n, limit);
    assert(0 <= m < limit);
    assert(q >= 0) by {
        vstd::arithmetic::div_mod::lemma_div_pos_is_pos(n, limit);
    }
    let k = total_pages_of(n, limit);
    assert(k * limit >= n && ((k - 1) * limit < n || n == 0)) by (nonlinear_arith)
        requires
            n == limit * q + m,
            0 <= m < limit,
            q >= 0,
            k == q + if m == 0 {
                0int
            } else {
                1int
            },
    ;
    lemma_pages_prefix(s, limit, k);
    assert(s.subrange(0, n) =~= s);
}

/// The journal's entries, newest first.
pub struct EntriesService {
    entries: Vec<EntryRead>,
}

impl View for EntriesService {
    type V = Seq<EntryRead>;

    closed spec fn view(&self) -> Seq<EntryRead> {
        self.entries@
    }
}

impl EntriesService {
    /// Entries are newest first, with distinct ids, each created no later than updated.
    pub open spec fn wf(&self) -> bool {
        &&& newest_first(self@)
        &&& ids_distinct(self@)
        &&& timestamps_ordered(self@)
    }

    pub fn new() -> (r: EntriesService)
        ensures
            r.wf(),
            r@ == Seq::<EntryRead>::empty(),
    {
        EntriesService { entries: Vec::new() }
    }

    pub fn len(&self) -> (r: usize)
        ensures
            r == self@.len(),
    {
        self.entries.len()
    }

    fn contains_id(&self, id: u128) -> (r: bool)
        ensures
            r == has_id(self@, id),
    {
        let mut i: usize = 0;
        while i < self.entries.len()
            invariant
                i <= self.entries.len(),
                forall|j: int| 0 <= j < i ==> self.entries@[j].id != id,
            decreases self.entries.len() - i,
        {
            if self.entries[i].id == id {
                return true;
            }
            i += 1;
        }
        false
    }

    /// Stores `entry` at its place by creation time, after entries created at the same time.
    pub fn insert_entry(&mut self, entry: EntryRead) -> (r: Result<(), StoreError>)
        requires
            old(self).wf(),
        ensures
            final(self).wf(),
            match r {
                Ok(()) => {
                    &&& entry.created_at <= entry.updated_at
                    &&& !has_id(old(self)@, entry.id)
                    &&& exists|k: int|
                        is_insert_point(old(self)@, entry.created_at, k) && final(self)@ == old(
                            self,
                        )@.insert(k, entry)
                },
                Err(e) => {
                    &&& final(self)@ == old(self)@
                    &&& e == StoreError::InvalidArgument <==> entry.created_at > entry.updated_at
                    &&& e == StoreError::DuplicateId <==> (entry.created_at <= entry.updated_at
                        && has_id(old(self)@, entry.id))
                },
            },
    {
        if entry.created_at > entry.updated_at {
            return Err(StoreError::InvalidArgument);
        }
        if self.contains_id(entry.id) {
            return Err(StoreError::DuplicateId);
        }
        let t = entry.created_at;
        let mut k: usize = 0;
        while k < self.entries.len() && self.entries[k].created_at >= t
            invariant
                k <= self.entries.len(),
                forall|i: int| 0 <= i < k ==> self.entries@[i].created_at >= t,
            decreases self.entries.len() - k,
        {
            k += 1;
        }
        let ghost s = self.entries@;
        assert(is_insert_point(s, t, k as int));
        proof {
            lemma_insert_keeps_ids_distinct(s, entry, k as int);
        }
        self.entries.insert(k, entry);
        let ghost r = self.entries@;
        assert(r == s.insert(k as int, entry));
        assert forall|i: int, j: int| 0 <= i < j < r.len() implies r[i].created_at
            >= r[j].created_at by {
            if i < k {
                if j < k {
                    assert(r[i] == s[i] && r[j] == s[j]);
                } else if j > k {
                    assert(r[i] == s[i] && r[j] == s[j - 1]);
                }
            } else if i == k {
                assert(r[j] == s[j - 1]);
            } else {
                assert(r[i] == s[i - 1] && r[j] == s[j - 1]);
            }
        }
        assert forall|i: int| 0 <= i < r.len() implies r[i].created_at <= r[i].updated_at by {
            if i < k {
                assert(r[i] == s[i]);
            } else if i > k {
                assert(r[i] == s[i - 1]);
            }
        }
        Ok(())
    }

    /// Creates an entry with a fresh random id, stamped with the current time.
    pub fn create_entry(&mut self, entry_create: EntryCreate) -> (r: Result<EntryRead, StoreError>)
        requires
            old(self).wf(),
        ensures
            final(self).wf(),
            match r {
                Ok(e) => {
                    &&& e.message == entry_create.message
                    &&& e.created_at == e.updated_at
                    &&& !has_id(old(self)@, e.id)
                    &&& exists|k: int|
                        is_insert_point(old(self)@, e.created_at, k) && final(self)@ == old(
                            self,
                        )@.insert(k, e)
                },
                Err(e) => e == StoreError::DuplicateId && final(self)@ == old(self)@,
            },
            old(self)@.len() == 0 ==> r is Ok,
    {
        let id = fresh_id();
        let now = now_micros();
        let entry = EntryRead { id, message: entry_create.message, created_at: now, updated_at: now };
        let created = entry.duplicate();
        match self.insert_entry(entry) {
            Ok(()) => Ok(created),
            Err(e) => Err(e),
        }
    }

    /// The page `page` (from one) of `limit` entries, newest first.
    pub fn list_entries(&self, page: u32, limit: u32) -> (r: Result<EntryPagination, StoreError>)
        requires
            self.wf(),
        ensures
            match r {
                Ok(p) => {
                    &&& page >= 1 && limit >= 1
                    &&& p.items@ == page_of(self@, page as int, limit as int)
                    &&& newest_first(p.items@)
                    &&& p.total_items == self@.len()
                    &&& p.page == page
                    &&& p.total_pages == total_pages_of(self@.len() as int, limit as int)
                },
                Err(e) => e == StoreError::InvalidArgument && (page == 0 || limit == 0),
            },
    {
        if page == 0 || limit == 0 {
            return Err(StoreError::InvalidArgument);
        }
        let n = self.entries.len();
        let lim = limit as u64;
        let before: u64 = page as u64 - 1;
        assert(before * lim <= 0xffff_ffffu64 * 0xffff_ffffu64) by (nonlinear_arith)
            requires
                before <= 0xffff_ffff,
                lim <= 0xffff_ffff,
        ;
        let start64: u64 = before * lim;
        assert(start64 + lim == page * limit) by (nonlinear_arith)
            requires
                start64 == (page - 1) * limit,
                lim == limit,
        ;
        assert(page * limit <= 0xffff_ffff * 0xffff_ffffu64) by (nonlinear_arith)
            requires
                page <= 0xffff_ffff,
                limit <= 0xffff_ffff,
        ;
        let end64: u64 = start64 + lim;
        let start: usize = if start64 >= n as u64 {
            n
        } else {
            start64 as usize
        };
        let end: usize = if end64 >= n as u64 {
            n
        } else {
            end64 as usize
        };
        let mut items: Vec<EntryRead> = Vec::new();
        let mut i: usize = start;
        while i < end
            invariant
                start <= i <= end,
                end <= n,
                n == self.entries@.len(),
                items@ == self.entries@.subrange(start as int, i as int),
            decreases end - i,
        {
            items.push(self.entries[i].duplicate());
            i += 1;
            assert(items@ =~= self.entries@.subrange(start as int, i as int));
        }
        let l = limit as usize;
        let q = n / l;
        let m = n % l;
        let total_pages: usize = if m == 0 {
            q
        } else {
            proof {
                vstd::arithmetic::div_mod::lemma_fundamental_div_mod(n as int, l as int);
            }
            assert(2 * q <= n) by (nonlinear_arith)
                requires
                    n == l * q + m,
                    m > 0,
                    l >= 2,
                    q >= 0,
            ;
            q + 1
        };
        assert forall|a: int, b: int| 0 <= a < b < items@.len() implies items@[a].created_at
            >= items@[b].created_at by {
            assert(items@[a] == self@[start + a] && items@[b] == self@[start + b]);
        }
        Ok(EntryPagination { items, total_items: n, page, total_pages })
    }

    /// Every entry, newest first; with `since` set, only those created at or after it.
    pub fn all(&self, params: ListEntriesParams) -> (r: Vec<EntryRead>)
        requires
            self.wf(),
        ensures
            r@ == self@.filter(since_pred(params.since)),
            newest_first(r@),
    {
        let ghost p = since_pred(params.since);
        let mut result: Vec<EntryRead> = Vec::new();
        let mut i: usize = 0;
        while i < self.entries.len()
            invariant
                i <= self.entries.len(),
                result@ == self.entries@.take(i as int).filter(p),
                p == since_pred(params.since),
            decreases self.entries.len() - i,
        {
            let keep = match params.since {
                None => true,
                Some(t) => self.entries[i].created_at >= t,
            };
            let ghost before = self.entries@.take(i as int);
            proof {
                reveal(Seq::filter);
            }
            if keep {
                result.push(self.entries[i].duplicate());
            }
            i += 1;
            assert(self.entries@.take(i as int).drop_last() =~= before);
        }
        assert(self.entries@.take(i as int) =~= self.entries@);
        proof {
            lemma_filter_sub(self@, p);
        }
        result
    }

    /// Removes the entry with the given id; an id that is not stored changes nothing.
    pub fn delete_entry(&mut self, entry_destroy: EntryDestroy)
        requires
            old(self).wf(),
        ensures
            final(self).wf(),
            final(self)@ == without_id(old(self)@, entry_destroy.id),
    {
        let id = entry_destroy.id;
        let ghost p = id_differs(id);
        let mut kept: Vec<EntryRead> = Vec::new();
        let mut i: usize = 0;
        while i < self.entries.len()
            invariant
                i <= self.entries.len(),
                kept@ == self.entries@.take(i as int).filter(p),
                p == id_differs(id),
            decreases self.entries.len() - i,
        {
            let ghost before = self.entries@.take(i as int);
            proof {
                reveal(Seq::filter);
            }
            if self.entries[i].id != id {
                kept.push(self.entries[i].duplicate());
            }
            i += 1;
            assert(self.entries@.take(i as int).drop_last() =~= before);
        }
        assert(self.entries@.take(i as int) =~= self.entries@);
        proof {
            lemma_filter_sub(self@, p);
        }
        self.entries = kept;
    }

    /// Removes every entry.
    pub fn destroy_all(&mut self)
        ensures
            final(self).wf(),
            final(self)@ == Seq::<EntryRead>::empty(),
    {
        self.entries = Vec::new();
    }
}

/// Binds one entry store for the journal's front ends.
pub struct Client {
    pub entries_service: EntriesService,
}

impl Client {
    pub fn new(entries_service: EntriesService) -> (r: Client)
        ensures
            r.entries_service@ == entries_service@,
    {
        Client { entries_service }
    }
}

} // verus!

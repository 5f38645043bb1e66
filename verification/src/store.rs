//! The embedded storage engine: a record store with its derived index cache.
//!
//! `MemoryStore` keeps every accepted row in order of acceptance and, beside
//! it, one cache entry per (user, host, tag) stream holding the highest index
//! ever accepted for that stream. Well-formedness ties the two together: the
//! cache entry for a stream always equals the authoritative maximum over the
//! stored rows, so the cache may be read as a hint while the full aggregation
//! stays the ground truth.

use vstd::prelude::*;

use crate::error::{DbError, DbResult};
use crate::model::{
    batch_max, cache_get, cache_unique, has_key, has_row, heads_get, heads_unique, ingest,
    insert_one, lemma_cache_get_at, lemma_cache_get_exists_some, lemma_cache_get_none,
    lemma_cache_get_some, lemma_cache_get_update, lemma_has_key_push, lemma_has_row_push,
    lemma_heads_get_at, lemma_heads_get_none, lemma_heads_get_some, lemma_heads_get_update,
    lemma_ingest_unique, lemma_stream_max_absent_user, lemma_stream_max_ingest, merge_opt,
    returned_has, row_has_key, row_in_stream, rows_unique, same_cache_key, same_head_key,
    same_row_key, start_or_zero, stream_max, CacheView, HeadView, StoredView,
};
use crate::record::{batch_view, HostId, Record, RecordIdx, RecordView};
use crate::status::{find_head, heads_view, RecordStatus, StreamHead};

verus! {

/// One accepted row: the owning user account and the record itself.
#[derive(Debug)]
pub struct UserRecord {
    pub user: i64,
    pub record: Record,
}

impl View for UserRecord {
    type V = StoredView;

    open spec fn view(&self) -> StoredView {
        StoredView { user: self.user, rec: self.record@ }
    }
}

/// One cache row: the highest index ever accepted for (user, host, tag).
#[derive(Debug)]
pub struct CacheEntry {
    pub user: i64,
    pub host: HostId,
    pub tag: String,
    pub idx: u64,
}

impl View for CacheEntry {
    type V = CacheView;

    open spec fn view(&self) -> CacheView {
        CacheView { user: self.user, host: self.host.0 as u128, tag: self.tag@, idx: self.idx }
    }
}

impl Clone for UserRecord {
    fn clone(&self) -> (r: Self)
        ensures
            r@ == self@,
    {
        UserRecord { user: self.user, record: self.record.clone() }
    }
}

impl Clone for CacheEntry {
    fn clone(&self) -> (r: Self)
        ensures
            r@ == self@,
    {
        CacheEntry { user: self.user, host: self.host, tag: self.tag.clone(), idx: self.idx }
    }
}

/// The view of a row list, row by row.
pub open spec fn rows_of(records: Seq<UserRecord>) -> Seq<StoredView> {
    records.map_values(|r: UserRecord| r@)
}

/// The view of a cache list, entry by entry.
pub open spec fn cache_of(cache: Seq<CacheEntry>) -> Seq<CacheView> {
    cache.map_values(|e: CacheEntry| e@)
}

/// The embedded engine: append-only record rows plus the derived cache.
#[derive(Debug)]
pub struct MemoryStore {
    pub records: Vec<UserRecord>,
    pub cache: Vec<CacheEntry>,
}

impl MemoryStore {
    /// The stored rows, in order of acceptance.
    pub open spec fn rows_view(self) -> Seq<StoredView> {
        rows_of(self.records@)
    }

    /// The cache rows.
    pub open spec fn cache_view(self) -> Seq<CacheView> {
        cache_of(self.cache@)
    }

    /// Well-formedness: natural identities are unique, cache keys are unique,
    /// and every cache lookup equals the authoritative stream maximum.
    pub open spec fn wf(self) -> bool {
        &&& rows_unique(self.rows_view())
        &&& cache_unique(self.cache_view())
        &&& forall|u: i64, h: u128, t: Seq<char>|
            #[trigger] cache_get(self.cache_view(), u, h, t) == stream_max(
                self.rows_view(),
                u,
                h,
                t,
            )
    }

    /// An empty store.
    pub fn new() -> (r: MemoryStore)
        ensures
            r.wf(),
            r.rows_view() == Seq::<StoredView>::empty(),
            r.cache_view() == Seq::<CacheView>::empty(),
    {
        let r = MemoryStore { records: Vec::new(), cache: Vec::new() };
        proof {
            assert(r.rows_view() =~= Seq::<StoredView>::empty());
            assert(r.cache_view() =~= Seq::<CacheView>::empty());
        }
        r
    }
}

/// Is a row with this natural identity already stored?
fn contains_key(records: &Vec<UserRecord>, user: i64, host: HostId, tag: &String, idx: u64) -> (r:
    bool)
    ensures
        r == has_key(rows_of(records@), user, host.0 as u128, tag@, idx),
{
    let ghost rowsv = rows_of(records@);
    let mut j: usize = 0;
    while j < records.len()
        invariant
            j <= records.len(),
            rowsv == rows_of(records@),
            forall|k: int|
                0 <= k < j ==> !row_has_key(#[trigger] rowsv[k], user, host.0 as u128, tag@, idx),
        decreases records.len() - j,
    {
        let row = &records[j];
        if row.user == user && row.record.host == host && row.record.idx == idx && row.record.tag
            == *tag {
            proof {
                assert(row_has_key(rowsv[j as int], user, host.0 as u128, tag@, idx));
            }
            return true;
        }
        proof {
            assert(rowsv[j as int] == records@[j as int]@);
        }
        j += 1;
    }
    proof {
        if has_key(rowsv, user, host.0 as u128, tag@, idx) {
            let k = choose|k: int|
                0 <= k < rowsv.len() && row_has_key(rowsv[k], user, host.0 as u128, tag@, idx);
            assert(!row_has_key(rowsv[k], user, host.0 as u128, tag@, idx));
        }
    }
    false
}

/// Finds the cache entry for (user, host, tag), if one is there.
fn find_cache(cache: &Vec<CacheEntry>, user: i64, host: HostId, tag: &String) -> (r: Option<usize>)
    ensures
        match r {
            Some(p) => p < cache.len() && cache_of(cache@)[p as int].user == user && cache_of(
                cache@,
            )[p as int].host == host.0 && cache_of(cache@)[p as int].tag == tag@,
            None => forall|j: int|
                0 <= j < cache.len() ==> !((#[trigger] cache_of(cache@)[j]).user == user
                    && cache_of(cache@)[j].host == host.0 && cache_of(cache@)[j].tag == tag@),
        },
{
    let ghost cachev = cache_of(cache@);
    let mut j: usize = 0;
    while j < cache.len()
        invariant
            j <= cache.len(),
            cachev == cache_of(cache@),
            forall|k: int|
                0 <= k < j ==> !((#[trigger] cachev[k]).user == user && cachev[k].host == host.0
                    && cachev[k].tag == tag@),
        decreases cache.len() - j,
    {
        let e = &cache[j];
        if e.user == user && e.host == host && e.tag == *tag {
            proof {
                assert(cachev[j as int] == cache@[j as int]@);
            }
            return Some(j);
        }
        proof {
            assert(cachev[j as int] == cache@[j as int]@);
        }
        j += 1;
    }
    None
}

/// The in-batch running maxima, one summary entry per (host, tag) the batch
/// touches, built in one pass over the batch and with no read of the store.
pub fn batch_heads(records: &Vec<Record>) -> (heads: Vec<StreamHead>)
    ensures
        heads_unique(heads_view(heads@)),
        forall|h: u128, t: Seq<char>|
            #[trigger] heads_get(heads_view(heads@), h, t) == batch_max(
                batch_view(records@),
                h,
                t,
            ),
{
    let ghost bviews = batch_view(records@);
    let mut heads: Vec<StreamHead> = Vec::new();
    proof {
        assert(heads_view(heads@) =~= Seq::<HeadView>::empty());
        assert(bviews.take(0) =~= Seq::<crate::record::RecordView>::empty());
    }
    let mut i: usize = 0;
    while i < records.len()
        invariant
            i <= records.len(),
            bviews == batch_view(records@),
            heads_unique(heads_view(heads@)),
            forall|h: u128, t: Seq<char>|
                #[trigger] heads_get(heads_view(heads@), h, t) == batch_max(
                    bviews.take(i as int),
                    h,
                    t,
                ),
        decreases records.len() - i,
    {
        let rec = &records[i];
        let ghost prevheads = heads_view(heads@);
        let ghost rv = rec@;
        proof {
            assert(bviews[i as int] == records@[i as int]@);
            assert(bviews.take(i + 1).drop_last() =~= bviews.take(i as int));
            assert(bviews.take(i + 1).last() == rv);
        }
        match find_head(&heads, rec.host, &rec.tag) {
            Some(p) => {
                let cur = heads[p].idx;
                let v = if rec.idx > cur {
                    rec.idx
                } else {
                    cur
                };
                let ghost newv = HeadView { host: rv.host, tag: rv.tag, idx: v };
                let e = StreamHead { host: rec.host, tag: rec.tag.clone(), idx: v };
                proof {
                    assert(same_head_key(prevheads[p as int], newv));
                    lemma_heads_get_at(prevheads, p as int);
                }
                heads[p] = e;
                proof {
                    assert(heads_view(heads@) =~= prevheads.update(p as int, newv));
                    assert forall|h: u128, t: Seq<char>|
                        #[trigger] heads_get(heads_view(heads@), h, t) == batch_max(
                            bviews.take(i + 1),
                            h,
                            t,
                        ) by {
                        lemma_heads_get_update(prevheads, p as int, newv, h, t);
                    }
                    lemma_heads_get_update(prevheads, p as int, newv, newv.host, newv.tag);
                }
            },
            None => {
                let e = StreamHead { host: rec.host, tag: rec.tag.clone(), idx: rec.idx };
                let ghost newv = HeadView { host: rv.host, tag: rv.tag, idx: rv.idx };
                heads.push(e);
                proof {
                    assert(heads_view(heads@) =~= prevheads.push(newv));
                    assert(heads_view(heads@).drop_last() =~= prevheads);
                    assert forall|j1: int, j2: int|
                        0 <= j1 < j2 < heads_view(heads@).len() implies !same_head_key(
                        heads_view(heads@)[j1],
                        heads_view(heads@)[j2],
                    ) by {
                        if j2 < prevheads.len() {
                            assert(heads_view(heads@)[j1] == prevheads[j1]);
                            assert(heads_view(heads@)[j2] == prevheads[j2]);
                        } else {
                            assert(heads_view(heads@)[j1] == prevheads[j1]);
                            assert(heads_view(heads@)[j2] == newv);
                        }
                    }
                    lemma_heads_get_none(prevheads, rv.host, rv.tag);
                    assert forall|h: u128, t: Seq<char>|
                        #[trigger] heads_get(heads_view(heads@), h, t) == batch_max(
                            bviews.take(i + 1),
                            h,
                            t,
                        ) by {
                        if h == rv.host && t == rv.tag {
                            assert(heads_get(heads_view(heads@), h, t) == Some(rv.idx));
                        } else {
                            assert(heads_get(heads_view(heads@), h, t) == heads_get(
                                prevheads,
                                h,
                                t,
                            ));
                            assert(batch_max(bviews.take(i + 1), h, t) == batch_max(
                                bviews.take(i as int),
                                h,
                                t,
                            ));
                        }
                    }
                }
            },
        }
        i += 1;
    }
    proof {
        assert(bviews.take(records.len() as int) =~= bviews);
    }
    heads
}

impl MemoryStore {
    /// Accepts a batch of records for one user, as a single atomic unit:
    /// every record is inserted idempotently (a natural identity already
    /// stored is a silent no-op), and the per-stream maxima of the batch are
    /// merged into the cache with an insert-or-update-to-max per touched
    /// stream. Never fails in this engine.
    pub fn add_records(&mut self, user: i64, records: &Vec<Record>) -> (r: DbResult<()>)
        requires
            old(self).wf(),
        ensures
            r is Ok,
            final(self).wf(),
            final(self).rows_view() == ingest(
                old(self).rows_view(),
                user,
                batch_view(records@),
            ),
            forall|u2: i64, h: u128, t: Seq<char>|
                #[trigger] cache_get(final(self).cache_view(), u2, h, t) == (if u2 == user {
                    merge_opt(
                        cache_get(old(self).cache_view(), u2, h, t),
                        batch_max(batch_view(records@), h, t),
                    )
                } else {
                    cache_get(old(self).cache_view(), u2, h, t)
                }),
    {
        let ghost old_rows = self.rows_view();
        let ghost old_cache = self.cache_view();
        let ghost bviews = batch_view(records@);

        // In-batch per-stream maxima, one pass, no read of the store.
        let heads = batch_heads(records);
        let ghost headsv = heads_view(heads@);

        // Idempotent inserts, record by record.
        proof {
            assert(bviews.take(0) =~= Seq::<crate::record::RecordView>::empty());
        }
        let mut i: usize = 0;
        while i < records.len()
            invariant
                i <= records.len(),
                bviews == batch_view(records@),
                self.cache_view() == old_cache,
                self.rows_view() == ingest(old_rows, user, bviews.take(i as int)),
            decreases records.len() - i,
        {
            let rec = &records[i];
            let ghost prevrows = self.rows_view();
            proof {
                assert(bviews[i as int] == records@[i as int]@);
                assert(bviews.take(i + 1).drop_last() =~= bviews.take(i as int));
                assert(bviews.take(i + 1).last() == bviews[i as int]);
            }
            if !contains_key(&self.records, user, rec.host, &rec.tag, rec.idx) {
                let copied = rec.clone();
                self.records.push(UserRecord { user, record: copied });
                proof {
                    assert(self.rows_view() =~= prevrows.push(StoredView { user, rec: rec@ }));
                }
            }
            proof {
                assert(self.rows_view() == insert_one(prevrows, user, bviews[i as int]));
            }
            i += 1;
        }
        proof {
            assert(bviews.take(records.len() as int) =~= bviews);
        }
        let ghost new_rows = self.rows_view();

        // Merge the maxima into the cache, one upsert per touched stream.
        proof {
            assert(headsv.take(0) =~= Seq::<HeadView>::empty());
        }
        let mut k: usize = 0;
        while k < heads.len()
            invariant
                k <= heads.len(),
                headsv == heads_view(heads@),
                heads_unique(headsv),
                self.rows_view() == new_rows,
                cache_unique(self.cache_view()),
                forall|u2: i64, h: u128, t: Seq<char>|
                    #[trigger] cache_get(self.cache_view(), u2, h, t) == (if u2 == user {
                        merge_opt(cache_get(old_cache, u2, h, t), heads_get(headsv.take(k as int), h, t))
                    } else {
                        cache_get(old_cache, u2, h, t)
                    }),
            decreases heads.len() - k,
        {
            let e = &heads[k];
            let ghost ev = headsv[k as int];
            let ghost prevcache = self.cache_view();
            proof {
                assert(ev == heads@[k as int]@);
                assert(headsv.take(k + 1).drop_last() =~= headsv.take(k as int));
                assert(headsv.take(k + 1).last() == ev);
                // The key of entry k is new among the first k entries.
                assert forall|j: int| 0 <= j < headsv.take(k as int).len() implies !((
                #[trigger] headsv.take(k as int)[j]).host == ev.host && headsv.take(k as int)[j].tag
                    == ev.tag) by {
                    assert(headsv.take(k as int)[j] == headsv[j]);
                    assert(!same_head_key(headsv[j], headsv[k as int]));
                }
                lemma_heads_get_none(headsv.take(k as int), ev.host, ev.tag);
            }
            match find_cache(&self.cache, user, e.host, &e.tag) {
                Some(p) => {
                    let cur = self.cache[p].idx;
                    let v = if e.idx > cur {
                        e.idx
                    } else {
                        cur
                    };
                    let ghost newv = CacheView { user, host: ev.host, tag: ev.tag, idx: v };
                    let entry = CacheEntry { user, host: e.host, tag: e.tag.clone(), idx: v };
                    proof {
                        assert(same_cache_key(prevcache[p as int], newv));
                        lemma_cache_get_at(prevcache, p as int);
                    }
                    self.cache[p] = entry;
                    proof {
                        assert(self.cache_view() =~= prevcache.update(p as int, newv));
                        assert forall|u2: i64, h: u128, t: Seq<char>|
                            #[trigger] cache_get(self.cache_view(), u2, h, t) == (if u2 == user {
                                merge_opt(
                                    cache_get(old_cache, u2, h, t),
                                    heads_get(headsv.take(k + 1), h, t),
                                )
                            } else {
                                cache_get(old_cache, u2, h, t)
                            }) by {
                            lemma_cache_get_update(prevcache, p as int, newv, u2, h, t);
                        }
                        lemma_cache_get_update(prevcache, p as int, newv, user, ev.host, ev.tag);
                    }
                },
                None => {
                    let ghost newv = CacheView { user, host: ev.host, tag: ev.tag, idx: ev.idx };
                    let entry = CacheEntry { user, host: e.host, tag: e.tag.clone(), idx: e.idx };
                    proof {
                        lemma_cache_get_none(prevcache, user, ev.host, ev.tag);
                    }
                    self.cache.push(entry);
                    proof {
                        assert(self.cache_view() =~= prevcache.push(newv));
                        assert(self.cache_view().drop_last() =~= prevcache);
                        assert forall|j1: int, j2: int|
                            0 <= j1 < j2 < self.cache_view().len() implies !same_cache_key(
                            self.cache_view()[j1],
                            self.cache_view()[j2],
                        ) by {
                            if j2 < prevcache.len() {
                                assert(self.cache_view()[j1] == prevcache[j1]);
                                assert(self.cache_view()[j2] == prevcache[j2]);
                            } else {
                                assert(self.cache_view()[j1] == prevcache[j1]);
                                assert(self.cache_view()[j2] == newv);
                            }
                        }
                        assert forall|u2: i64, h: u128, t: Seq<char>|
                            #[trigger] cache_get(self.cache_view(), u2, h, t) == (if u2 == user {
                                merge_opt(
                                    cache_get(old_cache, u2, h, t),
                                    heads_get(headsv.take(k + 1), h, t),
                                )
                            } else {
                                cache_get(old_cache, u2, h, t)
                            }) by {
                            if u2 == user && h == ev.host && t == ev.tag {
                                assert(cache_get(self.cache_view(), u2, h, t) == Some(ev.idx));
                            } else {
                                assert(cache_get(self.cache_view(), u2, h, t) == cache_get(
                                    prevcache,
                                    u2,
                                    h,
                                    t,
                                ));
                                if u2 == user {
                                    assert(heads_get(headsv.take(k + 1), h, t) == heads_get(
                                        headsv.take(k as int),
                                        h,
                                        t,
                                    ));
                                }
                            }
                        }
                    }
                },
            }
            k += 1;
        }
        proof {
            assert(headsv.take(heads.len() as int) =~= headsv);
            // Well-formedness: every cache lookup equals the new stream maximum.
            lemma_ingest_unique(old_rows, user, bviews);
            assert forall|u2: i64, h: u128, t: Seq<char>|
                #[trigger] cache_get(self.cache_view(), u2, h, t) == stream_max(
                    self.rows_view(),
                    u2,
                    h,
                    t,
                ) by {
                lemma_stream_max_ingest(old_rows, user, bviews, u2, h, t);
                assert(cache_get(old_cache, u2, h, t) == stream_max(old_rows, u2, h, t));
            }
        }
        Ok(())
    }
}

/// Finds the stored row of the stream with the smallest index at least
/// `bound`, if the stream still holds one there.
fn find_min_at_least(
    records: &Vec<UserRecord>,
    user: i64,
    host: HostId,
    tag: &String,
    bound: u64,
) -> (r: Option<usize>)
    ensures
        match r {
            Some(p) => {
                &&& p < records.len()
                &&& row_in_stream(rows_of(records@)[p as int], user, host.0 as u128, tag@)
                &&& rows_of(records@)[p as int].rec.idx >= bound
                &&& forall|j: int|
                    0 <= j < records.len() && row_in_stream(
                        #[trigger] rows_of(records@)[j],
                        user,
                        host.0 as u128,
                        tag@,
                    ) && rows_of(records@)[j].rec.idx >= bound ==> rows_of(records@)[j].rec.idx
                        >= rows_of(records@)[p as int].rec.idx
            },
            None => forall|j: int|
                0 <= j < records.len() ==> !(row_in_stream(
                    #[trigger] rows_of(records@)[j],
                    user,
                    host.0 as u128,
                    tag@,
                ) && rows_of(records@)[j].rec.idx >= bound),
        },
{
    let ghost rowsv = rows_of(records@);
    let mut best: Option<usize> = None;
    let mut j: usize = 0;
    while j < records.len()
        invariant
            j <= records.len(),
            rowsv == rows_of(records@),
            match best {
                Some(p) => {
                    &&& (p as int) < j
                    &&& row_in_stream(rowsv[p as int], user, host.0 as u128, tag@)
                    &&& rowsv[p as int].rec.idx >= bound
                    &&& forall|k: int|
                        0 <= k < j && row_in_stream(
                            #[trigger] rowsv[k],
                            user,
                            host.0 as u128,
                            tag@,
                        ) && rowsv[k].rec.idx >= bound ==> rowsv[k].rec.idx >= rowsv[p as int].rec.idx
                },
                None => forall|k: int|
                    0 <= k < j ==> !(row_in_stream(#[trigger] rowsv[k], user, host.0 as u128, tag@)
                        && rowsv[k].rec.idx >= bound),
            },
        decreases records.len() - j,
    {
        let row = &records[j];
        proof {
            assert(rowsv[j as int] == records@[j as int]@);
        }
        if row.user == user && row.record.host == host && row.record.idx >= bound
            && row.record.tag == *tag {
            let better = match best {
                None => true,
                Some(p) => row.record.idx < records[p].record.idx,
            };
            if better {
                best = Some(j);
            }
        }
        j += 1;
    }
    best
}

/// The cache value recorded for (user, host, tag), scanning from the end so
/// the reply equals the ghost lookup exactly, entries unique or not.
fn cache_lookup(cache: &Vec<CacheEntry>, user: i64, host: HostId, tag: &String) -> (r: Option<u64>)
    ensures
        r == cache_get(cache_of(cache@), user, host.0 as u128, tag@),
{
    let ghost cv = cache_of(cache@);
    let mut j: usize = cache.len();
    proof {
        assert(cv.take(cache.len() as int) =~= cv);
    }
    while j > 0
        invariant
            j <= cache.len(),
            cv == cache_of(cache@),
            cache_get(cv, user, host.0 as u128, tag@) == cache_get(
                cv.take(j as int),
                user,
                host.0 as u128,
                tag@,
            ),
        decreases j,
    {
        let e = &cache[j - 1];
        proof {
            assert(cv.take(j as int).drop_last() =~= cv.take(j - 1));
            assert(cv.take(j as int).last() == cv[j - 1]);
            assert(cv[j - 1] == cache@[j - 1]@);
        }
        if e.user == user && e.host == host && e.tag == *tag {
            return Some(e.idx);
        }
        j -= 1;
    }
    proof {
        assert(cv.take(0) =~= Seq::<CacheView>::empty());
    }
    None
}

impl MemoryStore {
    /// Serves the paging cursor for one stream: the records of (user, host,
    /// tag) with index at least `start` (zero when absent), ascending by
    /// index, at most `count` of them, each exactly as stored. A stream with
    /// no matching row is a successful empty reply, never the absence error.
    pub fn next_records(
        &self,
        user: i64,
        host: HostId,
        tag: String,
        start: Option<RecordIdx>,
        count: u64,
    ) -> (r: DbResult<Vec<Record>>)
        ensures
            r is Ok,
            batch_view(r->Ok_0@).len() <= count,
            forall|k: int|
                0 <= k < batch_view(r->Ok_0@).len() ==> {
                    &&& has_row(self.rows_view(), user, #[trigger] batch_view(r->Ok_0@)[k])
                    &&& batch_view(r->Ok_0@)[k].host == host.0
                    &&& batch_view(r->Ok_0@)[k].tag == tag@
                    &&& batch_view(r->Ok_0@)[k].idx >= start_or_zero(start)
                },
            forall|k1: int, k2: int|
                0 <= k1 < k2 < batch_view(r->Ok_0@).len() ==> (#[trigger] batch_view(
                    r->Ok_0@,
                )[k1]).idx < (#[trigger] batch_view(r->Ok_0@)[k2]).idx,
            batch_view(r->Ok_0@).len() < count ==> forall|i: u64|
                #[trigger] has_key(self.rows_view(), user, host.0 as u128, tag@, i) && i
                    >= start_or_zero(start) ==> returned_has(batch_view(r->Ok_0@), i),
            batch_view(r->Ok_0@).len() == count && count > 0 ==> forall|i: u64|
                #[trigger] has_key(self.rows_view(), user, host.0 as u128, tag@, i)
                    && start_or_zero(start) <= i <= batch_view(r->Ok_0@).last().idx
                    ==> returned_has(batch_view(r->Ok_0@), i),
    {
        let ghost rowsv = self.rows_view();
        let ghost t = tag@;
        let ghost s0 = start_or_zero(start);
        let start0: u64 = match start {
            Some(s) => s,
            None => 0,
        };
        let mut out: Vec<Record> = Vec::new();
        let mut bound: u64 = start0;
        proof {
            assert(batch_view(out@) =~= Seq::<RecordView>::empty());
        }
        loop
            invariant_except_break
                forall|k: int|
                    0 <= k < batch_view(out@).len() ==> {
                        &&& has_row(rowsv, user, #[trigger] batch_view(out@)[k])
                        &&& batch_view(out@)[k].host == host.0
                        &&& batch_view(out@)[k].tag == t
                        &&& batch_view(out@)[k].idx >= s0
                        &&& batch_view(out@)[k].idx < bound
                    },
            invariant
                rowsv == self.rows_view(),
                s0 == start_or_zero(start),
                start0 == s0,
                t == tag@,
                start0 <= bound,
                batch_view(out@).len() <= count,
                forall|k1: int, k2: int|
                    0 <= k1 < k2 < batch_view(out@).len() ==> (#[trigger] batch_view(
                        out@,
                    )[k1]).idx < (#[trigger] batch_view(out@)[k2]).idx,
                forall|i: u64|
                    s0 <= i < bound && #[trigger] has_key(rowsv, user, host.0 as u128, t, i)
                        ==> returned_has(batch_view(out@), i),
            ensures
                batch_view(out@).len() <= count,
                forall|k: int|
                    0 <= k < batch_view(out@).len() ==> {
                        &&& has_row(rowsv, user, #[trigger] batch_view(out@)[k])
                        &&& batch_view(out@)[k].host == host.0
                        &&& batch_view(out@)[k].tag == t
                        &&& batch_view(out@)[k].idx >= s0
                    },
                forall|k1: int, k2: int|
                    0 <= k1 < k2 < batch_view(out@).len() ==> (#[trigger] batch_view(
                        out@,
                    )[k1]).idx < (#[trigger] batch_view(out@)[k2]).idx,
                batch_view(out@).len() < count ==> forall|i: u64|
                    #[trigger] has_key(rowsv, user, host.0 as u128, t, i) && i >= s0
                        ==> returned_has(batch_view(out@), i),
                batch_view(out@).len() == count && count > 0 ==> forall|i: u64|
                    #[trigger] has_key(rowsv, user, host.0 as u128, t, i) && s0 <= i <= batch_view(
                        out@,
                    ).last().idx ==> returned_has(batch_view(out@), i),
            decreases count - batch_view(out@).len(),
        {
            if out.len() as u64 >= count {
                break ;
            }
            match find_min_at_least(&self.records, user, host, &tag, bound) {
                None => {
                    proof {
                        assert forall|i: u64|
                            #[trigger] has_key(rowsv, user, host.0 as u128, t, i) && i >= s0
                                implies returned_has(batch_view(out@), i) by {
                            if i >= bound {
                                let j = choose|j: int|
                                    0 <= j < rowsv.len() && row_has_key(
                                        rowsv[j],
                                        user,
                                        host.0 as u128,
                                        t,
                                        i,
                                    );
                                assert(row_in_stream(rowsv[j], user, host.0 as u128, t));
                                assert(false);
                            }
                        }
                    }
                    break ;
                },
                Some(p) => {
                    let rec = self.records[p].record.clone();
                    let idx = rec.idx;
                    let ghost rv = rec@;
                    let ghost prevout = batch_view(out@);
                    proof {
                        assert(rowsv[p as int] == self.records@[p as int]@);
                        assert(rv == rowsv[p as int].rec);
                    }
                    out.push(rec);
                    proof {
                        assert(batch_view(out@) =~= prevout.push(rv));
                        assert(rowsv[p as int].user == user && rowsv[p as int].rec == rv);
                        assert(has_row(rowsv, user, rv));
                        assert forall|i: u64|
                            s0 <= i < bound && #[trigger] has_key(rowsv, user, host.0 as u128, t, i)
                                implies returned_has(batch_view(out@), i) by {
                            assert(returned_has(prevout, i));
                            let k = choose|k: int| 0 <= k < prevout.len() && prevout[k].idx == i;
                            assert(batch_view(out@)[k] == prevout[k]);
                        }
                        assert(batch_view(out@)[prevout.len() as int] == rv);
                    }
                    if idx == u64::MAX {
                        proof {
                            assert forall|i: u64|
                                #[trigger] has_key(rowsv, user, host.0 as u128, t, i) && i >= s0
                                    implies returned_has(batch_view(out@), i) by {
                                if i >= bound && i < u64::MAX {
                                    let j = choose|j: int|
                                        0 <= j < rowsv.len() && row_has_key(
                                            rowsv[j],
                                            user,
                                            host.0 as u128,
                                            t,
                                            i,
                                        );
                                    assert(row_in_stream(rowsv[j], user, host.0 as u128, t));
                                    assert(rowsv[j].rec.idx >= rowsv[p as int].rec.idx);
                                    assert(false);
                                }
                            }
                        }
                        break ;
                    }
                    bound = idx + 1;
                },
            }
        }
        Ok(out)
    }

    /// The authoritative status: for every (host, tag) stream of the user,
    /// the maximum index held in the record store, computed by full
    /// aggregation over the rows. The cache plays no part in the reply.
    pub fn status(&self, user: i64) -> (r: DbResult<RecordStatus>)
        ensures
            r is Ok,
            r->Ok_0.wf(),
            forall|h: u128, t: Seq<char>|
                #[trigger] heads_get(r->Ok_0@, h, t) == stream_max(self.rows_view(), user, h, t),
    {
        let ghost rowsv = self.rows_view();
        let mut st = RecordStatus::new();
        proof {
            assert(rowsv.take(0) =~= Seq::<StoredView>::empty());
        }
        let mut j: usize = 0;
        while j < self.records.len()
            invariant
                j <= self.records.len(),
                rowsv == self.rows_view(),
                st.wf(),
                forall|h: u128, t: Seq<char>|
                    #[trigger] heads_get(st@, h, t) == stream_max(rowsv.take(j as int), user, h, t),
            decreases self.records.len() - j,
        {
            let row = &self.records[j];
            let ghost prevst = st@;
            let ghost rv = rowsv[j as int];
            proof {
                assert(rowsv[j as int] == self.records@[j as int]@);
                assert(rowsv.take(j + 1).drop_last() =~= rowsv.take(j as int));
                assert(rowsv.take(j + 1).last() == rv);
            }
            if row.user == user {
                let host = row.record.host;
                let tagc = row.record.tag.clone();
                let idx = row.record.idx;
                let cur = st.get(host, &tagc);
                let v = match cur {
                    Some(c) => if idx > c {
                        idx
                    } else {
                        c
                    },
                    None => idx,
                };
                st.set_raw(host, tagc, v);
                proof {
                    assert forall|h: u128, t: Seq<char>|
                        #[trigger] heads_get(st@, h, t) == stream_max(
                            rowsv.take(j + 1),
                            user,
                            h,
                            t,
                        ) by {
                        if h == rv.rec.host && t == rv.rec.tag {
                            assert(heads_get(st@, h, t) == Some(v));
                            assert(cur == stream_max(rowsv.take(j as int), user, h, t));
                        } else {
                            assert(heads_get(st@, h, t) == heads_get(prevst, h, t));
                        }
                    }
                }
            } else {
                proof {
                    assert forall|h: u128, t: Seq<char>|
                        #[trigger] heads_get(st@, h, t) == stream_max(
                            rowsv.take(j + 1),
                            user,
                            h,
                            t,
                        ) by {
                        assert(!row_in_stream(rv, user, h, t));
                    }
                }
            }
            j += 1;
        }
        proof {
            assert(rowsv.take(self.records.len() as int) =~= rowsv);
        }
        Ok(st)
    }

    /// The reconciler's internal check: does the cache say, stream for
    /// stream, exactly what the authoritative aggregation says for this
    /// user? The reply is a signal only; it alters nothing.
    pub fn cache_consistent(&self, user: i64) -> (r: bool)
        requires
            cache_unique(self.cache_view()),
        ensures
            r == (forall|h: u128, t: Seq<char>|
                #[trigger] cache_get(self.cache_view(), user, h, t) == stream_max(
                    self.rows_view(),
                    user,
                    h,
                    t,
                )),
    {
        let ghost rowsv = self.rows_view();
        let ghost cachev = self.cache_view();
        let st = match self.status(user) {
            Ok(st) => st,
            Err(_) => {
                return false;
            },
        };
        let ghost stv = st@;
        let mut ok: bool = true;
        let mut j: usize = 0;
        while j < self.cache.len()
            invariant
                j <= self.cache.len(),
                cachev == self.cache_view(),
                stv == st@,
                ok == (forall|k: int|
                    0 <= k < j && (#[trigger] cachev[k]).user == user ==> heads_get(
                        stv,
                        cachev[k].host,
                        cachev[k].tag,
                    ) == Some(cachev[k].idx)),
            decreases self.cache.len() - j,
        {
            let e = &self.cache[j];
            proof {
                assert(cachev[j as int] == self.cache@[j as int]@);
            }
            if e.user == user {
                let got = st.get(e.host, &e.tag);
                let hit = match got {
                    Some(v) => v == e.idx,
                    None => false,
                };
                ok = ok && hit;
            }
            j += 1;
        }
        let mut p: usize = 0;
        while p < st.entries.len()
            invariant
                p <= st.entries.len(),
                cachev == self.cache_view(),
                stv == st@,
                ok == ((forall|k: int|
                    0 <= k < cachev.len() && (#[trigger] cachev[k]).user == user ==> heads_get(
                        stv,
                        cachev[k].host,
                        cachev[k].tag,
                    ) == Some(cachev[k].idx)) && (forall|k: int|
                    0 <= k < p ==> cache_get(cachev, user, (#[trigger] stv[k]).host, stv[k].tag)
                        == Some(stv[k].idx))),
            decreases st.entries.len() - p,
        {
            let e = &st.entries[p];
            proof {
                assert(stv[p as int] == st.entries@[p as int]@);
            }
            let got = cache_lookup(&self.cache, user, e.host, &e.tag);
            let hit = match got {
                Some(v) => v == e.idx,
                None => false,
            };
            ok = ok && hit;
            p += 1;
        }
        proof {
            if ok {
                assert forall|h: u128, t: Seq<char>|
                    #[trigger] cache_get(cachev, user, h, t) == stream_max(rowsv, user, h, t) by {
                    if cache_get(cachev, user, h, t) is Some {
                        lemma_cache_get_some(cachev, user, h, t);
                        let k = choose|k: int|
                            0 <= k < cachev.len() && (#[trigger] cachev[k]).user == user
                                && cachev[k].host == h && cachev[k].tag == t && cachev[k].idx
                                == cache_get(cachev, user, h, t)->0;
                    } else {
                        if stream_max(rowsv, user, h, t) is Some {
                            lemma_heads_get_some(stv, h, t);
                            let p = choose|p: int|
                                0 <= p < stv.len() && (#[trigger] stv[p]).host == h && stv[p].tag
                                    == t && stv[p].idx == heads_get(stv, h, t)->0;
                        }
                    }
                }
            } else {
                if forall|k: int|
                    0 <= k < cachev.len() && (#[trigger] cachev[k]).user == user ==> heads_get(
                        stv,
                        cachev[k].host,
                        cachev[k].tag,
                    ) == Some(cachev[k].idx) {
                    let p = choose|p: int|
                        0 <= p < stv.len() && cache_get(
                            cachev,
                            user,
                            (#[trigger] stv[p]).host,
                            stv[p].tag,
                        ) != Some(stv[p].idx);
                    lemma_heads_get_at(stv, p);
                    assert(stream_max(rowsv, user, stv[p].host, stv[p].tag) == Some(stv[p].idx));
                    assert(cache_get(cachev, user, stv[p].host, stv[p].tag) != stream_max(
                        rowsv,
                        user,
                        stv[p].host,
                        stv[p].tag,
                    ));
                } else {
                    let k = choose|k: int|
                        0 <= k < cachev.len() && (#[trigger] cachev[k]).user == user && heads_get(
                            stv,
                            cachev[k].host,
                            cachev[k].tag,
                        ) != Some(cachev[k].idx);
                    lemma_cache_get_at(cachev, k);
                    assert(cache_get(cachev, user, cachev[k].host, cachev[k].tag) != stream_max(
                        rowsv,
                        user,
                        cachev[k].host,
                        cachev[k].tag,
                    ));
                }
            }
        }
        ok
    }

    /// Removes every record-store row and every cache row of the user, as
    /// one unit. Other users' streams and cache entries are untouched.
    pub fn delete_store(&mut self, user: i64) -> (r: DbResult<()>)
        requires
            old(self).wf(),
        ensures
            r is Ok,
            final(self).wf(),
            forall|h: u128, t: Seq<char>, i: u64|
                !#[trigger] has_key(final(self).rows_view(), user, h, t, i),
            forall|h: u128, t: Seq<char>|
                #[trigger] stream_max(final(self).rows_view(), user, h, t) is None,
            forall|h: u128, t: Seq<char>|
                #[trigger] cache_get(final(self).cache_view(), user, h, t) is None,
            forall|u2: i64, h: u128, t: Seq<char>, i: u64|
                u2 != user ==> #[trigger] has_key(final(self).rows_view(), u2, h, t, i) == has_key(
                    old(self).rows_view(),
                    u2,
                    h,
                    t,
                    i,
                ),
            forall|u2: i64, rec: RecordView|
                u2 != user ==> #[trigger] has_row(final(self).rows_view(), u2, rec) == has_row(
                    old(self).rows_view(),
                    u2,
                    rec,
                ),
            forall|u2: i64, h: u128, t: Seq<char>|
                u2 != user ==> #[trigger] stream_max(final(self).rows_view(), u2, h, t)
                    == stream_max(old(self).rows_view(), u2, h, t),
            forall|u2: i64, h: u128, t: Seq<char>|
                u2 != user ==> #[trigger] cache_get(final(self).cache_view(), u2, h, t)
                    == cache_get(old(self).cache_view(), u2, h, t),
    {
        let ghost origv = self.rows_view();
        let ghost origc = self.cache_view();

        let mut kept: Vec<UserRecord> = Vec::new();
        proof {
            assert(rows_of(kept@) =~= Seq::<StoredView>::empty());
            assert(origv.take(0) =~= Seq::<StoredView>::empty());
        }
        let mut j: usize = 0;
        while j < self.records.len()
            invariant
                j <= self.records.len(),
                origv == self.rows_view(),
                origc == self.cache_view(),
                rows_unique(origv),
                forall|q: int|
                    0 <= q < rows_of(kept@).len() ==> (#[trigger] rows_of(kept@)[q]).user != user,
                rows_unique(rows_of(kept@)),
                forall|u2: i64, h: u128, t: Seq<char>, i: u64|
                    u2 != user ==> #[trigger] has_key(rows_of(kept@), u2, h, t, i) == has_key(
                        origv.take(j as int),
                        u2,
                        h,
                        t,
                        i,
                    ),
                forall|u2: i64, rec: RecordView|
                    u2 != user ==> #[trigger] has_row(rows_of(kept@), u2, rec) == has_row(
                        origv.take(j as int),
                        u2,
                        rec,
                    ),
                forall|u2: i64, h: u128, t: Seq<char>|
                    u2 != user ==> #[trigger] stream_max(rows_of(kept@), u2, h, t) == stream_max(
                        origv.take(j as int),
                        u2,
                        h,
                        t,
                    ),
            decreases self.records.len() - j,
        {
            let row = &self.records[j];
            let ghost keptv = rows_of(kept@);
            let ghost rv = origv[j as int];
            proof {
                assert(origv[j as int] == self.records@[j as int]@);
                assert(origv.take(j + 1).drop_last() =~= origv.take(j as int));
                assert(origv.take(j + 1).last() == rv);
                assert(origv.take(j + 1) =~= origv.take(j as int).push(rv));
            }
            if row.user != user {
                let copied = row.clone();
                kept.push(copied);
                proof {
                    assert(rows_of(kept@) =~= keptv.push(rv));
                    // The pushed row's key is nowhere in what was kept.
                    lemma_has_key_push(
                        origv.take(j as int),
                        rv,
                        rv.user,
                        rv.rec.host,
                        rv.rec.tag,
                        rv.rec.idx,
                    );
                    if has_key(origv.take(j as int), rv.user, rv.rec.host, rv.rec.tag, rv.rec.idx) {
                        let q = choose|q: int|
                            0 <= q < origv.take(j as int).len() && row_has_key(
                                origv.take(j as int)[q],
                                rv.user,
                                rv.rec.host,
                                rv.rec.tag,
                                rv.rec.idx,
                            );
                        assert(origv.take(j as int)[q] == origv[q]);
                        assert(same_row_key(origv[q], origv[j as int]));
                        assert(false);
                    }
                    assert(!has_key(keptv, rv.user, rv.rec.host, rv.rec.tag, rv.rec.idx));
                    assert forall|q1: int, q2: int|
                        0 <= q1 < q2 < rows_of(kept@).len() implies !same_row_key(
                        rows_of(kept@)[q1],
                        rows_of(kept@)[q2],
                    ) by {
                        if q2 < keptv.len() {
                            assert(rows_of(kept@)[q1] == keptv[q1]);
                            assert(rows_of(kept@)[q2] == keptv[q2]);
                        } else {
                            assert(rows_of(kept@)[q1] == keptv[q1]);
                            assert(rows_of(kept@)[q2] == rv);
                            if same_row_key(keptv[q1], rv) {
                                assert(row_has_key(
                                    keptv[q1],
                                    rv.user,
                                    rv.rec.host,
                                    rv.rec.tag,
                                    rv.rec.idx,
                                ));
                            }
                        }
                    }
                    assert forall|u2: i64, h: u128, t: Seq<char>, i: u64|
                        u2 != user implies #[trigger] has_key(rows_of(kept@), u2, h, t, i)
                        == has_key(origv.take(j + 1), u2, h, t, i) by {
                        lemma_has_key_push(keptv, rv, u2, h, t, i);
                        lemma_has_key_push(origv.take(j as int), rv, u2, h, t, i);
                    }
                    assert forall|u2: i64, rec: RecordView|
                        u2 != user implies #[trigger] has_row(rows_of(kept@), u2, rec) == has_row(
                        origv.take(j + 1),
                        u2,
                        rec,
                    ) by {
                        lemma_has_row_push(keptv, rv, u2, rec);
                        lemma_has_row_push(origv.take(j as int), rv, u2, rec);
                    }
                    assert(rows_of(kept@).drop_last() =~= keptv);
                    assert forall|u2: i64, h: u128, t: Seq<char>|
                        u2 != user implies #[trigger] stream_max(rows_of(kept@), u2, h, t)
                        == stream_max(origv.take(j + 1), u2, h, t) by {
                        assert(stream_max(keptv, u2, h, t) == stream_max(
                            origv.take(j as int),
                            u2,
                            h,
                            t,
                        ));
                        assert(rows_of(kept@).last() == rv);
                        assert(origv.take(j + 1).last() == rv);
                    }
                }
            } else {
                proof {
                    assert forall|u2: i64, h: u128, t: Seq<char>, i: u64|
                        u2 != user implies #[trigger] has_key(rows_of(kept@), u2, h, t, i)
                        == has_key(origv.take(j + 1), u2, h, t, i) by {
                        lemma_has_key_push(origv.take(j as int), rv, u2, h, t, i);
                    }
                    assert forall|u2: i64, rec: RecordView|
                        u2 != user implies #[trigger] has_row(rows_of(kept@), u2, rec) == has_row(
                        origv.take(j + 1),
                        u2,
                        rec,
                    ) by {
                        lemma_has_row_push(origv.take(j as int), rv, u2, rec);
                    }
                    assert forall|u2: i64, h: u128, t: Seq<char>|
                        u2 != user implies #[trigger] stream_max(rows_of(kept@), u2, h, t)
                        == stream_max(origv.take(j + 1), u2, h, t) by {
                        assert(!row_in_stream(rv, u2, h, t));
                    }
                }
            }
            j += 1;
        }
        proof {
            assert(origv.take(self.records.len() as int) =~= origv);
        }
        self.records = kept;
        let ghost newrows = self.rows_view();

        let mut keptc: Vec<CacheEntry> = Vec::new();
        proof {
            assert(cache_of(keptc@) =~= Seq::<CacheView>::empty());
            assert(origc.take(0) =~= Seq::<CacheView>::empty());
        }
        let mut k: usize = 0;
        while k < self.cache.len()
            invariant
                k <= self.cache.len(),
                origc == self.cache_view(),
                cache_unique(origc),
                forall|q: int|
                    0 <= q < cache_of(keptc@).len() ==> (#[trigger] cache_of(keptc@)[q]).user
                        != user,
                cache_unique(cache_of(keptc@)),
                forall|u2: i64, h: u128, t: Seq<char>|
                    u2 != user ==> #[trigger] cache_get(cache_of(keptc@), u2, h, t) == cache_get(
                        origc.take(k as int),
                        u2,
                        h,
                        t,
                    ),
            decreases self.cache.len() - k,
        {
            let e = &self.cache[k];
            let ghost keptcv = cache_of(keptc@);
            let ghost ev = origc[k as int];
            proof {
                assert(origc[k as int] == self.cache@[k as int]@);
                assert(origc.take(k + 1).drop_last() =~= origc.take(k as int));
                assert(origc.take(k + 1).last() == ev);
            }
            if e.user != user {
                let copied = e.clone();
                keptc.push(copied);
                proof {
                    assert(cache_of(keptc@) =~= keptcv.push(ev));
                    // The pushed entry's key is nowhere in what was kept.
                    if exists|q: int|
                        0 <= q < keptcv.len() && same_cache_key(#[trigger] keptcv[q], ev) {
                        let q = choose|q: int|
                            0 <= q < keptcv.len() && same_cache_key(#[trigger] keptcv[q], ev);
                        lemma_cache_get_exists_some(keptcv, q);
                        assert(cache_get(keptcv, keptcv[q].user, keptcv[q].host, keptcv[q].tag)
                            is Some);
                        assert(cache_get(origc.take(k as int), ev.user, ev.host, ev.tag)
                            == cache_get(keptcv, ev.user, ev.host, ev.tag));
                        assert forall|q2: int| 0 <= q2 < origc.take(k as int).len() implies !((
                        #[trigger] origc.take(k as int)[q2]).user == ev.user && origc.take(
                            k as int,
                        )[q2].host == ev.host && origc.take(k as int)[q2].tag == ev.tag) by {
                            assert(origc.take(k as int)[q2] == origc[q2]);
                            assert(!same_cache_key(origc[q2], origc[k as int]));
                        }
                        lemma_cache_get_none(origc.take(k as int), ev.user, ev.host, ev.tag);
                        assert(false);
                    }
                    assert forall|q1: int, q2: int|
                        0 <= q1 < q2 < cache_of(keptc@).len() implies !same_cache_key(
                        cache_of(keptc@)[q1],
                        cache_of(keptc@)[q2],
                    ) by {
                        if q2 < keptcv.len() {
                            assert(cache_of(keptc@)[q1] == keptcv[q1]);
                            assert(cache_of(keptc@)[q2] == keptcv[q2]);
                        } else {
                            assert(cache_of(keptc@)[q1] == keptcv[q1]);
                            assert(cache_of(keptc@)[q2] == ev);
                        }
                    }
                    assert forall|u2: i64, h: u128, t: Seq<char>|
                        u2 != user implies #[trigger] cache_get(cache_of(keptc@), u2, h, t)
                        == cache_get(origc.take(k + 1), u2, h, t) by {
                        assert(cache_of(keptc@).drop_last() =~= keptcv);
                        assert(cache_of(keptc@).last() == ev);
                        assert(origc.take(k + 1).last() == ev);
                        if !(ev.user == u2 && ev.host == h && ev.tag == t) {
                            assert(cache_get(cache_of(keptc@), u2, h, t) == cache_get(
                                keptcv,
                                u2,
                                h,
                                t,
                            ));
                            assert(cache_get(origc.take(k + 1), u2, h, t) == cache_get(
                                origc.take(k as int),
                                u2,
                                h,
                                t,
                            ));
                            assert(cache_get(keptcv, u2, h, t) == cache_get(
                                origc.take(k as int),
                                u2,
                                h,
                                t,
                            ));
                        }
                    }
                }
            } else {
                proof {
                    assert forall|u2: i64, h: u128, t: Seq<char>|
                        u2 != user implies #[trigger] cache_get(cache_of(keptc@), u2, h, t)
                        == cache_get(origc.take(k + 1), u2, h, t) by {
                        assert(origc.take(k + 1).last().user == user);
                    }
                }
            }
            k += 1;
        }
        proof {
            assert(origc.take(self.cache.len() as int) =~= origc);
        }
        self.cache = keptc;
        proof {
            let newc = self.cache_view();
            assert forall|h: u128, t: Seq<char>|
                #[trigger] cache_get(newc, user, h, t) is None by {
                assert forall|q: int| 0 <= q < newc.len() implies !((#[trigger] newc[q]).user
                    == user && newc[q].host == h && newc[q].tag == t) by {}
                lemma_cache_get_none(newc, user, h, t);
            }
            assert forall|h: u128, t: Seq<char>|
                #[trigger] stream_max(newrows, user, h, t) is None by {
                lemma_stream_max_absent_user(newrows, user, h, t);
            }
            assert forall|h: u128, t: Seq<char>, i: u64|
                !#[trigger] has_key(newrows, user, h, t, i) by {
                if has_key(newrows, user, h, t, i) {
                    let q = choose|q: int|
                        0 <= q < newrows.len() && row_has_key(newrows[q], user, h, t, i);
                }
            }
            assert forall|u2: i64, h: u128, t: Seq<char>|
                #[trigger] cache_get(self.cache_view(), u2, h, t) == stream_max(
                    self.rows_view(),
                    u2,
                    h,
                    t,
                ) by {
                if u2 != user {
                    assert(cache_get(origc, u2, h, t) == stream_max(origv, u2, h, t));
                }
            }
        }
        Ok(())
    }
}

} // verus!

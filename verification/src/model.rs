//! Ghost model of the record store and of the derived index cache.
//!
//! The store is modelled as the sequence of accepted rows, in order of
//! acceptance; the cache as a sequence of one entry per (user, host, tag).
//! `ingest` is the meaning of one batch push: row by row, a record whose
//! (user, host, tag, index) key is already present is a no-op, anything else
//! is appended. `stream_max` is the authoritative aggregation a status query
//! reports, and `merge_opt` is the atomic insert-or-update-to-max the cache
//! maintenance relies on. The lemmas at the end relate the three.

use vstd::prelude::*;

use crate::record::RecordView;

verus! {

/// One accepted row: the owning user and the record itself.
pub struct StoredView {
    pub user: i64,
    pub rec: RecordView,
}

/// One cache row: the highest index ever accepted for (user, host, tag).
pub struct CacheView {
    pub user: i64,
    pub host: u128,
    pub tag: Seq<char>,
    pub idx: u64,
}

/// One per-stream summary row: (host, tag) and an index. Used both for the
/// in-batch running maxima and for the entries of a status reply.
pub struct HeadView {
    pub host: u128,
    pub tag: Seq<char>,
    pub idx: u64,
}

/// The larger of two indices.
pub open spec fn max_u64(a: u64, b: u64) -> u64 {
    if a >= b {
        a
    } else {
        b
    }
}

/// Atomic insert-or-update-to-max: what one cache upsert leaves for a key,
/// given the current entry (if any) and the pushed maximum (if the batch
/// touches the key at all).
pub open spec fn merge_opt(current: Option<u64>, pushed: Option<u64>) -> Option<u64> {
    match pushed {
        None => current,
        Some(p) => match current {
            None => Some(p),
            Some(c) => Some(max_u64(c, p)),
        },
    }
}

/// Does the row carry exactly this natural identity?
pub open spec fn row_has_key(s: StoredView, user: i64, host: u128, tag: Seq<char>, idx: u64) -> bool {
    s.user == user && s.rec.host == host && s.rec.tag == tag && s.rec.idx == idx
}

/// Do two rows carry the same natural identity?
pub open spec fn same_row_key(a: StoredView, b: StoredView) -> bool {
    a.user == b.user && a.rec.host == b.rec.host && a.rec.tag == b.rec.tag && a.rec.idx
        == b.rec.idx
}

/// Is a row with this natural identity present?
pub open spec fn has_key(rows: Seq<StoredView>, user: i64, host: u128, tag: Seq<char>, idx: u64) -> bool {
    exists|j: int| 0 <= j < rows.len() && row_has_key(rows[j], user, host, tag, idx)
}

/// Is this very record (same payload, same owner) present?
pub open spec fn has_row(rows: Seq<StoredView>, user: i64, rec: RecordView) -> bool {
    exists|j: int| 0 <= j < rows.len() && rows[j].user == user && rows[j].rec == rec
}

/// Does the row belong to this user's (host, tag) stream?
pub open spec fn row_in_stream(s: StoredView, user: i64, host: u128, tag: Seq<char>) -> bool {
    s.user == user && s.rec.host == host && s.rec.tag == tag
}

/// Authoritative per-stream maximum: the highest index among the rows of
/// (user, host, tag), `None` when the stream holds no row.
pub open spec fn stream_max(rows: Seq<StoredView>, user: i64, host: u128, tag: Seq<char>) -> Option<u64>
    decreases rows.len(),
{
    if rows.len() == 0 {
        None
    } else {
        let prev = stream_max(rows.drop_last(), user, host, tag);
        if row_in_stream(rows.last(), user, host, tag) {
            match prev {
                None => Some(rows.last().rec.idx),
                Some(m) => Some(max_u64(m, rows.last().rec.idx)),
            }
        } else {
            prev
        }
    }
}

/// Does the batch hold a record of this stream?
pub open spec fn batch_touches(batch: Seq<RecordView>, host: u128, tag: Seq<char>) -> bool {
    exists|k: int| 0 <= k < batch.len() && batch[k].host == host && batch[k].tag == tag
}

/// Does the batch hold a record with this (host, tag, index)?
pub open spec fn batch_has(batch: Seq<RecordView>, host: u128, tag: Seq<char>, idx: u64) -> bool {
    exists|k: int|
        0 <= k < batch.len() && batch[k].host == host && batch[k].tag == tag && batch[k].idx == idx
}

/// The in-batch running maximum for one stream: the highest index the batch
/// itself carries for (host, tag), `None` when it carries none.
pub open spec fn batch_max(batch: Seq<RecordView>, host: u128, tag: Seq<char>) -> Option<u64>
    decreases batch.len(),
{
    if batch.len() == 0 {
        None
    } else {
        let prev = batch_max(batch.drop_last(), host, tag);
        if batch.last().host == host && batch.last().tag == tag {
            match prev {
                None => Some(batch.last().idx),
                Some(m) => Some(max_u64(m, batch.last().idx)),
            }
        } else {
            prev
        }
    }
}

/// One idempotent insert: a key already present is a silent no-op.
pub open spec fn insert_one(rows: Seq<StoredView>, user: i64, rec: RecordView) -> Seq<StoredView> {
    if has_key(rows, user, rec.host, rec.tag, rec.idx) {
        rows
    } else {
        rows.push(StoredView { user, rec })
    }
}

/// The store left by one batch push: the batch folded in, row by row.
pub open spec fn ingest(rows: Seq<StoredView>, user: i64, batch: Seq<RecordView>) -> Seq<StoredView>
    decreases batch.len(),
{
    if batch.len() == 0 {
        rows
    } else {
        insert_one(ingest(rows, user, batch.drop_last()), user, batch.last())
    }
}

/// The cache value recorded for (user, host, tag), `None` when no entry.
pub open spec fn cache_get(cache: Seq<CacheView>, user: i64, host: u128, tag: Seq<char>) -> Option<u64>
    decreases cache.len(),
{
    if cache.len() == 0 {
        None
    } else if cache.last().user == user && cache.last().host == host && cache.last().tag == tag {
        Some(cache.last().idx)
    } else {
        cache_get(cache.drop_last(), user, host, tag)
    }
}

/// The summary value recorded for (host, tag), `None` when no entry.
pub open spec fn heads_get(heads: Seq<HeadView>, host: u128, tag: Seq<char>) -> Option<u64>
    decreases heads.len(),
{
    if heads.len() == 0 {
        None
    } else if heads.last().host == host && heads.last().tag == tag {
        Some(heads.last().idx)
    } else {
        heads_get(heads.drop_last(), host, tag)
    }
}

/// Do two cache entries cover the same (user, host, tag)?
pub open spec fn same_cache_key(a: CacheView, b: CacheView) -> bool {
    a.user == b.user && a.host == b.host && a.tag == b.tag
}

/// Do two summary entries cover the same (host, tag)?
pub open spec fn same_head_key(a: HeadView, b: HeadView) -> bool {
    a.host == b.host && a.tag == b.tag
}

/// No two rows share one natural identity.
pub open spec fn rows_unique(rows: Seq<StoredView>) -> bool {
    forall|j1: int, j2: int|
        #![trigger rows[j1], rows[j2]]
        0 <= j1 < j2 < rows.len() ==> !same_row_key(rows[j1], rows[j2])
}

/// No two cache entries share one (user, host, tag).
pub open spec fn cache_unique(cache: Seq<CacheView>) -> bool {
    forall|j1: int, j2: int|
        #![trigger cache[j1], cache[j2]]
        0 <= j1 < j2 < cache.len() ==> !same_cache_key(cache[j1], cache[j2])
}

/// No two summary entries share one (host, tag).
pub open spec fn heads_unique(heads: Seq<HeadView>) -> bool {
    forall|j1: int, j2: int|
        #![trigger heads[j1], heads[j2]]
        0 <= j1 < j2 < heads.len() ==> !same_head_key(heads[j1], heads[j2])
}

// ------------------------------------------------------------------
// Lemmas about presence.
// ------------------------------------------------------------------

/// Appending a row adds exactly its key.
pub proof fn lemma_has_key_push(
    rows: Seq<StoredView>,
    s: StoredView,
    user: i64,
    host: u128,
    tag: Seq<char>,
    idx: u64,
)
    ensures
        has_key(rows.push(s), user, host, tag, idx) == (has_key(rows, user, host, tag, idx)
            || row_has_key(s, user, host, tag, idx)),
{
    if has_key(rows, user, host, tag, idx) {
        let j = choose|j: int| 0 <= j < rows.len() && row_has_key(rows[j], user, host, tag, idx);
        assert(rows.push(s)[j] == rows[j]);
    }
    if row_has_key(s, user, host, tag, idx) {
        assert(rows.push(s)[rows.len() as int] == s);
    }
    if has_key(rows.push(s), user, host, tag, idx) {
        let j = choose|j: int|
            0 <= j < rows.push(s).len() && row_has_key(rows.push(s)[j], user, host, tag, idx);
        if j < rows.len() {
            assert(rows.push(s)[j] == rows[j]);
        } else {
            assert(rows.push(s)[j] == s);
        }
    }
}

/// A key that is present bounds the stream maximum from below.
pub proof fn lemma_has_key_le_stream_max(
    rows: Seq<StoredView>,
    user: i64,
    host: u128,
    tag: Seq<char>,
    idx: u64,
)
    requires
        has_key(rows, user, host, tag, idx),
    ensures
        stream_max(rows, user, host, tag) is Some,
        idx <= stream_max(rows, user, host, tag)->0,
    decreases rows.len(),
{
    let j = choose|j: int| 0 <= j < rows.len() && row_has_key(rows[j], user, host, tag, idx);
    if j == rows.len() - 1 {
    } else {
        assert(rows.drop_last()[j] == rows[j]);
        lemma_has_key_le_stream_max(rows.drop_last(), user, host, tag, idx);
    }
}

/// The stream maximum, when it exists, is itself a present key.
pub proof fn lemma_stream_max_is_present(rows: Seq<StoredView>, user: i64, host: u128, tag: Seq<char>)
    requires
        stream_max(rows, user, host, tag) is Some,
    ensures
        has_key(rows, user, host, tag, stream_max(rows, user, host, tag)->0),
    decreases rows.len(),
{
    let m = stream_max(rows, user, host, tag)->0;
    if row_in_stream(rows.last(), user, host, tag) && rows.last().rec.idx == m {
        assert(row_has_key(rows[rows.len() - 1], user, host, tag, m));
    } else {
        lemma_stream_max_is_present(rows.drop_last(), user, host, tag);
        let j = choose|j: int|
            0 <= j < rows.drop_last().len() && row_has_key(rows.drop_last()[j], user, host, tag, m);
        assert(rows[j] == rows.drop_last()[j]);
    }
}

// ------------------------------------------------------------------
// Lemmas about one insert and about a whole ingest.
// ------------------------------------------------------------------

/// What one idempotent insert does to the stream maximum of any stream.
pub proof fn lemma_stream_max_insert_one(
    rows: Seq<StoredView>,
    user: i64,
    rec: RecordView,
    u2: i64,
    host: u128,
    tag: Seq<char>,
)
    ensures
        stream_max(insert_one(rows, user, rec), u2, host, tag) == (if u2 == user && rec.host
            == host && rec.tag == tag {
            merge_opt(stream_max(rows, u2, host, tag), Some(rec.idx))
        } else {
            stream_max(rows, u2, host, tag)
        }),
{
    if has_key(rows, user, rec.host, rec.tag, rec.idx) {
        if u2 == user && rec.host == host && rec.tag == tag {
            lemma_has_key_le_stream_max(rows, user, host, tag, rec.idx);
        }
    } else {
        let pushed = rows.push(StoredView { user, rec });
        assert(pushed.drop_last() =~= rows);
        assert(pushed.last() == StoredView { user, rec });
    }
}

/// What one idempotent insert does to key presence.
pub proof fn lemma_has_key_insert_one(
    rows: Seq<StoredView>,
    user: i64,
    rec: RecordView,
    u2: i64,
    host: u128,
    tag: Seq<char>,
    idx: u64,
)
    ensures
        has_key(insert_one(rows, user, rec), u2, host, tag, idx) == (has_key(
            rows,
            u2,
            host,
            tag,
            idx,
        ) || (u2 == user && rec.host == host && rec.tag == tag && rec.idx == idx)),
{
    if has_key(rows, user, rec.host, rec.tag, rec.idx) {
    } else {
        lemma_has_key_push(rows, StoredView { user, rec }, u2, host, tag, idx);
    }
}

/// Ingest changes no other user's streams, and merges exactly the batch
/// maximum into the pushing user's streams.
pub proof fn lemma_stream_max_ingest(
    rows: Seq<StoredView>,
    user: i64,
    batch: Seq<RecordView>,
    u2: i64,
    host: u128,
    tag: Seq<char>,
)
    ensures
        stream_max(ingest(rows, user, batch), u2, host, tag) == (if u2 == user {
            merge_opt(stream_max(rows, u2, host, tag), batch_max(batch, host, tag))
        } else {
            stream_max(rows, u2, host, tag)
        }),
    decreases batch.len(),
{
    if batch.len() == 0 {
    } else {
        let prefix = batch.drop_last();
        let last = batch.last();
        lemma_stream_max_ingest(rows, user, prefix, u2, host, tag);
        lemma_stream_max_insert_one(ingest(rows, user, prefix), user, last, u2, host, tag);
    }
}

/// Key presence after an ingest: the old keys plus exactly the batch's keys.
pub proof fn lemma_has_key_ingest(
    rows: Seq<StoredView>,
    user: i64,
    batch: Seq<RecordView>,
    u2: i64,
    host: u128,
    tag: Seq<char>,
    idx: u64,
)
    ensures
        has_key(ingest(rows, user, batch), u2, host, tag, idx) == (has_key(
            rows,
            u2,
            host,
            tag,
            idx,
        ) || (u2 == user && batch_has(batch, host, tag, idx))),
    decreases batch.len(),
{
    if batch.len() == 0 {
    } else {
        let prefix = batch.drop_last();
        let last = batch.last();
        lemma_has_key_ingest(rows, user, prefix, u2, host, tag, idx);
        lemma_has_key_insert_one(ingest(rows, user, prefix), user, last, u2, host, tag, idx);
        if batch_has(prefix, host, tag, idx) {
            let k = choose|k: int|
                0 <= k < prefix.len() && prefix[k].host == host && prefix[k].tag == tag
                    && prefix[k].idx == idx;
            assert(batch[k] == prefix[k]);
        }
        if last.host == host && last.tag == tag && last.idx == idx {
            assert(batch[batch.len() - 1] == last);
        }
        if batch_has(batch, host, tag, idx) && !(last.host == host && last.tag == tag && last.idx
            == idx) {
            let k = choose|k: int|
                0 <= k < batch.len() && batch[k].host == host && batch[k].tag == tag
                    && batch[k].idx == idx;
            assert(k < prefix.len());
            assert(prefix[k] == batch[k]);
        }
    }
}

/// Uniqueness of natural identities survives an ingest.
pub proof fn lemma_ingest_unique(rows: Seq<StoredView>, user: i64, batch: Seq<RecordView>)
    requires
        rows_unique(rows),
    ensures
        rows_unique(ingest(rows, user, batch)),
    decreases batch.len(),
{
    if batch.len() == 0 {
    } else {
        let prefix = batch.drop_last();
        let last = batch.last();
        lemma_ingest_unique(rows, user, prefix);
        let mid = ingest(rows, user, prefix);
        if !has_key(mid, user, last.host, last.tag, last.idx) {
            let pushed = mid.push(StoredView { user, rec: last });
            assert forall|j1: int, j2: int|
                0 <= j1 < j2 < pushed.len() implies !same_row_key(pushed[j1], pushed[j2]) by {
                if j2 < mid.len() {
                    assert(pushed[j1] == mid[j1] && pushed[j2] == mid[j2]);
                } else {
                    assert(pushed[j1] == mid[j1]);
                    assert(pushed[j2] == StoredView { user, rec: last });
                    if same_row_key(mid[j1], pushed[j2]) {
                        assert(row_has_key(mid[j1], user, last.host, last.tag, last.idx));
                    }
                }
            }
        }
    }
}

/// A batch all of whose keys are already present changes nothing.
pub proof fn lemma_ingest_all_present(rows: Seq<StoredView>, user: i64, batch: Seq<RecordView>)
    requires
        forall|k: int|
            0 <= k < batch.len() ==> has_key(
                rows,
                user,
                (#[trigger] batch[k]).host,
                batch[k].tag,
                batch[k].idx,
            ),
    ensures
        ingest(rows, user, batch) == rows,
    decreases batch.len(),
{
    if batch.len() == 0 {
    } else {
        let prefix = batch.drop_last();
        assert forall|k: int| 0 <= k < prefix.len() implies has_key(
            rows,
            user,
            (#[trigger] prefix[k]).host,
            prefix[k].tag,
            prefix[k].idx,
        ) by {
            assert(prefix[k] == batch[k]);
        }
        lemma_ingest_all_present(rows, user, prefix);
        assert(batch[batch.len() - 1] == batch.last());
    }
}

/// Law behind idempotent ingest: folding the same batch in a second time
/// leaves the store exactly as after the first time.
pub proof fn lemma_ingest_idempotent(rows: Seq<StoredView>, user: i64, batch: Seq<RecordView>)
    ensures
        ingest(ingest(rows, user, batch), user, batch) == ingest(rows, user, batch),
{
    let once = ingest(rows, user, batch);
    assert forall|k: int| 0 <= k < batch.len() implies has_key(
        once,
        user,
        (#[trigger] batch[k]).host,
        batch[k].tag,
        batch[k].idx,
    ) by {
        lemma_has_key_ingest(rows, user, batch, user, batch[k].host, batch[k].tag, batch[k].idx);
        assert(batch_has(batch, batch[k].host, batch[k].tag, batch[k].idx));
    }
    lemma_ingest_all_present(once, user, batch);
}

/// Does the reply hold a record with this index?
pub open spec fn returned_has(batch: Seq<RecordView>, idx: u64) -> bool {
    exists|k: int| 0 <= k < batch.len() && batch[k].idx == idx
}

/// The cursor start: the client's value, or zero when none was given.
pub open spec fn start_or_zero(start: Option<u64>) -> u64 {
    match start {
        Some(s) => s,
        None => 0,
    }
}

/// Appending a row adds exactly that record under that owner.
pub proof fn lemma_has_row_push(rows: Seq<StoredView>, s: StoredView, user: i64, rec: RecordView)
    ensures
        has_row(rows.push(s), user, rec) == (has_row(rows, user, rec) || (s.user == user && s.rec
            == rec)),
{
    if has_row(rows, user, rec) {
        let j = choose|j: int| 0 <= j < rows.len() && rows[j].user == user && rows[j].rec == rec;
        assert(rows.push(s)[j] == rows[j]);
    }
    if s.user == user && s.rec == rec {
        assert(rows.push(s)[rows.len() as int] == s);
    }
    if has_row(rows.push(s), user, rec) {
        let j = choose|j: int|
            0 <= j < rows.push(s).len() && rows.push(s)[j].user == user && rows.push(s)[j].rec
                == rec;
        if j < rows.len() {
            assert(rows.push(s)[j] == rows[j]);
        } else {
            assert(rows.push(s)[j] == s);
        }
    }
}

/// A user none of whose rows are present has no stream maximum.
pub proof fn lemma_stream_max_absent_user(rows: Seq<StoredView>, user: i64, host: u128, tag: Seq<char>)
    requires
        forall|q: int| 0 <= q < rows.len() ==> (#[trigger] rows[q]).user != user,
    ensures
        stream_max(rows, user, host, tag) is None,
    decreases rows.len(),
{
    if rows.len() == 0 {
    } else {
        assert(rows[rows.len() - 1] == rows.last());
        assert forall|q: int| 0 <= q < rows.drop_last().len() implies (#[trigger] rows.drop_last()[q]).user
            != user by {
            assert(rows.drop_last()[q] == rows[q]);
        }
        lemma_stream_max_absent_user(rows.drop_last(), user, host, tag);
    }
}

/// A batch has an in-batch maximum for a stream exactly when it touches it.
pub proof fn lemma_batch_max_touches(batch: Seq<RecordView>, host: u128, tag: Seq<char>)
    ensures
        (batch_max(batch, host, tag) is Some) == batch_touches(batch, host, tag),
    decreases batch.len(),
{
    if batch.len() == 0 {
    } else {
        lemma_batch_max_touches(batch.drop_last(), host, tag);
        if batch_touches(batch.drop_last(), host, tag) {
            let k = choose|k: int|
                0 <= k < batch.drop_last().len() && batch.drop_last()[k].host == host
                    && batch.drop_last()[k].tag == tag;
            assert(batch[k] == batch.drop_last()[k]);
        }
        if batch.last().host == host && batch.last().tag == tag {
            assert(batch[batch.len() - 1] == batch.last());
        }
        if batch_touches(batch, host, tag) && !(batch.last().host == host && batch.last().tag
            == tag) {
            let k = choose|k: int|
                0 <= k < batch.len() && batch[k].host == host && batch[k].tag == tag;
            assert(k < batch.drop_last().len());
            assert(batch.drop_last()[k] == batch[k]);
        }
    }
}

/// A record that is present is present under its own natural identity.
pub proof fn lemma_has_row_implies_key(rows: Seq<StoredView>, user: i64, rec: RecordView)
    requires
        has_row(rows, user, rec),
    ensures
        has_key(rows, user, rec.host, rec.tag, rec.idx),
{
    let j = choose|j: int| 0 <= j < rows.len() && rows[j].user == user && rows[j].rec == rec;
    assert(row_has_key(rows[j], user, rec.host, rec.tag, rec.idx));
}

/// Any matching entry makes the lookup hit.
pub proof fn lemma_cache_get_exists_some(cache: Seq<CacheView>, q: int)
    requires
        0 <= q < cache.len(),
    ensures
        cache_get(cache, cache[q].user, cache[q].host, cache[q].tag) is Some,
    decreases cache.len(),
{
    if q == cache.len() - 1 {
    } else if cache.last().user == cache[q].user && cache.last().host == cache[q].host
        && cache.last().tag == cache[q].tag {
    } else {
        assert(cache.drop_last()[q] == cache[q]);
        lemma_cache_get_exists_some(cache.drop_last(), q);
    }
}

// ------------------------------------------------------------------
// Lemmas about cache and summary lookups.
// ------------------------------------------------------------------

/// A unique matching entry is what the lookup returns.
pub proof fn lemma_cache_get_at(cache: Seq<CacheView>, j: int)
    requires
        cache_unique(cache),
        0 <= j < cache.len(),
    ensures
        cache_get(cache, cache[j].user, cache[j].host, cache[j].tag) == Some(cache[j].idx),
    decreases cache.len(),
{
    if j == cache.len() - 1 {
    } else {
        assert(!same_cache_key(cache[j], cache[cache.len() - 1]));
        assert(cache.drop_last()[j] == cache[j]);
        assert forall|j1: int, j2: int|
            0 <= j1 < j2 < cache.drop_last().len() implies !same_cache_key(
            #[trigger] cache.drop_last()[j1],
            #[trigger] cache.drop_last()[j2],
        ) by {
            assert(cache.drop_last()[j1] == cache[j1]);
            assert(cache.drop_last()[j2] == cache[j2]);
        }
        lemma_cache_get_at(cache.drop_last(), j);
    }
}

/// A lookup that misses means no entry matches.
pub proof fn lemma_cache_get_none(cache: Seq<CacheView>, user: i64, host: u128, tag: Seq<char>)
    requires
        forall|j: int|
            0 <= j < cache.len() ==> !((#[trigger] cache[j]).user == user && cache[j].host == host
                && cache[j].tag == tag),
    ensures
        cache_get(cache, user, host, tag) is None,
    decreases cache.len(),
{
    if cache.len() == 0 {
    } else {
        assert(cache[cache.len() - 1] == cache.last());
        assert forall|j: int| 0 <= j < cache.drop_last().len() implies !((#[trigger] cache.drop_last()[j]).user
            == user && cache.drop_last()[j].host == host && cache.drop_last()[j].tag == tag) by {
            assert(cache.drop_last()[j] == cache[j]);
        }
        lemma_cache_get_none(cache.drop_last(), user, host, tag);
    }
}

/// A lookup that hits names some matching entry.
pub proof fn lemma_cache_get_some(cache: Seq<CacheView>, user: i64, host: u128, tag: Seq<char>)
    requires
        cache_get(cache, user, host, tag) is Some,
    ensures
        exists|j: int|
            0 <= j < cache.len() && (#[trigger] cache[j]).user == user && cache[j].host == host
                && cache[j].tag == tag && cache[j].idx == cache_get(cache, user, host, tag)->0,
    decreases cache.len(),
{
    if cache.last().user == user && cache.last().host == host && cache.last().tag == tag {
        assert(cache[cache.len() - 1] == cache.last());
    } else {
        lemma_cache_get_some(cache.drop_last(), user, host, tag);
        let j = choose|j: int|
            0 <= j < cache.drop_last().len() && (#[trigger] cache.drop_last()[j]).user == user
                && cache.drop_last()[j].host == host && cache.drop_last()[j].tag == tag
                && cache.drop_last()[j].idx == cache_get(cache.drop_last(), user, host, tag)->0;
        assert(cache[j] == cache.drop_last()[j]);
    }
}

/// Overwriting one entry in place changes exactly that key's lookup.
pub proof fn lemma_cache_get_update(
    cache: Seq<CacheView>,
    p: int,
    e: CacheView,
    user: i64,
    host: u128,
    tag: Seq<char>,
)
    requires
        0 <= p < cache.len(),
        same_cache_key(cache[p], e),
        cache_unique(cache),
    ensures
        cache_get(cache.update(p, e), user, host, tag) == (if e.user == user && e.host == host
            && e.tag == tag {
            Some(e.idx)
        } else {
            cache_get(cache, user, host, tag)
        }),
        cache_unique(cache.update(p, e)),
    decreases cache.len(),
{
    let updated = cache.update(p, e);
    assert forall|j1: int, j2: int|
        0 <= j1 < j2 < updated.len() implies !same_cache_key(updated[j1], updated[j2]) by {
        assert(!same_cache_key(cache[j1], cache[j2]));
        if j1 != p {
            assert(updated[j1] == cache[j1]);
        }
        if j2 != p {
            assert(updated[j2] == cache[j2]);
        }
    }
    if e.user == user && e.host == host && e.tag == tag {
        lemma_cache_get_at(updated, p);
        assert(updated[p] == e);
    } else {
        if cache_get(cache, user, host, tag) is Some {
            lemma_cache_get_some(cache, user, host, tag);
            let j = choose|j: int|
                0 <= j < cache.len() && (#[trigger] cache[j]).user == user && cache[j].host == host
                    && cache[j].tag == tag && cache[j].idx == cache_get(cache, user, host, tag)->0;
            assert(j != p);
            assert(updated[j] == cache[j]);
            lemma_cache_get_at(updated, j);
            lemma_cache_get_at(cache, j);
        } else {
            lemma_cache_get_none_converse(cache, user, host, tag);
            assert forall|j: int| 0 <= j < updated.len() implies !((#[trigger] updated[j]).user
                == user && updated[j].host == host && updated[j].tag == tag) by {
                if j != p {
                    assert(updated[j] == cache[j]);
                }
            }
            lemma_cache_get_none(updated, user, host, tag);
        }
    }
}

/// The contrapositive reading of a missing lookup.
pub proof fn lemma_cache_get_none_converse(cache: Seq<CacheView>, user: i64, host: u128, tag: Seq<char>)
    requires
        cache_get(cache, user, host, tag) is None,
    ensures
        forall|j: int|
            0 <= j < cache.len() ==> !((#[trigger] cache[j]).user == user && cache[j].host == host
                && cache[j].tag == tag),
    decreases cache.len(),
{
    if cache.len() == 0 {
    } else {
        lemma_cache_get_none_converse(cache.drop_last(), user, host, tag);
        assert forall|j: int| 0 <= j < cache.len() implies !((#[trigger] cache[j]).user == user
            && cache[j].host == host && cache[j].tag == tag) by {
            if j < cache.len() - 1 {
                assert(cache.drop_last()[j] == cache[j]);
            } else {
                assert(cache[j] == cache.last());
            }
        }
    }
}

/// A unique matching summary entry is what the lookup returns.
pub proof fn lemma_heads_get_at(heads: Seq<HeadView>, j: int)
    requires
        heads_unique(heads),
        0 <= j < heads.len(),
    ensures
        heads_get(heads, heads[j].host, heads[j].tag) == Some(heads[j].idx),
    decreases heads.len(),
{
    if j == heads.len() - 1 {
    } else {
        assert(!same_head_key(heads[j], heads[heads.len() - 1]));
        assert(heads.drop_last()[j] == heads[j]);
        assert forall|j1: int, j2: int|
            0 <= j1 < j2 < heads.drop_last().len() implies !same_head_key(
            #[trigger] heads.drop_last()[j1],
            #[trigger] heads.drop_last()[j2],
        ) by {
            assert(heads.drop_last()[j1] == heads[j1]);
            assert(heads.drop_last()[j2] == heads[j2]);
        }
        lemma_heads_get_at(heads.drop_last(), j);
    }
}

/// A summary lookup that misses means no entry matches.
pub proof fn lemma_heads_get_none(heads: Seq<HeadView>, host: u128, tag: Seq<char>)
    requires
        forall|j: int|
            0 <= j < heads.len() ==> !((#[trigger] heads[j]).host == host && heads[j].tag == tag),
    ensures
        heads_get(heads, host, tag) is None,
    decreases heads.len(),
{
    if heads.len() == 0 {
    } else {
        assert(heads[heads.len() - 1] == heads.last());
        assert forall|j: int| 0 <= j < heads.drop_last().len() implies !((#[trigger] heads.drop_last()[j]).host
            == host && heads.drop_last()[j].tag == tag) by {
            assert(heads.drop_last()[j] == heads[j]);
        }
        lemma_heads_get_none(heads.drop_last(), host, tag);
    }
}

/// A summary lookup that hits names some matching entry.
pub proof fn lemma_heads_get_some(heads: Seq<HeadView>, host: u128, tag: Seq<char>)
    requires
        heads_get(heads, host, tag) is Some,
    ensures
        exists|j: int|
            0 <= j < heads.len() && (#[trigger] heads[j]).host == host && heads[j].tag == tag
                && heads[j].idx == heads_get(heads, host, tag)->0,
    decreases heads.len(),
{
    if heads.last().host == host && heads.last().tag == tag {
        assert(heads[heads.len() - 1] == heads.last());
    } else {
        lemma_heads_get_some(heads.drop_last(), host, tag);
        let j = choose|j: int|
            0 <= j < heads.drop_last().len() && (#[trigger] heads.drop_last()[j]).host == host
                && heads.drop_last()[j].tag == tag && heads.drop_last()[j].idx == heads_get(
                heads.drop_last(),
                host,
                tag,
            )->0;
        assert(heads[j] == heads.drop_last()[j]);
    }
}

/// Overwriting one summary entry in place changes exactly that key's lookup.
pub proof fn lemma_heads_get_update(heads: Seq<HeadView>, p: int, e: HeadView, host: u128, tag: Seq<char>)
    requires
        0 <= p < heads.len(),
        same_head_key(heads[p], e),
        heads_unique(heads),
    ensures
        heads_get(heads.update(p, e), host, tag) == (if e.host == host && e.tag == tag {
            Some(e.idx)
        } else {
            heads_get(heads, host, tag)
        }),
        heads_unique(heads.update(p, e)),
{
    let updated = heads.update(p, e);
    assert forall|j1: int, j2: int|
        0 <= j1 < j2 < updated.len() implies !same_head_key(updated[j1], updated[j2]) by {
        assert(!same_head_key(heads[j1], heads[j2]));
        if j1 != p {
            assert(updated[j1] == heads[j1]);
        }
        if j2 != p {
            assert(updated[j2] == heads[j2]);
        }
    }
    if e.host == host && e.tag == tag {
        lemma_heads_get_at(updated, p);
        assert(updated[p] == e);
    } else {
        if heads_get(heads, host, tag) is Some {
            lemma_heads_get_some(heads, host, tag);
            let j = choose|j: int|
                0 <= j < heads.len() && (#[trigger] heads[j]).host == host && heads[j].tag == tag
                    && heads[j].idx == heads_get(heads, host, tag)->0;
            assert(j != p);
            assert(updated[j] == heads[j]);
            lemma_heads_get_at(updated, j);
            lemma_heads_get_at(heads, j);
        } else {
            lemma_heads_get_none_converse(heads, host, tag);
            assert forall|j: int| 0 <= j < updated.len() implies !((#[trigger] updated[j]).host
                == host && updated[j].tag == tag) by {
                if j != p {
                    assert(updated[j] == heads[j]);
                }
            }
            lemma_heads_get_none(updated, host, tag);
        }
    }
}

/// The contrapositive reading of a missing summary lookup.
pub proof fn lemma_heads_get_none_converse(heads: Seq<HeadView>, host: u128, tag: Seq<char>)
    requires
        heads_get(heads, host, tag) is None,
    ensures
        forall|j: int|
            0 <= j < heads.len() ==> !((#[trigger] heads[j]).host == host && heads[j].tag == tag),
    decreases heads.len(),
{
    if heads.len() == 0 {
    } else {
        lemma_heads_get_none_converse(heads.drop_last(), host, tag);
        assert forall|j: int| 0 <= j < heads.len() implies !((#[trigger] heads[j]).host == host
            && heads[j].tag == tag) by {
            if j < heads.len() - 1 {
                assert(heads.drop_last()[j] == heads[j]);
            } else {
                assert(heads[j] == heads.last());
            }
        }
    }
}

} // verus!

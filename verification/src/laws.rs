//! The store's laws, stated once over the ghost model and proved.
//!
//! Each proof function here is a public statement of one guarantee the
//! engine gives its callers; the contracts of `MemoryStore`'s methods carry
//! the per-call halves, and these laws tie them together across calls.

use vstd::prelude::*;

use crate::model::{
    batch_max, batch_touches, batch_has, cache_get, has_key, has_row, ingest,
    lemma_batch_max_touches, lemma_has_key_ingest, lemma_has_row_implies_key,
    lemma_ingest_idempotent, lemma_stream_max_ingest, lemma_stream_max_is_present, merge_opt,
    stream_max, StoredView,
};
use crate::record::RecordView;
use crate::store::MemoryStore;

verus! {

/// Law of idempotent ingest: folding one batch in a second time leaves the
/// stored rows exactly as the first fold left them, and merging its maxima
/// into the cache a second time leaves every cache value unchanged.
pub proof fn lemma_idempotent_ingest(
    rows: Seq<StoredView>,
    user: i64,
    batch: Seq<RecordView>,
    current: Option<u64>,
    host: u128,
    tag: Seq<char>,
)
    ensures
        ingest(ingest(rows, user, batch), user, batch) == ingest(rows, user, batch),
        merge_opt(merge_opt(current, batch_max(batch, host, tag)), batch_max(batch, host, tag))
            == merge_opt(current, batch_max(batch, host, tag)),
{
    lemma_ingest_idempotent(rows, user, batch);
}

/// Law of cursor completeness: after a push, the indices visible in a stream
/// are exactly the indices visible before plus the batch's own, so a cursor
/// walk from zero meets every pushed index and nothing else. Order and the
/// row bound are stated on `next_records` itself.
pub proof fn lemma_cursor_sees_pushed_indices(
    rows: Seq<StoredView>,
    user: i64,
    batch: Seq<RecordView>,
    host: u128,
    tag: Seq<char>,
    idx: u64,
)
    ensures
        has_key(ingest(rows, user, batch), user, host, tag, idx) == (has_key(
            rows,
            user,
            host,
            tag,
            idx,
        ) || batch_has(batch, host, tag, idx)),
{
    lemma_has_key_ingest(rows, user, batch, user, host, tag, idx);
}

/// Law of cache authority: in a well-formed store the cache records, stream
/// for stream, exactly the highest index ever accepted — however the pushes
/// that built the store were batched.
pub proof fn lemma_cache_is_authoritative(s: MemoryStore, user: i64, host: u128, tag: Seq<char>)
    requires
        s.wf(),
    ensures
        cache_get(s.cache_view(), user, host, tag) == stream_max(s.rows_view(), user, host, tag),
{
}

/// Law of cache monotonicity: the insert-or-update-to-max merge never lowers
/// a cache value, whatever one push contributes.
pub proof fn lemma_cache_monotone(current: Option<u64>, pushed: Option<u64>)
    ensures
        current is Some ==> merge_opt(current, pushed) is Some,
        current is Some ==> current->0 <= merge_opt(current, pushed)->0,
{
}

/// Law of stream isolation: a push leaves every stream the batch does not
/// touch, and every other user's streams, exactly as they were — the visible
/// indices, the stream maximum, and (through an empty batch maximum) the
/// cache merge.
pub proof fn lemma_stream_isolation(
    rows: Seq<StoredView>,
    user: i64,
    batch: Seq<RecordView>,
    u2: i64,
    host: u128,
    tag: Seq<char>,
)
    requires
        u2 != user || !batch_touches(batch, host, tag),
    ensures
        stream_max(ingest(rows, user, batch), u2, host, tag) == stream_max(rows, u2, host, tag),
        forall|i: u64|
            #[trigger] has_key(ingest(rows, user, batch), u2, host, tag, i) == has_key(
                rows,
                u2,
                host,
                tag,
                i,
            ),
        u2 == user ==> batch_max(batch, host, tag) is None,
{
    lemma_stream_max_ingest(rows, user, batch, u2, host, tag);
    lemma_batch_max_touches(batch, host, tag);
    assert forall|i: u64|
        #[trigger] has_key(ingest(rows, user, batch), u2, host, tag, i) == has_key(
            rows,
            u2,
            host,
            tag,
            i,
        ) by {
        lemma_has_key_ingest(rows, user, batch, u2, host, tag, i);
        if u2 == user && batch_has(batch, host, tag, i) {
            let k = choose|k: int|
                0 <= k < batch.len() && batch[k].host == host && batch[k].tag == tag && batch[k].idx
                    == i;
        }
    }
}

/// Law of deletion: once no row of a user is visible — what `delete_store`
/// guarantees — every stream maximum of theirs is gone, and any reply whose
/// records all come from their rows can only be empty.
pub proof fn lemma_delete_clears(
    s: MemoryStore,
    user: i64,
    host: u128,
    tag: Seq<char>,
    reply: Seq<RecordView>,
)
    requires
        forall|h: u128, t: Seq<char>, i: u64| !#[trigger] has_key(s.rows_view(), user, h, t, i),
        forall|k: int| 0 <= k < reply.len() ==> has_row(s.rows_view(), user, #[trigger] reply[k]),
    ensures
        stream_max(s.rows_view(), user, host, tag) is None,
        reply.len() == 0,
{
    if stream_max(s.rows_view(), user, host, tag) is Some {
        lemma_stream_max_is_present(s.rows_view(), user, host, tag);
    }
    if reply.len() > 0 {
        lemma_has_row_implies_key(s.rows_view(), user, reply[0]);
    }
}

} // verus!

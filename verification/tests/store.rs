use sync_store::record::{EncryptedData, HostId, Record, RecordId};
use sync_store::store::MemoryStore;

fn rec(id: u128, host: u128, tag: &str, idx: u64, data: &str) -> Record {
    Record {
        id: RecordId(id),
        host: HostId(host),
        idx,
        timestamp: 100 + idx,
        version: String::from("v0"),
        tag: String::from(tag),
        data: EncryptedData {
            data: String::from(data),
            content_encryption_key: String::from("wrapped-key"),
        },
    }
}

fn batch_1_to_5(host: u128, tag: &str) -> Vec<Record> {
    (1..=5u64)
        .map(|i| rec(i as u128, host, tag, i, &format!("cipher-{i}")))
        .collect()
}

fn idxs(records: &[Record]) -> Vec<u64> {
    records.iter().map(|r| r.idx).collect()
}

#[test]
fn scenario_push_pull_status() {
    let mut s = MemoryStore::new();
    s.add_records(1, &batch_1_to_5(11, "history")).unwrap();

    let page = s
        .next_records(1, HostId(11), String::from("history"), Some(3), 2)
        .unwrap();
    assert_eq!(idxs(&page), vec![3, 4]);

    let st = s.status(1).unwrap();
    assert_eq!(st.len(), 1);
    assert_eq!(st.get(HostId(11), &String::from("history")), Some(5));
}

#[test]
fn idempotent_ingest() {
    let mut s = MemoryStore::new();
    let batch = batch_1_to_5(11, "history");
    s.add_records(1, &batch).unwrap();
    s.add_records(1, &batch).unwrap();

    let all = s
        .next_records(1, HostId(11), String::from("history"), Some(0), 10)
        .unwrap();
    assert_eq!(idxs(&all), vec![1, 2, 3, 4, 5]);

    let st = s.status(1).unwrap();
    assert_eq!(st.get(HostId(11), &String::from("history")), Some(5));
    assert!(s.cache_consistent(1));
}

#[test]
fn resubmitted_index_is_a_noop_keeping_the_first_payload() {
    let mut s = MemoryStore::new();
    s.add_records(1, &vec![rec(1, 11, "history", 1, "first")]).unwrap();
    s.add_records(1, &vec![rec(2, 11, "history", 1, "second")]).unwrap();

    let all = s
        .next_records(1, HostId(11), String::from("history"), None, 10)
        .unwrap();
    assert_eq!(all.len(), 1);
    assert_eq!(all[0].data.data, "first");
}

#[test]
fn cursor_respects_start_and_count() {
    let mut s = MemoryStore::new();
    s.add_records(1, &batch_1_to_5(11, "history")).unwrap();

    let from_start = s
        .next_records(1, HostId(11), String::from("history"), None, 5)
        .unwrap();
    assert_eq!(idxs(&from_start), vec![1, 2, 3, 4, 5]);

    let capped = s
        .next_records(1, HostId(11), String::from("history"), Some(0), 3)
        .unwrap();
    assert_eq!(idxs(&capped), vec![1, 2, 3]);

    let tail = s
        .next_records(1, HostId(11), String::from("history"), Some(4), 10)
        .unwrap();
    assert_eq!(idxs(&tail), vec![4, 5]);

    let none = s
        .next_records(1, HostId(11), String::from("history"), Some(6), 10)
        .unwrap();
    assert!(none.is_empty());

    let zero = s
        .next_records(1, HostId(11), String::from("history"), None, 0)
        .unwrap();
    assert!(zero.is_empty());
}

#[test]
fn cursor_orders_out_of_order_arrivals() {
    let mut s = MemoryStore::new();
    s.add_records(1, &vec![rec(3, 11, "history", 3, "c")]).unwrap();
    s.add_records(1, &vec![rec(1, 11, "history", 1, "a")]).unwrap();
    s.add_records(1, &vec![rec(2, 11, "history", 2, "b")]).unwrap();

    let all = s
        .next_records(1, HostId(11), String::from("history"), None, 10)
        .unwrap();
    assert_eq!(idxs(&all), vec![1, 2, 3]);
}

#[test]
fn empty_store_reads_empty() {
    let s = MemoryStore::new();
    let page = s
        .next_records(1, HostId(11), String::from("history"), None, 10)
        .unwrap();
    assert!(page.is_empty());
    let st = s.status(1).unwrap();
    assert_eq!(st.len(), 0);
    assert_eq!(st.get(HostId(11), &String::from("history")), None);
}

#[test]
fn cache_tracks_maximum_across_batches() {
    let mut s = MemoryStore::new();
    s.add_records(1, &vec![rec(1, 11, "history", 1, "a"), rec(2, 11, "history", 2, "b")])
        .unwrap();
    assert!(s.cache_consistent(1));
    s.add_records(1, &vec![rec(3, 11, "history", 5, "e")]).unwrap();
    assert!(s.cache_consistent(1));
    // A batch below the maximum leaves the cache at the maximum.
    s.add_records(1, &vec![rec(4, 11, "history", 3, "c")]).unwrap();
    assert!(s.cache_consistent(1));

    let st = s.status(1).unwrap();
    assert_eq!(st.get(HostId(11), &String::from("history")), Some(5));
}

#[test]
fn streams_are_isolated() {
    let mut s = MemoryStore::new();
    s.add_records(1, &batch_1_to_5(11, "history")).unwrap();
    let before = s
        .next_records(1, HostId(11), String::from("history"), None, 10)
        .unwrap();

    // Pushes to another host, another tag, and another user.
    s.add_records(1, &batch_1_to_5(22, "history")).unwrap();
    s.add_records(1, &vec![rec(91, 11, "kv", 9, "z")]).unwrap();
    s.add_records(2, &vec![rec(92, 11, "history", 9, "z")]).unwrap();

    let after = s
        .next_records(1, HostId(11), String::from("history"), None, 10)
        .unwrap();
    assert_eq!(idxs(&before), idxs(&after));

    let st = s.status(1).unwrap();
    assert_eq!(st.get(HostId(11), &String::from("history")), Some(5));
    assert_eq!(st.get(HostId(22), &String::from("history")), Some(5));
    assert_eq!(st.get(HostId(11), &String::from("kv")), Some(9));
    assert!(s.cache_consistent(1));
    assert!(s.cache_consistent(2));
}

#[test]
fn delete_store_clears_one_user_only() {
    let mut s = MemoryStore::new();
    s.add_records(1, &batch_1_to_5(11, "history")).unwrap();
    s.add_records(2, &batch_1_to_5(22, "history")).unwrap();

    s.delete_store(1).unwrap();

    let st1 = s.status(1).unwrap();
    assert_eq!(st1.len(), 0);
    let gone = s
        .next_records(1, HostId(11), String::from("history"), None, 10)
        .unwrap();
    assert!(gone.is_empty());

    let st2 = s.status(2).unwrap();
    assert_eq!(st2.get(HostId(22), &String::from("history")), Some(5));
    let kept = s
        .next_records(2, HostId(22), String::from("history"), None, 10)
        .unwrap();
    assert_eq!(idxs(&kept), vec![1, 2, 3, 4, 5]);
    assert!(s.cache_consistent(1));
    assert!(s.cache_consistent(2));
}

#[test]
fn cursor_serves_the_largest_index() {
    let mut s = MemoryStore::new();
    s.add_records(1, &vec![rec(1, 11, "history", 1, "a"), rec(2, 11, "history", u64::MAX, "z")])
        .unwrap();

    let all = s
        .next_records(1, HostId(11), String::from("history"), None, 10)
        .unwrap();
    assert_eq!(idxs(&all), vec![1, u64::MAX]);

    let last = s
        .next_records(1, HostId(11), String::from("history"), Some(u64::MAX), 10)
        .unwrap();
    assert_eq!(idxs(&last), vec![u64::MAX]);

    let st = s.status(1).unwrap();
    assert_eq!(st.get(HostId(11), &String::from("history")), Some(u64::MAX));
    assert!(s.cache_consistent(1));
}

#[test]
fn status_equals_full_scan_aggregation() {
    let mut s = MemoryStore::new();
    s.add_records(7, &vec![rec(1, 1, "a", 4, "w"), rec(2, 1, "b", 2, "x")]).unwrap();
    s.add_records(7, &vec![rec(3, 2, "a", 9, "y"), rec(4, 1, "a", 6, "z")]).unwrap();

    // Independent aggregation over the raw rows.
    let mut expect: Vec<(u128, String, u64)> = Vec::new();
    for row in &s.records {
        if row.user == 7 {
            match expect
                .iter_mut()
                .find(|(h, t, _)| *h == row.record.host.0 && *t == row.record.tag)
            {
                Some(entry) => entry.2 = entry.2.max(row.record.idx),
                None => expect.push((row.record.host.0, row.record.tag.clone(), row.record.idx)),
            }
        }
    }

    let st = s.status(7).unwrap();
    assert_eq!(st.len(), expect.len());
    for (h, t, m) in expect {
        assert_eq!(st.get(HostId(h), &t), Some(m));
    }
}

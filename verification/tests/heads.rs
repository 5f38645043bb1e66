use sync_store::record::{EncryptedData, HostId, Record, RecordId};
use sync_store::status::{heads_lookup, heads_match, RecordStatus, StreamHead};
use sync_store::store::batch_heads;

fn rec(host: u128, tag: &str, idx: u64) -> Record {
    Record {
        id: RecordId(idx as u128),
        host: HostId(host),
        idx,
        timestamp: 0,
        version: String::from("v0"),
        tag: String::from(tag),
        data: EncryptedData {
            data: String::from("cipher"),
            content_encryption_key: String::from("key"),
        },
    }
}

fn head(host: u128, tag: &str, idx: u64) -> StreamHead {
    StreamHead { host: HostId(host), tag: String::from(tag), idx }
}

#[test]
fn batch_heads_take_the_per_stream_maximum() {
    let batch = vec![
        rec(1, "history", 2),
        rec(1, "history", 7),
        rec(1, "history", 5),
        rec(1, "kv", 1),
        rec(2, "history", 3),
    ];
    let heads = batch_heads(&batch);
    assert_eq!(heads.len(), 3);
    assert_eq!(heads_lookup(&heads, HostId(1), &String::from("history")), Some(7));
    assert_eq!(heads_lookup(&heads, HostId(1), &String::from("kv")), Some(1));
    assert_eq!(heads_lookup(&heads, HostId(2), &String::from("history")), Some(3));
    assert_eq!(heads_lookup(&heads, HostId(2), &String::from("kv")), None);
}

#[test]
fn batch_heads_of_an_empty_batch_are_empty() {
    let heads = batch_heads(&Vec::new());
    assert!(heads.is_empty());
}

#[test]
fn heads_match_ignores_order() {
    let a = vec![head(1, "history", 5), head(2, "kv", 3)];
    let b = vec![head(2, "kv", 3), head(1, "history", 5)];
    assert!(heads_match(&a, &b));
}

#[test]
fn heads_match_sees_any_difference() {
    let a = vec![head(1, "history", 5)];
    let changed = vec![head(1, "history", 4)];
    let extra = vec![head(1, "history", 5), head(2, "kv", 3)];
    let empty: Vec<StreamHead> = Vec::new();
    assert!(!heads_match(&a, &changed));
    assert!(!heads_match(&a, &extra));
    assert!(!heads_match(&extra, &a));
    assert!(!heads_match(&a, &empty));
    assert!(heads_match(&empty, &Vec::new()));
}

#[test]
fn status_set_raw_overwrites_and_gets() {
    let mut st = RecordStatus::new();
    st.set_raw(HostId(1), String::from("history"), 4);
    st.set_raw(HostId(1), String::from("history"), 9);
    st.set_raw(HostId(2), String::from("history"), 1);
    assert_eq!(st.get(HostId(1), &String::from("history")), Some(9));
    assert_eq!(st.get(HostId(2), &String::from("history")), Some(1));
    assert_eq!(st.get(HostId(3), &String::from("history")), None);
    assert_eq!(st.len(), 2);
}

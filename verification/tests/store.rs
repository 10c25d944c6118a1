use rpc_monitor::notification::SlotNotificationResult;
use rpc_monitor::store::{SlotRecord, SlotStore, StoreWrite};
use rpc_monitor::time::Timestamp;
use rpc_monitor::update::SlotUpdate;

fn update(nickname: &str, slot: u64, seconds: i64) -> SlotUpdate {
    SlotUpdate {
        timestamp: Timestamp::from_seconds(seconds),
        nickname: nickname.to_string(),
        slot_info: SlotNotificationResult { slot, parent: slot - 1, root: 0 },
        delay: None,
    }
}

fn record(key: &str, update: Option<SlotUpdate>) -> SlotRecord {
    SlotRecord { key: key.as_bytes().to_vec(), update }
}

#[test]
fn loaded_updates_are_found() {
    let store = SlotStore::load(vec![record("a:5", Some(update("a", 5, 10))), record("a:6", None)]);
    assert_eq!(store.count(), 2);
    assert_eq!(store.get("a", 5).unwrap().timestamp.bits(), 10.0f64.to_bits());
    assert!(store.get("a", 6).is_none());
    assert!(store.get("a", 7).is_none());
}

#[test]
fn of_two_records_with_one_key_the_later_counts() {
    let store = SlotStore::load(vec![
        record("a:5", Some(update("a", 5, 10))),
        record("a:5", Some(update("a", 5, 20))),
    ]);
    assert_eq!(store.count(), 1);
    assert_eq!(store.get("a", 5).unwrap().timestamp.bits(), 20.0f64.to_bits());
}

#[test]
fn stored_updates_are_pending_once() {
    let mut store = SlotStore::load(vec![]);
    store.put("a", 5, update("a", 5, 10));
    assert_eq!(store.get("a", 5).unwrap().nickname, "a");
    let writes = store.take_pending();
    assert_eq!(writes.len(), 1);
    match &writes[0] {
        StoreWrite::Put { key, update } => {
            assert_eq!(key, b"a:5");
            assert_eq!(update.slot_info.slot, 5);
        },
        StoreWrite::Delete { .. } => panic!("an update was stored"),
    }
    assert_eq!(store.take_pending().len(), 0);
    assert!(store.get("a", 5).is_some());
}

#[test]
fn pending_writes_bring_a_copy_up_to_date() {
    let records = || vec![record("a:1", Some(update("a", 1, 1))), record("b:9", Some(update("b", 9, 2)))];
    let mut store = SlotStore::load(records());
    store.put("c", 9, update("c", 9, 3));
    store.delete_below(5);
    let mut copy: Vec<(Vec<u8>, String)> =
        records().into_iter().map(|r| (r.key, r.update.unwrap().nickname)).collect();
    for write in store.take_pending() {
        match write {
            StoreWrite::Put { key, update } => {
                copy.retain(|entry| entry.0 != key);
                copy.push((key, update.nickname));
            },
            StoreWrite::Delete { key } => copy.retain(|entry| entry.0 != key),
        }
    }
    assert_eq!(copy, vec![(b"b:9".to_vec(), "b".to_string()), (b"c:9".to_vec(), "c".to_string())]);
    assert_eq!(store.count(), 2);
    assert_eq!(store.key_at(0), b"b:9");
    assert_eq!(store.key_at(1), b"c:9");
}

use rpc_monitor::notification::SlotNotificationResult;
use rpc_monitor::slots::{
    cleanup_websocket_db, cleanup_websocket_db_with_threshold, get_earliest_common_websocket_slot_with_min,
    get_latest_websocket_slot,
};
use rpc_monitor::store::{SlotRecord, SlotStore, StoreWrite};
use rpc_monitor::time::Timestamp;
use rpc_monitor::update::SlotUpdate;

fn keyed(keys: &[&[u8]]) -> SlotStore {
    SlotStore::load(keys.iter().map(|key| SlotRecord { key: key.to_vec(), update: None }).collect())
}

fn left(store: &SlotStore) -> Vec<Vec<u8>> {
    (0..store.count()).map(|i| store.key_at(i).clone()).collect()
}

#[test]
fn latest_slot_is_the_highest() {
    let store = keyed(&[b"a:7", b"b:12", b"a:9"]);
    assert_eq!(get_latest_websocket_slot(&store), Some(12));
}

#[test]
fn there_is_no_latest_slot_without_slots() {
    assert_eq!(get_latest_websocket_slot(&keyed(&[])), None);
    assert_eq!(get_latest_websocket_slot(&keyed(&[b"a", b"a:b:3", b"\xff:9", b"a:x"])), None);
}

#[test]
fn earliest_common_slot_is_shared_by_all_endpoints() {
    let store = keyed(&[b"a:1", b"a:2", b"a:4", b"b:2", b"b:4", b"c:4"]);
    assert_eq!(get_earliest_common_websocket_slot_with_min(&store, 0), Some(4));
    let store = keyed(&[b"a:1", b"a:2", b"a:4", b"b:2", b"b:4"]);
    assert_eq!(get_earliest_common_websocket_slot_with_min(&store, 0), Some(2));
    assert_eq!(get_earliest_common_websocket_slot_with_min(&store, 2), Some(2));
    assert_eq!(get_earliest_common_websocket_slot_with_min(&store, 3), Some(4));
}

#[test]
fn endpoints_without_recent_slots_count() {
    let store = keyed(&[b"a:10", b"a:11", b"b:3"]);
    assert_eq!(get_earliest_common_websocket_slot_with_min(&store, 5), None);
    assert_eq!(get_earliest_common_websocket_slot_with_min(&store, 0), None);
    let store = keyed(&[b"A:5", b"B:10"]);
    assert_eq!(get_earliest_common_websocket_slot_with_min(&store, 8), None);
}

#[test]
fn there_is_no_common_slot_above_all_slots() {
    let store = keyed(&[b"a:10", b"b:10"]);
    assert_eq!(get_earliest_common_websocket_slot_with_min(&store, 11), None);
    assert_eq!(get_earliest_common_websocket_slot_with_min(&keyed(&[]), 0), None);
}

#[test]
fn cleanup_removes_only_old_slots() {
    let mut store = keyed(&[b"a:100", b"b:89", b"a:90", b"odd", b"c:d:1", b"b:5"]);
    cleanup_websocket_db_with_threshold(&mut store, 10);
    assert_eq!(left(&store), vec![b"a:100".to_vec(), b"a:90".to_vec(), b"odd".to_vec(), b"c:d:1".to_vec()]);
    let deleted: Vec<Vec<u8>> = store
        .take_pending()
        .into_iter()
        .map(|write| match write {
            StoreWrite::Delete { key } => key,
            StoreWrite::Put { .. } => panic!("nothing was stored"),
        })
        .collect();
    assert_eq!(deleted, vec![b"b:89".to_vec(), b"b:5".to_vec()]);
}

#[test]
fn cleanup_keeps_the_latest_slot() {
    let mut store = keyed(&[b"a:100", b"b:3"]);
    cleanup_websocket_db_with_threshold(&mut store, 0);
    assert_eq!(get_latest_websocket_slot(&store), Some(100));
    assert_eq!(store.count(), 1);
}

#[test]
fn cleaning_up_twice_does_no_more() {
    let mut store = keyed(&[b"a:100", b"b:95", b"b:3"]);
    cleanup_websocket_db_with_threshold(&mut store, 5);
    assert_eq!(store.take_pending().len(), 1);
    cleanup_websocket_db_with_threshold(&mut store, 5);
    assert_eq!(store.take_pending().len(), 0);
    assert_eq!(store.count(), 2);
}

#[test]
fn cleanup_reaches_back_five_hundred_slots() {
    let mut store = keyed(&[b"a:1000", b"a:500", b"a:499"]);
    cleanup_websocket_db(&mut store);
    assert_eq!(left(&store), vec![b"a:1000".to_vec(), b"a:500".to_vec()]);
}

#[test]
fn cleanup_of_low_slots_or_none_changes_nothing() {
    let mut store = keyed(&[b"a:100", b"a:0"]);
    cleanup_websocket_db(&mut store);
    assert_eq!(store.count(), 2);
    let mut store = keyed(&[b"odd"]);
    cleanup_websocket_db_with_threshold(&mut store, 0);
    assert_eq!(store.count(), 1);
    assert_eq!(store.take_pending().len(), 0);
}

#[test]
fn a_stored_update_advances_the_latest_slot() {
    let mut store = keyed(&[b"a:100"]);
    for (slot, latest) in [(99u64, 100u64), (101, 101)] {
        let update = SlotUpdate {
            timestamp: Timestamp::zero(),
            nickname: "b".to_string(),
            slot_info: SlotNotificationResult { slot, parent: 0, root: 0 },
            delay: None,
        };
        store.put("b", slot, update);
        assert_eq!(get_latest_websocket_slot(&store), Some(latest));
    }
}

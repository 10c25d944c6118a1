use rpc_monitor::notification::SlotNotificationResult;
use rpc_monitor::store::{SlotRecord, SlotStore};
use rpc_monitor::target::{get_slot_updates_for_target_slot, slot_updates_at};
use rpc_monitor::time::Timestamp;
use rpc_monitor::update::{Delay, SlotUpdate};

fn record(name: &str, slot: u64, seconds: i64) -> SlotRecord {
    let update = SlotUpdate {
        timestamp: Timestamp::from_seconds(seconds),
        nickname: name.to_string(),
        slot_info: SlotNotificationResult { slot, parent: 3, root: 2 },
        delay: None,
    };
    SlotRecord { key: format!("{name}:{slot}").into_bytes(), update: Some(update) }
}

fn names(list: &[&str]) -> Vec<String> {
    list.iter().map(|name| name.to_string()).collect()
}

#[test]
fn reported_slots_are_shown_as_stored() {
    let store = SlotStore::load(vec![record("a", 4, 10)]);
    let updates = slot_updates_at(&store, &names(&["a"]), 4, None);
    let update = updates.get(&"a".to_string()).unwrap();
    assert_eq!(update.timestamp.bits(), 10.0f64.to_bits());
    assert_eq!(update.slot_info, SlotNotificationResult { slot: 4, parent: 3, root: 2 });
    assert!(update.delay.is_none());
    assert!(updates.get(&"b".to_string()).is_none());
}

#[test]
fn missing_slots_get_a_placeholder() {
    let store = SlotStore::load(vec![record("a", 4, 10), record("c", 4, 9)]);
    let now = Timestamp::from_seconds(12);
    let updates = slot_updates_at(&store, &names(&["a", "b", "c"]), 4, Some(now));
    let update = updates.get(&"b".to_string()).unwrap();
    assert_eq!(update.timestamp.bits(), (-1.0f64).to_bits());
    assert_eq!(update.nickname, "b");
    assert_eq!(update.slot_info, SlotNotificationResult { slot: 4, parent: u64::MAX, root: u64::MAX });
    match update.delay {
        Some(Delay::Behind { observed, winner }) => {
            assert_eq!(observed.bits(), 12.0f64.to_bits());
            assert_eq!(winner.bits(), 9.0f64.to_bits());
        },
        _ => panic!("no delay was given"),
    }
}

#[test]
fn without_a_clock_the_placeholder_counts_from_the_epoch() {
    let store = SlotStore::load(vec![record("a", 4, 10)]);
    let updates = slot_updates_at(&store, &names(&["a", "b"]), 4, None);
    match updates.get(&"b".to_string()).unwrap().delay {
        Some(Delay::Behind { observed, .. }) => assert_eq!(observed.bits(), 0.0f64.to_bits()),
        _ => panic!("no delay was given"),
    }
}

#[test]
fn a_slot_that_nobody_reported_has_placeholders_without_delay() {
    let store = SlotStore::load(vec![]);
    let updates = get_slot_updates_for_target_slot(&store, &names(&["a"]), 4);
    assert!(updates.get(&"a".to_string()).unwrap().delay.is_none());
}

#[test]
fn placeholders_are_behind_by_the_time_that_has_passed() {
    let store = SlotStore::load(vec![record("a", 4, 10)]);
    let updates = get_slot_updates_for_target_slot(&store, &names(&["a", "b"]), 4);
    match updates.get(&"b".to_string()).unwrap().delay {
        Some(Delay::Behind { observed, winner }) => {
            assert!(f64::from_bits(observed.bits()) > 1.6e9);
            assert_eq!(winner.bits(), 10.0f64.to_bits());
        },
        _ => panic!("no delay was given"),
    }
}

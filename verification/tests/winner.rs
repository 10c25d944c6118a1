use rpc_monitor::notification::SlotNotificationResult;
use rpc_monitor::store::{SlotRecord, SlotStore, StoreWrite};
use rpc_monitor::time::Timestamp;
use rpc_monitor::update::{Delay, SlotUpdate};
use rpc_monitor::winner::{get_slot_winner, update_delays_for_timestamp};

fn at(seconds: f64) -> Timestamp {
    Timestamp::from_bits(seconds.to_bits()).unwrap()
}

fn update(nickname: &str, slot: u64, seconds: f64) -> SlotUpdate {
    SlotUpdate {
        timestamp: at(seconds),
        nickname: nickname.to_string(),
        slot_info: SlotNotificationResult { slot, parent: 0, root: 0 },
        delay: None,
    }
}

fn record(name: &str, slot: u64, update: SlotUpdate) -> SlotRecord {
    SlotRecord { key: format!("{name}:{slot}").into_bytes(), update: Some(update) }
}

fn names(list: &[&str]) -> Vec<String> {
    list.iter().map(|name| name.to_string()).collect()
}

fn behind(delay: Option<Delay>) -> (f64, f64) {
    match delay {
        Some(Delay::Behind { observed, winner }) => (f64::from_bits(observed.bits()), f64::from_bits(winner.bits())),
        _ => panic!("no delay was noted"),
    }
}

#[test]
fn earliest_endpoint_wins() {
    let mut store = SlotStore::load(vec![
        record("a", 7, update("a", 7, 10.5)),
        record("b", 7, update("b", 7, 10.25)),
        record("c", 7, update("c", 7, 11.0)),
    ]);
    let (nickname, timestamp) = get_slot_winner(&mut store, &names(&["a", "b", "c"]), 7).unwrap();
    assert_eq!(nickname, "b");
    assert_eq!(timestamp.bits(), 10.25f64.to_bits());
}

#[test]
fn first_endpoint_in_the_row_wins_a_tie() {
    let mut store =
        SlotStore::load(vec![record("a", 7, update("a", 7, 10.0)), record("b", 7, update("b", 7, 10.0))]);
    assert_eq!(get_slot_winner(&mut store, &names(&["a", "b"]), 7).unwrap().0, "a");
    assert_eq!(get_slot_winner(&mut store, &names(&["b", "a"]), 7).unwrap().0, "b");
}

#[test]
fn a_slot_that_nobody_reported_has_no_winner() {
    let mut store = SlotStore::load(vec![record("a", 7, update("a", 7, 10.0))]);
    assert!(get_slot_winner(&mut store, &names(&["a"]), 8).is_none());
    assert!(get_slot_winner(&mut store, &names(&["b"]), 7).is_none());
    assert!(get_slot_winner(&mut store, &[], 7).is_none());
    assert_eq!(store.take_pending().len(), 0);
}

#[test]
fn updates_of_another_slot_or_no_updates_do_not_take_part() {
    let mut store = SlotStore::load(vec![
        record("a", 7, update("a", 6, 1.0)),
        SlotRecord { key: b"b:7".to_vec(), update: None },
        record("c", 7, update("c", 7, 5.0)),
    ]);
    let all = names(&["a", "b", "c"]);
    assert_eq!(get_slot_winner(&mut store, &all, 7).unwrap().0, "c");
    assert!(store.get("a", 7).unwrap().delay.is_none());
}

#[test]
fn every_participant_is_told_its_delay() {
    let mut store =
        SlotStore::load(vec![record("a", 7, update("a", 7, 10.5)), record("b", 7, update("b", 7, 10.25))]);
    get_slot_winner(&mut store, &names(&["a", "b"]), 7);
    assert_eq!(behind(store.get("a", 7).unwrap().delay), (10.5, 10.25));
    assert_eq!(behind(store.get("b", 7).unwrap().delay), (10.25, 10.25));
    let keys: Vec<Vec<u8>> = store
        .take_pending()
        .into_iter()
        .map(|write| match write {
            StoreWrite::Put { key, .. } => key,
            StoreWrite::Delete { .. } => panic!("nothing was removed"),
        })
        .collect();
    assert_eq!(keys, vec![b"a:7".to_vec(), b"b:7".to_vec()]);
}

#[test]
fn finding_the_winner_again_changes_nothing() {
    let mut store =
        SlotStore::load(vec![record("a", 7, update("a", 7, 10.5)), record("b", 7, update("b", 7, 10.25))]);
    let all = names(&["a", "b"]);
    let first = get_slot_winner(&mut store, &all, 7).unwrap();
    let again = get_slot_winner(&mut store, &all, 7).unwrap();
    assert_eq!(first.0, again.0);
    assert_eq!(first.1.bits(), again.1.bits());
    assert_eq!(behind(store.get("a", 7).unwrap().delay), (10.5, 10.25));
    assert_eq!(store.count(), 2);
}

#[test]
fn finding_the_winner_leaves_other_slots() {
    let mut store =
        SlotStore::load(vec![record("a", 7, update("a", 7, 10.5)), record("a", 8, update("a", 8, 11.5))]);
    get_slot_winner(&mut store, &names(&["a"]), 7);
    assert!(store.get("a", 8).unwrap().delay.is_none());
}

#[test]
fn delays_are_stored_under_the_nickname_of_the_update() {
    let mut store = SlotStore::load(vec![record("a", 7, update("z", 7, 10.0))]);
    assert_eq!(get_slot_winner(&mut store, &names(&["a"]), 7).unwrap().0, "z");
    assert!(store.get("a", 7).unwrap().delay.is_none());
    assert_eq!(behind(store.get("z", 7).unwrap().delay), (10.0, 10.0));
}

#[test]
fn delays_are_noted_against_the_given_time() {
    let mut store = SlotStore::load(vec![]);
    update_delays_for_timestamp(&mut store, 3, vec![update("a", 3, 5.0), update("b", 3, 6.0)], at(4.5));
    assert_eq!(behind(store.get("a", 3).unwrap().delay), (5.0, 4.5));
    assert_eq!(behind(store.get("b", 3).unwrap().delay), (6.0, 4.5));
    assert_eq!(store.take_pending().len(), 2);
}

use rpc_monitor::names::NameMap;
use rpc_monitor::notification::SlotNotificationResult;
use rpc_monitor::rates::compute_win_rates_with_range;
use rpc_monitor::share::Share;
use rpc_monitor::store::{SlotRecord, SlotStore};
use rpc_monitor::time::Timestamp;
use rpc_monitor::update::{Delay, SlotUpdate};

fn record(name: &str, slot: u64, seconds: i64) -> SlotRecord {
    let update = SlotUpdate {
        timestamp: Timestamp::from_seconds(seconds),
        nickname: name.to_string(),
        slot_info: SlotNotificationResult { slot, parent: 0, root: 0 },
        delay: None,
    };
    SlotRecord { key: format!("{name}:{slot}").into_bytes(), update: Some(update) }
}

fn names(list: &[&str]) -> Vec<String> {
    list.iter().map(|name| name.to_string()).collect()
}

fn rate(rates: &NameMap<Share>, name: &str) -> Option<Share> {
    rates.get(&name.to_string()).copied()
}

#[test]
fn each_winner_has_its_share_of_the_slots() {
    let mut store = SlotStore::load(vec![
        record("a", 1, 10),
        record("b", 1, 11),
        record("a", 2, 21),
        record("b", 2, 20),
        record("a", 3, 30),
        record("c", 9, 90),
    ]);
    let all = names(&["a", "b", "c"]);
    let rates = compute_win_rates_with_range(&mut store, &all, 1, 4).unwrap();
    assert_eq!(rate(&rates, "a"), Some(Share { part: 2, whole: 3 }));
    assert_eq!(rate(&rates, "b"), Some(Share { part: 1, whole: 3 }));
    assert_eq!(rate(&rates, "c"), None);
}

#[test]
fn wins_add_up_to_the_slots_that_have_a_winner() {
    let mut store =
        SlotStore::load(vec![record("a", 1, 1), record("b", 2, 2), record("b", 4, 4), record("c", 5, 5)]);
    let all = names(&["a", "b", "c"]);
    let rates = compute_win_rates_with_range(&mut store, &all, 0, 10).unwrap();
    let total: u64 = all.iter().map(|name| rate(&rates, name).unwrap().part).sum();
    assert_eq!(total, 4);
    assert_eq!(rate(&rates, "b"), Some(Share { part: 2, whole: 4 }));
}

#[test]
fn a_range_without_winners_has_no_rates() {
    let mut store = SlotStore::load(vec![record("a", 1, 1)]);
    let all = names(&["a"]);
    assert!(compute_win_rates_with_range(&mut store, &all, 2, 5).is_none());
    assert!(compute_win_rates_with_range(&mut store, &all, 5, 2).is_none());
    assert_eq!(store.take_pending().len(), 0);
}

#[test]
fn the_last_of_all_slots_can_be_evaluated() {
    let mut store = SlotStore::load(vec![record("a", u64::MAX, 1)]);
    let rates = compute_win_rates_with_range(&mut store, &names(&["a"]), u64::MAX - 1, u64::MAX).unwrap();
    assert_eq!(rate(&rates, "a"), Some(Share { part: 1, whole: 1 }));
}

#[test]
fn every_slot_of_the_range_is_told_its_delays() {
    let mut store = SlotStore::load(vec![record("a", 1, 10), record("b", 1, 12), record("a", 5, 50)]);
    compute_win_rates_with_range(&mut store, &names(&["a", "b"]), 1, 3);
    match store.get("b", 1).unwrap().delay {
        Some(Delay::Behind { observed, winner }) => {
            assert_eq!(observed.bits(), 12.0f64.to_bits());
            assert_eq!(winner.bits(), 10.0f64.to_bits());
        },
        _ => panic!("no delay was noted"),
    }
    assert!(store.get("a", 5).unwrap().delay.is_none());
    assert_eq!(store.get("b", 1).unwrap().nickname, "b");
    assert_eq!(store.take_pending().len(), 2);
}

#[test]
fn evaluating_a_range_again_finds_the_same_winners() {
    let mut store = SlotStore::load(vec![record("a", 1, 10), record("b", 1, 9), record("a", 2, 20)]);
    let all = names(&["a", "b"]);
    let first = compute_win_rates_with_range(&mut store, &all, 1, 2).unwrap();
    let again = compute_win_rates_with_range(&mut store, &all, 1, 2).unwrap();
    for name in ["a", "b"] {
        assert_eq!(rate(&first, name), rate(&again, name));
    }
}

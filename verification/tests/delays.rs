use rpc_monitor::delays::{avg_delay_for_endpoint, compute_avg_delays_with_range, delay_at_slot};
use rpc_monitor::notification::SlotNotificationResult;
use rpc_monitor::rates::compute_win_rates_with_range;
use rpc_monitor::store::{SlotRecord, SlotStore};
use rpc_monitor::time::Timestamp;
use rpc_monitor::update::{Delay, SlotUpdate};

fn record(name: &str, slot: u64, seconds: i64, delay: Option<f64>) -> SlotRecord {
    let update = SlotUpdate {
        timestamp: Timestamp::from_seconds(seconds),
        nickname: name.to_string(),
        slot_info: SlotNotificationResult { slot, parent: 0, root: 0 },
        delay: delay.map(|ms| Delay::Stored(ms.to_bits())),
    };
    SlotRecord { key: format!("{name}:{slot}").into_bytes(), update: Some(update) }
}

fn names(list: &[&str]) -> Vec<String> {
    list.iter().map(|name| name.to_string()).collect()
}

fn milliseconds(delay: &Delay) -> f64 {
    match delay {
        Delay::Stored(bits) => f64::from_bits(*bits),
        Delay::Behind { observed, winner } => {
            (f64::from_bits(observed.bits()) - f64::from_bits(winner.bits())) * 1000.0
        },
    }
}

#[test]
fn a_stored_delay_counts_as_it_is() {
    let mut store = SlotStore::load(vec![record("a", 1, 10, Some(2.5)), record("b", 1, 9, None)]);
    let delay = delay_at_slot(&mut store, &names(&["a", "b"]), "a", 1, None).unwrap();
    assert_eq!(milliseconds(&delay), 2.5);
    assert_eq!(store.take_pending().len(), 0);
}

#[test]
fn a_missing_delay_is_the_time_since_the_winner() {
    let mut store = SlotStore::load(vec![record("a", 1, 10, None)]);
    let all = names(&["a", "b"]);
    let now = Timestamp::from_seconds(13);
    let delay = delay_at_slot(&mut store, &all, "b", 1, Some(now)).unwrap();
    assert_eq!(milliseconds(&delay), 3000.0);
    assert_eq!(store.take_pending().len(), 1);
}

#[test]
fn without_a_clock_or_a_winner_there_is_no_delay() {
    let mut store = SlotStore::load(vec![record("a", 1, 10, None)]);
    let all = names(&["a", "b"]);
    assert!(delay_at_slot(&mut store, &all, "b", 1, None).is_none());
    assert_eq!(store.take_pending().len(), 1);
    assert!(delay_at_slot(&mut store, &all, "b", 2, Some(Timestamp::zero())).is_none());
}

#[test]
fn average_collects_the_delays_of_a_range() {
    let mut store = SlotStore::load(vec![
        record("a", 1, 10, Some(1.0)),
        record("a", 2, 20, Some(2.0)),
        record("a", 4, 40, Some(4.0)),
    ]);
    let terms = avg_delay_for_endpoint(&mut store, &names(&["a"]), "a", 1, 3).unwrap();
    let values: Vec<f64> = terms.iter().map(milliseconds).collect();
    assert_eq!(values, vec![1.0, 2.0]);
}

#[test]
fn an_endpoint_without_delays_has_no_average() {
    let mut store = SlotStore::load(vec![record("a", 1, 10, Some(1.0))]);
    assert!(avg_delay_for_endpoint(&mut store, &names(&["a"]), "a", 2, 9).is_none());
    assert!(avg_delay_for_endpoint(&mut store, &names(&["a"]), "a", 9, 2).is_none());
}

#[test]
fn a_slot_that_an_endpoint_missed_counts_up_to_now() {
    let mut store = SlotStore::load(vec![record("a", 1, 10, Some(0.0))]);
    let terms = avg_delay_for_endpoint(&mut store, &names(&["a", "b"]), "b", 1, 1).unwrap();
    assert_eq!(terms.len(), 1);
    assert!(milliseconds(&terms[0]) > 1.6e12);
}

#[test]
fn a_reported_slot_counts_the_time_behind_the_winner() {
    let mut store = SlotStore::load(vec![record("a", 1, 10, None), record("b", 1, 12, None)]);
    let all = names(&["a", "b"]);
    compute_win_rates_with_range(&mut store, &all, 1, 1);
    let list = compute_avg_delays_with_range(&mut store, &all, 1, 1).unwrap();
    let values: Vec<(String, Vec<f64>)> = list
        .into_iter()
        .map(|(name, terms)| (name, terms.unwrap().iter().map(milliseconds).collect()))
        .collect();
    assert_eq!(values, vec![("a".to_string(), vec![0.0]), ("b".to_string(), vec![2000.0])]);
}

#[test]
fn averages_are_listed_in_the_order_of_the_endpoints() {
    let mut store = SlotStore::load(vec![record("b", 3, 10, Some(7.0))]);
    let list = compute_avg_delays_with_range(&mut store, &names(&["b", "c"]), 2, 3).unwrap();
    assert_eq!(list.len(), 2);
    assert_eq!(list[0].0, "b");
    assert_eq!(list[1].0, "c");
    let values: Vec<f64> = list[0].1.as_ref().unwrap().iter().map(milliseconds).collect();
    assert_eq!(values, vec![7.0]);
}

#[test]
fn an_empty_range_has_no_averages() {
    let mut store = SlotStore::load(vec![record("a", 1, 10, Some(1.0))]);
    assert!(compute_avg_delays_with_range(&mut store, &names(&["a"]), 2, 1).is_none());
}

#[test]
fn a_range_without_any_delay_has_no_averages() {
    let mut store = SlotStore::load(vec![]);
    assert!(compute_avg_delays_with_range(&mut store, &names(&["a", "b"]), 1, 5).is_none());
    let mut store = SlotStore::load(vec![record("a", 9, 10, Some(1.0))]);
    assert!(compute_avg_delays_with_range(&mut store, &names(&["a"]), 1, 5).is_none());
    assert!(compute_avg_delays_with_range(&mut store, &[], 9, 9).is_none());
}

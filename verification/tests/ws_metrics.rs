use rpc_monitor::config::{Config, RpcConfig, RpcEndpoint};
use rpc_monitor::names::NameMap;
use rpc_monitor::notification::SlotNotificationResult;
use rpc_monitor::share::Share;
use rpc_monitor::store::{SlotRecord, SlotStore};
use rpc_monitor::time::Timestamp;
use rpc_monitor::update::{Delay, SlotUpdate};
use rpc_monitor::ws_metrics::{collect_stats, endpoint_names, get_ws_metrics, Average};

fn record(name: &str, slot: u64, seconds: i64) -> SlotRecord {
    let update = SlotUpdate {
        timestamp: Timestamp::from_seconds(seconds),
        nickname: name.to_string(),
        slot_info: SlotNotificationResult { slot, parent: 0, root: 0 },
        delay: None,
    };
    SlotRecord { key: format!("{name}:{slot}").into_bytes(), update: Some(update) }
}

fn config(list: &[&str]) -> Config {
    let endpoints = list
        .iter()
        .map(|name| RpcEndpoint { url: format!("wss://{name}"), nickname: name.to_string() })
        .collect();
    Config { rpc: RpcConfig { endpoints: Vec::new() }, ws: RpcConfig { endpoints } }
}

fn milliseconds(average: &Average) -> Vec<f64> {
    match average {
        Average::Fixed(bits) => vec![f64::from_bits(*bits)],
        Average::MeanOf(delays) => delays
            .iter()
            .map(|delay| match delay {
                Delay::Stored(bits) => f64::from_bits(*bits),
                Delay::Behind { observed, winner } => {
                    (f64::from_bits(observed.bits()) - f64::from_bits(winner.bits())) * 1000.0
                },
            })
            .collect(),
    }
}

#[test]
fn nothing_stored_gives_an_empty_response() {
    let mut store = SlotStore::load(vec![]);
    let response = get_ws_metrics(&mut store, &config(&["a"]));
    assert_eq!((response.start_slot, response.latest_slot, response.stats.len()), (0, 0, 0));
}

#[test]
fn slots_without_winners_give_an_empty_response() {
    let mut store = SlotStore::load(vec![record("x", 50, 1)]);
    let response = get_ws_metrics(&mut store, &config(&["a"]));
    assert_eq!((response.start_slot, response.latest_slot, response.stats.len()), (0, 0, 0));
}

#[test]
fn endpoints_are_rated_over_the_common_slots() {
    let mut store = SlotStore::load(vec![
        record("a", 999, 5),
        record("a", 1000, 10),
        record("b", 1000, 12),
        record("a", 1001, 21),
        record("b", 1001, 20),
        record("a", 1002, 30),
        record("b", 1002, 33),
    ]);
    let response = get_ws_metrics(&mut store, &config(&["a", "b"]));
    assert_eq!((response.start_slot, response.latest_slot), (1000, 1002));
    let a = &response.stats[0];
    let b = &response.stats[1];
    assert_eq!((a.nickname.as_str(), b.nickname.as_str()), ("a", "b"));
    assert_eq!(a.win_rate, Share { part: 2, whole: 3 });
    assert_eq!(b.win_rate, Share { part: 1, whole: 3 });
    assert_eq!(milliseconds(&a.avg_delay), vec![0.0, 1000.0, 0.0]);
    assert_eq!(milliseconds(&b.avg_delay), vec![2000.0, 0.0, 3000.0]);
    assert_eq!(a.slot_details.slot_info.slot, 1002);
    assert_eq!(b.slot_details.timestamp.bits(), 33.0f64.to_bits());
}

#[test]
fn the_range_reaches_back_two_hundred_slots_at_most() {
    let mut store = SlotStore::load(vec![record("a", 100, 1), record("a", 1000, 10), record("b", 700, 5)]);
    let response = get_ws_metrics(&mut store, &config(&["a", "b"]));
    assert_eq!((response.start_slot, response.latest_slot), (800, 1000));
    let mut store = SlotStore::load(vec![record("a", 1000, 10), record("b", 999, 5)]);
    let response = get_ws_metrics(&mut store, &config(&["a", "b"]));
    assert_eq!((response.start_slot, response.latest_slot), (800, 1000));
}

#[test]
fn an_endpoint_that_missed_the_slot_has_no_wins_and_a_growing_delay() {
    let mut store = SlotStore::load(vec![record("a", 5, 10)]);
    let response = get_ws_metrics(&mut store, &config(&["a", "b"]));
    let b = &response.stats[1];
    assert_eq!(b.win_rate, Share { part: 0, whole: 0 });
    assert!(milliseconds(&b.avg_delay).iter().all(|ms| *ms > 1.6e12));
    assert_eq!(b.slot_details.timestamp.bits(), (-1.0f64).to_bits());
    assert_eq!(b.slot_details.slot_info.parent, u64::MAX);
}

#[test]
fn endpoint_names_are_those_of_the_websocket_endpoints() {
    assert_eq!(endpoint_names(&config(&["a", "b"])), vec!["a".to_string(), "b".to_string()]);
}

#[test]
fn statistics_that_are_missing_are_filled_in() {
    let stats = collect_stats(&["a".to_string()], &NameMap::new(), &Vec::new(), &NameMap::new());
    assert_eq!(stats.len(), 1);
    assert_eq!(stats[0].nickname, "a");
    assert_eq!(stats[0].win_rate, Share { part: 0, whole: 0 });
    assert_eq!(milliseconds(&stats[0].avg_delay), vec![-1.0]);
    let details = &stats[0].slot_details;
    assert_eq!(details.timestamp.bits(), 0.0f64.to_bits());
    assert_eq!(details.slot_info, SlotNotificationResult { slot: 0, parent: 0, root: 0 });
    assert!(matches!(details.delay, Some(Delay::Stored(bits)) if bits == (-1.0f64).to_bits()));
}

#[test]
fn the_first_average_of_a_name_counts() {
    let list = vec![
        ("a".to_string(), None),
        ("b".to_string(), Some(vec![Delay::Stored(1.0f64.to_bits())])),
        ("b".to_string(), Some(vec![Delay::Stored(2.0f64.to_bits())])),
    ];
    let names = ["b".to_string(), "a".to_string()];
    let stats = collect_stats(&names, &NameMap::new(), &list, &NameMap::new());
    assert_eq!(milliseconds(&stats[0].avg_delay), vec![1.0]);
    assert_eq!(milliseconds(&stats[1].avg_delay), vec![-1.0]);
}

#[test]
fn evaluating_again_changes_nothing() {
    let mut store = SlotStore::load(vec![
        record("a", 10, 100),
        record("b", 10, 101),
        record("b", 11, 110),
        record("a", 12, 121),
        record("b", 12, 120),
    ]);
    let config = config(&["a", "b"]);
    let first = get_ws_metrics(&mut store, &config);
    let keys: Vec<Vec<u8>> = (0..store.count()).map(|i| store.key_at(i).clone()).collect();
    let seen = |store: &SlotStore| {
        let mut list = Vec::new();
        for (name, slot) in [("a", 10), ("b", 10), ("b", 11), ("a", 12), ("b", 12)] {
            let update = store.get(name, slot).unwrap();
            let delay = match update.delay {
                Some(Delay::Behind { observed, winner }) => Some((observed.bits(), winner.bits())),
                _ => None,
            };
            list.push((update.timestamp.bits(), update.nickname.clone(), update.slot_info, delay));
        }
        list
    };
    let before = seen(&store);
    let again = get_ws_metrics(&mut store, &config);
    assert_eq!((first.start_slot, first.latest_slot), (again.start_slot, again.latest_slot));
    for (one, other) in first.stats.iter().zip(&again.stats) {
        assert_eq!(one.nickname, other.nickname);
        assert_eq!(one.win_rate, other.win_rate);
    }
    assert_eq!(seen(&store), before);
    assert_eq!((0..store.count()).map(|i| store.key_at(i).clone()).collect::<Vec<_>>(), keys);
    assert_eq!(store.count(), 5);
}

use rpc_monitor::consensus::{calculate_consensus, lead_is_small};
use rpc_monitor::rpc::RPCResponse;
use rpc_monitor::share::Share;
use rpc_monitor::time::Timestamp;

fn response(nickname: &str, slot: u64, blockhash: &str, latency_ms: u128) -> RPCResponse {
    RPCResponse {
        timestamp: Timestamp::from_seconds(1_700_000_000),
        slot,
        blockhash: blockhash.to_string(),
        latency_ms,
        rpc_url: format!("https://{nickname}"),
        nickname: nickname.to_string(),
    }
}

#[test]
fn no_responses_give_no_data() {
    let stats = calculate_consensus(&[]);
    assert_eq!(stats.fastest_rpc, "No data");
    assert_eq!(stats.slowest_rpc, "No data");
    assert_eq!(stats.consensus_blockhash, "No data");
    assert_eq!(stats.slot_skew, "No data");
    assert_eq!((stats.fastest_latency, stats.slowest_latency), (0, 0));
    assert_eq!((stats.consensus_slot, stats.total_rpcs, stats.slot_difference), (0, 0, 0));
    assert_eq!(stats.consensus_percentage, Share { part: 0, whole: 0 });
    assert!(stats.average_latency.is_empty());
    assert!(stats.latency_leaderboard.is_empty() && stats.slot_leaderboard.is_empty());
}

#[test]
fn most_common_blockhash_and_slot_are_the_consensus() {
    let stats = calculate_consensus(&[
        response("a", 10, "x", 30),
        response("b", 11, "y", 20),
        response("c", 11, "y", 40),
        response("d", 12, "z", 10),
    ]);
    assert_eq!(stats.consensus_blockhash, "y");
    assert_eq!(stats.consensus_slot, 11);
    assert_eq!(stats.consensus_percentage, Share { part: 2, whole: 4 });
    assert_eq!(stats.total_rpcs, 4);
    assert_eq!(stats.average_latency, vec![30, 20, 40, 10]);
}

#[test]
fn of_equally_common_values_the_first_counts() {
    let stats = calculate_consensus(&[response("a", 2, "y", 1), response("b", 1, "x", 1)]);
    assert_eq!(stats.consensus_blockhash, "y");
    assert_eq!(stats.consensus_slot, 2);
    assert_eq!(stats.consensus_percentage, Share { part: 1, whole: 2 });
}

#[test]
fn fastest_is_the_first_and_slowest_the_last_of_equals() {
    let stats = calculate_consensus(&[
        response("a", 5, "x", 10),
        response("b", 5, "x", 10),
        response("c", 5, "x", 90),
        response("d", 5, "x", 90),
    ]);
    assert_eq!(stats.fastest_rpc, "a");
    assert_eq!(stats.slowest_rpc, "d");
    assert_eq!((stats.fastest_latency, stats.slowest_latency), (10, 90));
    assert_eq!(stats.slot_skew, "No skew");
}

#[test]
fn skew_tells_who_is_ahead() {
    let stats = calculate_consensus(&[response("a", 120, "x", 1), response("b", 100, "x", 2)]);
    assert_eq!(stats.slot_difference, 20);
    assert_eq!(stats.slot_skew, "Fastest ahead by 20 slots");
    let stats = calculate_consensus(&[response("a", 99, "x", 1), response("b", 100, "x", 2)]);
    assert_eq!(stats.slot_difference, -1);
    assert_eq!(stats.slot_skew, "Slowest ahead by 1 slots");
}

#[test]
fn slots_are_compared_as_signed_numbers() {
    let stats = calculate_consensus(&[response("a", u64::MAX, "x", 1), response("b", 4, "x", 2)]);
    assert_eq!(stats.slot_difference, -5);
    assert_eq!(stats.slot_skew, "Slowest ahead by 5 slots");
}

#[test]
fn a_lead_of_more_than_63_bits_is_found() {
    let low: u64 = 1 << 63;
    let high: u64 = (1 << 63) - 1;
    assert!(lead_is_small(&[]));
    assert!(lead_is_small(&[response("a", 5, "x", 1), response("b", 9, "x", 2)]));
    assert!(!lead_is_small(&[response("a", high, "x", 1), response("b", low, "x", 2)]));
    assert!(!lead_is_small(&[response("a", low, "x", 1), response("b", 0, "x", 2)]));
    assert!(lead_is_small(&[response("a", low + 1, "x", 1), response("b", 0, "x", 2)]));
}

#[test]
fn leaderboards_show_the_best_four() {
    let stats = calculate_consensus(&[
        response("a", 10, "x", 50),
        response("b", 14, "x", 40),
        response("c", 12, "x", 30),
        response("d", 14, "x", 20),
        response("e", 11, "x", 40),
    ]);
    let latency: Vec<(&str, u64)> =
        stats.latency_leaderboard.iter().map(|entry| (entry.nickname.as_str(), entry.value)).collect();
    assert_eq!(latency, vec![("d", 20), ("c", 30), ("b", 40), ("e", 40)]);
    let slots: Vec<(&str, u64)> =
        stats.slot_leaderboard.iter().map(|entry| (entry.nickname.as_str(), entry.value)).collect();
    assert_eq!(slots, vec![("b", 14), ("d", 14), ("c", 12), ("e", 11)]);
    assert_eq!(stats.slot_leaderboard[0].latency_ms, 40);
    assert_eq!(stats.slot_leaderboard[0].timestamp.bits(), 1_700_000_000.0f64.to_bits());
}

#[test]
fn leaderboard_latencies_are_cut_to_64_bits() {
    let wide: u128 = (1 << 64) + 5;
    let stats = calculate_consensus(&[response("a", 1, "x", 6), response("b", 1, "x", wide)]);
    assert_eq!(stats.fastest_rpc, "a");
    assert_eq!(stats.latency_leaderboard[0].nickname, "b");
    assert_eq!(stats.latency_leaderboard[0].value, 5);
    assert_eq!(stats.latency_leaderboard[0].latency_ms, wide);
}

#[test]
fn the_order_of_the_responses_does_not_matter() {
    let build = |order: &[usize]| {
        let all = [
            ("a", 10u64, "x", 50u128),
            ("b", 14, "y", 40),
            ("c", 12, "y", 30),
            ("d", 14, "z", 20),
            ("e", 11, "x", 40),
        ];
        let list: Vec<RPCResponse> =
            order.iter().map(|i| response(all[*i].0, all[*i].1, all[*i].2, all[*i].3)).collect();
        let stats = calculate_consensus(&list);
        let latency: Vec<u64> = stats.latency_leaderboard.iter().map(|entry| entry.value).collect();
        let slots: Vec<u64> = stats.slot_leaderboard.iter().map(|entry| entry.value).collect();
        (stats.total_rpcs, stats.fastest_latency, stats.slowest_latency, stats.consensus_percentage, latency, slots)
    };
    let first = build(&[0, 1, 2, 3, 4]);
    assert_eq!(first, (5, 20, 50, Share { part: 2, whole: 5 }, vec![20, 30, 40, 40], vec![14, 14, 12, 11]));
    assert_eq!(build(&[4, 3, 2, 1, 0]), first);
    assert_eq!(build(&[2, 0, 4, 1, 3]), first);
}

use rpc_monitor::config::RpcEndpoint;
use rpc_monitor::metrics::{cleanup_old_entries, expired_keys, expired_keys_at, get_metrics, matches_query, MetricsQuery, RpcRecord};
use rpc_monitor::rpc::{poll_at, RPCResponse};
use rpc_monitor::time::Timestamp;

fn response(url: &str, seconds: f64, slot: u64) -> RPCResponse {
    RPCResponse {
        timestamp: Timestamp::from_bits(seconds.to_bits()).unwrap(),
        slot,
        blockhash: "x".to_string(),
        latency_ms: 10,
        rpc_url: url.to_string(),
        nickname: url.to_string(),
    }
}

fn record(key: &str, url: &str, seconds: f64, slot: u64) -> RpcRecord {
    RpcRecord { key: key.as_bytes().to_vec(), response: Some(response(url, seconds, slot)) }
}

fn query(rpc: Option<&str>, from: Option<&str>, to: Option<&str>) -> MetricsQuery {
    MetricsQuery::from_params(
        rpc.map(|text| text.to_string()),
        from.map(|text| text.to_string()),
        to.map(|text| text.to_string()),
    )
}

fn slots(records: &[RpcRecord], query: &MetricsQuery) -> Vec<u64> {
    get_metrics(records, query).responses.iter().map(|response| response.slot).collect()
}

#[test]
fn times_that_are_no_numbers_are_left_out() {
    let query = query(Some("a"), Some("12"), Some("1x"));
    assert_eq!(query.rpc, Some("a".to_string()));
    assert_eq!(query.from, Some(12));
    assert_eq!(query.to, None);
}

#[test]
fn all_responses_are_shown_latest_first() {
    let records = [
        record("b:3", "b", 3.5, 1),
        record("a:9", "a", 9.0, 2),
        record("a:1", "a", 1.25, 3),
        record("c:9", "c", 9.0, 4),
    ];
    assert_eq!(slots(&records, &query(None, None, None)), vec![2, 4, 1, 3]);
}

#[test]
fn shown_responses_hide_their_url() {
    let records = [record("a:9", "https://secret", 9.0, 2)];
    let metrics = get_metrics(&records, &query(None, None, None));
    assert_eq!(metrics.responses[0].rpc_url, "");
    assert_eq!(metrics.responses[0].nickname, "https://secret");
}

#[test]
fn responses_are_filtered_by_time() {
    let records = [record("a:3", "a", 3.0, 3), record("a:2", "a", 2.5, 2), record("a:1", "a", 1.0, 1)];
    assert_eq!(slots(&records, &query(None, Some("2"), None)), vec![3, 2]);
    assert_eq!(slots(&records, &query(None, Some("3"), None)), vec![3]);
    assert_eq!(slots(&records, &query(None, None, Some("2"))), vec![1]);
    assert_eq!(slots(&records, &query(None, Some("1"), Some("3"))), vec![3, 2, 1]);
    assert_eq!(slots(&records, &query(None, Some("4"), Some("3"))), Vec::<u64>::new());
}

#[test]
fn responses_are_filtered_by_url() {
    let records = [
        record("https://b.com:1700000001", "https://b.com", 1700000001.0, 2),
        record("https://a.com:1700000000", "https://a.com", 1700000000.0, 1),
    ];
    assert_eq!(slots(&records, &query(Some("a.com"), None, None)), vec![1]);
    assert_eq!(slots(&records, &query(Some("https://b"), None, None)), vec![2]);
    assert_eq!(slots(&records, &query(Some("http"), None, None)), vec![2, 1]);
    assert_eq!(slots(&records, &query(Some("17000"), None, None)), Vec::<u64>::new());
    assert_eq!(slots(&records, &query(Some("c.com"), None, None)), Vec::<u64>::new());
    assert_eq!(slots(&records, &query(Some(""), None, None)), vec![2, 1]);
}

#[test]
fn records_without_a_colon_or_a_response_are_not_shown() {
    let records =
        [record("plain", "a", 5.0, 1), RpcRecord { key: b"a:6".to_vec(), response: None }];
    assert_eq!(slots(&records, &query(None, None, None)), Vec::<u64>::new());
    assert_eq!(get_metrics(&records, &query(None, None, None)).consensus.unwrap().total_rpcs, 1);
}

#[test]
fn ill_formed_keys_are_read_with_replacements() {
    let records = [RpcRecord { key: b"a\xff:6".to_vec(), response: Some(response("a", 6.0, 7)) }];
    assert_eq!(slots(&records, &query(Some("a\u{fffd}"), None, None)), vec![7]);
    assert_eq!(slots(&records, &query(Some("b"), None, None)), Vec::<u64>::new());
}

#[test]
fn consensus_rests_on_the_first_response_of_each_endpoint() {
    let records = [
        record("b:9", "b", 9.0, 90),
        record("b:8", "b", 8.0, 80),
        record("a:9", "a", 9.0, 90),
        record("a:8", "a", 8.0, 80),
    ];
    let stats = get_metrics(&records, &query(None, Some("100"), None)).consensus.unwrap();
    assert_eq!(stats.total_rpcs, 2);
    assert_eq!(stats.consensus_slot, 90);
    assert_eq!(stats.fastest_rpc, "b");
    assert_eq!(stats.slowest_rpc, "a");
}

#[test]
fn nothing_stored_gives_no_data() {
    let metrics = get_metrics(&[], &query(None, None, None));
    assert!(metrics.responses.is_empty());
    assert_eq!(metrics.consensus.unwrap().fastest_rpc, "No data");
}

#[test]
fn a_lead_that_is_no_number_gives_no_consensus() {
    let mut slow = response("b", 1.0, 1 << 63);
    slow.latency_ms = 99;
    let records = [
        RpcRecord { key: b"a:1".to_vec(), response: Some(response("a", 1.0, 5)) },
        RpcRecord { key: b"b:1".to_vec(), response: Some(slow) },
    ];
    assert!(get_metrics(&records, &query(None, None, None)).consensus.is_none());
}

#[test]
fn one_response_is_matched_against_a_query() {
    let response = response("u", 10.0, 1);
    assert!(matches_query("name:1", &response, &query(Some("am"), Some("10"), Some("10"))));
    assert!(!matches_query("name:1", &response, &query(Some("ma"), None, None)));
    assert!(!matches_query("name:1", &response, &query(None, Some("11"), None)));
    assert!(!matches_query("name:1", &response, &query(None, None, Some("9"))));
    assert!(!matches_query("name", &response, &query(None, None, None)));
}

#[test]
fn responses_before_the_cutoff_expire() {
    let records = [
        record("a:1", "a", 99.5, 1),
        record("a:2", "a", 100.0, 2),
        RpcRecord { key: b"x".to_vec(), response: None },
        record("a:3", "a", -1.0, 3),
    ];
    assert_eq!(expired_keys(&records, 100), vec![b"a:1".to_vec(), b"a:3".to_vec()]);
    assert_eq!(expired_keys(&records, -2), Vec::<Vec<u8>>::new());
}

#[test]
fn a_response_of_exactly_an_hour_stays() {
    let records = [
        record("a:1", "a", 6399.5, 1),
        record("a:2", "a", 6400.0, 2),
        RpcRecord { key: b"x".to_vec(), response: None },
    ];
    assert_eq!(expired_keys_at(&records, 10_000), vec![b"a:1".to_vec()]);
    assert_eq!(expired_keys_at(&records, i64::MIN), Vec::<Vec<u8>>::new());
}

#[test]
fn responses_older_than_an_hour_are_removed() {
    let now = std::time::SystemTime::now().duration_since(std::time::UNIX_EPOCH).unwrap().as_secs_f64();
    let records = [
        record("a:1", "a", now - 3700.0, 1),
        record("a:2", "a", now - 3500.0, 2),
        record("a:3", "a", now, 3),
    ];
    assert_eq!(cleanup_old_entries(&records), vec![b"a:1".to_vec()]);
}

#[test]
fn a_polled_response_is_shown_where_nothing_is_filtered() {
    let endpoint = RpcEndpoint { url: "https://a:1".to_string(), nickname: "a".to_string() };
    let stamp = Timestamp::from_seconds(9);
    let poll = poll_at(&endpoint, Ok("hash".to_string()), Ok(5), 1, stamp, 1_700_000_000);
    let records = [RpcRecord { key: poll.key, response: Some(poll.response) }];
    assert_eq!(slots(&records, &query(None, None, None)), vec![5]);
    assert_eq!(slots(&records, &query(Some("//a:1"), None, None)), vec![5]);
    assert_eq!(slots(&records, &query(Some("//b"), None, None)), Vec::<u64>::new());
}

#[test]
fn consensus_rests_on_the_latest_responses_of_sorted_records() {
    let mut records = Vec::new();
    for (url, seconds, slot) in [
        ("https://a", 1_700_000_009, 5),
        ("https://b", 1_700_000_001, 7),
        ("https://a", 1_700_000_010, 7),
        ("https://a", 1_699_999_999, 4),
        ("https://b", 1_700_000_000, 6),
    ] {
        let endpoint = RpcEndpoint { url: url.to_string(), nickname: url.to_string() };
        let stamp = Timestamp::from_seconds(seconds);
        let poll = poll_at(&endpoint, Ok("hash".to_string()), Ok(slot), 1, stamp, seconds);
        records.push(RpcRecord { key: poll.key, response: Some(poll.response) });
    }
    records.sort_by(|x, y| y.key.cmp(&x.key));
    let metrics = get_metrics(&records, &query(Some("//a"), None, None));
    let shown: Vec<u64> = metrics.responses.iter().map(|response| response.slot).collect();
    assert_eq!(shown, vec![7, 5, 4]);
    let stats = metrics.consensus.unwrap();
    assert_eq!((stats.total_rpcs, stats.consensus_slot), (2, 7));
    let slots: Vec<u64> = stats.slot_leaderboard.iter().map(|entry| entry.value).collect();
    assert_eq!(slots, vec![7, 7]);
}

use rpc_monitor::config::RpcEndpoint;
use rpc_monitor::rpc::{fetch_blockhash_and_slot, poll_at};
use rpc_monitor::time::Timestamp;

fn endpoint() -> RpcEndpoint {
    RpcEndpoint { url: "https://a".to_string(), nickname: "a".to_string() }
}

#[test]
fn an_answered_poll_is_stored() {
    let stamp = Timestamp::from_seconds(1_700_000_001);
    let poll = poll_at(&endpoint(), Ok("hash".to_string()), Ok(55), 12, stamp, 1_700_000_000);
    assert_eq!(poll.key, b"https://a:1700000000");
    assert_eq!(poll.response.blockhash, "hash");
    assert_eq!(poll.response.slot, 55);
    assert_eq!(poll.response.latency_ms, 12);
    assert_eq!(poll.response.rpc_url, "https://a");
    assert_eq!(poll.response.nickname, "a");
    assert_eq!(poll.response.timestamp.bits(), 1_700_000_001.0f64.to_bits());
    assert_eq!(poll.outcome, Ok(()));
}

#[test]
fn a_failed_blockhash_leaves_its_error() {
    let poll = poll_at(&endpoint(), Err("timed out".to_string()), Ok(55), 12, Timestamp::zero(), 0);
    assert_eq!(poll.response.blockhash, "Error: timed out");
    assert_eq!(poll.response.slot, 55);
    assert_eq!(poll.outcome, Err("timed out".to_string()));
}

#[test]
fn a_failed_slot_leaves_slot_zero() {
    let poll = poll_at(&endpoint(), Ok("hash".to_string()), Err("refused".to_string()), 12, Timestamp::zero(), 0);
    assert_eq!(poll.response.blockhash, "hash");
    assert_eq!(poll.response.slot, 0);
    assert_eq!(poll.outcome, Err("refused".to_string()));
}

#[test]
fn the_first_failure_is_reported() {
    let poll =
        poll_at(&endpoint(), Err("one".to_string()), Err("two".to_string()), 12, Timestamp::zero(), 0);
    assert_eq!(poll.outcome, Err("one".to_string()));
}

#[test]
fn a_poll_is_stored_under_the_present_second() {
    let poll = fetch_blockhash_and_slot(&endpoint(), Ok("hash".to_string()), Ok(1), 3, Timestamp::zero());
    let text = String::from_utf8(poll.key).unwrap();
    let seconds: i64 = text.strip_prefix("https://a:").unwrap().parse().unwrap();
    assert!(seconds > 1_600_000_000);
    assert_eq!(poll.outcome, Ok(()));
}

use rpc_monitor::config::RpcEndpoint;

fn connection_url(url: &str) -> Option<String> {
    RpcEndpoint { url: url.to_string(), nickname: "a".to_string() }.connection_url()
}

#[test]
fn urls_are_parsed_and_normalised() {
    assert_eq!(connection_url("wss://API.example.com"), Some("wss://api.example.com/".to_string()));
    assert_eq!(connection_url("ws://localhost:8900/x"), Some("ws://localhost:8900/x".to_string()));
}

#[test]
fn texts_that_are_no_urls_are_refused() {
    assert_eq!(connection_url("no url"), None);
    assert_eq!(connection_url(""), None);
    assert_eq!(connection_url("wss://"), None);
}

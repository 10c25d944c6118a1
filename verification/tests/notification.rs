use rpc_monitor::config::RpcEndpoint;
use rpc_monitor::notification::{
    announce_at, handle_websocket_messages, process_slot_notification, slot_update_write, NotificationParams,
    SlotNotificationResult, StreamAction, StreamEvent, WebSocketMessage,
};
use rpc_monitor::store::StoreWrite;
use rpc_monitor::time::Timestamp;

fn message(method: &str) -> WebSocketMessage {
    WebSocketMessage {
        jsonrpc: "2.0".to_string(),
        method: method.to_string(),
        params: NotificationParams {
            result: SlotNotificationResult { slot: 77, parent: 76, root: 40 },
            subscription: 1,
        },
    }
}

fn endpoint() -> RpcEndpoint {
    RpcEndpoint { url: "wss://a".to_string(), nickname: "a".to_string() }
}

#[test]
fn slot_notifications_are_processed() {
    match handle_websocket_messages(StreamEvent::Message(message("slotNotification"))) {
        StreamAction::Process(message) => assert_eq!(message.params.result.slot, 77),
        other => panic!("{other:?}"),
    }
}

#[test]
fn other_messages_are_ignored() {
    let events = [
        StreamEvent::Unreadable,
        StreamEvent::Binary,
        StreamEvent::Ping,
        StreamEvent::Pong,
        StreamEvent::Unexpected,
    ];
    for event in events {
        assert!(matches!(handle_websocket_messages(event), StreamAction::Ignore));
    }
}

#[test]
fn messages_of_other_methods_are_reported() {
    for method in ["logsNotification", "slotNotification ", ""] {
        match handle_websocket_messages(StreamEvent::Message(message(method))) {
            StreamAction::Report(reported) => assert_eq!(reported, method),
            other => panic!("{other:?}"),
        }
    }
}

#[test]
fn listening_stops_with_the_connection() {
    for event in [StreamEvent::Close, StreamEvent::Failed, StreamEvent::Ended] {
        assert!(matches!(handle_websocket_messages(event), StreamAction::Stop));
    }
}

#[test]
fn an_announced_slot_is_stored_under_nickname_and_slot() {
    let write = slot_update_write(&message("slotNotification"), &endpoint(), Timestamp::from_seconds(9));
    match write {
        StoreWrite::Put { key, update } => {
            assert_eq!(key, b"a:77");
            assert_eq!(update.timestamp.bits(), 9.0f64.to_bits());
            assert_eq!(update.nickname, "a");
            assert_eq!(update.slot_info, SlotNotificationResult { slot: 77, parent: 76, root: 40 });
            assert!(update.delay.is_none());
        },
        StoreWrite::Delete { .. } => panic!("nothing was removed"),
    }
}

#[test]
fn an_announced_slot_carries_the_present_time() {
    match process_slot_notification(&message("slotNotification"), &endpoint()) {
        Some(StoreWrite::Put { update, .. }) => {
            let seconds = f64::from_bits(update.timestamp.bits());
            assert!(seconds > 1.6e9 && seconds < 9.3e9);
        },
        other => panic!("{other:?}"),
    }
}

#[test]
fn a_slot_announced_at_an_unknown_time_is_not_stored() {
    assert!(announce_at(&message("slotNotification"), &endpoint(), None).is_none());
    match announce_at(&message("slotNotification"), &endpoint(), Some(Timestamp::from_seconds(4))) {
        Some(StoreWrite::Put { key, update }) => {
            assert_eq!(key, b"a:77");
            assert_eq!(update.timestamp.bits(), 4.0f64.to_bits());
        },
        other => panic!("{other:?}"),
    }
}

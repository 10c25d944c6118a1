//! Messages that a WebSocket endpoint sends.
use crate::clock::{is_clock_reading, now};
use crate::config::RpcEndpoint;
use crate::delays::reading_bits;
use crate::keys::{
    law_both_readings_agree, law_slot_key_reads_back, law_slot_keys_differ, make_slot_key, plain_name, slot_key,
};
use crate::slots::{latest_slot, law_latest_slot_advances};
use crate::store::{after_write, lookup};
use crate::store::{Contents, StoreWrite, WriteView};
use crate::time::Timestamp;
use crate::update::{SlotUpdate, SlotUpdateView};
use crate::winner::{entry_for, well_labelled};
use vstd::prelude::*;

verus! {

/// The slot that a notification announces, with its parent and the root.
#[derive(Clone, Copy, Debug, PartialEq, Eq, Structural)]
pub struct SlotNotificationResult {
    pub slot: u64,
    pub parent: u64,
    pub root: u64,
}

/// The `params` of a notification.
#[derive(Debug)]
pub struct NotificationParams {
    pub result: SlotNotificationResult,
    pub subscription: u64,
}

/// A whole notification.
#[derive(Debug)]
pub struct WebSocketMessage {
    pub jsonrpc: String,
    pub method: String,
    pub params: NotificationParams,
}

/// The method of the messages that announce a slot.
pub open spec fn slot_method() -> Seq<char> {
    "slotNotification"@
}

/// What arrives on the connection to an endpoint.
#[derive(Debug)]
pub enum StreamEvent {
    /// A text that reads as a message.
    Message(WebSocketMessage),
    /// A text that does not.
    Unreadable,
    /// A binary message.
    Binary,
    /// A ping.
    Ping,
    /// A pong.
    Pong,
    /// The closing of the connection.
    Close,
    /// A message of another kind.
    Unexpected,
    /// A failure to receive.
    Failed,
    /// The end of the stream.
    Ended,
}

/// What is to be done about an event.
#[derive(Debug)]
pub enum StreamAction {
    /// Store the slot that the message announces, and go on.
    Process(WebSocketMessage),
    /// Report a message of another method, and go on.
    Report(String),
    /// Go on with the next event.
    Ignore,
    /// Stop listening.
    Stop,
}

/// Whether nothing more is read after an event.
pub open spec fn ends_stream(event: StreamEvent) -> bool {
    event is Close || event is Failed || event is Ended
}

/// What is to be done about an event: slot notifications are processed, messages
/// of other methods are reported, and listening stops with the connection.
pub fn handle_websocket_messages(event: StreamEvent) -> (action: StreamAction)
    ensures
        action == match event {
            StreamEvent::Message(message) => if message.method@ == slot_method() {
                StreamAction::Process(message)
            } else {
                StreamAction::Report(message.method)
            },
            _ => if ends_stream(event) {
                StreamAction::Stop
            } else {
                StreamAction::Ignore
            },
        },
        action is Process <==> (event matches StreamEvent::Message(message) && message.method@
            == "slotNotification"@),
        event matches StreamEvent::Message(message) ==> (action matches StreamAction::Process(kept) ==> kept
            == message),
        action is Report <==> (event matches StreamEvent::Message(message) && message.method@
            != "slotNotification"@),
        action is Stop <==> event is Close || event is Failed || event is Ended,
{
    match event {
        StreamEvent::Message(message) => {
            if message.method == "slotNotification".to_string() {
                StreamAction::Process(message)
            } else {
                StreamAction::Report(message.method)
            }
        },
        StreamEvent::Close | StreamEvent::Failed | StreamEvent::Ended => StreamAction::Stop,
        StreamEvent::Unreadable
        | StreamEvent::Binary
        | StreamEvent::Ping
        | StreamEvent::Pong
        | StreamEvent::Unexpected => StreamAction::Ignore,
    }
}

/// The update of an endpoint that announced a slot at the time `now`.
pub open spec fn announced(nickname: Seq<char>, info: SlotNotificationResult, now: u64) -> SlotUpdateView {
    SlotUpdateView { timestamp: now, nickname, slot_info: info, delay: None }
}

/// The change that stores the update.
pub open spec fn announcement_write(nickname: Seq<char>, info: SlotNotificationResult, now: u64) -> WriteView {
    WriteView::Put { key: slot_key(nickname, info.slot), update: announced(nickname, info, now) }
}

/// The change that stores what an endpoint announced at the time `now`.
pub fn slot_update_write(message: &WebSocketMessage, endpoint: &RpcEndpoint, now: Timestamp) -> (write: StoreWrite)
    ensures
        write@ == announcement_write(endpoint.nickname@, message.params.result, now@),
{
    let info = message.params.result;
    let update = SlotUpdate {
        timestamp: now,
        nickname: endpoint.nickname.clone(),
        slot_info: info,
        delay: None,
    };
    StoreWrite::Put { key: make_slot_key(endpoint.nickname.as_str(), info.slot), update }
}

/// Whether `write` stores what an endpoint announced at the time `now`: there is
/// such a change exactly where the time is known.
pub open spec fn stores_announcement(
    write: Option<StoreWrite>,
    nickname: Seq<char>,
    info: SlotNotificationResult,
    now: Option<u64>,
) -> bool {
    match now {
        Some(bits) => write matches Some(put) && put@ == announcement_write(nickname, info, bits),
        None => write is None,
    }
}

/// The change that stores what an endpoint announced at the time `now`, or
/// `None` where the time is not known.
pub fn announce_at(message: &WebSocketMessage, endpoint: &RpcEndpoint, now: Option<Timestamp>) -> (write: Option<
    StoreWrite,
>)
    ensures
        stores_announcement(write, endpoint.nickname@, message.params.result, reading_bits(now)),
{
    match now {
        Some(stamp) => Some(slot_update_write(message, endpoint, stamp)),
        None => None,
    }
}

/// The change that stores what an endpoint announces now, or `None` where the
/// clock cannot tell the time.
pub fn process_slot_notification(message: &WebSocketMessage, endpoint: &RpcEndpoint) -> (write: Option<StoreWrite>)
    ensures
        exists|now: Option<u64>|
            {
                &&& now matches Some(bits) ==> is_clock_reading(bits)
                &&& #[trigger] stores_announcement(write, endpoint.nickname@, message.params.result, now)
            },
{
    let reading = now();
    let write = announce_at(message, endpoint, reading);
    assert(stores_announcement(write, endpoint.nickname@, message.params.result, reading_bits(reading)));
    write
}

/// What an endpoint announced is what is then stored of it and its slot, and
/// nothing else changes.
pub proof fn law_announcement_is_stored(
    contents: Contents,
    nickname: Seq<char>,
    info: SlotNotificationResult,
    now: u64,
    name: Seq<char>,
    slot: u64,
)
    ensures
        ({
            let after = after_write(contents, announcement_write(nickname, info, now));
            if name == nickname && slot == info.slot {
                entry_for(after, name, slot) == Some(announced(nickname, info, now))
            } else {
                lookup(after, slot_key(name, slot)) == lookup(contents, slot_key(name, slot))
            }
        }),
{
    if slot_key(name, slot) == slot_key(nickname, info.slot) {
        law_slot_keys_differ(name, slot, nickname, info.slot);
    }
}

/// An announcement is stored with the time, the nickname and the slot as they
/// are, and with no delay yet; it is stored exactly where the time is known.
pub proof fn law_announcement_says_what_was_announced(
    write: Option<StoreWrite>,
    contents: Contents,
    nickname: Seq<char>,
    info: SlotNotificationResult,
    now: Option<u64>,
)
    requires
        stores_announcement(write, nickname, info, now),
    ensures
        write is Some <==> now is Some,
        write matches Some(change) ==> (lookup(after_write(contents, change@), slot_key(nickname, info.slot)) matches Some(
            update,
        ) && {
            &&& Some(update.timestamp) == now
            &&& update.nickname == nickname
            &&& update.slot_info == info
            &&& update.delay is None
        }),
{
}

/// Storing what an endpoint announced keeps every update under its own
/// nickname.
pub proof fn law_announcement_keeps_labels(
    contents: Contents,
    nickname: Seq<char>,
    info: SlotNotificationResult,
    now: u64,
)
    requires
        well_labelled(contents),
    ensures
        well_labelled(after_write(contents, announcement_write(nickname, info, now))),
{
    let after = after_write(contents, announcement_write(nickname, info, now));
    assert forall|name: Seq<char>, slot: u64|
        lookup(after, #[trigger] slot_key(name, slot)) matches Some(update) ==> update.nickname == name by {
        law_announcement_is_stored(contents, nickname, info, now, name, slot);
        assert(lookup(contents, slot_key(name, slot)) matches Some(update) ==> update.nickname == name);
    }
}

/// An announced slot is the latest, unless a later one is stored. This holds of
/// nicknames without a colon; with one, the key does not read back.
pub proof fn law_announcement_advances_the_latest_slot(
    contents: Contents,
    nickname: Seq<char>,
    info: SlotNotificationResult,
    now: u64,
)
    requires
        plain_name(nickname),
    ensures
        latest_slot(after_write(contents, announcement_write(nickname, info, now))) == match latest_slot(contents) {
            Some(latest) => Some(if latest > info.slot { latest } else { info.slot }),
            None => Some(info.slot),
        },
{
    let key = slot_key(nickname, info.slot);
    let after = after_write(contents, announcement_write(nickname, info, now));
    law_slot_key_reads_back(nickname, info.slot);
    law_both_readings_agree(key);
    assert(after.dom() =~= contents.dom().insert(key));
    law_latest_slot_advances(contents, after, key, info.slot);
}

} // verus!

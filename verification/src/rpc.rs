//! What an RPC endpoint answered when it was polled.
use crate::clock::utc_seconds;
use crate::config::RpcEndpoint;
use crate::keys::{make_response_key, response_key};
use crate::time::Timestamp;
use vstd::prelude::*;

verus! {

/// The answer of an endpoint to one poll.
#[derive(Debug)]
pub struct RPCResponse {
    pub timestamp: Timestamp,
    pub slot: u64,
    pub blockhash: String,
    pub latency_ms: u128,
    pub rpc_url: String,
    pub nickname: String,
}

/// An [`RPCResponse`] over the bits of its timestamp and the characters of its
/// texts.
pub struct RPCResponseView {
    pub timestamp: u64,
    pub slot: u64,
    pub blockhash: Seq<char>,
    pub latency_ms: u128,
    pub rpc_url: Seq<char>,
    pub nickname: Seq<char>,
}

impl View for RPCResponse {
    type V = RPCResponseView;

    open spec fn view(&self) -> RPCResponseView {
        RPCResponseView {
            timestamp: self.timestamp@,
            slot: self.slot,
            blockhash: self.blockhash@,
            latency_ms: self.latency_ms,
            rpc_url: self.rpc_url@,
            nickname: self.nickname@,
        }
    }
}

impl Clone for RPCResponse {
    fn clone(&self) -> (copy: RPCResponse)
        ensures
            copy@ == self@,
    {
        RPCResponse {
            timestamp: self.timestamp,
            slot: self.slot,
            blockhash: self.blockhash.clone(),
            latency_ms: self.latency_ms,
            rpc_url: self.rpc_url.clone(),
            nickname: self.nickname.clone(),
        }
    }
}

/// The views of some responses.
pub open spec fn responses_of(responses: Seq<RPCResponse>) -> Seq<RPCResponseView> {
    responses.map_values(|response: RPCResponse| response@)
}

/// What one poll comes to.
#[derive(Debug)]
pub struct Poll {
    /// The key under which the response is stored.
    pub key: Vec<u8>,
    /// The response that is stored, also where a request failed.
    pub response: RPCResponse,
    /// The error of the first request that failed.
    pub outcome: Result<(), String>,
}

/// The text that stands in for the blockhash where the request failed.
pub open spec fn failure_text(error: Seq<char>) -> Seq<char> {
    "Error: "@ + error
}

/// The response to a poll: a failed request for the blockhash leaves its error
/// in place of the blockhash, one for the slot leaves slot 0.
pub open spec fn polled_response(
    endpoint: RpcEndpoint,
    blockhash: Result<String, String>,
    slot: Result<u64, String>,
    latency_ms: u128,
    timestamp: u64,
) -> RPCResponseView {
    RPCResponseView {
        timestamp,
        slot: match slot {
            Ok(slot) => slot,
            Err(_) => 0,
        },
        blockhash: match blockhash {
            Ok(hash) => hash@,
            Err(error) => failure_text(error@),
        },
        latency_ms,
        rpc_url: endpoint.url@,
        nickname: endpoint.nickname@,
    }
}

/// Whether a poll succeeded, or the error of the first request that failed.
pub open spec fn is_poll_outcome(
    outcome: Result<(), String>,
    blockhash: Result<String, String>,
    slot: Result<u64, String>,
) -> bool {
    match (blockhash, slot) {
        (Err(error), _) => outcome matches Err(e) && e@ == error@,
        (Ok(_), Err(error)) => outcome matches Err(e) && e@ == error@,
        (Ok(_), Ok(_)) => outcome is Ok,
    }
}

/// What a poll comes to that is stored at `seconds`.
pub fn poll_at(
    endpoint: &RpcEndpoint,
    blockhash: Result<String, String>,
    slot: Result<u64, String>,
    latency_ms: u128,
    timestamp: Timestamp,
    seconds: i64,
) -> (poll: Poll)
    ensures
        poll.key@ == response_key(endpoint.url@, seconds),
        poll.response@ == polled_response(*endpoint, blockhash, slot, latency_ms, timestamp@),
        is_poll_outcome(poll.outcome, blockhash, slot),
{
    let outcome = match &blockhash {
        Err(error) => Err(error.clone()),
        Ok(_) => match &slot {
            Err(error) => Err(error.clone()),
            Ok(_) => Ok(()),
        },
    };
    let slot: u64 = match slot {
        Ok(slot) => slot,
        Err(_) => 0,
    };
    let blockhash = match blockhash {
        Ok(hash) => hash,
        Err(error) => {
            let mut text = "Error: ".to_owned();
            text.append(error.as_str());
            text
        },
    };
    let response = RPCResponse {
        timestamp,
        slot,
        blockhash,
        latency_ms,
        rpc_url: endpoint.url.clone(),
        nickname: endpoint.nickname.clone(),
    };
    Poll { key: make_response_key(endpoint.url.as_str(), seconds), response, outcome }
}

/// What a poll comes to: the response and the key under which it is stored now,
/// and an error where a request failed.
pub fn fetch_blockhash_and_slot(
    endpoint: &RpcEndpoint,
    blockhash: Result<String, String>,
    slot: Result<u64, String>,
    latency_ms: u128,
    timestamp: Timestamp,
) -> (poll: Poll)
    ensures
        exists|seconds: i64| poll.key@ == #[trigger] response_key(endpoint.url@, seconds),
        poll.response@ == polled_response(*endpoint, blockhash, slot, latency_ms, timestamp@),
        is_poll_outcome(poll.outcome, blockhash, slot),
{
    let seconds = utc_seconds();
    poll_at(endpoint, blockhash, slot, latency_ms, timestamp, seconds)
}

/// A poll keeps what was answered: the blockhash and the slot, or in their place
/// the error and 0; with the latency, the time and the endpoint. It succeeded
/// exactly where both requests did, and otherwise tells the error of the first
/// that failed.
pub proof fn law_polls_keep_what_was_answered(
    poll: Poll,
    endpoint: RpcEndpoint,
    blockhash: Result<String, String>,
    slot: Result<u64, String>,
    latency_ms: u128,
    timestamp: u64,
)
    requires
        poll.response@ == polled_response(endpoint, blockhash, slot, latency_ms, timestamp),
        is_poll_outcome(poll.outcome, blockhash, slot),
    ensures
        blockhash matches Ok(hash) ==> poll.response.blockhash@ == hash@,
        blockhash matches Err(error) ==> poll.response.blockhash@ == "Error: "@ + error@,
        slot matches Ok(number) ==> poll.response.slot == number,
        slot is Err ==> poll.response.slot == 0,
        poll.response.latency_ms == latency_ms,
        poll.response.timestamp@ == timestamp,
        poll.response.rpc_url@ == endpoint.url@,
        poll.response.nickname@ == endpoint.nickname@,
        poll.outcome is Ok <==> blockhash is Ok && slot is Ok,
        blockhash matches Err(error) ==> (poll.outcome matches Err(told) && told@ == error@),
        blockhash is Ok ==> (slot matches Err(error) ==> (poll.outcome matches Err(told) && told@ == error@)),
{
    assert(poll.response@.blockhash == poll.response.blockhash@);
}

} // verus!

//! The stored responses of the RPC endpoints: which are shown, and which are
//! kept.
use crate::bytes::{find_last_byte, holds, is_last, lossy_text, occurs, occurs_at, to_lossy_text};
use crate::clock::utc_seconds;
use crate::consensus::{calculate_consensus, consensus, lead_fits, lead_is_small};
use crate::consensus::ConsensusStats;
use crate::decimal::{decimal, law_signed_decimal_reads_back, parse_signed, signed_decimal, signed_value};
use crate::double::{is_finite, rank, scaled, whole_bits, BINADE};
use crate::double::{
    law_rank_orders_numbers, law_small_whole_doubles_are_exact, law_whole_numbers_are_finite,
};
use crate::keys::{last_colon, lemma_last_colon, response_key, sorts_before, COLON};
use crate::keys::{law_earlier_responses_sort_first, law_response_key_reads_back, law_sorting_has_one_direction};
use crate::order::law_ranking_lists_every_position;
use crate::order::{as_ints, as_positions, is_ranking, law_ranking_exists, rank_positions, ranking, ranks_before};
use crate::rpc::{responses_of, RPCResponse, RPCResponseView};
use crate::time::Timestamp;
use vstd::arithmetic::power2::pow2;
use vstd::prelude::*;
use vstd::utf8::{decode_utf8, decode_utf8_encode_utf8, encode_utf8, valid_utf8};

verus! {

/// The age in seconds from which on responses are removed.
pub const RETENTION_SECONDS: i64 = 3600;

/// A stored record. The response is `None` where the stored value is none.
#[derive(Debug)]
pub struct RpcRecord {
    pub key: Vec<u8>,
    pub response: Option<RPCResponse>,
}

/// An [`RpcRecord`] over views.
pub struct RpcRecordView {
    pub key: Seq<u8>,
    pub response: Option<RPCResponseView>,
}

impl View for RpcRecord {
    type V = RpcRecordView;

    open spec fn view(&self) -> RpcRecordView {
        RpcRecordView {
            key: self.key@,
            response: match self.response {
                Some(response) => Some(response@),
                None => None,
            },
        }
    }
}

/// The views of some records.
pub open spec fn records_of(records: Seq<RpcRecord>) -> Seq<RpcRecordView> {
    records.map_values(|record: RpcRecord| record@)
}

/// Which responses are asked for: those of endpoints with `rpc` in their URL, and
/// those between two times in seconds.
#[derive(Debug)]
pub struct MetricsQuery {
    pub rpc: Option<String>,
    pub from: Option<i64>,
    pub to: Option<i64>,
}

/// A [`MetricsQuery`] over views.
pub struct MetricsQueryView {
    pub rpc: Option<Seq<char>>,
    pub from: Option<i64>,
    pub to: Option<i64>,
}

/// The characters of a text that may be missing.
pub open spec fn text_of(text: Option<String>) -> Option<Seq<char>> {
    match text {
        Some(text) => Some(text@),
        None => None,
    }
}

/// The number in a text that may be missing.
pub open spec fn number_in(text: Option<String>) -> Option<i64> {
    match text {
        Some(text) => signed_value(encode_utf8(text@)),
        None => None,
    }
}

impl View for MetricsQuery {
    type V = MetricsQueryView;

    open spec fn view(&self) -> MetricsQueryView {
        MetricsQueryView { rpc: text_of(self.rpc), from: self.from, to: self.to }
    }
}

/// The number in a text that may be missing.
fn read_number(text: &Option<String>) -> (number: Option<i64>)
    ensures
        number == number_in(*text),
{
    match text {
        Some(text) => parse_signed(text.as_str().as_bytes()),
        None => None,
    }
}

impl MetricsQuery {
    /// The query that the given parameters make; a time that is no number is
    /// left out.
    pub fn from_params(rpc: Option<String>, from: Option<String>, to: Option<String>) -> (query: MetricsQuery)
        ensures
            query@ == (MetricsQueryView { rpc: text_of(rpc), from: number_in(from), to: number_in(to) }),
    {
        let from = read_number(&from);
        let to = read_number(&to);
        MetricsQuery { rpc, from, to }
    }
}

/// The part of a key that the filter is looked for in, which is the URL: what
/// precedes its last colon.
pub open spec fn name_part(text: Seq<char>) -> Option<Seq<u8>> {
    let bytes = encode_utf8(text);
    if bytes.contains(COLON) {
        Some(bytes.take(last_colon(bytes)))
    } else {
        None
    }
}

/// Whether a time lies between two others, where these are given.
pub open spec fn in_time(timestamp: u64, from: Option<i64>, to: Option<i64>) -> bool {
    &&& from matches Some(seconds) ==> rank(whole_bits(seconds as int) as u64) <= rank(timestamp)
    &&& to matches Some(seconds) ==> rank(timestamp) <= rank(whole_bits(seconds as int) as u64)
}

/// Whether a response that is stored under the key `text` is asked for.
pub open spec fn is_asked_for(text: Seq<char>, response: RPCResponseView, query: MetricsQueryView) -> bool {
    &&& name_part(text) matches Some(part) && (query.rpc matches Some(filter) ==> occurs(part, encode_utf8(filter)))
    &&& in_time(response.timestamp, query.from, query.to)
}

/// Whether a response that is stored under the key `text` is asked for.
pub fn matches_query(text: &str, response: &RPCResponse, query: &MetricsQuery) -> (matches: bool)
    ensures
        matches == is_asked_for(text@, response@, query@),
{
    let bytes = text.as_bytes();
    let named = match find_last_byte(bytes, COLON) {
        Some(at) => {
            proof {
                lemma_last_colon(bytes@, at as int);
            }
            match &query.rpc {
                Some(filter) => holds(bytes, at, filter.as_str().as_bytes()),
                None => true,
            }
        },
        None => false,
    };
    let late = match query.from {
        Some(seconds) => !response.timestamp.precedes(&Timestamp::from_seconds(seconds)),
        None => true,
    };
    let early = match query.to {
        Some(seconds) => !Timestamp::from_seconds(seconds).precedes(&response.timestamp),
        None => true,
    };
    named && late && early
}

/// The responses that are asked for, in the order of the records.
pub open spec fn selected(records: Seq<RpcRecordView>, query: MetricsQueryView) -> Seq<RPCResponseView>
    decreases records.len(),
{
    if records.len() == 0 {
        Seq::empty()
    } else {
        let others = selected(records.drop_last(), query);
        match records.last().response {
            Some(response) => if is_asked_for(lossy_text(records.last().key), response, query) {
                others.push(response)
            } else {
                others
            },
            None => others,
        }
    }
}

/// Whether the keys that are valid UTF-8 are read as they stand, where they hold
/// responses.
pub open spec fn reads_keys_as_text(records: Seq<RpcRecordView>) -> bool {
    forall|i: int|
        0 <= i < records.len() && (#[trigger] records[i]).response is Some && valid_utf8(records[i].key)
            ==> lossy_text(records[i].key) == decode_utf8(records[i].key)
}

/// Whether any of some responses came from `url`.
pub open spec fn has_url(responses: Seq<RPCResponseView>, url: Seq<char>) -> bool {
    exists|i: int| 0 <= i < responses.len() && (#[trigger] responses[i]).rpc_url == url
}

/// The first response of each endpoint, in the order of the records.
pub open spec fn first_by_rpc(records: Seq<RpcRecordView>) -> Seq<RPCResponseView>
    decreases records.len(),
{
    if records.len() == 0 {
        Seq::empty()
    } else {
        let others = first_by_rpc(records.drop_last());
        match records.last().response {
            Some(response) => if has_url(others, response.rpc_url) {
                others
            } else {
                others.push(response)
            },
            None => others,
        }
    }
}

/// The keys by which responses are ranked: the latest first.
pub open spec fn time_keys(responses: Seq<RPCResponseView>) -> Seq<int> {
    responses.map_values(|response: RPCResponseView| -rank(response.timestamp))
}

/// A response without the URL of its endpoint.
pub open spec fn without_url(response: RPCResponseView) -> RPCResponseView {
    RPCResponseView { rpc_url: Seq::empty(), ..response }
}

/// The responses that are shown: those asked for, the latest first, without
/// the URLs of the endpoints.
pub open spec fn shown(records: Seq<RpcRecordView>, query: MetricsQueryView) -> Seq<RPCResponseView> {
    let found = selected(records, query);
    let order = ranking(time_keys(found));
    Seq::new(found.len(), |i: int| without_url(found[order[i]]))
}

/// What is answered to a query.
#[derive(Debug)]
pub struct Metrics {
    pub responses: Vec<RPCResponse>,
    /// What the latest response of each endpoint comes to, or `None` where the
    /// lead of the fastest endpoint is no number of 64 bits.
    pub consensus: Option<ConsensusStats>,
}

/// Whether any of some responses came from `url`.
fn knows_url(responses: &Vec<RPCResponse>, url: &String) -> (known: bool)
    ensures
        known == has_url(responses_of(responses@), url@),
{
    let ghost views = responses_of(responses@);
    let mut i: usize = 0;
    while i < responses.len()
        invariant
            i <= responses@.len(),
            views == responses_of(responses@),
            forall|j: int| 0 <= j < i ==> (#[trigger] views[j]).rpc_url != url@,
        decreases responses@.len() - i,
    {
        assert(views[i as int] == responses@[i as int]@);
        if responses[i].rpc_url == *url {
            return true;
        }
        i = i + 1;
    }
    false
}

/// The first response of each endpoint.
fn find_first_by_rpc(records: &[RpcRecord]) -> (found: Vec<RPCResponse>)
    ensures
        responses_of(found@) == first_by_rpc(records_of(records@)),
{
    let ghost all = records_of(records@);
    let mut found: Vec<RPCResponse> = Vec::new();
    let mut i: usize = 0;
    assert(responses_of(found@) =~= first_by_rpc(all.take(0)));
    while i < records.len()
        invariant
            i <= records@.len(),
            all == records_of(records@),
            responses_of(found@) == first_by_rpc(all.take(i as int)),
        decreases records@.len() - i,
    {
        let ghost before = found@;
        proof {
            assert(all.take(i + 1).drop_last() =~= all.take(i as int));
            assert(all.take(i + 1).last() == records@[i as int]@);
        }
        match &records[i].response {
            Some(response) => {
                if !knows_url(&found, &response.rpc_url) {
                    found.push(response.clone());
                    assert(responses_of(found@) =~= responses_of(before).push(response@));
                }
            },
            None => {},
        }
        i = i + 1;
    }
    assert(all.take(i as int) =~= all);
    found
}

/// The responses that are asked for.
fn select(records: &[RpcRecord], query: &MetricsQuery) -> (found: Vec<RPCResponse>)
    ensures
        responses_of(found@) == selected(records_of(records@), query@),
        reads_keys_as_text(records_of(records@)),
{
    let ghost all = records_of(records@);
    let mut found: Vec<RPCResponse> = Vec::new();
    let mut i: usize = 0;
    assert(responses_of(found@) =~= selected(all.take(0), query@));
    while i < records.len()
        invariant
            i <= records@.len(),
            all == records_of(records@),
            responses_of(found@) == selected(all.take(i as int), query@),
            reads_keys_as_text(all.take(i as int)),
        decreases records@.len() - i,
    {
        let ghost before = found@;
        proof {
            assert(all.take(i + 1).drop_last() =~= all.take(i as int));
            assert(all.take(i + 1).last() == records@[i as int]@);
        }
        match &records[i].response {
            Some(response) => {
                let text = to_lossy_text(records[i].key.as_slice());
                if matches_query(text.as_str(), response, query) {
                    found.push(response.clone());
                    assert(responses_of(found@) =~= responses_of(before).push(response@));
                }
            },
            None => {},
        }
        proof {
            assert forall|j: int| 0 <= j < i + 1 && (#[trigger] all.take(i + 1)[j]).response is Some && valid_utf8(
                all.take(i + 1)[j].key,
            ) implies lossy_text(all.take(i + 1)[j].key) == decode_utf8(all.take(i + 1)[j].key) by {
                if j < i {
                    assert(all.take(i as int)[j] == all.take(i + 1)[j]);
                }
            }
        }
        i = i + 1;
    }
    assert(all.take(i as int) =~= all);
    found
}

/// The responses by their time, the latest first, without the URLs of the
/// endpoints.
fn publish(found: &Vec<RPCResponse>) -> (responses: Vec<RPCResponse>)
    ensures
        ({
            let views = responses_of(found@);
            let order = ranking(time_keys(views));
            responses_of(responses@) == Seq::new(views.len(), |i: int| without_url(views[order[i]]))
        }),
{
    let ghost views = responses_of(found@);
    let mut keys: Vec<i128> = Vec::new();
    let mut i: usize = 0;
    while i < found.len()
        invariant
            i <= found@.len(),
            views == responses_of(found@),
            keys@.len() == i,
            forall|j: int| 0 <= j < i ==> #[trigger] keys@[j] == time_keys(views)[j],
        decreases found@.len() - i,
    {
        keys.push(-found[i].timestamp.place());
        i = i + 1;
    }
    assert(as_ints(keys@) =~= time_keys(views));
    let order = rank_positions(&keys);
    let ghost ranked = as_positions(order@);
    let mut responses: Vec<RPCResponse> = Vec::new();
    let mut n: usize = 0;
    while n < order.len()
        invariant
            n <= order@.len(),
            views == responses_of(found@),
            order@.len() == found@.len(),
            ranked == as_positions(order@),
            is_ranking(ranked, time_keys(views)),
            responses@.len() == n,
            forall|j: int| 0 <= j < n ==> (#[trigger] responses@[j])@ == without_url(views[ranked[j]]),
        decreases order@.len() - n,
    {
        assert(ranked[n as int] == order@[n as int]);
        let mut response = found[order[n]].clone();
        response.rpc_url = String::new();
        responses.push(response);
        n = n + 1;
    }
    assert(responses_of(responses@) =~= Seq::new(views.len(), |i: int| without_url(views[ranked[i]])));
    responses
}

/// The responses that are asked for, and what the latest responses of all
/// endpoints come to. The records are given in the reverse order of their keys,
/// so that the first one of an endpoint is its latest.
pub fn get_metrics(records: &[RpcRecord], query: &MetricsQuery) -> (metrics: Metrics)
    ensures
        responses_of(metrics.responses@) == shown(records_of(records@), query@),
        reads_keys_as_text(records_of(records@)),
        ({
            let latest = first_by_rpc(records_of(records@));
            match metrics.consensus {
                Some(stats) => lead_fits(latest) && stats@ == consensus(latest),
                None => !lead_fits(latest),
            }
        }),
{
    let latest = find_first_by_rpc(records);
    let found = select(records, query);
    let responses = publish(&found);
    let consensus = if lead_is_small(latest.as_slice()) {
        Some(calculate_consensus(latest.as_slice()))
    } else {
        None
    };
    Metrics { responses, consensus }
}

/// Whether a record is a response from before `cutoff` seconds.
pub open spec fn is_expired(record: RpcRecordView, cutoff: i64) -> bool {
    record.response matches Some(response) && rank(response.timestamp) < rank(whole_bits(cutoff as int) as u64)
}

/// The keys of the responses from before `cutoff` seconds, in the order of the
/// records.
pub open spec fn expired(records: Seq<RpcRecordView>, cutoff: i64) -> Seq<Seq<u8>>
    decreases records.len(),
{
    if records.len() == 0 {
        Seq::empty()
    } else {
        let others = expired(records.drop_last(), cutoff);
        if is_expired(records.last(), cutoff) {
            others.push(records.last().key)
        } else {
            others
        }
    }
}

/// The bytes of some keys.
pub open spec fn keys_of(keys: Seq<Vec<u8>>) -> Seq<Seq<u8>> {
    keys.map_values(|key: Vec<u8>| key@)
}

/// The time before which responses are removed at the time `now`.
pub open spec fn cutoff_at(now: i64) -> i64 {
    if now < i64::MIN + RETENTION_SECONDS {
        i64::MIN
    } else {
        (now - RETENTION_SECONDS) as i64
    }
}

/// The keys of the responses from before `cutoff` seconds.
pub fn expired_keys(records: &[RpcRecord], cutoff: i64) -> (keys: Vec<Vec<u8>>)
    ensures
        keys_of(keys@) == expired(records_of(records@), cutoff),
{
    let ghost all = records_of(records@);
    let limit = Timestamp::from_seconds(cutoff);
    let mut keys: Vec<Vec<u8>> = Vec::new();
    let mut i: usize = 0;
    assert(keys_of(keys@) =~= expired(all.take(0), cutoff));
    while i < records.len()
        invariant
            i <= records@.len(),
            all == records_of(records@),
            limit@ == whole_bits(cutoff as int),
            keys_of(keys@) == expired(all.take(i as int), cutoff),
        decreases records@.len() - i,
    {
        let ghost before = keys@;
        proof {
            assert(all.take(i + 1).drop_last() =~= all.take(i as int));
            assert(all.take(i + 1).last() == records@[i as int]@);
        }
        let old_response = match &records[i].response {
            Some(response) => response.timestamp.precedes(&limit),
            None => false,
        };
        if old_response {
            let key = crate::bytes::prefix(records[i].key.as_slice(), records[i].key.len());
            assert(key@ =~= records@[i as int].key@);
            keys.push(key);
            assert(keys_of(keys@) =~= keys_of(before).push(key@));
        }
        i = i + 1;
    }
    assert(all.take(i as int) =~= all);
    keys
}

/// The keys of the responses that are older than an hour at the time `now`.
pub fn expired_keys_at(records: &[RpcRecord], now: i64) -> (keys: Vec<Vec<u8>>)
    ensures
        keys_of(keys@) == expired(records_of(records@), cutoff_at(now)),
{
    let cutoff: i64 = if now < i64::MIN + RETENTION_SECONDS {
        i64::MIN
    } else {
        now - RETENTION_SECONDS
    };
    expired_keys(records, cutoff)
}

/// The keys of the responses that are older than an hour now.
pub fn cleanup_old_entries(records: &[RpcRecord]) -> (keys: Vec<Vec<u8>>)
    ensures
        exists|now: i64| keys_of(keys@) == expired(records_of(records@), #[trigger] cutoff_at(now)),
{
    let now = utc_seconds();
    let keys = expired_keys_at(records, now);
    assert(keys_of(keys@) == expired(records_of(records@), cutoff_at(now)));
    keys
}

/// A response that a poll stored is asked for by its URL: exactly where the
/// filter occurs in it and the time is right.
pub proof fn law_stored_responses_are_asked_for_by_url(
    url: Seq<char>,
    seconds: i64,
    response: RPCResponseView,
    query: MetricsQueryView,
)
    ensures
        name_part(decode_utf8(response_key(url, seconds))) == Some(encode_utf8(url)),
        is_asked_for(decode_utf8(response_key(url, seconds)), response, query) <==> {
            &&& query.rpc matches Some(filter) ==> occurs(encode_utf8(url), encode_utf8(filter))
            &&& in_time(response.timestamp, query.from, query.to)
        },
{
    law_response_key_reads_back(url, seconds);
    decode_utf8_encode_utf8(response_key(url, seconds));
}

/// A record that a poll stored is shown by its URL: where its key is read as it
/// stands, it is selected exactly where the filter occurs in the URL and the time
/// is right.
pub proof fn law_stored_records_are_selected_by_url(
    records: Seq<RpcRecordView>,
    query: MetricsQueryView,
    j: int,
    url: Seq<char>,
    seconds: i64,
    response: RPCResponseView,
)
    requires
        reads_keys_as_text(records),
        0 <= j < records.len(),
        records[j].key == response_key(url, seconds),
        records[j].response == Some(response),
    ensures
        is_selected(records[j], query, response) <==> {
            &&& query.rpc matches Some(filter) ==> occurs(encode_utf8(url), encode_utf8(filter))
            &&& in_time(response.timestamp, query.from, query.to)
        },
        is_selected(records[j], query, response) ==> shown(records, query).contains(without_url(response)),
{
    law_response_key_reads_back(url, seconds);
    law_stored_responses_are_asked_for_by_url(url, seconds, response, query);
    if is_selected(records[j], query, response) {
        law_responses_asked_for_are_shown(records, query, j, response);
    }
}

/// Every response that is asked for comes from a record, and every record that
/// is asked for is among them.
proof fn lemma_selected(records: Seq<RpcRecordView>, query: MetricsQueryView)
    ensures
        forall|i: int|
            0 <= i < selected(records, query).len() ==> exists|j: int|
                0 <= j < records.len() && is_selected(
                    #[trigger] records[j],
                    query,
                    #[trigger] selected(records, query)[i],
                ),
        forall|j: int|
            0 <= j < records.len() ==> (#[trigger] records[j].response matches Some(response) ==> is_selected(
                records[j],
                query,
                response,
            ) ==> selected(records, query).contains(response)),
    decreases records.len(),
{
    if records.len() > 0 {
        let rest = records.drop_last();
        let n = records.len() - 1;
        let others = selected(rest, query);
        let found = selected(records, query);
        lemma_selected(rest, query);
        assert forall|i: int| 0 <= i < found.len() implies exists|j: int|
            0 <= j < records.len() && is_selected(#[trigger] records[j], query, #[trigger] found[i]) by {
            if i < others.len() {
                assert(found[i] == others[i]);
                let j = choose|j: int|
                    0 <= j < rest.len() && is_selected(#[trigger] rest[j], query, others[i]);
                assert(records[j] == rest[j]);
            } else {
                assert(is_selected(records[n], query, found[i]));
            }
        }
        assert forall|j: int| 0 <= j < records.len() implies (#[trigger] records[j].response matches Some(response)
            ==> is_selected(records[j], query, response) ==> found.contains(response)) by {
            if let Some(response) = records[j].response {
                if is_selected(records[j], query, response) {
                    if j < n {
                        assert(rest[j] == records[j]);
                        assert(rest[j].response is Some);
                        let i = choose|i: int| 0 <= i < others.len() && others[i] == response;
                        assert(found[i] == response);
                    } else {
                        assert(found[others.len() as int] == response);
                    }
                }
            }
        }
    }
}

/// Whether a record holds `response` and is asked for.
pub open spec fn is_selected(record: RpcRecordView, query: MetricsQueryView, response: RPCResponseView) -> bool {
    record.response == Some(response) && is_asked_for(lossy_text(record.key), response, query)
}

/// No response that is shown tells the URL of its endpoint.
pub proof fn law_urls_are_hidden(records: Seq<RpcRecordView>, query: MetricsQueryView, i: int)
    requires
        0 <= i < shown(records, query).len(),
    ensures
        shown(records, query)[i].rpc_url.len() == 0,
{
}

/// The responses are shown by their time, the latest first.
pub proof fn law_latest_is_shown_first(records: Seq<RpcRecordView>, query: MetricsQueryView, i: int, j: int)
    requires
        0 <= i <= j < shown(records, query).len(),
    ensures
        rank(shown(records, query)[i].timestamp) >= rank(shown(records, query)[j].timestamp),
{
    let keys = time_keys(selected(records, query));
    law_ranking_exists(keys);
    let order = ranking(keys);
    assert(0 <= order[i] < keys.len() && 0 <= order[j] < keys.len());
    if i < j {
        assert(ranks_before(keys, order[i], order[j]));
    }
}

/// Every response that is shown is one that a record holds and that is asked
/// for, without its URL.
pub proof fn law_shown_responses_are_asked_for(records: Seq<RpcRecordView>, query: MetricsQueryView, i: int)
    requires
        0 <= i < shown(records, query).len(),
    ensures
        exists|j: int, response: RPCResponseView|
            0 <= j < records.len() && is_selected(#[trigger] records[j], query, response) && shown(records, query)[i]
                == #[trigger] without_url(response),
{
    let found = selected(records, query);
    let keys = time_keys(found);
    law_ranking_exists(keys);
    let at = ranking(keys)[i];
    assert(0 <= at < found.len());
    lemma_selected(records, query);
    let j = choose|j: int| 0 <= j < records.len() && is_selected(#[trigger] records[j], query, found[at]);
    assert(shown(records, query)[i] == without_url(found[at]));
}

/// Every response that a record holds and that is asked for is shown.
pub proof fn law_responses_asked_for_are_shown(
    records: Seq<RpcRecordView>,
    query: MetricsQueryView,
    j: int,
    response: RPCResponseView,
)
    requires
        0 <= j < records.len(),
        is_selected(records[j], query, response),
    ensures
        shown(records, query).contains(without_url(response)),
{
    let found = selected(records, query);
    let keys = time_keys(found);
    lemma_selected(records, query);
    assert(records[j].response is Some);
    let at = choose|at: int| 0 <= at < found.len() && found[at] == response;
    law_ranking_exists(keys);
    law_ranking_lists_every_position(ranking(keys), keys, at);
    let i = choose|i: int| 0 <= i < ranking(keys).len() && ranking(keys)[i] == at;
    assert(shown(records, query)[i] == without_url(response));
}

/// Whether record `j` is the first that holds a response from its endpoint.
pub open spec fn is_first_of_rpc(records: Seq<RpcRecordView>, j: int, response: RPCResponseView) -> bool {
    &&& 0 <= j < records.len()
    &&& records[j].response == Some(response)
    &&& forall|k: int|
        0 <= k < j ==> (#[trigger] records[k].response matches Some(other) ==> other.rpc_url != response.rpc_url)
}

/// Whether some record is the first that holds a response from its endpoint,
/// and holds this one.
pub open spec fn comes_first(records: Seq<RpcRecordView>, response: RPCResponseView) -> bool {
    exists|j: int| is_first_of_rpc(records, j, response)
}

/// The consensus rests on one response of each endpoint: the first that any
/// record holds.
pub proof fn law_one_response_of_each_endpoint(records: Seq<RpcRecordView>)
    ensures
        forall|a: int, b: int|
            0 <= a < b < first_by_rpc(records).len() ==> (#[trigger] first_by_rpc(records)[a]).rpc_url != (
            #[trigger] first_by_rpc(records)[b]).rpc_url,
        forall|i: int|
            0 <= i < first_by_rpc(records).len() ==> comes_first(records, #[trigger] first_by_rpc(records)[i]),
        forall|j: int|
            0 <= j < records.len() ==> (#[trigger] records[j].response matches Some(response) ==> has_url(
                first_by_rpc(records),
                response.rpc_url,
            )),
    decreases records.len(),
{
    if records.len() > 0 {
        let rest = records.drop_last();
        let n = records.len() - 1;
        let others = first_by_rpc(rest);
        let found = first_by_rpc(records);
        law_one_response_of_each_endpoint(rest);
        assert forall|k: int| 0 <= k < n implies #[trigger] rest[k] == records[k] by {}
        assert forall|a: int, b: int| 0 <= a < b < found.len() implies (#[trigger] found[a]).rpc_url != (
        #[trigger] found[b]).rpc_url by {
            assert(found[a] == others[a]);
            if b < others.len() {
                assert(found[b] == others[b]);
            }
        }
        assert forall|i: int| 0 <= i < found.len() implies comes_first(records, #[trigger] found[i]) by {
            if i < others.len() {
                assert(found[i] == others[i]);
                let j = choose|j: int| is_first_of_rpc(rest, j, others[i]);
                assert forall|k: int| 0 <= k < j implies (#[trigger] records[k].response matches Some(other)
                    ==> other.rpc_url != found[i].rpc_url) by {
                    assert(rest[k].response == records[k].response);
                }
                assert(is_first_of_rpc(records, j, found[i]));
            } else {
                assert forall|k: int| 0 <= k < n implies (#[trigger] records[k].response matches Some(other)
                    ==> other.rpc_url != found[i].rpc_url) by {
                    assert(rest[k].response == records[k].response);
                }
                assert(is_first_of_rpc(records, n, found[i]));
            }
        }
        assert forall|j: int| 0 <= j < records.len() implies (#[trigger] records[j].response matches Some(response)
            ==> has_url(found, response.rpc_url)) by {
            if let Some(response) = records[j].response {
                if j < n {
                    assert(rest[j].response == records[j].response);
                    let i = choose|i: int| 0 <= i < others.len() && (#[trigger] others[i]).rpc_url == response.rpc_url;
                    assert(found[i] == others[i]);
                } else if has_url(others, response.rpc_url) {
                    let i = choose|i: int| 0 <= i < others.len() && (#[trigger] others[i]).rpc_url == response.rpc_url;
                    assert(found[i] == others[i]);
                } else {
                    assert(found[others.len() as int] == response);
                }
            }
        }
    }
}

/// Whether the records stand in the reverse order of their keys, and those that
/// hold responses are stored under their URL and a time of `digits` digits:
/// `seconds[k]` for record `k`.
pub open spec fn are_stored_in_reverse(records: Seq<RpcRecordView>, seconds: Seq<i64>, digits: nat) -> bool {
    &&& seconds.len() == records.len()
    &&& forall|j: int, k: int|
        0 <= j < k < records.len() ==> sorts_before((#[trigger] records[k]).key, (#[trigger] records[j]).key)
    &&& forall|k: int|
        0 <= k < records.len() ==> (#[trigger] records[k].response matches Some(response) ==> {
            &&& records[k].key == response_key(response.rpc_url, seconds[k])
            &&& seconds[k] >= 0
            &&& decimal(seconds[k] as nat).len() == digits
        })
}

/// Whether record `j` holds `response`, and no other response of its endpoint was
/// stored as late.
pub open spec fn is_latest_of_rpc(
    records: Seq<RpcRecordView>,
    seconds: Seq<i64>,
    j: int,
    response: RPCResponseView,
) -> bool {
    &&& 0 <= j < records.len()
    &&& records[j].response == Some(response)
    &&& forall|k: int|
        0 <= k < records.len() && k != j ==> (#[trigger] records[k].response matches Some(other) ==> other.rpc_url
            == response.rpc_url ==> seconds[k] < seconds[j])
}

/// Where the records stand in the reverse order of their keys, the consensus
/// rests on the latest response of each endpoint.
pub proof fn law_consensus_rests_on_the_latest_responses(
    records: Seq<RpcRecordView>,
    seconds: Seq<i64>,
    digits: nat,
    i: int,
)
    requires
        are_stored_in_reverse(records, seconds, digits),
        0 <= i < first_by_rpc(records).len(),
    ensures
        exists|j: int| is_latest_of_rpc(records, seconds, j, first_by_rpc(records)[i]),
{
    let response = first_by_rpc(records)[i];
    law_one_response_of_each_endpoint(records);
    assert(comes_first(records, response));
    let j = choose|j: int| is_first_of_rpc(records, j, response);
    assert(records[j].response is Some);
    assert forall|k: int| 0 <= k < records.len() && k != j implies (#[trigger] records[k].response matches Some(other)
        ==> other.rpc_url == response.rpc_url ==> seconds[k] < seconds[j]) by {
        if let Some(other) = records[k].response {
            if other.rpc_url == response.rpc_url {
                assert(j < k);
                assert(sorts_before(records[k].key, records[j].key));
                law_sorting_has_one_direction(records[k].key, records[j].key);
                if seconds[j] < seconds[k] {
                    law_earlier_responses_sort_first(response.rpc_url, seconds[j], seconds[k]);
                }
            }
        }
    }
    assert(is_latest_of_rpc(records, seconds, j, response));
}

/// A key is removed exactly where a record with that key has expired.
pub proof fn law_expired_keys_are_removed(records: Seq<RpcRecordView>, cutoff: i64, key: Seq<u8>)
    ensures
        expired(records, cutoff).contains(key) <==> exists|i: int|
            0 <= i < records.len() && (#[trigger] records[i]).key == key && is_expired(records[i], cutoff),
    decreases records.len(),
{
    if records.len() > 0 {
        let rest = records.drop_last();
        let n = records.len() - 1;
        let others = expired(rest, cutoff);
        let keys = expired(records, cutoff);
        law_expired_keys_are_removed(rest, cutoff, key);
        if keys.contains(key) {
            let a = choose|a: int| 0 <= a < keys.len() && keys[a] == key;
            if a < others.len() {
                assert(others[a] == key);
                let i = choose|i: int|
                    0 <= i < rest.len() && (#[trigger] rest[i]).key == key && is_expired(rest[i], cutoff);
                assert(records[i] == rest[i]);
            } else {
                assert(records[n].key == key);
            }
        }
        if exists|i: int| 0 <= i < records.len() && (#[trigger] records[i]).key == key && is_expired(records[i], cutoff) {
            let i = choose|i: int|
                0 <= i < records.len() && (#[trigger] records[i]).key == key && is_expired(records[i], cutoff);
            if i < n {
                assert(rest[i] == records[i]);
                let a = choose|a: int| 0 <= a < others.len() && others[a] == key;
                assert(keys[a] == key);
            } else {
                assert(keys[others.len() as int] == key);
            }
        }
    }
}

/// Whether a response stored under the key `text` is wanted: the key has a colon,
/// the filter stands somewhere before its last one, and the time is neither
/// before `from` nor after `to`, where these are given.
pub open spec fn is_wanted(text: Seq<char>, timestamp: u64, query: MetricsQueryView) -> bool {
    let bytes = encode_utf8(text);
    &&& exists|colon: int|
        {
            &&& 0 <= colon < bytes.len()
            &&& #[trigger] bytes[colon] == 58
            &&& forall|j: int| colon < j < bytes.len() ==> bytes[j] != 58
            &&& query.rpc matches Some(filter) ==> exists|at: int|
                0 <= at && at + encode_utf8(filter).len() <= colon && #[trigger] bytes.subrange(
                    at,
                    at + encode_utf8(filter).len(),
                ) == encode_utf8(filter)
        }
    &&& query.from matches Some(from) ==> rank(timestamp) >= rank(whole_bits(from as int) as u64)
    &&& query.to matches Some(to) ==> rank(timestamp) <= rank(whole_bits(to as int) as u64)
}

/// A response is asked for exactly where it is wanted.
pub proof fn law_wanted_responses_are_asked_for(text: Seq<char>, response: RPCResponseView, query: MetricsQueryView)
    ensures
        is_asked_for(text, response, query) <==> is_wanted(text, response.timestamp, query),
{
    let bytes = encode_utf8(text);
    if bytes.contains(COLON) {
        let i = choose|i: int| 0 <= i < bytes.len() && bytes[i] == COLON;
        let colon = lemma_last_colon_exists(bytes, i);
        lemma_last_colon(bytes, colon);
        let part = bytes.take(colon);
        assert(name_part(text) == Some(part));
        if let Some(filter) = query.rpc {
            let needle = encode_utf8(filter);
            if occurs(part, needle) {
                let at = choose|at: int| occurs_at(part, needle, at);
                assert(part.subrange(at, at + needle.len()) =~= bytes.subrange(at, at + needle.len()));
                assert(bytes.subrange(at, at + needle.len()) == needle);
            }
            if is_wanted(text, response.timestamp, query) {
                let c = choose|c: int|
                    {
                        &&& 0 <= c < bytes.len()
                        &&& #[trigger] bytes[c] == 58
                        &&& forall|j: int| c < j < bytes.len() ==> bytes[j] != 58
                        &&& query.rpc matches Some(filter) ==> exists|at: int|
                            0 <= at && at + encode_utf8(filter).len() <= c && #[trigger] bytes.subrange(
                                at,
                                at + encode_utf8(filter).len(),
                            ) == encode_utf8(filter)
                    };
                assert(c == colon);
                let at = choose|at: int|
                    0 <= at && at + needle.len() <= c && #[trigger] bytes.subrange(at, at + needle.len()) == needle;
                assert(part.subrange(at, at + needle.len()) =~= bytes.subrange(at, at + needle.len()));
                assert(occurs_at(part, needle, at));
            }
        }
        assert(bytes[colon] == 58);
    }
}

/// Where there is a colon, there is a last one.
proof fn lemma_last_colon_exists(s: Seq<u8>, i: int) -> (at: int)
    requires
        0 <= i < s.len(),
        s[i] == COLON,
    ensures
        is_last(s, COLON, at),
    decreases s.len() - i,
{
    if exists|j: int| i < j < s.len() && s[j] == COLON {
        let j = choose|j: int| i < j < s.len() && s[j] == COLON;
        lemma_last_colon_exists(s, j)
    } else {
        i
    }
}

/// Whether `responses` are those of the records `picks`, which are all that are
/// wanted and each once, the latest first and of equal times the earlier record,
/// with nothing changed but that the URL is gone.
pub open spec fn lists_wanted(
    responses: Seq<RPCResponse>,
    picks: Seq<int>,
    records: Seq<RpcRecordView>,
    query: MetricsQueryView,
) -> bool {
    &&& responses.len() == picks.len()
    &&& forall|k: int|
        0 <= k < picks.len() ==> {
            &&& 0 <= #[trigger] picks[k] < records.len()
            &&& records[picks[k]].response matches Some(stored) && {
                &&& is_wanted(lossy_text(records[picks[k]].key), stored.timestamp, query)
                &&& responses[k].timestamp@ == stored.timestamp
                &&& responses[k].slot == stored.slot
                &&& responses[k].blockhash@ == stored.blockhash
                &&& responses[k].latency_ms == stored.latency_ms
                &&& responses[k].nickname@ == stored.nickname
                &&& responses[k].rpc_url@.len() == 0
            }
        }
    &&& forall|j: int|
        0 <= j < records.len() && (#[trigger] records[j].response matches Some(stored) && is_wanted(
            lossy_text(records[j].key),
            stored.timestamp,
            query,
        )) ==> picks.contains(j)
    &&& forall|k: int, l: int|
        0 <= k < l < picks.len() ==> {
            ||| rank((#[trigger] responses[k]).timestamp@) > rank((#[trigger] responses[l]).timestamp@)
            ||| rank(responses[k].timestamp@) == rank(responses[l].timestamp@) && picks[k] < picks[l]
        }
}

/// The positions of the records that are selected, in their order.
proof fn lemma_selected_positions(records: Seq<RpcRecordView>, query: MetricsQueryView) -> (picks: Seq<int>)
    ensures
        picks.len() == selected(records, query).len(),
        forall|k: int|
            0 <= k < picks.len() ==> 0 <= #[trigger] picks[k] < records.len() && is_selected(
                records[picks[k]],
                query,
                selected(records, query)[k],
            ),
        forall|k: int, l: int| 0 <= k < l < picks.len() ==> (#[trigger] picks[k]) < (#[trigger] picks[l]),
        forall|j: int|
            0 <= j < records.len() && (#[trigger] records[j].response matches Some(stored) && is_asked_for(
                lossy_text(records[j].key),
                stored,
                query,
            )) ==> picks.contains(j),
    decreases records.len(),
{
    if records.len() == 0 {
        Seq::empty()
    } else {
        let rest = records.drop_last();
        let n = records.len() - 1;
        let before = lemma_selected_positions(rest, query);
        let others = selected(rest, query);
        let found = selected(records, query);
        let picks = if found.len() > others.len() { before.push(n) } else { before };
        assert forall|k: int| 0 <= k < picks.len() implies 0 <= #[trigger] picks[k] < records.len() && is_selected(
            records[picks[k]],
            query,
            found[k],
        ) by {
            if k < before.len() {
                assert(picks[k] == before[k]);
                assert(rest[before[k]] == records[before[k]]);
                assert(found[k] == others[k]);
            }
        }
        assert forall|j: int| 0 <= j < records.len() && (#[trigger] records[j].response matches Some(stored)
            && is_asked_for(lossy_text(records[j].key), stored, query)) implies picks.contains(j) by {
            if j < n {
                assert(rest[j] == records[j]);
                assert(rest[j].response is Some);
                let k = choose|k: int| 0 <= k < before.len() && before[k] == j;
                assert(picks[k] == j);
            } else {
                assert(picks[before.len() as int] == n);
            }
        }
        picks
    }
}

/// The responses that are answered are exactly those that are wanted, each once,
/// the latest first, with nothing changed but that the URL is gone.
pub proof fn law_answer_lists_what_is_wanted(
    responses: Seq<RPCResponse>,
    records: Seq<RpcRecordView>,
    query: MetricsQueryView,
)
    requires
        responses_of(responses) == shown(records, query),
    ensures
        exists|picks: Seq<int>| lists_wanted(responses, picks, records, query),
{
    let found = selected(records, query);
    let keys = time_keys(found);
    let places = lemma_selected_positions(records, query);
    law_ranking_exists(keys);
    let order = ranking(keys);
    let picks = Seq::new(order.len(), |k: int| places[order[k]]);
    assert(responses_of(responses).len() == responses.len());
    assert forall|k: int| 0 <= k < picks.len() implies ({
        &&& 0 <= #[trigger] picks[k] < records.len()
        &&& records[picks[k]].response matches Some(stored) && {
            &&& is_wanted(lossy_text(records[picks[k]].key), stored.timestamp, query)
            &&& responses[k].timestamp@ == stored.timestamp
            &&& responses[k].slot == stored.slot
            &&& responses[k].blockhash@ == stored.blockhash
            &&& responses[k].latency_ms == stored.latency_ms
            &&& responses[k].nickname@ == stored.nickname
            &&& responses[k].rpc_url@.len() == 0
        }
    }) by {
        let at = order[k];
        assert(0 <= at < found.len());
        assert(picks[k] == places[at]);
        assert(is_selected(records[places[at]], query, found[at]));
        law_wanted_responses_are_asked_for(lossy_text(records[places[at]].key), found[at], query);
        assert(responses_of(responses)[k] == responses[k]@);
        assert(responses[k]@ == without_url(found[at]));
        assert(responses[k]@.rpc_url.len() == 0);
    }
    assert forall|j: int| 0 <= j < records.len() && (#[trigger] records[j].response matches Some(stored) && is_wanted(
        lossy_text(records[j].key),
        stored.timestamp,
        query,
    )) implies picks.contains(j) by {
        let stored = records[j].response->0;
        law_wanted_responses_are_asked_for(lossy_text(records[j].key), stored, query);
        assert(places.contains(j));
        let at = choose|at: int| 0 <= at < places.len() && places[at] == j;
        law_ranking_lists_every_position(order, keys, at);
        let k = choose|k: int| 0 <= k < order.len() && order[k] == at;
        assert(picks[k] == j);
    }
    assert forall|k: int, l: int| 0 <= k < l < picks.len() implies ({
        ||| rank((#[trigger] responses[k]).timestamp@) > rank((#[trigger] responses[l]).timestamp@)
        ||| rank(responses[k].timestamp@) == rank(responses[l].timestamp@) && picks[k] < picks[l]
    }) by {
        assert(0 <= order[k] < found.len() && 0 <= order[l] < found.len());
        assert(ranks_before(keys, order[k], order[l]));
        assert(responses_of(responses)[k] == responses[k]@ && responses_of(responses)[l] == responses[l]@);
        assert(responses[k]@ == without_url(found[order[k]]) && responses[l]@ == without_url(found[order[l]]));
        if order[k] < order[l] {
            assert(places[order[k]] < places[order[l]]);
        }
    }
    assert(lists_wanted(responses, picks, records, query));
}

/// No response is answered whose time, as a number of seconds, lies before
/// `from`, and none whose time lies after `to`, whichever of the two are given.
pub proof fn law_answered_times_lie_between(
    responses: Seq<RPCResponse>,
    records: Seq<RpcRecordView>,
    query: MetricsQueryView,
    i: int,
)
    requires
        responses_of(responses) == shown(records, query),
        0 <= i < responses.len(),
        is_finite(responses[i].timestamp@),
    ensures
        query.from matches Some(from) ==> {
            &&& scaled(whole_bits(from as int) as u64) <= scaled(responses[i].timestamp@)
            &&& -2 * BINADE <= from <= 2 * BINADE ==> from * pow2(1074) <= scaled(responses[i].timestamp@)
        },
        query.to matches Some(to) ==> {
            &&& scaled(responses[i].timestamp@) <= scaled(whole_bits(to as int) as u64)
            &&& -2 * BINADE <= to <= 2 * BINADE ==> scaled(responses[i].timestamp@) <= to * pow2(1074)
        },
{
    law_answer_lists_what_is_wanted(responses, records, query);
    let picks = choose|picks: Seq<int>| lists_wanted(responses, picks, records, query);
    assert(0 <= picks[i] < records.len());
    let time = responses[i].timestamp@;
    if let Some(from) = query.from {
        law_whole_numbers_are_finite(from);
        law_rank_orders_numbers(whole_bits(from as int) as u64, time);
        if -2 * BINADE <= from <= 2 * BINADE {
            law_small_whole_doubles_are_exact(from as int);
        }
    }
    if let Some(to) = query.to {
        law_whole_numbers_are_finite(to);
        law_rank_orders_numbers(time, whole_bits(to as int) as u64);
        if -2 * BINADE <= to <= 2 * BINADE {
            law_small_whole_doubles_are_exact(to as int);
        }
    }
}

/// A response whose time, as a number of seconds, lies between `from` and `to`
/// is wanted where no filter is given and its key has a colon.
pub proof fn law_times_between_are_wanted(text: Seq<char>, timestamp: u64, query: MetricsQueryView)
    requires
        is_finite(timestamp),
        query.rpc is None,
        encode_utf8(text).contains(58),
        query.from matches Some(from) ==> -2 * BINADE <= from <= 2 * BINADE && from * pow2(1074) <= scaled(timestamp),
        query.to matches Some(to) ==> -2 * BINADE <= to <= 2 * BINADE && scaled(timestamp) <= to * pow2(1074),
    ensures
        is_wanted(text, timestamp, query),
{
    let bytes = encode_utf8(text);
    let i = choose|i: int| 0 <= i < bytes.len() && bytes[i] == 58;
    let colon = lemma_last_colon_exists(bytes, i);
    assert(bytes[colon] == 58);
    if let Some(from) = query.from {
        law_whole_numbers_are_finite(from);
        law_rank_orders_numbers(timestamp, whole_bits(from as int) as u64);
        law_small_whole_doubles_are_exact(from as int);
    }
    if let Some(to) = query.to {
        law_whole_numbers_are_finite(to);
        law_rank_orders_numbers(whole_bits(to as int) as u64, timestamp);
        law_small_whole_doubles_are_exact(to as int);
    }
}

/// At the time `now`, the keys that are removed are those of the responses whose
/// time, as a number of seconds, is more than 3600 before it, and no others.
pub proof fn law_older_than_an_hour_is_removed(
    keys: Seq<Vec<u8>>,
    records: Seq<RpcRecordView>,
    now: i64,
    key: Seq<u8>,
)
    requires
        keys_of(keys) == expired(records, cutoff_at(now)),
        -2 * BINADE + 3600 <= now <= 2 * BINADE,
        forall|i: int|
            0 <= i < records.len() ==> (#[trigger] records[i].response matches Some(response) ==> is_finite(
                response.timestamp,
            )),
    ensures
        (exists|k: int| 0 <= k < keys.len() && (#[trigger] keys[k])@ == key) <==> exists|i: int|
            0 <= i < records.len() && (#[trigger] records[i]).key == key && (records[i].response matches Some(response)
                && scaled(response.timestamp) < (now - 3600) * pow2(1074)),
{
    let cutoff = cutoff_at(now);
    let old_keys = expired(records, cutoff);
    assert(cutoff == now - 3600);
    law_expired_keys_are_removed(records, cutoff, key);
    law_whole_numbers_are_finite(cutoff);
    law_small_whole_doubles_are_exact(cutoff as int);
    assert forall|i: int| 0 <= i < records.len() implies (is_expired(#[trigger] records[i], cutoff) <==> (
    records[i].response matches Some(response) && scaled(response.timestamp) < (now - 3600) * pow2(1074))) by {
        if let Some(response) = records[i].response {
            assert(records[i].response is Some);
            law_rank_orders_numbers(response.timestamp, whole_bits(cutoff as int) as u64);
        }
    }
    if exists|k: int| 0 <= k < keys.len() && (#[trigger] keys[k])@ == key {
        let k = choose|k: int| 0 <= k < keys.len() && (#[trigger] keys[k])@ == key;
        assert(keys_of(keys)[k] == key);
        assert(old_keys.contains(key));
        let i = choose|i: int|
            0 <= i < records.len() && (#[trigger] records[i]).key == key && is_expired(records[i], cutoff);
        assert(is_expired(records[i], cutoff));
    }
    if exists|i: int|
        0 <= i < records.len() && (#[trigger] records[i]).key == key && (records[i].response matches Some(response)
            && scaled(response.timestamp) < (now - 3600) * pow2(1074)) {
        let i = choose|i: int|
            0 <= i < records.len() && (#[trigger] records[i]).key == key && (records[i].response matches Some(response)
                && scaled(response.timestamp) < (now - 3600) * pow2(1074));
        assert(is_expired(records[i], cutoff));
        assert(old_keys.contains(key));
        let k = choose|k: int| 0 <= k < old_keys.len() && old_keys[k] == key;
        assert(keys_of(keys)[k] == keys[k]@);
    }
}

/// A bound that is written as a number is read as that number, one that is not
/// given is none, and the filter is taken as it is.
pub proof fn law_parameters_are_read(
    query: MetricsQuery,
    rpc: Option<String>,
    from: Option<String>,
    to: Option<String>,
    n: i64,
)
    requires
        query@ == (MetricsQueryView { rpc: text_of(rpc), from: number_in(from), to: number_in(to) }),
    ensures
        rpc is None <==> query@.rpc is None,
        rpc matches Some(text) ==> query@.rpc == Some(text@),
        from is None ==> query@.from is None,
        to is None ==> query@.to is None,
        from matches Some(text) ==> (encode_utf8(text@) == signed_decimal(n as int) ==> query@.from == Some(n)),
        to matches Some(text) ==> (encode_utf8(text@) == signed_decimal(n as int) ==> query@.to == Some(n)),
{
    law_signed_decimal_reads_back(n);
}

} // verus!

//! The performance of the WebSocket endpoints over the latest slots.
use crate::clock::is_clock_reading;
use crate::config::Config;
use crate::delays::{are_endpoint_clocks, avg_writes, compute_avg_delays_with_range, delays_of};
use crate::delays::{endpoint_terms, is_delay_list, no_terms, slot_count};
use crate::delays::{delay_terms, law_slots_that_count_have_a_delay, slot_delay, stored_delay};
use crate::delays::{lemma_noted_averages_stay, lemma_stored_delay_is_a_term};
use crate::double::rank;
use crate::double::{MINUS_ONE_BITS, ZERO_BITS};
use crate::keys::{law_both_readings_agree, slot_key};
use crate::names::NameMap;
use crate::notification::SlotNotificationResult;
use crate::rates::{compute_win_rates_with_range, is_noted_range, range_writes, win_rates, winners};
use crate::rates::{
    law_range_changes_delays_alone, law_range_keeps_labels, law_range_notes_every_delay, law_winners_of_a_range,
    law_rates_are_shares_of_the_reported_slots, law_winners_are_the_reported_slots, law_winners_stay_the_same,
    lemma_noted_range_stays, lemma_range_is_noted,
};
use crate::share::Share;
use crate::slots::{
    earliest_common_slot, get_earliest_common_websocket_slot_with_min, get_latest_websocket_slot,
    is_common, is_earliest_common, is_known, is_latest, latest_slot, law_earliest_common_slot_exists,
    law_slots_are_those_of_the_keys, oldest_kept, reports,
};
use crate::store::{after_writes, lemma_after_writes_concat, lookup};
use crate::store::{Contents, SlotStore, WriteView};
use crate::tally::lemma_count_in_range;
use crate::target::{are_target_updates, get_slot_updates_for_target_slot, is_earliest_stored, target_update};
use crate::target::law_first_time_is_earliest;
use crate::time::Timestamp;
use crate::update::{Delay, DelayView, SlotUpdate, SlotUpdateView};
use crate::winner::{all_noted, entry_for, law_winner_reported_first, names_of, same_but_delays, slot_winner};
use crate::winner::{
    is_first_report, is_first_time, is_reported, is_won_by, law_winner_has_the_first_time, reported_at,
    same_but_delay, well_labelled,
};
use vstd::prelude::*;
use vstd::set_lib::{lemma_int_range, lemma_set_subset_finite, set_int_range};

verus! {

/// The number of slots before the latest one that are evaluated.
pub const EVAL_RANGE: u64 = 200;

/// An average delay in milliseconds.
#[derive(Debug)]
pub enum Average {
    /// The bits of a fixed double.
    Fixed(u64),
    /// The mean of some delays.
    MeanOf(Vec<Delay>),
}

/// An [`Average`] over views.
pub enum AverageView {
    Fixed(u64),
    MeanOf(Seq<DelayView>),
}

impl View for Average {
    type V = AverageView;

    open spec fn view(&self) -> AverageView {
        match *self {
            Average::Fixed(bits) => AverageView::Fixed(bits),
            Average::MeanOf(delays) => AverageView::MeanOf(delays_of(delays@)),
        }
    }
}

/// The performance of one endpoint.
#[derive(Debug)]
pub struct WebSocketStats {
    pub nickname: String,
    pub win_rate: Share,
    pub avg_delay: Average,
    pub slot_details: SlotUpdate,
}

/// The performance of all endpoints.
#[derive(Debug)]
pub struct WebSocketMetricsResponse {
    pub start_slot: u64,
    pub latest_slot: u64,
    pub stats: Vec<WebSocketStats>,
}

/// The first slot that is evaluated where the latest is `latest`: the first
/// that all endpoints have reported in the evaluated range, or else its start.
pub open spec fn start_of_range(contents: Contents, latest: u64) -> u64 {
    let lower = oldest_kept(latest, EVAL_RANGE);
    match earliest_common_slot(contents, lower) {
        Some(common) => if common > lower {
            common
        } else {
            lower
        },
        None => lower,
    }
}

/// The average of delays, where there are any; minus one else.
pub open spec fn average_of(delays: Seq<DelayView>) -> AverageView {
    if delays.len() > 0 {
        AverageView::MeanOf(delays)
    } else {
        AverageView::Fixed(MINUS_ONE_BITS)
    }
}

/// The average delay that `list` holds of a name from position `from` on: that
/// of its first entry, where it has delays; minus one else.
pub open spec fn listed_average(list: Seq<(String, Option<Vec<Delay>>)>, from: int, name: Seq<char>) -> AverageView
    decreases list.len() - from,
{
    if from >= list.len() {
        AverageView::Fixed(MINUS_ONE_BITS)
    } else if list[from].0@ == name {
        match list[from].1 {
            Some(delays) => AverageView::MeanOf(delays_of(delays@)),
            None => AverageView::Fixed(MINUS_ONE_BITS),
        }
    } else {
        listed_average(list, from + 1, name)
    }
}

/// The rate of a name; nothing where it has none.
pub open spec fn listed_rate(rates: Map<Seq<char>, Share>, name: Seq<char>) -> Share {
    if rates.contains_key(name) {
        rates[name]
    } else {
        Share { part: 0, whole: 0 }
    }
}

/// The details of a name; an update of no slot where it has none.
pub open spec fn listed_details(details: Map<Seq<char>, SlotUpdate>, name: Seq<char>) -> SlotUpdateView {
    if details.contains_key(name) {
        details[name]@
    } else {
        SlotUpdateView {
            timestamp: ZERO_BITS,
            nickname: name,
            slot_info: SlotNotificationResult { slot: 0, parent: 0, root: 0 },
            delay: Some(DelayView::Stored(MINUS_ONE_BITS)),
        }
    }
}

/// A copy of a list of delays.
fn copy_delays(delays: &Vec<Delay>) -> (copy: Vec<Delay>)
    ensures
        delays_of(copy@) == delays_of(delays@),
{
    let mut copy: Vec<Delay> = Vec::new();
    let mut i: usize = 0;
    while i < delays.len()
        invariant
            i <= delays@.len(),
            copy@ =~= delays@.take(i as int),
        decreases delays@.len() - i,
    {
        copy.push(delays[i]);
        i = i + 1;
    }
    assert(copy@ =~= delays@);
    copy
}

/// The average delay that a list holds of a name.
fn find_average(list: &Vec<(String, Option<Vec<Delay>>)>, name: &String) -> (average: Average)
    ensures
        average@ == listed_average(list@, 0, name@),
{
    let mut i: usize = 0;
    while i < list.len()
        invariant
            i <= list@.len(),
            listed_average(list@, 0, name@) == listed_average(list@, i as int, name@),
        decreases list@.len() - i,
    {
        let entry = &list[i];
        if entry.0 == *name {
            return match &entry.1 {
                Some(delays) => Average::MeanOf(copy_delays(delays)),
                None => Average::Fixed(MINUS_ONE_BITS),
            };
        }
        i = i + 1;
    }
    Average::Fixed(MINUS_ONE_BITS)
}

/// The performance of each endpoint, put together from the rates, the delays
/// and the details of all of them.
pub fn collect_stats(
    names: &[String],
    rates: &NameMap<Share>,
    list: &Vec<(String, Option<Vec<Delay>>)>,
    details: &NameMap<SlotUpdate>,
) -> (stats: Vec<WebSocketStats>)
    ensures
        stats@.len() == names@.len(),
        forall|i: int|
            0 <= i < stats@.len() ==> {
                &&& (#[trigger] stats@[i]).nickname@ == names@[i]@
                &&& stats@[i].win_rate == listed_rate(rates@, names@[i]@)
                &&& stats@[i].avg_delay@ == listed_average(list@, 0, names@[i]@)
                &&& stats@[i].slot_details@ == listed_details(details@, names@[i]@)
            },
{
    let mut stats: Vec<WebSocketStats> = Vec::new();
    let mut i: usize = 0;
    while i < names.len()
        invariant
            i <= names@.len(),
            stats@.len() == i,
            forall|j: int|
                0 <= j < i ==> {
                    &&& (#[trigger] stats@[j]).nickname@ == names@[j]@
                    &&& stats@[j].win_rate == listed_rate(rates@, names@[j]@)
                    &&& stats@[j].avg_delay@ == listed_average(list@, 0, names@[j]@)
                    &&& stats@[j].slot_details@ == listed_details(details@, names@[j]@)
                },
        decreases names@.len() - i,
    {
        let nickname = names[i].clone();
        let win_rate = match rates.get(&nickname) {
            Some(rate) => *rate,
            None => Share { part: 0, whole: 0 },
        };
        let avg_delay = find_average(list, &nickname);
        let slot_details = match details.get(&nickname) {
            Some(update) => update.clone(),
            None => SlotUpdate {
                timestamp: Timestamp::zero(),
                nickname: nickname.clone(),
                slot_info: SlotNotificationResult { slot: 0, parent: 0, root: 0 },
                delay: Some(Delay::Stored(MINUS_ONE_BITS)),
            },
        };
        stats.push(WebSocketStats { nickname, win_rate, avg_delay, slot_details });
        i = i + 1;
    }
    stats
}

/// Whether `name` stands first at position `i`.
pub open spec fn is_first_position(names: Seq<Seq<char>>, name: Seq<char>, i: int) -> bool {
    &&& 0 <= i < names.len()
    &&& names[i] == name
    &&& forall|j: int| 0 <= j < i ==> #[trigger] names[j] != name
}

/// The first position of a name.
pub open spec fn first_position(names: Seq<Seq<char>>, name: Seq<char>) -> int {
    choose|i: int| is_first_position(names, name, i)
}

proof fn lemma_first_position(names: Seq<Seq<char>>, name: Seq<char>, i: int)
    requires
        0 <= i < names.len(),
        names[i] == name,
    ensures
        is_first_position(names, name, first_position(names, name)),
    decreases i,
{
    if exists|j: int| 0 <= j < i && #[trigger] names[j] == name {
        let j = choose|j: int| 0 <= j < i && #[trigger] names[j] == name;
        lemma_first_position(names, name, j);
    } else {
        assert(is_first_position(names, name, i));
    }
}

/// The average of a name is that of the first entry with that name.
proof fn lemma_listed_average(
    list: Seq<(String, Option<Vec<Delay>>)>,
    names: Seq<Seq<char>>,
    name: Seq<char>,
    from: int,
    at: int,
)
    requires
        list.len() == names.len(),
        forall|j: int| 0 <= j < list.len() ==> (#[trigger] list[j]).0@ == names[j],
        0 <= from <= at,
        is_first_position(names, name, at),
    ensures
        listed_average(list, from, name) == match list[at].1 {
            Some(delays) => AverageView::MeanOf(delays_of(delays@)),
            None => AverageView::Fixed(MINUS_ONE_BITS),
        },
    decreases at - from,
{
    assert(list[from].0@ == names[from]);
    if from < at {
        lemma_listed_average(list, names, name, from + 1, at);
    }
}

/// The nicknames of the WebSocket endpoints.
pub open spec fn ws_names(config: Config) -> Seq<Seq<char>> {
    Seq::new(config.ws.endpoints@.len(), |i: int| config.ws.endpoints@[i].nickname@)
}

/// The nicknames of the WebSocket endpoints.
pub fn endpoint_names(config: &Config) -> (names: Vec<String>)
    ensures
        names_of(names@) == ws_names(*config),
{
    let mut names: Vec<String> = Vec::new();
    let mut i: usize = 0;
    while i < config.ws.endpoints.len()
        invariant
            i <= config.ws.endpoints@.len(),
            names_of(names@) =~= ws_names(*config).take(i as int),
        decreases config.ws.endpoints@.len() - i,
    {
        let ghost before = names@;
        names.push(config.ws.endpoints[i].nickname.clone());
        assert(names_of(names@) =~= names_of(before).push(ws_names(*config)[i as int]));
        i = i + 1;
    }
    assert(names_of(names@) =~= ws_names(*config));
    names
}

/// Whether a response says that there is nothing to evaluate.
pub open spec fn is_empty_response(response: WebSocketMetricsResponse) -> bool {
    response.start_slot == 0 && response.latest_slot == 0 && response.stats@.len() == 0
}

/// The changes that finding the winners of the evaluated slots makes.
pub open spec fn ws_rate_writes(contents: Contents, names: Seq<Seq<char>>, latest: u64) -> Seq<WriteView> {
    range_writes(contents, names, start_of_range(contents, latest) as int, latest + 1)
}

/// The changes that finding the delays at the evaluated slots makes after that.
pub open spec fn ws_delay_writes(contents: Contents, names: Seq<Seq<char>>, latest: u64) -> Seq<WriteView> {
    avg_writes(
        after_writes(contents, ws_rate_writes(contents, names, latest)),
        names,
        names,
        start_of_range(contents, latest) as int,
        latest + 1,
    )
}

/// The winners of the evaluated slots.
pub open spec fn ws_winners(contents: Contents, names: Seq<Seq<char>>, latest: u64) -> Seq<Seq<char>> {
    winners(contents, names, start_of_range(contents, latest) as int, latest + 1)
}

/// The changes that an evaluation makes.
pub open spec fn ws_writes(contents: Contents, names: Seq<Seq<char>>) -> Seq<WriteView> {
    match latest_slot(contents) {
        Some(latest) => if ws_winners(contents, names, latest).len() == 0 {
            ws_rate_writes(contents, names, latest)
        } else {
            ws_rate_writes(contents, names, latest) + ws_delay_writes(contents, names, latest)
        },
        None => Seq::empty(),
    }
}

/// Whether `stats` is the performance of endpoint `i`, where the clock read
/// `readings` at the evaluated slots and `now` at the end.
pub open spec fn are_endpoint_stats(
    stats: WebSocketStats,
    contents: Contents,
    names: Seq<Seq<char>>,
    latest: u64,
    i: int,
    readings: Seq<Option<u64>>,
    now: Option<u64>,
) -> bool {
    let settled = after_writes(contents, ws_rate_writes(contents, names, latest));
    let start = start_of_range(contents, latest) as int;
    let first = first_position(names, names[i]);
    &&& stats.nickname@ == names[i]
    &&& stats.win_rate == listed_rate(win_rates(ws_winners(contents, names, latest)), names[i])
    &&& stats.avg_delay@ == average_of(endpoint_terms(settled, names, start, latest + 1, first, readings))
    &&& stats.slot_details@ == target_update(
        after_writes(settled, ws_delay_writes(contents, names, latest)),
        names,
        latest,
        names[i],
        now,
    )
}

/// Whether `response` holds the performance of all endpoints.
pub open spec fn is_full_response(
    response: WebSocketMetricsResponse,
    contents: Contents,
    names: Seq<Seq<char>>,
    latest: u64,
    clocks: Seq<Seq<Option<u64>>>,
    now: Option<u64>,
) -> bool {
    &&& response.start_slot == start_of_range(contents, latest)
    &&& response.latest_slot == latest
    &&& response.stats@.len() == names.len()
    &&& forall|i: int|
        0 <= i < names.len() ==> are_endpoint_stats(
            #[trigger] response.stats@[i],
            contents,
            names,
            latest,
            i,
            clocks[first_position(names, names[i])],
            now,
        )
}

/// Whether `response` is the evaluation of the latest slots, some of which have
/// a winner, where the clock read `clocks[i]` at these slots for endpoint `i` and
/// `now` at the end. It is empty exactly where no endpoint has any delay.
pub open spec fn is_evaluation(
    response: WebSocketMetricsResponse,
    contents: Contents,
    names: Seq<Seq<char>>,
    latest: u64,
    clocks: Seq<Seq<Option<u64>>>,
    now: Option<u64>,
) -> bool {
    let settled = after_writes(contents, ws_rate_writes(contents, names, latest));
    let start = start_of_range(contents, latest);
    &&& are_endpoint_clocks(clocks, names.len(), start, latest)
    &&& now matches Some(bits) ==> is_clock_reading(bits)
    &&& if no_terms(settled, names, start, latest, clocks) {
        is_empty_response(response)
    } else {
        is_full_response(response, contents, names, latest, clocks, now)
    }
}

/// The evaluated slots end with the latest one, and reach back
/// [`EVAL_RANGE`] slots at most.
pub proof fn law_range_ends_with_the_latest_slot(contents: Contents, latest: u64)
    requires
        latest_slot(contents) == Some(latest),
    ensures
        start_of_range(contents, latest) <= latest,
        latest - start_of_range(contents, latest) <= EVAL_RANGE,
{
    let lower = oldest_kept(latest, EVAL_RANGE);
    assert(is_latest(contents, latest));
    if let Some(common) = earliest_common_slot(contents, lower) {
        assert(is_earliest_common(contents, lower, common));
        assert(is_common(contents, lower, common));
        let name = choose|name: Seq<u8>| is_known(contents, name);
        assert(reports(contents, name, common));
        let key = choose|key: Seq<u8>| #[trigger]
            contents.contains_key(key) && crate::keys::slot_entry(key) == Some((name, common));
        law_both_readings_agree(key);
    }
}

/// The performance of every endpoint over the latest slots; an empty response
/// where no slot is stored, none of these has a winner or no endpoint has a
/// delay. Every update of these
/// slots is told how far it was behind.
pub fn get_ws_metrics(store: &mut SlotStore, config: &Config) -> (response: WebSocketMetricsResponse)
    requires
        old(store).wf(),
    ensures
        final(store).wf(),
        final(store).loaded() == old(store).loaded(),
        ({
            let writes = ws_writes(old(store).contents(), ws_names(*config));
            &&& final(store).contents() == after_writes(old(store).contents(), writes)
            &&& final(store).pending() == old(store).pending() + writes
        }),
        match latest_slot(old(store).contents()) {
            Some(latest) => if ws_winners(old(store).contents(), ws_names(*config), latest).len() == 0 {
                is_empty_response(response)
            } else {
                exists|clocks: Seq<Seq<Option<u64>>>, now: Option<u64>|
                    is_evaluation(
                        response,
                        old(store).contents(),
                        ws_names(*config),
                        latest,
                        clocks,
                        now,
                    )
            },
            None => is_empty_response(response),
        },
{
    let ghost contents = store.contents();
    let ghost all = ws_names(*config);
    let latest = match get_latest_websocket_slot(store) {
        Some(slot) => slot,
        None => {
            assert(store.pending() =~= old(store).pending() + Seq::<WriteView>::empty());
            return WebSocketMetricsResponse { start_slot: 0, latest_slot: 0, stats: Vec::new() };
        },
    };
    let lower = latest.saturating_sub(EVAL_RANGE);
    let common = match get_earliest_common_websocket_slot_with_min(store, lower) {
        Some(slot) => slot,
        None => 0,
    };
    let start = if common > lower { common } else { lower };
    proof {
        law_range_ends_with_the_latest_slot(contents, latest);
        assert(start == start_of_range(contents, latest));
    }
    let names = endpoint_names(config);
    let ghost rate_writes = ws_rate_writes(contents, all, latest);
    let ghost delay_writes = ws_delay_writes(contents, all, latest);
    let rates = match compute_win_rates_with_range(store, names.as_slice(), start, latest) {
        Some(rates) => rates,
        None => {
            return WebSocketMetricsResponse { start_slot: 0, latest_slot: 0, stats: Vec::new() };
        },
    };
    let ghost settled = store.contents();
    let listed = compute_avg_delays_with_range(store, names.as_slice(), start, latest);
    let ghost clocks = choose|clocks: Seq<Seq<Option<u64>>>|
        is_delay_list(listed, settled, all, start, latest, clocks);
    proof {
        lemma_after_writes_concat(contents, rate_writes, delay_writes);
        assert(store.pending() =~= old(store).pending() + (rate_writes + delay_writes));
    }
    let list = match listed {
        Some(list) => list,
        None => {
            let response = WebSocketMetricsResponse { start_slot: 0, latest_slot: 0, stats: Vec::new() };
            assert(is_evaluation(response, contents, all, latest, clocks, None));
            return response;
        },
    };
    let details = get_slot_updates_for_target_slot(store, names.as_slice(), latest);
    let stats = collect_stats(names.as_slice(), &rates, &list, &details);
    let response = WebSocketMetricsResponse { start_slot: start, latest_slot: latest, stats };
    proof {
        let now = choose|now: Option<u64>|
            {
                &&& now matches Some(bits) ==> is_clock_reading(bits)
                &&& #[trigger] are_target_updates(details@, store.contents(), all, latest, now)
            };
        assert(all.len() == names@.len());
        assert forall|i: int| 0 <= i < all.len() implies are_endpoint_stats(
            #[trigger] response.stats@[i],
            contents,
            all,
            latest,
            i,
            clocks[first_position(all, all[i])],
            now,
        ) by {
            let name = all[i];
            assert(names_of(names@)[i] == names@[i]@);
            lemma_first_position(all, name, i);
            let first = first_position(all, name);
            lemma_listed_average(list@, all, name, 0, first);
            assert(list@[first].0@ == name);
            assert(all.contains(name));
            assert(details@.contains_key(name));
        }
        assert(is_evaluation(response, contents, all, latest, clocks, now));
    }
    response
}

/// After the winners of the evaluated slots have been found, every delay in
/// them is noted.
proof fn lemma_evaluated_range_is_noted(contents: Contents, names: Seq<Seq<char>>, latest: u64)
    requires
        well_labelled(contents),
        latest_slot(contents) == Some(latest),
    ensures
        ({
            let settled = after_writes(contents, ws_rate_writes(contents, names, latest));
            let start = start_of_range(contents, latest) as int;
            &&& start <= latest
            &&& well_labelled(settled)
            &&& is_noted_range(settled, names, start, latest + 1)
            &&& same_but_delays(contents, settled)
        }),
{
    let settled = after_writes(contents, ws_rate_writes(contents, names, latest));
    let start = start_of_range(contents, latest) as int;
    law_range_ends_with_the_latest_slot(contents, latest);
    law_range_keeps_labels(contents, names, start, latest + 1);
    law_range_changes_delays_alone(contents, names, start, latest + 1);
    assert forall|slot: u64| start <= slot < latest + 1 implies #[trigger] all_noted(settled, names, slot) by {
        lemma_range_is_noted(contents, names, start, latest + 1, slot);
    }
}

/// An evaluation changes delays alone. Evaluating again finds the same slots and
/// the same winners, and changes nothing more.
pub proof fn law_evaluating_again_changes_nothing(contents: Contents, names: Seq<Seq<char>>)
    requires
        well_labelled(contents),
    ensures
        ({
            let after = after_writes(contents, ws_writes(contents, names));
            &&& well_labelled(after)
            &&& same_but_delays(contents, after)
            &&& latest_slot(after) == latest_slot(contents)
            &&& latest_slot(contents) matches Some(latest) ==> start_of_range(after, latest) == start_of_range(
                contents,
                latest,
            ) && ws_winners(after, names, latest) == ws_winners(contents, names, latest)
            &&& after_writes(after, ws_writes(after, names)) == after
        }),
{
    let after = after_writes(contents, ws_writes(contents, names));
    if let Some(latest) = latest_slot(contents) {
        let rate_writes = ws_rate_writes(contents, names, latest);
        let settled = after_writes(contents, rate_writes);
        let start = start_of_range(contents, latest) as int;
        let lower = oldest_kept(latest, EVAL_RANGE);
        lemma_evaluated_range_is_noted(contents, names, latest);
        lemma_noted_averages_stay(settled, names, names, start, latest + 1);
        lemma_after_writes_concat(contents, rate_writes, ws_delay_writes(contents, names, latest));
        assert(after == settled);
        law_slots_are_those_of_the_keys(contents, after, lower);
        law_winners_stay_the_same(contents, names, start, latest + 1);
        lemma_noted_range_stays(after, names, start, latest + 1);
        lemma_after_writes_concat(
            after,
            ws_rate_writes(after, names, latest),
            ws_delay_writes(after, names, latest),
        );
    }
}

/// Where the updates are stored under their own nicknames and a slot has a
/// winner, some endpoint has a delay, whatever the clock reads: the evaluation is
/// not empty.
pub proof fn law_winners_have_delays(
    contents: Contents,
    names: Seq<Seq<char>>,
    latest: u64,
    clocks: Seq<Seq<Option<u64>>>,
)
    requires
        well_labelled(contents),
        latest_slot(contents) == Some(latest),
        ws_winners(contents, names, latest).len() > 0,
        are_endpoint_clocks(clocks, names.len(), start_of_range(contents, latest), latest),
    ensures
        !no_terms(
            after_writes(contents, ws_rate_writes(contents, names, latest)),
            names,
            start_of_range(contents, latest),
            latest,
            clocks,
        ),
{
    let settled = after_writes(contents, ws_rate_writes(contents, names, latest));
    let start = start_of_range(contents, latest) as int;
    let end = latest + 1;
    lemma_evaluated_range_is_noted(contents, names, latest);
    law_winners_of_a_range(contents, names, start, end);
    let slot = choose|slot: u64| start <= slot < end && #[trigger] slot_winner(contents, names, slot) is Some;
    let k = lemma_winner_has_a_name(contents, names, slot);
    law_range_notes_every_delay(contents, names, start, end, names[k], slot);
    lemma_noted_averages_stay(settled, names, names.take(k), start, end);
    assert(clocks[k].len() == slot_count(start as u64, latest));
    lemma_stored_delay_is_a_term(settled, names, names[k], start, slot, clocks[k]);
    assert(endpoint_terms(settled, names, start, end, k, clocks[k]).len() > 0);
}

/// The position of an endpoint whose entry is the winner's.
proof fn lemma_winner_has_a_name(contents: Contents, names: Seq<Seq<char>>, slot: u64) -> (k: int)
    requires
        slot_winner(contents, names, slot) is Some,
    ensures
        0 <= k < names.len(),
        entry_for(contents, names[k], slot) == slot_winner(contents, names, slot),
{
    assert(names.len() > 0);
    assert(names.contains(names[0]));
    law_winner_reported_first(contents, names, slot, names[0]);
    let winner = slot_winner(contents, names, slot)->0;
    let n = choose|n: Seq<char>| names.contains(n) && #[trigger] entry_for(contents, n, slot) == Some(winner);
    choose|k: int| 0 <= k < names.len() && names[k] == n
}

/// An evaluation starts with the first slot from [`EVAL_RANGE`] slots back on
/// that all endpoints have reported, or else that far back.
pub proof fn law_range_starts_with_the_first_common_slot(contents: Contents, latest: u64, lower: u64)
    requires
        latest >= 200 ==> lower == latest - 200,
        latest < 200 ==> lower == 0,
    ensures
        start_of_range(contents, latest) >= lower,
        (exists|slot: u64| is_common(contents, lower, slot)) ==> is_common(
            contents,
            lower,
            start_of_range(contents, latest),
        ),
        forall|slot: u64| #[trigger] is_common(contents, lower, slot) ==> start_of_range(contents, latest) <= slot,
        (forall|slot: u64| !is_common(contents, lower, slot)) ==> start_of_range(contents, latest) == lower,
{
    law_earliest_common_slot_exists(contents, lower);
}

/// In an evaluation, the rate of an endpoint is the number of evaluated slots
/// that it was first at, of those that any endpoint reported.
pub proof fn law_evaluation_rates(
    response: WebSocketMetricsResponse,
    contents: Contents,
    names: Seq<Seq<char>>,
    latest: u64,
    clocks: Seq<Seq<Option<u64>>>,
    now: Option<u64>,
    i: int,
)
    requires
        latest_slot(contents) == Some(latest),
        is_full_response(response, contents, names, latest, clocks, now),
        0 <= i < names.len(),
    ensures
        ({
            let start = response.start_slot as int;
            let reported = Set::new(
                |slot: int| start <= slot <= latest && is_reported(contents, names, slot as u64),
            ).len();
            let won = Set::new(
                |slot: int| start <= slot <= latest && is_won_by(contents, names, slot as u64, names[i]),
            ).len();
            &&& response.latest_slot == latest
            &&& response.stats@.len() == names.len()
            &&& response.stats@[i].nickname@ == names[i]
            &&& response.stats@[i].win_rate.part == won
            &&& won > 0 ==> response.stats@[i].win_rate.whole == reported
            &&& won == 0 ==> response.stats@[i].win_rate.whole == 0
        }),
{
    let start = response.start_slot as int;
    law_range_ends_with_the_latest_slot(contents, latest);
    law_rates_are_shares_of_the_reported_slots(contents, names, start, latest + 1, names[i]);
    assert(Set::new(|slot: int| start <= slot <= latest && is_reported(contents, names, slot as u64)) =~= Set::new(
        |slot: int| start <= slot < latest + 1 && is_reported(contents, names, slot as u64),
    ));
    assert(Set::new(|slot: int| start <= slot <= latest && is_won_by(contents, names, slot as u64, names[i]))
        =~= Set::new(|slot: int| start <= slot < latest + 1 && is_won_by(contents, names, slot as u64, names[i])));
    assert(are_endpoint_stats(
        response.stats@[i],
        contents,
        names,
        latest,
        i,
        clocks[first_position(names, names[i])],
        now,
    ));
}

/// What finding the winners leaves of an endpoint and an evaluated slot: where it
/// reported the slot, the same with the time since the first report; where
/// nothing was stored of it, nothing.
proof fn lemma_evaluated_slot(
    contents: Contents,
    names: Seq<Seq<char>>,
    latest: u64,
    name: Seq<char>,
    slot: u64,
    first: u64,
)
    requires
        well_labelled(contents),
        latest_slot(contents) == Some(latest),
        start_of_range(contents, latest) <= slot <= latest,
        names.contains(name),
        is_first_time(contents, names, slot, first),
    ensures
        ({
            let settled = after_writes(contents, ws_rate_writes(contents, names, latest));
            &&& forall|time: u64| #[trigger]
                reported_at(contents, name, slot, time) ==> lookup(settled, slot_key(name, slot)) == Some(
                    SlotUpdateView {
                        delay: Some(DelayView::Behind { observed: time, winner: first }),
                        ..lookup(contents, slot_key(name, slot))->0
                    },
                )
            &&& lookup(contents, slot_key(name, slot)) is None ==> lookup(settled, slot_key(name, slot)) is None
            &&& is_first_time(settled, names, slot, first)
            &&& same_but_delays(contents, settled)
        }),
{
    let settled = after_writes(contents, ws_rate_writes(contents, names, latest));
    let start = start_of_range(contents, latest) as int;
    law_range_ends_with_the_latest_slot(contents, latest);
    law_winner_has_the_first_time(contents, names, slot);
    let j = choose|j: int| is_first_report(contents, names, slot, j, first);
    assert(reported_at(contents, names[j], slot, first));
    assert(is_reported(contents, names, slot));
    law_range_notes_every_delay(contents, names, start, latest + 1, name, slot);
    law_range_changes_delays_alone(contents, names, start, latest + 1);
    assert(contents.dom().contains(slot_key(name, slot)) <==> settled.dom().contains(slot_key(name, slot)));
    if contents.contains_key(slot_key(name, slot)) {
        assert(same_but_delay(contents[slot_key(name, slot)], settled[slot_key(name, slot)]));
    }
    assert forall|i: int, t: u64| 0 <= i < names.len() implies (#[trigger] reported_at(settled, names[i], slot, t)
        <==> reported_at(contents, names[i], slot, t)) by {
        let key = slot_key(names[i], slot);
        assert(contents.dom().contains(key) <==> settled.dom().contains(key));
        if contents.contains_key(key) {
            assert(same_but_delay(contents[key], settled[key]));
        }
    }
    assert(is_first_report(settled, names, slot, j, first)) by {
        assert(reported_at(settled, names[j], slot, first));
        assert forall|k: int, t: u64| 0 <= k < names.len() && #[trigger] reported_at(
            settled,
            names[k],
            slot,
            t,
        ) implies rank(first) <= rank(t) && (k < j ==> rank(first) < rank(t)) by {
            assert(reported_at(contents, names[k], slot, t));
        }
    }
}

/// In an evaluation, every evaluated slot that an endpoint reported counts in its
/// average as the time since the first report, and every one that it missed as
/// the time from the first report to a reading of the clock, where it tells the
/// time.
pub proof fn law_evaluation_delays(
    response: WebSocketMetricsResponse,
    contents: Contents,
    names: Seq<Seq<char>>,
    latest: u64,
    clocks: Seq<Seq<Option<u64>>>,
    now: Option<u64>,
    i: int,
    slot: u64,
    first: u64,
)
    requires
        well_labelled(contents),
        latest_slot(contents) == Some(latest),
        are_endpoint_clocks(clocks, names.len(), response.start_slot, latest),
        is_full_response(response, contents, names, latest, clocks, now),
        0 <= i < names.len(),
        response.start_slot <= slot <= latest,
        is_first_time(contents, names, slot, first),
    ensures
        forall|time: u64| #[trigger]
            reported_at(contents, names[i], slot, time) ==> averages(
                response.stats@[i].avg_delay,
                DelayView::Behind { observed: time, winner: first },
            ),
        lookup(contents, slot_key(names[i], slot)) is None ==> exists|k: int|
            0 <= k < clocks.len() && names[k] == names[i] && (#[trigger] clocks[k][slot - response.start_slot] matches Some(
                reading,
            ) ==> averages(
                response.stats@[i].avg_delay,
                DelayView::Behind { observed: reading, winner: first },
            )),
{
    let start = response.start_slot as int;
    let settled = after_writes(contents, ws_rate_writes(contents, names, latest));
    let name = names[i];
    let k = first_position(names, name);
    let readings = clocks[k];
    lemma_first_position(names, name, i);
    law_range_ends_with_the_latest_slot(contents, latest);
    assert(names.contains(name));
    lemma_evaluated_slot(contents, names, latest, name, slot, first);
    lemma_evaluated_range_is_noted(contents, names, latest);
    lemma_noted_averages_stay(settled, names, names.take(k), start, latest + 1);
    assert(are_endpoint_stats(response.stats@[i], contents, names, latest, i, readings, now));
    let delays = delay_terms(settled, names, name, start, readings);
    assert(endpoint_terms(settled, names, start, latest + 1, k, readings) == delays);
    assert(readings.len() == slot_count(start as u64, latest));
    law_slots_that_count_have_a_delay(settled, names, name, slot, readings[slot - start]);
    law_winner_has_the_first_time(settled, names, slot);
    lemma_counted_slot_is_listed(settled, names, name, start, readings, slot);
    assert forall|time: u64| #[trigger] reported_at(contents, name, slot, time) implies averages(
        response.stats@[i].avg_delay,
        DelayView::Behind { observed: time, winner: first },
    ) by {
        assert(delays.contains(DelayView::Behind { observed: time, winner: first }));
    }
    if lookup(contents, slot_key(name, slot)) is None {
        if let Some(reading) = clocks[k][slot - response.start_slot] {
            let j = choose|j: int| is_first_report(settled, names, slot, j, first);
            assert(reported_at(settled, names[j], slot, first));
            assert(is_reported(settled, names, slot));
            assert(delays.contains(DelayView::Behind { observed: reading, winner: first }));
        }
    }
}

/// Whether a delay is one of those that an average is the mean of.
pub open spec fn averages(average: Average, delay: DelayView) -> bool {
    average matches Average::MeanOf(list) && list@.map_values(|term: Delay| term@).contains(delay)
}

/// A slot that counts is listed with its delay.
proof fn lemma_counted_slot_is_listed(
    contents: Contents,
    names: Seq<Seq<char>>,
    nickname: Seq<char>,
    start: int,
    readings: Seq<Option<u64>>,
    slot: u64,
)
    requires
        0 <= start <= slot < start + readings.len() <= u64::MAX + 1,
    ensures
        slot_delay(contents, names, nickname, slot, readings[slot - start]) matches Some(delay) ==> delay_terms(
            contents,
            names,
            nickname,
            start,
            readings,
        ).contains(delay),
    decreases readings.len(),
{
    let n = readings.len() - 1;
    let rest = readings.drop_last();
    let earlier = delay_terms(contents, names, nickname, start, rest);
    let delays = delay_terms(contents, names, nickname, start, readings);
    if let Some(delay) = slot_delay(contents, names, nickname, slot, readings[slot - start]) {
        if slot < start + n {
            lemma_counted_slot_is_listed(contents, names, nickname, start, rest, slot);
            assert(rest[slot - start] == readings[slot - start]);
            let k = choose|k: int| 0 <= k < earlier.len() && earlier[k] == delay;
            assert(delays[k] == delay);
        } else {
            assert(delays[earlier.len() as int] == delay);
        }
    }
}

/// In an evaluation, an average is over as many delays as there are evaluated
/// slots that any endpoint reported, where the clock always tells the time and
/// every update is about the slot that it is stored under.
pub proof fn law_evaluation_averages_every_reported_slot(
    response: WebSocketMetricsResponse,
    contents: Contents,
    names: Seq<Seq<char>>,
    latest: u64,
    clocks: Seq<Seq<Option<u64>>>,
    now: Option<u64>,
    i: int,
)
    requires
        well_labelled(contents),
        latest_slot(contents) == Some(latest),
        are_endpoint_clocks(clocks, names.len(), response.start_slot, latest),
        is_full_response(response, contents, names, latest, clocks, now),
        0 <= i < names.len(),
        forall|k: int, n: int|
            0 <= k < clocks.len() && 0 <= n < clocks[k].len() ==> #[trigger] clocks[k][n] is Some,
        forall|name: Seq<char>, slot: u64|
            lookup(contents, #[trigger] slot_key(name, slot)) matches Some(update) ==> update.slot_info.slot == slot,
    ensures
        ({
            let reported = Set::new(
                |slot: int|
                    response.start_slot <= slot <= latest && is_reported(contents, names, slot as u64),
            ).len();
            match response.stats@[i].avg_delay {
                Average::MeanOf(list) => list@.len() == reported,
                Average::Fixed(bits) => reported == 0 && bits == MINUS_ONE_BITS,
            }
        }),
{
    let start = response.start_slot as int;
    let settled = after_writes(contents, ws_rate_writes(contents, names, latest));
    let name = names[i];
    let k = first_position(names, name);
    let readings = clocks[k];
    lemma_first_position(names, name, i);
    law_range_ends_with_the_latest_slot(contents, latest);
    lemma_evaluated_range_is_noted(contents, names, latest);
    lemma_noted_averages_stay(settled, names, names.take(k), start, latest + 1);
    assert(are_endpoint_stats(response.stats@[i], contents, names, latest, i, readings, now));
    assert(readings.len() == slot_count(start as u64, latest));
    lemma_terms_are_the_reported_slots(contents, settled, names, name, start, readings);
    assert(Set::new(|slot: int| response.start_slot <= slot <= latest && is_reported(contents, names, slot as u64))
        =~= Set::new(
        |slot: int| start <= slot < start + readings.len() && is_reported(contents, names, slot as u64),
    ));
}

proof fn lemma_terms_are_the_reported_slots(
    contents: Contents,
    settled: Contents,
    names: Seq<Seq<char>>,
    name: Seq<char>,
    start: int,
    readings: Seq<Option<u64>>,
)
    requires
        same_but_delays(contents, settled),
        names.contains(name),
        0 <= start,
        start + readings.len() <= u64::MAX + 1,
        is_noted_range(settled, names, start, start + readings.len()),
        forall|n: int| 0 <= n < readings.len() ==> #[trigger] readings[n] is Some,
        forall|name: Seq<char>, slot: u64|
            lookup(contents, #[trigger] slot_key(name, slot)) matches Some(update) ==> update.slot_info.slot == slot,
    ensures
        delay_terms(settled, names, name, start, readings).len() == Set::new(
            |slot: int| start <= slot < start + readings.len() && is_reported(contents, names, slot as u64),
        ).len(),
    decreases readings.len(),
{
    let end = start + readings.len();
    let has = |slot: int| is_reported(contents, names, slot as u64);
    lemma_count_in_range(start, end, has);
    assert(Set::new(
        |slot: int| start <= slot < start + readings.len() && is_reported(contents, names, slot as u64),
    ) =~= Set::new(|slot: int| start <= slot < end && has(slot)));
    if readings.len() > 0 {
        let rest = readings.drop_last();
        let slot = (end - 1) as u64;
        assert forall|n: int| 0 <= n < rest.len() implies #[trigger] rest[n] is Some by {
            assert(readings[n] is Some);
        }
        assert(is_noted_range(settled, names, start, start + rest.len()));
        lemma_terms_are_the_reported_slots(contents, settled, names, name, start, rest);
        assert(Set::new(
            |slot: int| start <= slot < start + rest.len() && is_reported(contents, names, slot as u64),
        ) =~= Set::new(|slot: int| start <= slot < end - 1 && has(slot)));
        assert(readings[readings.len() - 1] is Some);
        law_winner_has_the_first_time(settled, names, slot);
        assert forall|n: Seq<char>, t: u64| #[trigger] reported_at(settled, n, slot, t) <==> reported_at(
            contents,
            n,
            slot,
            t,
        ) by {
            let key = slot_key(n, slot);
            assert(contents.dom().contains(key) <==> settled.dom().contains(key));
            if contents.contains_key(key) {
                assert(same_but_delay(contents[key], settled[key]));
            }
        }
        lemma_reported_alike(contents, settled, names, slot);
        if stored_delay(settled, name, slot) is Some {
            let key = slot_key(name, slot);
            assert(contents.dom().contains(key) <==> settled.dom().contains(key));
            assert(same_but_delay(contents[key], settled[key]));
            let update = lookup(contents, key)->0;
            assert(reported_at(contents, name, slot, update.timestamp));
            let i = choose|i: int| 0 <= i < names.len() && names[i] == name;
            assert(reported_at(contents, names[i], slot, update.timestamp));
        }
    }
}

proof fn lemma_reported_alike(a: Contents, b: Contents, names: Seq<Seq<char>>, slot: u64)
    requires
        forall|n: Seq<char>, t: u64| #[trigger] reported_at(b, n, slot, t) <==> reported_at(a, n, slot, t),
    ensures
        is_reported(a, names, slot) <==> is_reported(b, names, slot),
{
    if is_reported(a, names, slot) {
        let (i, t) = choose|i: int, t: u64| 0 <= i < names.len() && #[trigger] reported_at(a, names[i], slot, t);
        assert(reported_at(b, names[i], slot, t));
    }
}

/// In an evaluation, the details of an endpoint that reported the latest slot are
/// what is stored of it, with the time since the first report; those of one of
/// which nothing is stored are a placeholder for that slot.
pub proof fn law_evaluation_details(
    response: WebSocketMetricsResponse,
    contents: Contents,
    names: Seq<Seq<char>>,
    latest: u64,
    clocks: Seq<Seq<Option<u64>>>,
    now: Option<u64>,
    i: int,
    first: u64,
)
    requires
        well_labelled(contents),
        latest_slot(contents) == Some(latest),
        is_full_response(response, contents, names, latest, clocks, now),
        0 <= i < names.len(),
        is_first_time(contents, names, latest, first),
    ensures
        forall|time: u64| #[trigger]
            reported_at(contents, names[i], latest, time) ==> {
                let details = response.stats@[i].slot_details;
                let stored = lookup(contents, slot_key(names[i], latest))->0;
                &&& details.timestamp@ == time
                &&& details.nickname@ == names[i]
                &&& details.slot_info == stored.slot_info
                &&& details.delay matches Some(delay) && delay@ == (DelayView::Behind { observed: time, winner: first })
            },
        lookup(contents, slot_key(names[i], latest)) is None ==> {
            let details = response.stats@[i].slot_details;
            &&& details.timestamp@ == MINUS_ONE_BITS
            &&& details.nickname@ == names[i]
            &&& details.slot_info.slot == latest
            &&& details.slot_info.parent == u64::MAX
            &&& details.slot_info.root == u64::MAX
            &&& details.delay matches Some(delay) && (delay@ matches DelayView::Behind { observed, winner }
                && is_earliest_stored(contents, names, latest, winner) && (now matches Some(reading) ==> observed
                == reading))
        },
{
    let start = response.start_slot as int;
    let settled = after_writes(contents, ws_rate_writes(contents, names, latest));
    let name = names[i];
    law_range_ends_with_the_latest_slot(contents, latest);
    assert(names.contains(name));
    lemma_evaluated_slot(contents, names, latest, name, latest, first);
    lemma_evaluated_range_is_noted(contents, names, latest);
    lemma_noted_averages_stay(settled, names, names, start, latest + 1);
    assert(are_endpoint_stats(
        response.stats@[i],
        contents,
        names,
        latest,
        i,
        clocks[first_position(names, name)],
        now,
    ));
    assert(response.stats@[i].slot_details@ == target_update(settled, names, latest, name, now));
    assert forall|time: u64| #[trigger] reported_at(contents, name, latest, time) implies lookup(
        contents,
        slot_key(name, latest),
    )->0.nickname == name by {}
    law_first_time_is_earliest(settled, names, latest);
    let j = choose|j: int| is_first_report(settled, names, latest, j, first);
    assert(reported_at(settled, names[j], latest, first));
    assert forall|k: int| 0 <= k < names.len() implies {
        let before = lookup(contents, slot_key(#[trigger] names[k], latest));
        let after = lookup(settled, slot_key(names[k], latest));
        &&& before is Some <==> after is Some
        &&& before is Some ==> before->0.timestamp == after->0.timestamp
    } by {}
}

/// Nobody won a slot of the range exactly where nobody reported one.
pub proof fn law_nobody_wins_where_nobody_reports(contents: Contents, names: Seq<Seq<char>>, latest: u64)
    requires
        latest_slot(contents) == Some(latest),
    ensures
        ws_winners(contents, names, latest).len() == 0 <==> forall|slot: u64|
            start_of_range(contents, latest) <= slot <= latest ==> !#[trigger] is_reported(contents, names, slot),
{
    let start = start_of_range(contents, latest) as int;
    law_range_ends_with_the_latest_slot(contents, latest);
    law_winners_are_the_reported_slots(contents, names, start, latest + 1, Seq::empty());
    let reported = Set::new(|slot: int| start <= slot < latest + 1 && is_reported(contents, names, slot as u64));
    let range = set_int_range(start, latest + 1);
    lemma_int_range(start, latest + 1);
    assert(reported.subset_of(range));
    lemma_set_subset_finite(range, reported);
    if forall|slot: u64|
        start_of_range(contents, latest) <= slot <= latest ==> !#[trigger] is_reported(contents, names, slot) {
        assert(reported =~= Set::empty());
    }
    if reported.len() == 0 {
        assert forall|slot: u64| start <= slot <= latest implies !#[trigger] is_reported(contents, names, slot) by {
            assert(!reported.contains(slot as int));
        }
    }
}

/// An answer without anything to tell has no slots and no endpoints.
pub proof fn law_empty_answers_tell_nothing(response: WebSocketMetricsResponse)
    requires
        is_empty_response(response),
    ensures
        response.start_slot == 0,
        response.latest_slot == 0,
        response.stats@.len() == 0,
{
}

/// An evaluation tells of every endpoint, in the order of the configuration.
pub proof fn law_evaluation_lists_the_configured_endpoints(
    response: WebSocketMetricsResponse,
    contents: Contents,
    config: Config,
    latest: u64,
    clocks: Seq<Seq<Option<u64>>>,
    now: Option<u64>,
    i: int,
)
    requires
        is_full_response(response, contents, ws_names(config), latest, clocks, now),
        0 <= i < config.ws.endpoints@.len(),
    ensures
        response.stats@.len() == config.ws.endpoints@.len(),
        response.stats@[i].nickname@ == config.ws.endpoints@[i].nickname@,
{
    assert(ws_names(config)[i] == config.ws.endpoints@[i].nickname@);
    assert(are_endpoint_stats(
        response.stats@[i],
        contents,
        ws_names(config),
        latest,
        i,
        clocks[first_position(ws_names(config), ws_names(config)[i])],
        now,
    ));
}

/// After an evaluation, what is stored of an endpoint and an evaluated slot that
/// it reported says how long after the first report that was, and is otherwise as
/// it was.
pub proof fn law_evaluation_notes_delays(
    contents: Contents,
    names: Seq<Seq<char>>,
    latest: u64,
    name: Seq<char>,
    slot: u64,
    time: u64,
    first: u64,
)
    requires
        well_labelled(contents),
        latest_slot(contents) == Some(latest),
        start_of_range(contents, latest) <= slot <= latest,
        names.contains(name),
        reported_at(contents, name, slot, time),
        is_first_time(contents, names, slot, first),
    ensures
        lookup(after_writes(contents, ws_writes(contents, names)), slot_key(name, slot)) matches Some(update) && {
            &&& update.timestamp == time
            &&& update.nickname == name
            &&& update.slot_info == lookup(contents, slot_key(name, slot))->0.slot_info
            &&& update.delay == Some(DelayView::Behind { observed: time, winner: first })
        },
{
    let start = start_of_range(contents, latest) as int;
    let settled = after_writes(contents, ws_rate_writes(contents, names, latest));
    lemma_evaluated_slot(contents, names, latest, name, slot, first);
    lemma_evaluated_range_is_noted(contents, names, latest);
    lemma_noted_averages_stay(settled, names, names, start, latest + 1);
    lemma_after_writes_concat(
        contents,
        ws_rate_writes(contents, names, latest),
        ws_delay_writes(contents, names, latest),
    );
}

} // verus!

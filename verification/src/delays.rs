//! How far each endpoint is behind the first to report a slot.
use crate::clock::{is_clock_reading, now};
use crate::keys::slot_key;
use crate::rates::{are_slot_writes, is_noted_range, is_slot_write, law_range_notes_every_delay, range_writes};
use crate::rates::{
    lemma_same_slot_same_entries, lemma_settle_writes_are_slot_writes, lemma_slot_writes_leave_other_slots,
};
use crate::store::{after_writes, lemma_after_writes_concat, lookup};
use crate::store::{Contents, SlotStore, WriteView};
use crate::tally::lemma_count_in_range;
use crate::time::Timestamp;
use crate::update::{Delay, DelayView};
use crate::winner::{entry_for, get_slot_winner, names_of, settle_writes, slot_winner};
use crate::winner::{all_noted, law_winner_reported_first, lemma_noted_slot_stays, well_labelled};
use crate::winner::{is_first_report, is_first_time, is_reported, law_winner_has_the_first_time, reported_at};
use vstd::prelude::*;

verus! {

/// The views of some delays.
pub open spec fn delays_of(delays: Seq<Delay>) -> Seq<DelayView> {
    delays.map_values(|delay: Delay| delay@)
}

/// The delay that is stored of an endpoint and a slot.
pub open spec fn stored_delay(contents: Contents, nickname: Seq<char>, slot: u64) -> Option<DelayView> {
    match lookup(contents, slot_key(nickname, slot)) {
        Some(update) => update.delay,
        None => None,
    }
}

/// The delay of an endpoint at a slot: the one that is stored, or else the time
/// that has passed up to `now` since the slot was first reported.
pub open spec fn slot_delay(
    contents: Contents,
    names: Seq<Seq<char>>,
    nickname: Seq<char>,
    slot: u64,
    now: Option<u64>,
) -> Option<DelayView> {
    match stored_delay(contents, nickname, slot) {
        Some(delay) => Some(delay),
        None => match (slot_winner(contents, names, slot), now) {
            (Some(winner), Some(observed)) => Some(DelayView::Behind { observed, winner: winner.timestamp }),
            _ => None,
        },
    }
}

/// The changes that finding the delay makes: where none is stored, the winner
/// of the slot is found.
pub open spec fn slot_delay_writes(
    contents: Contents,
    names: Seq<Seq<char>>,
    nickname: Seq<char>,
    slot: u64,
) -> Seq<WriteView> {
    match stored_delay(contents, nickname, slot) {
        Some(_) => Seq::empty(),
        None => settle_writes(contents, names, slot),
    }
}

/// The delays of an endpoint at the slots from `start` on, where the clock read
/// `readings` at these slots.
pub open spec fn delay_terms(
    contents: Contents,
    names: Seq<Seq<char>>,
    nickname: Seq<char>,
    start: int,
    readings: Seq<Option<u64>>,
) -> Seq<DelayView>
    decreases readings.len(),
{
    if readings.len() == 0 {
        Seq::empty()
    } else {
        let earlier = delay_terms(contents, names, nickname, start, readings.drop_last());
        let slot = (start + readings.len() - 1) as u64;
        match slot_delay(contents, names, nickname, slot, readings.last()) {
            Some(delay) => earlier.push(delay),
            None => earlier,
        }
    }
}

/// The changes that finding these delays makes, up to before slot `end`.
pub open spec fn delay_range_writes(
    contents: Contents,
    names: Seq<Seq<char>>,
    nickname: Seq<char>,
    start: int,
    end: int,
) -> Seq<WriteView>
    decreases end - start,
{
    if end <= start {
        Seq::empty()
    } else {
        delay_range_writes(contents, names, nickname, start, end - 1) + slot_delay_writes(
            contents,
            names,
            nickname,
            (end - 1) as u64,
        )
    }
}

/// The bits of a reading of the clock.
pub open spec fn reading_bits(reading: Option<Timestamp>) -> Option<u64> {
    match reading {
        Some(stamp) => Some(stamp@),
        None => None,
    }
}

/// Whether the clock can have been read like this.
pub open spec fn are_clock_readings(readings: Seq<Option<u64>>) -> bool {
    forall|i: int| 0 <= i < readings.len() ==> (#[trigger] readings[i] matches Some(bits) ==> is_clock_reading(bits))
}

proof fn lemma_delay_range_writes(
    contents: Contents,
    names: Seq<Seq<char>>,
    nickname: Seq<char>,
    start: int,
    end: int,
)
    requires
        0 <= start,
        end <= u64::MAX + 1,
    ensures
        are_slot_writes(delay_range_writes(contents, names, nickname, start, end), start, end),
    decreases end - start,
{
    if start < end {
        let earlier = delay_range_writes(contents, names, nickname, start, end - 1);
        lemma_delay_range_writes(contents, names, nickname, start, end - 1);
        let writes = delay_range_writes(contents, names, nickname, start, end);
        let last = slot_delay_writes(contents, names, nickname, (end - 1) as u64);
        lemma_settle_writes_are_slot_writes(contents, names, (end - 1) as u64, start, end);
        assert forall|i: int| 0 <= i < writes.len() implies is_slot_write(#[trigger] writes[i], start, end) by {
            if i < earlier.len() {
                assert(writes[i] == earlier[i]);
                assert(is_slot_write(earlier[i], start, end - 1));
                let key = earlier[i]->Put_key;
                let (n, s) = choose|n: Seq<char>, s: u64| start <= s < end - 1 && key == #[trigger] slot_key(n, s);
                assert(key == slot_key(n, s));
            } else {
                assert(writes[i] == last[i - earlier.len()]);
                assert(writes[i] == settle_writes(contents, names, (end - 1) as u64)[i - earlier.len()]);
            }
        }
    }
}

/// The delay of an endpoint at a slot, at the time `now`.
pub fn delay_at_slot(
    store: &mut SlotStore,
    names: &[String],
    nickname: &str,
    slot: u64,
    now: Option<Timestamp>,
) -> (delay: Option<Delay>)
    requires
        old(store).wf(),
    ensures
        final(store).wf(),
        final(store).loaded() == old(store).loaded(),
        ({
            let writes = slot_delay_writes(old(store).contents(), names_of(names@), nickname@, slot);
            &&& final(store).contents() == after_writes(old(store).contents(), writes)
            &&& final(store).pending() == old(store).pending() + writes
        }),
        match slot_delay(old(store).contents(), names_of(names@), nickname@, slot, reading_bits(now)) {
            Some(view) => delay matches Some(d) && d@ == view,
            None => delay is None,
        },
{
    match store.get(nickname, slot) {
        Some(update) => {
            if let Some(delay) = update.delay {
                assert(store.pending() =~= old(store).pending() + Seq::<WriteView>::empty());
                return Some(delay);
            }
        },
        None => {},
    }
    match get_slot_winner(store, names, slot) {
        Some((_, winner)) => match now {
            Some(observed) => Some(Delay::Behind { observed, winner }),
            None => None,
        },
        None => None,
    }
}

/// The delays of an endpoint at the slots from `start_slot` through `end_slot`,
/// whose mean is its average delay; `None` where it has none. The clock is read
/// at each slot.
pub fn avg_delay_for_endpoint(
    store: &mut SlotStore,
    names: &[String],
    nickname: &str,
    start_slot: u64,
    end_slot: u64,
) -> (terms: Option<Vec<Delay>>)
    requires
        old(store).wf(),
    ensures
        final(store).wf(),
        final(store).loaded() == old(store).loaded(),
        ({
            let writes = delay_range_writes(
                old(store).contents(),
                names_of(names@),
                nickname@,
                start_slot as int,
                end_slot + 1,
            );
            &&& final(store).contents() == after_writes(old(store).contents(), writes)
            &&& final(store).pending() == old(store).pending() + writes
        }),
        exists|readings: Seq<Option<u64>>|
            {
                &&& readings.len() == slot_count(start_slot, end_slot)
                &&& are_clock_readings(readings)
                &&& are_terms(
                    terms,
                    #[trigger] delay_terms(
                        old(store).contents(),
                        names_of(names@),
                        nickname@,
                        start_slot as int,
                        readings,
                    ),
                )
            },
{
    let ghost before = store.contents();
    let ghost all = names_of(names@);
    let ghost start = start_slot as int;
    let mut terms: Vec<Delay> = Vec::new();
    let mut slot: u64 = start_slot;
    let mut more = start_slot <= end_slot;
    let ghost mut readings: Seq<Option<u64>> = Seq::empty();
    proof {
        assert(delays_of(terms@) =~= delay_terms(before, all, nickname@, start, readings));
        assert(store.pending() =~= old(store).pending() + delay_range_writes(before, all, nickname@, start, start));
    }
    while more
        invariant
            store.wf(),
            store.loaded() == old(store).loaded(),
            all == names_of(names@),
            start == start_slot,
            before == old(store).contents(),
            more ==> start <= slot <= end_slot && start + readings.len() == slot,
            !more ==> readings.len() == slot_count(start_slot, end_slot),
            are_clock_readings(readings),
            store.contents() == after_writes(
                before,
                delay_range_writes(before, all, nickname@, start, start + readings.len()),
            ),
            store.pending() == old(store).pending() + delay_range_writes(
                before,
                all,
                nickname@,
                start,
                start + readings.len(),
            ),
            delays_of(terms@) == delay_terms(before, all, nickname@, start, readings),
        decreases end_slot + 1 - start - readings.len(),
    {
        let ghost present = store.contents();
        let ghost terms_before = terms@;
        proof {
            let writes = delay_range_writes(before, all, nickname@, start, slot as int);
            lemma_delay_range_writes(before, all, nickname@, start, slot as int);
            assert forall|name: Seq<char>| #[trigger] lookup(present, slot_key(name, slot)) == lookup(
                before,
                slot_key(name, slot),
            ) by {
                lemma_slot_writes_leave_other_slots(before, writes, start, slot as int, name, slot);
            }
            assert(lookup(present, slot_key(nickname@, slot)) == lookup(before, slot_key(nickname@, slot)));
            lemma_same_slot_same_entries(present, before, all, slot);
            lemma_after_writes_concat(before, writes, slot_delay_writes(before, all, nickname@, slot));
        }
        let reading = now();
        let ghost next = readings.push(reading_bits(reading));
        match delay_at_slot(store, names, nickname, slot, reading) {
            Some(delay) => {
                terms.push(delay);
                assert(delays_of(terms@) =~= delays_of(terms_before).push(delay@));
            },
            None => {},
        }
        proof {
            assert(next.drop_last() =~= readings);
            assert(store.pending() =~= old(store).pending() + delay_range_writes(
                before,
                all,
                nickname@,
                start,
                slot + 1,
            ));
            assert forall|i: int| 0 <= i < next.len() implies (#[trigger] next[i] matches Some(bits)
                ==> is_clock_reading(bits)) by {
                if i < readings.len() {
                    assert(next[i] == readings[i]);
                }
            }
            readings = next;
        }
        if slot == end_slot {
            more = false;
        } else {
            slot = slot + 1;
        }
    }
    proof {
        let found = delay_terms(before, all, nickname@, start, readings);
        assert(found.len() == terms@.len());
    }
    if terms.len() > 0 {
        Some(terms)
    } else {
        None
    }
}

/// The number of slots from `start_slot` through `end_slot`.
pub open spec fn slot_count(start_slot: u64, end_slot: u64) -> int {
    if start_slot <= end_slot {
        end_slot - start_slot + 1
    } else {
        0
    }
}

/// Whether a list holds the given delays; there is none where they are none.
pub open spec fn are_terms(terms: Option<Vec<Delay>>, delays: Seq<DelayView>) -> bool {
    match terms {
        Some(list) => delays.len() > 0 && delays_of(list@) == delays,
        None => delays.len() == 0,
    }
}

/// The changes that finding the delays of several endpoints makes, one endpoint
/// after the other.
pub open spec fn avg_writes(
    contents: Contents,
    names: Seq<Seq<char>>,
    endpoints: Seq<Seq<char>>,
    start: int,
    end: int,
) -> Seq<WriteView>
    decreases endpoints.len(),
{
    if endpoints.len() == 0 {
        Seq::empty()
    } else {
        let earlier = avg_writes(contents, names, endpoints.drop_last(), start, end);
        earlier + delay_range_writes(after_writes(contents, earlier), names, endpoints.last(), start, end)
    }
}

/// The delays of endpoint `i`: of the contents that finding those of the
/// endpoints before it has left.
pub open spec fn endpoint_terms(
    contents: Contents,
    names: Seq<Seq<char>>,
    start: int,
    end: int,
    i: int,
    readings: Seq<Option<u64>>,
) -> Seq<DelayView> {
    delay_terms(
        after_writes(contents, avg_writes(contents, names, names.take(i), start, end)),
        names,
        names[i],
        start,
        readings,
    )
}

/// Whether the clock can have read `clocks[i]` at the slots of endpoint `i`.
pub open spec fn are_endpoint_clocks(
    clocks: Seq<Seq<Option<u64>>>,
    count: nat,
    start_slot: u64,
    latest_slot: u64,
) -> bool {
    &&& clocks.len() == count
    &&& forall|i: int|
        0 <= i < clocks.len() ==> (#[trigger] clocks[i]).len() == slot_count(start_slot, latest_slot)
            && are_clock_readings(clocks[i])
}

/// Whether no endpoint has any delay.
pub open spec fn no_terms(
    contents: Contents,
    names: Seq<Seq<char>>,
    start_slot: u64,
    latest_slot: u64,
    clocks: Seq<Seq<Option<u64>>>,
) -> bool {
    forall|i: int|
        0 <= i < names.len() ==> (#[trigger] endpoint_terms(
            contents,
            names,
            start_slot as int,
            latest_slot + 1,
            i,
            clocks[i],
        )).len() == 0
}

/// Whether `list` holds the delays of all of some endpoints, in their order.
pub open spec fn are_all_terms(
    list: Seq<(String, Option<Vec<Delay>>)>,
    contents: Contents,
    names: Seq<Seq<char>>,
    start_slot: u64,
    latest_slot: u64,
    clocks: Seq<Seq<Option<u64>>>,
) -> bool {
    forall|i: int|
        0 <= i < list.len() ==> {
            &&& (#[trigger] list[i]).0@ == names[i]
            &&& are_terms(
                list[i].1,
                endpoint_terms(contents, names, start_slot as int, latest_slot + 1, i, clocks[i]),
            )
        }
}

/// Whether `list` holds the delays of all endpoints, where the clock read
/// `clocks[i]` at the slots of endpoint `i`; there is none exactly where the
/// range is empty or no endpoint has any delay.
pub open spec fn is_delay_list(
    list: Option<Vec<(String, Option<Vec<Delay>>)>>,
    contents: Contents,
    names: Seq<Seq<char>>,
    start_slot: u64,
    latest_slot: u64,
    clocks: Seq<Seq<Option<u64>>>,
) -> bool {
    &&& are_endpoint_clocks(clocks, names.len(), start_slot, latest_slot)
    &&& list is None <==> start_slot > latest_slot || no_terms(contents, names, start_slot, latest_slot, clocks)
    &&& list matches Some(all) ==> all@.len() == names.len() && are_all_terms(
        all@,
        contents,
        names,
        start_slot,
        latest_slot,
        clocks,
    )
}

/// The delays of each endpoint at the slots from `start_slot` through
/// `latest_slot`, in the order of the endpoints; `None` where there are none at
/// all.
pub fn compute_avg_delays_with_range(
    store: &mut SlotStore,
    names: &[String],
    start_slot: u64,
    latest_slot: u64,
) -> (list: Option<Vec<(String, Option<Vec<Delay>>)>>)
    requires
        old(store).wf(),
    ensures
        final(store).wf(),
        final(store).loaded() == old(store).loaded(),
        ({
            let writes = if start_slot > latest_slot {
                Seq::empty()
            } else {
                avg_writes(
                    old(store).contents(),
                    names_of(names@),
                    names_of(names@),
                    start_slot as int,
                    latest_slot + 1,
                )
            };
            &&& final(store).contents() == after_writes(old(store).contents(), writes)
            &&& final(store).pending() == old(store).pending() + writes
        }),
        exists|clocks: Seq<Seq<Option<u64>>>|
            is_delay_list(list, old(store).contents(), names_of(names@), start_slot, latest_slot, clocks),
{
    let ghost before = store.contents();
    let ghost all = names_of(names@);
    if start_slot > latest_slot {
        proof {
            assert(store.pending() =~= old(store).pending() + Seq::<WriteView>::empty());
            let clocks = Seq::new(all.len(), |i: int| Seq::<Option<u64>>::empty());
            let none: Option<Vec<(String, Option<Vec<Delay>>)>> = None;
            assert(is_delay_list(none, before, all, start_slot, latest_slot, clocks));
        }
        return None;
    }
    let ghost start = start_slot as int;
    let ghost end = latest_slot + 1;
    let mut list: Vec<(String, Option<Vec<Delay>>)> = Vec::new();
    let mut any = false;
    let ghost mut clocks: Seq<Seq<Option<u64>>> = Seq::empty();
    let mut i: usize = 0;
    proof {
        assert(all.take(0) =~= Seq::<Seq<char>>::empty());
        assert(store.pending() =~= old(store).pending() + avg_writes(before, all, all.take(0), start, end));
    }
    while i < names.len()
        invariant
            store.wf(),
            store.loaded() == old(store).loaded(),
            i <= names@.len(),
            start_slot <= latest_slot,
            all == names_of(names@),
            start == start_slot,
            end == latest_slot + 1,
            before == old(store).contents(),
            list@.len() == i,
            any <==> exists|j: int| 0 <= j < i && (#[trigger] list@[j]).1 is Some,
            are_endpoint_clocks(clocks, i as nat, start_slot, latest_slot),
            are_all_terms(list@, before, all, start_slot, latest_slot, clocks),
            store.contents() == after_writes(before, avg_writes(before, all, all.take(i as int), start, end)),
            store.pending() == old(store).pending() + avg_writes(before, all, all.take(i as int), start, end),
        decreases names@.len() - i,
    {
        let ghost list_before = list@;
        let ghost any_before = any;
        let ghost present = store.contents();
        let ghost earlier = avg_writes(before, all, all.take(i as int), start, end);
        let nickname = names[i].clone();
        let terms = avg_delay_for_endpoint(store, names, nickname.as_str(), start_slot, latest_slot);
        let ghost readings = choose|readings: Seq<Option<u64>>|
            {
                &&& readings.len() == slot_count(start_slot, latest_slot)
                &&& are_clock_readings(readings)
                &&& are_terms(terms, #[trigger] delay_terms(present, all, nickname@, start, readings))
            };
        if terms.is_some() {
            any = true;
        }
        list.push((nickname, terms));
        proof {
            let next = clocks.push(readings);
            assert(all[i as int] == nickname@);
            assert forall|j: int| 0 <= j < list@.len() implies {
                &&& (#[trigger] list@[j]).0@ == all[j]
                &&& are_terms(list@[j].1, endpoint_terms(before, all, start, end, j, next[j]))
            } by {
                if j < i {
                    assert(next[j] == clocks[j] && list@[j] == list_before[j]);
                }
            }
            assert forall|j: int| 0 <= j < next.len() implies (#[trigger] next[j]).len() == slot_count(
                start_slot,
                latest_slot,
            ) && are_clock_readings(next[j]) by {
                if j < i {
                    assert(next[j] == clocks[j]);
                }
            }
            if any_before {
                let j = choose|j: int| 0 <= j < i && (#[trigger] list_before[j]).1 is Some;
                assert(list@[j] == list_before[j]);
            }
            if exists|j: int| 0 <= j < i + 1 && (#[trigger] list@[j]).1 is Some {
                let j = choose|j: int| 0 <= j < i + 1 && (#[trigger] list@[j]).1 is Some;
                if j < i {
                    assert(list_before[j] == list@[j]);
                }
            }
            clocks = next;
            assert(list@[i as int].1 == terms);
            assert(all.take(i + 1).drop_last() =~= all.take(i as int));
            assert(all.take(i + 1).last() == nickname@);
            lemma_after_writes_concat(
                before,
                earlier,
                delay_range_writes(present, all, nickname@, start, end),
            );
            assert(store.pending() =~= old(store).pending() + avg_writes(before, all, all.take(i + 1), start, end));
        }
        i = i + 1;
    }
    assert(all.take(i as int) =~= all);
    let result = if any { Some(list) } else { None };
    proof {
        if any {
            let j = choose|j: int| 0 <= j < i && (#[trigger] list@[j]).1 is Some;
            assert(endpoint_terms(before, all, start, end, j, clocks[j]).len() > 0);
        } else {
            assert forall|j: int| 0 <= j < all.len() implies (#[trigger] endpoint_terms(
                before,
                all,
                start,
                end,
                j,
                clocks[j],
            )).len() == 0 by {
                assert(list@[j].1 is None);
            }
        }
        assert(is_delay_list(result, before, all, start_slot, latest_slot, clocks));
    }
    result
}

/// Once the winners of a range have been found, the delay of an endpoint at a
/// slot that it reported is the time that it was behind the winner.
pub proof fn law_reported_slot_counts_its_delay(
    contents: Contents,
    names: Seq<Seq<char>>,
    start: int,
    end: int,
    name: Seq<char>,
    slot: u64,
    now: Option<u64>,
)
    requires
        well_labelled(contents),
        0 <= start <= slot < end <= u64::MAX + 1,
        names.contains(name),
        entry_for(contents, name, slot) is Some,
    ensures
        slot_winner(contents, names, slot) is Some,
        slot_delay(
            after_writes(contents, range_writes(contents, names, start, end)),
            names,
            name,
            slot,
            now,
        ) == Some(
            DelayView::Behind {
                observed: entry_for(contents, name, slot)->0.timestamp,
                winner: slot_winner(contents, names, slot)->0.timestamp,
            },
        ),
{
    law_winner_reported_first(contents, names, slot, name);
    law_range_notes_every_delay(contents, names, start, end, name, slot);
}

/// Where every delay in a range is noted, finding the delays of an endpoint
/// changes nothing.
proof fn lemma_noted_delays_stay(
    contents: Contents,
    names: Seq<Seq<char>>,
    nickname: Seq<char>,
    start: int,
    end: int,
)
    requires
        well_labelled(contents),
        0 <= start <= end <= u64::MAX + 1,
        is_noted_range(contents, names, start, end),
    ensures
        after_writes(contents, delay_range_writes(contents, names, nickname, start, end)) == contents,
    decreases end - start,
{
    if start < end {
        let slot = (end - 1) as u64;
        lemma_noted_delays_stay(contents, names, nickname, start, end - 1);
        lemma_after_writes_concat(
            contents,
            delay_range_writes(contents, names, nickname, start, end - 1),
            slot_delay_writes(contents, names, nickname, slot),
        );
        assert(all_noted(contents, names, slot));
        lemma_noted_slot_stays(contents, names, slot);
    }
}

/// Where every delay in a range is noted, finding the delays of all endpoints
/// changes nothing.
pub proof fn lemma_noted_averages_stay(
    contents: Contents,
    names: Seq<Seq<char>>,
    endpoints: Seq<Seq<char>>,
    start: int,
    end: int,
)
    requires
        well_labelled(contents),
        0 <= start <= end <= u64::MAX + 1,
        is_noted_range(contents, names, start, end),
    ensures
        after_writes(contents, avg_writes(contents, names, endpoints, start, end)) == contents,
    decreases endpoints.len(),
{
    if endpoints.len() > 0 {
        let earlier = avg_writes(contents, names, endpoints.drop_last(), start, end);
        lemma_noted_averages_stay(contents, names, endpoints.drop_last(), start, end);
        lemma_after_writes_concat(
            contents,
            earlier,
            delay_range_writes(contents, names, endpoints.last(), start, end),
        );
        lemma_noted_delays_stay(contents, names, endpoints.last(), start, end);
    }
}

/// An endpoint with a stored delay at a slot of the range has delays.
pub proof fn lemma_stored_delay_is_a_term(
    contents: Contents,
    names: Seq<Seq<char>>,
    nickname: Seq<char>,
    start: int,
    slot: u64,
    readings: Seq<Option<u64>>,
)
    requires
        0 <= start <= slot < start + readings.len() <= u64::MAX + 1,
        stored_delay(contents, nickname, slot) is Some,
    ensures
        delay_terms(contents, names, nickname, start, readings).len() > 0,
    decreases readings.len(),
{
    if slot < start + readings.len() - 1 {
        lemma_stored_delay_is_a_term(contents, names, nickname, start, slot, readings.drop_last());
    }
}

/// Whether a slot counts for an endpoint: a delay is stored, or the slot was
/// reported and the clock told the time.
pub open spec fn is_counted(
    contents: Contents,
    names: Seq<Seq<char>>,
    nickname: Seq<char>,
    slot: u64,
    now: Option<u64>,
) -> bool {
    ||| lookup(contents, slot_key(nickname, slot)) matches Some(update) && update.delay is Some
    ||| now is Some && is_reported(contents, names, slot)
}

/// Whether `delay` is that of an endpoint at a slot: the stored one, or else the
/// time from the first report of the slot to `now`.
pub open spec fn is_delay_at(
    delay: DelayView,
    contents: Contents,
    names: Seq<Seq<char>>,
    nickname: Seq<char>,
    slot: u64,
    now: Option<u64>,
) -> bool {
    if lookup(contents, slot_key(nickname, slot)) matches Some(update) && update.delay is Some {
        lookup(contents, slot_key(nickname, slot))->0.delay == Some(delay)
    } else {
        now is Some && (delay matches DelayView::Behind { observed, winner } && Some(observed) == now && is_first_time(
            contents,
            names,
            slot,
            winner,
        ))
    }
}

/// Whether `delays` are those of an endpoint at the slots that count, in their
/// order: `counted` lists how far these are from `start`.
pub open spec fn are_delays_at(
    delays: Seq<DelayView>,
    counted: Seq<int>,
    contents: Contents,
    names: Seq<Seq<char>>,
    nickname: Seq<char>,
    start: int,
    readings: Seq<Option<u64>>,
) -> bool {
    &&& delays.len() == counted.len()
    &&& forall|j: int, k: int| 0 <= j < k < counted.len() ==> (#[trigger] counted[j]) < (#[trigger] counted[k])
    &&& forall|i: int|
        0 <= i < readings.len() && #[trigger] is_counted(
            contents,
            names,
            nickname,
            (start + i) as u64,
            readings[i],
        ) ==> counted.contains(i)
    &&& forall|k: int|
        0 <= k < counted.len() ==> 0 <= #[trigger] counted[k] < readings.len() && is_counted(
            contents,
            names,
            nickname,
            (start + counted[k]) as u64,
            readings[counted[k]],
        )
    &&& forall|k: int|
        0 <= k < counted.len() ==> is_delay_at(
            #[trigger] delays[k],
            contents,
            names,
            nickname,
            (start + counted[k]) as u64,
            readings[counted[k]],
        )
}

/// An endpoint has a delay at a slot exactly where the slot counts for it: the
/// stored one, or else the time from the first report of the slot to `now`.
pub proof fn law_slots_that_count_have_a_delay(
    contents: Contents,
    names: Seq<Seq<char>>,
    nickname: Seq<char>,
    slot: u64,
    now: Option<u64>,
)
    ensures
        slot_delay(contents, names, nickname, slot, now) is Some <==> is_counted(contents, names, nickname, slot, now),
        slot_delay(contents, names, nickname, slot, now) matches Some(delay) ==> is_delay_at(
            delay,
            contents,
            names,
            nickname,
            slot,
            now,
        ),
{
    law_winner_has_the_first_time(contents, names, slot);
}

proof fn lemma_delays_at(
    contents: Contents,
    names: Seq<Seq<char>>,
    nickname: Seq<char>,
    start: int,
    readings: Seq<Option<u64>>,
) -> (counted: Seq<int>)
    requires
        0 <= start,
        start + readings.len() <= u64::MAX + 1,
    ensures
        are_delays_at(
            delay_terms(contents, names, nickname, start, readings),
            counted,
            contents,
            names,
            nickname,
            start,
            readings,
        ),
        counted.len() == Set::new(
            |i: int|
                0 <= i < readings.len() && is_counted(contents, names, nickname, (start + i) as u64, readings[i]),
        ).len(),
    decreases readings.len(),
{
    let n = readings.len() as int;
    let has = |i: int| is_counted(contents, names, nickname, (start + i) as u64, readings[i]);
    let delays = delay_terms(contents, names, nickname, start, readings);
    lemma_count_in_range(0, n, has);
    assert(Set::new(
        |i: int| 0 <= i < readings.len() && is_counted(contents, names, nickname, (start + i) as u64, readings[i]),
    ) =~= Set::new(|i: int| 0 <= i < n && has(i)));
    if n == 0 {
        Seq::empty()
    } else {
        let rest = readings.drop_last();
        let earlier = delay_terms(contents, names, nickname, start, rest);
        let before = lemma_delays_at(contents, names, nickname, start, rest);
        let last = (start + n - 1) as u64;
        assert(readings.last() == readings[n - 1]);
        assert(Set::new(
            |i: int| 0 <= i < rest.len() && is_counted(contents, names, nickname, (start + i) as u64, rest[i]),
        ) =~= Set::new(|i: int| 0 <= i < n - 1 && has(i)));
        law_slots_that_count_have_a_delay(contents, names, nickname, last, readings[n - 1]);
        let counted = if has(n - 1) { before.push(n - 1) } else { before };
        assert forall|i: int| 0 <= i < readings.len() && #[trigger] is_counted(
            contents,
            names,
            nickname,
            (start + i) as u64,
            readings[i],
        ) implies counted.contains(i) by {
            if i < n - 1 {
                assert(rest[i] == readings[i]);
                assert(is_counted(contents, names, nickname, (start + i) as u64, rest[i]));
                let k = choose|k: int| 0 <= k < before.len() && before[k] == i;
                assert(counted[k] == i);
            } else {
                assert(counted[before.len() as int] == n - 1);
            }
        }
        assert forall|k: int| 0 <= k < counted.len() implies 0 <= #[trigger] counted[k] < readings.len() && is_counted(
            contents,
            names,
            nickname,
            (start + counted[k]) as u64,
            readings[counted[k]],
        ) by {
            if k < before.len() {
                assert(counted[k] == before[k]);
                assert(rest[before[k]] == readings[before[k]]);
            }
        }
        assert forall|k: int| 0 <= k < counted.len() implies is_delay_at(
            #[trigger] delays[k],
            contents,
            names,
            nickname,
            (start + counted[k]) as u64,
            readings[counted[k]],
        ) by {
            if k < before.len() {
                assert(delays[k] == earlier[k] && counted[k] == before[k]);
                assert(rest[before[k]] == readings[before[k]]);
            }
        }
        counted
    }
}

/// The delays in a list that may be missing.
pub open spec fn listed_delays(terms: Option<Vec<Delay>>) -> Seq<DelayView> {
    match terms {
        Some(list) => list@.map_values(|delay: Delay| delay@),
        None => Seq::empty(),
    }
}

/// The average of an endpoint counts every slot of the range at which a delay is
/// stored, or which was reported while the clock told the time; a slot that it
/// missed counts as the time from the first report up to the reading. No slot is
/// left out, and none counts twice.
pub proof fn law_average_counts_every_slot(
    terms: Option<Vec<Delay>>,
    contents: Contents,
    names: Seq<Seq<char>>,
    nickname: Seq<char>,
    start: int,
    readings: Seq<Option<u64>>,
)
    requires
        0 <= start,
        start + readings.len() <= u64::MAX + 1,
        are_terms(terms, delay_terms(contents, names, nickname, start, readings)),
    ensures
        ({
            let delays = listed_delays(terms);
            let slots = Set::new(
                |i: int|
                    0 <= i < readings.len() && is_counted(contents, names, nickname, (start + i) as u64, readings[i]),
            );
            &&& delays.len() == slots.len()
            &&& terms is None <==> slots.len() == 0
            &&& exists|counted: Seq<int>|
                are_delays_at(delays, counted, contents, names, nickname, start, readings)
        }),
{
    let counted = lemma_delays_at(contents, names, nickname, start, readings);
    let delays = listed_delays(terms);
    assert(delays =~= delay_terms(contents, names, nickname, start, readings));
    assert(are_delays_at(delays, counted, contents, names, nickname, start, readings));
}

/// A delay that is stored of an endpoint at a slot of the range is among its
/// delays.
pub proof fn law_stored_delays_are_counted(
    terms: Option<Vec<Delay>>,
    contents: Contents,
    names: Seq<Seq<char>>,
    nickname: Seq<char>,
    start: int,
    readings: Seq<Option<u64>>,
    slot: u64,
    delay: DelayView,
)
    requires
        0 <= start <= slot < start + readings.len() <= u64::MAX + 1,
        are_terms(terms, delay_terms(contents, names, nickname, start, readings)),
        lookup(contents, slot_key(nickname, slot)) matches Some(update) && update.delay == Some(delay),
    ensures
        terms matches Some(list) && list@.map_values(|term: Delay| term@).contains(delay),
{
    let i = slot - start;
    let counted = lemma_delays_at(contents, names, nickname, start, readings);
    let delays = delay_terms(contents, names, nickname, start, readings);
    assert(is_counted(contents, names, nickname, (start + i) as u64, readings[i]));
    assert(counted.contains(i));
    let k = choose|k: int| 0 <= k < counted.len() && counted[k] == i;
    assert(is_delay_at(delays[k], contents, names, nickname, slot, readings[i]));
    assert(delays.contains(delays[k]));
}

/// A slot of the range that an endpoint missed is among its delays, as the time
/// from the first report of the slot to the reading of the clock.
pub proof fn law_missed_slots_are_counted(
    terms: Option<Vec<Delay>>,
    contents: Contents,
    names: Seq<Seq<char>>,
    nickname: Seq<char>,
    start: int,
    readings: Seq<Option<u64>>,
    slot: u64,
    first: u64,
    now: u64,
)
    requires
        0 <= start <= slot < start + readings.len() <= u64::MAX + 1,
        are_terms(terms, delay_terms(contents, names, nickname, start, readings)),
        lookup(contents, slot_key(nickname, slot)) matches Some(update) ==> update.delay is None,
        is_first_time(contents, names, slot, first),
        readings[slot - start] == Some(now),
    ensures
        terms matches Some(list) && list@.map_values(|term: Delay| term@).contains(
            DelayView::Behind { observed: now, winner: first },
        ),
{
    let i = slot - start;
    let counted = lemma_delays_at(contents, names, nickname, start, readings);
    let delays = delay_terms(contents, names, nickname, start, readings);
    law_winner_has_the_first_time(contents, names, slot);
    let j = choose|j: int| is_first_report(contents, names, slot, j, first);
    assert(reported_at(contents, names[j], slot, first));
    assert(is_reported(contents, names, slot));
    assert(is_counted(contents, names, nickname, (start + i) as u64, readings[i]));
    assert(counted.contains(i));
    let k = choose|k: int| 0 <= k < counted.len() && counted[k] == i;
    assert(is_delay_at(delays[k], contents, names, nickname, slot, readings[i]));
    assert(delays[k] == DelayView::Behind { observed: now, winner: first });
    assert(delays.contains(delays[k]));
}

} // verus!

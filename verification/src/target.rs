//! What every endpoint reported of one slot.
use crate::clock::{is_clock_reading, now};
use crate::delays::reading_bits;
use crate::double::rank;
use crate::double::{MINUS_ONE_BITS, ZERO_BITS};
use crate::keys::slot_key;
use crate::names::NameMap;
use crate::notification::SlotNotificationResult;
use crate::store::lookup;
use crate::store::{Contents, SlotStore};
use crate::time::Timestamp;
use crate::update::{Delay, DelayView, SlotUpdate, SlotUpdateView};
use crate::winner::names_of;
use vstd::prelude::*;

verus! {

/// The earlier of two times that may be missing; the first where they are
/// equal.
pub open spec fn earlier_of(first: Option<u64>, second: Option<u64>) -> Option<u64> {
    match (first, second) {
        (Some(a), Some(b)) => if rank(b) < rank(a) {
            Some(b)
        } else {
            Some(a)
        },
        (None, other) => other,
        (other, None) => other,
    }
}

/// The earliest time at which any endpoint is stored to have reported a slot;
/// of equal times, that of the first endpoint.
pub open spec fn first_time(contents: Contents, names: Seq<Seq<char>>, slot: u64) -> Option<u64>
    decreases names.len(),
{
    if names.len() == 0 {
        None
    } else {
        let last = match lookup(contents, slot_key(names.last(), slot)) {
            Some(update) => Some(update.timestamp),
            None => None,
        };
        earlier_of(first_time(contents, names.drop_last(), slot), last)
    }
}

/// What stands for the update of an endpoint that did not report the slot: it
/// is behind by the time that has passed up to `now` since the slot was first
/// reported, where any endpoint reported it.
pub open spec fn placeholder(
    contents: Contents,
    names: Seq<Seq<char>>,
    slot: u64,
    name: Seq<char>,
    now: Option<u64>,
) -> SlotUpdateView {
    SlotUpdateView {
        timestamp: MINUS_ONE_BITS,
        nickname: name,
        slot_info: SlotNotificationResult { slot, parent: u64::MAX, root: u64::MAX },
        delay: match first_time(contents, names, slot) {
            Some(winner) => Some(
                DelayView::Behind {
                    observed: match now {
                        Some(observed) => observed,
                        None => ZERO_BITS,
                    },
                    winner,
                },
            ),
            None => None,
        },
    }
}

/// The update of an endpoint at a slot, or its placeholder.
pub open spec fn target_update(
    contents: Contents,
    names: Seq<Seq<char>>,
    slot: u64,
    name: Seq<char>,
    now: Option<u64>,
) -> SlotUpdateView {
    match lookup(contents, slot_key(name, slot)) {
        Some(update) => update,
        None => placeholder(contents, names, slot, name, now),
    }
}

/// Whether `updates` holds the update of every endpoint at a slot.
pub open spec fn are_target_updates(
    updates: Map<Seq<char>, SlotUpdate>,
    contents: Contents,
    names: Seq<Seq<char>>,
    slot: u64,
    now: Option<u64>,
) -> bool {
    &&& forall|name: Seq<char>| #[trigger] updates.contains_key(name) <==> names.contains(name)
    &&& forall|name: Seq<char>| #[trigger]
        updates.contains_key(name) ==> updates[name]@ == target_update(contents, names, slot, name, now)
}

/// The earliest time at which any endpoint is stored to have reported a slot.
fn earliest_time(store: &SlotStore, names: &[String], slot: u64) -> (first: Option<Timestamp>)
    requires
        store.wf(),
    ensures
        reading_bits(first) == first_time(store.contents(), names_of(names@), slot),
{
    let ghost all = names_of(names@);
    let mut first: Option<Timestamp> = None;
    let mut i: usize = 0;
    assert(all.take(0) =~= Seq::<Seq<char>>::empty());
    while i < names.len()
        invariant
            store.wf(),
            i <= names@.len(),
            all == names_of(names@),
            reading_bits(first) == first_time(store.contents(), all.take(i as int), slot),
        decreases names@.len() - i,
    {
        proof {
            assert(all.take(i + 1).drop_last() =~= all.take(i as int));
            assert(all.take(i + 1).last() == names@[i as int]@);
        }
        match store.get(names[i].as_str(), slot) {
            Some(update) => {
                let later = match first {
                    Some(earliest) => !update.timestamp.precedes(&earliest),
                    None => false,
                };
                if !later {
                    first = Some(update.timestamp);
                }
            },
            None => {},
        }
        i = i + 1;
    }
    assert(all.take(i as int) =~= all);
    first
}

/// The update of every endpoint at a slot, at the time `now`.
pub fn slot_updates_at(store: &SlotStore, names: &[String], slot: u64, now: Option<Timestamp>) -> (updates: NameMap<
    SlotUpdate,
>)
    requires
        store.wf(),
    ensures
        are_target_updates(updates@, store.contents(), names_of(names@), slot, reading_bits(now)),
{
    let ghost all = names_of(names@);
    let ghost contents = store.contents();
    let delay = match earliest_time(store, names, slot) {
        Some(winner) => {
            let observed = match now {
                Some(observed) => observed,
                None => Timestamp::zero(),
            };
            Some(Delay::Behind { observed, winner })
        },
        None => None,
    };
    let mut updates: NameMap<SlotUpdate> = NameMap::new();
    let mut i: usize = 0;
    while i < names.len()
        invariant
            store.wf(),
            contents == store.contents(),
            i <= names@.len(),
            all == names_of(names@),
            delay is Some <==> first_time(contents, all, slot) is Some,
            delay matches Some(d) ==> d@ == (DelayView::Behind {
                observed: match now {
                    Some(observed) => observed@,
                    None => ZERO_BITS,
                },
                winner: first_time(contents, all, slot)->0,
            }),
            forall|name: Seq<char>| #[trigger]
                updates@.contains_key(name) <==> exists|j: int| 0 <= j < i && #[trigger] all[j] == name,
            forall|name: Seq<char>| #[trigger]
                updates@.contains_key(name) ==> updates@[name]@ == target_update(
                    contents,
                    all,
                    slot,
                    name,
                    reading_bits(now),
                ),
        decreases names@.len() - i,
    {
        let ghost before = updates@;
        let nickname = names[i].clone();
        let update = match store.get(nickname.as_str(), slot) {
            Some(update) => update.clone(),
            None => SlotUpdate {
                timestamp: Timestamp::minus_one(),
                nickname: nickname.clone(),
                slot_info: SlotNotificationResult { slot, parent: u64::MAX, root: u64::MAX },
                delay,
            },
        };
        assert(update@ == target_update(contents, all, slot, nickname@, reading_bits(now)));
        updates.insert(nickname, update);
        proof {
            assert(all[i as int] == nickname@);
            assert forall|name: Seq<char>| #[trigger] updates@.contains_key(name) <==> exists|j: int|
                0 <= j < i + 1 && #[trigger] all[j] == name by {
                if before.contains_key(name) {
                    let j = choose|j: int| 0 <= j < i && #[trigger] all[j] == name;
                    assert(0 <= j < i + 1 && all[j] == name);
                }
                if exists|j: int| 0 <= j < i + 1 && #[trigger] all[j] == name {
                    let j = choose|j: int| 0 <= j < i + 1 && #[trigger] all[j] == name;
                    if j < i {
                        assert(before.contains_key(name));
                    }
                }
            }
        }
        i = i + 1;
    }
    updates
}

/// The update of every endpoint at a slot. An endpoint that did not report it
/// gets a placeholder, which is behind by the time that has passed since the
/// slot was first reported.
pub fn get_slot_updates_for_target_slot(store: &SlotStore, names: &[String], slot: u64) -> (updates: NameMap<SlotUpdate>)
    requires
        store.wf(),
    ensures
        exists|now: Option<u64>|
            {
                &&& now matches Some(bits) ==> is_clock_reading(bits)
                &&& #[trigger] are_target_updates(updates@, store.contents(), names_of(names@), slot, now)
            },
{
    let reading = now();
    let updates = slot_updates_at(store, names, slot, reading);
    assert(are_target_updates(updates@, store.contents(), names_of(names@), slot, reading_bits(reading)));
    updates
}

/// No endpoint is stored to have reported a slot before its first time, and
/// there is one exactly where any is stored at all.
pub proof fn law_first_time_is_earliest(contents: Contents, names: Seq<Seq<char>>, slot: u64)
    ensures
        match first_time(contents, names, slot) {
            Some(first) => {
                &&& exists|i: int|
                    0 <= i < names.len() && (lookup(contents, slot_key(#[trigger] names[i], slot)) matches Some(update)
                        && update.timestamp == first)
                &&& forall|i: int|
                    0 <= i < names.len() ==> (lookup(contents, slot_key(#[trigger] names[i], slot)) matches Some(update)
                        ==> rank(first) <= rank(update.timestamp))
            },
            None => forall|i: int|
                0 <= i < names.len() ==> lookup(contents, slot_key(#[trigger] names[i], slot)) is None,
        },
    decreases names.len(),
{
    if names.len() > 0 {
        let rest = names.drop_last();
        let n = names.len() - 1;
        law_first_time_is_earliest(contents, rest, slot);
        assert forall|i: int| 0 <= i < n implies #[trigger] names[i] == rest[i] by {}
        if let Some(first) = first_time(contents, rest, slot) {
            let i = choose|i: int|
                0 <= i < rest.len() && (lookup(contents, slot_key(#[trigger] rest[i], slot)) matches Some(update)
                    && update.timestamp == first);
            assert(names[i] == rest[i]);
        }
        assert(names[n] == names.last());
    }
}

/// Where an update is stored of an endpoint and the slot, it is handed out as it
/// is, its delay too.
pub proof fn law_stored_updates_are_handed_out(
    updates: Map<Seq<char>, SlotUpdate>,
    contents: Contents,
    names: Seq<Seq<char>>,
    slot: u64,
    now: Option<u64>,
    name: Seq<char>,
    stored: SlotUpdateView,
)
    requires
        are_target_updates(updates, contents, names, slot, now),
        names.contains(name),
        lookup(contents, slot_key(name, slot)) == Some(stored),
    ensures
        updates.contains_key(name),
        updates[name].timestamp@ == stored.timestamp,
        updates[name].nickname@ == stored.nickname,
        updates[name].slot_info == stored.slot_info,
        stored.delay is None <==> updates[name].delay is None,
        stored.delay matches Some(delay) ==> (updates[name].delay matches Some(shown) && shown@ == delay),
{
    assert(updates.contains_key(name));
    assert(updates[name]@ == stored);
}

/// Whether `time` is the earliest at which anything is stored of a slot.
pub open spec fn is_earliest_stored(contents: Contents, names: Seq<Seq<char>>, slot: u64, time: u64) -> bool {
    &&& exists|i: int|
        0 <= i < names.len() && (lookup(contents, slot_key(#[trigger] names[i], slot)) matches Some(update)
            && update.timestamp == time)
    &&& forall|i: int|
        0 <= i < names.len() ==> (lookup(contents, slot_key(#[trigger] names[i], slot)) matches Some(update) ==> rank(
            time,
        ) <= rank(update.timestamp))
}

/// An endpoint of which nothing is stored gets a placeholder: an update of the
/// slot by its name, at no time, which is behind by the time from the earliest
/// that is stored up to `now`; without a delay where nothing is stored at all.
pub proof fn law_missing_updates_get_placeholders(
    updates: Map<Seq<char>, SlotUpdate>,
    contents: Contents,
    names: Seq<Seq<char>>,
    slot: u64,
    now: Option<u64>,
    name: Seq<char>,
)
    requires
        are_target_updates(updates, contents, names, slot, now),
        names.contains(name),
        lookup(contents, slot_key(name, slot)) is None,
    ensures
        updates.contains_key(name),
        updates[name].timestamp@ == MINUS_ONE_BITS,
        updates[name].nickname@ == name,
        updates[name].slot_info.slot == slot,
        updates[name].slot_info.parent == u64::MAX,
        updates[name].slot_info.root == u64::MAX,
        updates[name].delay is Some <==> exists|i: int|
            0 <= i < names.len() && lookup(contents, slot_key(#[trigger] names[i], slot)) is Some,
        updates[name].delay matches Some(delay) ==> (delay@ matches DelayView::Behind { observed, winner }
            && is_earliest_stored(contents, names, slot, winner) && observed == match now {
            Some(bits) => bits,
            None => ZERO_BITS,
        }),
{
    assert(updates.contains_key(name));
    assert(updates[name]@ == placeholder(contents, names, slot, name, now));
    law_first_time_is_earliest(contents, names, slot);
}

/// No other name gets an update.
pub proof fn law_only_endpoints_get_updates(
    updates: Map<Seq<char>, SlotUpdate>,
    contents: Contents,
    names: Seq<Seq<char>>,
    slot: u64,
    now: Option<u64>,
    name: Seq<char>,
)
    requires
        are_target_updates(updates, contents, names, slot, now),
    ensures
        updates.contains_key(name) <==> exists|i: int| 0 <= i < names.len() && #[trigger] names[i] == name,
{
}

} // verus!

//! Who reported a slot first, and how far behind the others were.
use crate::double::rank;
use crate::keys::{law_slot_keys_differ, slot_key};
use crate::store::{after_write, after_writes, lookup};
use crate::store::{Contents, SlotStore, WriteView};
use crate::time::Timestamp;
use crate::update::{with_delay, Delay, DelayView, SlotUpdate, SlotUpdateView};
use vstd::prelude::*;

verus! {

/// The characters of each of some names.
pub open spec fn names_of(names: Seq<String>) -> Seq<Seq<char>> {
    names.map_values(|name: String| name@)
}

/// The views of some updates.
pub open spec fn views_of(updates: Seq<SlotUpdate>) -> Seq<SlotUpdateView> {
    updates.map_values(|update: SlotUpdate| update@)
}

/// What is stored of an endpoint and a slot, where it is about that slot.
pub open spec fn entry_for(contents: Contents, name: Seq<char>, slot: u64) -> Option<SlotUpdateView> {
    match lookup(contents, slot_key(name, slot)) {
        Some(update) => if update.slot_info.slot == slot {
            Some(update)
        } else {
            None
        },
        None => None,
    }
}

/// What is stored of a slot, in the order of the endpoints.
pub open spec fn entries_for(contents: Contents, names: Seq<Seq<char>>, slot: u64) -> Seq<SlotUpdateView>
    decreases names.len(),
{
    if names.len() == 0 {
        Seq::empty()
    } else {
        let others = entries_for(contents, names.drop_last(), slot);
        match entry_for(contents, names.last(), slot) {
            Some(update) => others.push(update),
            None => others,
        }
    }
}

/// Whether no update came before update `i`, nor any earlier in the row at the
/// same time.
pub open spec fn is_first_earliest(updates: Seq<SlotUpdateView>, i: int) -> bool {
    &&& 0 <= i < updates.len()
    &&& forall|j: int|
        0 <= j < updates.len() ==> rank(updates[i].timestamp) <= rank((#[trigger] updates[j]).timestamp)
    &&& forall|j: int| 0 <= j < i ==> rank(updates[i].timestamp) < rank((#[trigger] updates[j]).timestamp)
}

/// The earliest of some updates, and of several the first in the row.
pub open spec fn earliest_of(updates: Seq<SlotUpdateView>) -> SlotUpdateView {
    updates[choose|i: int| is_first_earliest(updates, i)]
}

/// The update of the endpoint that reported a slot first.
pub open spec fn slot_winner(contents: Contents, names: Seq<Seq<char>>, slot: u64) -> Option<SlotUpdateView> {
    let entries = entries_for(contents, names, slot);
    if entries.len() == 0 {
        None
    } else {
        Some(earliest_of(entries))
    }
}

/// The change that notes in an update how far it was behind the winner.
pub open spec fn delay_write(slot: u64, winner: u64, update: SlotUpdateView) -> WriteView {
    WriteView::Put { key: slot_key(update.nickname, slot), update: with_delay(update, winner) }
}

/// The changes that note in all updates of a slot how far they were behind.
pub open spec fn delay_writes(slot: u64, updates: Seq<SlotUpdateView>, winner: u64) -> Seq<WriteView> {
    updates.map_values(|update: SlotUpdateView| delay_write(slot, winner, update))
}

/// The changes that finding the winner of a slot makes.
pub open spec fn settle_writes(contents: Contents, names: Seq<Seq<char>>, slot: u64) -> Seq<WriteView> {
    match slot_winner(contents, names, slot) {
        Some(winner) => delay_writes(slot, entries_for(contents, names, slot), winner.timestamp),
        None => Seq::empty(),
    }
}

/// The contents once the winner of a slot has been found.
pub open spec fn settled(contents: Contents, names: Seq<Seq<char>>, slot: u64) -> Contents {
    after_writes(contents, settle_writes(contents, names, slot))
}

/// Where there are updates, one of them is the first of the earliest.
proof fn lemma_earliest_exists(updates: Seq<SlotUpdateView>)
    requires
        updates.len() > 0,
    ensures
        exists|i: int| is_first_earliest(updates, i),
    decreases updates.len(),
{
    if updates.len() == 1 {
        assert(is_first_earliest(updates, 0));
    } else {
        let rest = updates.drop_last();
        lemma_earliest_exists(rest);
        let i = choose|i: int| is_first_earliest(rest, i);
        let n = updates.len() - 1;
        assert(rest[i] == updates[i]);
        assert forall|j: int| 0 <= j < n implies rank(rest[i].timestamp) <= rank(
            (#[trigger] updates[j]).timestamp,
        ) by {
            assert(rest[j] == updates[j]);
        }
        if rank(updates[n].timestamp) < rank(updates[i].timestamp) {
            assert(is_first_earliest(updates, n));
        } else {
            assert forall|j: int| 0 <= j < i implies rank(updates[i].timestamp) < rank(
                (#[trigger] updates[j]).timestamp,
            ) by {
                assert(rest[j] == updates[j]);
            }
            assert(is_first_earliest(updates, i));
        }
    }
}

/// The first of the earliest is no other update.
proof fn lemma_earliest(updates: Seq<SlotUpdateView>, i: int)
    requires
        is_first_earliest(updates, i),
    ensures
        earliest_of(updates) == updates[i],
{
    let j = choose|j: int| is_first_earliest(updates, j);
    assert(is_first_earliest(updates, j));
    assert(rank(updates[i].timestamp) <= rank(updates[j].timestamp));
    assert(rank(updates[j].timestamp) <= rank(updates[i].timestamp));
}

/// What is stored of a slot, in the order of the endpoints.
fn entries(store: &SlotStore, names: &[String], slot: u64) -> (found: Vec<SlotUpdate>)
    requires
        store.wf(),
    ensures
        views_of(found@) == entries_for(store.contents(), names_of(names@), slot),
{
    let ghost all = names_of(names@);
    let mut found: Vec<SlotUpdate> = Vec::new();
    let mut i: usize = 0;
    assert(views_of(found@) =~= entries_for(store.contents(), all.take(0), slot));
    while i < names.len()
        invariant
            store.wf(),
            i <= names@.len(),
            all == names_of(names@),
            views_of(found@) == entries_for(store.contents(), all.take(i as int), slot),
        decreases names@.len() - i,
    {
        let ghost before = found@;
        proof {
            assert(all.take(i + 1).drop_last() =~= all.take(i as int));
            assert(all.take(i + 1).last() == names@[i as int]@);
        }
        match store.get(names[i].as_str(), slot) {
            Some(update) => {
                if update.slot_info.slot == slot {
                    found.push(update.clone());
                    assert(views_of(found@) =~= views_of(before).push(update@));
                }
            },
            None => {},
        }
        i = i + 1;
    }
    assert(all.take(i as int) =~= all);
    found
}

/// The position of the earliest of some updates.
fn first_earliest(updates: &Vec<SlotUpdate>) -> (first: usize)
    requires
        updates@.len() > 0,
    ensures
        is_first_earliest(views_of(updates@), first as int),
{
    let ghost views = views_of(updates@);
    let mut first: usize = 0;
    let mut i: usize = 1;
    while i < updates.len()
        invariant
            first < i <= updates@.len(),
            views == views_of(updates@),
            forall|j: int|
                0 <= j < i ==> rank(views[first as int].timestamp) <= rank((#[trigger] views[j]).timestamp),
            forall|j: int|
                0 <= j < first ==> rank(views[first as int].timestamp) < rank((#[trigger] views[j]).timestamp),
        decreases updates@.len() - i,
    {
        assert(views[i as int] == updates@[i as int]@);
        assert(views[first as int] == updates@[first as int]@);
        if updates[i].timestamp.precedes(&updates[first].timestamp) {
            first = i;
        }
        i = i + 1;
    }
    first
}

/// Notes in each of some updates of a slot how far it was behind the winner,
/// and stores it under its own nickname.
pub fn update_delays_for_timestamp(
    store: &mut SlotStore,
    slot: u64,
    updates: Vec<SlotUpdate>,
    winner_ts: Timestamp,
)
    requires
        old(store).wf(),
    ensures
        final(store).wf(),
        final(store).loaded() == old(store).loaded(),
        final(store).contents() == after_writes(
            old(store).contents(),
            delay_writes(slot, views_of(updates@), winner_ts@),
        ),
        final(store).pending() == old(store).pending() + delay_writes(
            slot,
            views_of(updates@),
            winner_ts@,
        ),
{
    let ghost writes = delay_writes(slot, views_of(updates@), winner_ts@);
    let mut i: usize = 0;
    assert(writes.take(0) =~= Seq::<WriteView>::empty());
    assert(store.pending() =~= old(store).pending() + writes.take(0));
    while i < updates.len()
        invariant
            store.wf(),
            i <= updates@.len(),
            writes == delay_writes(slot, views_of(updates@), winner_ts@),
            store.loaded() == old(store).loaded(),
            store.contents() == after_writes(old(store).contents(), writes.take(i as int)),
            store.pending() == old(store).pending() + writes.take(i as int),
        decreases updates@.len() - i,
    {
        let ghost before = store.pending();
        let mut update = updates[i].clone();
        update.delay = Some(Delay::Behind { observed: update.timestamp, winner: winner_ts });
        let nickname = update.nickname.clone();
        proof {
            assert(update@ == with_delay(updates@[i as int]@, winner_ts@));
            assert(writes[i as int] == WriteView::Put { key: slot_key(nickname@, slot), update: update@ });
            assert(writes.take(i + 1).drop_last() =~= writes.take(i as int));
        }
        store.put(nickname.as_str(), slot, update);
        proof {
            assert(store.pending() =~= old(store).pending() + writes.take(i + 1));
        }
        i = i + 1;
    }
    assert(writes.take(i as int) =~= writes);
}

/// The nickname and the time of the endpoint that reported a slot first, or
/// `None` where nothing is stored of it. Every update of the slot is told how
/// far it was behind.
pub fn get_slot_winner(store: &mut SlotStore, names: &[String], slot: u64) -> (winner: Option<(String, Timestamp)>)
    requires
        old(store).wf(),
    ensures
        final(store).wf(),
        final(store).loaded() == old(store).loaded(),
        final(store).contents() == settled(old(store).contents(), names_of(names@), slot),
        final(store).pending() == old(store).pending() + settle_writes(
            old(store).contents(),
            names_of(names@),
            slot,
        ),
        match slot_winner(old(store).contents(), names_of(names@), slot) {
            Some(update) => winner matches Some((nickname, timestamp)) && nickname@ == update.nickname
                && timestamp@ == update.timestamp,
            None => winner is None,
        },
{
    let updates = entries(store, names, slot);
    let ghost found = views_of(updates@);
    if updates.len() == 0 {
        assert(store.pending() =~= old(store).pending() + Seq::<WriteView>::empty());
        return None;
    }
    let first = first_earliest(&updates);
    proof {
        lemma_earliest(found, first as int);
        assert(found[first as int] == updates@[first as int]@);
    }
    let timestamp = updates[first].timestamp;
    let nickname = updates[first].nickname.clone();
    update_delays_for_timestamp(store, slot, updates, timestamp);
    Some((nickname, timestamp))
}

/// Whether every update is stored under its own nickname.
pub open spec fn well_labelled(contents: Contents) -> bool {
    forall|name: Seq<char>, slot: u64|
        lookup(contents, #[trigger] slot_key(name, slot)) matches Some(update) ==> update.nickname == name
}

/// Every entry of a slot is that of an endpoint.
proof fn lemma_entry_has_a_name(contents: Contents, names: Seq<Seq<char>>, slot: u64, i: int)
    requires
        0 <= i < entries_for(contents, names, slot).len(),
    ensures
        exists|j: int|
            0 <= j < names.len() && entry_for(contents, #[trigger] names[j], slot) == Some(
                entries_for(contents, names, slot)[i],
            ),
    decreases names.len(),
{
    let rest = names.drop_last();
    let n = names.len() - 1;
    if i < entries_for(contents, rest, slot).len() {
        lemma_entry_has_a_name(contents, rest, slot, i);
        let j = choose|j: int|
            0 <= j < rest.len() && entry_for(contents, #[trigger] rest[j], slot) == Some(
                entries_for(contents, rest, slot)[i],
            );
        assert(names[j] == rest[j]);
    } else {
        assert(entry_for(contents, names[n], slot) == Some(entries_for(contents, names, slot)[i]));
    }
}

/// What is stored of an endpoint is among the entries of the slot.
proof fn lemma_name_has_an_entry(contents: Contents, names: Seq<Seq<char>>, slot: u64, j: int)
    requires
        0 <= j < names.len(),
        entry_for(contents, names[j], slot) is Some,
    ensures
        entries_for(contents, names, slot).contains(entry_for(contents, names[j], slot)->0),
    decreases names.len(),
{
    let rest = names.drop_last();
    let others = entries_for(contents, rest, slot);
    let update = entry_for(contents, names[j], slot)->0;
    if j < rest.len() {
        assert(rest[j] == names[j]);
        lemma_name_has_an_entry(contents, rest, slot, j);
        let i = choose|i: int| 0 <= i < others.len() && others[i] == update;
        assert(entries_for(contents, names, slot)[i] == update);
    } else {
        assert(entries_for(contents, names, slot)[others.len() as int] == update);
    }
}

/// The winner of a slot is one of the endpoints that reported it, and none of
/// them reported it earlier. There is a winner where any of them did.
pub proof fn law_winner_reported_first(contents: Contents, names: Seq<Seq<char>>, slot: u64, name: Seq<char>)
    requires
        names.contains(name),
    ensures
        match slot_winner(contents, names, slot) {
            Some(winner) => {
                &&& exists|n: Seq<char>| names.contains(n) && #[trigger] entry_for(contents, n, slot) == Some(winner)
                &&& entry_for(contents, name, slot) matches Some(update) ==> rank(winner.timestamp) <= rank(
                    update.timestamp,
                )
            },
            None => entry_for(contents, name, slot) is None,
        },
{
    let entries = entries_for(contents, names, slot);
    let j = choose|j: int| 0 <= j < names.len() && names[j] == name;
    if entry_for(contents, name, slot) is Some {
        lemma_name_has_an_entry(contents, names, slot, j);
    }
    if entries.len() > 0 {
        lemma_earliest_exists(entries);
        let i = choose|i: int| is_first_earliest(entries, i);
        lemma_earliest(entries, i);
        lemma_entry_has_a_name(contents, names, slot, i);
        let k = choose|k: int|
            0 <= k < names.len() && entry_for(contents, #[trigger] names[k], slot) == Some(entries[i]);
        assert(names.contains(names[k]));
        if entry_for(contents, name, slot) is Some {
            let u = entry_for(contents, name, slot)->0;
            let m = choose|m: int| 0 <= m < entries.len() && entries[m] == u;
            assert(rank(entries[i].timestamp) <= rank(entries[m].timestamp));
        }
    }
}

/// What a key holds after delays have been noted: the last update whose key it
/// is, or what it held before.
proof fn lemma_after_delays(contents: Contents, slot: u64, updates: Seq<SlotUpdateView>, winner: u64, key: Seq<u8>)
    ensures
        ({
            let after = after_writes(contents, delay_writes(slot, updates, winner));
            if exists|i: int| 0 <= i < updates.len() && slot_key((#[trigger] updates[i]).nickname, slot) == key {
                after.contains_key(key) && exists|i: int|
                    0 <= i < updates.len() && slot_key((#[trigger] updates[i]).nickname, slot) == key && after[key]
                        == Some(with_delay(updates[i], winner))
            } else {
                (after.contains_key(key) <==> contents.contains_key(key)) && (contents.contains_key(key)
                    ==> after[key] == contents[key])
            }
        }),
    decreases updates.len(),
{
    let writes = delay_writes(slot, updates, winner);
    if updates.len() > 0 {
        let rest = updates.drop_last();
        let n = updates.len() - 1;
        assert(writes.drop_last() =~= delay_writes(slot, rest, winner));
        lemma_after_delays(contents, slot, rest, winner, key);
        let middle = after_writes(contents, delay_writes(slot, rest, winner));
        let after = after_writes(contents, writes);
        assert(after == after_write(middle, delay_write(slot, winner, updates[n])));
        if slot_key(updates[n].nickname, slot) == key {
            assert(after[key] == Some(with_delay(updates[n], winner)));
        } else {
            if exists|i: int| 0 <= i < updates.len() && slot_key((#[trigger] updates[i]).nickname, slot) == key {
                let i = choose|i: int|
                    0 <= i < updates.len() && slot_key((#[trigger] updates[i]).nickname, slot) == key;
                assert(rest[i] == updates[i]);
                let k = choose|k: int|
                    0 <= k < rest.len() && slot_key((#[trigger] rest[k]).nickname, slot) == key && middle[key]
                        == Some(with_delay(rest[k], winner));
                assert(updates[k] == rest[k]);
            } else {
                assert forall|i: int| 0 <= i < rest.len() implies slot_key((#[trigger] rest[i]).nickname, slot)
                    != key by {
                    assert(rest[i] == updates[i]);
                }
            }
        }
    }
}

/// Finding the winner of a slot changes nothing of any other slot.
pub proof fn law_settling_leaves_other_slots(
    contents: Contents,
    names: Seq<Seq<char>>,
    slot: u64,
    name: Seq<char>,
    other: u64,
)
    requires
        other != slot,
    ensures
        lookup(settled(contents, names, slot), slot_key(name, other)) == lookup(contents, slot_key(name, other)),
{
    if let Some(winner) = slot_winner(contents, names, slot) {
        let entries = entries_for(contents, names, slot);
        let key = slot_key(name, other);
        lemma_after_delays(contents, slot, entries, winner.timestamp, key);
        assert forall|i: int| 0 <= i < entries.len() implies slot_key((#[trigger] entries[i]).nickname, slot) != key by {
            if slot_key(entries[i].nickname, slot) == key {
                law_slot_keys_differ(entries[i].nickname, slot, name, other);
            }
        }
    }
}

/// An entry, if there is one, that is told how far it was behind.
pub open spec fn noted(entry: Option<SlotUpdateView>, winner: u64) -> Option<SlotUpdateView> {
    match entry {
        Some(update) => Some(with_delay(update, winner)),
        None => None,
    }
}

/// Once the winner of a slot has been found, every endpoint that reported the
/// slot is stored with the time that it was behind, and no other is.
pub proof fn law_settling_notes_every_delay(contents: Contents, names: Seq<Seq<char>>, slot: u64, name: Seq<char>)
    requires
        well_labelled(contents),
        slot_winner(contents, names, slot) is Some,
        names.contains(name),
    ensures
        ({
            let winner = slot_winner(contents, names, slot)->0.timestamp;
            entry_for(settled(contents, names, slot), name, slot) == noted(entry_for(contents, name, slot), winner)
        }),
{
    let entries = entries_for(contents, names, slot);
    let winner = slot_winner(contents, names, slot)->0.timestamp;
    let key = slot_key(name, slot);
    let after = settled(contents, names, slot);
    lemma_after_delays(contents, slot, entries, winner, key);
    assert forall|i: int| 0 <= i < entries.len() && slot_key((#[trigger] entries[i]).nickname, slot) == key implies entry_for(
        contents,
        name,
        slot,
    ) == Some(entries[i]) by {
        law_slot_keys_differ(entries[i].nickname, slot, name, slot);
        lemma_entry_has_a_name(contents, names, slot, i);
        let k = choose|k: int|
            0 <= k < names.len() && entry_for(contents, #[trigger] names[k], slot) == Some(entries[i]);
        assert(lookup(contents, slot_key(names[k], slot)) == Some(entries[i]));
        assert(names[k] == name);
    }
    if entry_for(contents, name, slot) is Some {
        let update = entry_for(contents, name, slot)->0;
        let j = choose|j: int| 0 <= j < names.len() && names[j] == name;
        lemma_name_has_an_entry(contents, names, slot, j);
        let i = choose|i: int| 0 <= i < entries.len() && entries[i] == update;
        assert(lookup(contents, slot_key(name, slot)) == Some(update));
        assert(slot_key(entries[i].nickname, slot) == key);
    }
}

/// Where every entry of a slot is told how far it was behind, the winner is as
/// well, and stays the winner.
pub proof fn lemma_noted_entries(before: Contents, after: Contents, names: Seq<Seq<char>>, slot: u64, winner: u64)
    requires
        forall|i: int|
            0 <= i < names.len() ==> entry_for(after, #[trigger] names[i], slot) == noted(
                entry_for(before, names[i], slot),
                winner,
            ),
    ensures
        entries_for(after, names, slot) == entries_for(before, names, slot).map_values(
            |update: SlotUpdateView| with_delay(update, winner),
        ),
        slot_winner(after, names, slot) == noted(slot_winner(before, names, slot), winner),
    decreases names.len(),
{
    let tell = |update: SlotUpdateView| with_delay(update, winner);
    let entries = entries_for(before, names, slot);
    let told = entries_for(after, names, slot);
    if names.len() > 0 {
        let rest = names.drop_last();
        assert forall|i: int| 0 <= i < rest.len() implies entry_for(after, #[trigger] rest[i], slot) == noted(
            entry_for(before, rest[i], slot),
            winner,
        ) by {
            assert(rest[i] == names[i]);
        }
        lemma_noted_entries(before, after, rest, slot, winner);
        assert(names[names.len() - 1] == names.last());
    }
    assert(told =~= entries.map_values(tell));
    if entries.len() > 0 {
        lemma_earliest_exists(entries);
        let i = choose|i: int| is_first_earliest(entries, i);
        lemma_earliest(entries, i);
        assert forall|j: int| 0 <= j < told.len() implies (#[trigger] told[j]).timestamp == entries[j].timestamp by {
            assert(told[j] == tell(entries[j]));
        }
        assert(is_first_earliest(told, i));
        lemma_earliest(told, i);
    }
}

/// The entries of a slot once its winner has been found.
proof fn lemma_settled_entries(contents: Contents, names: Seq<Seq<char>>, slot: u64)
    requires
        well_labelled(contents),
        slot_winner(contents, names, slot) is Some,
    ensures
        ({
            let winner = slot_winner(contents, names, slot)->0;
            let after = settled(contents, names, slot);
            &&& entries_for(after, names, slot) == entries_for(contents, names, slot).map_values(
                |update: SlotUpdateView| with_delay(update, winner.timestamp),
            )
            &&& slot_winner(after, names, slot) == Some(with_delay(winner, winner.timestamp))
        }),
{
    let winner = slot_winner(contents, names, slot)->0;
    let after = settled(contents, names, slot);
    assert forall|i: int| 0 <= i < names.len() implies entry_for(after, #[trigger] names[i], slot) == noted(
        entry_for(contents, names[i], slot),
        winner.timestamp,
    ) by {
        law_settling_notes_every_delay(contents, names, slot, names[i]);
    }
    lemma_noted_entries(contents, after, names, slot, winner.timestamp);
}

/// Once the winner of a slot has been found, the same endpoint is still its
/// winner, at the same time, with no delay; and the updates are still stored
/// under their own nicknames.
pub proof fn law_settling_keeps_the_winner(contents: Contents, names: Seq<Seq<char>>, slot: u64)
    requires
        well_labelled(contents),
    ensures
        slot_winner(settled(contents, names, slot), names, slot) == match slot_winner(contents, names, slot) {
            Some(winner) => Some(with_delay(winner, winner.timestamp)),
            None => None,
        },
        well_labelled(settled(contents, names, slot)),
{
    if let Some(winner) = slot_winner(contents, names, slot) {
        let entries = entries_for(contents, names, slot);
        let after = settled(contents, names, slot);
        lemma_settled_entries(contents, names, slot);
        assert forall|name: Seq<char>, s: u64|
            lookup(after, #[trigger] slot_key(name, s)) matches Some(update) ==> update.nickname == name by {
            let key = slot_key(name, s);
            assert(lookup(contents, key) matches Some(u) ==> u.nickname == name);
            lemma_after_delays(contents, slot, entries, winner.timestamp, key);
            if exists|k: int| 0 <= k < entries.len() && slot_key((#[trigger] entries[k]).nickname, slot) == key {
                let k = choose|k: int|
                    0 <= k < entries.len() && slot_key((#[trigger] entries[k]).nickname, slot) == key && after[key]
                        == Some(with_delay(entries[k], winner.timestamp));
                law_slot_keys_differ(entries[k].nickname, slot, name, s);
            }
        }
    }
}

/// Finding the winner of a slot again changes nothing.
pub proof fn law_settling_is_idempotent(contents: Contents, names: Seq<Seq<char>>, slot: u64)
    requires
        well_labelled(contents),
    ensures
        settled(settled(contents, names, slot), names, slot) == settled(contents, names, slot),
{
    let after = settled(contents, names, slot);
    law_settling_keeps_the_winner(contents, names, slot);
    if let Some(winner) = slot_winner(contents, names, slot) {
        let entries = entries_for(contents, names, slot);
        let ts = winner.timestamp;
        let tell = |update: SlotUpdateView| with_delay(update, ts);
        lemma_settled_entries(contents, names, slot);
        let now = entries_for(after, names, slot);
        let again = settled(after, names, slot);
        assert(delay_writes(slot, now, ts) =~= delay_writes(slot, entries, ts)) by {
            assert forall|i: int| 0 <= i < now.len() implies delay_write(slot, ts, #[trigger] now[i]) == delay_write(
                slot,
                ts,
                entries[i],
            ) by {
                assert(now[i] == tell(entries[i]));
            }
        }
        assert forall|key: Seq<u8>| again.contains_key(key) <==> after.contains_key(key) by {
            lemma_after_delays(contents, slot, entries, ts, key);
            lemma_after_delays(after, slot, entries, ts, key);
        }
        assert forall|key: Seq<u8>| again.contains_key(key) implies again[key] == after[key] by {
            lemma_after_delays(contents, slot, entries, ts, key);
            lemma_after_delays(after, slot, entries, ts, key);
            if exists|k: int| 0 <= k < entries.len() && slot_key((#[trigger] entries[k]).nickname, slot) == key {
                let a = choose|a: int|
                    0 <= a < entries.len() && slot_key((#[trigger] entries[a]).nickname, slot) == key && after[key]
                        == Some(with_delay(entries[a], ts));
                let b = choose|b: int|
                    0 <= b < entries.len() && slot_key((#[trigger] entries[b]).nickname, slot) == key && again[key]
                        == Some(with_delay(entries[b], ts));
                lemma_same_entry(contents, names, slot, a, b);
            }
        }
        assert(again =~= after);
    }
}

/// Entries with one key are the same.
proof fn lemma_same_entry(contents: Contents, names: Seq<Seq<char>>, slot: u64, a: int, b: int)
    requires
        well_labelled(contents),
        0 <= a < entries_for(contents, names, slot).len(),
        0 <= b < entries_for(contents, names, slot).len(),
        slot_key(entries_for(contents, names, slot)[a].nickname, slot) == slot_key(
            entries_for(contents, names, slot)[b].nickname,
            slot,
        ),
    ensures
        entries_for(contents, names, slot)[a] == entries_for(contents, names, slot)[b],
{
    let entries = entries_for(contents, names, slot);
    law_slot_keys_differ(entries[a].nickname, slot, entries[b].nickname, slot);
    lemma_entry_has_a_name(contents, names, slot, a);
    lemma_entry_has_a_name(contents, names, slot, b);
    let i = choose|i: int| 0 <= i < names.len() && entry_for(contents, #[trigger] names[i], slot) == Some(entries[a]);
    let j = choose|j: int| 0 <= j < names.len() && entry_for(contents, #[trigger] names[j], slot) == Some(entries[b]);
    assert(lookup(contents, slot_key(names[i], slot)) == Some(entries[a]));
    assert(lookup(contents, slot_key(names[j], slot)) == Some(entries[b]));
    assert(names[i] == names[j]);
}

/// Whether every endpoint that reported a slot is stored with the time that it
/// was behind.
pub open spec fn all_noted(contents: Contents, names: Seq<Seq<char>>, slot: u64) -> bool {
    slot_winner(contents, names, slot) matches Some(winner) ==> forall|i: int|
        0 <= i < names.len() ==> entry_for(contents, #[trigger] names[i], slot) == noted(
            entry_for(contents, names[i], slot),
            winner.timestamp,
        )
}

/// Where a key is that of an entry, it holds that entry.
proof fn lemma_entry_is_stored(contents: Contents, names: Seq<Seq<char>>, slot: u64, i: int)
    requires
        well_labelled(contents),
        0 <= i < entries_for(contents, names, slot).len(),
    ensures
        ({
            let update = entries_for(contents, names, slot)[i];
            let key = slot_key(update.nickname, slot);
            &&& contents.contains_key(key)
            &&& contents[key] == Some(update)
            &&& names.contains(update.nickname)
            &&& entry_for(contents, update.nickname, slot) == Some(update)
        }),
{
    let entries = entries_for(contents, names, slot);
    lemma_entry_has_a_name(contents, names, slot, i);
    let j = choose|j: int| 0 <= j < names.len() && entry_for(contents, #[trigger] names[j], slot) == Some(entries[i]);
    assert(lookup(contents, slot_key(names[j], slot)) == Some(entries[i]));
}

/// Where every delay of a slot is noted, finding its winner changes nothing.
pub proof fn lemma_noted_slot_stays(contents: Contents, names: Seq<Seq<char>>, slot: u64)
    requires
        well_labelled(contents),
        all_noted(contents, names, slot),
    ensures
        settled(contents, names, slot) == contents,
{
    if let Some(winner) = slot_winner(contents, names, slot) {
        let entries = entries_for(contents, names, slot);
        let after = settled(contents, names, slot);
        assert forall|i: int| 0 <= i < entries.len() implies ({
            let key = slot_key((#[trigger] entries[i]).nickname, slot);
            &&& contents.contains_key(key)
            &&& contents[key] == Some(with_delay(entries[i], winner.timestamp))
        }) by {
            lemma_entry_is_stored(contents, names, slot, i);
            let k = choose|k: int| 0 <= k < names.len() && names[k] == entries[i].nickname;
            assert(entry_for(contents, names[k], slot) == Some(entries[i]));
        }
        assert forall|key: Seq<u8>| after.contains_key(key) <==> contents.contains_key(key) by {
            lemma_after_delays(contents, slot, entries, winner.timestamp, key);
        }
        assert forall|key: Seq<u8>| after.contains_key(key) implies after[key] == contents[key] by {
            lemma_after_delays(contents, slot, entries, winner.timestamp, key);
        }
        assert(after =~= contents);
    }
}

/// Whether two updates differ in their delay at most.
pub open spec fn same_but_delay(a: Option<SlotUpdateView>, b: Option<SlotUpdateView>) -> bool {
    match (a, b) {
        (Some(u), Some(v)) => u.timestamp == v.timestamp && u.nickname == v.nickname && u.slot_info == v.slot_info,
        (None, None) => true,
        _ => false,
    }
}

/// Whether two stores have the same keys, and what a key holds differs in its
/// delay at most.
pub open spec fn same_but_delays(a: Contents, b: Contents) -> bool {
    &&& a.dom() == b.dom()
    &&& forall|key: Seq<u8>| #[trigger] a.contains_key(key) ==> same_but_delay(a[key], b[key])
}

/// Finding the winner of a slot changes delays alone.
pub proof fn law_settling_changes_delays_alone(contents: Contents, names: Seq<Seq<char>>, slot: u64)
    requires
        well_labelled(contents),
    ensures
        same_but_delays(contents, settled(contents, names, slot)),
{
    let after = settled(contents, names, slot);
    if let Some(winner) = slot_winner(contents, names, slot) {
        let entries = entries_for(contents, names, slot);
        assert forall|i: int| 0 <= i < entries.len() implies ({
            let key = slot_key((#[trigger] entries[i]).nickname, slot);
            &&& contents.contains_key(key)
            &&& contents[key] == Some(entries[i])
        }) by {
            lemma_entry_is_stored(contents, names, slot, i);
        }
        assert forall|key: Seq<u8>| after.contains_key(key) <==> contents.contains_key(key) by {
            lemma_after_delays(contents, slot, entries, winner.timestamp, key);
        }
        assert forall|key: Seq<u8>| #[trigger] contents.contains_key(key) implies same_but_delay(
            contents[key],
            after[key],
        ) by {
            lemma_after_delays(contents, slot, entries, winner.timestamp, key);
        }
        assert(after.dom() =~= contents.dom());
    }
}

/// Whether an endpoint is stored to have reported a slot at `time`.
pub open spec fn reported_at(contents: Contents, name: Seq<char>, slot: u64, time: u64) -> bool {
    lookup(contents, slot_key(name, slot)) matches Some(update) && update.slot_info.slot == slot && update.timestamp
        == time
}

/// Whether endpoint `i` reported a slot at `time`, none reported it earlier, and
/// none that stands before it in the row as early.
pub open spec fn is_first_report(
    contents: Contents,
    names: Seq<Seq<char>>,
    slot: u64,
    i: int,
    time: u64,
) -> bool {
    &&& 0 <= i < names.len()
    &&& reported_at(contents, names[i], slot, time)
    &&& forall|j: int, t: u64|
        0 <= j < names.len() && #[trigger] reported_at(contents, names[j], slot, t) ==> rank(time) <= rank(t) && (j < i
            ==> rank(time) < rank(t))
}

/// Whether any endpoint is stored to have reported a slot.
pub open spec fn is_reported(contents: Contents, names: Seq<Seq<char>>, slot: u64) -> bool {
    exists|i: int, t: u64| 0 <= i < names.len() && #[trigger] reported_at(contents, names[i], slot, t)
}

/// Whether `time` is when a slot was first reported.
pub open spec fn is_first_time(contents: Contents, names: Seq<Seq<char>>, slot: u64, time: u64) -> bool {
    exists|i: int| is_first_report(contents, names, slot, i, time)
}

/// Whether a slot was first reported by an endpoint whose update is by `name`.
pub open spec fn is_won_by(contents: Contents, names: Seq<Seq<char>>, slot: u64, name: Seq<char>) -> bool {
    exists|i: int, t: u64| #[trigger]
        is_first_report(contents, names, slot, i, t) && (lookup(contents, slot_key(names[i], slot)) matches Some(update)
            && update.nickname == name)
}

/// The earliest of a row that one more update joins.
proof fn lemma_earliest_of_longer(updates: Seq<SlotUpdateView>, last: SlotUpdateView)
    ensures
        earliest_of(updates.push(last)) == if updates.len() == 0 || rank(last.timestamp) < rank(
            earliest_of(updates).timestamp,
        ) {
            last
        } else {
            earliest_of(updates)
        },
{
    let row = updates.push(last);
    let n = updates.len() as int;
    assert forall|j: int| 0 <= j < n implies #[trigger] row[j] == updates[j] by {}
    if updates.len() == 0 {
        assert(is_first_earliest(row, 0));
        lemma_earliest(row, 0);
    } else {
        lemma_earliest_exists(updates);
        let i = choose|i: int| is_first_earliest(updates, i);
        lemma_earliest(updates, i);
        if rank(last.timestamp) < rank(updates[i].timestamp) {
            assert(is_first_earliest(row, n));
            lemma_earliest(row, n);
        } else {
            assert(is_first_earliest(row, i));
            lemma_earliest(row, i);
        }
    }
}

/// There is one first report of a slot at most.
pub proof fn law_first_report_is_unique(
    contents: Contents,
    names: Seq<Seq<char>>,
    slot: u64,
    i: int,
    t: u64,
    j: int,
    u: u64,
)
    requires
        is_first_report(contents, names, slot, i, t),
        is_first_report(contents, names, slot, j, u),
    ensures
        i == j,
        t == u,
{
    assert(reported_at(contents, names[i], slot, t));
    assert(reported_at(contents, names[j], slot, u));
}

/// The winner of a slot is its first report: what is stored of the endpoint that
/// no other preceded. There is a winner exactly where any endpoint reported the
/// slot.
pub proof fn law_winner_is_the_first_report(contents: Contents, names: Seq<Seq<char>>, slot: u64)
    ensures
        match slot_winner(contents, names, slot) {
            Some(winner) => exists|i: int| #[trigger]
                is_first_report(contents, names, slot, i, winner.timestamp) && lookup(
                    contents,
                    slot_key(names[i], slot),
                ) == Some(winner),
            None => forall|i: int, t: u64|
                0 <= i < names.len() ==> !#[trigger] reported_at(contents, names[i], slot, t),
        },
    decreases names.len(),
{
    if names.len() > 0 {
        let rest = names.drop_last();
        let n = names.len() - 1;
        law_winner_is_the_first_report(contents, rest, slot);
        assert forall|j: int| 0 <= j < n implies #[trigger] names[j] == rest[j] by {}
        assert(names[n] == names.last());
        let others = entries_for(contents, rest, slot);
        let last = entry_for(contents, names[n], slot);
        if let Some(update) = last {
            lemma_earliest_of_longer(others, update);
            assert(reported_at(contents, names[n], slot, update.timestamp));
        } else {
            assert forall|t: u64| !reported_at(contents, names[n], slot, t) by {}
        }
        if let Some(winner) = slot_winner(contents, names, slot) {
            let i = if others.len() > 0 && winner == earliest_of(others) && !(last matches Some(update) && rank(
                update.timestamp,
            ) < rank(earliest_of(others).timestamp)) {
                choose|i: int| #[trigger]
                    is_first_report(contents, rest, slot, i, winner.timestamp) && lookup(
                        contents,
                        slot_key(rest[i], slot),
                    ) == Some(winner)
            } else {
                n
            };
            if i < n {
                assert(is_first_report(contents, rest, slot, i, winner.timestamp));
                assert forall|j: int, t: u64| 0 <= j < names.len() && #[trigger] reported_at(
                    contents,
                    names[j],
                    slot,
                    t,
                ) implies rank(winner.timestamp) <= rank(t) && (j < i ==> rank(winner.timestamp) < rank(t)) by {
                    if j < n {
                        assert(reported_at(contents, rest[j], slot, t));
                    }
                }
                assert(reported_at(contents, names[i], slot, winner.timestamp));
            } else {
                assert(last == Some(winner));
                assert forall|j: int, t: u64| 0 <= j < names.len() && #[trigger] reported_at(
                    contents,
                    names[j],
                    slot,
                    t,
                ) implies rank(winner.timestamp) <= rank(t) && (j < n ==> rank(winner.timestamp) < rank(t)) by {
                    if j < n {
                        assert(reported_at(contents, rest[j], slot, t));
                        let before = earliest_of(others);
                        if others.len() > 0 {
                            let k = choose|k: int| #[trigger]
                                is_first_report(contents, rest, slot, k, before.timestamp) && lookup(
                                    contents,
                                    slot_key(rest[k], slot),
                                ) == Some(before);
                            assert(rank(before.timestamp) <= rank(t));
                        }
                    }
                }
            }
            assert(is_first_report(contents, names, slot, i, winner.timestamp));
        } else {
            assert forall|i: int, t: u64| 0 <= i < names.len() implies !#[trigger] reported_at(
                contents,
                names[i],
                slot,
                t,
            ) by {
                if i < n {
                    assert(!reported_at(contents, rest[i], slot, t));
                }
            }
        }
    }
}

/// A slot has a winner exactly where any endpoint reported it, and the winner's
/// time is when it was first reported.
pub proof fn law_winner_has_the_first_time(contents: Contents, names: Seq<Seq<char>>, slot: u64)
    ensures
        slot_winner(contents, names, slot) is Some <==> is_reported(contents, names, slot),
        slot_winner(contents, names, slot) matches Some(winner) ==> forall|t: u64|
            is_first_time(contents, names, slot, t) <==> t == winner.timestamp,
{
    law_winner_is_the_first_report(contents, names, slot);
    if let Some(winner) = slot_winner(contents, names, slot) {
        let i = choose|i: int| #[trigger]
            is_first_report(contents, names, slot, i, winner.timestamp) && lookup(contents, slot_key(names[i], slot))
                == Some(winner);
        assert(reported_at(contents, names[i], slot, winner.timestamp));
        assert forall|t: u64| is_first_time(contents, names, slot, t) implies t == winner.timestamp by {
            let j = choose|j: int| is_first_report(contents, names, slot, j, t);
            law_first_report_is_unique(contents, names, slot, i, winner.timestamp, j, t);
        }
    }
}

/// The winner of a slot is by the name that won it, and by no other.
pub proof fn law_winner_is_by_the_name_that_won(
    contents: Contents,
    names: Seq<Seq<char>>,
    slot: u64,
    name: Seq<char>,
)
    ensures
        is_won_by(contents, names, slot, name) <==> (slot_winner(contents, names, slot) matches Some(winner)
            && winner.nickname == name),
{
    law_winner_is_the_first_report(contents, names, slot);
    if let Some(winner) = slot_winner(contents, names, slot) {
        let i = choose|i: int| #[trigger]
            is_first_report(contents, names, slot, i, winner.timestamp) && lookup(contents, slot_key(names[i], slot))
                == Some(winner);
        if is_won_by(contents, names, slot, name) {
            let (j, t) = choose|j: int, t: u64| #[trigger]
                is_first_report(contents, names, slot, j, t) && (lookup(contents, slot_key(names[j], slot)) matches Some(
                    update,
                ) && update.nickname == name);
            law_first_report_is_unique(contents, names, slot, i, winner.timestamp, j, t);
        }
    } else if is_won_by(contents, names, slot, name) {
        let (j, t) = choose|j: int, t: u64| #[trigger]
            is_first_report(contents, names, slot, j, t) && (lookup(contents, slot_key(names[j], slot)) matches Some(update)
                && update.nickname == name);
        assert(reported_at(contents, names[j], slot, t));
    }
}

/// Noting delays stores each update under its own nickname with the time that it
/// was behind, and keeps the rest of it; the last of several with one nickname
/// counts.
pub proof fn law_noted_delays_are_stored(
    contents: Contents,
    slot: u64,
    updates: Seq<SlotUpdateView>,
    winner: u64,
    i: int,
)
    requires
        0 <= i < updates.len(),
        forall|j: int| i < j < updates.len() ==> (#[trigger] updates[j]).nickname != updates[i].nickname,
    ensures
        lookup(
            after_writes(contents, delay_writes(slot, updates, winner)),
            slot_key(updates[i].nickname, slot),
        ) matches Some(update) && {
            &&& update.timestamp == updates[i].timestamp
            &&& update.nickname == updates[i].nickname
            &&& update.slot_info == updates[i].slot_info
            &&& update.delay == Some(DelayView::Behind { observed: updates[i].timestamp, winner })
        },
    decreases updates.len(),
{
    let writes = delay_writes(slot, updates, winner);
    let rest = updates.drop_last();
    let n = updates.len() - 1;
    assert(writes.drop_last() =~= delay_writes(slot, rest, winner));
    assert(writes.last() == delay_write(slot, winner, updates[n]));
    if i < n {
        assert(updates[n].nickname != updates[i].nickname);
        assert forall|j: int| i < j < rest.len() implies (#[trigger] rest[j]).nickname != rest[i].nickname by {
            assert(rest[j] == updates[j]);
        }
        law_noted_delays_are_stored(contents, slot, rest, winner, i);
        if slot_key(updates[n].nickname, slot) == slot_key(updates[i].nickname, slot) {
            law_slot_keys_differ(updates[n].nickname, slot, updates[i].nickname, slot);
        }
    }
}

/// Noting delays leaves what is stored of other slots and other nicknames.
pub proof fn law_noted_delays_leave_the_rest(
    contents: Contents,
    slot: u64,
    updates: Seq<SlotUpdateView>,
    winner: u64,
    name: Seq<char>,
    other: u64,
)
    requires
        other != slot || forall|j: int| 0 <= j < updates.len() ==> (#[trigger] updates[j]).nickname != name,
    ensures
        lookup(after_writes(contents, delay_writes(slot, updates, winner)), slot_key(name, other)) == lookup(
            contents,
            slot_key(name, other),
        ),
{
    let key = slot_key(name, other);
    lemma_after_delays(contents, slot, updates, winner, key);
    assert forall|j: int| 0 <= j < updates.len() implies slot_key((#[trigger] updates[j]).nickname, slot) != key by {
        if slot_key(updates[j].nickname, slot) == key {
            law_slot_keys_differ(updates[j].nickname, slot, name, other);
        }
    }
}

/// Once the winner of a slot has been found, what is stored of an endpoint that
/// reported it says how long after the first report that was, and is otherwise
/// as it was.
pub proof fn law_reported_slots_are_told_their_delay(
    contents: Contents,
    names: Seq<Seq<char>>,
    slot: u64,
    name: Seq<char>,
    time: u64,
    first: u64,
)
    requires
        well_labelled(contents),
        names.contains(name),
        reported_at(contents, name, slot, time),
        is_first_time(contents, names, slot, first),
    ensures
        lookup(settled(contents, names, slot), slot_key(name, slot)) matches Some(update) && {
            &&& update.timestamp == time
            &&& update.nickname == name
            &&& update.slot_info == lookup(contents, slot_key(name, slot))->0.slot_info
            &&& update.delay == Some(DelayView::Behind { observed: time, winner: first })
        },
{
    let i = choose|i: int| 0 <= i < names.len() && names[i] == name;
    assert(reported_at(contents, names[i], slot, time));
    law_winner_has_the_first_time(contents, names, slot);
    law_settling_notes_every_delay(contents, names, slot, name);
}

} // verus!

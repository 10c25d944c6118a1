//! How often each endpoint was the first to report a slot.
use crate::keys::{law_slot_keys_differ, slot_key};
use crate::names::NameMap;
use crate::share::Share;
use crate::store::{after_writes, lemma_after_writes_concat, lookup};
use crate::store::{Contents, SlotStore, WriteView};
use crate::tally::{lemma_count_in_range, occurrences};
use crate::winner::{entries_for, entry_for, get_slot_winner, names_of, settle_writes, settled, slot_winner};
use crate::winner::{
    law_settling_keeps_the_winner, law_settling_leaves_other_slots, law_settling_notes_every_delay,
    lemma_noted_entries, noted, well_labelled,
};
use crate::winner::{
    is_reported, is_won_by, law_winner_has_the_first_time, law_winner_is_by_the_name_that_won,
};
use crate::winner::{
    all_noted, law_settling_changes_delays_alone, lemma_noted_slot_stays, same_but_delay, same_but_delays,
};
use vstd::prelude::*;

verus! {

/// The winners of the slots from `start` on and before `end` that have one.
pub open spec fn winners(contents: Contents, names: Seq<Seq<char>>, start: int, end: int) -> Seq<Seq<char>>
    decreases end - start,
{
    if end <= start {
        Seq::empty()
    } else {
        let earlier = winners(contents, names, start, end - 1);
        match slot_winner(contents, names, (end - 1) as u64) {
            Some(winner) => earlier.push(winner.nickname),
            None => earlier,
        }
    }
}

/// The changes that finding the winners of a range of slots makes.
pub open spec fn range_writes(contents: Contents, names: Seq<Seq<char>>, start: int, end: int) -> Seq<WriteView>
    decreases end - start,
{
    if end <= start {
        Seq::empty()
    } else {
        range_writes(contents, names, start, end - 1) + settle_writes(contents, names, (end - 1) as u64)
    }
}

/// The share of the wins that each winner has.
pub open spec fn win_rates(winners: Seq<Seq<char>>) -> Map<Seq<char>, Share> {
    Map::new(
        |name: Seq<char>| winners.contains(name),
        |name: Seq<char>| Share { part: occurrences(winners, name) as u64, whole: winners.len() as u64 },
    )
}

/// Whether a change stores an update of a slot from `start` on and before
/// `end`.
pub open spec fn is_slot_write(write: WriteView, start: int, end: int) -> bool {
    write matches WriteView::Put { key, .. } && exists|name: Seq<char>, slot: u64|
        start <= slot < end && key == #[trigger] slot_key(name, slot)
}

/// Whether all changes store updates of slots from `start` on and before `end`.
pub open spec fn are_slot_writes(writes: Seq<WriteView>, start: int, end: int) -> bool {
    forall|i: int| 0 <= i < writes.len() ==> is_slot_write(#[trigger] writes[i], start, end)
}

/// Changes to some slots leave the others as they were.
pub proof fn lemma_slot_writes_leave_other_slots(
    contents: Contents,
    writes: Seq<WriteView>,
    start: int,
    end: int,
    name: Seq<char>,
    slot: u64,
)
    requires
        are_slot_writes(writes, start, end),
        !(start <= slot < end),
    ensures
        lookup(after_writes(contents, writes), slot_key(name, slot)) == lookup(contents, slot_key(name, slot)),
    decreases writes.len(),
{
    if writes.len() > 0 {
        let rest = writes.drop_last();
        assert(are_slot_writes(rest, start, end)) by {
            assert forall|i: int| 0 <= i < rest.len() implies is_slot_write(#[trigger] rest[i], start, end) by {
                assert(rest[i] == writes[i]);
            }
        }
        lemma_slot_writes_leave_other_slots(contents, rest, start, end, name, slot);
        let last = writes[writes.len() - 1];
        assert(is_slot_write(last, start, end));
        if let WriteView::Put { key, .. } = last {
            let (n, s) = choose|n: Seq<char>, s: u64| start <= s < end && key == #[trigger] slot_key(n, s);
            if key == slot_key(name, slot) {
                law_slot_keys_differ(n, s, name, slot);
            }
        }
    }
}

/// Finding the winner of a slot changes that slot alone.
pub proof fn lemma_settle_writes_are_slot_writes(
    contents: Contents,
    names: Seq<Seq<char>>,
    slot: u64,
    start: int,
    end: int,
)
    requires
        start <= slot < end,
    ensures
        are_slot_writes(settle_writes(contents, names, slot), start, end),
{
    let writes = settle_writes(contents, names, slot);
    assert forall|i: int| 0 <= i < writes.len() implies is_slot_write(#[trigger] writes[i], start, end) by {
        let entries = entries_for(contents, names, slot);
        assert(writes[i]->Put_key == slot_key(entries[i].nickname, slot));
    }
}

/// Where two stores hold the same of a slot, they have the same entries.
pub proof fn lemma_same_slot_same_entries(a: Contents, b: Contents, names: Seq<Seq<char>>, slot: u64)
    requires
        forall|name: Seq<char>| #[trigger]
            lookup(a, slot_key(name, slot)) == lookup(b, slot_key(name, slot)),
    ensures
        entries_for(a, names, slot) == entries_for(b, names, slot),
        slot_winner(a, names, slot) == slot_winner(b, names, slot),
        settle_writes(a, names, slot) == settle_writes(b, names, slot),
    decreases names.len(),
{
    if names.len() > 0 {
        lemma_same_slot_same_entries(a, b, names.drop_last(), slot);
        assert(lookup(a, slot_key(names.last(), slot)) == lookup(b, slot_key(names.last(), slot)));
        assert(entry_for(a, names.last(), slot) == entry_for(b, names.last(), slot));
    }
}

proof fn lemma_range_writes(contents: Contents, names: Seq<Seq<char>>, start: int, end: int)
    requires
        0 <= start,
        end <= u64::MAX + 1,
    ensures
        are_slot_writes(range_writes(contents, names, start, end), start, end),
    decreases end - start,
{
    if start < end {
        let earlier = range_writes(contents, names, start, end - 1);
        lemma_range_writes(contents, names, start, end - 1);
        let writes = range_writes(contents, names, start, end);
        let last = settle_writes(contents, names, (end - 1) as u64);
        lemma_settle_writes_are_slot_writes(contents, names, (end - 1) as u64, start, end);
        assert forall|i: int| 0 <= i < writes.len() implies is_slot_write(#[trigger] writes[i], start, end) by {
            if i < earlier.len() {
                assert(writes[i] == earlier[i]);
                assert(is_slot_write(earlier[i], start, end - 1));
                let key = earlier[i]->Put_key;
                let (n, s) = choose|n: Seq<char>, s: u64| start <= s < end - 1 && key == #[trigger] slot_key(n, s);
                assert(key == slot_key(n, s));
            } else {
                assert(writes[i] == last[i - earlier.len()]);
            }
        }
    }
}

/// The number of times that `name` occurs.
fn count_name(row: &Vec<String>, name: &String) -> (count: u64)
    ensures
        count == occurrences(names_of(row@), name@),
        count <= row@.len(),
{
    let ghost all = names_of(row@);
    let mut count: u64 = 0;
    let mut i: usize = 0;
    while i < row.len()
        invariant
            i <= row@.len(),
            all == names_of(row@),
            count <= i,
            count == occurrences(all.take(i as int), name@),
        decreases row@.len() - i,
    {
        proof {
            assert(all.take(i + 1).drop_last() =~= all.take(i as int));
            assert(all.take(i + 1).last() == row@[i as int]@);
        }
        if row[i] == *name {
            count = count + 1;
        }
        i = i + 1;
    }
    assert(all.take(i as int) =~= all);
    count
}

/// The share of the wins that each winner has.
fn tally(row: &Vec<String>) -> (rates: NameMap<Share>)
    ensures
        rates@ == win_rates(names_of(row@)),
{
    let ghost all = names_of(row@);
    let mut rates: NameMap<Share> = NameMap::new();
    let whole: u64 = row.len() as u64;
    let mut i: usize = 0;
    while i < row.len()
        invariant
            i <= row@.len(),
            all == names_of(row@),
            whole == row@.len(),
            forall|name: Seq<char>| #[trigger]
                rates@.contains_key(name) <==> exists|j: int| 0 <= j < i && #[trigger] all[j] == name,
            forall|name: Seq<char>| #[trigger]
                rates@.contains_key(name) ==> rates@[name] == (Share {
                    part: occurrences(all, name) as u64,
                    whole: all.len() as u64,
                }),
        decreases row@.len() - i,
    {
        let ghost before = rates@;
        let part = count_name(row, &row[i]);
        rates.insert(row[i].clone(), Share { part, whole });
        proof {
            assert(all[i as int] == row@[i as int]@);
            assert forall|name: Seq<char>| #[trigger] rates@.contains_key(name) <==> exists|j: int|
                0 <= j < i + 1 && #[trigger] all[j] == name by {
                if before.contains_key(name) {
                    let j = choose|j: int| 0 <= j < i && #[trigger] all[j] == name;
                    assert(0 <= j < i + 1 && all[j] == name);
                }
                if exists|j: int| 0 <= j < i + 1 && #[trigger] all[j] == name {
                    let j = choose|j: int| 0 <= j < i + 1 && #[trigger] all[j] == name;
                    if j < i {
                        assert(before.contains_key(name));
                    }
                }
            }
        }
        i = i + 1;
    }
    proof {
        assert forall|name: Seq<char>| rates@.contains_key(name) <==> win_rates(all).contains_key(name) by {}
        assert forall|name: Seq<char>| rates@.contains_key(name) implies rates@[name] == win_rates(all)[name] by {}
        assert(rates@ =~= win_rates(all));
    }
    rates
}

/// The share of the slots from `start_slot` through `latest_slot` that each
/// endpoint reported first, of all those that any endpoint reported; `None`
/// where none did. Every update of these slots is told how far it was behind.
pub fn compute_win_rates_with_range(
    store: &mut SlotStore,
    names: &[String],
    start_slot: u64,
    latest_slot: u64,
) -> (rates: Option<NameMap<Share>>)
    requires
        old(store).wf(),
    ensures
        final(store).wf(),
        final(store).loaded() == old(store).loaded(),
        ({
            let writes = range_writes(
                old(store).contents(),
                names_of(names@),
                start_slot as int,
                latest_slot + 1,
            );
            &&& final(store).contents() == after_writes(old(store).contents(), writes)
            &&& final(store).pending() == old(store).pending() + writes
        }),
        ({
            let row = winners(old(store).contents(), names_of(names@), start_slot as int, latest_slot + 1);
            match rates {
                Some(rates) => row.len() > 0 && rates@ == win_rates(row),
                None => row.len() == 0,
            }
        }),
{
    let ghost before = store.contents();
    let ghost all = names_of(names@);
    let ghost start = start_slot as int;
    let mut row: Vec<String> = Vec::new();
    let mut slot: u64 = start_slot;
    let mut more = start_slot <= latest_slot;
    let ghost mut end: int = start;
    proof {
        assert(names_of(row@) =~= winners(before, all, start, start));
        assert(store.pending() =~= old(store).pending() + range_writes(before, all, start, start));
    }
    while more
        invariant
            store.wf(),
            store.loaded() == old(store).loaded(),
            all == names_of(names@),
            start == start_slot,
            before == old(store).contents(),
            more ==> start <= slot <= latest_slot && end == slot,
            !more ==> end == latest_slot + 1 || (end == start && start > latest_slot),
            store.contents() == after_writes(before, range_writes(before, all, start, end)),
            store.pending() == old(store).pending() + range_writes(before, all, start, end),
            names_of(row@) == winners(before, all, start, end),
        decreases latest_slot + 1 - end,
    {
        let ghost now = store.contents();
        let ghost pending = store.pending();
        let ghost names_before = row@;
        proof {
            let writes = range_writes(before, all, start, end);
            lemma_range_writes(before, all, start, end);
            assert forall|name: Seq<char>| #[trigger] lookup(now, slot_key(name, slot)) == lookup(
                before,
                slot_key(name, slot),
            ) by {
                lemma_slot_writes_leave_other_slots(before, writes, start, end, name, slot);
            }
            lemma_same_slot_same_entries(now, before, all, slot);
            lemma_after_writes_concat(before, writes, settle_writes(before, all, slot));
        }
        match get_slot_winner(store, names, slot) {
            Some((winner, _)) => {
                row.push(winner);
                assert(names_of(row@) =~= names_of(names_before).push(winner@));
            },
            None => {},
        }
        proof {
            assert(store.pending() =~= old(store).pending() + range_writes(before, all, start, end + 1));
            end = end + 1;
        }
        if slot == latest_slot {
            more = false;
        } else {
            slot = slot + 1;
        }
    }
    proof {
        if start > latest_slot {
            assert(range_writes(before, all, start, latest_slot + 1) =~= range_writes(before, all, start, end));
        }
    }
    if row.len() == 0 {
        assert(names_of(row@).len() == 0);
        None
    } else {
        assert(names_of(row@).len() == row@.len());
        Some(tally(&row))
    }
}

/// The number of wins of each of some names, added up.
pub open spec fn total_wins(winners: Seq<Seq<char>>, names: Seq<Seq<char>>) -> nat
    decreases names.len(),
{
    if names.len() == 0 {
        0
    } else {
        total_wins(winners, names.drop_last()) + occurrences(winners, names.last())
    }
}

/// One more win adds one to the total, where the winner is among the names.
proof fn lemma_total_wins_step(winners: Seq<Seq<char>>, names: Seq<Seq<char>>)
    requires
        winners.len() > 0,
        names.no_duplicates(),
    ensures
        total_wins(winners, names) == total_wins(winners.drop_last(), names) + if names.contains(winners.last()) {
            1int
        } else {
            0
        },
    decreases names.len(),
{
    if names.len() > 0 {
        let rest = names.drop_last();
        let n = names.len() - 1;
        lemma_total_wins_step(winners, rest);
        let w = winners.last();
        if rest.contains(w) {
            let i = choose|i: int| 0 <= i < rest.len() && rest[i] == w;
            assert(names[i] == w && names[n] != w);
            assert(names.contains(w));
        } else if names.contains(w) {
            let i = choose|i: int| 0 <= i < names.len() && names[i] == w;
            if i < n {
                assert(rest[i] == w);
            }
        } else {
            assert(names[n] != w);
        }
    }
}

/// The wins of all endpoints add up to the number of slots that have a winner.
pub proof fn law_win_counts_add_up(winners: Seq<Seq<char>>, names: Seq<Seq<char>>)
    requires
        names.no_duplicates(),
        forall|i: int| 0 <= i < winners.len() ==> names.contains(#[trigger] winners[i]),
    ensures
        total_wins(winners, names) == winners.len(),
    decreases winners.len(),
{
    if winners.len() == 0 {
        lemma_no_wins(names);
        assert(winners =~= Seq::<Seq<char>>::empty());
    } else {
        let rest = winners.drop_last();
        assert forall|i: int| 0 <= i < rest.len() implies names.contains(#[trigger] rest[i]) by {
            assert(rest[i] == winners[i]);
        }
        law_win_counts_add_up(rest, names);
        lemma_total_wins_step(winners, names);
        assert(names.contains(winners[winners.len() - 1]));
    }
}

proof fn lemma_no_wins(names: Seq<Seq<char>>)
    ensures
        total_wins(Seq::<Seq<char>>::empty(), names) == 0,
    decreases names.len(),
{
    if names.len() > 0 {
        lemma_no_wins(names.drop_last());
    }
}

/// There is one winner at most for each slot, and a range has winners exactly
/// where one of its slots has one.
pub proof fn law_winners_of_a_range(contents: Contents, names: Seq<Seq<char>>, start: int, end: int)
    requires
        0 <= start <= end <= u64::MAX + 1,
    ensures
        winners(contents, names, start, end).len() <= end - start,
        winners(contents, names, start, end).len() == 0 <==> forall|slot: u64|
            start <= slot < end ==> #[trigger] slot_winner(contents, names, slot) is None,
    decreases end - start,
{
    if start < end {
        law_winners_of_a_range(contents, names, start, end - 1);
        let last = (end - 1) as u64;
        if winners(contents, names, start, end).len() == 0 {
            assert(slot_winner(contents, names, last) is None);
        }
        if forall|slot: u64| start <= slot < end ==> #[trigger] slot_winner(contents, names, slot) is None {
            assert(slot_winner(contents, names, last) is None);
        }
    }
}

/// The contents after a range is those after all of it but its last slot, with
/// that slot settled as well.
proof fn lemma_range_step(contents: Contents, names: Seq<Seq<char>>, start: int, end: int)
    requires
        0 <= start < end <= u64::MAX + 1,
    ensures
        after_writes(contents, range_writes(contents, names, start, end)) == settled(
            after_writes(contents, range_writes(contents, names, start, end - 1)),
            names,
            (end - 1) as u64,
        ),
{
    let slot = (end - 1) as u64;
    let earlier = range_writes(contents, names, start, end - 1);
    let middle = after_writes(contents, earlier);
    lemma_range_writes(contents, names, start, end - 1);
    assert forall|name: Seq<char>| #[trigger] lookup(middle, slot_key(name, slot)) == lookup(
        contents,
        slot_key(name, slot),
    ) by {
        lemma_slot_writes_leave_other_slots(contents, earlier, start, end - 1, name, slot);
    }
    lemma_same_slot_same_entries(middle, contents, names, slot);
    lemma_after_writes_concat(contents, earlier, settle_writes(contents, names, slot));
}

/// Finding the winners of a range keeps every update under its own nickname.
pub proof fn law_range_keeps_labels(contents: Contents, names: Seq<Seq<char>>, start: int, end: int)
    requires
        well_labelled(contents),
        0 <= start <= end <= u64::MAX + 1,
    ensures
        well_labelled(after_writes(contents, range_writes(contents, names, start, end))),
    decreases end - start,
{
    if start < end {
        law_range_keeps_labels(contents, names, start, end - 1);
        lemma_range_step(contents, names, start, end);
        law_settling_keeps_the_winner(
            after_writes(contents, range_writes(contents, names, start, end - 1)),
            names,
            (end - 1) as u64,
        );
    }
}

/// Once the winners of a range have been found, every endpoint that reported
/// one of its slots is stored with the time that it was behind, and no other
/// is.
pub proof fn law_range_notes_every_delay(
    contents: Contents,
    names: Seq<Seq<char>>,
    start: int,
    end: int,
    name: Seq<char>,
    slot: u64,
)
    requires
        well_labelled(contents),
        0 <= start <= slot < end <= u64::MAX + 1,
        names.contains(name),
        slot_winner(contents, names, slot) is Some,
    ensures
        ({
            let after = after_writes(contents, range_writes(contents, names, start, end));
            let winner = slot_winner(contents, names, slot)->0.timestamp;
            entry_for(after, name, slot) == noted(entry_for(contents, name, slot), winner)
        }),
    decreases end - start,
{
    let earlier = range_writes(contents, names, start, end - 1);
    let middle = after_writes(contents, earlier);
    lemma_range_step(contents, names, start, end);
    if slot < end - 1 {
        law_range_notes_every_delay(contents, names, start, end - 1, name, slot);
        law_settling_leaves_other_slots(middle, names, (end - 1) as u64, name, slot);
    } else {
        law_range_keeps_labels(contents, names, start, end - 1);
        lemma_range_writes(contents, names, start, end - 1);
        assert forall|n: Seq<char>| #[trigger] lookup(middle, slot_key(n, slot)) == lookup(contents, slot_key(n, slot)) by {
            lemma_slot_writes_leave_other_slots(contents, earlier, start, end - 1, n, slot);
        }
        lemma_same_slot_same_entries(middle, contents, names, slot);
        assert(lookup(middle, slot_key(name, slot)) == lookup(contents, slot_key(name, slot)));
        law_settling_notes_every_delay(middle, names, slot, name);
    }
}

/// Finding the winners of a range again finds the same winners.
pub proof fn law_winners_stay_the_same(contents: Contents, names: Seq<Seq<char>>, start: int, end: int)
    requires
        well_labelled(contents),
        0 <= start <= end <= u64::MAX + 1,
    ensures
        winners(after_writes(contents, range_writes(contents, names, start, end)), names, start, end) == winners(
            contents,
            names,
            start,
            end,
        ),
{
    lemma_winners_stay_the_same(contents, names, start, end, end);
}

proof fn lemma_winners_stay_the_same(contents: Contents, names: Seq<Seq<char>>, start: int, end: int, part: int)
    requires
        well_labelled(contents),
        0 <= start <= part <= end <= u64::MAX + 1,
    ensures
        winners(after_writes(contents, range_writes(contents, names, start, end)), names, start, part) == winners(
            contents,
            names,
            start,
            part,
        ),
    decreases part - start,
{
    if start < part {
        let slot = (part - 1) as u64;
        let after = after_writes(contents, range_writes(contents, names, start, end));
        lemma_winners_stay_the_same(contents, names, start, end, part - 1);
        if let Some(winner) = slot_winner(contents, names, slot) {
            assert forall|i: int| 0 <= i < names.len() implies entry_for(after, #[trigger] names[i], slot) == noted(
                entry_for(contents, names[i], slot),
                winner.timestamp,
            ) by {
                law_range_notes_every_delay(contents, names, start, end, names[i], slot);
            }
            lemma_noted_entries(contents, after, names, slot, winner.timestamp);
        } else {
            lemma_range_leaves_empty_slots(contents, names, start, end, slot);
        }
    }
}

/// Finding the winners of a range leaves a slot without a winner as it was.
proof fn lemma_range_leaves_empty_slots(
    contents: Contents,
    names: Seq<Seq<char>>,
    start: int,
    end: int,
    slot: u64,
)
    requires
        0 <= start <= end <= u64::MAX + 1,
        slot_winner(contents, names, slot) is None,
    ensures
        slot_winner(after_writes(contents, range_writes(contents, names, start, end)), names, slot) is None,
        forall|name: Seq<char>| #[trigger]
            lookup(
                after_writes(contents, range_writes(contents, names, start, end)),
                slot_key(name, slot),
            ) == lookup(contents, slot_key(name, slot)),
    decreases end - start,
{
    let after = after_writes(contents, range_writes(contents, names, start, end));
    if start < end {
        let last = (end - 1) as u64;
        let middle = after_writes(contents, range_writes(contents, names, start, end - 1));
        lemma_range_leaves_empty_slots(contents, names, start, end - 1, slot);
        lemma_range_step(contents, names, start, end);
        if last == slot {
            assert(settle_writes(middle, names, slot) =~= Seq::<WriteView>::empty());
        } else {
            assert forall|name: Seq<char>| #[trigger] lookup(after, slot_key(name, slot)) == lookup(
                contents,
                slot_key(name, slot),
            ) by {
                law_settling_leaves_other_slots(middle, names, last, name, slot);
                assert(lookup(middle, slot_key(name, slot)) == lookup(contents, slot_key(name, slot)));
            }
        }
    }
    lemma_same_slot_same_entries(after, contents, names, slot);
}

/// Finding the winners of a range changes delays alone.
pub proof fn law_range_changes_delays_alone(contents: Contents, names: Seq<Seq<char>>, start: int, end: int)
    requires
        well_labelled(contents),
        0 <= start <= end <= u64::MAX + 1,
    ensures
        same_but_delays(contents, after_writes(contents, range_writes(contents, names, start, end))),
    decreases end - start,
{
    if start < end {
        let middle = after_writes(contents, range_writes(contents, names, start, end - 1));
        let after = after_writes(contents, range_writes(contents, names, start, end));
        law_range_changes_delays_alone(contents, names, start, end - 1);
        law_range_keeps_labels(contents, names, start, end - 1);
        lemma_range_step(contents, names, start, end);
        law_settling_changes_delays_alone(middle, names, (end - 1) as u64);
        assert forall|key: Seq<u8>| #[trigger] contents.contains_key(key) implies same_but_delay(
            contents[key],
            after[key],
        ) by {
            assert(middle.dom().contains(key));
            assert(middle.contains_key(key));
        }
    }
}

/// Once the winners of a range have been found, every delay in it is noted.
pub proof fn lemma_range_is_noted(contents: Contents, names: Seq<Seq<char>>, start: int, end: int, slot: u64)
    requires
        well_labelled(contents),
        0 <= start <= slot < end <= u64::MAX + 1,
    ensures
        all_noted(after_writes(contents, range_writes(contents, names, start, end)), names, slot),
{
    let after = after_writes(contents, range_writes(contents, names, start, end));
    if let Some(winner) = slot_winner(contents, names, slot) {
        assert forall|i: int| 0 <= i < names.len() implies entry_for(after, #[trigger] names[i], slot) == noted(
            entry_for(contents, names[i], slot),
            winner.timestamp,
        ) by {
            law_range_notes_every_delay(contents, names, start, end, names[i], slot);
        }
        lemma_noted_entries(contents, after, names, slot, winner.timestamp);
    } else {
        lemma_range_leaves_empty_slots(contents, names, start, end, slot);
    }
}

/// Whether every delay in a range is noted.
pub open spec fn is_noted_range(contents: Contents, names: Seq<Seq<char>>, start: int, end: int) -> bool {
    forall|slot: u64| start <= slot < end ==> #[trigger] all_noted(contents, names, slot)
}

/// Where every delay in a range is noted, finding its winners changes nothing.
pub proof fn lemma_noted_range_stays(contents: Contents, names: Seq<Seq<char>>, start: int, end: int)
    requires
        well_labelled(contents),
        0 <= start <= end <= u64::MAX + 1,
        is_noted_range(contents, names, start, end),
    ensures
        after_writes(contents, range_writes(contents, names, start, end)) == contents,
    decreases end - start,
{
    if start < end {
        lemma_noted_range_stays(contents, names, start, end - 1);
        lemma_range_step(contents, names, start, end);
        assert(all_noted(contents, names, (end - 1) as u64));
        lemma_noted_slot_stays(contents, names, (end - 1) as u64);
    }
}

/// A range has as many winners as slots that any endpoint reported, and a name
/// wins as many as it was first at.
pub proof fn law_winners_are_the_reported_slots(
    contents: Contents,
    names: Seq<Seq<char>>,
    start: int,
    end: int,
    name: Seq<char>,
)
    requires
        0 <= start <= end <= u64::MAX + 1,
    ensures
        winners(contents, names, start, end).len() == Set::new(
            |slot: int| start <= slot < end && is_reported(contents, names, slot as u64),
        ).len(),
        occurrences(winners(contents, names, start, end), name) == Set::new(
            |slot: int| start <= slot < end && is_won_by(contents, names, slot as u64, name),
        ).len(),
    decreases end - start,
{
    let reported = |slot: int| is_reported(contents, names, slot as u64);
    let won = |slot: int| is_won_by(contents, names, slot as u64, name);
    lemma_count_in_range(start, end, reported);
    lemma_count_in_range(start, end, won);
    assert(Set::new(|slot: int| start <= slot < end && is_reported(contents, names, slot as u64)) =~= Set::new(
        |slot: int| start <= slot < end && reported(slot),
    ));
    assert(Set::new(|slot: int| start <= slot < end && is_won_by(contents, names, slot as u64, name)) =~= Set::new(
        |slot: int| start <= slot < end && won(slot),
    ));
    if start < end {
        let last = (end - 1) as u64;
        law_winners_are_the_reported_slots(contents, names, start, end - 1, name);
        assert(Set::new(|slot: int| start <= slot < end - 1 && is_reported(contents, names, slot as u64))
            =~= Set::new(|slot: int| start <= slot < end - 1 && reported(slot)));
        assert(Set::new(|slot: int| start <= slot < end - 1 && is_won_by(contents, names, slot as u64, name))
            =~= Set::new(|slot: int| start <= slot < end - 1 && won(slot)));
        law_winner_has_the_first_time(contents, names, last);
        law_winner_is_by_the_name_that_won(contents, names, last, name);
        let earlier = winners(contents, names, start, end - 1);
        if let Some(winner) = slot_winner(contents, names, last) {
            assert(winners(contents, names, start, end).drop_last() =~= earlier);
        }
    }
}

/// The rate of an endpoint is the number of slots that it was first at, of the
/// number of slots that any endpoint reported. It has one exactly where it was
/// first at a slot.
pub proof fn law_rates_are_shares_of_the_reported_slots(
    contents: Contents,
    names: Seq<Seq<char>>,
    start: int,
    end: int,
    name: Seq<char>,
)
    requires
        0 <= start <= end <= u64::MAX + 1,
        end - start <= u64::MAX,
    ensures
        ({
            let rates = win_rates(winners(contents, names, start, end));
            let reported = Set::new(
                |slot: int| start <= slot < end && is_reported(contents, names, slot as u64),
            ).len();
            let won = Set::new(
                |slot: int| start <= slot < end && is_won_by(contents, names, slot as u64, name),
            ).len();
            &&& rates.contains_key(name) <==> won > 0
            &&& rates.contains_key(name) ==> rates[name].part == won && rates[name].whole == reported
            &&& won <= reported <= end - start
        }),
{
    let row = winners(contents, names, start, end);
    law_winners_are_the_reported_slots(contents, names, start, end, name);
    law_winners_of_a_range(contents, names, start, end);
    lemma_occurs_or_not(row, name);
}

/// A name occurs in a row exactly where it is contained.
proof fn lemma_occurs_or_not(row: Seq<Seq<char>>, name: Seq<char>)
    ensures
        occurrences(row, name) > 0 <==> row.contains(name),
        occurrences(row, name) <= row.len(),
    decreases row.len(),
{
    if row.len() > 0 {
        let rest = row.drop_last();
        lemma_occurs_or_not(rest, name);
        if rest.contains(name) {
            let i = choose|i: int| 0 <= i < rest.len() && rest[i] == name;
            assert(row[i] == name);
        }
        if row.contains(name) && row.last() != name {
            let i = choose|i: int| 0 <= i < row.len() && row[i] == name;
            assert(rest[i] == name);
        }
        if row.last() == name {
            assert(row[row.len() - 1] == name);
        }
    }
}

/// The parts of the rates of some names, added up.
pub open spec fn total_parts(rates: Map<Seq<char>, Share>, names: Seq<Seq<char>>) -> nat
    decreases names.len(),
{
    if names.len() == 0 {
        0
    } else {
        total_parts(rates, names.drop_last()) + if rates.contains_key(names.last()) {
            rates[names.last()].part as nat
        } else {
            0
        }
    }
}

/// The parts of all rates add up to the whole of each.
pub proof fn law_parts_add_up_to_the_whole(row: Seq<Seq<char>>, names: Seq<Seq<char>>, name: Seq<char>)
    requires
        row.len() <= u64::MAX,
        names.no_duplicates(),
        forall|i: int| 0 <= i < row.len() ==> names.contains(#[trigger] row[i]),
        win_rates(row).contains_key(name),
    ensures
        total_parts(win_rates(row), names) == win_rates(row)[name].whole,
        win_rates(row)[name].whole == row.len(),
{
    law_win_counts_add_up(row, names);
    lemma_parts_are_counts(row, names);
}

proof fn lemma_parts_are_counts(row: Seq<Seq<char>>, names: Seq<Seq<char>>)
    requires
        row.len() <= u64::MAX,
    ensures
        total_parts(win_rates(row), names) == total_wins(row, names),
    decreases names.len(),
{
    if names.len() > 0 {
        lemma_parts_are_counts(row, names.drop_last());
        lemma_occurs_or_not(row, names.last());
    }
}

} // verus!

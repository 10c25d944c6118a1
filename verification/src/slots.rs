//! Which slots the endpoints have reported, and which of them are kept.
use crate::bytes::{prefix, same_bytes};
use crate::keys::{law_both_readings_agree, read_slot_entry, read_two_part_slot, slot_entry, two_part_slot};
use crate::keys::{law_slot_key_reads_back, plain_name, slot_key};
use crate::store::{deletes, outdated_keys, without_outdated};
use crate::store::{Contents, SlotStore};
use vstd::prelude::*;
use vstd::utf8::encode_utf8;

verus! {

/// The number of slots behind the latest one whose records are kept.
pub const RETAINED_SLOTS: u64 = 500;

/// Whether `slot` is stored and no stored slot is higher.
pub open spec fn is_latest(contents: Contents, slot: u64) -> bool {
    &&& exists|key: Seq<u8>| #[trigger] contents.contains_key(key) && two_part_slot(key) == Some(slot)
    &&& forall|key: Seq<u8>| #[trigger]
        contents.contains_key(key) ==> (two_part_slot(key) matches Some(s) ==> s <= slot)
}

/// The highest slot that is stored.
pub open spec fn latest_slot(contents: Contents) -> Option<u64> {
    if exists|slot: u64| is_latest(contents, slot) {
        Some(choose|slot: u64| is_latest(contents, slot))
    } else {
        None
    }
}

/// Whether the endpoint `name` is stored to have reported `slot`.
pub open spec fn reports(contents: Contents, name: Seq<u8>, slot: u64) -> bool {
    exists|key: Seq<u8>| #[trigger] contents.contains_key(key) && slot_entry(key) == Some((name, slot))
}

/// Whether the endpoint `name` is stored to have reported any slot.
pub open spec fn is_known(contents: Contents, name: Seq<u8>) -> bool {
    exists|slot: u64| #[trigger] reports(contents, name, slot)
}

/// Whether there are endpoints and all of them have reported `slot`, which is
/// `min_slot` or a later one.
pub open spec fn is_common(contents: Contents, min_slot: u64, slot: u64) -> bool {
    &&& slot >= min_slot
    &&& exists|name: Seq<u8>| is_known(contents, name)
    &&& forall|name: Seq<u8>| #[trigger] is_known(contents, name) ==> reports(contents, name, slot)
}

/// Whether `slot` is the first that all endpoints have reported, from
/// `min_slot` on.
pub open spec fn is_earliest_common(contents: Contents, min_slot: u64, slot: u64) -> bool {
    &&& is_common(contents, min_slot, slot)
    &&& forall|other: u64| #[trigger] is_common(contents, min_slot, other) ==> slot <= other
}

/// The first slot from `min_slot` on that all endpoints have reported.
pub open spec fn earliest_common_slot(contents: Contents, min_slot: u64) -> Option<u64> {
    if exists|slot: u64| is_earliest_common(contents, min_slot, slot) {
        Some(choose|slot: u64| is_earliest_common(contents, min_slot, slot))
    } else {
        None
    }
}

/// The first slot that is kept when the latest one is `latest`.
pub open spec fn oldest_kept(latest: u64, threshold: u64) -> u64 {
    if latest >= threshold {
        (latest - threshold) as u64
    } else {
        0
    }
}

/// What cleaning up leaves of the contents.
pub open spec fn cleaned(contents: Contents, threshold: u64) -> Contents {
    match latest_slot(contents) {
        Some(latest) => without_outdated(contents, oldest_kept(latest, threshold)),
        None => contents,
    }
}

/// The keys that cleaning up removes, in the order of `keys`.
pub open spec fn cleaned_away(contents: Contents, keys: Seq<Seq<u8>>, threshold: u64) -> Seq<Seq<u8>> {
    match latest_slot(contents) {
        Some(latest) => outdated_keys(keys, oldest_kept(latest, threshold)),
        None => Seq::empty(),
    }
}

proof fn lemma_latest(contents: Contents, slot: u64)
    requires
        is_latest(contents, slot),
    ensures
        latest_slot(contents) == Some(slot),
{
    let other = choose|s: u64| is_latest(contents, s);
    assert(is_latest(contents, other));
    let key1 = choose|key: Seq<u8>| #[trigger] contents.contains_key(key) && two_part_slot(key) == Some(slot);
    let key2 = choose|key: Seq<u8>| #[trigger] contents.contains_key(key) && two_part_slot(key) == Some(other);
    assert(contents.contains_key(key1) && contents.contains_key(key2));
}

/// Where a slot is stored, one of them is the latest.
proof fn lemma_latest_exists(contents: Contents, key: Seq<u8>, slot: u64)
    requires
        contents.contains_key(key),
        two_part_slot(key) == Some(slot),
    ensures
        exists|latest: u64| is_latest(contents, latest),
    decreases u64::MAX - slot,
{
    if exists|k: Seq<u8>| #[trigger] contents.contains_key(k) && (two_part_slot(k) matches Some(s) && s > slot) {
        let k = choose|k: Seq<u8>| #[trigger]
            contents.contains_key(k) && (two_part_slot(k) matches Some(s) && s > slot);
        lemma_latest_exists(contents, k, two_part_slot(k)->0);
    } else {
        assert(is_latest(contents, slot));
    }
}

/// Storing another key makes its slot the latest, unless a later one is stored.
pub proof fn law_latest_slot_advances(before: Contents, after: Contents, key: Seq<u8>, slot: u64)
    requires
        after.dom() == before.dom().insert(key),
        two_part_slot(key) == Some(slot),
    ensures
        latest_slot(after) == match latest_slot(before) {
            Some(latest) => Some(if latest > slot { latest } else { slot }),
            None => Some(slot),
        },
{
    assert(after.contains_key(key));
    lemma_latest_exists(after, key, slot);
    let latest = choose|latest: u64| is_latest(after, latest);
    lemma_latest(after, latest);
    let k = choose|k: Seq<u8>| #[trigger] after.contains_key(k) && two_part_slot(k) == Some(latest);
    if k != key {
        assert(before.contains_key(k));
        assert forall|other: Seq<u8>| #[trigger] before.contains_key(other) implies (two_part_slot(other) matches Some(s)
            ==> s <= latest) by {
            assert(after.contains_key(other));
        }
        assert(is_latest(before, latest));
        lemma_latest(before, latest);
    } else if let Some(earlier) = latest_slot(before) {
        assert(is_latest(before, earlier));
        let e = choose|e: Seq<u8>| #[trigger] before.contains_key(e) && two_part_slot(e) == Some(earlier);
        assert(after.contains_key(e));
    }
}

proof fn lemma_earliest_common(contents: Contents, min_slot: u64, slot: u64)
    requires
        is_earliest_common(contents, min_slot, slot),
    ensures
        earliest_common_slot(contents, min_slot) == Some(slot),
{
    let other = choose|s: u64| is_earliest_common(contents, min_slot, s);
    assert(is_earliest_common(contents, min_slot, other));
}

/// The highest slot that is stored, or `None` where no key holds a slot.
pub fn get_latest_websocket_slot(store: &SlotStore) -> (latest: Option<u64>)
    requires
        store.wf(),
    ensures
        latest == latest_slot(store.contents()),
        latest is None <==> forall|key: Seq<u8>| #[trigger]
            store.contents().contains_key(key) ==> two_part_slot(key) is None,
{
    let mut max_slot: Option<u64> = None;
    let mut i: usize = 0;
    while i < store.count()
        invariant
            i <= store.keys().len(),
            match max_slot {
                Some(m) => {
                    &&& exists|j: int| 0 <= j < i && two_part_slot(#[trigger] store.keys()[j]) == Some(m)
                    &&& forall|j: int|
                        0 <= j < i ==> (two_part_slot(#[trigger] store.keys()[j]) matches Some(s) ==> s <= m)
                },
                None => forall|j: int| 0 <= j < i ==> two_part_slot(#[trigger] store.keys()[j]) is None,
            },
        decreases store.keys().len() - i,
    {
        match read_two_part_slot(store.key_at(i).as_slice()) {
            Some(slot) => {
                max_slot = match max_slot {
                    Some(m) => Some(if m < slot { slot } else { m }),
                    None => Some(slot),
                };
            },
            None => {},
        }
        i = i + 1;
    }
    proof {
        store.lemma_keys();
        match max_slot {
            Some(m) => {
                let j = choose|j: int| 0 <= j < i && two_part_slot(#[trigger] store.keys()[j]) == Some(m);
                assert(store.contents().contains_key(store.keys()[j]));
                assert(is_latest(store.contents(), m));
                lemma_latest(store.contents(), m);
            },
            None => {
                assert forall|slot: u64| !is_latest(store.contents(), slot) by {}
            },
        }
    }
    max_slot
}

/// What the database holds of an endpoint and a slot.
struct Sighting {
    name: Vec<u8>,
    slot: u64,
}

/// Whether some sighting is of the endpoint `name` and of `slot`.
spec fn sighted(seen: Seq<Sighting>, name: Seq<u8>, slot: u64) -> bool {
    exists|i: int| 0 <= i < seen.len() && (#[trigger] seen[i]).name@ == name && seen[i].slot == slot
}

/// Whether one of the first `limit` keys holds what a sighting says.
spec fn is_sighting(keys: Seq<Seq<u8>>, limit: int, sighting: Sighting) -> bool {
    exists|j: int| 0 <= j < limit && slot_entry(#[trigger] keys[j]) == Some((sighting.name@, sighting.slot))
}

fn was_sighted(seen: &Vec<Sighting>, name: &[u8], slot: u64) -> (found: bool)
    ensures
        found == sighted(seen@, name@, slot),
{
    let mut i: usize = 0;
    while i < seen.len()
        invariant
            i <= seen@.len(),
            forall|j: int| 0 <= j < i ==> !((#[trigger] seen@[j]).name@ == name@ && seen@[j].slot == slot),
        decreases seen@.len() - i,
    {
        if seen[i].slot == slot && same_bytes(seen[i].name.as_slice(), name) {
            return true;
        }
        i = i + 1;
    }
    false
}

/// All sightings.
fn sightings(store: &SlotStore) -> (seen: Vec<Sighting>)
    requires
        store.wf(),
    ensures
        forall|name: Seq<u8>, slot: u64| #[trigger]
            sighted(seen@, name, slot) <==> reports(store.contents(), name, slot),
{
    let mut seen: Vec<Sighting> = Vec::new();
    let mut i: usize = 0;
    while i < store.count()
        invariant
            store.wf(),
            i <= store.keys().len(),
            forall|n: int|
                0 <= n < seen@.len() ==> is_sighting(store.keys(), i as int, #[trigger] seen@[n]),
            forall|j: int|
                0 <= j < i ==> (slot_entry(#[trigger] store.keys()[j]) matches Some((name, slot)) ==> sighted(
                    seen@,
                    name,
                    slot,
                )),
        decreases store.keys().len() - i,
    {
        let key = store.key_at(i);
        let ghost before = seen@;
        match read_slot_entry(key.as_slice()) {
            Some((length, slot)) => {
                let name = prefix(key.as_slice(), length);
                seen.push(Sighting { name, slot });
                assert(seen@[before.len() as int].slot == slot);
            },
            None => {},
        }
        proof {
            assert forall|j: int| 0 <= j < i + 1 implies (slot_entry(#[trigger] store.keys()[j]) matches Some(
                (name, slot),
            ) ==> sighted(seen@, name, slot)) by {
                if j < i {
                    if let Some((name, slot)) = slot_entry(store.keys()[j]) {
                        let n = choose|n: int|
                            0 <= n < before.len() && (#[trigger] before[n]).name@ == name && before[n].slot == slot;
                        assert(seen@[n] == before[n]);
                    }
                }
            }
            assert forall|n: int| 0 <= n < seen@.len() implies is_sighting(store.keys(), i + 1, #[trigger] seen@[n]) by {
                if n < before.len() {
                    assert(seen@[n] == before[n]);
                    assert(is_sighting(store.keys(), i as int, before[n]));
                } else {
                    assert(slot_entry(store.keys()[i as int]) == Some((seen@[n].name@, seen@[n].slot)));
                }
            }
        }
        i = i + 1;
    }
    proof {
        store.lemma_keys();
        let contents = store.contents();
        assert forall|name: Seq<u8>, slot: u64| #[trigger] sighted(seen@, name, slot) <==> reports(
            contents,
            name,
            slot,
        ) by {
            if sighted(seen@, name, slot) {
                let n = choose|n: int|
                    0 <= n < seen@.len() && (#[trigger] seen@[n]).name@ == name && seen@[n].slot == slot;
                assert(is_sighting(store.keys(), i as int, seen@[n]));
                let j = choose|j: int|
                    0 <= j < i && slot_entry(#[trigger] store.keys()[j]) == Some((seen@[n].name@, seen@[n].slot));
                assert(contents.contains_key(store.keys()[j]));
            }
            if reports(contents, name, slot) {
                let key = choose|key: Seq<u8>| #[trigger]
                    contents.contains_key(key) && slot_entry(key) == Some((name, slot));
                let j = choose|j: int| 0 <= j < store.keys().len() && store.keys()[j] == key;
                assert(slot_entry(store.keys()[j]) == Some((name, slot)));
            }
        }
    }
    seen
}

/// Whether one of the positions holds the name of sighting `i`.
spec fn covered(seen: Seq<Sighting>, positions: Seq<usize>, i: int) -> bool {
    exists|k: int| 0 <= k < positions.len() && seen[#[trigger] positions[k] as int].name@ == seen[i].name@
}

/// Positions that hold every name there is among the sightings.
fn distinct_names(seen: &Vec<Sighting>) -> (positions: Vec<usize>)
    ensures
        forall|k: int| 0 <= k < positions@.len() ==> (#[trigger] positions@[k]) < seen@.len(),
        forall|i: int| 0 <= i < seen@.len() ==> #[trigger] covered(seen@, positions@, i),
{
    let mut positions: Vec<usize> = Vec::new();
    let mut i: usize = 0;
    while i < seen.len()
        invariant
            i <= seen@.len(),
            forall|k: int| 0 <= k < positions@.len() ==> (#[trigger] positions@[k]) < seen@.len(),
            forall|j: int| 0 <= j < i ==> #[trigger] covered(seen@, positions@, j),
        decreases seen@.len() - i,
    {
        let ghost before = positions@;
        let mut known = false;
        let mut k: usize = 0;
        while k < positions.len()
            invariant
                k <= positions@.len(),
                i < seen@.len(),
                positions@ == before,
                forall|k: int| 0 <= k < positions@.len() ==> (#[trigger] positions@[k]) < seen@.len(),
                known ==> exists|k: int|
                    0 <= k < positions@.len() && seen@[#[trigger] positions@[k] as int].name@ == seen@[i as int].name@,
            decreases positions@.len() - k,
        {
            if same_bytes(seen[positions[k]].name.as_slice(), seen[i].name.as_slice()) {
                known = true;
            }
            k = k + 1;
        }
        if !known {
            positions.push(i);
            assert(positions@[before.len() as int] == i);
        }
        proof {
            assert forall|j: int| 0 <= j < i + 1 implies #[trigger] covered(seen@, positions@, j) by {
                if j < i {
                    assert(covered(seen@, before, j));
                    let k = choose|k: int|
                        0 <= k < before.len() && seen@[#[trigger] before[k] as int].name@ == seen@[j].name@;
                    assert(positions@[k] == before[k]);
                }
            }
        }
        i = i + 1;
    }
    positions
}

/// Whether every name at the given positions was sighted at `slot`.
fn all_sighted(seen: &Vec<Sighting>, positions: &Vec<usize>, slot: u64) -> (all: bool)
    requires
        forall|k: int| 0 <= k < positions@.len() ==> (#[trigger] positions@[k]) < seen@.len(),
    ensures
        all <==> forall|k: int|
            0 <= k < positions@.len() ==> sighted(seen@, seen@[#[trigger] positions@[k] as int].name@, slot),
{
    let mut k: usize = 0;
    while k < positions.len()
        invariant
            k <= positions@.len(),
            forall|k: int| 0 <= k < positions@.len() ==> (#[trigger] positions@[k]) < seen@.len(),
            forall|j: int| 0 <= j < k ==> sighted(seen@, seen@[#[trigger] positions@[j] as int].name@, slot),
        decreases positions@.len() - k,
    {
        if !was_sighted(seen, seen[positions[k]].name.as_slice(), slot) {
            return false;
        }
        k = k + 1;
    }
    true
}

/// The first slot from `min_slot` on that all endpoints have reported, or `None`
/// where there is no such slot.
pub fn get_earliest_common_websocket_slot_with_min(store: &SlotStore, min_slot: u64) -> (earliest: Option<u64>)
    requires
        store.wf(),
    ensures
        earliest == earliest_common_slot(store.contents(), min_slot),
        earliest is None <==> forall|slot: u64| !is_common(store.contents(), min_slot, slot),
{
    let seen = sightings(store);
    let ghost contents = store.contents();
    if seen.len() == 0 {
        proof {
            assert forall|slot: u64| !is_common(contents, min_slot, slot) by {
                if is_common(contents, min_slot, slot) {
                    let name = choose|name: Seq<u8>| is_known(contents, name);
                    let s = choose|s: u64| #[trigger] reports(contents, name, s);
                    assert(sighted(seen@, name, s));
                }
            }
        }
        return None;
    }
    let positions = distinct_names(&seen);
    proof {
        assert forall|slot: u64| is_common(contents, min_slot, slot) <==> slot >= min_slot && (forall|k: int|
            0 <= k < positions@.len() ==> sighted(seen@, seen@[#[trigger] positions@[k] as int].name@, slot)) by {
            lemma_common(contents, min_slot, seen@, positions@, slot);
        }
    }
    let mut best: Option<u64> = None;
    let mut i: usize = 0;
    while i < seen.len()
        invariant
            i <= seen@.len(),
            seen@.len() > 0,
            forall|k: int| 0 <= k < positions@.len() ==> (#[trigger] positions@[k]) < seen@.len(),
            forall|slot: u64| #[trigger]
                is_common(contents, min_slot, slot) <==> slot >= min_slot && (forall|k: int|
                    0 <= k < positions@.len() ==> sighted(seen@, seen@[#[trigger] positions@[k] as int].name@, slot)),
            match best {
                Some(b) => {
                    &&& is_common(contents, min_slot, b)
                    &&& forall|j: int|
                        0 <= j < i && (#[trigger] seen@[j]).name@ == seen@[0].name@ && is_common(contents, min_slot, seen@[j].slot)
                            ==> b <= seen@[j].slot
                },
                None => forall|j: int|
                    0 <= j < i && (#[trigger] seen@[j]).name@ == seen@[0].name@ ==> !is_common(contents, min_slot, seen@[j].slot),
            },
        decreases seen@.len() - i,
    {
        let slot = seen[i].slot;
        if same_bytes(seen[i].name.as_slice(), seen[0].name.as_slice()) {
            if slot >= min_slot && all_sighted(&seen, &positions, slot) {
                assert(is_common(contents, min_slot, slot));
                best = match best {
                    Some(b) => Some(if slot < b { slot } else { b }),
                    None => Some(slot),
                };
            } else {
                assert(!is_common(contents, min_slot, slot));
            }
        }
        i = i + 1;
    }
    proof {
        let first = seen@[0].name@;
        assert forall|slot: u64| #[trigger] is_common(contents, min_slot, slot) implies exists|j: int|
            0 <= j < seen@.len() && (#[trigger] seen@[j]).name@ == first && seen@[j].slot == slot by {
            assert(sighted(seen@, first, seen@[0].slot));
            assert(reports(contents, first, seen@[0].slot));
            assert(is_known(contents, first));
            assert(reports(contents, first, slot));
            assert(sighted(seen@, first, slot));
        }
        match best {
            Some(b) => {
                assert(is_earliest_common(contents, min_slot, b));
                lemma_earliest_common(contents, min_slot, b);
            },
            None => {
                assert forall|slot: u64| !is_common(contents, min_slot, slot) by {}
            },
        }
    }
    best
}

/// A slot from `min_slot` on is common where every distinct name was sighted at
/// it.
proof fn lemma_common(contents: Contents, min_slot: u64, seen: Seq<Sighting>, positions: Seq<usize>, slot: u64)
    requires
        seen.len() > 0,
        forall|name: Seq<u8>, slot: u64| #[trigger]
            sighted(seen, name, slot) <==> reports(contents, name, slot),
        forall|k: int| 0 <= k < positions.len() ==> (#[trigger] positions[k]) < seen.len(),
        forall|i: int| 0 <= i < seen.len() ==> #[trigger] covered(seen, positions, i),
    ensures
        is_common(contents, min_slot, slot) <==> slot >= min_slot && (forall|k: int|
            0 <= k < positions.len() ==> sighted(seen, seen[#[trigger] positions[k] as int].name@, slot)),
{
    if is_common(contents, min_slot, slot) {
        assert forall|k: int| 0 <= k < positions.len() implies sighted(
            seen,
            seen[#[trigger] positions[k] as int].name@,
            slot,
        ) by {
            let s = seen[positions[k] as int];
            assert(sighted(seen, s.name@, s.slot));
            assert(reports(contents, s.name@, s.slot));
            assert(is_known(contents, s.name@));
        }
    }
    if forall|k: int| 0 <= k < positions.len() ==> sighted(seen, seen[#[trigger] positions[k] as int].name@, slot) {
        assert(sighted(seen, seen[0].name@, seen[0].slot));
        assert(reports(contents, seen[0].name@, seen[0].slot));
        assert(is_known(contents, seen[0].name@));
        assert(covered(seen, positions, 0));
        let k0 = choose|k: int|
            0 <= k < positions.len() && seen[#[trigger] positions[k] as int].name@ == seen[0].name@;
        assert(sighted(seen, seen[positions[k0] as int].name@, slot));
        assert forall|name: Seq<u8>| #[trigger] is_known(contents, name) implies reports(contents, name, slot) by {
            let s = choose|s: u64| #[trigger] reports(contents, name, s);
            assert(sighted(seen, name, s));
            let i = choose|i: int| 0 <= i < seen.len() && (#[trigger] seen[i]).name@ == name && seen[i].slot == s;
            assert(covered(seen, positions, i));
            let k = choose|k: int|
                0 <= k < positions.len() && seen[#[trigger] positions[k] as int].name@ == seen[i].name@;
            assert(sighted(seen, seen[positions[k] as int].name@, slot));
        }
    }
}

/// Removes the records of all slots more than `threshold` behind the latest.
pub fn cleanup_websocket_db_with_threshold(store: &mut SlotStore, threshold: u64)
    requires
        old(store).wf(),
    ensures
        final(store).wf(),
        final(store).loaded() == old(store).loaded(),
        final(store).contents() == cleaned(old(store).contents(), threshold),
        final(store).pending() == old(store).pending() + deletes(
            cleaned_away(old(store).contents(), old(store).keys(), threshold),
        ),
{
    match get_latest_websocket_slot(store) {
        None => {
            assert(store.pending() =~= old(store).pending() + deletes(Seq::<Seq<u8>>::empty()));
        },
        Some(latest) => {
            store.delete_below(latest.saturating_sub(threshold));
        },
    }
}

/// Removes the records of all slots more than [`RETAINED_SLOTS`] behind the
/// latest.
pub fn cleanup_websocket_db(store: &mut SlotStore)
    requires
        old(store).wf(),
    ensures
        final(store).wf(),
        final(store).loaded() == old(store).loaded(),
        final(store).contents() == cleaned(old(store).contents(), RETAINED_SLOTS),
        final(store).pending() == old(store).pending() + deletes(
            cleaned_away(old(store).contents(), old(store).keys(), RETAINED_SLOTS),
        ),
{
    cleanup_websocket_db_with_threshold(store, RETAINED_SLOTS)
}

/// Where any slot from `min_slot` on is common to all endpoints, there is an
/// earliest one; otherwise there is none.
pub proof fn law_earliest_common_slot_exists(contents: Contents, min_slot: u64)
    ensures
        match earliest_common_slot(contents, min_slot) {
            Some(earliest) => {
                &&& earliest >= min_slot
                &&& is_common(contents, min_slot, earliest)
                &&& forall|slot: u64| #[trigger] is_common(contents, min_slot, slot) ==> earliest <= slot
            },
            None => forall|slot: u64| !is_common(contents, min_slot, slot),
        },
{
    if exists|slot: u64| is_common(contents, min_slot, slot) {
        let slot = choose|slot: u64| is_common(contents, min_slot, slot);
        lemma_earliest_common_exists(contents, min_slot, slot);
    }
}

proof fn lemma_earliest_common_exists(contents: Contents, min_slot: u64, slot: u64)
    requires
        is_common(contents, min_slot, slot),
    ensures
        exists|earliest: u64| is_earliest_common(contents, min_slot, earliest),
    decreases slot,
{
    if exists|other: u64| #[trigger] is_common(contents, min_slot, other) && other < slot {
        let other = choose|other: u64| #[trigger] is_common(contents, min_slot, other) && other < slot;
        lemma_earliest_common_exists(contents, min_slot, other);
    } else {
        assert(is_earliest_common(contents, min_slot, slot));
    }
}

/// The earliest common slot is stored of every endpoint of which any slot is
/// stored.
pub proof fn law_common_slot_is_stored_of_every_endpoint(
    contents: Contents,
    min_slot: u64,
    name: Seq<char>,
    slot: u64,
)
    requires
        plain_name(name),
        contents.contains_key(slot_key(name, slot)),
    ensures
        earliest_common_slot(contents, min_slot) matches Some(earliest) ==> earliest >= min_slot && exists|key: Seq<u8>|
            #[trigger] contents.contains_key(key) && slot_entry(key) == Some((encode_utf8(name), earliest)),
{
    law_slot_key_reads_back(name, slot);
    law_earliest_common_slot_exists(contents, min_slot);
    let bytes = encode_utf8(name);
    assert(reports(contents, bytes, slot));
    assert(is_known(contents, bytes));
}

/// The latest slot is stored, and no slot that is stored under a nickname without
/// a colon is later.
pub proof fn law_latest_slot_is_the_highest(contents: Contents, name: Seq<char>, slot: u64)
    requires
        plain_name(name),
        contents.contains_key(slot_key(name, slot)),
    ensures
        latest_slot(contents) matches Some(latest) && latest >= slot && exists|key: Seq<u8>| #[trigger]
            contents.contains_key(key) && (slot_entry(key) matches Some((_, s)) && s == latest),
{
    let key = slot_key(name, slot);
    law_slot_key_reads_back(name, slot);
    law_both_readings_agree(key);
    lemma_latest_exists(contents, key, slot);
    let latest = latest_slot(contents)->0;
    assert(is_latest(contents, latest));
    let k = choose|k: Seq<u8>| #[trigger] contents.contains_key(k) && two_part_slot(k) == Some(latest);
    law_both_readings_agree(k);
}

/// Stores with the same keys have the same slots.
pub proof fn law_slots_are_those_of_the_keys(a: Contents, b: Contents, min_slot: u64)
    requires
        a.dom() == b.dom(),
    ensures
        latest_slot(a) == latest_slot(b),
        earliest_common_slot(a, min_slot) == earliest_common_slot(b, min_slot),
{
    assert forall|key: Seq<u8>| #[trigger] a.contains_key(key) <==> b.contains_key(key) by {}
    assert forall|slot: u64| #[trigger] is_latest(a, slot) implies is_latest(b, slot) by {
        let key = choose|key: Seq<u8>| #[trigger] a.contains_key(key) && two_part_slot(key) == Some(slot);
        assert(b.contains_key(key));
        assert forall|k: Seq<u8>| #[trigger] b.contains_key(k) implies (two_part_slot(k) matches Some(s) ==> s <= slot) by {
            assert(a.contains_key(k));
        }
    }
    assert forall|slot: u64| #[trigger] is_latest(b, slot) implies is_latest(a, slot) by {
        let key = choose|key: Seq<u8>| #[trigger] b.contains_key(key) && two_part_slot(key) == Some(slot);
        assert(a.contains_key(key));
    }
    if let Some(slot) = latest_slot(a) {
        assert(is_latest(a, slot));
        lemma_latest(b, slot);
    }
    assert forall|name: Seq<u8>, slot: u64| #[trigger] reports(a, name, slot) <==> reports(b, name, slot) by {
        if reports(a, name, slot) {
            let key = choose|key: Seq<u8>| #[trigger] a.contains_key(key) && slot_entry(key) == Some((name, slot));
            assert(b.contains_key(key));
        }
        if reports(b, name, slot) {
            let key = choose|key: Seq<u8>| #[trigger] b.contains_key(key) && slot_entry(key) == Some((name, slot));
            assert(a.contains_key(key));
        }
    }
    assert forall|name: Seq<u8>| #[trigger] is_known(a, name) <==> is_known(b, name) by {
        if is_known(b, name) {
            let slot = choose|slot: u64| #[trigger] reports(b, name, slot);
            assert(reports(a, name, slot));
        }
    }
    assert forall|slot: u64| #[trigger] is_common(a, min_slot, slot) <==> is_common(b, min_slot, slot) by {
        if is_common(a, min_slot, slot) {
            lemma_common_by_reports(a, b, min_slot, slot);
        }
        if is_common(b, min_slot, slot) {
            lemma_common_by_reports(b, a, min_slot, slot);
        }
    }
    if let Some(slot) = earliest_common_slot(a, min_slot) {
        assert(is_earliest_common(a, min_slot, slot));
        assert forall|other: u64| #[trigger] is_common(b, min_slot, other) implies slot <= other by {
            assert(is_common(a, min_slot, other));
        }
        lemma_earliest_common(b, min_slot, slot);
    } else if let Some(slot) = earliest_common_slot(b, min_slot) {
        assert(is_earliest_common(b, min_slot, slot));
        assert(is_common(a, min_slot, slot));
        assert(is_earliest_common(a, min_slot, slot));
    }
}

proof fn lemma_common_by_reports(a: Contents, b: Contents, min_slot: u64, slot: u64)
    requires
        forall|name: Seq<u8>, slot: u64| reports(a, name, slot) <==> reports(b, name, slot),
        is_common(a, min_slot, slot),
    ensures
        is_common(b, min_slot, slot),
{
    let name = choose|name: Seq<u8>| is_known(a, name);
    let s = choose|s: u64| #[trigger] reports(a, name, s);
    assert(reports(b, name, s));
    assert(is_known(b, name));
    assert forall|n: Seq<u8>| #[trigger] is_known(b, n) implies reports(b, n, slot) by {
        let t = choose|t: u64| #[trigger] reports(b, n, t);
        assert(reports(a, n, t));
        assert(is_known(a, n));
        assert(reports(a, n, slot));
    }
}

/// Cleaning up leaves the latest slot the latest.
pub proof fn law_cleanup_keeps_the_latest_slot(contents: Contents, threshold: u64)
    ensures
        latest_slot(cleaned(contents, threshold)) == latest_slot(contents),
{
    if let Some(latest) = latest_slot(contents) {
        let left = cleaned(contents, threshold);
        assert(is_latest(contents, latest));
        let key = choose|key: Seq<u8>| #[trigger] contents.contains_key(key) && two_part_slot(key) == Some(latest);
        law_both_readings_agree(key);
        assert(left.contains_key(key));
        assert(is_latest(left, latest)) by {
            assert forall|k: Seq<u8>| #[trigger] left.contains_key(k) implies (two_part_slot(k) matches Some(s) ==> s
                <= latest) by {
                assert(contents.contains_key(k));
            }
        }
        lemma_latest(left, latest);
    }
}

/// Cleaning up twice does no more than cleaning up once.
pub proof fn law_cleanup_is_idempotent(contents: Contents, threshold: u64)
    ensures
        cleaned(cleaned(contents, threshold), threshold) == cleaned(contents, threshold),
{
    law_cleanup_keeps_the_latest_slot(contents, threshold);
    let once = cleaned(contents, threshold);
    assert(cleaned(once, threshold) =~= once);
}

/// Cleaning up removes a record exactly where its slot is more than
/// `threshold` behind the latest, and changes no other.
pub proof fn law_cleanup_removes_only_old_slots(contents: Contents, threshold: u64, key: Seq<u8>)
    requires
        contents.contains_key(key),
    ensures
        cleaned(contents, threshold).contains_key(key) <==> (slot_entry(key) matches Some((_, slot)) ==> (
        latest_slot(contents) matches Some(latest) ==> slot + threshold >= latest)),
        cleaned(contents, threshold).contains_key(key) ==> cleaned(contents, threshold)[key] == contents[key],
{
}

/// A slot that is stored of every endpoint of which any is stored, and that is
/// not below the minimum, is not passed over for a later one.
pub proof fn law_shared_slots_are_not_passed_over(contents: Contents, min_slot: u64, slot: u64, key: Seq<u8>)
    requires
        slot >= min_slot,
        contents.contains_key(key),
        slot_entry(key) is Some,
        forall|k: Seq<u8>| #[trigger]
            contents.contains_key(k) ==> (slot_entry(k) matches Some((name, _)) ==> exists|same: Seq<u8>| #[trigger]
                contents.contains_key(same) && slot_entry(same) == Some((name, slot))),
    ensures
        earliest_common_slot(contents, min_slot) matches Some(earliest) && min_slot <= earliest <= slot,
{
    let (name, known) = slot_entry(key)->0;
    assert(reports(contents, name, known));
    assert(is_known(contents, name));
    assert forall|other: Seq<u8>| #[trigger] is_known(contents, other) implies reports(contents, other, slot) by {
        let s = choose|s: u64| #[trigger] reports(contents, other, s);
        let k = choose|k: Seq<u8>| #[trigger] contents.contains_key(k) && slot_entry(k) == Some((other, s));
        assert(contents.contains_key(k));
    }
    assert(is_common(contents, min_slot, slot));
    law_earliest_common_slot_exists(contents, min_slot);
}

/// A cleanup keeps a slot exactly where it is at most 500 behind the latest one.
pub proof fn law_cleanup_keeps_five_hundred_slots(
    contents: Contents,
    latest: u64,
    key: Seq<u8>,
    name: Seq<u8>,
    slot: u64,
)
    requires
        latest_slot(contents) == Some(latest),
        contents.contains_key(key),
        slot_entry(key) == Some((name, slot)),
    ensures
        cleaned(contents, RETAINED_SLOTS).contains_key(key) <==> slot + 500 >= latest,
{
    law_cleanup_removes_only_old_slots(contents, RETAINED_SLOTS, key);
}

} // verus!

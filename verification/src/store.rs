//! The slot updates of all endpoints, as they were read from the database, and
//! the changes that have to be written back to it.
use crate::bytes::{prefix, same_bytes};
use crate::keys::{make_slot_key, read_slot_entry, slot_entry, slot_key};
use crate::update::{SlotUpdate, SlotUpdateView};
use vstd::prelude::*;

verus! {

/// A stored record. The update is `None` where the stored value is no update.
#[derive(Debug)]
pub struct SlotRecord {
    pub key: Vec<u8>,
    pub update: Option<SlotUpdate>,
}

/// A change to the database.
#[derive(Debug)]
pub enum StoreWrite {
    Put { key: Vec<u8>, update: SlotUpdate },
    Delete { key: Vec<u8> },
}

/// A [`StoreWrite`] over views.
pub enum WriteView {
    Put { key: Seq<u8>, update: SlotUpdateView },
    Delete { key: Seq<u8> },
}

impl View for StoreWrite {
    type V = WriteView;

    open spec fn view(&self) -> WriteView {
        match *self {
            StoreWrite::Put { key, update } => WriteView::Put { key: key@, update: update@ },
            StoreWrite::Delete { key } => WriteView::Delete { key: key@ },
        }
    }
}

/// What is stored under each key: an update, or a value that is none.
pub type Contents = Map<Seq<u8>, Option<SlotUpdateView>>;

/// The view of an update that may be missing.
pub open spec fn update_view(update: Option<SlotUpdate>) -> Option<SlotUpdateView> {
    match update {
        Some(u) => Some(u@),
        None => None,
    }
}

/// What a list of records holds; of two with one key, the later counts.
pub open spec fn contents_of(records: Seq<SlotRecord>) -> Contents
    decreases records.len(),
{
    if records.len() == 0 {
        Map::empty()
    } else {
        contents_of(records.drop_last()).insert(
            records.last().key@,
            update_view(records.last().update),
        )
    }
}

/// The contents after a change.
pub open spec fn after_write(contents: Contents, write: WriteView) -> Contents {
    match write {
        WriteView::Put { key, update } => contents.insert(key, Some(update)),
        WriteView::Delete { key } => contents.remove(key),
    }
}

/// The contents after a row of changes.
pub open spec fn after_writes(contents: Contents, writes: Seq<WriteView>) -> Contents
    decreases writes.len(),
{
    if writes.len() == 0 {
        contents
    } else {
        after_write(after_writes(contents, writes.drop_last()), writes.last())
    }
}

/// The update stored under a key.
pub open spec fn lookup(contents: Contents, key: Seq<u8>) -> Option<SlotUpdateView> {
    if contents.contains_key(key) {
        contents[key]
    } else {
        None
    }
}

/// Whether a key belongs to a slot below `min_slot`.
pub open spec fn is_outdated(key: Seq<u8>, min_slot: u64) -> bool {
    slot_entry(key) matches Some((_, slot)) && slot < min_slot
}

/// The keys that belong to a slot below `min_slot`.
pub open spec fn outdated_keys(keys: Seq<Seq<u8>>, min_slot: u64) -> Seq<Seq<u8>> {
    keys.filter(|key: Seq<u8>| is_outdated(key, min_slot))
}

/// The contents without the keys of slots below `min_slot`.
pub open spec fn without_outdated(contents: Contents, min_slot: u64) -> Contents {
    Map::new(
        |key: Seq<u8>| contents.contains_key(key) && !is_outdated(key, min_slot),
        |key: Seq<u8>| contents[key],
    )
}

/// The removal of each of some keys.
pub open spec fn deletes(keys: Seq<Seq<u8>>) -> Seq<WriteView> {
    keys.map_values(|key: Seq<u8>| WriteView::Delete { key })
}

/// Whether `now` is `before` without some keys of slots below `min_slot`.
spec fn is_trimmed(before: Contents, now: Contents, min_slot: u64) -> bool {
    &&& forall|key: Seq<u8>| #[trigger]
        now.contains_key(key) ==> before.contains_key(key) && now[key] == before[key]
    &&& forall|key: Seq<u8>| #[trigger]
        before.contains_key(key) && !now.contains_key(key) ==> is_outdated(key, min_slot)
}

proof fn lemma_trim(before: Contents, now: Contents, min_slot: u64, key: Seq<u8>)
    requires
        is_trimmed(before, now, min_slot),
        is_outdated(key, min_slot),
    ensures
        is_trimmed(before, now.remove(key), min_slot),
{
    let next = now.remove(key);
    assert forall|k: Seq<u8>| #[trigger] next.contains_key(k) implies before.contains_key(k)
        && next[k] == before[k] by {
        assert(now.contains_key(k));
    }
}

proof fn lemma_trimmed(before: Contents, now: Contents, min_slot: u64)
    requires
        is_trimmed(before, now, min_slot),
        forall|key: Seq<u8>| #[trigger] now.contains_key(key) ==> !is_outdated(key, min_slot),
    ensures
        now == without_outdated(before, min_slot),
{
    let kept = without_outdated(before, min_slot);
    assert forall|key: Seq<u8>| now.contains_key(key) <==> kept.contains_key(key) by {
        assert(kept.contains_key(key) ==> before.contains_key(key));
    }
    assert(now =~= kept);
}

/// Changes in two rows do the same as changes in one.
pub proof fn lemma_after_writes_concat(contents: Contents, a: Seq<WriteView>, b: Seq<WriteView>)
    ensures
        after_writes(contents, a + b) == after_writes(after_writes(contents, a), b),
    decreases b.len(),
{
    if b.len() == 0 {
        assert(a + b =~= a);
    } else {
        lemma_after_writes_concat(contents, a, b.drop_last());
        assert((a + b).drop_last() =~= a + b.drop_last());
    }
}

/// A record that is loaded is found under its key, unless a later one has the
/// same.
pub proof fn law_loaded_records_are_found(records: Seq<SlotRecord>, i: int)
    requires
        0 <= i < records.len(),
        forall|j: int| i < j < records.len() ==> (#[trigger] records[j]).key@ != records[i].key@,
    ensures
        contents_of(records).contains_key(records[i].key@),
        contents_of(records)[records[i].key@] is None <==> records[i].update is None,
        records[i].update matches Some(update) ==> (contents_of(records)[records[i].key@] matches Some(found) && {
            &&& found.timestamp == update.timestamp@
            &&& found.nickname == update.nickname@
            &&& found.slot_info == update.slot_info
            &&& found.delay is None <==> update.delay is None
            &&& update.delay matches Some(delay) ==> found.delay == Some(delay@)
        }),
    decreases records.len(),
{
    let rest = records.drop_last();
    let n = records.len() - 1;
    if i < n {
        assert(records[n].key@ != records[i].key@);
        assert forall|j: int| i < j < rest.len() implies (#[trigger] rest[j]).key@ != rest[i].key@ by {
            assert(rest[j] == records[j]);
        }
        law_loaded_records_are_found(rest, i);
        assert(rest[i] == records[i]);
    }
}

/// No key is found that is not that of a record.
pub proof fn law_only_loaded_records_are_found(records: Seq<SlotRecord>, key: Seq<u8>)
    requires
        contents_of(records).contains_key(key),
    ensures
        exists|i: int| 0 <= i < records.len() && (#[trigger] records[i]).key@ == key,
    decreases records.len(),
{
    if records.len() > 0 {
        let rest = records.drop_last();
        let n = records.len() - 1;
        if records[n].key@ != key {
            law_only_loaded_records_are_found(rest, key);
            let i = choose|i: int| 0 <= i < rest.len() && (#[trigger] rest[i]).key@ == key;
            assert(records[i] == rest[i]);
        }
    }
}

/// A stored update is found under its key, a removed one is not, and other keys
/// hold what they held.
pub proof fn law_changes_take_effect(contents: Contents, key: Seq<u8>, update: SlotUpdateView, other: Seq<u8>)
    ensures
        lookup(after_write(contents, WriteView::Put { key, update }), key) == Some(update),
        !after_write(contents, WriteView::Delete { key }).contains_key(key),
        other != key ==> {
            let put = after_write(contents, WriteView::Put { key, update });
            let deleted = after_write(contents, WriteView::Delete { key });
            &&& put.contains_key(other) == contents.contains_key(other)
            &&& deleted.contains_key(other) == contents.contains_key(other)
            &&& contents.contains_key(other) ==> put[other] == contents[other] && deleted[other] == contents[other]
        },
{
}

/// The updates of all endpoints.
pub struct SlotStore {
    records: Vec<SlotRecord>,
    writes: Vec<StoreWrite>,
    loaded: Ghost<Contents>,
}

impl SlotStore {
    /// What the store holds.
    pub closed spec fn contents(&self) -> Contents {
        Map::new(
            |key: Seq<u8>| self.keys().contains(key),
            |key: Seq<u8>| update_view(self.records@[self.index_of(key)].update),
        )
    }

    /// The changes that have not been handed out yet.
    pub closed spec fn pending(&self) -> Seq<WriteView> {
        self.writes@.map_values(|w: StoreWrite| w@)
    }

    /// What the database holds: the contents before the pending changes.
    pub closed spec fn loaded(&self) -> Contents {
        self.loaded@
    }

    /// The keys in the order of the records.
    pub closed spec fn keys(&self) -> Seq<Seq<u8>> {
        self.records@.map_values(|r: SlotRecord| r.key@)
    }

    spec fn index_of(&self, key: Seq<u8>) -> int {
        choose|i: int| 0 <= i < self.records@.len() && self.records@[i].key@ == key
    }

    spec fn distinct(&self) -> bool {
        forall|i: int, j: int|
            0 <= i < j < self.records@.len() ==> self.records@[i].key@ != self.records@[j].key@
    }

    /// No key stands in the store twice, and the pending changes turn what the
    /// database holds into what the store holds.
    pub closed spec fn wf(&self) -> bool {
        &&& self.distinct()
        &&& self.contents() == after_writes(self.loaded(), self.pending())
    }

    /// A well-formed store lists each of its keys once.
    pub proof fn lemma_keys(&self)
        requires
            self.wf(),
        ensures
            self.keys().no_duplicates(),
            forall|i: int|
                0 <= i < self.keys().len() ==> self.contents().contains_key(#[trigger] self.keys()[i]),
            forall|key: Seq<u8>| #[trigger]
                self.contents().contains_key(key) ==> self.keys().contains(key),
    {
        assert forall|i: int, j: int| 0 <= i < self.keys().len() && 0 <= j < self.keys().len() && i
            != j implies self.keys()[i] != self.keys()[j] by {
            if i < j {
                assert(self.records@[i].key@ != self.records@[j].key@);
            } else {
                assert(self.records@[j].key@ != self.records@[i].key@);
            }
        }
    }

    /// Applying the pending changes to the database makes it hold what the
    /// store holds.
    pub proof fn law_pending_writes_bring_the_database_up_to_date(&self)
        requires
            self.wf(),
        ensures
            after_writes(self.loaded(), self.pending()) == self.contents(),
    {
    }

    proof fn lemma_at(&self, i: int)
        requires
            self.distinct(),
            0 <= i < self.records@.len(),
        ensures
            self.contents().contains_key(self.records@[i].key@),
            self.contents()[self.records@[i].key@] == update_view(self.records@[i].update),
            self.index_of(self.records@[i].key@) == i,
    {
        let key = self.records@[i].key@;
        assert(self.keys()[i] == key);
        let j = self.index_of(key);
        assert(j == i);
    }

    fn position(&self, key: &[u8]) -> (at: Option<usize>)
        requires
            self.distinct(),
        ensures
            match at {
                Some(i) => i < self.records@.len() && self.records@[i as int].key@ == key@,
                None => !self.contents().contains_key(key@),
            },
    {
        let mut i: usize = 0;
        while i < self.records.len()
            invariant
                i <= self.records@.len(),
                forall|j: int| 0 <= j < i ==> (#[trigger] self.records@[j]).key@ != key@,
            decreases self.records@.len() - i,
        {
            if same_bytes(self.records[i].key.as_slice(), key) {
                return Some(i);
            }
            i = i + 1;
        }
        proof {
            if self.contents().contains_key(key@) {
                let j = choose|j: int| 0 <= j < self.keys().len() && self.keys()[j] == key@;
                assert(self.records@[j].key@ == key@);
            }
        }
        None
    }

    /// Stores a record without noting a change.
    fn set(&mut self, key: Vec<u8>, update: Option<SlotUpdate>)
        requires
            old(self).distinct(),
        ensures
            final(self).distinct(),
            final(self).contents() == old(self).contents().insert(key@, update_view(update)),
            final(self).pending() == old(self).pending(),
            final(self).loaded() == old(self).loaded(),
    {
        let ghost before = *self;
        let ghost k = key@;
        let ghost v = update_view(update);
        match self.position(key.as_slice()) {
            Some(i) => {
                self.records[i] = SlotRecord { key, update };
                assert(self.keys() =~= before.keys());
                assert(self.distinct()) by {
                    assert forall|a: int, b: int| 0 <= a < b < self.records@.len() implies self.records@[a].key@
                        != self.records@[b].key@ by {
                        assert(before.records@[a].key@ != before.records@[b].key@);
                    }
                }
                assert forall|key: Seq<u8>| self.contents().contains_key(key) implies self.contents()[key]
                    == before.contents().insert(k, v)[key] by {
                    let j = choose|j: int| 0 <= j < self.keys().len() && self.keys()[j] == key;
                    self.lemma_at(j);
                    before.lemma_at(j);
                }
                proof {
                    before.lemma_at(i as int);
                }
                assert(self.contents() =~= before.contents().insert(k, v));
            },
            None => {
                let ghost n = self.records@.len();
                self.records.push(SlotRecord { key, update });
                assert(self.keys() =~= before.keys().push(k));
                assert(self.distinct()) by {
                    assert forall|a: int, b: int| 0 <= a < b < self.records@.len() implies self.records@[a].key@
                        != self.records@[b].key@ by {
                        before.lemma_at(a);
                        if b < n {
                            assert(before.records@[a].key@ != before.records@[b].key@);
                        }
                    }
                }
                assert forall|key: Seq<u8>| self.contents().contains_key(key) <==> before.contents().insert(k, v).contains_key(key) by {
                    if before.keys().contains(key) {
                        let j = choose|j: int| 0 <= j < before.keys().len() && before.keys()[j] == key;
                        assert(self.keys()[j] == key);
                    }
                    if key == k {
                        assert(self.keys()[n as int] == k);
                    }
                    if self.keys().contains(key) && key != k {
                        let j = choose|j: int| 0 <= j < self.keys().len() && self.keys()[j] == key;
                        assert(before.keys()[j] == key);
                    }
                }
                assert forall|key: Seq<u8>| self.contents().contains_key(key) implies self.contents()[key]
                    == before.contents().insert(k, v)[key] by {
                    let j = choose|j: int| 0 <= j < self.keys().len() && self.keys()[j] == key;
                    self.lemma_at(j);
                    if j < n {
                        before.lemma_at(j);
                    }
                }
                assert(self.contents() =~= before.contents().insert(k, v));
            },
        }
    }

    /// The store of the records that the database holds.
    pub fn load(records: Vec<SlotRecord>) -> (store: SlotStore)
        ensures
            store.wf(),
            store.contents() == contents_of(records@),
            store.loaded() == contents_of(records@),
            store.pending() == Seq::<WriteView>::empty(),
    {
        let mut store = SlotStore {
            records: Vec::new(),
            writes: Vec::new(),
            loaded: Ghost(contents_of(records@)),
        };
        let ghost all = records@;
        assert(store.contents() =~= contents_of(all.take(0)));
        assert(store.pending() =~= Seq::<WriteView>::empty());
        let mut i: usize = 0;
        while i < records.len()
            invariant
                i <= records@.len(),
                records@ == all,
                store.distinct(),
                store.contents() == contents_of(all.take(i as int)),
                store.loaded() == contents_of(all),
                store.pending() == Seq::<WriteView>::empty(),
            decreases records@.len() - i,
        {
            let record = &records[i];
            let key = prefix(record.key.as_slice(), record.key.len());
            assert(key@ =~= record.key@);
            let update = match &record.update {
                Some(u) => Some(u.clone()),
                None => None,
            };
            store.set(key, update);
            i = i + 1;
            assert(all.take(i as int).drop_last() =~= all.take(i - 1));
        }
        assert(all.take(i as int) =~= all);
        store
    }

    /// The update that the endpoint `nickname` sent for `slot`.
    pub fn get(&self, nickname: &str, slot: u64) -> (update: Option<&SlotUpdate>)
        requires
            self.wf(),
        ensures
            match update {
                Some(u) => lookup(self.contents(), slot_key(nickname@, slot)) == Some(u@),
                None => lookup(self.contents(), slot_key(nickname@, slot)) is None,
            },
    {
        let key = make_slot_key(nickname, slot);
        match self.position(key.as_slice()) {
            Some(i) => {
                proof {
                    self.lemma_at(i as int);
                }
                match &self.records[i].update {
                    Some(u) => Some(u),
                    None => None,
                }
            },
            None => None,
        }
    }

    /// Stores the update of the endpoint `nickname` for `slot`.
    pub fn put(&mut self, nickname: &str, slot: u64, update: SlotUpdate)
        requires
            old(self).wf(),
        ensures
            final(self).wf(),
            final(self).loaded() == old(self).loaded(),
            ({
                let key = slot_key(nickname@, slot);
                &&& final(self).contents() == old(self).contents().insert(key, Some(update@))
                &&& final(self).pending() == old(self).pending().push(
                    WriteView::Put { key, update: update@ },
                )
            }),
    {
        let ghost before = *self;
        let key = make_slot_key(nickname, slot);
        let copy = update.clone();
        let write = StoreWrite::Put { key: make_slot_key(nickname, slot), update: copy };
        let ghost view = write@;
        self.set(key, Some(update));
        let ghost middle = *self;
        self.writes.push(write);
        proof {
            assert(self.keys() =~= middle.keys());
            assert(self.contents() =~= middle.contents()) by {
                assert forall|key: Seq<u8>| self.keys().contains(key) implies self.contents()[key]
                    == middle.contents()[key] by {
                    let j = choose|j: int| 0 <= j < self.keys().len() && self.keys()[j] == key;
                    self.lemma_at(j);
                    middle.lemma_at(j);
                }
            }
            assert(self.pending() =~= before.pending().push(view));
            assert(self.pending().drop_last() =~= before.pending());
        }
    }

    /// Removes the record at position `i`.
    fn delete_at(&mut self, i: usize)
        requires
            old(self).wf(),
            i < old(self).keys().len(),
        ensures
            final(self).wf(),
            final(self).loaded() == old(self).loaded(),
            final(self).keys() == old(self).keys().remove(i as int),
            final(self).contents() == old(self).contents().remove(old(self).keys()[i as int]),
            final(self).pending() == old(self).pending().push(
                WriteView::Delete { key: old(self).keys()[i as int] },
            ),
    {
        let ghost before = *self;
        let ghost k = self.keys()[i as int];
        let record = self.records.remove(i);
        let ghost middle = *self;
        self.writes.push(StoreWrite::Delete { key: record.key });
        proof {
            assert(self.keys() =~= before.keys().remove(i as int));
            assert forall|a: int, b: int| 0 <= a < b < self.records@.len() implies self.records@[a].key@
                != self.records@[b].key@ by {
                let a0 = if a < i { a } else { a + 1 };
                let b0 = if b < i { b } else { b + 1 };
                assert(before.records@[a0].key@ != before.records@[b0].key@);
            }
            before.lemma_keys();
            assert forall|key: Seq<u8>| self.contents().contains_key(key) <==> before.contents().remove(k).contains_key(key) by {
                if self.keys().contains(key) {
                    let j = choose|j: int| 0 <= j < self.keys().len() && self.keys()[j] == key;
                    let j0 = if j < i { j } else { j + 1 };
                    assert(before.keys()[j0] == key);
                }
                if before.keys().contains(key) && key != k {
                    let j0 = choose|j0: int| 0 <= j0 < before.keys().len() && before.keys()[j0] == key;
                    let j = if j0 < i { j0 } else { j0 - 1 };
                    assert(self.keys()[j] == key);
                }
            }
            assert forall|key: Seq<u8>| self.contents().contains_key(key) implies self.contents()[key]
                == before.contents()[key] by {
                let j = choose|j: int| 0 <= j < self.keys().len() && self.keys()[j] == key;
                let j0 = if j < i { j } else { j + 1 };
                self.lemma_at(j);
                before.lemma_at(j0);
            }
            assert(self.contents() =~= before.contents().remove(k));
            assert(self.pending() =~= before.pending().push(WriteView::Delete { key: k }));
            assert(self.pending().drop_last() =~= before.pending());
        }
    }

    /// Removes every record of a slot below `min_slot`, in the order of the
    /// records.
    pub fn delete_below(&mut self, min_slot: u64)
        requires
            old(self).wf(),
        ensures
            final(self).wf(),
            final(self).loaded() == old(self).loaded(),
            final(self).contents() == without_outdated(old(self).contents(), min_slot),
            final(self).pending() == old(self).pending() + deletes(
                outdated_keys(old(self).keys(), min_slot),
            ),
    {
        let ghost before = *self;
        let ghost all = self.keys();
        let ghost bad = |key: Seq<u8>| is_outdated(key, min_slot);
        let ghost good = |key: Seq<u8>| !is_outdated(key, min_slot);
        let ghost mut done: int = 0;
        let mut i: usize = 0;
        proof {
            reveal(Seq::filter);
            assert(all.take(0) =~= Seq::<Seq<u8>>::empty());
            assert(all.take(0).filter(good) + all.skip(0) =~= all);
            assert(self.pending() =~= before.pending() + deletes(all.take(0).filter(bad)));
        }
        while i < self.count()
            invariant
                self.wf(),
                self.loaded() == before.loaded(),
                all == before.keys(),
                bad == (|key: Seq<u8>| is_outdated(key, min_slot)),
                good == (|key: Seq<u8>| !is_outdated(key, min_slot)),
                0 <= done <= all.len(),
                self.keys() == all.take(done).filter(good) + all.skip(done),
                i == all.take(done).filter(good).len(),
                self.pending() == before.pending() + deletes(all.take(done).filter(bad)),
                is_trimmed(before.contents(), self.contents(), min_slot),
            decreases self.keys().len() - i,
        {
            let ghost step = *self;
            proof {
                reveal(Seq::filter);
                assert(done < all.len());
                assert(all.take(done + 1).drop_last() =~= all.take(done));
                assert(self.keys()[i as int] == all[done]);
            }
            let old_slot = match read_slot_entry(self.key_at(i).as_slice()) {
                Some((_, slot)) => slot < min_slot,
                None => false,
            };
            if old_slot {
                self.delete_at(i);
                proof {
                    lemma_trim(before.contents(), step.contents(), min_slot, all[done]);
                    assert(self.keys() =~= all.take(done + 1).filter(good) + all.skip(done + 1));
                    assert(self.pending() =~= before.pending() + deletes(
                        all.take(done + 1).filter(bad),
                    ));
                }
            } else {
                i = i + 1;
                proof {
                    assert(self.keys() =~= all.take(done + 1).filter(good) + all.skip(done + 1));
                }
            }
            proof {
                done = done + 1;
            }
        }
        proof {
            assert(done == all.len());
            assert(all.take(done) =~= all);
            self.lemma_keys();
            assert forall|key: Seq<u8>| self.contents().contains_key(key) implies !is_outdated(
                key,
                min_slot,
            ) by {
                let j = choose|j: int| 0 <= j < self.keys().len() && self.keys()[j] == key;
                all.lemma_filter_pred(good, j);
            }
            lemma_trimmed(before.contents(), self.contents(), min_slot);
        }
    }

    /// The number of records.
    pub fn count(&self) -> (count: usize)
        ensures
            count == self.keys().len(),
    {
        self.records.len()
    }

    /// The key of a record.
    pub fn key_at(&self, i: usize) -> (key: &Vec<u8>)
        requires
            i < self.keys().len(),
        ensures
            key@ == self.keys()[i as int],
    {
        &self.records[i].key
    }

    /// Hands out the pending changes, for the database to take them.
    pub fn take_pending(&mut self) -> (writes: Vec<StoreWrite>)
        requires
            old(self).wf(),
        ensures
            final(self).wf(),
            writes@.map_values(|w: StoreWrite| w@) == old(self).pending(),
            final(self).pending() == Seq::<WriteView>::empty(),
            final(self).contents() == old(self).contents(),
            final(self).loaded() == old(self).contents(),
    {
        let ghost before = *self;
        let mut writes: Vec<StoreWrite> = Vec::new();
        std::mem::swap(&mut writes, &mut self.writes);
        self.loaded = Ghost(before.contents());
        proof {
            assert(self.keys() =~= before.keys());
            assert(self.contents() =~= before.contents()) by {
                assert forall|key: Seq<u8>| self.keys().contains(key) implies self.contents()[key]
                    == before.contents()[key] by {
                    let j = choose|j: int| 0 <= j < self.keys().len() && self.keys()[j] == key;
                    self.lemma_at(j);
                    before.lemma_at(j);
                }
            }
            assert(self.pending() =~= Seq::<WriteView>::empty());
        }
        writes
    }
}

} // verus!

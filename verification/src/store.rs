//! The store: one series per storage key, kept in memory, and the statements
//! by which a durable store keeps the same series in one table each.

use vstd::prelude::*;
use vstd::string::StringExecFns;
use crate::instant::Instant;
use crate::series::{ascending, holds_instant, readings_within, with_reading, Reading, Series};
use crate::topic::{is_identifier, sanitized, AllowList, StorageKey};

verus! {

/// Why an operation on the store failed.
#[derive(Clone, Copy, Debug, PartialEq, Eq, Structural)]
pub enum StoreError {
    /// The store could not be reached.
    Connection,
    /// The store refused the statement, as it does one that names a series
    /// which was never made.
    Statement,
    /// The series holds a reading of the same timestamp already.
    Conflict,
}

/// A storage key with its series.
#[derive(Debug)]
struct Slot {
    key: StorageKey,
    series: Series,
}

/// The series of all topics, each under its storage key.
#[derive(Debug)]
pub struct TimeSeriesStore {
    slots: Vec<Slot>,
}

impl View for TimeSeriesStore {
    type V = Map<Seq<u8>, Seq<Reading>>;

    closed spec fn view(&self) -> Map<Seq<u8>, Seq<Reading>> {
        Map::new(
            |key: Seq<u8>| self.has_slot(key),
            |key: Seq<u8>| self.slots@[self.slot_of(key)].series@,
        )
    }
}

impl TimeSeriesStore {
    /// Whether some slot has the key `key`.
    closed spec fn has_slot(&self, key: Seq<u8>) -> bool {
        exists|i: int| 0 <= i < self.slots@.len() && (#[trigger] self.slots@[i]).key@ == key
    }

    /// The index of a slot that has the key `key`.
    closed spec fn slot_of(&self, key: Seq<u8>) -> int {
        choose|i: int| 0 <= i < self.slots@.len() && (#[trigger] self.slots@[i]).key@ == key
    }

    /// No two slots have the same key, and each slot is well-formed.
    pub closed spec fn inv(&self) -> bool {
        &&& forall|i: int|
            0 <= i < self.slots@.len() ==> (#[trigger] self.slots@[i]).key.wf()
                && self.slots@[i].series.wf()
        &&& forall|i: int, j: int|
            0 <= i < j < self.slots@.len() ==> (#[trigger] self.slots@[i]).key@
                != (#[trigger] self.slots@[j]).key@
    }

    /// The invariant of a store: every key is an identifier, and every series
    /// ascends.
    pub open spec fn wf(&self) -> bool {
        &&& self.inv()
        &&& forall|key: Seq<u8>| #[trigger]
            self@.contains_key(key) ==> is_identifier(key) && ascending(self@[key])
    }

    /// With the invariant, each slot's key is in the view with its series.
    proof fn lemma_slot(&self, i: int)
        requires
            self.inv(),
            0 <= i < self.slots@.len(),
        ensures
            self@.contains_key(self.slots@[i].key@),
            self@[self.slots@[i].key@] == self.slots@[i].series@,
            self.slot_of(self.slots@[i].key@) == i,
    {
        let key = self.slots@[i].key@;
        assert(self.has_slot(key));
        let j = self.slot_of(key);
        assert(0 <= j < self.slots@.len() && self.slots@[j].key@ == key);
        if j < i {
            assert(self.slots@[j].key@ != self.slots@[i].key@);
        }
        if i < j {
            assert(self.slots@[i].key@ != self.slots@[j].key@);
        }
    }

    /// The internal invariant gives the public one.
    proof fn lemma_inv_is_wf(&self)
        requires
            self.inv(),
        ensures
            self.wf(),
    {
        assert forall|key: Seq<u8>| #[trigger] self@.contains_key(key) implies is_identifier(key)
            && ascending(self@[key]) by {
            let i = self.slot_of(key);
            assert(self.has_slot(key));
            self.lemma_slot(i);
        }
    }

    /// A store without series.
    pub fn new() -> (store: TimeSeriesStore)
        ensures
            store.wf(),
            store@ == Map::<Seq<u8>, Seq<Reading>>::empty(),
    {
        let store = TimeSeriesStore { slots: Vec::new() };
        proof {
            store.lemma_inv_is_wf();
            assert(store@ =~= Map::<Seq<u8>, Seq<Reading>>::empty());
        }
        store
    }

    /// The index of the slot with the key `key`, if there is one.
    fn find(&self, key: &StorageKey) -> (found: Option<usize>)
        requires
            self.inv(),
        ensures
            found is Some <==> self@.contains_key(key@),
            found matches Some(i) ==> i < self.slots@.len() && self.slots@[i as int].key@ == key@
                && self@[key@] == self.slots@[i as int].series@,
    {
        let mut i: usize = 0;
        while i < self.slots.len()
            invariant
                self.inv(),
                i <= self.slots@.len(),
                forall|j: int| 0 <= j < i ==> (#[trigger] self.slots@[j]).key@ != key@,
            decreases self.slots@.len() - i,
        {
            if crate::text::same_bytes(self.slots[i].key.as_bytes(), key.as_bytes()) {
                proof {
                    self.lemma_slot(i as int);
                }
                return Some(i);
            }
            i += 1;
        }
        assert(!self.has_slot(key@));
        None
    }

    /// Whether the store has a series under `key`.
    pub fn has_series(&self, key: &StorageKey) -> (held: bool)
        requires
            self.wf(),
        ensures
            held == self@.contains_key(key@),
    {
        self.find(key).is_some()
    }

    /// Makes an empty series under `key` unless there is a series under it
    /// already.
    pub fn ensure_series(&mut self, key: &StorageKey)
        requires
            old(self).wf(),
            key.wf(),
        ensures
            final(self).wf(),
            final(self)@ == (if old(self)@.contains_key(key@) {
                old(self)@
            } else {
                old(self)@.insert(key@, Seq::<Reading>::empty())
            }),
    {
        if self.find(key).is_some() {
            return ;
        }
        let ghost before = *self;
        self.slots.push(Slot { key: key.clone(), series: Series::new() });
        proof {
            let n = before.slots@.len() as int;
            assert forall|i: int| 0 <= i < n implies self.slots@[i] == before.slots@[i] by {}
            assert forall|i: int| 0 <= i < n implies (#[trigger] self.slots@[i]).key@ != key@ by {
                assert(before.slots@[i].key@ == self.slots@[i].key@);
                if before.slots@[i].key@ == key@ {
                    assert(before.has_slot(key@));
                }
            }
            assert(self.inv());
            self.lemma_inv_is_wf();
            let target = before@.insert(key@, Seq::<Reading>::empty());
            assert forall|k: Seq<u8>| self@.contains_key(k) <==> target.contains_key(k) by {
                if self.has_slot(k) {
                    let i = self.slot_of(k);
                    if i < n {
                        assert(before.slots@[i].key@ == k);
                    }
                }
                if before.has_slot(k) {
                    let i = before.slot_of(k);
                    assert(self.slots@[i].key@ == k);
                }
                if k == key@ {
                    assert(self.slots@[n].key@ == k);
                }
            }
            assert forall|k: Seq<u8>| self@.contains_key(k) implies self@[k] == target[k] by {
                let i = self.slot_of(k);
                self.lemma_slot(i);
                if i < n {
                    before.lemma_slot(i);
                }
            }
            assert(self@ =~= target);
        }
    }

    /// Whether `key` is the storage key of one of the first `n` subtopics.
    pub open spec fn is_key_of(subtopics: Seq<Seq<u8>>, n: int, key: Seq<u8>) -> bool {
        exists|i: int| 0 <= i < n && sanitized(#[trigger] subtopics[i]) == key
    }

    /// Makes an empty series for every listed subtopic that has none. The
    /// series that were there stay as they were.
    pub fn ensure_all(&mut self, topics: &AllowList)
        requires
            old(self).wf(),
            topics.wf(),
        ensures
            final(self).wf(),
            forall|key: Seq<u8>| #[trigger]
                final(self)@.contains_key(key) <==> old(self)@.contains_key(key) || Self::is_key_of(
                    topics.subtopics(),
                    topics.subtopics().len() as int,
                    key,
                ),
            forall|key: Seq<u8>| #[trigger]
                final(self)@.contains_key(key) ==> final(self)@[key] == (if old(self)@.contains_key(
                    key,
                ) {
                    old(self)@[key]
                } else {
                    Seq::<Reading>::empty()
                }),
    {
        let ghost before = self@;
        let mut i: usize = 0;
        while i < topics.len()
            invariant
                self.wf(),
                topics.wf(),
                i <= topics.subtopics().len(),
                forall|key: Seq<u8>| #[trigger]
                    self@.contains_key(key) <==> before.contains_key(key) || Self::is_key_of(
                        topics.subtopics(),
                        i as int,
                        key,
                    ),
                forall|key: Seq<u8>| #[trigger]
                    self@.contains_key(key) ==> self@[key] == if before.contains_key(key) {
                        before[key]
                    } else {
                        Seq::<Reading>::empty()
                    },
            decreases topics.subtopics().len() - i,
        {
            let ghost earlier = self@;
            let key = topics.key(i);
            self.ensure_series(key);
            proof {
                assert forall|k: Seq<u8>| #[trigger]
                    self@.contains_key(k) <==> before.contains_key(k) || Self::is_key_of(
                        topics.subtopics(),
                        i + 1,
                        k,
                    ) by {
                    if Self::is_key_of(topics.subtopics(), i + 1, k) {
                        let j = choose|j: int|
                            0 <= j < i + 1 && sanitized(#[trigger] topics.subtopics()[j]) == k;
                        if j < i {
                            assert(Self::is_key_of(topics.subtopics(), i as int, k));
                        }
                    }
                    if self@.contains_key(k) && !earlier.contains_key(k) {
                        assert(sanitized(topics.subtopics()[i as int]) == k);
                    }
                    if Self::is_key_of(topics.subtopics(), i as int, k) {
                        let j = choose|j: int|
                            0 <= j < i && sanitized(#[trigger] topics.subtopics()[j]) == k;
                        assert(sanitized(topics.subtopics()[j]) == k);
                    }
                }
            }
            i += 1;
        }
    }

    /// Appends a reading to the series under `key`. The store stays as it was
    /// where there is no such series, or where the series holds a reading of
    /// the same timestamp.
    pub fn append(&mut self, key: &StorageKey, timestamp: Instant, value: u32) -> (outcome: Result<
        (),
        StoreError,
    >)
        requires
            old(self).wf(),
        ensures
            final(self).wf(),
            !old(self)@.contains_key(key@) ==> outcome == Err::<(), StoreError>(
                StoreError::Statement,
            ) && final(self)@ == old(self)@,
            old(self)@.contains_key(key@) && holds_instant(old(self)@[key@], timestamp) ==> outcome
                == Err::<(), StoreError>(StoreError::Conflict) && final(self)@ == old(self)@,
            old(self)@.contains_key(key@) && !holds_instant(old(self)@[key@], timestamp)
                ==> outcome is Ok && final(self)@ == old(self)@.insert(
                key@,
                with_reading(old(self)@[key@], (Reading { timestamp, value })),
            ),
    {
        let index = match self.find(key) {
            Some(index) => index,
            None => {
                return Err(StoreError::Statement);
            },
        };
        let ghost before = *self;
        let outcome = self.slots[index].series.append(timestamp, value);
        proof {
            let n = before.slots@.len() as int;
            assert(self.slots@.len() == n);
            assert forall|i: int| 0 <= i < n implies (#[trigger] self.slots@[i]).key
                == before.slots@[i].key by {}
            assert(self.inv());
            self.lemma_inv_is_wf();
            let target = before@.insert(key@, self.slots@[index as int].series@);
            assert forall|k: Seq<u8>| self@.contains_key(k) <==> target.contains_key(k) by {
                if self.has_slot(k) {
                    let i = self.slot_of(k);
                    assert(before.slots@[i].key@ == k);
                }
                if before.has_slot(k) {
                    let i = before.slot_of(k);
                    assert(self.slots@[i].key@ == k);
                }
            }
            assert forall|k: Seq<u8>| self@.contains_key(k) implies self@[k] == target[k] by {
                let i = self.slot_of(k);
                self.lemma_slot(i);
                before.lemma_slot(i);
            }
            assert(self@ =~= target);
            if outcome is Err {
                assert(target =~= before@);
            }
        }
        outcome
    }

    /// The readings of the series under `key` that were taken from `from` to
    /// `to`, both included, the earliest first.
    pub fn range_query(&self, key: &StorageKey, from: Instant, to: Instant) -> (outcome: Result<
        Vec<Reading>,
        StoreError,
    >)
        requires
            self.wf(),
        ensures
            !self@.contains_key(key@) ==> outcome == Err::<Vec<Reading>, StoreError>(
                StoreError::Statement,
            ),
            self@.contains_key(key@) ==> (outcome matches Ok(found) && found@ == readings_within(
                self@[key@],
                from,
                to,
            ) && ascending(found@)),
    {
        proof {
            if self@.contains_key(key@) {
                crate::series::lemma_readings_within(self@[key@], from, to);
            }
        }
        match self.find(key) {
            Some(index) => Ok(self.slots[index].series.range_query(from, to)),
            None => Err(StoreError::Statement),
        }
    }
}

/// The statement that makes the series of `key` in the durable store, unless
/// it is there already.
pub open spec fn create_text(key: Seq<char>) -> Seq<char> {
    "CREATE TABLE IF NOT EXISTS "@ + key + " (unix_time TEXT PRIMARY KEY, reading BLOB NOT NULL)"@
}

/// The statement that writes one reading to the series of `key` in the
/// durable store; its two parameters are the timestamp and the value.
pub open spec fn insert_text(key: Seq<char>) -> Seq<char> {
    "INSERT INTO "@ + key + " (unix_time, reading) VALUES (?1, ?2)"@
}

/// The statement that reads from the series of `key` in the durable store the
/// readings of a range of time, the earliest first; its two parameters are the
/// ends of the range.
pub open spec fn select_text(key: Seq<char>) -> Seq<char> {
    "SELECT unix_time, reading FROM "@ + key
        + " WHERE datetime(unix_time) BETWEEN datetime(?1) AND datetime(?2) ORDER BY unix_time"@
}

/// The statement that makes the series of `key` in the durable store.
pub fn create_statement(key: &StorageKey) -> (statement: String)
    requires
        key.wf(),
    ensures
        statement@ == create_text(key.text()),
{
    let mut statement = String::from_str("CREATE TABLE IF NOT EXISTS ");
    statement.append(key.as_str());
    statement.append(" (unix_time TEXT PRIMARY KEY, reading BLOB NOT NULL)");
    statement
}

/// The statement that writes one reading to the series of `key`.
pub fn insert_statement(key: &StorageKey) -> (statement: String)
    requires
        key.wf(),
    ensures
        statement@ == insert_text(key.text()),
{
    let mut statement = String::from_str("INSERT INTO ");
    statement.append(key.as_str());
    statement.append(" (unix_time, reading) VALUES (?1, ?2)");
    statement
}

/// The statement that reads a range of time from the series of `key`.
pub fn select_statement(key: &StorageKey) -> (statement: String)
    requires
        key.wf(),
    ensures
        statement@ == select_text(key.text()),
{
    let mut statement = String::from_str("SELECT unix_time, reading FROM ");
    statement.append(key.as_str());
    statement.append(
        " WHERE datetime(unix_time) BETWEEN datetime(?1) AND datetime(?2) ORDER BY unix_time",
    );
    statement
}

} // verus!

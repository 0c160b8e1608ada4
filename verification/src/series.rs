//! One topic's series of readings, kept in the order of their timestamps.

use vstd::prelude::*;
use crate::instant::Instant;
use crate::store::StoreError;

verus! {

/// One sample of a sensor: the instant at which it arrived and its value, a
/// 32-bit IEEE-754 number carried as its bit pattern.
#[derive(Clone, Copy, Debug, PartialEq, Eq, Structural)]
pub struct Reading {
    pub timestamp: Instant,
    pub value: u32,
}

/// Whether the timestamps of `readings` strictly ascend.
pub open spec fn ascending(readings: Seq<Reading>) -> bool {
    forall|i: int, j: int|
        0 <= i < j < readings.len() ==> (#[trigger] readings[i]).timestamp.before(
            (#[trigger] readings[j]).timestamp,
        )
}

/// Whether `readings` holds a reading taken at `timestamp`.
pub open spec fn holds_instant(readings: Seq<Reading>, timestamp: Instant) -> bool {
    exists|i: int| 0 <= i < readings.len() && (#[trigger] readings[i]).timestamp == timestamp
}

/// How many readings stand before the place of a reading taken at
/// `timestamp`: the index after the last reading that was taken earlier.
pub open spec fn rank(readings: Seq<Reading>, timestamp: Instant) -> int
    decreases readings.len(),
{
    if readings.len() == 0 || readings.last().timestamp.before(timestamp) {
        readings.len() as int
    } else {
        rank(readings.drop_last(), timestamp)
    }
}

/// The series after an attempt to append `reading`: unchanged where it holds
/// a reading of the same timestamp, else with `reading` at its place.
pub open spec fn with_reading(readings: Seq<Reading>, reading: Reading) -> Seq<Reading> {
    if holds_instant(readings, reading.timestamp) {
        readings
    } else {
        readings.insert(rank(readings, reading.timestamp), reading)
    }
}

/// The readings of `readings` taken from `from` to `to`, both included, in the
/// order in which they stand.
pub open spec fn readings_within(readings: Seq<Reading>, from: Instant, to: Instant) -> Seq<
    Reading,
>
    decreases readings.len(),
{
    if readings.len() == 0 {
        readings
    } else {
        let earlier = readings_within(readings.drop_last(), from, to);
        if readings.last().timestamp.within(from, to) {
            earlier.push(readings.last())
        } else {
            earlier
        }
    }
}

/// The series that results from appending the readings of `batch` one after
/// another to an empty series.
pub open spec fn series_of(batch: Seq<Reading>) -> Seq<Reading>
    decreases batch.len(),
{
    if batch.len() == 0 {
        batch
    } else {
        with_reading(series_of(batch.drop_last()), batch.last())
    }
}

/// The readings of one topic, in the order of their timestamps, no two of them
/// taken at the same instant.
#[derive(Debug)]
pub struct Series {
    readings: Vec<Reading>,
}

impl View for Series {
    type V = Seq<Reading>;

    closed spec fn view(&self) -> Seq<Reading> {
        self.readings@
    }
}

impl Series {
    /// The invariant of a series: its timestamps strictly ascend.
    pub open spec fn wf(&self) -> bool {
        ascending(self@)
    }

    /// A series without readings.
    pub fn new() -> (series: Series)
        ensures
            series.wf(),
            series@ == Seq::<Reading>::empty(),
    {
        Series { readings: Vec::new() }
    }

    /// How many readings the series holds.
    pub fn len(&self) -> (n: usize)
        ensures
            n == self@.len(),
    {
        self.readings.len()
    }

    /// The reading at `index`, counted from the earliest.
    pub fn get(&self, index: usize) -> (reading: Option<Reading>)
        ensures
            index < self@.len() ==> reading == Some(self@[index as int]),
            index >= self@.len() ==> reading is None,
    {
        if index < self.readings.len() {
            Some(self.readings[index])
        } else {
            None
        }
    }

    /// Appends a reading. Where the series holds a reading of the same
    /// timestamp already, it stays as it is and the outcome is a conflict.
    pub fn append(&mut self, timestamp: Instant, value: u32) -> (outcome: Result<(), StoreError>)
        requires
            old(self).wf(),
        ensures
            final(self).wf(),
            final(self)@ == with_reading(old(self)@, (Reading { timestamp, value })),
            holds_instant(old(self)@, timestamp) ==> outcome == Err::<(), StoreError>(
                StoreError::Conflict,
            ) && final(self)@ == old(self)@,
            !holds_instant(old(self)@, timestamp) ==> outcome is Ok,
    {
        let ghost before = self@;
        let mut k: usize = self.readings.len();
        assert(before.subrange(0, k as int) =~= before);
        while k > 0 && !self.readings[k - 1].timestamp.is_before(&timestamp)
            invariant
                self@ == before,
                ascending(before),
                k <= before.len(),
                rank(before, timestamp) == rank(before.subrange(0, k as int), timestamp),
                forall|j: int| k <= j < before.len() ==> timestamp.before(#[trigger] before[j].timestamp),
            decreases k,
        {
            if self.readings[k - 1].timestamp == timestamp {
                assert(holds_instant(before, timestamp));
                return Err(StoreError::Conflict);
            }
            proof {
                let head = before.subrange(0, k as int);
                assert(head.last() == before[k - 1]);
                assert(head.drop_last() =~= before.subrange(0, k - 1));
            }
            k -= 1;
        }
        proof {
            let head = before.subrange(0, k as int);
            if k > 0 {
                assert(head.last() == before[k - 1]);
            }
            assert(rank(before, timestamp) == k);
            assert forall|j: int| 0 <= j < before.len() implies (#[trigger] before[j]).timestamp
                != timestamp by {
                if j < k {
                    if j < k - 1 {
                        assert(before[j].timestamp.before(before[k - 1].timestamp));
                    }
                }
            }
            assert(!holds_instant(before, timestamp));
        }
        let reading = Reading { timestamp, value };
        self.readings.insert(k, reading);
        proof {
            let after = self@;
            assert(after == before.insert(k as int, reading));
            assert forall|i: int, j: int| 0 <= i < j < after.len() implies (#[trigger] after[i]).timestamp.before(
                (#[trigger] after[j]).timestamp,
            ) by {
                let a = if i < k { before[i] } else if i == k { reading } else { before[i - 1] };
                let b = if j < k { before[j] } else if j == k { reading } else { before[j - 1] };
                assert(after[i] == a);
                assert(after[j] == b);
                if j == k {
                    if i < k - 1 {
                        assert(before[i].timestamp.before(before[k - 1].timestamp));
                    }
                }
            }
        }
        Ok(())
    }

    /// The series that results from appending the readings of `batch` one
    /// after another to an empty series: of the readings of one timestamp the
    /// first is kept.
    pub fn from_batch(batch: &Vec<Reading>) -> (series: Series)
        ensures
            series.wf(),
            series@ == series_of(batch@),
    {
        let mut series = Series::new();
        let mut i: usize = 0;
        while i < batch.len()
            invariant
                i <= batch@.len(),
                series.wf(),
                series@ == series_of(batch@.subrange(0, i as int)),
            decreases batch@.len() - i,
        {
            proof {
                let head = batch@.subrange(0, i + 1);
                assert(head.drop_last() =~= batch@.subrange(0, i as int));
                assert(head.last() == batch@[i as int]);
            }
            let _ = series.append(batch[i].timestamp, batch[i].value);
            i += 1;
        }
        assert(batch@.subrange(0, i as int) =~= batch@);
        series
    }

    /// The readings taken from `from` to `to`, both included, the earliest
    /// first.
    pub fn range_query(&self, from: Instant, to: Instant) -> (found: Vec<Reading>)
        ensures
            found@ == readings_within(self@, from, to),
            self.wf() ==> ascending(found@),
            forall|r: Reading|
                #![trigger found@.contains(r)]
                #![trigger self@.contains(r)]
                found@.contains(r) <==> self@.contains(r) && r.timestamp.within(from, to),
    {
        proof {
            lemma_readings_within(self@, from, to);
        }
        let mut found: Vec<Reading> = Vec::new();
        let mut i: usize = 0;
        while i < self.readings.len()
            invariant
                i <= self@.len(),
                found@ == readings_within(self@.subrange(0, i as int), from, to),
            decreases self@.len() - i,
        {
            let reading = self.readings[i];
            proof {
                let head = self@.subrange(0, i + 1);
                assert(head.last() == reading);
                assert(head.drop_last() =~= self@.subrange(0, i as int));
            }
            if reading.timestamp.is_within(&from, &to) {
                found.push(reading);
            }
            i += 1;
        }
        assert(self@.subrange(0, i as int) =~= self@);
        found
    }
}

/// Whether `reading` is a reading of `batch` that an empty series would take
/// where the readings of `batch` are appended to it in order: the first of
/// `batch` with its timestamp.
pub open spec fn accepted(batch: Seq<Reading>, reading: Reading) -> bool {
    exists|i: int|
        0 <= i < batch.len() && #[trigger] batch[i] == reading && forall|j: int|
            0 <= j < i ==> (#[trigger] batch[j]).timestamp != reading.timestamp
}

/// In an ascending series the readings before the rank of `timestamp` were
/// taken before it, and those from the rank on were not.
pub proof fn lemma_rank(readings: Seq<Reading>, timestamp: Instant)
    requires
        ascending(readings),
    ensures
        0 <= rank(readings, timestamp) <= readings.len(),
        forall|j: int|
            0 <= j < rank(readings, timestamp) ==> (#[trigger] readings[j]).timestamp.before(
                timestamp,
            ),
        forall|j: int|
            rank(readings, timestamp) <= j < readings.len() ==> !(#[trigger] readings[j]).timestamp.before(
                timestamp,
            ),
    decreases readings.len(),
{
    if readings.len() == 0 {
    } else if readings.last().timestamp.before(timestamp) {
        assert forall|j: int| 0 <= j < readings.len() implies (#[trigger] readings[j]).timestamp.before(
            timestamp,
        ) by {
            if j < readings.len() - 1 {
                assert(readings[j].timestamp.before(readings[readings.len() - 1].timestamp));
            }
        }
    } else {
        let head = readings.drop_last();
        assert forall|i: int, j: int| 0 <= i < j < head.len() implies (#[trigger] head[i]).timestamp.before(
            (#[trigger] head[j]).timestamp,
        ) by {
            assert(head[i] == readings[i] && head[j] == readings[j]);
        }
        lemma_rank(head, timestamp);
        let k = rank(head, timestamp);
        assert forall|j: int| 0 <= j < k implies (#[trigger] readings[j]).timestamp.before(
            timestamp,
        ) by {
            assert(head[j] == readings[j]);
        }
        assert forall|j: int| k <= j < readings.len() implies !(#[trigger] readings[j]).timestamp.before(
            timestamp,
        ) by {
            if j < head.len() {
                assert(head[j] == readings[j]);
            }
        }
    }
}

/// Appending to an ascending series leaves it ascending, with the readings it
/// had and, where none of them has the new reading's timestamp, the new one.
pub proof fn lemma_with_reading(readings: Seq<Reading>, reading: Reading)
    requires
        ascending(readings),
    ensures
        ascending(with_reading(readings, reading)),
        forall|r: Reading|
            #![trigger with_reading(readings, reading).contains(r)]
            #![trigger readings.contains(r)]
            with_reading(readings, reading).contains(r) <==> readings.contains(r) || (r == reading
                && !holds_instant(readings, reading.timestamp)),
{
    let after = with_reading(readings, reading);
    if !holds_instant(readings, reading.timestamp) {
        lemma_rank(readings, reading.timestamp);
        let k = rank(readings, reading.timestamp);
        readings.insert_ensures(k, reading);
        assert forall|i: int, j: int| 0 <= i < j < after.len() implies (#[trigger] after[i]).timestamp.before(
            (#[trigger] after[j]).timestamp,
        ) by {
            if i < k {
                assert(after[i] == readings[i]);
            }
            if i > k {
                assert(after[i] == readings[i - 1]);
            }
            if j < k {
                assert(after[j] == readings[j]);
            }
            if j > k {
                assert(after[j] == readings[j - 1]);
                assert(readings[j - 1].timestamp != reading.timestamp);
            }
        }
        assert forall|r: Reading| after.contains(r) <==> readings.contains(r) || r
            == reading by {
            if after.contains(r) {
                let i = choose|i: int| 0 <= i < after.len() && after[i] == r;
                if i < k {
                    assert(readings[i] == r);
                } else if i > k {
                    assert(readings[i - 1] == r);
                }
            }
            if readings.contains(r) {
                let i = choose|i: int| 0 <= i < readings.len() && readings[i] == r;
                if i < k {
                    assert(after[i] == r);
                } else {
                    assert(after[i + 1] == r);
                }
            }
            if r == reading {
                assert(after[k] == r);
            }
        }
    }
}

/// A series made by appending holds a reading of a timestamp exactly where
/// the batch held one.
pub proof fn lemma_series_holds(batch: Seq<Reading>, timestamp: Instant)
    ensures
        ascending(series_of(batch)),
        holds_instant(series_of(batch), timestamp) <==> holds_instant(batch, timestamp),
    decreases batch.len(),
{
    if batch.len() > 0 {
        let head = batch.drop_last();
        let made = series_of(head);
        let last = batch.last();
        lemma_series_holds(head, timestamp);
        lemma_series_holds(head, last.timestamp);
        lemma_with_reading(made, last);
        let after = with_reading(made, last);
        if holds_instant(after, timestamp) {
            let i = choose|i: int| 0 <= i < after.len() && (#[trigger] after[i]).timestamp == timestamp;
            assert(after.contains(after[i]));
            if made.contains(after[i]) {
                let m = choose|m: int| 0 <= m < made.len() && made[m] == after[i];
                assert(made[m].timestamp == timestamp);
                let h = choose|h: int| 0 <= h < head.len() && (#[trigger] head[h]).timestamp == timestamp;
                assert(batch[h].timestamp == timestamp);
            } else {
                assert(batch[batch.len() - 1].timestamp == timestamp);
            }
        }
        if holds_instant(batch, timestamp) {
            let i = choose|i: int| 0 <= i < batch.len() && (#[trigger] batch[i]).timestamp == timestamp;
            if i < head.len() {
                assert(head[i].timestamp == timestamp);
                let m = choose|m: int| 0 <= m < made.len() && (#[trigger] made[m]).timestamp == timestamp;
                assert(made.contains(made[m]));
                assert(after.contains(made[m]));
                let a = choose|a: int| 0 <= a < after.len() && after[a] == made[m];
                assert(after[a].timestamp == timestamp);
            } else if holds_instant(made, last.timestamp) {
            } else {
                assert(after.contains(last));
                let a = choose|a: int| 0 <= a < after.len() && after[a] == last;
                assert(after[a].timestamp == timestamp);
            }
        }
    }
}

/// A series made by appending holds exactly the readings that were accepted.
pub proof fn lemma_series_contents(batch: Seq<Reading>, reading: Reading)
    ensures
        series_of(batch).contains(reading) <==> accepted(batch, reading),
    decreases batch.len(),
{
    if batch.len() == 0 {
    } else {
        let head = batch.drop_last();
        let made = series_of(head);
        let last = batch.last();
        lemma_series_contents(head, reading);
        lemma_series_holds(head, last.timestamp);
        lemma_with_reading(made, last);
        if accepted(batch, reading) {
            let i = choose|i: int|
                0 <= i < batch.len() && #[trigger] batch[i] == reading && forall|j: int|
                    0 <= j < i ==> (#[trigger] batch[j]).timestamp != reading.timestamp;
            if i < head.len() {
                assert(head[i] == reading);
                assert forall|j: int| 0 <= j < i implies (#[trigger] head[j]).timestamp
                    != reading.timestamp by {
                    assert(head[j] == batch[j]);
                }
                assert(accepted(head, reading));
            } else {
                if holds_instant(head, last.timestamp) {
                    let h = choose|h: int| 0 <= h < head.len() && (#[trigger] head[h]).timestamp == last.timestamp;
                    assert(batch[h].timestamp == reading.timestamp);
                }
            }
        }
        if accepted(head, reading) {
            let i = choose|i: int|
                0 <= i < head.len() && #[trigger] head[i] == reading && forall|j: int|
                    0 <= j < i ==> (#[trigger] head[j]).timestamp != reading.timestamp;
            assert(batch[i] == reading);
            assert forall|j: int| 0 <= j < i implies (#[trigger] batch[j]).timestamp
                != reading.timestamp by {
                assert(head[j] == batch[j]);
            }
        }
        if reading == last && !holds_instant(made, last.timestamp) {
            let i = batch.len() - 1;
            assert(batch[i] == reading);
            assert forall|j: int| 0 <= j < i implies (#[trigger] batch[j]).timestamp
                != reading.timestamp by {
                assert(head[j] == batch[j]);
                if head[j].timestamp == reading.timestamp {
                    assert(holds_instant(head, last.timestamp));
                }
            }
        }
    }
}

/// A range query gives exactly the readings of the series that were taken in
/// the range, and gives them ascending where the series ascends.
pub proof fn lemma_readings_within(readings: Seq<Reading>, from: Instant, to: Instant)
    ensures
        forall|r: Reading|
            #![trigger readings_within(readings, from, to).contains(r)]
            #![trigger readings.contains(r)]
            readings_within(readings, from, to).contains(r) <==> readings.contains(r)
                && r.timestamp.within(from, to),
        ascending(readings) ==> ascending(readings_within(readings, from, to)),
    decreases readings.len(),
{
    let found = readings_within(readings, from, to);
    if readings.len() > 0 {
        let head = readings.drop_last();
        let last = readings.last();
        let earlier = readings_within(head, from, to);
        lemma_readings_within(head, from, to);
        assert forall|r: Reading| found.contains(r) <==> readings.contains(r)
            && r.timestamp.within(from, to) by {
            if found.contains(r) {
                let i = choose|i: int| 0 <= i < found.len() && found[i] == r;
                if i < earlier.len() {
                    assert(earlier[i] == r);
                    assert(earlier.contains(r));
                    let h = choose|h: int| 0 <= h < head.len() && head[h] == r;
                    assert(readings[h] == r);
                } else {
                    assert(readings[readings.len() - 1] == r);
                }
            }
            if readings.contains(r) && r.timestamp.within(from, to) {
                let i = choose|i: int| 0 <= i < readings.len() && readings[i] == r;
                if i < head.len() {
                    assert(head[i] == r);
                    assert(head.contains(r));
                    let e = choose|e: int| 0 <= e < earlier.len() && earlier[e] == r;
                    assert(found[e] == r);
                } else {
                    assert(found[found.len() - 1] == r);
                }
            }
        }
        if ascending(readings) {
            assert forall|i: int, j: int| 0 <= i < j < head.len() implies (#[trigger] head[i]).timestamp.before(
                (#[trigger] head[j]).timestamp,
            ) by {
                assert(head[i] == readings[i] && head[j] == readings[j]);
            }
            assert forall|i: int, j: int| 0 <= i < j < found.len() implies (#[trigger] found[i]).timestamp.before(
                (#[trigger] found[j]).timestamp,
            ) by {
                if j < earlier.len() {
                    assert(found[i] == earlier[i] && found[j] == earlier[j]);
                } else {
                    assert(found[i] == earlier[i]);
                    assert(earlier.contains(earlier[i]));
                    let h = choose|h: int| 0 <= h < head.len() && head[h] == earlier[i];
                    assert(readings[h].timestamp.before(readings[readings.len() - 1].timestamp));
                }
            }
        }
    }
}

/// Readings appended to an empty series in any order come back from a range
/// query ascending by timestamp, and those that come back are exactly the
/// accepted readings that were taken in the range.
pub proof fn lemma_appended_then_queried(
    batch: Seq<Reading>,
    from: Instant,
    to: Instant,
    reading: Reading,
)
    ensures
        ascending(readings_within(series_of(batch), from, to)),
        readings_within(series_of(batch), from, to).contains(reading) <==> accepted(batch, reading)
            && reading.timestamp.within(from, to),
{
    lemma_series_holds(batch, reading.timestamp);
    lemma_series_contents(batch, reading);
    lemma_readings_within(series_of(batch), from, to);
}

/// Appending the readings of an ascending series one after another gives
/// that series.
pub proof fn lemma_series_of_ascending(readings: Seq<Reading>)
    requires
        ascending(readings),
    ensures
        series_of(readings) == readings,
    decreases readings.len(),
{
    if readings.len() > 0 {
        let head = readings.drop_last();
        let last = readings.last();
        assert forall|i: int, j: int| 0 <= i < j < head.len() implies (#[trigger] head[i]).timestamp.before(
            (#[trigger] head[j]).timestamp,
        ) by {
            assert(head[i] == readings[i] && head[j] == readings[j]);
        }
        lemma_series_of_ascending(head);
        assert forall|i: int| 0 <= i < head.len() implies (#[trigger] head[i]).timestamp
            != last.timestamp by {
            assert(readings[i].timestamp.before(readings[readings.len() - 1].timestamp));
        }
        assert(!holds_instant(head, last.timestamp));
        if head.len() > 0 {
            assert(head.last() == readings[readings.len() - 2]);
            assert(readings[readings.len() - 2].timestamp.before(
                readings[readings.len() - 1].timestamp,
            ));
        }
        assert(rank(head, last.timestamp) == head.len());
        assert(head.insert(head.len() as int, last) =~= readings);
    }
}

/// A range query over the result of a wider range query gives what the
/// narrower query gives over the whole series.
pub proof fn lemma_narrowed(
    readings: Seq<Reading>,
    wide_from: Instant,
    wide_to: Instant,
    from: Instant,
    to: Instant,
)
    requires
        wide_from.at_or_before(from),
        to.at_or_before(wide_to),
    ensures
        readings_within(readings_within(readings, wide_from, wide_to), from, to) == readings_within(
            readings,
            from,
            to,
        ),
    decreases readings.len(),
{
    if readings.len() > 0 {
        let head = readings.drop_last();
        let last = readings.last();
        lemma_narrowed(head, wide_from, wide_to, from, to);
        let wide = readings_within(head, wide_from, wide_to);
        if last.timestamp.within(wide_from, wide_to) {
            assert(wide.push(last).drop_last() =~= wide);
        }
    }
}

} // verus!

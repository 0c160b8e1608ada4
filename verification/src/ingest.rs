//! Ingestion: from one message of the feed to one reading in the store.

use vstd::prelude::*;
use crate::codec::{decode, is_zero, reading_of, value_is_zero, DecodeError, Encoding};
use crate::instant::Instant;
use crate::series::{holds_instant, with_reading, Reading};
use crate::store::{StoreError, TimeSeriesStore};
use crate::text::{bytes_of, copy_range, starts_with};
use crate::topic::{is_listed, sanitized, AllowList};

verus! {

/// Why a message was not ingested.
#[derive(Clone, Copy, Debug, PartialEq, Eq, Structural)]
pub enum IngestError {
    /// The message's topic is not the parent topic followed by a listed
    /// subtopic.
    UnknownTopic,
    /// The payload was not decoded.
    Decode(DecodeError),
    /// The store failed.
    Store(StoreError),
}

/// What is to be done with a message that was accepted.
#[derive(Clone, Copy, Debug, PartialEq, Eq, Structural)]
pub enum Decision {
    /// The sensor measured nothing: no reading is written.
    Skip,
    /// A reading of this value is written to the series of the subtopic
    /// listed at this index.
    Write { index: usize, value: u32 },
}

/// The subtopic of a topic: what follows the parent topic, where the topic
/// starts with it.
pub open spec fn subtopic_of(parent: Seq<u8>, topic: Seq<u8>) -> Option<Seq<u8>> {
    if parent.is_prefix_of(topic) {
        Some(topic.skip(parent.len() as int))
    } else {
        None
    }
}

/// The subtopic of a topic, where the topic starts with the parent topic.
pub fn strip_parent(parent: &[u8], topic: &[u8]) -> (subtopic: Option<Vec<u8>>)
    ensures
        (match subtopic_of(parent@, topic@) {
            Some(rest) => subtopic matches Some(found) && found@ == rest,
            None => subtopic is None,
        }),
{
    if starts_with(topic, parent) {
        let rest = copy_range(topic, parent.len(), topic.len());
        assert(rest@ =~= topic@.skip(parent@.len() as int));
        Some(rest)
    } else {
        None
    }
}

/// Takes the messages of the feed: it knows the parent topic and the
/// allow-list, and nothing else.
#[derive(Debug)]
pub struct IngestionPipeline {
    parent: Vec<u8>,
    topics: AllowList,
}

impl IngestionPipeline {
    /// The parent topic, which every topic of the feed starts with.
    pub closed spec fn parent(&self) -> Seq<u8> {
        self.parent@
    }

    /// The allow-list.
    pub closed spec fn topics(&self) -> AllowList {
        self.topics
    }

    /// The invariant of a pipeline: that of its allow-list.
    pub open spec fn wf(&self) -> bool {
        self.topics().wf()
    }

    /// A pipeline for the subtopics of `topics` under the parent topic
    /// `parent`.
    pub fn new(parent: &str, topics: AllowList) -> (pipeline: IngestionPipeline)
        requires
            topics.wf(),
        ensures
            pipeline.wf(),
            pipeline.parent() == bytes_of(parent@),
            pipeline.topics() == topics,
    {
        let bytes = parent.as_bytes();
        IngestionPipeline { parent: copy_range(bytes, 0, bytes.len()), topics }
    }

    /// The allow-list of the pipeline.
    pub fn allow_list(&self) -> (topics: &AllowList)
        ensures
            *topics == self.topics(),
    {
        &self.topics
    }

    /// The topic to subscribe to for the subtopic listed at `index`: the
    /// parent topic followed by the subtopic.
    pub fn subscription(&self, index: usize) -> (topic: Vec<u8>)
        requires
            index < self.topics().subtopics().len(),
        ensures
            topic@ == self.parent() + self.topics().subtopics()[index as int],
    {
        let mut topic = copy_range(self.parent.as_slice(), 0, self.parent.len());
        let subtopic = self.topics.subtopic(index);
        let mut i: usize = 0;
        while i < subtopic.len()
            invariant
                i <= subtopic@.len(),
                topic@ == self.parent@ + subtopic@.subrange(0, i as int),
            decreases subtopic@.len() - i,
        {
            topic.push(subtopic[i]);
            assert(topic@ =~= self.parent@ + subtopic@.subrange(0, i + 1));
            i += 1;
        }
        assert(subtopic@.subrange(0, i as int) =~= subtopic@);
        topic
    }

    /// What is to be done with a message. In text, a value of zero means that
    /// the sensor measured nothing; in binary, zero is a value like any other.
    pub open spec fn decision(&self, topic: Seq<u8>, payload: Seq<u8>, number: Option<u32>) -> Result<
        Decision,
        IngestError,
    > {
        match subtopic_of(self.parent(), topic) {
            None => Err(IngestError::UnknownTopic),
            Some(subtopic) => if !is_listed(self.topics().subtopics(), subtopic) {
                Err(IngestError::UnknownTopic)
            } else {
                let index = self.topics().index_of(subtopic);
                let encoding = self.topics().encodings()[index];
                match reading_of(encoding, payload, number) {
                    Err(e) => Err(IngestError::Decode(e)),
                    Ok(value) => if encoding == Encoding::Text && is_zero(value) {
                        Ok(Decision::Skip)
                    } else {
                        Ok(Decision::Write { index: index as usize, value })
                    },
                }
            },
        }
    }

    /// Decides what is to be done with a message of the feed. `number` is read
    /// for text payloads only: the bit pattern of the number that the payload's
    /// text denotes, or `None` where it denotes none.
    pub fn decide(&self, topic: &str, payload: &[u8], number: Option<u32>) -> (decision: Result<
        Decision,
        IngestError,
    >)
        requires
            self.wf(),
        ensures
            decision == self.decision(bytes_of(topic@), payload@, number),
            (decision matches Ok(Decision::Write { index, value }) ==> index
                < self.topics().subtopics().len()),
    {
        let subtopic = match strip_parent(self.parent.as_slice(), topic.as_bytes()) {
            Some(subtopic) => subtopic,
            None => {
                return Err(IngestError::UnknownTopic);
            },
        };
        let index = match self.topics.position(subtopic.as_slice()) {
            Some(index) => index,
            None => {
                return Err(IngestError::UnknownTopic);
            },
        };
        proof {
            self.topics.lemma_listed_once(index as int);
        }
        let encoding = self.topics.encoding(index);
        match decode(encoding, payload, number) {
            Err(e) => Err(IngestError::Decode(e)),
            Ok(value) => {
                let text = match encoding {
                    Encoding::Text => true,
                    Encoding::Binary => false,
                };
                if text && value_is_zero(value) {
                    Ok(Decision::Skip)
                } else {
                    Ok(Decision::Write { index, value })
                }
            },
        }
    }

    /// Whether `after` and `outcome` are what handling a message at the
    /// instant `now` makes of the store `before`. A message that is refused
    /// or skipped leaves the store as it was, and so does a reading that the
    /// store does not take.
    pub open spec fn handled(
        &self,
        before: Map<Seq<u8>, Seq<Reading>>,
        after: Map<Seq<u8>, Seq<Reading>>,
        topic: Seq<u8>,
        payload: Seq<u8>,
        number: Option<u32>,
        now: Instant,
        outcome: Result<(), IngestError>,
    ) -> bool {
        match self.decision(topic, payload, number) {
            Err(e) => outcome == Err::<(), IngestError>(e) && after == before,
            Ok(Decision::Skip) => outcome is Ok && after == before,
            Ok(Decision::Write { index, value }) => {
                let key = sanitized(self.topics().subtopics()[index as int]);
                if !before.contains_key(key) {
                    outcome == Err::<(), IngestError>(IngestError::Store(StoreError::Statement))
                        && after == before
                } else if holds_instant(before[key], now) {
                    outcome == Err::<(), IngestError>(IngestError::Store(StoreError::Conflict))
                        && after == before
                } else {
                    outcome is Ok && after == before.insert(
                        key,
                        with_reading(before[key], Reading { timestamp: now, value }),
                    )
                }
            },
        }
    }

    /// Handles a message of the feed that arrived at the instant `now`:
    /// decides what is to be done with it and, where a reading is to be
    /// written, appends it to the series of its subtopic.
    pub fn handle(
        &self,
        store: &mut TimeSeriesStore,
        topic: &str,
        payload: &[u8],
        number: Option<u32>,
        now: Instant,
    ) -> (outcome: Result<(), IngestError>)
        requires
            self.wf(),
            old(store).wf(),
        ensures
            final(store).wf(),
            self.handled(old(store)@, final(store)@, bytes_of(topic@), payload@, number, now, outcome),
    {
        match self.decide(topic, payload, number) {
            Err(e) => Err(e),
            Ok(Decision::Skip) => Ok(()),
            Ok(Decision::Write { index, value }) => {
                let key = self.topics.key(index);
                match store.append(key, now, value) {
                    Ok(()) => Ok(()),
                    Err(e) => Err(IngestError::Store(e)),
                }
            },
        }
    }

    /// Handles a message of the feed that arrives now, at the instant that
    /// the system clock gives.
    pub fn handle_now(
        &self,
        store: &mut TimeSeriesStore,
        topic: &str,
        payload: &[u8],
        number: Option<u32>,
    ) -> (outcome: Result<(), IngestError>)
        requires
            self.wf(),
            old(store).wf(),
        ensures
            final(store).wf(),
            exists|now: Instant|
                self.handled(
                    old(store)@,
                    final(store)@,
                    bytes_of(topic@),
                    payload@,
                    number,
                    now,
                    outcome,
                ),
    {
        let now = Instant::now();
        self.handle(store, topic, payload, number, now)
    }
}

} // verus!

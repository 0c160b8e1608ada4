//! Range queries: from the pairs of a query string to the rows of the answer.

use vstd::prelude::*;
use vstd::utf8::*;
use crate::decimal::{decimal_i64, parse_decimal};
use crate::instant::Instant;
use crate::series::{ascending, readings_within, Reading};
use crate::store::{StoreError, TimeSeriesStore};
use crate::text::{bytes_of, copy_range, same_bytes};
use crate::topic::{is_listed, sanitized, AllowList, SLASH};

verus! {

/// Why a query was not answered.
#[derive(Clone, Copy, Debug, PartialEq, Eq, Structural)]
pub enum QueryError {
    /// The topic is not on the allow-list.
    UnknownTopic,
    /// The lower bound `from` is absent, or is no 64-bit decimal integer.
    MissingFrom,
    /// The upper bound `to` is there and is no 64-bit decimal integer.
    MalformedTo,
    /// The store failed.
    Store(StoreError),
}

/// What `url::form_urlencoded::parse` makes of a query string: its pairs of
/// name and value, in order, percent-decoded. The pages of rules that the
/// parser follows are not restated here.
pub uninterp spec fn form_pairs(query: Seq<u8>) -> Seq<(Seq<char>, Seq<char>)>;

/// Parses a query string with `url::form_urlencoded::parse` and collects the
/// pairs that its iterator yields, each name and value as an owned string.
/// The parser reads nothing but the bytes it is given, so the pairs are a
/// function of them.
#[verifier::external_body]
pub(crate) fn parse_form(query: &[u8]) -> (pairs: Vec<(String, String)>)
    ensures
        pairs.deep_view() == form_pairs(query@),
{
    url::form_urlencoded::parse(query)
        .map(|(name, value)| (name.into_owned(), value.into_owned()))
        .collect()
}

/// The bounds that the pairs of a query set, as far as they set them: each
/// `from` and each `to` replaces the one before it, and the first of them that
/// is no 64-bit decimal integer ends the reading.
pub open spec fn bounds_of(pairs: Seq<(Seq<char>, Seq<char>)>) -> Result<
    (Option<i64>, Option<i64>),
    QueryError,
>
    decreases pairs.len(),
{
    if pairs.len() == 0 {
        Ok((None, None))
    } else {
        match bounds_of(pairs.drop_last()) {
            Err(e) => Err(e),
            Ok((from, to)) => {
                let (name, value) = pairs.last();
                if name == "from"@ {
                    match decimal_i64(bytes_of(value)) {
                        Some(v) => Ok((Some(v), to)),
                        None => Err(QueryError::MissingFrom),
                    }
                } else if name == "to"@ {
                    match decimal_i64(bytes_of(value)) {
                        Some(v) => Ok((from, Some(v))),
                        None => Err(QueryError::MalformedTo),
                    }
                } else {
                    Ok((from, to))
                }
            },
        }
    }
}

/// The range of time, in seconds since 1970, that the pairs of a query ask
/// for. The lower bound must be there; the upper bound is 0 where it is
/// absent.
pub open spec fn range_of(pairs: Seq<(Seq<char>, Seq<char>)>) -> Result<(i64, i64), QueryError> {
    match bounds_of(pairs) {
        Err(e) => Err(e),
        Ok((None, _)) => Err(QueryError::MissingFrom),
        Ok((Some(from), None)) => Ok((from, 0i64)),
        Ok((Some(from), Some(to))) => Ok((from, to)),
    }
}

/// Whether a pair can stand in a query: a pair named `from` or `to` must hold
/// a 64-bit decimal integer.
pub open spec fn is_well_formed(pair: (Seq<char>, Seq<char>)) -> bool {
    pair.0 == "from"@ || pair.0 == "to"@ ==> decimal_i64(bytes_of(pair.1)) is Some
}

/// Whether the pair at index `i` is the last of `pairs` with the name `name`.
pub open spec fn is_last_named(pairs: Seq<(Seq<char>, Seq<char>)>, name: Seq<char>, i: int) -> bool {
    &&& 0 <= i < pairs.len()
    &&& pairs[i].0 == name
    &&& forall|j: int| i < j < pairs.len() ==> (#[trigger] pairs[j]).0 != name
}

/// Whether `bounds` are what well-formed pairs give: each bound is the
/// integer of the last pair with its name, and is absent where no pair has
/// its name.
pub open spec fn are_bounds_of(
    pairs: Seq<(Seq<char>, Seq<char>)>,
    bounds: (Option<i64>, Option<i64>),
) -> bool {
    &&& bounds.0 is None <==> forall|i: int|
        0 <= i < pairs.len() ==> (#[trigger] pairs[i]).0 != "from"@
    &&& bounds.1 is None <==> forall|i: int|
        0 <= i < pairs.len() ==> (#[trigger] pairs[i]).0 != "to"@
    &&& forall|i: int|
        is_last_named(pairs, "from"@, i) ==> bounds.0 == decimal_i64(
            bytes_of(#[trigger] pairs[i].1),
        )
    &&& forall|i: int|
        is_last_named(pairs, "to"@, i) ==> bounds.1 == decimal_i64(bytes_of(#[trigger] pairs[i].1))
}

/// Whether the pair at index `i` is the first of `pairs` that is not
/// well-formed.
pub open spec fn is_first_malformed(pairs: Seq<(Seq<char>, Seq<char>)>, i: int) -> bool {
    &&& 0 <= i < pairs.len()
    &&& !is_well_formed(pairs[i])
    &&& forall|j: int| 0 <= j < i ==> is_well_formed(#[trigger] pairs[j])
}

/// The failure that a pair which is not well-formed stands for.
pub open spec fn failure_of(pair: (Seq<char>, Seq<char>)) -> QueryError {
    if pair.0 == "from"@ {
        QueryError::MissingFrom
    } else {
        QueryError::MalformedTo
    }
}

/// What the bounds of a query come to. The pairs give bounds exactly where
/// each of them is well-formed; then each bound is the integer of the last
/// pair with its name, and is absent where no pair has its name. Where a pair
/// is not well-formed, the first such pair decides the failure.
pub proof fn lemma_bounds_of(pairs: Seq<(Seq<char>, Seq<char>)>)
    ensures
        bounds_of(pairs) is Ok <==> forall|i: int|
            0 <= i < pairs.len() ==> is_well_formed(#[trigger] pairs[i]),
        (bounds_of(pairs) matches Ok(bounds) ==> are_bounds_of(pairs, bounds)),
        (bounds_of(pairs) matches Err(e) ==> exists|i: int|
            #![trigger pairs[i]]
            is_first_malformed(pairs, i) && e == failure_of(pairs[i])),
    decreases pairs.len(),
{
    reveal_strlit("from");
    reveal_strlit("to");
    assert("from"@ != "to"@) by {
        assert("from"@.len() == 4);
        assert("to"@.len() == 2);
    }
    if pairs.len() > 0 {
        let head = pairs.drop_last();
        let last = pairs.last();
        let n = pairs.len() - 1;
        lemma_bounds_of(head);
        assert forall|i: int| 0 <= i < n implies #[trigger] head[i] == pairs[i] by {}
        match bounds_of(head) {
            Err(e) => {
                let i = choose|i: int|
                    #![trigger head[i]]
                    is_first_malformed(head, i) && e == failure_of(head[i]);
                assert(!is_well_formed(pairs[i]));
                assert forall|j: int| 0 <= j < i implies is_well_formed(#[trigger] pairs[j]) by {
                    assert(is_well_formed(head[j]));
                }
                assert(is_first_malformed(pairs, i) && e == failure_of(pairs[i]));
            },
            Ok(earlier) => {
                assert forall|j: int| 0 <= j < n implies is_well_formed(#[trigger] pairs[j]) by {
                    assert(is_well_formed(head[j]));
                }
                if !is_well_formed(last) {
                    assert(!is_well_formed(pairs[n]));
                    assert(is_first_malformed(pairs, n));
                } else {
                    let bounds = bounds_of(pairs)->Ok_0;
                    assert forall|i: int| 0 <= i < pairs.len() implies is_well_formed(
                        #[trigger] pairs[i],
                    ) by {
                        if i < n {
                            assert(is_well_formed(head[i]));
                        }
                    }
                    assert(pairs[n] == last);
                    if last.0 != "from"@ {
                        assert(bounds.0 == earlier.0);
                        assert forall|i: int| is_last_named(pairs, "from"@, i) implies bounds.0
                            == decimal_i64(bytes_of(#[trigger] pairs[i].1)) by {
                            assert(i < n);
                            assert forall|j: int| i < j < head.len() implies (#[trigger] head[j]).0
                                != "from"@ by {
                                assert(pairs[j].0 != "from"@);
                            }
                            assert(is_last_named(head, "from"@, i));
                        }
                        if earlier.0 is None {
                            assert forall|i: int| 0 <= i < pairs.len() implies (#[trigger] pairs[i]).0
                                != "from"@ by {
                                if i < n {
                                    assert(head[i].0 != "from"@);
                                }
                            }
                        } else {
                            let i = choose|i: int| 0 <= i < head.len() && (#[trigger] head[i]).0
                                == "from"@;
                            assert(pairs[i].0 == "from"@);
                        }
                    } else {
                        assert forall|i: int| is_last_named(pairs, "from"@, i) implies bounds.0
                            == decimal_i64(bytes_of(#[trigger] pairs[i].1)) by {
                            if i < n {
                                assert(pairs[n].0 != "from"@);
                            }
                        }
                    }
                    if last.0 != "to"@ {
                        assert(bounds.1 == earlier.1);
                        assert forall|i: int| is_last_named(pairs, "to"@, i) implies bounds.1
                            == decimal_i64(bytes_of(#[trigger] pairs[i].1)) by {
                            assert(i < n);
                            assert forall|j: int| i < j < head.len() implies (#[trigger] head[j]).0
                                != "to"@ by {
                                assert(pairs[j].0 != "to"@);
                            }
                            assert(is_last_named(head, "to"@, i));
                        }
                        if earlier.1 is None {
                            assert forall|i: int| 0 <= i < pairs.len() implies (#[trigger] pairs[i]).0
                                != "to"@ by {
                                if i < n {
                                    assert(head[i].0 != "to"@);
                                }
                            }
                        } else {
                            let i = choose|i: int| 0 <= i < head.len() && (#[trigger] head[i]).0
                                == "to"@;
                            assert(pairs[i].0 == "to"@);
                        }
                    } else {
                        assert forall|i: int| is_last_named(pairs, "to"@, i) implies bounds.1
                            == decimal_i64(bytes_of(#[trigger] pairs[i].1)) by {
                            if i < n {
                                assert(pairs[n].0 != "to"@);
                            }
                        }
                    }
                }
            },
        }
    }
}

/// Whether `range` is the range that well-formed pairs ask for: its lower
/// bound is the integer of the last pair named `from`, which is there, and
/// its upper bound is the integer of the last pair named `to`, or 0 where
/// there is none.
pub open spec fn is_range_of(pairs: Seq<(Seq<char>, Seq<char>)>, range: (i64, i64)) -> bool {
    &&& forall|i: int| 0 <= i < pairs.len() ==> is_well_formed(#[trigger] pairs[i])
    &&& exists|i: int| 0 <= i < pairs.len() && (#[trigger] pairs[i]).0 == "from"@
    &&& forall|i: int|
        is_last_named(pairs, "from"@, i) ==> Some(range.0) == decimal_i64(
            bytes_of(#[trigger] pairs[i].1),
        )
    &&& forall|i: int|
        is_last_named(pairs, "to"@, i) ==> Some(range.1) == decimal_i64(
            bytes_of(#[trigger] pairs[i].1),
        )
    &&& (forall|i: int| 0 <= i < pairs.len() ==> (#[trigger] pairs[i]).0 != "to"@) ==> range.1 == 0
}

/// The range that the pairs of a query ask for is the one that `is_range_of`
/// describes.
pub proof fn lemma_range_of(pairs: Seq<(Seq<char>, Seq<char>)>)
    ensures
        (range_of(pairs) matches Ok(range) ==> is_range_of(pairs, range)),
{
    lemma_bounds_of(pairs);
}

/// The topic that the path of a request names: the path without its leading
/// `/`.
pub open spec fn topic_of_path(path: Seq<u8>) -> Seq<u8> {
    if path.len() > 0 && path[0] == SLASH {
        path.drop_first()
    } else {
        path
    }
}

/// The rows of an answer: of each reading its whole seconds since 1970 and
/// its value.
pub open spec fn unix_rows(readings: Seq<Reading>) -> Seq<(i64, u32)> {
    Seq::new(readings.len(), |i: int| (readings[i].timestamp.secs, readings[i].value))
}

/// A query that was admitted: the index at which its topic is listed, and
/// the range of time that it asks for, both ends included.
#[derive(Clone, Copy, Debug, PartialEq, Eq, Structural)]
pub struct RangePlan {
    pub index: usize,
    pub from: Instant,
    pub to: Instant,
}

/// Whether the seconds of `rows` never descend.
pub open spec fn rows_ascend(rows: Seq<(i64, u32)>) -> bool {
    forall|i: int, j: int| 0 <= i < j < rows.len() ==> (#[trigger] rows[i]).0 <= (#[trigger] rows[j]).0
}

/// The rows of ascending readings never descend.
pub proof fn lemma_rows_ascend(readings: Seq<Reading>)
    requires
        ascending(readings),
    ensures
        rows_ascend(unix_rows(readings)),
{
    let rows = unix_rows(readings);
    assert forall|i: int, j: int| 0 <= i < j < rows.len() implies (#[trigger] rows[i]).0 <= (
    #[trigger] rows[j]).0 by {
        assert(readings[i].timestamp.before(readings[j].timestamp));
    }
}

/// Two texts are made of the same bytes exactly where they are the same text.
pub proof fn lemma_same_text(a: Seq<char>, b: Seq<char>)
    ensures
        (bytes_of(a) == bytes_of(b)) <==> (a == b),
{
    encode_utf8_decode_utf8(a);
    encode_utf8_decode_utf8(b);
}

/// The range of time that the pairs of a query ask for.
pub fn time_range(pairs: &Vec<(String, String)>) -> (range: Result<(i64, i64), QueryError>)
    ensures
        range == range_of(pairs.deep_view()),
        (range matches Ok(found) ==> is_range_of(pairs.deep_view(), found)),
{
    proof {
        lemma_range_of(pairs.deep_view());
    }
    let mut from: Option<i64> = None;
    let mut to: Option<i64> = None;
    let mut i: usize = 0;
    while i < pairs.len()
        invariant
            i <= pairs@.len(),
            bounds_of(pairs.deep_view().subrange(0, i as int)) == Ok::<
                (Option<i64>, Option<i64>),
                QueryError,
            >((from, to)),
        decreases pairs@.len() - i,
    {
        let name = pairs[i].0.as_str();
        let value = pairs[i].1.as_str();
        proof {
            let all = pairs.deep_view();
            let head = all.subrange(0, i + 1);
            assert(head.drop_last() =~= all.subrange(0, i as int));
            assert(head.last() == (name@, value@));
            lemma_same_text(name@, "from"@);
            lemma_same_text(name@, "to"@);
        }
        if same_bytes(name.as_bytes(), "from".as_bytes()) {
            match parse_decimal(value.as_bytes()) {
                Some(v) => {
                    from = Some(v);
                },
                None => {
                    proof {
                        lemma_bounds_fail(pairs.deep_view(), i + 1);
                    }
                    return Err(QueryError::MissingFrom);
                },
            }
        } else if same_bytes(name.as_bytes(), "to".as_bytes()) {
            match parse_decimal(value.as_bytes()) {
                Some(v) => {
                    to = Some(v);
                },
                None => {
                    proof {
                        lemma_bounds_fail(pairs.deep_view(), i + 1);
                    }
                    return Err(QueryError::MalformedTo);
                },
            }
        }
        i += 1;
    }
    assert(pairs.deep_view().subrange(0, i as int) =~= pairs.deep_view());
    match from {
        None => Err(QueryError::MissingFrom),
        Some(from) => match to {
            None => Ok((from, 0)),
            Some(to) => Ok((from, to)),
        },
    }
}

/// Where the first `k` pairs of a query fail, the query fails in the same
/// way.
pub proof fn lemma_bounds_fail(pairs: Seq<(Seq<char>, Seq<char>)>, k: int)
    requires
        0 <= k <= pairs.len(),
        bounds_of(pairs.subrange(0, k)) is Err,
    ensures
        bounds_of(pairs) == bounds_of(pairs.subrange(0, k)),
    decreases pairs.len() - k,
{
    if k < pairs.len() {
        assert(pairs.subrange(0, k + 1).drop_last() =~= pairs.subrange(0, k));
        lemma_bounds_fail(pairs, k + 1);
    } else {
        assert(pairs.subrange(0, k) =~= pairs);
    }
}

/// The range of time that a query string asks for.
pub fn parse_query(query: &str) -> (range: Result<(i64, i64), QueryError>)
    ensures
        range == range_of(form_pairs(bytes_of(query@))),
{
    let pairs = parse_form(query.as_bytes());
    time_range(&pairs)
}

/// The rows of an answer: of each reading its whole seconds since 1970 and
/// its value.
pub fn to_unix_rows(readings: &Vec<Reading>) -> (rows: Vec<(i64, u32)>)
    ensures
        rows@ == unix_rows(readings@),
{
    let mut rows: Vec<(i64, u32)> = Vec::new();
    let mut i: usize = 0;
    while i < readings.len()
        invariant
            i <= readings@.len(),
            rows@ == unix_rows(readings@.subrange(0, i as int)),
        decreases readings@.len() - i,
    {
        rows.push((readings[i].timestamp.unix_seconds(), readings[i].value));
        assert(rows@ =~= unix_rows(readings@.subrange(0, i + 1)));
        i += 1;
    }
    assert(readings@.subrange(0, i as int) =~= readings@);
    rows
}

/// The topic that the path of a request names.
pub fn topic_in_path(path: &[u8]) -> (topic: Vec<u8>)
    ensures
        topic@ == topic_of_path(path@),
{
    let topic = if path.len() > 0 && path[0] == SLASH {
        copy_range(path, 1, path.len())
    } else {
        copy_range(path, 0, path.len())
    };
    assert(topic@ =~= topic_of_path(path@));
    topic
}

/// Answers range queries over the topics of an allow-list.
#[derive(Debug)]
pub struct QueryService {
    topics: AllowList,
}

impl QueryService {
    /// The allow-list.
    pub closed spec fn topics(&self) -> AllowList {
        self.topics
    }

    /// The invariant of a query service: that of its allow-list.
    pub open spec fn wf(&self) -> bool {
        self.topics().wf()
    }

    /// A query service over the topics of `topics`.
    pub fn new(topics: AllowList) -> (service: QueryService)
        requires
            topics.wf(),
        ensures
            service.wf(),
            service.topics() == topics,
    {
        QueryService { topics }
    }

    /// The allow-list of the service.
    pub fn allow_list(&self) -> (topics: &AllowList)
        ensures
            *topics == self.topics(),
    {
        &self.topics
    }

    /// What the query for the topic that `path` names, with the pairs
    /// `pairs`, asks for: the topic must be listed, and the pairs must give a
    /// range.
    pub open spec fn plan_of(&self, path: Seq<u8>, pairs: Seq<(Seq<char>, Seq<char>)>) -> Result<
        RangePlan,
        QueryError,
    > {
        let topic = topic_of_path(path);
        if !is_listed(self.topics().subtopics(), topic) {
            Err(QueryError::UnknownTopic)
        } else {
            match range_of(pairs) {
                Err(e) => Err(e),
                Ok((from, to)) => Ok(
                    RangePlan {
                        index: self.topics().index_of(topic) as usize,
                        from: Instant { secs: from, nanos: 0 },
                        to: Instant { secs: to, nanos: 0 },
                    },
                ),
            }
        }
    }

    /// The rows that answer an admitted query over the series of `store`.
    pub open spec fn lookup(&self, store: Map<Seq<u8>, Seq<Reading>>, plan: RangePlan) -> Result<
        Seq<(i64, u32)>,
        QueryError,
    > {
        let key = sanitized(self.topics().subtopics()[plan.index as int]);
        if store.contains_key(key) {
            Ok(unix_rows(readings_within(store[key], plan.from, plan.to)))
        } else {
            Err(QueryError::Store(StoreError::Statement))
        }
    }

    /// The answer to the query for the topic that `path` names, with the
    /// pairs `pairs`, over the series of `store`.
    pub open spec fn resolution(
        &self,
        store: Map<Seq<u8>, Seq<Reading>>,
        path: Seq<u8>,
        pairs: Seq<(Seq<char>, Seq<char>)>,
    ) -> Result<Seq<(i64, u32)>, QueryError> {
        match self.plan_of(path, pairs) {
            Err(e) => Err(e),
            Ok(plan) => self.lookup(store, plan),
        }
    }

    /// Admits the query for the topic that `path` names with the pairs
    /// `pairs`, or refuses it.
    pub fn plan(&self, path: &str, pairs: &Vec<(String, String)>) -> (plan: Result<
        RangePlan,
        QueryError,
    >)
        requires
            self.wf(),
        ensures
            plan == self.plan_of(bytes_of(path@), pairs.deep_view()),
            plan matches Ok(p) ==> p.index < self.topics().subtopics().len(),
    {
        let topic = topic_in_path(path.as_bytes());
        let index = match self.topics.position(topic.as_slice()) {
            Some(index) => index,
            None => {
                return Err(QueryError::UnknownTopic);
            },
        };
        proof {
            self.topics.lemma_listed_once(index as int);
        }
        match time_range(pairs) {
            Ok((from, to)) => Ok(
                RangePlan {
                    index,
                    from: Instant::from_unix_seconds(from),
                    to: Instant::from_unix_seconds(to),
                },
            ),
            Err(e) => Err(e),
        }
    }

    /// Answers the query for the topic that `path` names with the pairs
    /// `pairs`: the rows of that topic's readings in the range that the pairs
    /// ask for, the earliest first.
    pub fn resolve(&self, store: &TimeSeriesStore, path: &str, pairs: &Vec<(String, String)>) -> (answer:
        Result<Vec<(i64, u32)>, QueryError>)
        requires
            self.wf(),
            store.wf(),
        ensures
            (match self.resolution(store@, bytes_of(path@), pairs.deep_view()) {
                Ok(rows) => answer matches Ok(found) && found@ == rows && rows_ascend(rows),
                Err(e) => answer == Err::<Vec<(i64, u32)>, QueryError>(e),
            }),
    {
        let plan = match self.plan(path, pairs) {
            Ok(plan) => plan,
            Err(e) => {
                return Err(e);
            },
        };
        let key = self.topics.key(plan.index);
        match store.range_query(key, plan.from, plan.to) {
            Ok(readings) => {
                proof {
                    lemma_rows_ascend(readings@);
                }
                Ok(to_unix_rows(&readings))
            },
            Err(e) => Err(QueryError::Store(e)),
        }
    }
}

} // verus!

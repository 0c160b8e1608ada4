//! The read API: from one HTTP request to its response.

use vstd::prelude::*;
use crate::query::{
    form_pairs, lemma_rows_ascend, lemma_same_text, parse_form, rows_ascend, to_unix_rows,
    topic_in_path, topic_of_path, unix_rows, QueryError, QueryService, RangePlan,
};
use crate::instant::Instant;
use crate::series::{
    ascending, lemma_narrowed, lemma_readings_within, lemma_series_of_ascending, readings_within,
    series_of, Reading, Series,
};
use crate::store::{StoreError, TimeSeriesStore};
use crate::text::{bytes_of, same_bytes};
use crate::topic::{is_listed, AllowList};

verus! {

/// The status of an answered query.
pub const OK: u16 = 200;

/// The status of a request without a query string, and of a query that was
/// not answered.
pub const BAD_REQUEST: u16 = 400;

/// The status of a request for a topic that is not on the allow-list.
pub const NOT_FOUND: u16 = 404;

/// The status of a request with a method other than `GET`.
pub const METHOD_NOT_ALLOWED: u16 = 405;

/// What the API reads of an HTTP request.
#[derive(Debug)]
pub struct Request {
    /// The method, as the request line has it.
    pub method: String,
    /// The path, with its leading `/`.
    pub path: String,
    /// The query string, without its `?`, where the request has one.
    pub query: Option<String>,
}

/// What the API answers. A response with rows has the content type
/// `application/json`, and its body is the array of the rows, each an array of
/// seconds and value; a response without rows has no body.
#[derive(Debug)]
pub struct Response {
    /// The status code.
    pub status: u16,
    /// Whether the response allows any origin to read it.
    pub allow_any_origin: bool,
    /// The rows of the answer, the earliest first.
    pub rows: Option<Vec<(i64, u32)>>,
    /// Why the query was not answered, for the log; it is not sent.
    pub failure: Option<QueryError>,
}

/// The status, rows and failure of a response.
pub struct Answer {
    pub status: u16,
    pub rows: Option<Seq<(i64, u32)>>,
    pub failure: Option<QueryError>,
}

impl View for Response {
    type V = Answer;

    open spec fn view(&self) -> Answer {
        Answer {
            status: self.status,
            rows: match self.rows {
                Some(rows) => Some(rows@),
                None => None,
            },
            failure: self.failure,
        }
    }
}

/// The answer that refuses a request with `status`.
pub open spec fn refusal(status: u16, failure: Option<QueryError>) -> Answer {
    Answer { status, rows: None, failure }
}

/// The answer to a query of which the store gave `found`, or failed to.
pub open spec fn answer_of(found: Result<Seq<(i64, u32)>, QueryError>) -> Answer {
    match found {
        Ok(rows) => Answer { status: OK, rows: Some(rows), failure: None },
        Err(e) => refusal(BAD_REQUEST, Some(e)),
    }
}

/// The pairs of a query string, where there is one.
pub open spec fn pairs_of(query: Option<String>) -> Option<Seq<(Seq<char>, Seq<char>)>> {
    match query {
        Some(query) => Some(form_pairs(bytes_of(query@))),
        None => None,
    }
}

/// The deep view of the pairs of a query, where there are any.
pub open spec fn pairs_view(pairs: Option<Vec<(String, String)>>) -> Option<
    Seq<(Seq<char>, Seq<char>)>,
> {
    match pairs {
        Some(pairs) => Some(pairs.deep_view()),
        None => None,
    }
}

/// Routes the requests of the read API to the query service.
#[derive(Debug)]
pub struct RangeApi {
    service: QueryService,
}

impl RangeApi {
    /// The query service behind the API.
    pub closed spec fn service(&self) -> QueryService {
        self.service
    }

    /// The invariant of the API: that of its query service.
    pub open spec fn wf(&self) -> bool {
        self.service().wf()
    }

    /// An API in front of `service`.
    pub fn new(service: QueryService) -> (api: RangeApi)
        requires
            service.wf(),
        ensures
            api.wf(),
            api.service() == service,
    {
        RangeApi { service }
    }

    /// The allow-list of the API.
    pub fn allow_list(&self) -> (topics: &AllowList)
        ensures
            *topics == self.service().topics(),
    {
        self.service.allow_list()
    }

    /// The gates that a request passes before the store is asked, in order:
    /// its method must be `GET`, its topic must be listed, it must have a
    /// query string, and the pairs of that must give a range. `pairs` are the
    /// pairs of the query string, where the request has one.
    pub open spec fn admission(
        &self,
        method: Seq<char>,
        path: Seq<u8>,
        pairs: Option<Seq<(Seq<char>, Seq<char>)>>,
    ) -> Result<RangePlan, Answer> {
        if method != "GET"@ {
            Err(refusal(METHOD_NOT_ALLOWED, None))
        } else if !is_listed(self.service().topics().subtopics(), topic_of_path(path)) {
            Err(refusal(NOT_FOUND, None))
        } else {
            match pairs {
                None => Err(refusal(BAD_REQUEST, None)),
                Some(pairs) => match self.service().plan_of(path, pairs) {
                    Ok(plan) => Ok(plan),
                    Err(e) => Err(refusal(BAD_REQUEST, Some(e))),
                },
            }
        }
    }

    /// The answer to a request over the series of `store`.
    pub open spec fn answer_to(
        &self,
        store: Map<Seq<u8>, Seq<Reading>>,
        method: Seq<char>,
        path: Seq<u8>,
        pairs: Option<Seq<(Seq<char>, Seq<char>)>>,
    ) -> Answer {
        match self.admission(method, path, pairs) {
            Err(answer) => answer,
            Ok(plan) => answer_of(self.service().lookup(store, plan)),
        }
    }

    /// Passes a request through the gates that stand before the store: either
    /// it is admitted, and the plan says what to ask of the store, or it is
    /// refused, and the response says how.
    pub fn screen(&self, method: &str, path: &str, pairs: &Option<Vec<(String, String)>>) -> (next:
        Result<RangePlan, Response>)
        requires
            self.wf(),
        ensures
            (match self.admission(method@, bytes_of(path@), pairs_view(*pairs)) {
                Ok(plan) => next == Ok::<RangePlan, Response>(plan) && plan.index
                    < self.service().topics().subtopics().len(),
                Err(answer) => next matches Err(response) && response@ == answer
                    && response.allow_any_origin,
            }),
    {
        proof {
            lemma_same_text(method@, "GET"@);
        }
        if !same_bytes(method.as_bytes(), "GET".as_bytes()) {
            return Err(refuse(METHOD_NOT_ALLOWED, None));
        }
        let topic = topic_in_path(path.as_bytes());
        if self.service.allow_list().position(topic.as_slice()).is_none() {
            return Err(refuse(NOT_FOUND, None));
        }
        let pairs = match pairs {
            Some(pairs) => pairs,
            None => {
                return Err(refuse(BAD_REQUEST, None));
            },
        };
        match self.service.plan(path, pairs) {
            Ok(plan) => Ok(plan),
            Err(e) => Err(refuse(BAD_REQUEST, Some(e))),
        }
    }

    /// Passes a request through the gates that stand before the store.
    pub fn route(&self, request: &Request) -> (next: Result<RangePlan, Response>)
        requires
            self.wf(),
        ensures
            (match self.admission(request.method@, bytes_of(request.path@), pairs_of(request.query)) {
                Ok(plan) => next == Ok::<RangePlan, Response>(plan) && plan.index
                    < self.service().topics().subtopics().len(),
                Err(answer) => next matches Err(response) && response@ == answer
                    && response.allow_any_origin,
            }),
    {
        let pairs = match &request.query {
            Some(query) => Some(parse_form(query.as_str().as_bytes())),
            None => None,
        };
        self.screen(request.method.as_str(), request.path.as_str(), &pairs)
    }

    /// Answers a request whose query string, where it has one, was parsed
    /// into `pairs`.
    pub fn respond(
        &self,
        store: &TimeSeriesStore,
        method: &str,
        path: &str,
        pairs: &Option<Vec<(String, String)>>,
    ) -> (response: Response)
        requires
            self.wf(),
            store.wf(),
        ensures
            response.allow_any_origin,
            response@ == self.answer_to(store@, method@, bytes_of(path@), pairs_view(*pairs)),
            response@.rows matches Some(rows) ==> rows_ascend(rows),
    {
        let plan = match self.screen(method, path, pairs) {
            Ok(plan) => plan,
            Err(response) => {
                return response;
            },
        };
        let key = self.service.allow_list().key(plan.index);
        match store.range_query(key, plan.from, plan.to) {
            Ok(readings) => {
                proof {
                    lemma_rows_ascend(readings@);
                }
                Response {
                    status: OK,
                    allow_any_origin: true,
                    rows: Some(to_unix_rows(&readings)),
                    failure: None,
                }
            },
            Err(e) => refuse(BAD_REQUEST, Some(QueryError::Store(e))),
        }
    }

    /// Answers a request.
    pub fn handle(&self, store: &TimeSeriesStore, request: &Request) -> (response: Response)
        requires
            self.wf(),
            store.wf(),
        ensures
            response.allow_any_origin,
            response@ == self.answer_to(
                store@,
                request.method@,
                bytes_of(request.path@),
                pairs_of(request.query),
            ),
            response@.rows matches Some(rows) ==> rows_ascend(rows),
    {
        let pairs = match &request.query {
            Some(query) => Some(parse_form(query.as_str().as_bytes())),
            None => None,
        };
        self.respond(store, request.method.as_str(), request.path.as_str(), &pairs)
    }
}

/// The response that refuses a request with `status`.
pub fn refuse(status: u16, failure: Option<QueryError>) -> (response: Response)
    ensures
        response.allow_any_origin,
        response@ == refusal(status, failure),
{
    Response { status, allow_any_origin: true, rows: None, failure }
}

/// The rows that answer a query for the range from `from` to `to` out of the
/// rows that a store gave for it, in whatever order and with whatever else it
/// gave them: of the readings of one timestamp the first counts.
pub open spec fn rows_in_range(loaded: Seq<Reading>, from: Instant, to: Instant) -> Seq<
    (i64, u32),
> {
    unix_rows(readings_within(series_of(loaded), from, to))
}

/// What a store outside this library gave for a query, as the rows of the
/// range from `from` to `to`, or its failure.
pub open spec fn loaded_rows(from: Instant, to: Instant, loaded: Result<Vec<Reading>, StoreError>) -> Result<
    Seq<(i64, u32)>,
    QueryError,
> {
    match loaded {
        Ok(readings) => Ok(rows_in_range(readings@, from, to)),
        Err(e) => Err(QueryError::Store(e)),
    }
}

/// Answers an admitted query of which a store outside this library gave
/// `loaded`, or failed to: the response has the readings of `loaded` that lie
/// in the range of the plan, the earliest first.
pub fn answer(plan: &RangePlan, loaded: Result<Vec<Reading>, StoreError>) -> (response: Response)
    ensures
        response.allow_any_origin,
        response@ == answer_of(loaded_rows(plan.from, plan.to, loaded)),
        response@.rows matches Some(rows) ==> rows_ascend(rows),
{
    match loaded {
        Ok(readings) => {
            let series = Series::from_batch(&readings);
            let found = series.range_query(plan.from, plan.to);
            proof {
                lemma_rows_ascend(found@);
            }
            Response {
                status: OK,
                allow_any_origin: true,
                rows: Some(to_unix_rows(&found)),
                failure: None,
            }
        },
        Err(e) => refuse(BAD_REQUEST, Some(QueryError::Store(e))),
    }
}

/// Where a store outside this library gives the readings of a series that
/// lie in a range at least as wide as the one that was asked for, `answer`
/// has the rows that the series itself would give for the range.
pub proof fn lemma_answer_of_loaded(
    series: Seq<Reading>,
    wide_from: Instant,
    wide_to: Instant,
    from: Instant,
    to: Instant,
)
    requires
        ascending(series),
        wide_from.at_or_before(from),
        to.at_or_before(wide_to),
    ensures
        rows_in_range(readings_within(series, wide_from, wide_to), from, to) == unix_rows(
            readings_within(series, from, to),
        ),
{
    lemma_readings_within(series, wide_from, wide_to);
    lemma_series_of_ascending(readings_within(series, wide_from, wide_to));
    lemma_narrowed(series, wide_from, wide_to, from, to);
}

} // verus!

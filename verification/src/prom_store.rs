//! Remote write and remote read of Prometheus over HTTP: what a request asks for, how its body
//! is decoded, and how it is answered.

use std::collections::HashMap;

use axum::http::HeaderValue;
use headers::ContentEncoding;
use vstd::prelude::*;

use crate::metrics_batch_builder::DEFAULT_SCHEMA_NAME;
use crate::pending_rows_batcher::GREPTIME_PHYSICAL_TABLE;
use crate::prom_bulk;
use crate::prom_wire;
use crate::proto;
use crate::proto::{PromDecodeError, PromTimeSeries, PromWriteRequest};

verus! {

/// The name under which a session holds the physical table.
pub const PHYSICAL_TABLE_PARAM: &'static str = "physical_table";

/// The encoding of a body, where the request names no other.
pub const DEFAULT_ENCODING: &'static str = "snappy";

/// The encoding of a body that VictoriaMetrics sends.
pub const VM_ENCODING: &'static str = "zstd";

/// The version of the protocol that VictoriaMetrics is told.
pub const VM_PROTO_VERSION: &'static str = "1";

/// The name of the header that holds the metrics of a response.
pub const GREPTIME_DB_HEADER_METRICS: &'static str = "x-greptime-metrics";

/// The status of an answer without a body.
pub const NO_CONTENT: u16 = 204;

/// The parameters of a request.
#[derive(Debug)]
pub struct RemoteWriteQuery {
    pub db: Option<String>,
    /// The physical table to store metrics in; used by writes only.
    pub physical_table: Option<String>,
    /// Set where VictoriaMetrics asks for the version of the protocol.
    pub get_vm_proto_version: Option<String>,
}

impl Default for RemoteWriteQuery {
    fn default() -> (r: RemoteWriteQuery)
        ensures
            r.db matches Some(db) && db@ == DEFAULT_SCHEMA_NAME@,
            r.physical_table matches Some(table) && table@ == GREPTIME_PHYSICAL_TABLE@,
            r.get_vm_proto_version is None,
    {
        RemoteWriteQuery {
            db: Some(DEFAULT_SCHEMA_NAME.to_string()),
            physical_table: Some(GREPTIME_PHYSICAL_TABLE.to_string()),
            get_vm_proto_version: None,
        }
    }
}

/// What the server is set up with, as far as a write depends on it.
#[derive(Clone, Copy, Debug, PartialEq, Eq, Structural)]
pub struct PromStoreState {
    /// There is a handler of pipelines.
    pub pipeline_handler: bool,
    /// Rows are written in bulk.
    pub bulk_state: bool,
}

/// A pipeline that a request names: its version, and its definition, or why there is none.
pub enum Pipeline {
    /// The version cannot be read.
    InvalidVersion(String),
    /// There is no such pipeline.
    InvalidDefinition(String),
    Defined,
}

/// Why a write is refused.
#[derive(Debug)]
pub enum WriteError {
    /// The named pipeline cannot be used.
    Pipeline(String),
    /// There is no handler of pipelines.
    NoPipelineHandler,
    /// The body is compressed in neither way.
    Decompress(String),
    /// The body is no request.
    Decode(PromDecodeError),
}

/// What is done about a write.
#[derive(Debug)]
pub enum WriteStart {
    /// VictoriaMetrics is told the version of the protocol.
    Handshake,
    /// The write is refused.
    Refuse(WriteError),
    /// The body is to be decoded.
    Decode(WritePlan),
}

/// How the body of a write is decoded, and what the session is told before.
#[derive(Debug)]
pub struct WritePlan {
    /// The physical table that the session is told.
    pub physical_table: Option<String>,
    /// The rows go through a pipeline.
    pub use_pipeline: bool,
    /// The rows are handed over in bulk.
    pub bulk: bool,
    pub is_zstd: bool,
}

/// Why a pipeline cannot be used.
pub open spec fn pipeline_refused(pipeline: Option<Pipeline>, state: PromStoreState) -> bool {
    match pipeline {
        None => false,
        Some(Pipeline::Defined) => !state.pipeline_handler,
        Some(_) => true,
    }
}

/// Whether the pipeline that a write names is to be looked up: not for a handshake, which
/// is answered before anything else.
pub fn looks_up_pipeline(params: &RemoteWriteQuery, named: bool) -> (r: bool)
    ensures
        r == (named && params.get_vm_proto_version is None),
{
    named && params.get_vm_proto_version.is_none()
}

/// headers' `ContentEncoding`.
#[verifier::external_type_specification]
#[verifier::external_body]
pub struct ExContentEncoding(ContentEncoding);

/// What a `ContentEncoding` holds: the codings that were applied to a body, by their names.
pub uninterp spec fn codings(e: ContentEncoding) -> Set<Seq<char>>;

/// `ContentEncoding::contains`: whether a coding is among those that were applied.
#[verifier::external_body]
fn content_encoding_contains(e: &ContentEncoding, coding: &str) -> (r: bool)
    ensures
        r == codings(*e).contains(coding@),
{
    e.contains(coding)
}

/// What is done about a write, given whether its body is said to be compressed by zstd.
pub open spec fn starts(
    r: WriteStart,
    state: PromStoreState,
    params: RemoteWriteQuery,
    pipeline: Option<Pipeline>,
    is_zstd: bool,
) -> bool {
    &&& r is Handshake <==> params.get_vm_proto_version is Some
    &&& r is Refuse <==> params.get_vm_proto_version is None && pipeline_refused(pipeline, state)
    &&& match r {
        WriteStart::Handshake => true,
        WriteStart::Refuse(e) => match pipeline {
            Some(Pipeline::InvalidVersion(reason)) => e == WriteError::Pipeline(reason),
            Some(Pipeline::InvalidDefinition(reason)) => e == WriteError::Pipeline(reason),
            _ => e is NoPipelineHandler,
        },
        WriteStart::Decode(plan) => {
            &&& plan.physical_table == params.physical_table
            &&& plan.is_zstd == is_zstd
            &&& plan.bulk == state.bulk_state
            &&& plan.use_pipeline == (pipeline is Some && !state.bulk_state)
        },
    }
}

/// What is done about a write. A pipeline that cannot be used refuses it; where rows are
/// written in bulk, the pipeline is not used. The body is taken to be compressed by zstd where
/// that is among the codings of the request.
pub fn remote_write(
    state: PromStoreState,
    params: RemoteWriteQuery,
    pipeline: Option<Pipeline>,
    content_encoding: &ContentEncoding,
) -> (r: WriteStart)
    ensures
        starts(
            r,
            state,
            params,
            pipeline,
            codings(*content_encoding).contains(VM_ENCODING@),
        ),
{
    let is_zstd: bool = content_encoding_contains(content_encoding, VM_ENCODING);
    start_write(state, params, pipeline, is_zstd)
}

/// What is done about a write, given whether its body is said to be compressed by zstd.
pub fn start_write(
    state: PromStoreState,
    params: RemoteWriteQuery,
    pipeline: Option<Pipeline>,
    is_zstd: bool,
) -> (r: WriteStart)
    ensures
        starts(r, state, params, pipeline, is_zstd),
{
    if params.get_vm_proto_version.is_some() {
        return WriteStart::Handshake;
    }
    let named: bool = pipeline.is_some();
    match pipeline {
        Some(Pipeline::InvalidVersion(reason)) => {
            return WriteStart::Refuse(WriteError::Pipeline(reason));
        },
        Some(Pipeline::InvalidDefinition(reason)) => {
            return WriteStart::Refuse(WriteError::Pipeline(reason));
        },
        Some(Pipeline::Defined) => {
            if !state.pipeline_handler {
                return WriteStart::Refuse(WriteError::NoPipelineHandler);
            }
        },
        None => {},
    }
    WriteStart::Decode(
        WritePlan {
            physical_table: params.physical_table,
            use_pipeline: named && !state.bulk_state,
            bulk: state.bulk_state,
            is_zstd,
        },
    )
}

/// How a body is compressed.
#[derive(Clone, Copy, Debug, PartialEq, Eq, Structural)]
pub enum Codec {
    Zstd,
    Snappy,
}

/// Finds out how a body is compressed: as the request says or, as some clients name the wrong
/// way, in the other way.
#[derive(Clone, Copy, Debug, PartialEq, Eq, Structural)]
pub struct Decompression {
    pub is_zstd: bool,
    pub fallback: bool,
}

/// What is done about the outcome of a decompression.
#[derive(Debug)]
pub enum DecompressStep {
    Decompressed(Vec<u8>),
    Again(Decompression),
    Failed(WriteError),
}

impl Decompression {
    /// The first of two tries.
    pub fn new(is_zstd: bool) -> (r: Self)
        ensures
            r == (Decompression { is_zstd, fallback: false }),
    {
        Decompression { is_zstd, fallback: false }
    }

    /// How the body is to be decompressed.
    pub fn try_decompress(&self) -> (r: Codec)
        ensures
            r == codec_of(*self),
    {
        if self.is_zstd {
            Codec::Zstd
        } else {
            Codec::Snappy
        }
    }

    /// What is done about the outcome: where the first try fails the other way is tried, and
    /// where that fails, its failure is that of the write.
    pub fn tried(self, outcome: Result<Vec<u8>, String>) -> (r: DecompressStep)
        ensures
            r == step_of(self, outcome),
    {
        match outcome {
            Ok(buf) => DecompressStep::Decompressed(buf),
            Err(e) => if self.fallback {
                DecompressStep::Failed(WriteError::Decompress(e))
            } else {
                DecompressStep::Again(Decompression { is_zstd: !self.is_zstd, fallback: true })
            },
        }
    }
}

/// What a whole decompression comes to, where `zstd` and `snappy` are the outcomes of the two
/// ways: the way that the request names where it works, else the other.
pub open spec fn decompressed(
    is_zstd: bool,
    zstd: Result<Vec<u8>, String>,
    snappy: Result<Vec<u8>, String>,
) -> Result<Vec<u8>, WriteError> {
    let (first, second) = if is_zstd {
        (zstd, snappy)
    } else {
        (snappy, zstd)
    };
    match first {
        Ok(buf) => Ok(buf),
        Err(_) => match second {
            Ok(buf) => Ok(buf),
            Err(e) => Err(WriteError::Decompress(e)),
        },
    }
}

/// The way that a try names.
pub open spec fn codec_of(tried: Decompression) -> Codec {
    if tried.is_zstd {
        Codec::Zstd
    } else {
        Codec::Snappy
    }
}

/// The outcome of the way that a try names.
pub open spec fn outcome_of(
    tried: Decompression,
    zstd: Result<Vec<u8>, String>,
    snappy: Result<Vec<u8>, String>,
) -> Result<Vec<u8>, String> {
    match codec_of(tried) {
        Codec::Zstd => zstd,
        Codec::Snappy => snappy,
    }
}

/// The step that [`Decompression::tried`] takes.
pub open spec fn step_of(tried: Decompression, outcome: Result<Vec<u8>, String>) -> DecompressStep {
    match outcome {
        Ok(buf) => DecompressStep::Decompressed(buf),
        Err(e) => if tried.fallback {
            DecompressStep::Failed(WriteError::Decompress(e))
        } else {
            DecompressStep::Again(Decompression { is_zstd: !tried.is_zstd, fallback: true })
        },
    }
}

/// Two tries are enough, and a body that is compressed in one of the two ways is read, whatever
/// the request says.
pub proof fn law_either_codec_is_read(
    is_zstd: bool,
    zstd: Result<Vec<u8>, String>,
    snappy: Result<Vec<u8>, String>,
)
    ensures
        ({
            let first = Decompression { is_zstd, fallback: false };
            match step_of(first, outcome_of(first, zstd, snappy)) {
                DecompressStep::Decompressed(buf) => decompressed(is_zstd, zstd, snappy) == Ok::<
                    Vec<u8>,
                    WriteError,
                >(buf),
                DecompressStep::Failed(_) => false,
                DecompressStep::Again(second) => match step_of(
                    second,
                    outcome_of(second, zstd, snappy),
                ) {
                    DecompressStep::Decompressed(buf) => decompressed(is_zstd, zstd, snappy)
                        == Ok::<Vec<u8>, WriteError>(buf),
                    DecompressStep::Failed(e) => decompressed(is_zstd, zstd, snappy) == Err::<
                        Vec<u8>,
                        WriteError,
                    >(e),
                    DecompressStep::Again(_) => false,
                },
            }
        }),
        zstd is Ok || snappy is Ok ==> decompressed(is_zstd, zstd, snappy) is Ok,
{
}

/// Reads the series of a decompressed body. The request may be one that was used before; what
/// it held then stays in front.
pub fn decode_remote_write_request(request: &mut PromWriteRequest, buf: Vec<u8>) -> (r: Result<
    Vec<PromTimeSeries>,
    WriteError,
>)
    ensures
        ({
            let (after, failed) = proto::request_fields(old(request)@, buf@);
            match r {
                Ok(series) => {
                    &&& failed is None
                    &&& proto::series_views(series@) == after.table_data
                    &&& final(request)@.table_data == Seq::<proto::SeriesView>::empty()
                    &&& final(request)@.series == after.series
                },
                Err(e) => {
                    &&& e matches WriteError::Decode(e) && failed == Some(e@)
                    &&& final(request)@ == after
                },
            }
        }),
{
    match request.merge(prom_wire::bytes_from(buf)) {
        Ok(_) => Ok(request.take_table_data()),
        Err(e) => Err(WriteError::Decode(e)),
    }
}

/// How a write is answered.
#[derive(Clone, Copy, Debug, PartialEq, Eq, Structural)]
pub struct WriteAnswer {
    pub status: u16,
    /// What the write cost, which a header says.
    pub cost: u64,
}

/// The answer to a write in bulk, whose rows were handed over.
pub fn bulk_answer() -> (r: WriteAnswer)
    ensures
        r == (WriteAnswer { status: NO_CONTENT, cost: 0 }),
{
    WriteAnswer { status: NO_CONTENT, cost: 0 }
}

/// The answer to a write, whose requests were written at the given costs.
pub fn write_answer(costs: &Vec<u64>) -> (r: WriteAnswer)
    requires
        prom_bulk::sum(costs@) <= u64::MAX,
    ensures
        r.status == NO_CONTENT,
        r.cost == prom_bulk::sum(costs@),
{
    WriteAnswer { status: NO_CONTENT, cost: prom_bulk::total_rows(costs) }
}

/// The sum of the numbers that are there.
pub open spec fn sum_of_some(numbers: Seq<Option<u64>>) -> nat
    decreases numbers.len(),
{
    if numbers.len() == 0 {
        0
    } else {
        sum_of_some(numbers.drop_last()) + match numbers.last() {
            Some(n) => n as nat,
            None => 0,
        }
    }
}

proof fn lemma_sum_of_some_prefix(numbers: Seq<Option<u64>>, n: int)
    requires
        0 <= n <= numbers.len(),
    ensures
        sum_of_some(numbers.take(n)) <= sum_of_some(numbers),
    decreases numbers.len() - n,
{
    if n < numbers.len() {
        lemma_sum_of_some_prefix(numbers, n + 1);
        assert(numbers.take(n + 1).drop_last() =~= numbers.take(n));
    } else {
        assert(numbers.take(n) =~= numbers);
    }
}

/// The number of rows that a request inserts, given that of each of its inserts, which may have
/// none.
pub fn inserted_rows(inserts: &Vec<Option<u64>>) -> (r: u64)
    requires
        sum_of_some(inserts@) <= u64::MAX,
    ensures
        r == sum_of_some(inserts@),
{
    let mut total: u64 = 0;
    let mut i: usize = 0;
    assert(inserts@.take(0) =~= Seq::<Option<u64>>::empty());
    while i < inserts.len()
        invariant
            i <= inserts@.len(),
            sum_of_some(inserts@) <= u64::MAX,
            total == sum_of_some(inserts@.take(i as int)),
        decreases inserts@.len() - i,
    {
        proof {
            lemma_sum_of_some_prefix(inserts@, i + 1);
        }
        assert(inserts@.take(i + 1).drop_last() =~= inserts@.take(i as int));
        if let Some(rows) = inserts[i] {
            total = total + rows;
        }
        i = i + 1;
    }
    assert(inserts@.take(i as int) =~= inserts@);
    total
}

/// serde_json's `Value`.
#[verifier::external_type_specification]
#[verifier::external_body]
pub struct ExValue(serde_json::Value);

/// `serde_json::to_string`: metrics as JSON. As it goes by the order in which the map is
/// walked, nothing is said of the text.
#[verifier::external_body]
fn metrics_json(metrics: &HashMap<String, serde_json::Value>) -> Option<String> {
    serde_json::to_string(metrics).ok()
}

/// A response to a read.
#[derive(Debug)]
pub struct PromStoreResponse {
    pub content_type: String,
    pub content_encoding: String,
    /// The metrics of the response, by their names.
    pub resp_metrics: HashMap<String, serde_json::Value>,
    pub body: Vec<u8>,
}

/// A response as it is sent: its headers, each with its name, and its body.
#[derive(Debug)]
pub struct HttpResponse {
    pub headers: Vec<(String, String)>,
    pub body: Vec<u8>,
}

/// Whether bytes can stand in a header: none is a control character but the tabulator.
pub open spec fn is_header_value(bytes: Seq<u8>) -> bool {
    forall|i: int|
        0 <= i < bytes.len() ==> (#[trigger] bytes[i] >= 32 && bytes[i] != 127) || bytes[i] == 9
}

/// `HeaderValue::from_str`: whether a text can stand in a header.
#[verifier::external_body]
fn header_value(text: &str) -> (r: bool)
    ensures
        r == is_header_value(vstd::utf8::encode_utf8(text@)),
{
    HeaderValue::from_str(text).is_ok()
}

/// What headers say.
pub open spec fn header_views(headers: Seq<(String, String)>) -> Seq<(Seq<char>, Seq<char>)> {
    headers.map_values(|h: (String, String)| (h.0@, h.1@))
}

/// The headers of a response with the given metrics. Metrics that cannot stand in a header are
/// left out.
pub open spec fn headers_of(
    content_type: Seq<char>,
    content_encoding: Seq<char>,
    metrics: Option<Seq<char>>,
) -> Seq<(Seq<char>, Seq<char>)> {
    let headers = seq![
        ("content-type"@, content_type),
        ("content-encoding"@, content_encoding),
    ];
    match metrics {
        Some(metrics) if is_header_value(vstd::utf8::encode_utf8(metrics)) => headers.push(
            (GREPTIME_DB_HEADER_METRICS@, metrics),
        ),
        _ => headers,
    }
}

/// What an optional text says.
pub open spec fn text_view(text: Option<String>) -> Option<Seq<char>> {
    match text {
        Some(text) => Some(text@),
        None => None,
    }
}

/// The response as it is sent, given how its metrics are written. Metrics that cannot stand in
/// a header are left out.
pub fn response_with(
    content_type: String,
    content_encoding: String,
    metrics: Option<String>,
    body: Vec<u8>,
) -> (r: HttpResponse)
    ensures
        header_views(r.headers@) == headers_of(
            content_type@,
            content_encoding@,
            text_view(metrics),
        ),
        r.body == body,
{
    let ghost expected = headers_of(content_type@, content_encoding@, text_view(metrics));
    let mut headers: Vec<(String, String)> = Vec::new();
    headers.push(("content-type".to_string(), content_type));
    headers.push(("content-encoding".to_string(), content_encoding));
    if let Some(metrics) = metrics {
        if header_value(metrics.as_str()) {
            headers.push((GREPTIME_DB_HEADER_METRICS.to_string(), metrics));
        }
    }
    assert(header_views(headers@) =~= expected);
    HttpResponse { headers, body }
}

impl PromStoreResponse {
    /// The headers are those of the response, with its metrics written in some way where it has
    /// any.
    pub open spec fn is_sent_with(self, headers: Seq<(Seq<char>, Seq<char>)>) -> bool {
        exists|metrics: Option<Seq<char>>|
            {
                &&& self.resp_metrics@.is_empty() ==> metrics is None
                &&& headers == #[trigger] headers_of(
                    self.content_type@,
                    self.content_encoding@,
                    metrics,
                )
            }
    }

    /// The response as it is sent. Where there are no metrics, or they cannot be written or
    /// stand in a header, they are left out.
    pub fn into_response(self) -> (r: HttpResponse)
        ensures
            self.is_sent_with(header_views(r.headers@)),
            self.resp_metrics@.is_empty() ==> header_views(r.headers@) == headers_of(
                self.content_type@,
                self.content_encoding@,
                None,
            ),
            r.body == self.body,
    {
        let metrics: Option<String> = if self.resp_metrics.is_empty() {
            None
        } else {
            metrics_json(&self.resp_metrics)
        };
        let ghost written = text_view(metrics);
        let r = response_with(self.content_type, self.content_encoding, metrics, self.body);
        assert(header_views(r.headers@) == headers_of(
            self.content_type@,
            self.content_encoding@,
            written,
        ));
        r
    }
}

/// What is done about a write, case by case. One that asks for the version of the protocol is
/// told it. Any other is refused where it names a pipeline that cannot be read or found, with the
/// reason, or where it names one and there is no handler. Else its body is decoded: as zstd where
/// the request says so, for the table that the request names, in bulk where the server writes in
/// bulk, and through the pipeline where one is named and the server does not write in bulk.
pub proof fn law_write_case_by_case(
    r: WriteStart,
    state: PromStoreState,
    params: RemoteWriteQuery,
    pipeline: Option<Pipeline>,
    is_zstd: bool,
)
    requires
        starts(r, state, params, pipeline, is_zstd),
    ensures
        params.get_vm_proto_version is Some ==> r is Handshake,
        params.get_vm_proto_version is None ==> match pipeline {
            Some(Pipeline::InvalidVersion(reason)) => r matches WriteStart::Refuse(
                WriteError::Pipeline(told),
            ) && told == reason,
            Some(Pipeline::InvalidDefinition(reason)) => r matches WriteStart::Refuse(
                WriteError::Pipeline(told),
            ) && told == reason,
            Some(Pipeline::Defined) => if state.pipeline_handler {
                r matches WriteStart::Decode(plan) && plan.physical_table == params.physical_table
                    && plan.is_zstd == is_zstd && plan.bulk == state.bulk_state
                    && plan.use_pipeline == !state.bulk_state
            } else {
                r matches WriteStart::Refuse(e) && e is NoPipelineHandler
            },
            None => r matches WriteStart::Decode(plan) && plan.physical_table
                == params.physical_table && plan.is_zstd == is_zstd && plan.bulk
                == state.bulk_state && !plan.use_pipeline,
        },
{
}

/// The way that a request names is tried first, and where it works its outcome counts; the other
/// counts only where the first fails; and where both fail, what is told is why the other did.
pub proof fn law_named_codec_first(
    is_zstd: bool,
    zstd: Result<Vec<u8>, String>,
    snappy: Result<Vec<u8>, String>,
)
    ensures
        codec_of(Decompression { is_zstd, fallback: false }) == (if is_zstd {
            Codec::Zstd
        } else {
            Codec::Snappy
        }),
        is_zstd && zstd is Ok ==> decompressed(is_zstd, zstd, snappy) == Ok::<Vec<u8>, WriteError>(
            zstd->Ok_0,
        ),
        !is_zstd && snappy is Ok ==> decompressed(is_zstd, zstd, snappy) == Ok::<
            Vec<u8>,
            WriteError,
        >(snappy->Ok_0),
        is_zstd && zstd is Err && snappy is Ok ==> decompressed(is_zstd, zstd, snappy) == Ok::<
            Vec<u8>,
            WriteError,
        >(snappy->Ok_0),
        !is_zstd && snappy is Err && zstd is Ok ==> decompressed(is_zstd, zstd, snappy) == Ok::<
            Vec<u8>,
            WriteError,
        >(zstd->Ok_0),
        zstd is Err && snappy is Err ==> decompressed(is_zstd, zstd, snappy) == Err::<
            Vec<u8>,
            WriteError,
        >(
            WriteError::Decompress(
                if is_zstd {
                    snappy->Err_0
                } else {
                    zstd->Err_0
                },
            ),
        ),
{
}

/// A response is sent with its type and its encoding, in that order, and then its metrics where
/// they can stand in a header; nothing else.
pub proof fn law_headers(
    content_type: Seq<char>,
    content_encoding: Seq<char>,
    metrics: Option<Seq<char>>,
)
    ensures
        ({
            let headers = headers_of(content_type, content_encoding, metrics);
            &&& headers.len() >= 2
            &&& headers[0] == ("content-type"@, content_type)
            &&& headers[1] == ("content-encoding"@, content_encoding)
            &&& metrics is None ==> headers.len() == 2
            &&& metrics matches Some(m) ==> {
                let bytes = vstd::utf8::encode_utf8(m);
                if forall|i: int|
                    0 <= i < bytes.len() ==> #[trigger] bytes[i] == 9 || (bytes[i] >= 32 && bytes[i]
                        != 127) {
                    headers.len() == 3 && headers[2] == ("x-greptime-metrics"@, m)
                } else {
                    headers.len() == 2
                }
            }
        }),
{
}

/// The rows of inserts are counted: those of two lists together are those of the one and those of
/// the other; an insert that has none counts for nothing.
pub proof fn law_inserted_rows(a: Seq<Option<u64>>, b: Seq<Option<u64>>, n: u64)
    ensures
        sum_of_some(a + b) == sum_of_some(a) + sum_of_some(b),
        sum_of_some(seq![Some(n)]) == n,
        sum_of_some(seq![None]) == 0,
        sum_of_some(Seq::empty()) == 0,
    decreases b.len(),
{
    reveal_with_fuel(sum_of_some, 2);
    assert(seq![Some(n)].drop_last() =~= Seq::<Option<u64>>::empty());
    assert(seq![None::<u64>].drop_last() =~= Seq::<Option<u64>>::empty());
    if b.len() == 0 {
        assert(a + b =~= a);
    } else {
        law_inserted_rows(a, b.drop_last(), n);
        assert((a + b).drop_last() =~= a + b.drop_last());
    }
}

/// What is said of a write is done: a handshake is answered, a pipeline that cannot be used
/// refuses the write with its own reason, and any other write is decoded as the request says.
pub proof fn law_write_is_started(
    state: PromStoreState,
    params: RemoteWriteQuery,
    pipeline: Option<Pipeline>,
    is_zstd: bool,
    r: WriteStart,
)
    requires
        call_ensures(start_write, (state, params, pipeline, is_zstd), r),
    ensures
        params.get_vm_proto_version is Some <==> r is Handshake,
        params.get_vm_proto_version is None ==> match pipeline {
            Some(Pipeline::InvalidVersion(reason)) => r == WriteStart::Refuse(
                WriteError::Pipeline(reason),
            ),
            Some(Pipeline::InvalidDefinition(reason)) => r == WriteStart::Refuse(
                WriteError::Pipeline(reason),
            ),
            Some(Pipeline::Defined) => if state.pipeline_handler {
                r matches WriteStart::Decode(plan) && plan.physical_table == params.physical_table
                    && plan.is_zstd == is_zstd && plan.bulk == state.bulk_state
                    && plan.use_pipeline == !state.bulk_state
            } else {
                r matches WriteStart::Refuse(e) && e is NoPipelineHandler
            },
            None => r matches WriteStart::Decode(plan) && plan.physical_table
                == params.physical_table && plan.is_zstd == is_zstd && plan.bulk
                == state.bulk_state && !plan.use_pipeline,
        },
{
    law_write_case_by_case(r, state, params, pipeline, is_zstd);
}

/// A body is first decompressed as the request says; where that fails, in the other way, once; and
/// where that fails too, its failure is told. What was decompressed is handed on as it is.
pub proof fn law_body_is_decompressed(
    is_zstd: bool,
    first: Decompression,
    codec: Codec,
    outcome: Result<Vec<u8>, String>,
    step: DecompressStep,
    second_codec: Codec,
    second_outcome: Result<Vec<u8>, String>,
    second_step: DecompressStep,
)
    requires
        call_ensures(Decompression::new, (is_zstd,), first),
        call_ensures(Decompression::try_decompress, (&first,), codec),
        call_ensures(Decompression::tried, (first, outcome), step),
        step matches DecompressStep::Again(second) ==> call_ensures(
            Decompression::try_decompress,
            (&second,),
            second_codec,
        ) && call_ensures(Decompression::tried, (second, second_outcome), second_step),
    ensures
        codec == Codec::Zstd <==> is_zstd,
        outcome matches Ok(buf) ==> step == DecompressStep::Decompressed(buf),
        outcome is Err ==> {
            &&& step is Again
            &&& second_codec != codec
            &&& second_outcome matches Ok(buf) ==> second_step == DecompressStep::Decompressed(buf)
            &&& second_outcome matches Err(reason) ==> second_step == DecompressStep::Failed(
                WriteError::Decompress(reason),
            )
        },
{
}

/// A response is sent with its own type and coding, with its metrics where they can stand in a
/// header, and with its own body.
pub proof fn law_response_is_sent(
    content_type: String,
    content_encoding: String,
    metrics: Option<String>,
    body: Vec<u8>,
    r: HttpResponse,
)
    requires
        call_ensures(response_with, (content_type, content_encoding, metrics, body), r),
    ensures
        r.body@ == body@,
        2 <= r.headers@.len() <= 3,
        r.headers@[0].0@ == "content-type"@,
        r.headers@[0].1@ == content_type@,
        r.headers@[1].0@ == "content-encoding"@,
        r.headers@[1].1@ == content_encoding@,
        metrics is None ==> r.headers@.len() == 2,
        r.headers@.len() == 3 ==> (metrics matches Some(m) && r.headers@[2].0@
            == "x-greptime-metrics"@ && r.headers@[2].1@ == m@),
        metrics matches Some(m) ==> (r.headers@.len() == 3 <==> forall|i: int|
            0 <= i < vstd::utf8::encode_utf8(m@).len() ==> #[trigger] vstd::utf8::encode_utf8(
                m@,
            )[i] == 9 || (vstd::utf8::encode_utf8(m@)[i] >= 32 && vstd::utf8::encode_utf8(m@)[i]
                != 127)),
{
    law_headers(content_type@, content_encoding@, text_view(metrics));
    let views = header_views(r.headers@);
    assert(views.len() == r.headers@.len());
    assert(views[0] == (r.headers@[0].0@, r.headers@[0].1@));
    assert(views[1] == (r.headers@[1].0@, r.headers@[1].1@));
    if r.headers@.len() == 3 {
        assert(views[2] == (r.headers@[2].0@, r.headers@[2].1@));
    }
}

} // verus!

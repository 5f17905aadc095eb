use bytes::Bytes;
use greptimedb::batch_builder::MetricRow;
use greptimedb::keyed_map::KeyedMap;
use greptimedb::metrics_batch_builder::{
    collect_physical_region_metadata, AppendFailure, LogicalTables, PhysicalRegion, SchemaData,
    TableData,
};
use greptimedb::prom_bulk::{
    logical_tables, max_batch_interval_secs, max_batch_num, process_record_batches, total_rows,
    MissingRegion, PromBulkState,
};
use greptimedb::prom_store::{
    bulk_answer, decode_remote_write_request, inserted_rows, looks_up_pipeline, remote_write,
    response_with, start_write, write_answer, Codec, DecompressStep, Decompression, HttpResponse,
    Pipeline, PromStoreResponse, PromStoreState, RemoteWriteQuery, WriteError, WriteStart, GREPTIME_DB_HEADER_METRICS, NO_CONTENT,
};
use greptimedb::proto::{FaultKind, Place, PromTimeSeries, PromWriteRequest};
use greptimedb::region::RegionId;
use greptimedb::rows::{RowValue, ValueData};
use headers::{ContentEncoding, Header, HeaderValue};
use prost::encoding::{encode_key, encode_varint, WireType};

fn delimited(tag: u32, content: &[u8], out: &mut Vec<u8>) {
    encode_key(tag, WireType::LengthDelimited, out);
    encode_varint(content.len() as u64, out);
    out.extend_from_slice(content);
}

fn label(name: &str, value: &str) -> Vec<u8> {
    let mut out = vec![];
    delimited(1, name.as_bytes(), &mut out);
    delimited(2, value.as_bytes(), &mut out);
    out
}

fn sample(value: f64, timestamp: i64) -> Vec<u8> {
    let mut out = vec![];
    encode_key(1, WireType::SixtyFourBit, &mut out);
    out.extend(value.to_le_bytes());
    encode_key(2, WireType::Varint, &mut out);
    encode_varint(timestamp as u64, &mut out);
    out
}

fn series(labels: &[(&str, &str)], samples: &[(f64, i64)]) -> Vec<u8> {
    let mut out = vec![];
    for (name, value) in labels {
        delimited(1, &label(name, value), &mut out);
    }
    for (value, timestamp) in samples {
        delimited(2, &sample(*value, *timestamp), &mut out);
    }
    out
}

fn request(all: &[Vec<u8>]) -> Vec<u8> {
    let mut out = vec![];
    for one in all {
        delimited(1, one, &mut out);
    }
    out
}

fn labels_of(series: &PromTimeSeries) -> Vec<(Vec<u8>, Vec<u8>)> {
    series.labels.iter().map(|l| (l.name.to_vec(), l.value.to_vec())).collect()
}

fn fault(body: Vec<u8>) -> (FaultKind, Vec<Place>) {
    let failed = PromWriteRequest::new().merge(Bytes::from(body)).unwrap_err();
    (failed.kind, failed.stack)
}

#[test]
fn request_is_read_back() {
    let body = request(&[
        series(
            &[("__name__", "cpu_usage"), ("host", "h1"), ("zone", "")],
            &[(0.5, 1000), (-1.25, -7)],
        ),
        series(&[("__name__", "mem"), ("host", "h2")], &[(3.0, i64::MAX)]),
    ]);
    let mut decoded = PromWriteRequest::new();
    decoded.merge(Bytes::from(body)).unwrap();
    let (all, samples) = decoded.as_row_insert_requests();
    assert_eq!(samples, 3);
    assert_eq!(all.len(), 2);
    assert_eq!(all[0].table_name, "cpu_usage");
    assert_eq!(
        labels_of(&all[0]),
        vec![(b"host".to_vec(), b"h1".to_vec()), (b"zone".to_vec(), vec![])]
    );
    assert_eq!(f64::from_bits(all[0].samples[1].value_bits), -1.25);
    assert_eq!(all[0].samples[1].timestamp, -7);
    assert_eq!(all[1].table_name, "mem");
    assert_eq!(all[1].samples[0].timestamp, i64::MAX);
    assert!(decoded.table_data.is_empty());
}

#[test]
fn other_fields_are_passed_over() {
    let mut body = vec![];
    delimited(3, b"metadata", &mut body);
    let mut one = series(&[("__name__", "t")], &[(1.0, 2)]);
    encode_key(9, WireType::Varint, &mut one);
    encode_varint(300, &mut one);
    delimited(1, &one, &mut body);
    let mut decoded = PromWriteRequest::new();
    decoded.merge(Bytes::from(body)).unwrap();
    assert_eq!(decoded.take_table_data().len(), 1);
}

#[test]
fn a_request_can_be_used_again() {
    let body = request(&[series(&[("__name__", "t"), ("a", "b")], &[(1.0, 2)])]);
    let mut decoded = PromWriteRequest::new();
    decoded.merge(Bytes::from(body.clone())).unwrap();
    decoded.clear();
    assert!(decoded.table_data.is_empty());
    decoded.merge(Bytes::from(body)).unwrap();
    let all = decoded.take_table_data();
    assert_eq!(all.len(), 1);
    assert_eq!((all[0].labels.len(), all[0].samples.len()), (1, 1));
}

#[test]
fn faults_name_the_field() {
    assert_eq!(fault(vec![0x80]).0, FaultKind::InvalidKey);
    assert_eq!(fault(vec![0x08, 1]).0, FaultKind::UnexpectedWireType);
    assert_eq!(fault(vec![0x0a, 5, 0]).0, FaultKind::BufferUnderflow);
    assert_eq!(fault(vec![0x0a, 0xff]).0, FaultKind::InvalidVarint);
    assert_eq!(fault(vec![0x1a, 9]).0, FaultKind::InvalidField);

    let (kind, stack) = fault(request(&[vec![0x0a, 2, 0x0a, 9]]));
    assert_eq!(kind, FaultKind::BufferUnderflow);
    assert_eq!(stack[0], Place::LabelName);
    let (kind, stack) = fault(request(&[vec![0x12, 2, 0x08, 1]]));
    assert_eq!(kind, FaultKind::UnexpectedWireType);
    assert_eq!(stack, vec![Place::SampleValue, Place::SeriesSamples]);
    assert_eq!(fault(vec![0x0a, 0xff]).1, vec![Place::RequestTimeseries]);
    let mut name = vec![];
    delimited(1, b"__name__", &mut name);
    delimited(2, b"\xff\xfe", &mut name);
    let mut bad = vec![];
    delimited(1, &name, &mut bad);
    assert_eq!(fault(request(&[bad])).0, FaultKind::NotUtf8);
}

#[test]
fn message_must_end_where_its_length_says() {
    // The sample ends in the middle of its timestamp, which the next bytes complete.
    let mut one = vec![];
    encode_key(2, WireType::LengthDelimited, &mut one);
    encode_varint(2, &mut one);
    one.extend([0x10, 0x81, 0x01]);
    assert_eq!(fault(request(&[one])).0, FaultKind::DelimitedLengthExceeded);
}

#[test]
fn body_of_a_write_is_decoded() {
    let body = request(&[series(&[("__name__", "t")], &[(1.0, 2)])]);
    let mut decoded = PromWriteRequest::new();
    let all = decode_remote_write_request(&mut decoded, body).unwrap();
    assert_eq!(all[0].table_name, "t");
    let failed = decode_remote_write_request(&mut decoded, vec![0x80]);
    assert!(matches!(
        failed,
        Err(WriteError::Decode(e)) if e.kind == FaultKind::InvalidKey && e.cause.is_some()
    ));
}

#[test]
fn request_that_was_read_can_be_used_again() {
    let one = series(&[("__name__", "t"), ("host", "h")], &[(1.0, 2), (3.0, 4)]);
    let other = series(&[("__name__", "u")], &[(5.0, 6)]);
    let body = request(&[one, other]);
    let mut used = PromWriteRequest::new();
    for _ in 0..3 {
        used.clear();
        used.merge(Bytes::from(body.clone())).unwrap();
        let (all, samples) = used.as_row_insert_requests();
        assert_eq!(samples, 3);
        let names: Vec<&str> = all.iter().map(|s| s.table_name.as_str()).collect();
        assert_eq!(names, vec!["t", "u"]);
        assert_eq!((all[0].labels.len(), all[1].labels.len()), (1, 0));
    }
}

fn query() -> RemoteWriteQuery {
    RemoteWriteQuery::default()
}

#[test]
fn write_is_planned() {
    let state = PromStoreState { pipeline_handler: true, bulk_state: false };
    let mut params = query();
    params.physical_table = Some("phy".to_string());
    match start_write(state, params, Some(Pipeline::Defined), true) {
        WriteStart::Decode(plan) => {
            assert_eq!(plan.physical_table, Some("phy".to_string()));
            assert!(plan.use_pipeline && !plan.bulk && plan.is_zstd);
        }
        other => panic!("unexpected start: {other:?}"),
    }
    let bulk = PromStoreState { pipeline_handler: true, bulk_state: true };
    assert!(matches!(
        start_write(bulk, query(), Some(Pipeline::Defined), false),
        WriteStart::Decode(plan) if plan.bulk && !plan.use_pipeline
    ));
}

fn said_to_be_zstd(content_encoding: &ContentEncoding) -> bool {
    let state = PromStoreState { pipeline_handler: false, bulk_state: false };
    match remote_write(state, query(), None, content_encoding) {
        WriteStart::Decode(plan) => plan.is_zstd,
        other => panic!("unexpected start: {other:?}"),
    }
}

#[test]
fn content_encoding_names_the_compression() {
    assert!(said_to_be_zstd(&ContentEncoding::zstd()));
    assert!(!said_to_be_zstd(&ContentEncoding::gzip()));
    let decode = |values: &[&str]| {
        let values: Vec<HeaderValue> =
            values.iter().map(|v| HeaderValue::from_str(v).unwrap()).collect();
        ContentEncoding::decode(&mut values.iter()).unwrap()
    };
    assert!(said_to_be_zstd(&decode(&["gzip, zstd"])));
    assert!(said_to_be_zstd(&decode(&["gzip", "zstd"])));
    assert!(!said_to_be_zstd(&decode(&["snappy"])));
    assert!(!said_to_be_zstd(&decode(&["\"gzip, zstd\""])));
    assert!(!said_to_be_zstd(&decode(&[])));
}

#[test]
fn handshake_comes_before_everything() {
    let state = PromStoreState { pipeline_handler: false, bulk_state: false };
    let mut params = query();
    params.get_vm_proto_version = Some("1".to_string());
    assert!(matches!(
        start_write(state, params, Some(Pipeline::Defined), false),
        WriteStart::Handshake
    ));
}

#[test]
fn pipelines_that_cannot_be_used_refuse_a_write() {
    let state = PromStoreState { pipeline_handler: false, bulk_state: false };
    assert!(matches!(
        start_write(state, query(), Some(Pipeline::Defined), false),
        WriteStart::Refuse(WriteError::NoPipelineHandler)
    ));
    assert!(matches!(
        start_write(state, query(), Some(Pipeline::InvalidVersion("v".to_string())), false),
        WriteStart::Refuse(WriteError::Pipeline(reason)) if reason == "v"
    ));
    assert!(matches!(
        start_write(state, query(), Some(Pipeline::InvalidDefinition("d".to_string())), false),
        WriteStart::Refuse(WriteError::Pipeline(reason)) if reason == "d"
    ));
    assert!(matches!(start_write(state, query(), None, false), WriteStart::Decode(_)));
}

#[test]
fn either_codec_is_read() {
    for is_zstd in [true, false] {
        let first = Decompression::new(is_zstd);
        let (named, other) =
            if is_zstd { (Codec::Zstd, Codec::Snappy) } else { (Codec::Snappy, Codec::Zstd) };
        assert_eq!(first.try_decompress(), named);
        assert!(matches!(
            first.tried(Ok(vec![1])),
            DecompressStep::Decompressed(buf) if buf == vec![1]
        ));
        let second = match first.tried(Err("first".to_string())) {
            DecompressStep::Again(second) => second,
            other => panic!("unexpected step: {other:?}"),
        };
        assert_eq!(second.try_decompress(), other);
        assert!(matches!(second.tried(Ok(vec![2])), DecompressStep::Decompressed(_)));
        assert!(matches!(
            second.tried(Err("second".to_string())),
            DecompressStep::Failed(WriteError::Decompress(reason)) if reason == "second"
        ));
    }
}

#[test]
fn answers_say_what_a_write_cost() {
    assert_eq!((bulk_answer().status, bulk_answer().cost), (NO_CONTENT, 0));
    let answer = write_answer(&vec![3, 4, 5]);
    assert_eq!((answer.status, answer.cost), (204, 12));
    assert_eq!(inserted_rows(&vec![Some(2), None, Some(5)]), 7);
    assert_eq!(total_rows(&vec![]), 0);
}

fn sent(metrics: Option<&str>) -> HttpResponse {
    response_with(
        "application/x-protobuf".to_string(),
        "snappy".to_string(),
        metrics.map(|m| m.to_string()),
        vec![1, 2],
    )
}

#[test]
fn headers_with_metrics() {
    let plain = sent(None);
    assert_eq!(
        plain.headers,
        vec![
            ("content-type".to_string(), "application/x-protobuf".to_string()),
            ("content-encoding".to_string(), "snappy".to_string()),
        ]
    );
    assert_eq!(plain.body, vec![1, 2]);
    let with = sent(Some("{\"rows\":\t1}"));
    assert_eq!(
        with.headers[2],
        (GREPTIME_DB_HEADER_METRICS.to_string(), "{\"rows\":\t1}".to_string())
    );
    assert_eq!(sent(Some("a\nb")).headers.len(), 2);
    assert_eq!(sent(Some("del\u{7f}")).headers.len(), 2);
}

#[test]
fn response_with_metrics() {
    let response = |metrics: Vec<(&str, serde_json::Value)>| {
        PromStoreResponse {
            content_type: "application/x-protobuf".to_string(),
            content_encoding: "snappy".to_string(),
            resp_metrics: metrics.into_iter().map(|(name, v)| (name.to_string(), v)).collect(),
            body: vec![1, 2],
        }
        .into_response()
    };
    let plain = response(vec![]);
    assert_eq!(plain.headers, sent(None).headers);
    assert_eq!(plain.body, vec![1, 2]);
    let with = response(vec![("rows", serde_json::Value::from(1))]);
    assert_eq!(with.headers.len(), 3);
    assert_eq!(
        with.headers[2],
        (GREPTIME_DB_HEADER_METRICS.to_string(), "{\"rows\":1}".to_string())
    );
}

#[test]
fn pipelines_are_not_looked_up_for_a_handshake() {
    let mut params = query();
    assert!(looks_up_pipeline(&params, true));
    assert!(!looks_up_pipeline(&params, false));
    params.get_vm_proto_version = Some("1".to_string());
    assert!(!looks_up_pipeline(&params, true));
}

#[test]
fn settings_of_a_round() {
    assert_eq!(max_batch_num(None), 10);
    assert_eq!(max_batch_num(Some("25")), 25);
    assert_eq!(max_batch_num(Some("many")), 10);
    assert_eq!(max_batch_interval_secs(None), 5);
    assert_eq!(max_batch_interval_secs(Some("60")), 60);
    assert_eq!(max_batch_interval_secs(Some("-1")), 5);
}

fn row(key: &[u8], timestamp: i64) -> MetricRow {
    MetricRow {
        primary_key: Ok(key.to_vec()),
        timestamp: RowValue { value_data: Some(ValueData::TimestampMillisecondValue(timestamp)) },
        value: RowValue { value_data: Some(ValueData::F64Value(1.0f64.to_bits())) },
    }
}

fn data(table: &str, rows: Vec<MetricRow>) -> Vec<SchemaData> {
    vec![SchemaData {
        schema: None,
        tables: vec![TableData { table_name: table.to_string(), rows }],
    }]
}

fn found_in(table: &str, physical: u32) -> LogicalTables {
    collect_physical_region_metadata(
        &vec![("public".to_string(), table.to_string())],
        &vec![(10, physical)],
        &vec![Some(PhysicalRegion { region_id: RegionId::new(physical, 0), columns: vec![] })],
    )
    .unwrap()
}

fn found(table: &str) -> LogicalTables {
    found_in(table, 1)
}

#[test]
fn a_round_ends_after_enough_requests() {
    let mut state = PromBulkState::start_background_task(Some("2"), Some("60"));
    assert!(state.receive(&data("cpu", vec![row(b"a", 5)]), found("cpu"), 0).unwrap().is_none());
    let round = state
        .receive(&data("mem", vec![row(b"b", 3)]), found("mem"), 1)
        .unwrap()
        .expect("two requests end the round");
    let writes = round.finish().unwrap();
    assert_eq!(writes.len(), 1);
    assert_eq!((writes[0].catalog, writes[0].schema.as_str()), ("greptime", "public"));
    assert_eq!(writes[0].region_id, RegionId::new(1, 0));
    assert_eq!(writes[0].batch.num_rows, 2);
    assert_eq!(writes[0].time_range, (3, 5));
    assert_eq!(state.num_batches, 0);
}

#[test]
fn tables_found_later_take_the_place_of_those_of_their_schema() {
    let mut state = PromBulkState::start_background_task(Some("9"), Some("60"));
    let rows = |table: &str| data(table, vec![row(b"a", 5)]);
    assert!(state.receive(&rows("cpu"), found_in("cpu", 1), 0).unwrap().is_none());
    assert!(state.receive(&rows("mem"), found_in("mem", 2), 0).unwrap().is_none());
    let failed = state.receive(&rows("cpu"), KeyedMap::new(), 0);
    assert!(matches!(failed, Err(AppendFailure::TableNotFound { table, .. }) if table == "cpu"));
    assert!(matches!(
        state.end_round().finish(),
        Err(MissingRegion::Region(schema, region))
            if schema == "public" && region == RegionId::new(1, 0)
    ));
}

#[test]
fn a_round_ends_after_its_interval() {
    let mut state = PromBulkState::start_background_task(None, None);
    let rows = || data("cpu", vec![row(b"a", 5)]);
    assert!(state.receive(&rows(), found("cpu"), 4_999_999_999).unwrap().is_none());
    assert!(state.receive(&rows(), found("cpu"), 5_000_000_000).unwrap().is_some());
    assert!(state.end_round().finish().unwrap().is_empty());
}

#[test]
fn unknown_table_keeps_the_round() {
    let mut state = PromBulkState::start_background_task(None, None);
    let failed = state.receive(&data("disk", vec![]), KeyedMap::new(), 0);
    assert!(matches!(
        failed,
        Err(AppendFailure::TableNotFound { schema, table, .. })
            if schema == "public" && table.is_empty()
    ));
    let failed = state.receive(&data("disk", vec![]), found("cpu"), 0);
    assert!(matches!(
        failed,
        Err(AppendFailure::TableNotFound { table, .. }) if table == "disk"
    ));
    assert_eq!(state.num_batches, 0);
}

#[test]
fn tables_of_a_request() {
    let mut all = data("cpu", vec![]);
    all.push(SchemaData {
        schema: Some("s".to_string()),
        tables: vec![TableData { table_name: "mem".to_string(), rows: vec![] }],
    });
    assert_eq!(
        logical_tables(&all, "public"),
        vec![
            ("public".to_string(), "cpu".to_string()),
            ("s".to_string(), "mem".to_string()),
        ]
    );
}

#[test]
fn batches_of_unknown_regions_cannot_be_written() {
    let known = found("cpu");
    let missing = process_record_batches(
        &known,
        vec![("other".to_string(), RegionId::new(1, 0), vec![])],
    );
    assert!(matches!(missing, Err(MissingRegion::Schema(schema)) if schema == "other"));
    let missing = process_record_batches(
        &known,
        vec![("public".to_string(), RegionId::new(2, 0), vec![])],
    );
    assert!(matches!(
        missing,
        Err(MissingRegion::Region(schema, region))
            if schema == "public" && region == RegionId::new(2, 0)
    ));
}

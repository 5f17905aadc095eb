use greptimedb::flush::{
    record_batch_to_ipc, FlightData, FlushAction, FlushEvent, FlushFailure, FlushPhase, FlushRun,
    IpcError, RegionMask,
};
use greptimedb::pending_batch::{
    BatchFailure, Drained, FlushBatch, PendingBatch, TableBatch, TableRows,
};
use greptimedb::pending_rows_batcher::{
    batch_key, resolve_region_schemas, submit_answer, tables_to_resolve, waits_for_flush,
    PendingRowsBatcher, RowInsertRequest, SubmitError, SubmitProgress, SubmitStart, TableLookup, Worker,
    WorkerEvent, GREPTIME_PHYSICAL_TABLE,
};
use greptimedb::record_batch::{
    BatchError, Cell, Column, DataType, Field, RecordBatch, Schema, TimeUnit,
};
use greptimedb::region::RegionId;
use greptimedb::rows::{
    ColumnDataType, ColumnSchema, Row, Rows, SemanticType, RowValue, ValueData,
};
use greptimedb::table_builders::{BuildError, ColumnBuilder, TableBuilders, TableInfo};

fn field(name: &str, data_type: DataType, nullable: bool) -> Field {
    Field { name: name.to_string(), data_type, nullable }
}

fn column(name: &str, datatype: ColumnDataType, semantic_type: SemanticType) -> ColumnSchema {
    ColumnSchema { column_name: name.to_string(), datatype, semantic_type }
}

fn value(value_data: ValueData) -> RowValue {
    RowValue { value_data: Some(value_data) }
}

fn demo_schema() -> Schema {
    Schema {
        fields: vec![
            field("ts", DataType::Timestamp(TimeUnit::Millisecond, None), true),
            field("value", DataType::Float64, true),
            field("host", DataType::Utf8, true),
        ],
    }
}

fn demo_rows() -> Rows {
    Rows {
        schema: vec![
            column("host", ColumnDataType::Text, SemanticType::Tag),
            column("ts", ColumnDataType::TimestampMillisecond, SemanticType::Timestamp),
            column("value", ColumnDataType::Float64, SemanticType::Field),
        ],
        rows: vec![
            Row {
                values: vec![
                    value(ValueData::StringValue("h1".to_string())),
                    value(ValueData::TimestampMillisecondValue(1000)),
                    value(ValueData::F64Value(42.0f64.to_bits())),
                ],
            },
            Row {
                values: vec![
                    value(ValueData::StringValue("h2".to_string())),
                    value(ValueData::TimestampMillisecondValue(2000)),
                    RowValue { value_data: None },
                ],
            },
        ],
    }
}

fn info(table_id: u32, name: &str) -> TableInfo {
    TableInfo { table_id, name: name.to_string() }
}

fn demo_item(table_id: u32, name: &str) -> TableRows {
    TableRows { table_info: info(table_id, name), schema: demo_schema(), rows: demo_rows() }
}

#[test]
fn test_table_builders_append_and_finish() {
    let mut builders = TableBuilders::new("demo".to_string(), demo_schema()).unwrap();

    builders.append_rows(&demo_rows()).unwrap();
    let (table_name, batch, row_count) = builders.finish().unwrap();
    assert_eq!("demo", table_name);
    assert_eq!(2, row_count);
    assert_eq!(2, batch.num_rows);
    assert_eq!(3, batch.columns.len());
}

#[test]
fn columns_are_found_by_name() {
    let mut builders = TableBuilders::new("demo".to_string(), demo_schema()).unwrap();
    builders.append_rows(&demo_rows()).unwrap();
    let (_, batch, _) = builders.finish().unwrap();
    assert!(matches!(batch.columns[0].cells[1], Cell::Int64(2000)));
    assert!(matches!(batch.columns[1].cells[0], Cell::Float64(v) if f64::from_bits(v) == 42.0));
    assert!(matches!(batch.columns[1].cells[1], Cell::Null));
    assert!(matches!(&batch.columns[2].cells[0], Cell::Utf8(s) if s == "h1"));
    assert_eq!(demo_rows().column_index("value"), Some(2));
    assert_eq!(demo_rows().column_index("none"), None);
}

#[test]
fn collected_rows_are_counted() {
    let mut builders = TableBuilders::new("demo".to_string(), demo_schema()).unwrap();
    for _ in 0..3 {
        builders.append_rows(&demo_rows()).unwrap();
    }
    builders.append_rows(&Rows { schema: vec![], rows: vec![] }).unwrap();
    let (_, batch, row_count) = builders.finish().unwrap();
    assert_eq!((row_count, batch.num_rows), (6, 6));
}

#[test]
fn missing_columns_are_null() {
    let mut builders = TableBuilders::new("demo".to_string(), demo_schema()).unwrap();
    let rows = Rows {
        schema: vec![column("other", ColumnDataType::Text, SemanticType::Tag)],
        rows: vec![Row { values: vec![value(ValueData::StringValue("x".to_string()))] }],
    };
    builders.append_rows(&rows).unwrap();
    let (_, batch, row_count) = builders.finish().unwrap();
    assert_eq!(row_count, 1);
    assert!(batch.columns.iter().all(|c| matches!(c.cells[0], Cell::Null)));
}

#[test]
fn builders_refuse_what_does_not_fit() {
    let unsupported = Schema { fields: vec![field("a", DataType::Binary, true)] };
    assert!(matches!(
        TableBuilders::new("t".to_string(), unsupported),
        Err(BuildError::UnsupportedColumnType(DataType::Binary))
    ));

    let mut builders = TableBuilders::new("t".to_string(), demo_schema()).unwrap();
    let mut rows = demo_rows();
    rows.rows[1].values.pop();
    assert!(matches!(
        builders.append_rows(&rows),
        Err(BuildError::ColumnCountMismatch { row: 1, expected: 3, got: 2 })
    ));

    let mut builders = TableBuilders::new("t".to_string(), demo_schema()).unwrap();
    let mut rows = demo_rows();
    rows.rows[0].values[2] = value(ValueData::BinaryValue(vec![1]));
    assert!(matches!(
        builders.append_rows(&rows),
        Err(BuildError::UnexpectedValue(ValueData::BinaryValue(_)))
    ));

    let builders = TableBuilders::new("t".to_string(), demo_schema()).unwrap();
    assert!(matches!(
        builders.finish_with_table_info(),
        Err(BuildError::MissingTableInfo(name)) if name == "t"
    ));

    let mut schema = demo_schema();
    schema.fields[1].nullable = false;
    let mut builders = TableBuilders::new_with_table_info(info(1, "t"), schema).unwrap();
    builders.append_rows(&demo_rows()).unwrap();
    assert!(matches!(
        builders.finish_with_table_info(),
        Err(BuildError::Arrow(BatchError::UnexpectedNull(1)))
    ));
}

#[test]
fn column_builders_of_each_type() {
    let mut seconds =
        ColumnBuilder::new(&DataType::Timestamp(TimeUnit::Second, None)).unwrap();
    seconds.append_value_data(Some(&ValueData::TimestampSecondValue(9))).unwrap();
    seconds.append_null();
    seconds.append_value_data(None).unwrap();
    let cells = seconds.finish().cells;
    assert!(matches!(cells[..], [Cell::Int64(9), Cell::Null, Cell::Null]));

    let mut nanos = ColumnBuilder::new(&DataType::Timestamp(TimeUnit::Nanosecond, None)).unwrap();
    nanos.append_value_data(Some(&ValueData::TimestampNanosecondValue(-1))).unwrap();
    assert!(matches!(
        nanos.append_value_data(Some(&ValueData::TimestampSecondValue(1))),
        Err(BuildError::UnexpectedValue(ValueData::TimestampSecondValue(1)))
    ));
    assert!(matches!(nanos.finish().cells[..], [Cell::Int64(-1)]));
}

#[test]
fn table_info_comes_back_with_the_batch() {
    let mut builders = TableBuilders::new_with_table_info(info(9, "demo"), demo_schema()).unwrap();
    builders.append_rows(&demo_rows()).unwrap();
    assert_eq!(builders.row_count, 2);
    let (table, batch, row_count) = builders.finish_with_table_info().unwrap();
    assert_eq!((table.table_id, table.name.as_str()), (9, "demo"));
    assert_eq!((batch.num_rows, row_count), (2, 2));
}

#[test]
fn requests_join_one_batch() {
    let mut batch = PendingBatch::new();
    assert!(batch.submit(&vec![demo_item(1, "cpu")], 2, 100, 7).is_empty());
    assert!(batch.submit(&vec![demo_item(1, "cpu"), demo_item(2, "mem")], 4, 101, 9).is_empty());
    assert_eq!(batch.total_row_count, 6);
    assert_eq!(batch.created_at, Some(7));
    assert_eq!(batch.waiters, vec![100, 101]);
    let flush = match batch.drain() {
        Drained::Flush(flush) => flush,
        _ => panic!("the batch holds rows"),
    };
    assert_eq!(flush.total_row_count, 6);
    assert_eq!(flush.waiters, vec![100, 101]);
    let rows: Vec<(String, usize)> =
        flush.table_batches.into_iter().map(|t| (t.table_info.name, t.row_count)).collect();
    assert_eq!(rows, vec![("cpu".to_string(), 4), ("mem".to_string(), 2)]);
    assert_eq!((batch.total_row_count, batch.waiters.len()), (0, 0));
    assert!(matches!(batch.drain(), Drained::Nothing));
}

#[test]
fn rows_that_do_not_fit_give_the_batch_up() {
    let mut batch = PendingBatch::new();
    batch.submit(&vec![demo_item(1, "cpu")], 2, 100, 7);
    let mut bad = demo_item(1, "cpu");
    bad.rows.rows[0].values.pop();
    let failed = batch.submit(&vec![bad], 2, 101, 8);
    assert_eq!(failed.len(), 1);
    assert_eq!(failed[0].waiters, vec![100, 101]);
    assert_eq!(failed[0].row_count, 2);
    assert!(matches!(
        failed[0].failure,
        BatchFailure::AppendRows(BuildError::ColumnCountMismatch { row: 0, .. })
    ));
}

#[test]
fn table_that_cannot_be_built_gives_the_batch_up() {
    let mut batch = PendingBatch::new();
    batch.submit(&vec![demo_item(1, "cpu")], 2, 100, 7);
    let mut bad = demo_item(2, "mem");
    bad.schema = Schema { fields: vec![field("a", DataType::UInt8, true)] };
    let failed = batch.submit(&vec![bad], 2, 101, 8);
    assert_eq!(failed.len(), 1);
    assert!(matches!(
        failed[0].failure,
        BatchFailure::CreateBuilders(BuildError::UnsupportedColumnType(DataType::UInt8))
    ));
}

#[test]
fn batch_that_cannot_be_finished_fails_its_waiters() {
    let mut batch = PendingBatch::new();
    let mut strict = demo_item(1, "cpu");
    strict.schema.fields[1].nullable = false;
    batch.submit(&vec![strict], 2, 5, 0);
    match batch.drain() {
        Drained::Failed(failed) => {
            assert_eq!(failed.waiters, vec![5]);
            assert!(matches!(
                failed.failure,
                BatchFailure::FinalizeBuilders(BuildError::Arrow(_))
            ));
        }
        _ => panic!("a null stands in a column without nulls"),
    }
}

#[test]
fn batch_without_rows_is_not_given_up() {
    let mut batch = PendingBatch::new();
    let failure = || BatchFailure::AppendRows(BuildError::MissingTableInfo("t".to_string()));
    assert!(batch.flush_with_error(failure()).is_none());
    batch.submit(&vec![demo_item(1, "cpu")], 2, 4, 0);
    let failed = batch.flush_with_error(failure()).unwrap();
    assert_eq!((failed.waiters, failed.row_count), (vec![4], 2));
    assert_eq!(batch.total_row_count, 0);
}

fn submit(worker: &mut Worker, waiter: u64, now: u64) -> greptimedb::pending_rows_batcher::WorkerAction {
    worker.step(WorkerEvent::Submit {
        table_rows: vec![demo_item(1, "cpu")],
        total_rows: 2,
        waiter,
        now,
    })
}

#[test]
fn worker_flushes_a_full_batch() {
    let mut worker = Worker::new(1000, 4);
    let action = submit(&mut worker, 1, 0);
    assert!(action.flush.is_none() && !action.stop && action.failed.is_empty());
    let action = submit(&mut worker, 2, 10);
    let flush = action.flush.unwrap();
    assert_eq!(flush.total_row_count, 4);
    assert_eq!(flush.waiters, vec![1, 2]);
    assert!(!action.flush_inline && !action.stop);
}

#[test]
fn worker_flushes_when_the_interval_is_over() {
    let mut worker = Worker::new(1000, 100);
    assert!(worker.step(WorkerEvent::Tick { now: 5000 }).flush.is_none());
    submit(&mut worker, 1, 10);
    assert!(worker.step(WorkerEvent::Tick { now: 1009 }).flush.is_none());
    assert!(worker.step(WorkerEvent::Tick { now: 3 }).flush.is_none());
    assert_eq!(worker.step(WorkerEvent::Tick { now: 1010 }).flush.unwrap().waiters, vec![1]);
}

#[test]
fn worker_flushes_before_it_stops() {
    for end in [WorkerEvent::Closed, WorkerEvent::Shutdown] {
        let mut worker = Worker::new(1000, 100);
        submit(&mut worker, 1, 10);
        let action = worker.step(end);
        assert!(action.stop && action.flush_inline);
        assert_eq!(action.flush.unwrap().total_row_count, 2);
    }
    let action = Worker::new(1, 1).step(WorkerEvent::Closed);
    assert!(action.stop && action.flush.is_none());
}

#[test]
fn a_worker_is_spawned_once_for_each_key() {
    let mut batcher = PendingRowsBatcher::try_new(1000, 10, 2, 3, 4).unwrap();
    assert_eq!(batcher.get_or_spawn_worker(batch_key("c", "s", None), 1), (1, true));
    assert_eq!(batcher.get_or_spawn_worker(batch_key("c", "s", Some("p")), 2), (2, true));
    assert_eq!(
        batcher.get_or_spawn_worker(batch_key("c", "s", Some(GREPTIME_PHYSICAL_TABLE)), 3),
        (1, false)
    );
    assert_eq!(batcher.get_or_spawn_worker(batch_key("c", "s", Some("p")), 4), (2, false));
}

#[test]
fn batcher_is_off_without_an_interval() {
    assert!(PendingRowsBatcher::try_new(0, 10, 2, 3, 4).is_none());
    let batcher = PendingRowsBatcher::try_new(1, 10, 2, 3, 4).unwrap();
    assert_eq!(batcher.max_batch_rows, 10);
}

#[test]
fn requests_without_rows_are_left_out() {
    let batcher = PendingRowsBatcher::try_new(1, 10, 2, 3, 4).unwrap();
    let request = |name: &str, rows| RowInsertRequest { table_name: name.to_string(), rows };
    let start = batcher.submit(vec![
        request("a", Some(demo_rows())),
        request("b", None),
        request("c", Some(Rows { schema: vec![], rows: vec![] })),
        request("a", Some(demo_rows())),
    ]);
    let (rows, total) = match start {
        SubmitStart::Resolve { table_rows, total_rows } => (table_rows, total_rows),
        other => panic!("unexpected start: {other:?}"),
    };
    assert_eq!(total, 4);
    assert_eq!(rows.iter().map(|(n, _)| n.as_str()).collect::<Vec<_>>(), vec!["a", "a"]);
    assert_eq!(tables_to_resolve(&rows), vec!["a".to_string()]);
}

#[test]
fn requests_without_any_rows_are_answered_at_once() {
    let batcher = PendingRowsBatcher::try_new(1, 10, 2, 3, 4).unwrap();
    let request = |rows| RowInsertRequest { table_name: "a".to_string(), rows };
    assert!(matches!(batcher.submit(vec![]), SubmitStart::Answer(0)));
    assert!(matches!(
        batcher.submit(vec![request(None), request(Some(Rows { schema: vec![], rows: vec![] }))]),
        SubmitStart::Answer(0)
    ));
}

#[test]
fn rows_get_what_was_found_of_their_tables() {
    let rows = || {
        vec![
            ("a".to_string(), demo_rows()),
            ("b".to_string(), demo_rows()),
            ("a".to_string(), demo_rows()),
        ]
    };
    let resolved = resolve_region_schemas(
        rows(),
        vec![
            TableLookup::Found(info(1, "a"), demo_schema()),
            TableLookup::Found(info(2, "b"), demo_schema()),
        ],
    )
    .unwrap();
    let ids: Vec<u32> = resolved.iter().map(|t| t.table_info.table_id).collect();
    assert_eq!(ids, vec![1, 2, 1]);

    let failed = resolve_region_schemas(
        rows(),
        vec![TableLookup::Found(info(1, "a"), demo_schema()), TableLookup::NotFound],
    );
    assert!(matches!(failed, Err(SubmitError::TableNotFound(name)) if name == "b"));
    let failed = resolve_region_schemas(rows(), vec![TableLookup::Failed("gone".to_string())]);
    assert!(matches!(
        failed,
        Err(SubmitError::ResolveTable { table, reason }) if table == "a" && reason == "gone"
    ));
}

#[test]
fn answers_to_a_client() {
    assert!(waits_for_flush(Some("true")));
    assert!(!waits_for_flush(Some("True")));
    assert!(!waits_for_flush(None));
    assert!(matches!(submit_answer(3, SubmitProgress::Sent), Ok(3)));
    assert!(matches!(submit_answer(3, SubmitProgress::Flushed(Ok(()))), Ok(3)));
    assert!(matches!(
        submit_answer(3, SubmitProgress::Flushed(Err("x".to_string()))),
        Err(SubmitError::Flush(reason)) if reason == "x"
    ));
    for progress in [SubmitProgress::NoPermit, SubmitProgress::NotSent, SubmitProgress::NoAnswer] {
        assert!(matches!(submit_answer(3, progress), Err(SubmitError::BatcherChannelClosed)));
    }
}

fn message(header: u8) -> FlightData {
    FlightData { data_header: vec![header], data_body: vec![header, header] }
}

#[test]
fn ipc_of_exactly_one_message() {
    let ipc = record_batch_to_ipc(vec![1], vec![message(2)]).unwrap();
    assert_eq!((ipc.schema, ipc.data_header, ipc.payload), (vec![1], vec![2], vec![2, 2]));
    assert_eq!(record_batch_to_ipc(vec![], vec![]).unwrap_err(), IpcError::EmptyFlightData);
    assert_eq!(
        record_batch_to_ipc(vec![], vec![message(1), message(2)]).unwrap_err(),
        IpcError::DictionaryArrays
    );
}

fn table_batch(table_id: u32, values: &[i64]) -> TableBatch {
    let record_batch = RecordBatch::try_new(
        Schema { fields: vec![field("v", DataType::Int64, false)] },
        vec![Column::new(DataType::Int64, values.iter().map(|v| Cell::Int64(*v)).collect())],
    )
    .unwrap();
    TableBatch {
        table_info: info(table_id, &format!("t{table_id}")),
        row_count: values.len(),
        record_batch,
    }
}

fn mask(selected: &[bool]) -> RegionMask {
    RegionMask { selected: selected.to_vec() }
}

fn ints(batch: &RecordBatch) -> Vec<i64> {
    batch.columns[0]
        .cells
        .iter()
        .map(|c| match c {
            Cell::Int64(v) => *v,
            _ => panic!("not an integer"),
        })
        .collect()
}

#[test]
fn masks() {
    assert!(mask(&[true, true]).select_all());
    assert!(!mask(&[true, false]).select_all());
    assert!(!mask(&[true, false]).select_none());
    assert!(mask(&[false, false]).select_none());
}

#[test]
fn flush_writes_each_region() {
    let mut run = FlushRun::start(FlushBatch {
        table_batches: vec![table_batch(1, &[]), table_batch(2, &[10, 20, 30])],
        total_row_count: 3,
        waiters: vec![7, 8],
    });
    assert!(matches!(run.action(), FlushAction::FetchPartitionRule(t) if t.table_id == 2));
    run.step(FlushEvent::PartitionRule(Ok(())));
    assert!(matches!(run.action(), FlushAction::SplitRecordBatch(b) if b.num_rows == 3));
    run.step(FlushEvent::Split(Ok(vec![
        (0, mask(&[false, false, false])),
        (1, mask(&[true, false, true])),
        (2, mask(&[false, true, false])),
    ])));
    assert!(matches!(
        run.action(),
        FlushAction::ResolveRegionLeader(id) if id == RegionId::new(2, 1)
    ));
    // What the flush does not wait for changes nothing.
    run.step(FlushEvent::Written(Ok(())));
    assert_eq!(run.phase, FlushPhase::Leader);
    run.step(FlushEvent::Leader(Ok(())));
    assert!(matches!(run.action(), FlushAction::EncodeIpc(b) if ints(b) == vec![10, 30]));
    run.step(FlushEvent::Encoded { schema: vec![1], messages: vec![message(9)] });
    assert!(matches!(
        run.action(),
        FlushAction::WriteRegion(id, ipc)
            if id == RegionId::new(2, 1) && ipc.data_header == vec![9]
    ));
    run.step(FlushEvent::Written(Ok(())));
    run.step(FlushEvent::Leader(Ok(())));
    run.step(FlushEvent::Encoded { schema: vec![1], messages: vec![message(9)] });
    run.step(FlushEvent::Written(Ok(())));
    assert!(matches!(run.action(), FlushAction::NotifyWaiters));
    assert_eq!(run.written, vec![(RegionId::new(2, 1), 2), (RegionId::new(2, 2), 1)]);
    let (waiters, error) = run.finish();
    assert_eq!(waiters, vec![7, 8]);
    assert!(error.is_none());
}

#[test]
fn flush_goes_on_after_a_failure_and_tells_the_first() {
    let mut run = FlushRun::start(FlushBatch {
        table_batches: vec![table_batch(1, &[1]), table_batch(2, &[2]), table_batch(3, &[3, 4])],
        total_row_count: 4,
        waiters: vec![7],
    });
    run.step(FlushEvent::PartitionRule(Err("no rule".to_string())));
    run.step(FlushEvent::PartitionRule(Ok(())));
    run.step(FlushEvent::Split(Err("no split".to_string())));
    run.step(FlushEvent::PartitionRule(Ok(())));
    run.step(FlushEvent::Split(Ok(vec![
        (0, mask(&[true, false, true])),
        (1, mask(&[true, true])),
        (2, mask(&[true, false])),
        (3, mask(&[true, false])),
    ])));
    run.step(FlushEvent::Leader(Err("no leader".to_string())));
    run.step(FlushEvent::Leader(Ok(())));
    run.step(FlushEvent::Encoded { schema: vec![], messages: vec![] });
    run.step(FlushEvent::Leader(Ok(())));
    run.step(FlushEvent::Encoded { schema: vec![], messages: vec![message(1)] });
    run.step(FlushEvent::Written(Err("no write".to_string())));
    assert_eq!(run.phase, FlushPhase::Done);
    let failures: Vec<String> =
        run.failures.iter().map(|(f, rows)| format!("{f:?} {rows}")).collect();
    assert_eq!(failures.len(), 6);
    assert!(matches!(&run.failures[1].0, FlushFailure::SplitRecordBatch { table, .. } if table == "t2"));
    assert!(matches!(&run.failures[2], (FlushFailure::FilterRecordBatch { table }, 2) if table == "t3"));
    assert!(matches!(
        &run.failures[3],
        (FlushFailure::ResolveRegionLeader { region_id, .. }, 2) if *region_id == RegionId::new(3, 1)
    ));
    assert!(matches!(
        &run.failures[4],
        (FlushFailure::EncodeIpc { error: IpcError::EmptyFlightData, .. }, 1)
    ));
    assert!(matches!(&run.failures[5], (FlushFailure::WriteRegion { reason, .. }, 1) if reason == "no write"));
    let (_, error) = run.finish();
    assert!(matches!(
        error,
        Some(FlushFailure::FetchPartitionRule { table, reason })
            if table == "t1" && reason == "no rule"
    ));
}

#[test]
fn whole_flush_writes_each_region_once() {
    let mut run = FlushRun::start(FlushBatch {
        table_batches: vec![table_batch(1, &[1, 2]), table_batch(2, &[]), table_batch(3, &[3])],
        total_row_count: 3,
        waiters: vec![],
    });
    let mut asked = vec![];
    loop {
        let event = match run.action() {
            FlushAction::FetchPartitionRule(_) => FlushEvent::PartitionRule(Ok(())),
            FlushAction::SplitRecordBatch(batch) => FlushEvent::Split(Ok(vec![
                (0, mask(&vec![true; batch.num_rows])),
                (1, mask(&vec![false; batch.num_rows])),
                (2, mask(&(0..batch.num_rows).map(|i| i == 0).collect::<Vec<bool>>())),
            ])),
            FlushAction::ResolveRegionLeader(_) => FlushEvent::Leader(Ok(())),
            FlushAction::EncodeIpc(_) => {
                FlushEvent::Encoded { schema: vec![], messages: vec![message(1)] }
            }
            FlushAction::WriteRegion(id, _) => {
                asked.push(id);
                FlushEvent::Written(Ok(()))
            }
            FlushAction::NotifyWaiters => break,
        };
        run.step(event);
    }
    let expected = vec![
        (RegionId::new(1, 0), 2),
        (RegionId::new(1, 2), 1),
        (RegionId::new(3, 0), 1),
        (RegionId::new(3, 2), 1),
    ];
    assert_eq!(run.written, expected);
    assert_eq!(asked, expected.iter().map(|(id, _)| *id).collect::<Vec<_>>());
}

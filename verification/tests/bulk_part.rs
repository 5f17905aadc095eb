use arrow_array::cast::AsArray;
use arrow_array::types::{Float64Type, Int64Type, UInt32Type};
use arrow_array::{Array, RecordBatch as ArrowRecordBatch};
use bytes::Bytes;
use greptimedb::bulk_part::{
    binary_array_to_dictionary, mutations_to_record_batch, timestamp_array_to_iter, ArraysSorter,
    BulkPart, BulkPartEncoder, KeyValue, Mutation, PartError, RegionMetadata,
};
use greptimedb::record_batch::{
    BatchError, Cell, Column, DataType, Field, RecordBatch, Schema, TimeUnit,
};
use greptimedb::row_order::{dedup_rows, sort_rows, RowKeys};
use parquet::arrow::arrow_reader::ParquetRecordBatchReaderBuilder;

fn check_binary_array_to_dictionary(
    input: &[&[u8]],
    expected_keys: &[u32],
    expected_values: &[&[u8]],
) {
    let input: Vec<Vec<u8>> = input.iter().map(|v| v.to_vec()).collect();
    let (keys, values) = binary_array_to_dictionary(&input);
    assert_eq!(expected_keys, &keys);
    assert_eq!(expected_values, &values);
    for (key, value) in keys.iter().zip(input.iter()) {
        assert_eq!(&values[*key as usize], value);
    }
}

#[test]
fn test_binary_array_to_dictionary() {
    check_binary_array_to_dictionary(&[], &[], &[]);

    check_binary_array_to_dictionary(&["a".as_bytes()], &[0], &["a".as_bytes()]);

    check_binary_array_to_dictionary(
        &["a".as_bytes(), "a".as_bytes()],
        &[0, 0],
        &["a".as_bytes()],
    );

    check_binary_array_to_dictionary(
        &["a".as_bytes(), "a".as_bytes(), "b".as_bytes()],
        &[0, 0, 1],
        &["a".as_bytes(), "b".as_bytes()],
    );

    check_binary_array_to_dictionary(
        &["a".as_bytes(), "a".as_bytes(), "b".as_bytes(), "c".as_bytes()],
        &[0, 0, 1, 2],
        &["a".as_bytes(), "b".as_bytes(), "c".as_bytes()],
    );
}

struct MutationInput<'a> {
    k0: &'a str,
    k1: u32,
    timestamps: &'a [i64],
    v1: &'a [Option<f64>],
    sequence: u64,
}

struct BatchOutput<'a> {
    pk_values: (&'a str, u32),
    timestamps: &'a [i64],
    v1: &'a [Option<f64>],
}

fn field(name: &str, data_type: DataType, nullable: bool) -> Field {
    Field { name: name.to_string(), data_type, nullable }
}

/// Columns `k0`, `k1`, `ts`, `v0` and `v1`, with the identifiers 0 to 4.
fn metadata_for_test() -> RegionMetadata {
    RegionMetadata {
        column_ids: vec![0, 1, 2, 3, 4],
        time_unit: TimeUnit::Millisecond,
        field_types: vec![DataType::Int64, DataType::Float64],
        sst_schema: Schema {
            fields: vec![
                field("v0", DataType::Int64, true),
                field("v1", DataType::Float64, true),
                field("ts", DataType::Timestamp(TimeUnit::Millisecond, None), false),
                field("__primary_key", DataType::DictionaryBinary, false),
                field("__sequence", DataType::UInt64, false),
                field("__op_type", DataType::UInt8, false),
            ],
        },
    }
}

fn encode_key(k0: &str, k1: u32) -> Vec<u8> {
    let mut key = k0.as_bytes().to_vec();
    key.push(0);
    key.extend(k1.to_be_bytes());
    key
}

fn decode_key(key: &[u8]) -> (String, u32) {
    let (k0, k1) = key.split_at(key.len() - 5);
    (
        String::from_utf8(k0.to_vec()).unwrap(),
        u32::from_be_bytes([k1[1], k1[2], k1[3], k1[4]]),
    )
}

fn mutation(k0: &str, k1: u32, rows: Vec<(i64, Option<f64>)>, sequence: u64) -> Mutation {
    Mutation {
        rows: Some(
            rows.into_iter()
                .enumerate()
                .map(|(i, (ts, v1))| KeyValue {
                    primary_key: Ok(encode_key(k0, k1)),
                    timestamp: ts,
                    sequence: sequence + i as u64,
                    op_type: 1,
                    fields: vec![
                        Cell::Int64(ts),
                        match v1 {
                            Some(v) => Cell::Float64(v.to_bits()),
                            None => Cell::Null,
                        },
                    ],
                })
                .collect(),
        ),
    }
}

fn mutations_of(input: &[MutationInput]) -> Vec<Mutation> {
    input
        .iter()
        .map(|m| {
            mutation(
                m.k0,
                m.k1,
                m.timestamps.iter().copied().zip(m.v1.iter().copied()).collect(),
                m.sequence,
            )
        })
        .collect()
}

fn int_at(column: &Column, row: usize) -> i64 {
    match column.cells[row] {
        Cell::Int64(v) => v,
        _ => panic!("not an integer"),
    }
}

fn float_at(column: &Column, row: usize) -> Option<f64> {
    match column.cells[row] {
        Cell::Float64(bits) => Some(f64::from_bits(bits)),
        Cell::Null => None,
        _ => panic!("not a float"),
    }
}

fn key_at(column: &Column, row: usize) -> Vec<u8> {
    match column.cells[row] {
        Cell::UInt32(at) => column.dictionary[at as usize].clone(),
        _ => panic!("not a key"),
    }
}

/// The rows of a batch, one group for each primary key.
fn groups(batch: &RecordBatch) -> Vec<((String, u32), Vec<i64>, Vec<Option<f64>>)> {
    let mut out: Vec<((String, u32), Vec<i64>, Vec<Option<f64>>)> = Vec::new();
    for row in 0..batch.num_rows {
        let key = decode_key(&key_at(&batch.columns[3], row));
        if out.last().map(|g| &g.0) != Some(&key) {
            out.push((key, vec![], vec![]));
        }
        let last = out.last_mut().unwrap();
        last.1.push(int_at(&batch.columns[2], row));
        last.2.push(float_at(&batch.columns[1], row));
    }
    out
}

fn check_mutations_to_record_batches(
    input: &[MutationInput],
    expected: &[BatchOutput],
    expected_timestamp: (i64, i64),
    dedup: bool,
) {
    let metadata = metadata_for_test();
    let mutations = mutations_of(input);
    let total_rows: usize = input.iter().map(|m| m.timestamps.len()).sum();
    let (batch, min_ts, max_ts) =
        mutations_to_record_batch(&mutations, &metadata, dedup).unwrap().unwrap();
    assert_eq!(expected_timestamp, (min_ts, max_ts));
    if !dedup {
        assert_eq!(total_rows, batch.num_rows);
    }
    let batch_values = groups(&batch);
    assert_eq!(expected.len(), batch_values.len());
    for idx in 0..expected.len() {
        let (k0, k1) = expected[idx].pk_values;
        assert_eq!((k0.to_string(), k1), batch_values[idx].0);
        assert_eq!(expected[idx].timestamps, &batch_values[idx].1);
        assert_eq!(expected[idx].v1, &batch_values[idx].2);
    }
}

#[test]
fn test_mutations_to_record_batch() {
    check_mutations_to_record_batches(
        &[MutationInput { k0: "a", k1: 0, timestamps: &[0], v1: &[Some(0.1)], sequence: 0 }],
        &[BatchOutput { pk_values: ("a", 0), timestamps: &[0], v1: &[Some(0.1)] }],
        (0, 0),
        true,
    );

    check_mutations_to_record_batches(
        &[
            MutationInput { k0: "a", k1: 0, timestamps: &[0], v1: &[Some(0.1)], sequence: 0 },
            MutationInput { k0: "b", k1: 0, timestamps: &[0], v1: &[Some(0.0)], sequence: 0 },
            MutationInput { k0: "a", k1: 0, timestamps: &[1], v1: &[Some(0.2)], sequence: 1 },
            MutationInput { k0: "a", k1: 1, timestamps: &[1], v1: &[Some(0.3)], sequence: 2 },
        ],
        &[
            BatchOutput {
                pk_values: ("a", 0),
                timestamps: &[0, 1],
                v1: &[Some(0.1), Some(0.2)],
            },
            BatchOutput { pk_values: ("a", 1), timestamps: &[1], v1: &[Some(0.3)] },
            BatchOutput { pk_values: ("b", 0), timestamps: &[0], v1: &[Some(0.0)] },
        ],
        (0, 1),
        true,
    );

    check_mutations_to_record_batches(
        &[
            MutationInput { k0: "a", k1: 0, timestamps: &[0], v1: &[Some(0.1)], sequence: 0 },
            MutationInput { k0: "b", k1: 0, timestamps: &[0], v1: &[Some(0.0)], sequence: 0 },
            MutationInput { k0: "a", k1: 0, timestamps: &[0], v1: &[Some(0.2)], sequence: 1 },
        ],
        &[
            BatchOutput { pk_values: ("a", 0), timestamps: &[0], v1: &[Some(0.2)] },
            BatchOutput { pk_values: ("b", 0), timestamps: &[0], v1: &[Some(0.0)] },
        ],
        (0, 0),
        true,
    );

    check_mutations_to_record_batches(
        &[
            MutationInput { k0: "a", k1: 0, timestamps: &[0], v1: &[Some(0.1)], sequence: 0 },
            MutationInput { k0: "b", k1: 0, timestamps: &[0], v1: &[Some(0.0)], sequence: 0 },
            MutationInput { k0: "a", k1: 0, timestamps: &[0], v1: &[Some(0.2)], sequence: 1 },
        ],
        &[
            BatchOutput {
                pk_values: ("a", 0),
                timestamps: &[0, 0],
                v1: &[Some(0.2), Some(0.1)],
            },
            BatchOutput { pk_values: ("b", 0), timestamps: &[0], v1: &[Some(0.0)] },
        ],
        (0, 0),
        false,
    );
}

fn encode(input: &[MutationInput]) -> BulkPart {
    let encoder = BulkPartEncoder::new(metadata_for_test(), true, None);
    encoder.encode_mutations(&mutations_of(input)).unwrap().unwrap()
}

/// The rows of the row groups of a part.
fn read_back(part: &BulkPart, row_groups: &[usize]) -> Vec<ArrowRecordBatch> {
    ParquetRecordBatchReaderBuilder::try_new(Bytes::from(part.data.clone()))
        .unwrap()
        .with_row_groups(row_groups.to_vec())
        .build()
        .unwrap()
        .map(|batch| batch.unwrap())
        .collect()
}

#[test]
fn test_write_and_read_part_projection() {
    let part = encode(&[
        MutationInput { k0: "a", k1: 0, timestamps: &[1], v1: &[Some(0.1)], sequence: 0 },
        MutationInput { k0: "b", k1: 0, timestamps: &[1], v1: &[Some(0.0)], sequence: 0 },
        MutationInput { k0: "a", k1: 0, timestamps: &[2], v1: &[Some(0.2)], sequence: 1 },
    ]);

    let projection = vec![4];
    let plan = part.read(Some(&projection), None);
    assert_eq!(vec![4], plan.column_ids);

    let mut total_rows_read = 0;
    let mut field = vec![];
    for batch in read_back(&part, &plan.row_groups) {
        let column = batch.column_by_name("v1").unwrap().as_primitive::<Float64Type>().clone();
        field.extend(column.iter().map(|v| v.unwrap()));
        total_rows_read += batch.num_rows();
    }
    assert_eq!(3, total_rows_read);
    assert_eq!(vec![0.1, 0.2, 0.0], field);
}

fn prepare(key_values: Vec<(&str, u32, (i64, i64), u64)>) -> BulkPart {
    let mutations: Vec<Mutation> = key_values
        .into_iter()
        .map(|(k0, k1, (start, end), sequence)| {
            mutation(k0, k1, (start..end).map(|ts| (ts, None)).collect(), sequence)
        })
        .collect();
    let encoder = BulkPartEncoder::new(metadata_for_test(), true, Some(100));
    encoder.encode_mutations(&mutations).unwrap().unwrap()
}

/// The keys and the values of `v0` of the rows of a batch.
fn keys_and_values(batch: &ArrowRecordBatch) -> Vec<((String, u32), i64)> {
    let keys = batch.column_by_name("__primary_key").unwrap().as_dictionary::<UInt32Type>();
    let names = keys.values().as_binary::<i32>();
    let v0 = batch.column_by_name("v0").unwrap().as_primitive::<Int64Type>();
    (0..batch.num_rows())
        .map(|i| (decode_key(names.value(keys.keys().value(i) as usize)), v0.value(i)))
        .collect()
}

fn check_prune_row_group(
    part: &BulkPart,
    predicate: Option<&dyn Fn(&((String, u32), i64)) -> bool>,
    expected_rows: usize,
) {
    let selected: Option<Vec<bool>> = predicate.map(|matches| {
        (0..part.metadata().num_row_groups)
            .map(|group| {
                read_back(part, &[group])
                    .iter()
                    .any(|batch| keys_and_values(batch).iter().any(matches))
            })
            .collect()
    });
    let plan = part.read(None, selected.as_ref());
    let mut total_rows_read = 0;
    for batch in read_back(part, &plan.row_groups) {
        total_rows_read += keys_and_values(&batch)
            .iter()
            .filter(|row| match predicate {
                Some(matches) => matches(row),
                None => true,
            })
            .count();
    }
    assert_eq!(expected_rows, total_rows_read);
}

#[test]
fn test_prune_row_groups() {
    let part = prepare(vec![
        ("a", 0, (0, 40), 1),
        ("a", 1, (0, 60), 1),
        ("b", 0, (0, 100), 2),
        ("b", 1, (100, 180), 3),
        ("b", 1, (180, 210), 4),
    ]);
    assert_eq!(4, part.metadata().num_row_groups);

    check_prune_row_group(&part, None, 310);
    check_prune_row_group(&part, Some(&|r| r.0 .0 == "a" && r.0 .1 == 0), 40);
    check_prune_row_group(&part, Some(&|r| r.0 .0 == "a" && r.0 .1 == 1), 60);
    check_prune_row_group(&part, Some(&|r| r.0 .0 == "a"), 100);
    check_prune_row_group(&part, Some(&|r| r.0 .0 == "b" && r.0 .1 == 0), 100);
    check_prune_row_group(&part, Some(&|r| r.1 == 150), 1);
}

#[test]
fn row_groups_to_read_are_those_selected() {
    let part = prepare(vec![("a", 0, (0, 250), 1)]);
    assert_eq!(part.metadata().num_rows, 250);
    assert_eq!((part.metadata().min_timestamp, part.metadata().max_timestamp), (0, 249));
    assert_eq!(part.metadata().num_row_groups, 3);
    assert_eq!(part.row_groups_to_read(&vec![true, false, true]), vec![0, 2]);
    assert_eq!(part.row_groups_to_read(&vec![false, true]), vec![1]);
    assert_eq!(part.row_groups_to_read(&vec![true; 9]), vec![0, 1, 2]);
    assert_eq!(part.read(None, None).row_groups, vec![0, 1, 2]);
    assert_eq!(part.build_read_format(None), vec![0, 1, 2, 3, 4]);
    assert_eq!(part.build_read_format(Some(&vec![2])), vec![2]);
    let again = BulkPart::new(part.data, part.metadata);
    assert_eq!(again.metadata().num_rows, 250);
}

#[test]
fn nothing_to_write_gives_no_part() {
    let encoder = BulkPartEncoder::new(metadata_for_test(), true, None);
    assert!(encoder.encode_mutations(&vec![]).unwrap().is_none());
    assert!(encoder.encode_mutations(&vec![Mutation { rows: None }]).unwrap().is_none());
    assert!(mutations_to_record_batch(&vec![], &metadata_for_test(), false).unwrap().is_none());
}

#[test]
fn failed_key_fails_the_part() {
    let mut bad = mutation("a", 0, vec![(0, None)], 0);
    bad.rows.as_mut().unwrap()[0].primary_key = Err("no codec".to_string());
    let encoder = BulkPartEncoder::new(metadata_for_test(), true, None);
    let failed = encoder.encode_mutations(&vec![bad]);
    assert!(matches!(failed, Err(PartError::EncodePrimaryKey(e)) if e == "no codec"));
}

#[test]
fn schema_that_does_not_fit_fails_the_part() {
    let mut metadata = metadata_for_test();
    metadata.sst_schema.fields.pop();
    let rows = vec![mutation("a", 0, vec![(0, None)], 0)];
    let failed = mutations_to_record_batch(&rows, &metadata, true);
    assert!(matches!(failed, Err(PartError::NewRecordBatch(BatchError::ColumnCount))));
}

#[test]
fn sorter_orders_by_key_then_time_then_newest() {
    let sorter = ArraysSorter {
        encoded_primary_keys: vec![b"b".to_vec(), b"a".to_vec(), b"a".to_vec(), b"a".to_vec()],
        timestamp_unit: TimeUnit::Second,
        timestamp: Column::new(
            DataType::Timestamp(TimeUnit::Second, None),
            vec![Cell::Int64(3), Cell::Int64(9), Cell::Int64(-2), Cell::Int64(-2)],
        ),
        sequence: vec![1, 2, 3, 4],
        op_type: vec![1, 1, 0, 1],
        fields: vec![],
        dedup: true,
        arrow_schema: Schema {
            fields: vec![
                field("ts", DataType::Timestamp(TimeUnit::Second, None), false),
                field("__primary_key", DataType::DictionaryBinary, false),
                field("__sequence", DataType::UInt64, false),
                field("__op_type", DataType::UInt8, false),
            ],
        },
    };
    let (batch, min_ts, max_ts) = sorter.sort().unwrap();
    assert_eq!((min_ts, max_ts), (-2, 9));
    assert_eq!(batch.num_rows, 3);
    let times: Vec<i64> = (0..3).map(|i| int_at(&batch.columns[0], i)).collect();
    assert_eq!(times, vec![-2, 9, 3]);
    let keys: Vec<Vec<u8>> = (0..3).map(|i| key_at(&batch.columns[1], i)).collect();
    assert_eq!(keys, vec![b"a".to_vec(), b"a".to_vec(), b"b".to_vec()]);
    assert!(matches!(batch.columns[2].cells[0], Cell::UInt64(4)));
    assert!(matches!(batch.columns[3].cells[0], Cell::UInt8(1)));
}

#[test]
fn timestamps_are_read_in_any_unit() {
    for unit in [
        TimeUnit::Second,
        TimeUnit::Millisecond,
        TimeUnit::Microsecond,
        TimeUnit::Nanosecond,
    ] {
        let column = Column::new(
            DataType::Timestamp(unit, None),
            vec![Cell::Int64(7), Cell::Int64(-7)],
        );
        assert_eq!(timestamp_array_to_iter(unit, &column), vec![7, -7]);
    }
}

#[test]
fn the_latest_of_equal_rows_stays() {
    let primary_keys = vec![b"x".to_vec(), b"x".to_vec(), b"w".to_vec()];
    let timestamps = vec![5, 5, 6];
    let sequences = vec![10, 11, 1];
    let keys = RowKeys {
        primary_keys: &primary_keys,
        timestamps: &timestamps,
        sequences: &sequences,
    };
    let order = sort_rows(&keys);
    assert_eq!(order, vec![2, 1, 0]);
    assert_eq!(dedup_rows(&keys, &order), vec![2, 1]);
    assert!(keys.same_row(0, 1));
    assert!(!keys.same_row(0, 2));
}

#[test]
fn dictionary_keys_go_up_one_by_one() {
    let input: Vec<Vec<u8>> =
        ["a", "a", "b", "b", "b", "c"].iter().map(|s| s.as_bytes().to_vec()).collect();
    let (keys, values) = binary_array_to_dictionary(&input);
    assert_eq!(keys[0], 0);
    assert_eq!(keys[keys.len() - 1] as usize, values.len() - 1);
    assert!(keys.windows(2).all(|k| k[0] <= k[1] && k[1] <= k[0] + 1));
    for i in 0..input.len() {
        assert_eq!(values[keys[i] as usize], input[i]);
        for j in 0..input.len() {
            assert!(input[i] == input[j] || keys[i] != keys[j]);
        }
    }
}

use greptimedb::batch_builder::{
    physical_schema, AppendError, BatchEncoder, Columns, ColumnsBuilder, MetricRow,
    NonNullBinaryBuilder, GREPTIME_TIMESTAMP, GREPTIME_VALUE, OP_TYPE_COLUMN_NAME,
    SEQUENCE_COLUMN_NAME,
};
use greptimedb::batch_modifier::PRIMARY_KEY_COLUMN_NAME;
use greptimedb::record_batch::{Cell, RecordBatch};
use greptimedb::rows::{RowValue, ValueData};

fn row(key: &[u8], timestamp: i64, value: f64) -> MetricRow {
    MetricRow {
        primary_key: Ok(key.to_vec()),
        timestamp: RowValue { value_data: Some(ValueData::TimestampMillisecondValue(timestamp)) },
        value: RowValue { value_data: Some(ValueData::F64Value(value.to_bits())) },
    }
}

/// Key, time and value of each row, with the sequence number and the kind of operation.
fn points(batch: &RecordBatch) -> Vec<(Vec<u8>, i64, f64, u64, u8)> {
    (0..batch.num_rows)
        .map(|i| {
            let at = |column: usize| &batch.columns[column].cells[i];
            match (at(0), at(1), at(2), at(3), at(4)) {
                (
                    Cell::Float64(value),
                    Cell::Int64(timestamp),
                    Cell::Binary(key),
                    Cell::UInt64(sequence),
                    Cell::UInt8(op_type),
                ) => (key.clone(), *timestamp, f64::from_bits(*value), *sequence, *op_type),
                other => panic!("unexpected cells: {other:?}"),
            }
        })
        .collect()
}

#[test]
fn test_binary_builder() {
    let mut builder = NonNullBinaryBuilder::with_capacity(1, 10);
    builder.append("a".as_bytes());
    builder.append("b".as_bytes());
    builder.append("cdefg".as_bytes());
    let array = builder.build();
    assert_eq!(
        array.iter().map(|v| String::from_utf8_lossy(v)).collect::<Vec<_>>(),
        vec!["a", "b", "cdefg"]
    );
}

#[test]
fn binary_builder_starts_again_after_build() {
    let mut builder = NonNullBinaryBuilder::default();
    assert_eq!((builder.len(), builder.value_len()), (0, 0));
    builder.append(b"ab");
    builder.append(b"");
    builder.reserve(3);
    assert_eq!((builder.len(), builder.value_len()), (2, 2));
    assert_eq!(builder.build(), vec![b"ab".to_vec(), vec![]]);
    assert_eq!((builder.len(), builder.value_len()), (0, 0));
    builder.append(b"z");
    assert_eq!(builder.build(), vec![b"z".to_vec()]);
}

#[test]
fn columns_keep_points_and_their_time_range() {
    let mut columns = Columns::with_capacity(4, Some(3));
    assert_eq!(columns.timestamp_range, None);
    columns.push(b"k1", 1, 50);
    columns.push(b"k2", 2, -5);
    columns.push(b"k1", 3, 20);
    columns.reserve(2);
    assert_eq!(columns.timestamp_range, Some((-5, 50)));
    assert_eq!(columns.timestamps, vec![50, -5, 20]);
    assert_eq!(columns.value, vec![1, 2, 3]);
    assert_eq!(columns.pk_offset(), 3);
    let fixed = std::mem::size_of::<Vec<i64>>()
        + std::mem::size_of::<Vec<u64>>()
        + std::mem::size_of::<Columns>();
    assert_eq!(columns.estimated_size(), 5 * 6 + 16 * 3 + fixed);
}

#[test]
fn columns_builder_keeps_points_in_one_chunk() {
    let mut builder = ColumnsBuilder::new(2);
    builder.push(b"a", 1, 10, 1);
    builder.reserve(5);
    builder.push(b"b", 2, 11, 0);
    assert_eq!(builder.columns.len(), 1);
    assert_eq!(builder.columns[0].timestamps, vec![10, 11]);
}

#[test]
fn physical_schema_names_the_columns() {
    let names: Vec<String> = physical_schema().fields.into_iter().map(|f| f.name).collect();
    assert_eq!(
        names,
        vec![
            GREPTIME_VALUE,
            GREPTIME_TIMESTAMP,
            PRIMARY_KEY_COLUMN_NAME,
            SEQUENCE_COLUMN_NAME,
            OP_TYPE_COLUMN_NAME,
        ]
    );
}

#[test]
fn encoder_sorts_rows_by_key() {
    let mut encoder = BatchEncoder::new();
    encoder.append_rows(&vec![row(b"c", 30, 3.5), row(b"a", 10, 1.5)]).unwrap();
    encoder.append_rows(&vec![row(b"b", 20, 2.5)]).unwrap();
    assert_eq!(encoder.total_rows(), 3);
    assert!(encoder.estimated_size() > 0);
    let batches = encoder.finish();
    assert_eq!(batches.len(), 1);
    assert_eq!(batches[0].1, (10, 30));
    assert_eq!(
        points(&batches[0].0),
        vec![
            (b"a".to_vec(), 10, 1.5, 0, 1),
            (b"b".to_vec(), 20, 2.5, 0, 1),
            (b"c".to_vec(), 30, 3.5, 0, 1),
        ]
    );
}

#[test]
fn rows_before_a_bad_one_are_kept() {
    let mut encoder = BatchEncoder::new();
    let mut bad = row(b"b", 2, 0.0);
    bad.primary_key = Err("no key".to_string());
    let failed = encoder.append_rows(&vec![row(b"a", 1, 1.0), bad, row(b"c", 3, 3.0)]);
    assert!(matches!(failed, Err(AppendError::EncodePrimaryKey(reason)) if reason == "no key"));
    assert_eq!(encoder.total_rows(), 1);
}

#[test]
fn values_of_other_types_are_refused() {
    let mut encoder = BatchEncoder::new();
    let mut bad = row(b"a", 1, 1.0);
    bad.value = RowValue { value_data: Some(ValueData::StringValue("1".to_string())) };
    assert!(matches!(
        encoder.append_rows(&vec![bad]),
        Err(AppendError::InvalidFieldValueType)
    ));
    let mut bad = row(b"a", 1, 1.0);
    bad.timestamp = RowValue { value_data: Some(ValueData::TimestampSecondValue(1)) };
    assert!(matches!(
        encoder.append_rows(&vec![bad]),
        Err(AppendError::InvalidTimestampValueType)
    ));
    assert_eq!(encoder.total_rows(), 0);
}

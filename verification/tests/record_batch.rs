use greptimedb::record_batch::{
    filter_record_batch, selected_rows, BatchError, Cell, Column, DataType, Field, RecordBatch,
    Schema, TimeUnit,
};

fn schema(fields: Vec<(&str, DataType, bool)>) -> Schema {
    Schema {
        fields: fields
            .into_iter()
            .map(|(name, data_type, nullable)| Field {
                name: name.to_string(),
                data_type,
                nullable,
            })
            .collect(),
    }
}

fn ints(values: &[i64]) -> Column {
    Column::new(DataType::Int64, values.iter().map(|v| Cell::Int64(*v)).collect())
}

fn int_values(column: &Column) -> Vec<i64> {
    column
        .cells
        .iter()
        .map(|c| match c {
            Cell::Int64(v) => *v,
            other => panic!("not an integer: {other:?}"),
        })
        .collect()
}

#[test]
fn batch_of_matching_columns() {
    let batch = RecordBatch::try_new(
        schema(vec![("a", DataType::Int64, false), ("b", DataType::Utf8, true)]),
        vec![ints(&[1, 2]), Column::new(DataType::Utf8, vec![Cell::Null, Cell::Utf8("x".into())])],
    )
    .unwrap();
    assert_eq!(batch.num_rows, 2);
    assert_eq!(batch.columns[0].len(), 2);
    assert!(!batch.columns[0].has_null());
    assert!(batch.columns[1].has_null());
}

#[test]
fn batch_errors_say_what_does_not_match() {
    let one = || schema(vec![("a", DataType::Int64, false)]);
    assert_eq!(RecordBatch::try_new(one(), vec![]).unwrap_err(), BatchError::ColumnCount);
    assert_eq!(
        RecordBatch::try_new(schema(vec![]), vec![]).unwrap_err(),
        BatchError::NoColumn
    );
    assert_eq!(
        RecordBatch::try_new(one(), vec![Column::new(DataType::Int64, vec![Cell::Null])])
            .unwrap_err(),
        BatchError::UnexpectedNull(0)
    );
    assert_eq!(
        RecordBatch::try_new(
            schema(vec![("a", DataType::Int64, false), ("b", DataType::Int64, false)]),
            vec![ints(&[1, 2]), ints(&[1])],
        )
        .unwrap_err(),
        BatchError::UnequalLengths
    );
    assert_eq!(
        RecordBatch::try_new(
            schema(vec![("a", DataType::Timestamp(TimeUnit::Second, None), false)]),
            vec![ints(&[1])],
        )
        .unwrap_err(),
        BatchError::TypeMismatch(0)
    );
}

#[test]
fn filter_keeps_selected_rows_in_order() {
    let batch = RecordBatch::try_new(
        schema(vec![("a", DataType::Int64, false)]),
        vec![ints(&[10, 20, 30])],
    )
    .unwrap();
    let kept = filter_record_batch(&batch, &vec![true, false, true]).unwrap();
    assert_eq!(kept.num_rows, 2);
    assert_eq!(int_values(&kept.columns[0]), vec![10, 30]);
    assert_eq!(selected_rows(&vec![false, true, true]), vec![1, 2]);
}

#[test]
fn take_may_repeat_and_reorder_rows() {
    let taken = ints(&[5, 6, 7]).take(&vec![2, 0, 2]);
    assert_eq!(int_values(&taken), vec![7, 5, 7]);
}

#[test]
fn filter_refuses_a_mask_that_is_too_long() {
    let batch =
        RecordBatch::try_new(schema(vec![("a", DataType::Int64, false)]), vec![ints(&[1, 2])])
            .unwrap();
    assert!(filter_record_batch(&batch, &vec![true, true, true]).is_none());
    let shorter = filter_record_batch(&batch, &vec![true]).unwrap();
    assert_eq!(int_values(&shorter.columns[0]), vec![1]);
}

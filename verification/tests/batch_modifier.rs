use std::hash::Hasher;

use fxhash::FxHasher;
use greptimedb::batch_modifier::{
    compute_tsid_from_arrays, modify_batch_sparse, new_hasher, sparse_keys, tsids_by, ModifyError,
    SparseKey, TagColumnInfo, PRIMARY_KEY_COLUMN_NAME,
};
use greptimedb::record_batch::{Cell, Column, DataType, Field, RecordBatch, Schema};

fn field(name: &str, data_type: DataType, nullable: bool) -> Field {
    Field { name: name.to_string(), data_type, nullable }
}

fn text(values: &[Option<&str>]) -> Column {
    Column::new(
        DataType::Utf8,
        values
            .iter()
            .map(|v| match v {
                Some(s) => Cell::Utf8(s.to_string()),
                None => Cell::Null,
            })
            .collect(),
    )
}

fn metric_schema() -> Schema {
    Schema {
        fields: vec![
            field("greptime_timestamp", DataType::Int64, false),
            field("greptime_value", DataType::Float64, true),
            field("namespace", DataType::Utf8, true),
            field("host", DataType::Utf8, true),
        ],
    }
}

fn metric_batch() -> RecordBatch {
    RecordBatch::try_new(
        metric_schema(),
        vec![
            Column::new(DataType::Int64, vec![Cell::Int64(1000)]),
            Column::new(DataType::Float64, vec![Cell::Float64(42.0f64.to_bits())]),
            text(&[Some("greptimedb")]),
            text(&[Some("127.0.0.1")]),
        ],
    )
    .unwrap()
}

fn metric_tags() -> Vec<TagColumnInfo> {
    vec![
        TagColumnInfo { name: "host".to_string(), index: 3, column_id: 2 },
        TagColumnInfo { name: "namespace".to_string(), index: 2, column_id: 1 },
    ]
}

/// A stand-in for the encoding of a key: the table, the series and each tag.
fn encode(key: &SparseKey) -> Vec<u8> {
    let mut out = key.table_id.to_be_bytes().to_vec();
    out.extend(key.tsid.to_be_bytes());
    for (id, value) in &key.tags {
        out.extend(id.to_be_bytes());
        out.extend(value);
        out.push(0);
    }
    out
}

/// The series identifier of labels in order of their names.
fn tsid(labels: &[(&str, &str)]) -> u64 {
    let mut names = FxHasher::default();
    for (name, _) in labels {
        names.write(name.as_bytes());
        names.write_u8(0xff);
    }
    let mut hasher = FxHasher::default();
    hasher.write_u64(names.finish());
    for (_, value) in labels {
        hasher.write(value.as_bytes());
        hasher.write_u8(0xff);
    }
    hasher.finish()
}

#[test]
fn test_modify_batch_sparse() {
    let batch = metric_batch();
    let tag_columns = metric_tags();
    let non_tag_indices = vec![0, 1];
    let table_id: u32 = 1025;

    let keys = sparse_keys(&batch, table_id, &tag_columns);
    let encoded = keys.iter().map(|k| Ok(encode(k))).collect();
    let modified = modify_batch_sparse(&batch, encoded, &non_tag_indices).unwrap();

    assert_eq!(modified.columns.len(), 3);
    assert_eq!(modified.schema.fields[0].name, PRIMARY_KEY_COLUMN_NAME);
    assert_eq!(modified.schema.fields[1].name, "greptime_timestamp");
    assert_eq!(modified.schema.fields[2].name, "greptime_value");
}

#[test]
fn keys_hold_table_series_and_tags() {
    let keys = sparse_keys(&metric_batch(), 1025, &metric_tags());
    assert_eq!(keys.len(), 1);
    assert_eq!(keys[0].table_id, 1025);
    assert_eq!(keys[0].tsid, tsid(&[("host", "127.0.0.1"), ("namespace", "greptimedb")]));
    assert_eq!(
        keys[0].tags,
        vec![(2, b"127.0.0.1".to_vec()), (1, b"greptimedb".to_vec())]
    );
}

#[test]
fn modified_batch_holds_keys_and_values() {
    let batch = metric_batch();
    let modified =
        modify_batch_sparse(&batch, vec![Ok(b"key".to_vec())], &vec![0, 1]).unwrap();
    assert_eq!(modified.num_rows, 1);
    assert!(matches!(&modified.columns[0].cells[0], Cell::Binary(b) if b == b"key"));
    assert!(matches!(modified.columns[1].cells[0], Cell::Int64(1000)));
    assert!(
        matches!(modified.columns[2].cells[0], Cell::Float64(v) if f64::from_bits(v) == 42.0)
    );
    assert!(matches!(modified.schema.fields[0].data_type, DataType::Binary));
    assert!(!modified.schema.fields[0].nullable);
}

#[test]
fn key_that_cannot_be_encoded_is_an_error() {
    let failed = modify_batch_sparse(&metric_batch(), vec![Err("bad".to_string())], &vec![0, 1]);
    assert!(matches!(failed, Err(ModifyError::EncodePrimaryKey(reason)) if reason == "bad"));
}

#[test]
fn absent_label_does_not_change_the_series() {
    let host = text(&[Some("h1"), Some("h1"), None]);
    let zone = text(&[Some("z"), None, None]);
    let tags = vec![
        TagColumnInfo { name: "host".to_string(), index: 0, column_id: 1 },
        TagColumnInfo { name: "zone".to_string(), index: 1, column_id: 2 },
    ];
    let both = compute_tsid_from_arrays(&vec![&host, &zone], &tags, 3);
    let one = compute_tsid_from_arrays(
        &vec![&host],
        &vec![TagColumnInfo { name: "host".to_string(), index: 0, column_id: 1 }],
        3,
    );
    assert_eq!(both[1], one[1]);
    assert_eq!(both[1], tsid(&[("host", "h1")]));
    assert_eq!(both[0], tsid(&[("host", "h1"), ("zone", "z")]));
    assert_eq!(both[2], tsid(&[]));
    assert_ne!(both[0], both[1]);

    let hasher = new_hasher();
    assert_eq!(tsids_by(&hasher, &vec![&host, &zone], &tags, 3), both);
    assert_eq!(tsids_by(&hasher, &vec![], &vec![], 3)[2], both[2]);
}

#[test]
fn null_tags_leave_no_trace_in_a_key() {
    let batch = RecordBatch::try_new(
        metric_schema(),
        vec![
            Column::new(DataType::Int64, vec![Cell::Int64(1), Cell::Int64(2)]),
            Column::new(DataType::Float64, vec![Cell::Null, Cell::Null]),
            text(&[None, Some("ns")]),
            text(&[Some("h"), None]),
        ],
    )
    .unwrap();
    let keys = sparse_keys(&batch, 7, &metric_tags());
    assert_eq!(keys[0].tags, vec![(2, b"h".to_vec())]);
    assert_eq!(keys[0].tsid, tsid(&[("host", "h")]));
    assert_eq!(keys[1].tags, vec![(1, b"ns".to_vec())]);
    assert_eq!(keys[1].tsid, tsid(&[("namespace", "ns")]));
}

use std::io::Read;

use arrow_ipc::reader::FileReader;
use bytes::Bytes;
use flate2::read::GzDecoder;
use greptimedb::arrow_batch::FileCompression;
use greptimedb::record_batch::Cell;
use greptimedb::rows::{ColumnDataType, SemanticType};
use greptimedb::serialization_size::{
    build_insert_request, gzip_compress, insert_request_to_arrow_ipc, insert_request_to_parquet,
    insert_request_to_record_batch, log_messages, random_in_candidates, random_string, LOG_TIME,
};
use parquet::arrow::arrow_reader::ParquetRecordBatchReaderBuilder;

/// Lines of a log, enough for the given number of messages.
fn log_lines(messages: usize) -> Vec<String> {
    (0..messages * 12)
        .map(|i| format!("{i:06} GET /api/v1/write from 10.0.0.{} took {}us {}", i % 256, i * 37, "-".repeat(60)))
        .collect()
}

#[test]
fn test_arrow_ipc_size() {
    let num_rows = 500;
    let (raw_size, insert_request) = build_insert_request(num_rows, &log_lines(num_rows), 1_700_000_000_000);
    let raw: Vec<u8> = insert_request
        .columns
        .iter()
        .flat_map(|c| c.values.iter())
        .flat_map(|v| v.string_values.iter())
        .flat_map(|s| s.as_bytes().to_vec())
        .collect();
    let gzip_encoded = gzip_compress(&raw);

    let rb = insert_request_to_record_batch(&insert_request);
    let ipc_default_encoded = insert_request_to_arrow_ipc(&rb, false).unwrap();
    let ipc_zstd_encoded = insert_request_to_arrow_ipc(&rb, true).unwrap();
    let parquet_default_encoded =
        insert_request_to_parquet(&rb, FileCompression::Uncompressed).unwrap();
    let parquet_snappy_encoded =
        insert_request_to_parquet(&rb, FileCompression::Snappy).unwrap();
    let parquet_zstd_encoded = insert_request_to_parquet(&rb, FileCompression::Zstd).unwrap();

    println!("raw size: {}", raw_size / 1024);
    println!("gzip size: {}", gzip_encoded.len() / 1024);
    println!("ipc default size: {}", ipc_default_encoded.len() / 1024);
    println!("ipc zstd size: {}", ipc_zstd_encoded.len() / 1024);
    println!("parquet default size: {}", parquet_default_encoded.len() / 1024);
    println!("parquet snappy size: {}", parquet_snappy_encoded.len() / 1024);
    println!("parquet zstd size: {}", parquet_zstd_encoded.len() / 1024);

    assert!(gzip_encoded.len() < raw.len());
    assert!(ipc_zstd_encoded.len() < ipc_default_encoded.len());
    assert!(parquet_snappy_encoded.len() < parquet_default_encoded.len());
    assert!(parquet_zstd_encoded.len() < parquet_default_encoded.len());
    for file in [ipc_default_encoded, ipc_zstd_encoded] {
        let ipc = FileReader::try_new(std::io::Cursor::new(file), None).unwrap();
        let rows: usize = ipc.map(|b| b.unwrap().num_rows()).sum();
        assert_eq!(rows, num_rows);
    }
    for file in [parquet_default_encoded, parquet_snappy_encoded, parquet_zstd_encoded] {
        let reader = ParquetRecordBatchReaderBuilder::try_new(Bytes::from(file)).unwrap();
        let rows: usize = reader.build().unwrap().map(|b| b.unwrap().num_rows()).sum();
        assert_eq!(rows, num_rows);
    }
}

#[test]
fn gzip_is_undone() {
    let data = b"aaaaaaaaaabbbbbbbbbb".repeat(50);
    let packed = gzip_compress(&data);
    assert_ne!(packed, data);
    let mut unpacked = Vec::new();
    GzDecoder::new(&packed[..]).read_to_end(&mut unpacked).unwrap();
    assert_eq!(unpacked, data);
}

#[test]
fn messages_are_joined_until_they_are_long() {
    let lines = vec!["a".repeat(600), "b".repeat(400), "c".to_string(), "d".repeat(1001)];
    let messages = log_messages(&lines, 2).unwrap();
    assert_eq!(messages[0].len(), 1001);
    assert!(messages[0].starts_with('a') && messages[0].ends_with('c'));
    assert_eq!(messages[1], "d".repeat(1001));
    assert!(log_messages(&lines, 3).is_none());
    assert_eq!(log_messages(&vec![], 0), Some(vec![]));
}

#[test]
fn random_text() {
    let s = random_string(24);
    assert_eq!(s.len(), 24);
    assert!(s.chars().all(|c| ('0'..='z').contains(&c)));
    assert_ne!(random_string(24), s);
    assert_eq!(random_string(0), "");
    let candidates = vec!["INFO", "WARN"];
    assert!(candidates.contains(&random_in_candidates(&candidates).as_str()));
    assert_eq!(random_in_candidates(&vec!["only"]), "only");
}

#[test]
fn log_request_has_a_column_of_times() {
    let now = 1_700_000_000_000;
    let (size, request) = build_insert_request(3, &log_lines(3), now);
    assert_eq!(request.columns.len(), 12);
    assert_eq!(request.row_count, 3);
    assert_eq!(request.columns[0].column_name, "message");
    let time = &request.columns[LOG_TIME];
    assert_eq!(time.column_name, "logTime");
    assert_eq!(time.semantic_type, SemanticType::Timestamp);
    assert_eq!(time.datatype, ColumnDataType::TimestampMillisecond);
    let times = &time.values.as_ref().unwrap().timestamp_millisecond_values;
    assert!(times.iter().all(|t| (now..now + 1000).contains(t)));
    let strings: usize = request
        .columns
        .iter()
        .flat_map(|c| c.values.iter())
        .flat_map(|v| v.string_values.iter())
        .map(|s| s.len())
        .sum();
    assert!(size >= strings);
    let rb = insert_request_to_record_batch(&request);
    assert_eq!((rb.num_rows, rb.columns.len()), (3, 12));
    assert!(matches!(rb.columns[LOG_TIME].cells[0], Cell::Int64(t) if t == times[0]));
}

use arrow::array::{
    Array, AsArray, BooleanArray, Date32Array, Float32Array, Int16Array, Int32Array, Int8Array,
    UInt16Array,
};
use bytes::Bytes;
use greptimedb::arrow_batch::{FileCompression, FileProperties};
use greptimedb::record_batch::{Cell, Column, DataType, Field, RecordBatch, Schema};
use greptimedb::stream_writer::{Buffer, BufferedWriter, StreamError, TryFlush};
use parquet::arrow::arrow_reader::ParquetRecordBatchReaderBuilder;

fn batch(values: Vec<i64>) -> RecordBatch {
    RecordBatch::try_new(
        Schema {
            fields: vec![Field {
                name: "v".to_string(),
                data_type: DataType::Int64,
                nullable: false,
            }],
        },
        vec![Column::new(DataType::Int64, values.into_iter().map(Cell::Int64).collect())],
    )
    .unwrap()
}

/// Stores what is handed out, and gives the bytes stored so far.
fn flush(writer: &mut BufferedWriter, all: bool, stored: &mut Vec<Vec<u8>>) -> u64 {
    let mut flush = TryFlush::new(all);
    while let Some(chunk) = writer.try_flush(&mut flush) {
        writer.stored(&mut flush, chunk.len());
        stored.push(chunk);
    }
    writer.flush_done(flush)
}

#[test]
fn chunks_are_the_file() {
    let properties =
        FileProperties { row_group_size: Some(10), compression: FileCompression::Snappy };
    let mut writer =
        BufferedWriter::try_new("a.parquet".to_string(), &batch(vec![]), Some(properties), 64)
            .unwrap();
    let mut stored: Vec<Vec<u8>> = vec![];
    for i in 0..5 {
        writer.write(&batch((i * 10..i * 10 + 10).collect())).unwrap();
        flush(&mut writer, false, &mut stored);
    }
    assert!(stored.iter().all(|chunk| chunk.len() == 64));
    assert_eq!(writer.close().unwrap(), 50);
    let bytes_written = flush(&mut writer, true, &mut stored);
    let last = stored.pop().unwrap();
    assert!(last.len() < 64);
    assert!(stored.iter().all(|chunk| chunk.len() == 64));
    stored.push(last);
    let file: Vec<u8> = stored.concat();
    assert_eq!(file.len() as u64, bytes_written);
    let reader = ParquetRecordBatchReaderBuilder::try_new(Bytes::from(file)).unwrap();
    assert_eq!(reader.metadata().num_row_groups(), 5);
    let rows: usize = reader.build().unwrap().map(|b| b.unwrap().num_rows()).sum();
    assert_eq!(rows, 50);
}

#[test]
fn values_of_every_width_are_written() {
    let columns = vec![
        Column::new(DataType::Boolean, vec![Cell::Boolean(true), Cell::Null, Cell::Boolean(false)]),
        Column::new(DataType::Int8, vec![Cell::Int8(-8), Cell::Null, Cell::Int8(i8::MAX)]),
        Column::new(DataType::Int16, vec![Cell::Int16(-16), Cell::Null, Cell::Int16(i16::MAX)]),
        Column::new(DataType::Int32, vec![Cell::Int32(-32), Cell::Null, Cell::Int32(i32::MAX)]),
        Column::new(DataType::UInt16, vec![Cell::UInt16(16), Cell::Null, Cell::UInt16(u16::MAX)]),
        Column::new(
            DataType::Float32,
            vec![Cell::Float32(1.5f32.to_bits()), Cell::Null, Cell::Float32((-2.5f32).to_bits())],
        ),
        Column::new(DataType::Date32, vec![Cell::Int32(19000), Cell::Null, Cell::Int32(-1)]),
    ];
    let fields = columns
        .iter()
        .enumerate()
        .map(|(i, c)| Field {
            name: format!("c{i}"),
            data_type: c.data_type.clone(),
            nullable: true,
        })
        .collect();
    let batch = RecordBatch::try_new(Schema { fields }, columns).unwrap();
    let mut writer = BufferedWriter::try_new("a".to_string(), &batch, None, 1 << 20).unwrap();
    writer.write(&batch).unwrap();
    assert_eq!(writer.close().unwrap(), 3);
    let mut stored: Vec<Vec<u8>> = vec![];
    flush(&mut writer, true, &mut stored);
    let file = Bytes::from(stored.concat());
    let mut reader = ParquetRecordBatchReaderBuilder::try_new(file).unwrap().build().unwrap();
    let read = reader.next().unwrap().unwrap();
    assert_eq!(read.column(0).as_boolean(), &BooleanArray::from(vec![Some(true), None, Some(false)]));
    let expected: Vec<Box<dyn Array>> = vec![
        Box::new(Int8Array::from(vec![Some(-8), None, Some(i8::MAX)])),
        Box::new(Int16Array::from(vec![Some(-16), None, Some(i16::MAX)])),
        Box::new(Int32Array::from(vec![Some(-32), None, Some(i32::MAX)])),
        Box::new(UInt16Array::from(vec![Some(16), None, Some(u16::MAX)])),
        Box::new(Float32Array::from(vec![Some(1.5), None, Some(-2.5)])),
        Box::new(Date32Array::from(vec![Some(19000), None, Some(-1)])),
    ];
    for (i, array) in expected.iter().enumerate() {
        assert_eq!(read.column(i + 1).to_data(), array.to_data());
    }
}

#[test]
fn batch_with_other_columns_is_refused() {
    let mut writer =
        BufferedWriter::try_new("a.parquet".to_string(), &batch(vec![]), None, 1024).unwrap();
    let other = RecordBatch::try_new(
        Schema {
            fields: vec![Field {
                name: "v".to_string(),
                data_type: DataType::Utf8,
                nullable: false,
            }],
        },
        vec![Column::new(DataType::Utf8, vec![Cell::Utf8("x".to_string())])],
    )
    .unwrap();
    assert_eq!(writer.write(&other), Err(StreamError::WriteParquet));
}

#[test]
fn file_can_be_given_up_until_a_chunk_is_stored() {
    let open =
        || BufferedWriter::try_new("a".to_string(), &batch(vec![]), None, 1 << 20).unwrap();
    assert!(open().abort());
    let mut writer = open();
    writer.write(&batch(vec![1])).unwrap();
    flush(&mut writer, false, &mut vec![]);
    assert!(writer.abort());
    let mut writer = open();
    flush(&mut writer, true, &mut vec![]);
    assert!(!writer.abort());
}

#[test]
fn buffer_counts_what_is_written() {
    let mut buffer = Buffer::with_capacity(4);
    assert_eq!(buffer.len(), 0);
    assert_eq!(buffer.write(b"abc"), 3);
    assert_eq!(buffer.write(b"defg"), 4);
    assert_eq!(buffer.len(), 7);
}

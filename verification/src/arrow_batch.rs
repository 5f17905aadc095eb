//! Batches of arrow arrays, and the files that arrow and parquet write them to.

use std::sync::Arc;

use arrow::array::{
    make_array, ArrayData, ArrayRef, BinaryArray, BooleanArray, Date32Array, DictionaryArray,
    Int16Array, Int32Array, Int64Array, Int8Array, StringArray, TimestampMicrosecondArray,
    TimestampMillisecondArray, TimestampNanosecondArray, TimestampSecondArray, UInt16Array,
    UInt32Array, UInt64Array, UInt8Array,
};
use arrow::buffer::{Buffer, NullBuffer};
use arrow::record_batch::RecordBatch as ArrowRecordBatch;
use arrow_ipc::writer::{FileWriter, IpcWriteOptions};
use arrow_ipc::CompressionType;
use parquet::arrow::ArrowWriter;
use parquet::basic::{Compression, ZstdLevel};
use parquet::file::properties::WriterProperties;
use vstd::prelude::*;

use crate::arrow_builders;
use crate::record_batch;
use crate::record_batch::{
    BatchView, Cell, CellView, Column, ColumnView, DataType, Field, RecordBatch,
    TimeUnit, TypeView,
};
use crate::table_builders;

verus! {

/// Named arrow arrays, in order.
#[verifier::external_body]
pub struct ArrowBatch {
    columns: Vec<(String, ArrayRef, bool)>,
}

/// A named array: whether it may hold nulls, and what it holds.
pub struct ArrowColumn {
    pub name: Seq<char>,
    pub nullable: bool,
    pub column: ColumnView,
}

/// The arrays of a batch.
pub uninterp spec fn arrow_columns(batch: ArrowBatch) -> Seq<ArrowColumn>;

/// A batch without arrays.
#[verifier::external_body]
fn arrow_new() -> (r: ArrowBatch)
    ensures
        arrow_columns(r) == Seq::<ArrowColumn>::empty(),
{
    ArrowBatch { columns: Vec::new() }
}

/// A named column without a dictionary.
pub open spec fn plain_column(
    name: Seq<char>,
    nullable: bool,
    data_type: TypeView,
    cells: Seq<CellView>,
) -> ArrowColumn {
    ArrowColumn {
        name,
        nullable,
        column: ColumnView { data_type, cells, dictionary: Seq::empty() },
    }
}

/// Values as cells of a `UInt8` column.
pub open spec fn uint8_cells(values: Seq<Option<u8>>) -> Seq<CellView> {
    values.map_values(
        |v: Option<u8>|
            match v {
                Some(v) => CellView::UInt8(v),
                None => CellView::Null,
            },
    )
}

/// The values of cells of a `UInt8` column.
fn uint8_values(cells: &Vec<Cell>) -> (r: Vec<Option<u8>>)
    requires
        forall|i: int|
            0 <= i < cells@.len() ==> ((#[trigger] cells@[i])@ is Null || cells@[i]@ is UInt8),
    ensures
        uint8_cells(r@) == record_batch::cells_view(cells@),
{
    let mut values: Vec<Option<u8>> = Vec::new();
    let mut i: usize = 0;
    while i < cells.len()
        invariant
            i <= cells@.len(),
            forall|k: int|
                0 <= k < cells@.len() ==> ((#[trigger] cells@[k])@ is Null || cells@[k]@ is UInt8),
            values@.len() == i,
            forall|k: int|
                0 <= k < i ==> (match #[trigger] values@[k] {
                    Some(v) => cells@[k]@ == CellView::UInt8(v),
                    None => cells@[k]@ == CellView::Null,
                }),
        decreases cells@.len() - i,
    {
        let value: Option<u8> = match &cells[i] {
            Cell::UInt8(v) => Some(*v),
            _ => None,
        };
        values.push(value);
        i = i + 1;
    }
    assert(uint8_cells(values@) =~= record_batch::cells_view(cells@));
    values
}

/// Values as cells of a `Boolean` column.
pub open spec fn boolean_cells(values: Seq<Option<bool>>) -> Seq<CellView> {
    values.map_values(
        |v: Option<bool>|
            match v {
                Some(v) => CellView::Boolean(v),
                None => CellView::Null,
            },
    )
}

/// The values of cells of a `Boolean` column.
fn boolean_values(cells: &Vec<Cell>) -> (r: Vec<Option<bool>>)
    requires
        forall|i: int|
            0 <= i < cells@.len() ==> ((#[trigger] cells@[i])@ is Null || cells@[i]@ is Boolean),
    ensures
        boolean_cells(r@) == record_batch::cells_view(cells@),
{
    let mut values: Vec<Option<bool>> = Vec::new();
    let mut i: usize = 0;
    while i < cells.len()
        invariant
            i <= cells@.len(),
            forall|k: int|
                0 <= k < cells@.len() ==> ((#[trigger] cells@[k])@ is Null || cells@[k]@ is Boolean),
            values@.len() == i,
            forall|k: int|
                0 <= k < i ==> (match #[trigger] values@[k] {
                    Some(v) => cells@[k]@ == CellView::Boolean(v),
                    None => cells@[k]@ == CellView::Null,
                }),
        decreases cells@.len() - i,
    {
        let value: Option<bool> = match &cells[i] {
            Cell::Boolean(v) => Some(*v),
            _ => None,
        };
        values.push(value);
        i = i + 1;
    }
    assert(boolean_cells(values@) =~= record_batch::cells_view(cells@));
    values
}

/// Values as cells of an `Int8` column.
pub open spec fn int8_cells(values: Seq<Option<i8>>) -> Seq<CellView> {
    values.map_values(
        |v: Option<i8>|
            match v {
                Some(v) => CellView::Int8(v),
                None => CellView::Null,
            },
    )
}

/// The values of cells of an `Int8` column.
fn int8_values(cells: &Vec<Cell>) -> (r: Vec<Option<i8>>)
    requires
        forall|i: int|
            0 <= i < cells@.len() ==> ((#[trigger] cells@[i])@ is Null || cells@[i]@ is Int8),
    ensures
        int8_cells(r@) == record_batch::cells_view(cells@),
{
    let mut values: Vec<Option<i8>> = Vec::new();
    let mut i: usize = 0;
    while i < cells.len()
        invariant
            i <= cells@.len(),
            forall|k: int|
                0 <= k < cells@.len() ==> ((#[trigger] cells@[k])@ is Null || cells@[k]@ is Int8),
            values@.len() == i,
            forall|k: int|
                0 <= k < i ==> (match #[trigger] values@[k] {
                    Some(v) => cells@[k]@ == CellView::Int8(v),
                    None => cells@[k]@ == CellView::Null,
                }),
        decreases cells@.len() - i,
    {
        let value: Option<i8> = match &cells[i] {
            Cell::Int8(v) => Some(*v),
            _ => None,
        };
        values.push(value);
        i = i + 1;
    }
    assert(int8_cells(values@) =~= record_batch::cells_view(cells@));
    values
}

/// Values as cells of an `Int16` column.
pub open spec fn int16_cells(values: Seq<Option<i16>>) -> Seq<CellView> {
    values.map_values(
        |v: Option<i16>|
            match v {
                Some(v) => CellView::Int16(v),
                None => CellView::Null,
            },
    )
}

/// The values of cells of an `Int16` column.
fn int16_values(cells: &Vec<Cell>) -> (r: Vec<Option<i16>>)
    requires
        forall|i: int|
            0 <= i < cells@.len() ==> ((#[trigger] cells@[i])@ is Null || cells@[i]@ is Int16),
    ensures
        int16_cells(r@) == record_batch::cells_view(cells@),
{
    let mut values: Vec<Option<i16>> = Vec::new();
    let mut i: usize = 0;
    while i < cells.len()
        invariant
            i <= cells@.len(),
            forall|k: int|
                0 <= k < cells@.len() ==> ((#[trigger] cells@[k])@ is Null || cells@[k]@ is Int16),
            values@.len() == i,
            forall|k: int|
                0 <= k < i ==> (match #[trigger] values@[k] {
                    Some(v) => cells@[k]@ == CellView::Int16(v),
                    None => cells@[k]@ == CellView::Null,
                }),
        decreases cells@.len() - i,
    {
        let value: Option<i16> = match &cells[i] {
            Cell::Int16(v) => Some(*v),
            _ => None,
        };
        values.push(value);
        i = i + 1;
    }
    assert(int16_cells(values@) =~= record_batch::cells_view(cells@));
    values
}

/// Values as cells of an `Int32` column.
pub open spec fn int32_cells(values: Seq<Option<i32>>) -> Seq<CellView> {
    values.map_values(
        |v: Option<i32>|
            match v {
                Some(v) => CellView::Int32(v),
                None => CellView::Null,
            },
    )
}

/// The values of cells of an `Int32` column.
fn int32_values(cells: &Vec<Cell>) -> (r: Vec<Option<i32>>)
    requires
        forall|i: int|
            0 <= i < cells@.len() ==> ((#[trigger] cells@[i])@ is Null || cells@[i]@ is Int32),
    ensures
        int32_cells(r@) == record_batch::cells_view(cells@),
{
    let mut values: Vec<Option<i32>> = Vec::new();
    let mut i: usize = 0;
    while i < cells.len()
        invariant
            i <= cells@.len(),
            forall|k: int|
                0 <= k < cells@.len() ==> ((#[trigger] cells@[k])@ is Null || cells@[k]@ is Int32),
            values@.len() == i,
            forall|k: int|
                0 <= k < i ==> (match #[trigger] values@[k] {
                    Some(v) => cells@[k]@ == CellView::Int32(v),
                    None => cells@[k]@ == CellView::Null,
                }),
        decreases cells@.len() - i,
    {
        let value: Option<i32> = match &cells[i] {
            Cell::Int32(v) => Some(*v),
            _ => None,
        };
        values.push(value);
        i = i + 1;
    }
    assert(int32_cells(values@) =~= record_batch::cells_view(cells@));
    values
}

/// Values as cells of a `UInt16` column.
pub open spec fn uint16_cells(values: Seq<Option<u16>>) -> Seq<CellView> {
    values.map_values(
        |v: Option<u16>|
            match v {
                Some(v) => CellView::UInt16(v),
                None => CellView::Null,
            },
    )
}

/// The values of cells of a `UInt16` column.
fn uint16_values(cells: &Vec<Cell>) -> (r: Vec<Option<u16>>)
    requires
        forall|i: int|
            0 <= i < cells@.len() ==> ((#[trigger] cells@[i])@ is Null || cells@[i]@ is UInt16),
    ensures
        uint16_cells(r@) == record_batch::cells_view(cells@),
{
    let mut values: Vec<Option<u16>> = Vec::new();
    let mut i: usize = 0;
    while i < cells.len()
        invariant
            i <= cells@.len(),
            forall|k: int|
                0 <= k < cells@.len() ==> ((#[trigger] cells@[k])@ is Null || cells@[k]@ is UInt16),
            values@.len() == i,
            forall|k: int|
                0 <= k < i ==> (match #[trigger] values@[k] {
                    Some(v) => cells@[k]@ == CellView::UInt16(v),
                    None => cells@[k]@ == CellView::Null,
                }),
        decreases cells@.len() - i,
    {
        let value: Option<u16> = match &cells[i] {
            Cell::UInt16(v) => Some(*v),
            _ => None,
        };
        values.push(value);
        i = i + 1;
    }
    assert(uint16_cells(values@) =~= record_batch::cells_view(cells@));
    values
}

/// Values as cells of a `Float32` column.
pub open spec fn float32_cells(values: Seq<Option<u32>>) -> Seq<CellView> {
    values.map_values(
        |v: Option<u32>|
            match v {
                Some(v) => CellView::Float32(v),
                None => CellView::Null,
            },
    )
}

/// The values of cells of a `Float32` column.
fn float32_values(cells: &Vec<Cell>) -> (r: Vec<Option<u32>>)
    requires
        forall|i: int|
            0 <= i < cells@.len() ==> ((#[trigger] cells@[i])@ is Null || cells@[i]@ is Float32),
    ensures
        float32_cells(r@) == record_batch::cells_view(cells@),
{
    let mut values: Vec<Option<u32>> = Vec::new();
    let mut i: usize = 0;
    while i < cells.len()
        invariant
            i <= cells@.len(),
            forall|k: int|
                0 <= k < cells@.len() ==> ((#[trigger] cells@[k])@ is Null || cells@[k]@ is Float32),
            values@.len() == i,
            forall|k: int|
                0 <= k < i ==> (match #[trigger] values@[k] {
                    Some(v) => cells@[k]@ == CellView::Float32(v),
                    None => cells@[k]@ == CellView::Null,
                }),
        decreases cells@.len() - i,
    {
        let value: Option<u32> = match &cells[i] {
            Cell::Float32(v) => Some(*v),
            _ => None,
        };
        values.push(value);
        i = i + 1;
    }
    assert(float32_cells(values@) =~= record_batch::cells_view(cells@));
    values
}

/// Values as cells of a `UInt32` column.
pub open spec fn uint32_cells(values: Seq<Option<u32>>) -> Seq<CellView> {
    values.map_values(
        |v: Option<u32>|
            match v {
                Some(v) => CellView::UInt32(v),
                None => CellView::Null,
            },
    )
}

/// The values of cells of a `UInt32` column.
fn uint32_values(cells: &Vec<Cell>) -> (r: Vec<Option<u32>>)
    requires
        forall|i: int|
            0 <= i < cells@.len() ==> ((#[trigger] cells@[i])@ is Null || cells@[i]@ is UInt32),
    ensures
        uint32_cells(r@) == record_batch::cells_view(cells@),
{
    let mut values: Vec<Option<u32>> = Vec::new();
    let mut i: usize = 0;
    while i < cells.len()
        invariant
            i <= cells@.len(),
            forall|k: int|
                0 <= k < cells@.len() ==> ((#[trigger] cells@[k])@ is Null || cells@[k]@ is UInt32),
            values@.len() == i,
            forall|k: int|
                0 <= k < i ==> (match #[trigger] values@[k] {
                    Some(v) => cells@[k]@ == CellView::UInt32(v),
                    None => cells@[k]@ == CellView::Null,
                }),
        decreases cells@.len() - i,
    {
        let value: Option<u32> = match &cells[i] {
            Cell::UInt32(v) => Some(*v),
            _ => None,
        };
        values.push(value);
        i = i + 1;
    }
    assert(uint32_cells(values@) =~= record_batch::cells_view(cells@));
    values
}

/// Values as cells of a `UInt64` column.
pub open spec fn uint64_cells(values: Seq<Option<u64>>) -> Seq<CellView> {
    values.map_values(
        |v: Option<u64>|
            match v {
                Some(v) => CellView::UInt64(v),
                None => CellView::Null,
            },
    )
}

/// The values of cells of a `UInt64` column.
fn uint64_values(cells: &Vec<Cell>) -> (r: Vec<Option<u64>>)
    requires
        forall|i: int|
            0 <= i < cells@.len() ==> ((#[trigger] cells@[i])@ is Null || cells@[i]@ is UInt64),
    ensures
        uint64_cells(r@) == record_batch::cells_view(cells@),
{
    let mut values: Vec<Option<u64>> = Vec::new();
    let mut i: usize = 0;
    while i < cells.len()
        invariant
            i <= cells@.len(),
            forall|k: int|
                0 <= k < cells@.len() ==> ((#[trigger] cells@[k])@ is Null || cells@[k]@ is UInt64),
            values@.len() == i,
            forall|k: int|
                0 <= k < i ==> (match #[trigger] values@[k] {
                    Some(v) => cells@[k]@ == CellView::UInt64(v),
                    None => cells@[k]@ == CellView::Null,
                }),
        decreases cells@.len() - i,
    {
        let value: Option<u64> = match &cells[i] {
            Cell::UInt64(v) => Some(*v),
            _ => None,
        };
        values.push(value);
        i = i + 1;
    }
    assert(uint64_cells(values@) =~= record_batch::cells_view(cells@));
    values
}

/// Values as cells of an `Int64` column.
pub open spec fn int64_cells(values: Seq<Option<i64>>) -> Seq<CellView> {
    values.map_values(
        |v: Option<i64>|
            match v {
                Some(v) => CellView::Int64(v),
                None => CellView::Null,
            },
    )
}

/// The values of cells of an `Int64` column.
fn int64_values(cells: &Vec<Cell>) -> (r: Vec<Option<i64>>)
    requires
        forall|i: int|
            0 <= i < cells@.len() ==> ((#[trigger] cells@[i])@ is Null || cells@[i]@ is Int64),
    ensures
        int64_cells(r@) == record_batch::cells_view(cells@),
{
    let mut values: Vec<Option<i64>> = Vec::new();
    let mut i: usize = 0;
    while i < cells.len()
        invariant
            i <= cells@.len(),
            forall|k: int|
                0 <= k < cells@.len() ==> ((#[trigger] cells@[k])@ is Null || cells@[k]@ is Int64),
            values@.len() == i,
            forall|k: int|
                0 <= k < i ==> (match #[trigger] values@[k] {
                    Some(v) => cells@[k]@ == CellView::Int64(v),
                    None => cells@[k]@ == CellView::Null,
                }),
        decreases cells@.len() - i,
    {
        let value: Option<i64> = match &cells[i] {
            Cell::Int64(v) => Some(*v),
            _ => None,
        };
        values.push(value);
        i = i + 1;
    }
    assert(int64_cells(values@) =~= record_batch::cells_view(cells@));
    values
}

/// Values as cells of a `Float64` column.
pub open spec fn float64_cells(values: Seq<Option<u64>>) -> Seq<CellView> {
    values.map_values(
        |v: Option<u64>|
            match v {
                Some(v) => CellView::Float64(v),
                None => CellView::Null,
            },
    )
}

/// The values of cells of a `Float64` column.
fn float64_values(cells: &Vec<Cell>) -> (r: Vec<Option<u64>>)
    requires
        forall|i: int|
            0 <= i < cells@.len() ==> ((#[trigger] cells@[i])@ is Null || cells@[i]@ is Float64),
    ensures
        float64_cells(r@) == record_batch::cells_view(cells@),
{
    let mut values: Vec<Option<u64>> = Vec::new();
    let mut i: usize = 0;
    while i < cells.len()
        invariant
            i <= cells@.len(),
            forall|k: int|
                0 <= k < cells@.len() ==> ((#[trigger] cells@[k])@ is Null || cells@[k]@ is Float64),
            values@.len() == i,
            forall|k: int|
                0 <= k < i ==> (match #[trigger] values@[k] {
                    Some(v) => cells@[k]@ == CellView::Float64(v),
                    None => cells@[k]@ == CellView::Null,
                }),
        decreases cells@.len() - i,
    {
        let value: Option<u64> = match &cells[i] {
            Cell::Float64(v) => Some(*v),
            _ => None,
        };
        values.push(value);
        i = i + 1;
    }
    assert(float64_cells(values@) =~= record_batch::cells_view(cells@));
    values
}

/// `UInt8Array::from` of arrow: an array of the values, `None` for a null.
#[verifier::external_body]
fn arrow_push_uint8(batch: &mut ArrowBatch, name: &str, nullable: bool, values: Vec<Option<u8>>)
    ensures
        arrow_columns(*final(batch)) == arrow_columns(*old(batch)).push(
            plain_column(name@, nullable, TypeView::UInt8, uint8_cells(values@)),
        ),
{
    let array: ArrayRef = Arc::new(UInt8Array::from(values));
    batch.columns.push((name.to_string(), array, nullable));
}

/// `BooleanArray::from` of arrow: an array of the values, `None` for a null.
#[verifier::external_body]
fn arrow_push_boolean(batch: &mut ArrowBatch, name: &str, nullable: bool, values: Vec<Option<bool>>)
    ensures
        arrow_columns(*final(batch)) == arrow_columns(*old(batch)).push(
            plain_column(name@, nullable, TypeView::Boolean, boolean_cells(values@)),
        ),
{
    let array: ArrayRef = Arc::new(BooleanArray::from(values));
    batch.columns.push((name.to_string(), array, nullable));
}

/// `Int8Array::from` of arrow: an array of the values, `None` for a null.
#[verifier::external_body]
fn arrow_push_int8(batch: &mut ArrowBatch, name: &str, nullable: bool, values: Vec<Option<i8>>)
    ensures
        arrow_columns(*final(batch)) == arrow_columns(*old(batch)).push(
            plain_column(name@, nullable, TypeView::Int8, int8_cells(values@)),
        ),
{
    let array: ArrayRef = Arc::new(Int8Array::from(values));
    batch.columns.push((name.to_string(), array, nullable));
}

/// `Int16Array::from` of arrow: an array of the values, `None` for a null.
#[verifier::external_body]
fn arrow_push_int16(batch: &mut ArrowBatch, name: &str, nullable: bool, values: Vec<Option<i16>>)
    ensures
        arrow_columns(*final(batch)) == arrow_columns(*old(batch)).push(
            plain_column(name@, nullable, TypeView::Int16, int16_cells(values@)),
        ),
{
    let array: ArrayRef = Arc::new(Int16Array::from(values));
    batch.columns.push((name.to_string(), array, nullable));
}

/// `Int32Array::from` of arrow: an array of the values, `None` for a null.
#[verifier::external_body]
fn arrow_push_int32(batch: &mut ArrowBatch, name: &str, nullable: bool, values: Vec<Option<i32>>)
    ensures
        arrow_columns(*final(batch)) == arrow_columns(*old(batch)).push(
            plain_column(name@, nullable, TypeView::Int32, int32_cells(values@)),
        ),
{
    let array: ArrayRef = Arc::new(Int32Array::from(values));
    batch.columns.push((name.to_string(), array, nullable));
}

/// `UInt16Array::from` of arrow: an array of the values, `None` for a null.
#[verifier::external_body]
fn arrow_push_uint16(batch: &mut ArrowBatch, name: &str, nullable: bool, values: Vec<Option<u16>>)
    ensures
        arrow_columns(*final(batch)) == arrow_columns(*old(batch)).push(
            plain_column(name@, nullable, TypeView::UInt16, uint16_cells(values@)),
        ),
{
    let array: ArrayRef = Arc::new(UInt16Array::from(values));
    batch.columns.push((name.to_string(), array, nullable));
}

/// `Date32Array::from` of arrow: an array of the values, `None` for a null.
#[verifier::external_body]
fn arrow_push_date32(batch: &mut ArrowBatch, name: &str, nullable: bool, values: Vec<Option<i32>>)
    ensures
        arrow_columns(*final(batch)) == arrow_columns(*old(batch)).push(
            plain_column(name@, nullable, TypeView::Date32, int32_cells(values@)),
        ),
{
    let array: ArrayRef = Arc::new(Date32Array::from(values));
    batch.columns.push((name.to_string(), array, nullable));
}

/// `UInt32Array::from` of arrow: an array of the values, `None` for a null.
#[verifier::external_body]
fn arrow_push_uint32(batch: &mut ArrowBatch, name: &str, nullable: bool, values: Vec<Option<u32>>)
    ensures
        arrow_columns(*final(batch)) == arrow_columns(*old(batch)).push(
            plain_column(name@, nullable, TypeView::UInt32, uint32_cells(values@)),
        ),
{
    let array: ArrayRef = Arc::new(UInt32Array::from(values));
    batch.columns.push((name.to_string(), array, nullable));
}

/// `UInt64Array::from` of arrow: an array of the values, `None` for a null.
#[verifier::external_body]
fn arrow_push_uint64(batch: &mut ArrowBatch, name: &str, nullable: bool, values: Vec<Option<u64>>)
    ensures
        arrow_columns(*final(batch)) == arrow_columns(*old(batch)).push(
            plain_column(name@, nullable, TypeView::UInt64, uint64_cells(values@)),
        ),
{
    let array: ArrayRef = Arc::new(UInt64Array::from(values));
    batch.columns.push((name.to_string(), array, nullable));
}

/// `Int64Array::from` of arrow: an array of the values, `None` for a null.
#[verifier::external_body]
fn arrow_push_int64(batch: &mut ArrowBatch, name: &str, nullable: bool, values: Vec<Option<i64>>)
    ensures
        arrow_columns(*final(batch)) == arrow_columns(*old(batch)).push(
            plain_column(name@, nullable, TypeView::Int64, int64_cells(values@)),
        ),
{
    let array: ArrayRef = Arc::new(Int64Array::from(values));
    batch.columns.push((name.to_string(), array, nullable));
}

/// `ArrayData::try_new` and `make_array` of arrow: an array of 64-bit floating-point values
/// with the given bits, `None` for a null.
#[verifier::external_body]
fn arrow_push_float64(batch: &mut ArrowBatch, name: &str, nullable: bool, values: Vec<Option<u64>>)
    ensures
        arrow_columns(*final(batch)) == arrow_columns(*old(batch)).push(
            plain_column(name@, nullable, TypeView::Float64, float64_cells(values@)),
        ),
{
    let nulls = NullBuffer::from_iter(values.iter().map(Option::is_some));
    let bits: Vec<u64> = values.iter().map(|v| v.unwrap_or_default()).collect();
    let data_type = arrow::datatypes::DataType::Float64;
    let buffers = vec![Buffer::from_vec(bits)];
    let nulls = Some(nulls.into_inner().into_inner());
    let data = ArrayData::try_new(data_type, values.len(), nulls, 0, buffers, vec![]).unwrap();
    batch.columns.push((name.to_string(), make_array(data), nullable));
}

/// `ArrayData::try_new` and `make_array` of arrow: an array of 32-bit floating-point values
/// with the given bits, `None` for a null.
#[verifier::external_body]
fn arrow_push_float32(batch: &mut ArrowBatch, name: &str, nullable: bool, values: Vec<Option<u32>>)
    ensures
        arrow_columns(*final(batch)) == arrow_columns(*old(batch)).push(
            plain_column(name@, nullable, TypeView::Float32, float32_cells(values@)),
        ),
{
    let nulls = NullBuffer::from_iter(values.iter().map(Option::is_some));
    let bits: Vec<u32> = values.iter().map(|v| v.unwrap_or_default()).collect();
    let data_type = arrow::datatypes::DataType::Float32;
    let buffers = vec![Buffer::from_vec(bits)];
    let nulls = Some(nulls.into_inner().into_inner());
    let data = ArrayData::try_new(data_type, values.len(), nulls, 0, buffers, vec![]).unwrap();
    batch.columns.push((name.to_string(), make_array(data), nullable));
}

/// Timestamps as arrow arrays of their units: `TimestampSecondArray::from` and its like,
/// with the time zone.
#[verifier::external_body]
fn arrow_push_timestamp(
    batch: &mut ArrowBatch,
    name: &str,
    nullable: bool,
    unit: TimeUnit,
    zone: Option<String>,
    values: Vec<Option<i64>>,
)
    ensures
        arrow_columns(*final(batch)) == arrow_columns(*old(batch)).push(
            plain_column(name@, nullable, timestamp_type(unit, zone), int64_cells(values@)),
        ),
{
    let array: ArrayRef = match unit {
        TimeUnit::Second => Arc::new(TimestampSecondArray::from(values).with_timezone_opt(zone)),
        TimeUnit::Millisecond => {
            Arc::new(TimestampMillisecondArray::from(values).with_timezone_opt(zone))
        },
        TimeUnit::Microsecond => {
            Arc::new(TimestampMicrosecondArray::from(values).with_timezone_opt(zone))
        },
        TimeUnit::Nanosecond => {
            Arc::new(TimestampNanosecondArray::from(values).with_timezone_opt(zone))
        },
    };
    batch.columns.push((name.to_string(), array, nullable));
}

/// The type of timestamps of a unit and a time zone.
pub open spec fn timestamp_type(unit: TimeUnit, zone: Option<String>) -> TypeView {
    TypeView::Timestamp(
        unit,
        match zone {
            Some(z) => Some(z@),
            None => None,
        },
    )
}

/// Strings as cells.
pub open spec fn utf8_cells(values: Seq<Option<String>>) -> Seq<CellView> {
    values.map_values(
        |v: Option<String>|
            match v {
                Some(v) => CellView::Utf8(v@),
                None => CellView::Null,
            },
    )
}

/// The strings of cells of a text column.
fn utf8_values(cells: &Vec<Cell>) -> (r: Vec<Option<String>>)
    requires
        forall|i: int|
            0 <= i < cells@.len() ==> ((#[trigger] cells@[i])@ is Null || cells@[i]@ is Utf8),
    ensures
        utf8_cells(r@) == record_batch::cells_view(cells@),
{
    let mut values: Vec<Option<String>> = Vec::new();
    let mut i: usize = 0;
    while i < cells.len()
        invariant
            i <= cells@.len(),
            forall|k: int|
                0 <= k < cells@.len() ==> ((#[trigger] cells@[k])@ is Null || cells@[k]@ is Utf8),
            values@.len() == i,
            forall|k: int|
                0 <= k < i ==> (match #[trigger] values@[k] {
                    Some(v) => cells@[k]@ == CellView::Utf8(v@),
                    None => cells@[k]@ == CellView::Null,
                }),
        decreases cells@.len() - i,
    {
        let value: Option<String> = match &cells[i] {
            Cell::Utf8(v) => Some(v.clone()),
            _ => None,
        };
        values.push(value);
        i = i + 1;
    }
    assert(utf8_cells(values@) =~= record_batch::cells_view(cells@));
    values
}

/// `StringArray::from` of arrow: an array of the strings, `None` for a null. It panics where
/// the strings come to more bytes than an `i32` counts.
#[verifier::external_body]
fn arrow_push_utf8(batch: &mut ArrowBatch, name: &str, nullable: bool, values: Vec<Option<String>>)
    requires
        table_builders::text_bytes(utf8_cells(values@)) <= i32::MAX,
    ensures
        arrow_columns(*final(batch)) == arrow_columns(*old(batch)).push(
            plain_column(name@, nullable, TypeView::Utf8, utf8_cells(values@)),
        ),
{
    let array: ArrayRef = Arc::new(StringArray::from(values));
    batch.columns.push((name.to_string(), array, nullable));
}

/// Byte strings as cells.
pub open spec fn binary_cells(values: Seq<Option<Vec<u8>>>) -> Seq<CellView> {
    values.map_values(
        |v: Option<Vec<u8>>|
            match v {
                Some(v) => CellView::Binary(v@),
                None => CellView::Null,
            },
    )
}

/// The length of the byte strings of cells.
pub open spec fn binary_bytes(cells: Seq<CellView>) -> nat
    decreases cells.len(),
{
    if cells.len() == 0 {
        0
    } else {
        binary_bytes(cells.drop_last()) + match cells.last() {
            CellView::Binary(v) => v.len(),
            _ => 0,
        }
    }
}

/// The byte strings of cells of a binary column.
fn binary_values(cells: &Vec<Cell>) -> (r: Vec<Option<Vec<u8>>>)
    requires
        forall|i: int|
            0 <= i < cells@.len() ==> ((#[trigger] cells@[i])@ is Null || cells@[i]@ is Binary),
    ensures
        binary_cells(r@) == record_batch::cells_view(cells@),
{
    let mut values: Vec<Option<Vec<u8>>> = Vec::new();
    let mut i: usize = 0;
    while i < cells.len()
        invariant
            i <= cells@.len(),
            forall|k: int|
                0 <= k < cells@.len() ==> ((#[trigger] cells@[k])@ is Null || cells@[k]@ is Binary),
            values@.len() == i,
            forall|k: int|
                0 <= k < i ==> (match #[trigger] values@[k] {
                    Some(v) => cells@[k]@ == CellView::Binary(v@),
                    None => cells@[k]@ == CellView::Null,
                }),
        decreases cells@.len() - i,
    {
        let value: Option<Vec<u8>> = match &cells[i] {
            Cell::Binary(v) => Some(vstd::slice::slice_to_vec(v.as_slice())),
            _ => None,
        };
        values.push(value);
        i = i + 1;
    }
    assert(binary_cells(values@) =~= record_batch::cells_view(cells@));
    values
}

/// `BinaryArray::from_iter` of arrow: an array of the byte strings, `None` for a null. It
/// panics where they come to more bytes than an `i32` counts.
#[verifier::external_body]
fn arrow_push_binary(
    batch: &mut ArrowBatch,
    name: &str,
    nullable: bool,
    values: Vec<Option<Vec<u8>>>,
)
    requires
        binary_bytes(binary_cells(values@)) <= i32::MAX,
    ensures
        arrow_columns(*final(batch)) == arrow_columns(*old(batch)).push(
            plain_column(name@, nullable, TypeView::Binary, binary_cells(values@)),
        ),
{
    let array: ArrayRef = Arc::new(BinaryArray::from_iter(values));
    batch.columns.push((name.to_string(), array, nullable));
}

/// `DictionaryArray::new` of arrow: an array of byte strings, each held once and referred to
/// by its key, `None` for a null. It panics where a key has no value, and where the values
/// come to more bytes than an `i32` counts.
#[verifier::external_body]
fn arrow_push_dictionary(
    batch: &mut ArrowBatch,
    name: &str,
    nullable: bool,
    keys: Vec<Option<u32>>,
    values: &Vec<Vec<u8>>,
)
    requires
        forall|i: int|
            0 <= i < keys@.len() ==> (#[trigger] keys@[i] matches Some(k) ==> k < values@.len()),
        arrow_builders::total_len(arrow_builders::byte_strings(values@)) <= i32::MAX,
    ensures
        arrow_columns(*final(batch)) == arrow_columns(*old(batch)).push(
            dictionary_column(name@, nullable, keys@, arrow_builders::byte_strings(values@)),
        ),
{
    let values = Arc::new(BinaryArray::from_iter_values(values));
    let array: ArrayRef = Arc::new(DictionaryArray::new(UInt32Array::from(keys), values));
    batch.columns.push((name.to_string(), array, nullable));
}

/// A named column with a dictionary.
pub open spec fn dictionary_column(
    name: Seq<char>,
    nullable: bool,
    keys: Seq<Option<u32>>,
    values: Seq<Seq<u8>>,
) -> ArrowColumn {
    ArrowColumn {
        name,
        nullable,
        column: ColumnView {
            data_type: TypeView::DictionaryBinary,
            cells: uint32_cells(keys),
            dictionary: values,
        },
    }
}

/// arrow can hold the column: its type is one of those known here, and its strings and byte
/// strings come to no more bytes than an `i32` counts.
pub open spec fn convertible(column: ColumnView) -> bool {
    &&& column.data_type !is Other
    &&& table_builders::text_bytes(column.cells) <= i32::MAX
    &&& binary_bytes(column.cells) <= i32::MAX
    &&& arrow_builders::total_len(column.dictionary) <= i32::MAX
}

/// The arrays of a batch.
pub open spec fn batch_arrays(batch: BatchView) -> Seq<ArrowColumn> {
    Seq::new(
        batch.columns.len(),
        |i: int|
            ArrowColumn {
                name: batch.fields[i].name,
                nullable: batch.fields[i].nullable,
                column: batch.columns[i],
            },
    )
}

/// Adds a column to the arrays.
fn push_column(arrays: &mut ArrowBatch, field: &Field, column: &Column)
    requires
        column@.well_typed(),
        convertible(column@),
    ensures
        arrow_columns(*final(arrays)) == arrow_columns(*old(arrays)).push(
            ArrowColumn { name: field@.name, nullable: field@.nullable, column: column@ },
        ),
{
    let name = field.name.as_str();
    let nullable: bool = field.nullable;
    assert forall|i: int| 0 <= i < column.cells@.len() implies (#[trigger] column.cells@[i])@.fits(
        column@.data_type,
    ) by {
        assert(column@.cells[i] == column.cells@[i]@);
    }
    assert(column@.data_type !is DictionaryBinary ==> column@.dictionary =~= Seq::empty());
    match &column.data_type {
        DataType::Float64 => arrow_push_float64(
            arrays,
            name,
            nullable,
            float64_values(&column.cells),
        ),
        DataType::Utf8 => arrow_push_utf8(arrays, name, nullable, utf8_values(&column.cells)),
        DataType::Binary => arrow_push_binary(arrays, name, nullable, binary_values(&column.cells)),
        DataType::UInt8 => arrow_push_uint8(arrays, name, nullable, uint8_values(&column.cells)),
        DataType::Boolean => arrow_push_boolean(
            arrays,
            name,
            nullable,
            boolean_values(&column.cells),
        ),
        DataType::Int8 => arrow_push_int8(
            arrays,
            name,
            nullable,
            int8_values(&column.cells),
        ),
        DataType::Int16 => arrow_push_int16(
            arrays,
            name,
            nullable,
            int16_values(&column.cells),
        ),
        DataType::Int32 => arrow_push_int32(
            arrays,
            name,
            nullable,
            int32_values(&column.cells),
        ),
        DataType::UInt16 => arrow_push_uint16(
            arrays,
            name,
            nullable,
            uint16_values(&column.cells),
        ),
        DataType::Float32 => arrow_push_float32(
            arrays,
            name,
            nullable,
            float32_values(&column.cells),
        ),
        DataType::Date32 => arrow_push_date32(
            arrays,
            name,
            nullable,
            int32_values(&column.cells),
        ),
        DataType::UInt32 => arrow_push_uint32(
            arrays,
            name,
            nullable,
            uint32_values(&column.cells),
        ),
        DataType::UInt64 => arrow_push_uint64(
            arrays,
            name,
            nullable,
            uint64_values(&column.cells),
        ),
        DataType::Int64 => arrow_push_int64(arrays, name, nullable, int64_values(&column.cells)),
        DataType::Timestamp(unit, zone) => {
            let zone: Option<String> = match zone {
                Some(z) => Some(z.clone()),
                None => None,
            };
            arrow_push_timestamp(
                arrays,
                name,
                nullable,
                *unit,
                zone,
                int64_values(&column.cells),
            )
        },
        DataType::DictionaryBinary => {
            let keys = uint32_values(&column.cells);
            assert forall|i: int| 0 <= i < keys@.len() implies (#[trigger] keys@[i] matches Some(k)
                ==> k < column.dictionary@.len()) by {
                assert(uint32_cells(keys@)[i] == column@.cells[i]);
            }
            arrow_push_dictionary(arrays, name, nullable, keys, &column.dictionary)
        },
        DataType::Other(_) => {},
    }
}

/// The arrays of a batch.
pub fn to_arrow(batch: &RecordBatch) -> (r: ArrowBatch)
    requires
        batch@.valid(),
        forall|i: int| 0 <= i < batch@.columns.len() ==> convertible(#[trigger] batch@.columns[i]),
    ensures
        arrow_columns(r) == batch_arrays(batch@),
{
    let mut arrays = arrow_new();
    let mut i: usize = 0;
    while i < batch.columns.len()
        invariant
            i <= batch.columns@.len(),
            batch@.valid(),
            forall|k: int|
                0 <= k < batch@.columns.len() ==> convertible(#[trigger] batch@.columns[k]),
            arrow_columns(arrays) == batch_arrays(batch@).take(i as int),
        decreases batch.columns@.len() - i,
    {
        assert(batch@.columns[i as int] == batch.columns@[i as int]@);
        assert(batch@.fields[i as int] == batch.schema.fields@[i as int]@);
        push_column(&mut arrays, &batch.schema.fields[i], &batch.columns[i]);
        i = i + 1;
        assert(batch_arrays(batch@).take(i as int) =~= batch_arrays(batch@).take(i - 1).push(
            batch_arrays(batch@)[i - 1],
        ));
    }
    assert(batch_arrays(batch@).take(i as int) =~= batch_arrays(batch@));
    arrays
}

/// How the values of a file are compressed.
#[derive(Clone, Copy, Debug, PartialEq, Eq, Structural)]
pub enum FileCompression {
    Uncompressed,
    Snappy,
    Zstd,
}

/// The arrow IPC file of arrays, on a machine of the given byte order; none where it cannot
/// be written.
pub uninterp spec fn ipc_file(
    little_endian: bool,
    arrays: Seq<ArrowColumn>,
    zstd: bool,
) -> Option<Seq<u8>>;

/// What optional bytes hold.
pub open spec fn bytes_view(bytes: Option<Vec<u8>>) -> Option<Seq<u8>> {
    match bytes {
        Some(b) => Some(b@),
        None => None,
    }
}

/// `FileWriter` of arrow-ipc, written one batch and finished: the file of the arrays, with
/// or without Zstandard compression. Values are written in the machine's byte order.
#[verifier::external_body]
pub(crate) fn write_ipc(arrays: &ArrowBatch, zstd: bool) -> (r: Option<Vec<u8>>)
    ensures
        exists|little_endian: bool|
            bytes_view(r) == #[trigger] ipc_file(little_endian, arrow_columns(*arrays), zstd),
{
    let columns = arrays.columns.iter().map(|(name, array, n)| (name, array.clone(), *n));
    let batch = ArrowRecordBatch::try_from_iter_with_nullable(columns).ok()?;
    let compression = zstd.then_some(CompressionType::ZSTD);
    let options = IpcWriteOptions::default().try_with_compression(compression).ok()?;
    let mut writer =
        FileWriter::try_new_with_options(Vec::new(), &batch.schema(), options).ok()?;
    writer.write(&batch).ok()?;
    writer.into_inner().ok()
}

/// The Parquet file of arrays, on a machine of the given byte order; none where it cannot be
/// written.
pub uninterp spec fn parquet_file(
    little_endian: bool,
    arrays: Seq<ArrowColumn>,
    row_group_size: Option<usize>,
    compression: FileCompression,
) -> Option<Seq<u8>>;

/// `ArrowWriter` of parquet, written one batch and finished: the file of the arrays, with the
/// given compression and, where it is given, the number of rows of a write and of a row group,
/// which must not be zero.
#[verifier::external_body]
pub(crate) fn write_parquet(
    arrays: &ArrowBatch,
    row_group_size: Option<usize>,
    compression: FileCompression,
) -> (r: Option<Vec<u8>>)
    requires
        row_group_size != Some(0usize),
    ensures
        exists|little_endian: bool|
            bytes_view(r) == #[trigger] parquet_file(
                little_endian,
                arrow_columns(*arrays),
                row_group_size,
                compression,
            ),
{
    let columns = arrays.columns.iter().map(|(name, array, n)| (name, array.clone(), *n));
    let batch = ArrowRecordBatch::try_from_iter_with_nullable(columns).ok()?;
    let mut props = WriterProperties::builder().set_compression(match compression {
        FileCompression::Uncompressed => Compression::UNCOMPRESSED,
        FileCompression::Snappy => Compression::SNAPPY,
        FileCompression::Zstd => Compression::ZSTD(ZstdLevel::default()),
    });
    if let Some(size) = row_group_size {
        props = props.set_write_batch_size(size).set_max_row_group_row_count(Some(size));
    }
    let mut writer = ArrowWriter::try_new(Vec::new(), batch.schema(), Some(props.build())).ok()?;
    writer.write(&batch).ok()?;
    writer.into_inner().ok()
}

/// How a Parquet file is written.
#[derive(Clone, Copy, Debug, PartialEq, Eq, Structural)]
pub struct FileProperties {
    /// The most rows of a row group, where there is a limit.
    pub row_group_size: Option<usize>,
    pub compression: FileCompression,
}

/// A Parquet file that is written batch by batch, and handed out as it grows.
#[verifier::external_body]
pub struct ParquetSink {
    writer: ArrowWriter<Vec<u8>>,
}

/// What is written to a file: how, for which columns, and the arrays of each batch.
#[verifier::ext_equal]
pub struct Stream {
    pub properties: Option<FileProperties>,
    pub columns: Seq<ArrowColumn>,
    pub batches: Seq<Seq<ArrowColumn>>,
}

impl Stream {
    /// With one batch more.
    pub open spec fn with(self, batch: Seq<ArrowColumn>) -> Stream {
        Stream { batches: self.batches.push(batch), ..self }
    }

    /// The number of rows of all batches.
    pub open spec fn rows(self) -> nat {
        batch_rows(self.batches)
    }
}

/// What has been written to a file.
pub uninterp spec fn sink_stream(sink: ParquetSink) -> Stream;

/// The bytes of a file that have been handed out.
pub uninterp spec fn sink_taken(sink: ParquetSink) -> Seq<u8>;

/// A file can be begun for the columns of some arrays.
pub uninterp spec fn can_begin(
    properties: Option<FileProperties>,
    arrays: Seq<ArrowColumn>,
) -> bool;

/// A batch can be written to a file after what has been written to it.
pub uninterp spec fn can_write(stream: Stream, arrays: Seq<ArrowColumn>) -> bool;

/// A file can be ended after what has been written to it.
pub uninterp spec fn can_finish(stream: Stream) -> bool;

/// The Parquet file of what was written, on a machine of the given byte order.
pub uninterp spec fn streamed_file(little_endian: bool, stream: Stream) -> Seq<u8>;

/// The number of rows of arrays.
pub open spec fn array_rows(arrays: Seq<ArrowColumn>) -> nat {
    if arrays.len() == 0 {
        0
    } else {
        arrays[0].column.cells.len()
    }
}

/// The number of rows of batches.
pub open spec fn batch_rows(batches: Seq<Seq<ArrowColumn>>) -> nat
    decreases batches.len(),
{
    if batches.len() == 0 {
        0
    } else {
        batch_rows(batches.drop_last()) + array_rows(batches.last())
    }
}

/// `ArrowWriter::try_new` of parquet: a file for batches with the columns of the given arrays,
/// written with the writer's own properties or with the given ones, whose row groups must not
/// be empty. Whether there is one goes by the properties and the arrays.
#[verifier::external_body]
pub(crate) fn sink_new(arrays: &ArrowBatch, properties: Option<FileProperties>) -> (r: Option<
    ParquetSink,
>)
    requires
        properties is Some ==> properties->0.row_group_size != Some(0usize),
    ensures
        r is Some <==> can_begin(properties, arrow_columns(*arrays)),
        r is Some ==> sink_stream(r->0) == begun(properties, arrow_columns(*arrays)),
        r is Some ==> sink_taken(r->0) == Seq::<u8>::empty(),
{
    let columns = arrays.columns.iter().map(|(name, array, n)| (name, array.clone(), *n));
    let batch = ArrowRecordBatch::try_from_iter_with_nullable(columns).ok()?;
    let properties = properties.map(|p| {
        let builder = WriterProperties::builder().set_compression(match p.compression {
            FileCompression::Uncompressed => Compression::UNCOMPRESSED,
            FileCompression::Snappy => Compression::SNAPPY,
            FileCompression::Zstd => Compression::ZSTD(ZstdLevel::default()),
        });
        builder.set_max_row_group_row_count(p.row_group_size).build()
    });
    let writer = ArrowWriter::try_new(Vec::new(), batch.schema(), properties).ok()?;
    Some(ParquetSink { writer })
}

/// What has been written to a file that was begun.
pub open spec fn begun(properties: Option<FileProperties>, arrays: Seq<ArrowColumn>) -> Stream {
    Stream { properties, columns: arrays, batches: Seq::empty() }
}

/// `ArrowWriter::write` of parquet: writes a batch. Whether it can be written goes by what has
/// been written before and by the arrays; what a file holds after one that could not be written
/// is not said.
#[verifier::external_body]
pub(crate) fn sink_write(sink: &mut ParquetSink, arrays: &ArrowBatch) -> (r: bool)
    ensures
        r == can_write(sink_stream(*old(sink)), arrow_columns(*arrays)),
        r ==> sink_stream(*final(sink)) == sink_stream(*old(sink)).with(arrow_columns(*arrays)),
        sink_taken(*final(sink)) == sink_taken(*old(sink)),
{
    let columns = arrays.columns.iter().map(|(name, array, n)| (name, array.clone(), *n));
    match ArrowRecordBatch::try_from_iter_with_nullable(columns) {
        Ok(batch) => sink.writer.write(&batch).is_ok(),
        Err(_) => false,
    }
}

/// `ArrowWriter::inner_mut` of parquet: hands out what has been written since the last time,
/// as far as it has come out of the writer. How far that is, is not said.
#[verifier::external_body]
pub(crate) fn sink_take(sink: &mut ParquetSink) -> (r: Vec<u8>)
    ensures
        sink_stream(*final(sink)) == sink_stream(*old(sink)),
        sink_taken(*final(sink)) == sink_taken(*old(sink)) + r@,
{
    std::mem::take(sink.writer.inner_mut())
}

/// `ArrowWriter::finish` of parquet: ends the file, and gives the number of its rows and what
/// has not been handed out. Whether it can be ended goes by what has been written.
#[verifier::external_body]
pub(crate) fn sink_finish(sink: ParquetSink) -> (r: Option<(i64, Vec<u8>)>)
    ensures
        r is Some <==> can_finish(sink_stream(sink)),
        r is Some ==> (r->0).0 == sink_stream(sink).rows(),
        r is Some ==> exists|little_endian: bool|
            sink_taken(sink) + (r->0).1@ == #[trigger] streamed_file(
                little_endian,
                sink_stream(sink),
            ),
{
    let mut writer = sink.writer;
    let metadata = writer.finish().ok()?;
    Some((metadata.file_metadata().num_rows(), std::mem::take(writer.inner_mut())))
}

/// The arrays of a batch are its columns: there is one for each, in order, under the name of its
/// field, which may hold nulls where the field may, with the type, the cells and the dictionary
/// of the column.
pub proof fn law_arrays_of_batch(batch: BatchView)
    ensures
        batch_arrays(batch).len() == batch.columns.len(),
        forall|c: int|
            0 <= c < batch.columns.len() ==> {
                let array = #[trigger] batch_arrays(batch)[c];
                &&& array.name == batch.fields[c].name
                &&& array.nullable == batch.fields[c].nullable
                &&& array.column.data_type == batch.columns[c].data_type
                &&& array.column.cells == batch.columns[c].cells
                &&& array.column.dictionary == batch.columns[c].dictionary
            },
{
}

/// Values become the cells of an array one by one: a value the cell of its kind with that value,
/// and none a null.
pub proof fn law_values_become_cells(
    uint8: Seq<Option<u8>>,
    boolean: Seq<Option<bool>>,
    int8: Seq<Option<i8>>,
    int16: Seq<Option<i16>>,
    int32: Seq<Option<i32>>,
    uint16: Seq<Option<u16>>,
    float32: Seq<Option<u32>>,
    uint32: Seq<Option<u32>>,
    uint64: Seq<Option<u64>>,
    int64: Seq<Option<i64>>,
    float64: Seq<Option<u64>>,
    utf8: Seq<Option<String>>,
    binary: Seq<Option<Vec<u8>>>,
    i: int,
)
    ensures
        uint8_cells(uint8).len() == uint8.len(),
        0 <= i < uint8.len() ==> (uint8[i] matches Some(v) ==> uint8_cells(uint8)[i] == CellView::UInt8(v)),
        0 <= i < uint8.len() && uint8[i] is None ==> uint8_cells(uint8)[i] is Null,
        boolean_cells(boolean).len() == boolean.len(),
        0 <= i < boolean.len() ==> (boolean[i] matches Some(v) ==> boolean_cells(boolean)[i] == CellView::Boolean(v)),
        0 <= i < boolean.len() && boolean[i] is None ==> boolean_cells(boolean)[i] is Null,
        int8_cells(int8).len() == int8.len(),
        0 <= i < int8.len() ==> (int8[i] matches Some(v) ==> int8_cells(int8)[i] == CellView::Int8(v)),
        0 <= i < int8.len() && int8[i] is None ==> int8_cells(int8)[i] is Null,
        int16_cells(int16).len() == int16.len(),
        0 <= i < int16.len() ==> (int16[i] matches Some(v) ==> int16_cells(int16)[i] == CellView::Int16(v)),
        0 <= i < int16.len() && int16[i] is None ==> int16_cells(int16)[i] is Null,
        int32_cells(int32).len() == int32.len(),
        0 <= i < int32.len() ==> (int32[i] matches Some(v) ==> int32_cells(int32)[i] == CellView::Int32(v)),
        0 <= i < int32.len() && int32[i] is None ==> int32_cells(int32)[i] is Null,
        uint16_cells(uint16).len() == uint16.len(),
        0 <= i < uint16.len() ==> (uint16[i] matches Some(v) ==> uint16_cells(uint16)[i] == CellView::UInt16(v)),
        0 <= i < uint16.len() && uint16[i] is None ==> uint16_cells(uint16)[i] is Null,
        float32_cells(float32).len() == float32.len(),
        0 <= i < float32.len() ==> (float32[i] matches Some(v) ==> float32_cells(float32)[i] == CellView::Float32(v)),
        0 <= i < float32.len() && float32[i] is None ==> float32_cells(float32)[i] is Null,
        uint32_cells(uint32).len() == uint32.len(),
        0 <= i < uint32.len() ==> (uint32[i] matches Some(v) ==> uint32_cells(uint32)[i] == CellView::UInt32(v)),
        0 <= i < uint32.len() && uint32[i] is None ==> uint32_cells(uint32)[i] is Null,
        uint64_cells(uint64).len() == uint64.len(),
        0 <= i < uint64.len() ==> (uint64[i] matches Some(v) ==> uint64_cells(uint64)[i] == CellView::UInt64(v)),
        0 <= i < uint64.len() && uint64[i] is None ==> uint64_cells(uint64)[i] is Null,
        int64_cells(int64).len() == int64.len(),
        0 <= i < int64.len() ==> (int64[i] matches Some(v) ==> int64_cells(int64)[i] == CellView::Int64(v)),
        0 <= i < int64.len() && int64[i] is None ==> int64_cells(int64)[i] is Null,
        float64_cells(float64).len() == float64.len(),
        0 <= i < float64.len() ==> (float64[i] matches Some(v) ==> float64_cells(float64)[i] == CellView::Float64(v)),
        0 <= i < float64.len() && float64[i] is None ==> float64_cells(float64)[i] is Null,
        utf8_cells(utf8).len() == utf8.len(),
        0 <= i < utf8.len() ==> (utf8[i] matches Some(v) ==> utf8_cells(utf8)[i] == CellView::Utf8(v@)),
        0 <= i < utf8.len() && utf8[i] is None ==> utf8_cells(utf8)[i] is Null,
        binary_cells(binary).len() == binary.len(),
        0 <= i < binary.len() ==> (binary[i] matches Some(v) ==> binary_cells(binary)[i] == CellView::Binary(v@)),
        0 <= i < binary.len() && binary[i] is None ==> binary_cells(binary)[i] is Null,
{
}

/// The rows of a file are those of its batches together.
pub proof fn law_rows_of_batches(a: Seq<Seq<ArrowColumn>>, b: Seq<Seq<ArrowColumn>>)
    ensures
        batch_rows(a + b) == batch_rows(a) + batch_rows(b),
        a.len() == 1 && a[0].len() > 0 ==> batch_rows(a) == a[0][0].column.cells.len(),
        a.len() == 0 ==> batch_rows(a) == 0,
    decreases b.len(),
{
    reveal_with_fuel(batch_rows, 2);
    if b.len() == 0 {
        assert(a + b =~= a);
    } else {
        law_rows_of_batches(a, b.drop_last());
        assert((a + b).drop_last() =~= a + b.drop_last());
    }
}

} // verus!

//! Parts of a memtable that are written in bulk: rows sorted into one record batch.

use bytes::Bytes;
use parquet::arrow::arrow_reader::{ArrowReaderMetadata, ArrowReaderOptions};
use parquet::file::metadata::PageIndexPolicy;
use vstd::prelude::*;

use crate::arrow_batch;
use crate::arrow_batch::{ArrowColumn, FileCompression};
use crate::arrow_builders;
use crate::lists;
use crate::record_batch;
use crate::record_batch::{
    BatchError, BatchView, Cell, CellView, Column, ColumnView, DataType, FieldView, RecordBatch,
    Schema, TimeUnit, TypeView,
};
use crate::row_order;
use crate::row_order::{RowKey, RowKeys};
use crate::table_builders;
use crate::text;

verus! {

/// The keys and the values of the dictionary of a list of byte strings. Each byte
/// string gets the last key so far where it equals the byte string at the place of that
/// key in the list, and a new one otherwise.
pub open spec fn dictionary(input: Seq<Seq<u8>>) -> (Seq<u32>, Seq<Seq<u8>>)
    decreases input.len(),
{
    if input.len() == 0 {
        (Seq::empty(), Seq::empty())
    } else if input.len() == 1 {
        (seq![0u32], input)
    } else {
        let (keys, values) = dictionary(input.drop_last());
        if input.last() == input[values.len() - 1] {
            (keys.push((values.len() - 1) as u32), values)
        } else {
            (keys.push(values.len() as u32), values.push(input.last()))
        }
    }
}

/// There are as many keys as byte strings, and no more values.
pub proof fn lemma_dictionary_lens(input: Seq<Seq<u8>>)
    ensures
        dictionary(input).0.len() == input.len(),
        dictionary(input).1.len() <= input.len(),
        input.len() > 0 ==> dictionary(input).1.len() > 0,
        arrow_builders::total_len(dictionary(input).1) <= arrow_builders::total_len(input),
    decreases input.len(),
{
    if input.len() > 1 {
        lemma_dictionary_lens(input.drop_last());
        let values = dictionary(input.drop_last()).1;
        assert(values.push(input.last()).drop_last() =~= values);
    }
}

/// Byte strings in ascending order.
pub open spec fn ascending(input: Seq<Seq<u8>>) -> bool {
    forall|i: int, j: int|
        0 <= i < j < input.len() ==> #[trigger] input[i] == #[trigger] input[j] || text::lex_lt(
            input[i],
            input[j],
        )
}

/// A dictionary of sorted byte strings gives back each of them: the value of its key.
pub proof fn law_dictionary_gives_back(input: Seq<Seq<u8>>)
    requires
        ascending(input),
        input.len() <= u32::MAX,
    ensures
        forall|i: int|
            0 <= i < input.len() ==> (#[trigger] dictionary(input).0[i]) < dictionary(input).1.len()
                && dictionary(input).1[dictionary(input).0[i] as int] == input[i],
{
    lemma_dictionary_gives_back(input);
}

/// The keys of a dictionary begin with zero, go up by one at most from each byte string to the
/// next, and end with the last value. Of sorted byte strings, different ones have different
/// keys.
pub proof fn law_dictionary_keys(input: Seq<Seq<u8>>)
    requires
        input.len() <= u32::MAX,
    ensures
        input.len() > 0 ==> dictionary(input).0[0] == 0 && dictionary(input).0.last()
            == dictionary(input).1.len() - 1,
        forall|i: int|
            0 < i < input.len() ==> dictionary(input).0[i - 1] <= #[trigger] dictionary(input).0[i]
                <= dictionary(input).0[i - 1] + 1,
        ascending(input) ==> forall|i: int, j: int|
            0 <= i < input.len() && 0 <= j < input.len() && #[trigger] input[i]
                != #[trigger] input[j] ==> dictionary(input).0[i] != dictionary(input).0[j],
{
    lemma_dictionary_keys(input);
    if ascending(input) {
        let (keys, values) = dictionary(input);
        law_dictionary_gives_back(input);
        assert forall|i: int, j: int|
            0 <= i < input.len() && 0 <= j < input.len() && #[trigger] input[i]
                != #[trigger] input[j] implies keys[i] != keys[j] by {
            assert(values[keys[i] as int] == input[i]);
            assert(values[keys[j] as int] == input[j]);
        }
    }
}

proof fn lemma_dictionary_keys(input: Seq<Seq<u8>>)
    requires
        input.len() <= u32::MAX,
    ensures
        input.len() > 0 ==> dictionary(input).0[0] == 0 && dictionary(input).0.last()
            == dictionary(input).1.len() - 1,
        forall|i: int|
            0 < i < input.len() ==> dictionary(input).0[i - 1] <= #[trigger] dictionary(input).0[i]
                <= dictionary(input).0[i - 1] + 1,
    decreases input.len(),
{
    lemma_dictionary_lens(input);
    if input.len() > 1 {
        let rest = input.drop_last();
        lemma_dictionary_keys(rest);
        lemma_dictionary_lens(rest);
        let keys = dictionary(input).0;
        let before = dictionary(rest).0;
        assert forall|i: int| 0 < i < input.len() implies keys[i - 1] <= #[trigger] keys[i]
            <= keys[i - 1] + 1 by {
            assert(keys[i - 1] == before[i - 1]);
            if i < rest.len() {
                assert(keys[i] == before[i]);
            }
        }
    }
}

proof fn lemma_dictionary_gives_back(input: Seq<Seq<u8>>)
    requires
        ascending(input),
        input.len() <= u32::MAX,
    ensures
        forall|i: int|
            0 <= i < input.len() ==> (#[trigger] dictionary(input).0[i]) < dictionary(input).1.len()
                && dictionary(input).1[dictionary(input).0[i] as int] == input[i],
        // A value is that of a byte string at its place or later.
        forall|k: int|
            0 <= k < dictionary(input).1.len() ==> exists|m: int|
                k <= m < input.len() && input[m] == #[trigger] dictionary(input).1[k],
    decreases input.len(),
{
    lemma_dictionary_lens(input);
    let (keys, values) = dictionary(input);
    if input.len() == 1 {
        assert(input[0] == values[0]);
    } else if input.len() > 1 {
        let rest = input.drop_last();
        let n = input.len() - 1;
        assert(ascending(rest)) by {
            assert forall|i: int, j: int| 0 <= i < j < rest.len() implies #[trigger] rest[i]
                == #[trigger] rest[j] || text::lex_lt(rest[i], rest[j]) by {
                assert(input[i] == rest[i] && input[j] == rest[j]);
            }
        }
        lemma_dictionary_gives_back(rest);
        lemma_dictionary_lens(rest);
        let (keys0, values0) = dictionary(rest);
        assert forall|k: int| 0 <= k < values0.len() implies exists|m: int|
            k <= m < rest.len() && input[m] == #[trigger] values0[k] by {
            let m = choose|m: int| k <= m < rest.len() && rest[m] == values0[k];
            assert(input[m] == values0[k]);
        }
        if input.last() == input[values0.len() - 1] {
            let at = values0.len() - 1;
            let m = choose|m: int| at <= m < rest.len() && input[m] == values0[at];
            if m > at {
                assert(input[at] == input[m] || text::lex_lt(input[at], input[m]));
            }
            assert(input[m] == input[n] || text::lex_lt(input[m], input[n]));
            text::lemma_lex_asymmetric(input[at], input[m]);
            assert(values0[at] == input.last());
        } else {
            assert(values == values0.push(input.last()));
            assert(input[n] == values[values0.len() as int]);
        }
        assert forall|i: int| 0 <= i < input.len() implies (#[trigger] keys[i]) < values.len()
            && values[keys[i] as int] == input[i] by {
            if i < n {
                assert(keys[i] == keys0[i]);
                assert(rest[i] == input[i]);
            }
        }
        assert forall|k: int| 0 <= k < values.len() implies exists|m: int|
            k <= m < input.len() && input[m] == #[trigger] values[k] by {
            if k < values0.len() {
                assert(values[k] == values0[k]);
                let m = choose|m: int| k <= m < rest.len() && input[m] == values0[k];
                assert(input[m] == values[k]);
            } else {
                assert(input[n] == values[k]);
            }
        }
    }
}

/// Converts sorted byte strings to a dictionary.
pub fn binary_array_to_dictionary(input: &Vec<Vec<u8>>) -> (r: (Vec<u32>, Vec<Vec<u8>>))
    requires
        input@.len() <= u32::MAX,
        arrow_builders::total_len(arrow_builders::byte_strings(input@)) <= i32::MAX,
    ensures
        r.0@ == dictionary(arrow_builders::byte_strings(input@)).0,
        arrow_builders::byte_strings(r.1@) == dictionary(arrow_builders::byte_strings(input@)).1,
{
    let ghost all = arrow_builders::byte_strings(input@);
    if input.len() == 0 {
        let values: Vec<Vec<u8>> = Vec::new();
        assert(arrow_builders::byte_strings(values@) =~= Seq::<Seq<u8>>::empty());
        return (Vec::new(), values);
    }
    let mut keys: Vec<u32> = Vec::new();
    let mut values = arrow_builders::binary_new();
    let mut prev: usize = 0;
    keys.push(prev as u32);
    proof {
        arrow_builders::lemma_total_len_prefix(all, 1);
        assert(all.take(1).drop_last() =~= Seq::<Seq<u8>>::empty());
        assert(all.take(1).last() == all[0]);
    }
    arrow_builders::binary_append_value(&mut values, input[prev].as_slice());
    assert(keys@ =~= dictionary(all.take(1)).0);
    assert(arrow_builders::binary_cells(values) =~= dictionary(all.take(1)).1);
    let mut i: usize = 1;
    while i < input.len()
        invariant
            1 <= i <= input@.len(),
            input@.len() <= u32::MAX,
            all == arrow_builders::byte_strings(input@),
            arrow_builders::total_len(all) <= i32::MAX,
            keys@ == dictionary(all.take(i as int)).0,
            arrow_builders::binary_cells(values) == dictionary(all.take(i as int)).1,
            prev + 1 == dictionary(all.take(i as int)).1.len(),
            prev < i,
        decreases input@.len() - i,
    {
        let ghost done = all.take(i as int);
        let ghost next = all.take(i + 1);
        proof {
            lemma_dictionary_lens(done);
            lemma_dictionary_lens(next);
            arrow_builders::lemma_total_len_prefix(all, i + 1);
            assert(next.drop_last() =~= done);
            assert(next.last() == all[i as int]);
            assert(all[prev as int] == next[prev as int]);
        }
        if !text::bytes_equal(input[i].as_slice(), input[prev].as_slice()) {
            arrow_builders::binary_append_value(&mut values, input[i].as_slice());
            prev = prev + 1;
        }
        keys.push(prev as u32);
        i = i + 1;
    }
    assert(all.take(i as int) =~= all);
    (keys, arrow_builders::binary_finish(values))
}

/// The columns of rows that are to be sorted into a record batch.
#[derive(Debug)]
pub struct ArraysSorter {
    pub encoded_primary_keys: Vec<Vec<u8>>,
    pub timestamp_unit: TimeUnit,
    pub timestamp: Column,
    pub sequence: Vec<u64>,
    pub op_type: Vec<u8>,
    pub fields: Vec<Column>,
    pub dedup: bool,
    pub arrow_schema: Schema,
}

/// What an [`ArraysSorter`] holds.
pub struct SorterView {
    pub primary_keys: Seq<Seq<u8>>,
    pub timestamp: ColumnView,
    pub sequence: Seq<u64>,
    pub op_type: Seq<u8>,
    pub fields: Seq<ColumnView>,
    pub dedup: bool,
    pub arrow_schema: Seq<FieldView>,
}

impl View for ArraysSorter {
    type V = SorterView;

    open spec fn view(&self) -> SorterView {
        SorterView {
            primary_keys: arrow_builders::byte_strings(self.encoded_primary_keys@),
            timestamp: self.timestamp@,
            sequence: self.sequence@,
            op_type: self.op_type@,
            fields: record_batch::columns_view(self.fields@),
            dedup: self.dedup,
            arrow_schema: self.arrow_schema@,
        }
    }
}

/// The timestamp in a cell.
pub open spec fn timestamp_of(cell: CellView) -> i64 {
    match cell {
        CellView::Int64(v) => v,
        _ => 0,
    }
}

/// Every cell of the column is a timestamp of the given unit.
pub open spec fn is_timestamps(column: ColumnView, unit: TimeUnit) -> bool {
    &&& column.data_type matches TypeView::Timestamp(u, _) && u == unit
    &&& column.dictionary.len() == 0
    &&& forall|i: int| 0 <= i < column.cells.len() ==> #[trigger] column.cells[i] is Int64
}

impl SorterView {
    /// The keys of the rows.
    pub open spec fn keys(self) -> Seq<RowKey> {
        Seq::new(
            self.primary_keys.len(),
            |i: int|
                RowKey {
                    primary_key: self.primary_keys[i],
                    timestamp: timestamp_of(self.timestamp.cells[i]),
                    sequence: self.sequence[i],
                },
        )
    }

    /// There are rows, and each column has a value of its type for each of them.
    pub open spec fn valid(self, unit: TimeUnit) -> bool {
        let n = self.primary_keys.len();
        &&& 0 < n <= u32::MAX
        &&& arrow_builders::total_len(self.primary_keys) <= i32::MAX
        &&& is_timestamps(self.timestamp, unit)
        &&& self.timestamp.cells.len() == n
        &&& self.sequence.len() == n
        &&& self.op_type.len() == n
        &&& forall|i: int|
            0 <= i < self.fields.len() ==> (#[trigger] self.fields[i]).cells.len() == n
                && self.fields[i].well_typed()
    }

    /// The rows that are left, in the order in which they are stored, where `order` has
    /// all of them in that order.
    pub open spec fn kept(self, order: Seq<int>) -> Seq<int> {
        if self.dedup {
            row_order::deduped(self.keys(), order)
        } else {
            order
        }
    }

    /// The columns of the rows at `rows`: the fields, the timestamps, the primary keys
    /// as a dictionary, the sequences and the kinds of operation.
    pub open spec fn columns(self, rows: Seq<int>) -> Seq<ColumnView> {
        self.fields.map_values(|c: ColumnView| c.take(rows)).push(self.timestamp.take(rows)).push(
            dictionary_column(rows.map_values(|i: int| self.primary_keys[i])),
        ).push(uint64_column(rows.map_values(|i: int| self.sequence[i]))).push(
            uint8_column(rows.map_values(|i: int| self.op_type[i])),
        )
    }

    /// The batch of the rows at `rows`.
    pub open spec fn batch(self, rows: Seq<int>) -> BatchView {
        BatchView {
            fields: self.arrow_schema,
            columns: self.columns(rows),
            num_rows: rows.len(),
        }
    }

    /// What the rows are sorted to, where `order` has them in order.
    pub open spec fn sorts_by(self, order: Seq<int>, batch: BatchView, min: i64, max: i64) -> bool {
        &&& record_batch::batch_fits(self.arrow_schema, self.columns(self.kept(order)))
        &&& batch == self.batch(self.kept(order))
        &&& self.time_range_is(min, max)
    }

    /// Why the sorted rows do not make up a batch of the schema.
    pub open spec fn sort_fails_by(self, order: Seq<int>, e: BatchError) -> bool {
        record_batch::batch_error_is(self.arrow_schema, self.columns(self.kept(order)), e)
    }

    /// What the rows are sorted to. Rows of one key, timestamp and sequence may come
    /// either way round.
    pub open spec fn sorts_to(self, batch: BatchView, min: i64, max: i64) -> bool {
        exists|order: Seq<int>| #[trigger]
            row_order::is_sorted_order(self.keys(), order) && self.sorts_by(order, batch, min, max)
    }

    /// Why the rows, sorted in some such order, do not make up a batch of the schema.
    pub open spec fn sort_fails(self, e: BatchError) -> bool {
        exists|order: Seq<int>| #[trigger]
            row_order::is_sorted_order(self.keys(), order) && self.sort_fails_by(order, e)
    }

    /// `min` is the earliest and `max` the latest of all timestamps.
    pub open spec fn time_range_is(self, min: i64, max: i64) -> bool {
        &&& exists|i: int|
            0 <= i < self.timestamp.cells.len() && timestamp_of(#[trigger] self.timestamp.cells[i])
                == min
        &&& exists|i: int|
            0 <= i < self.timestamp.cells.len() && timestamp_of(#[trigger] self.timestamp.cells[i])
                == max
        &&& forall|i: int|
            0 <= i < self.timestamp.cells.len() ==> min <= timestamp_of(
                #[trigger] self.timestamp.cells[i],
            ) <= max
    }
}

/// Rows that are sorted are all kept, where duplicates are not looked for, and else no more of
/// them are; none are made up.
pub proof fn law_sort_keeps_rows(sorter: SorterView, batch: BatchView, min: i64, max: i64)
    requires
        sorter.sorts_to(batch, min, max),
    ensures
        !sorter.dedup ==> batch.num_rows == sorter.primary_keys.len(),
        batch.num_rows <= sorter.primary_keys.len(),
        sorter.primary_keys.len() > 0 ==> batch.num_rows > 0,
{
    let order = choose|order: Seq<int>| #[trigger]
        row_order::is_sorted_order(sorter.keys(), order) && sorter.sorts_by(
            order,
            batch,
            min,
            max,
        );
    lemma_kept_distinct(sorter.keys(), order);
    if sorter.primary_keys.len() > 0 {
        row_order::law_dedup_keeps_latest(sorter.keys(), order);
        assert(row_order::latest_kept(
            sorter.keys(),
            row_order::deduped(sorter.keys(), order),
            0,
        ));
    }
}

/// Byte strings as a dictionary column.
pub open spec fn dictionary_column(values: Seq<Seq<u8>>) -> ColumnView {
    ColumnView {
        data_type: TypeView::DictionaryBinary,
        cells: dictionary(values).0.map_values(|k: u32| CellView::UInt32(k)),
        dictionary: dictionary(values).1,
    }
}

/// Numbers of 64 bits as a column.
pub open spec fn uint64_column(values: Seq<u64>) -> ColumnView {
    ColumnView {
        data_type: TypeView::UInt64,
        cells: values.map_values(|v: u64| CellView::UInt64(v)),
        dictionary: Seq::empty(),
    }
}

/// Numbers of 8 bits as a column.
pub open spec fn uint8_column(values: Seq<u8>) -> ColumnView {
    ColumnView {
        data_type: TypeView::UInt8,
        cells: values.map_values(|v: u8| CellView::UInt8(v)),
        dictionary: Seq::empty(),
    }
}

/// The values of a timestamp column.
pub fn timestamp_array_to_iter(unit: TimeUnit, timestamp: &Column) -> (r: Vec<i64>)
    requires
        is_timestamps(timestamp@, unit),
    ensures
        r@ == timestamp@.cells.map_values(|c: CellView| timestamp_of(c)),
{
    let mut values: Vec<i64> = Vec::new();
    let mut i: usize = 0;
    while i < timestamp.cells.len()
        invariant
            i <= timestamp.cells@.len(),
            is_timestamps(timestamp@, unit),
            values@.len() == i,
            forall|k: int|
                0 <= k < i ==> #[trigger] values@[k] == timestamp_of(timestamp@.cells[k]),
        decreases timestamp.cells@.len() - i,
    {
        assert(timestamp@.cells[i as int] == timestamp.cells@[i as int]@);
        let value: i64 = match &timestamp.cells[i] {
            Cell::Int64(v) => *v,
            _ => 0,
        };
        values.push(value);
        i = i + 1;
    }
    assert(values@ =~= timestamp@.cells.map_values(|c: CellView| timestamp_of(c)));
    values
}

/// The dictionary column of the byte strings at `rows`.
fn take_dictionary(values: &Vec<Vec<u8>>, rows: &Vec<usize>) -> (r: Column)
    requires
        rows@.len() <= u32::MAX,
        row_order::in_range(row_order::places(rows@), values@.len()),
        row_order::places(rows@).no_duplicates(),
        arrow_builders::total_len(arrow_builders::byte_strings(values@)) <= i32::MAX,
    ensures
        r@ == dictionary_column(
            row_order::places(rows@).map_values(
                |i: int| arrow_builders::byte_strings(values@)[i],
            ),
        ),
{
    let ghost all = arrow_builders::byte_strings(values@);
    let ghost at = row_order::places(rows@);
    let mut taken: Vec<Vec<u8>> = Vec::new();
    let mut k: usize = 0;
    while k < rows.len()
        invariant
            k <= rows@.len(),
            at == row_order::places(rows@),
            all == arrow_builders::byte_strings(values@),
            row_order::in_range(at, values@.len()),
            taken@.len() == k,
            forall|j: int| 0 <= j < k ==> (#[trigger] taken@[j])@ == all[at[j]],
        decreases rows@.len() - k,
    {
        assert(at[k as int] == rows@[k as int]);
        let i: usize = rows[k];
        taken.push(vstd::slice::slice_to_vec(values[i].as_slice()));
        k = k + 1;
    }
    let ghost picked = at.map_values(|i: int| all[i]);
    assert(arrow_builders::byte_strings(taken@) =~= picked);
    proof {
        arrow_builders::lemma_total_len_picked(all, at);
        lemma_dictionary_lens(picked);
    }
    let (keys, dict) = binary_array_to_dictionary(&taken);
    let mut cells: Vec<Cell> = Vec::new();
    let mut j: usize = 0;
    while j < keys.len()
        invariant
            j <= keys@.len(),
            cells@.len() == j,
            forall|m: int| 0 <= m < j ==> (#[trigger] cells@[m])@ == CellView::UInt32(keys@[m]),
        decreases keys@.len() - j,
    {
        cells.push(Cell::UInt32(keys[j]));
        j = j + 1;
    }
    let r = Column { data_type: DataType::DictionaryBinary, cells, dictionary: dict };
    assert(r@.cells =~= dictionary_column(picked).cells);
    assert(r@.dictionary =~= dictionary_column(picked).dictionary);
    r
}

/// The column of the numbers at `rows`.
fn take_uint64(values: &Vec<u64>, rows: &Vec<usize>) -> (r: Column)
    requires
        row_order::in_range(row_order::places(rows@), values@.len()),
    ensures
        r@ == uint64_column(row_order::places(rows@).map_values(|i: int| values@[i])),
{
    let ghost at = row_order::places(rows@);
    let mut cells: Vec<Cell> = Vec::new();
    let mut k: usize = 0;
    while k < rows.len()
        invariant
            k <= rows@.len(),
            at == row_order::places(rows@),
            row_order::in_range(at, values@.len()),
            cells@.len() == k,
            forall|j: int| 0 <= j < k ==> (#[trigger] cells@[j])@ == CellView::UInt64(values@[at[j]]),
        decreases rows@.len() - k,
    {
        assert(at[k as int] == rows@[k as int]);
        let i: usize = rows[k];
        cells.push(Cell::UInt64(values[i]));
        k = k + 1;
    }
    let r = Column::new(DataType::UInt64, cells);
    assert(r@.cells =~= uint64_column(at.map_values(|i: int| values@[i])).cells);
    r
}

/// The column of the small numbers at `rows`.
fn take_uint8(values: &Vec<u8>, rows: &Vec<usize>) -> (r: Column)
    requires
        row_order::in_range(row_order::places(rows@), values@.len()),
    ensures
        r@ == uint8_column(row_order::places(rows@).map_values(|i: int| values@[i])),
{
    let ghost at = row_order::places(rows@);
    let mut cells: Vec<Cell> = Vec::new();
    let mut k: usize = 0;
    while k < rows.len()
        invariant
            k <= rows@.len(),
            at == row_order::places(rows@),
            row_order::in_range(at, values@.len()),
            cells@.len() == k,
            forall|j: int| 0 <= j < k ==> (#[trigger] cells@[j])@ == CellView::UInt8(values@[at[j]]),
        decreases rows@.len() - k,
    {
        assert(at[k as int] == rows@[k as int]);
        let i: usize = rows[k];
        cells.push(Cell::UInt8(values[i]));
        k = k + 1;
    }
    let r = Column::new(DataType::UInt8, cells);
    assert(r@.cells =~= uint8_column(at.map_values(|i: int| values@[i])).cells);
    r
}

/// The earliest and the latest of some timestamps.
fn time_range(timestamps: &Vec<i64>) -> (r: (i64, i64))
    requires
        timestamps@.len() > 0,
    ensures
        timestamps@.contains(r.0),
        timestamps@.contains(r.1),
        forall|i: int| 0 <= i < timestamps@.len() ==> r.0 <= #[trigger] timestamps@[i] <= r.1,
{
    let mut min: i64 = timestamps[0];
    let mut max: i64 = timestamps[0];
    let mut i: usize = 1;
    while i < timestamps.len()
        invariant
            1 <= i <= timestamps@.len(),
            timestamps@.contains(min),
            timestamps@.contains(max),
            forall|k: int| 0 <= k < i ==> min <= #[trigger] timestamps@[k] <= max,
        decreases timestamps@.len() - i,
    {
        let t: i64 = timestamps[i];
        assert(timestamps@.contains(t));
        if t < min {
            min = t;
        }
        if t > max {
            max = t;
        }
        i = i + 1;
    }
    (min, max)
}

impl ArraysSorter {
    /// Sorts the rows by primary key, timestamp and sequence, the last written first;
    /// where asked to, leaves only the last written of the rows with one primary key and
    /// timestamp; and gives the batch of what is left with the earliest and the latest
    /// timestamp of all rows.
    pub fn sort(self) -> (r: Result<(RecordBatch, i64, i64), BatchError>)
        requires
            self@.valid(self.timestamp_unit),
        ensures
            match r {
                Ok((batch, min, max)) => self@.sorts_to(batch@, min, max) && batch@.valid(),
                Err(e) => self@.sort_fails(e),
            },
    {
        let ghost given = self@;
        let ghost n = given.primary_keys.len();
        let timestamps = timestamp_array_to_iter(self.timestamp_unit, &self.timestamp);
        let (min_timestamp, max_timestamp) = time_range(&timestamps);
        assert(given.time_range_is(min_timestamp, max_timestamp)) by {
            let i = choose|i: int| 0 <= i < timestamps@.len() && timestamps@[i] == min_timestamp;
            assert(timestamp_of(given.timestamp.cells[i]) == min_timestamp);
            let j = choose|j: int| 0 <= j < timestamps@.len() && timestamps@[j] == max_timestamp;
            assert(timestamp_of(given.timestamp.cells[j]) == max_timestamp);
            assert forall|k: int| 0 <= k < given.timestamp.cells.len() implies min_timestamp
                <= timestamp_of(#[trigger] given.timestamp.cells[k]) <= max_timestamp by {
                assert(timestamps@[k] == timestamp_of(given.timestamp.cells[k]));
            }
        }
        let keys = RowKeys {
            primary_keys: &self.encoded_primary_keys,
            timestamps: &timestamps,
            sequences: &self.sequence,
        };
        assert(keys.keys() =~= given.keys());
        let sorted = row_order::sort_rows(&keys);
        let ghost order = row_order::places(sorted@);
        proof {
            row_order::law_dedup_keeps_latest(given.keys(), order);
            lemma_kept_distinct(given.keys(), order);
        }
        let rows = if self.dedup {
            row_order::dedup_rows(&keys, &sorted)
        } else {
            sorted
        };
        let ghost at = given.kept(order);
        assert(row_order::places(rows@) == at);
        assert(rows@.map_values(|i: usize| i as int) == at);
        assert forall|k: int| 0 <= k < rows@.len() implies #[trigger] rows@[k] < n by {
            assert(at[k] == rows@[k]);
        }
        let mut columns: Vec<Column> = Vec::new();
        let mut f: usize = 0;
        while f < self.fields.len()
            invariant
                f <= self.fields@.len(),
                given == self@,
                given.valid(self.timestamp_unit),
                n == given.primary_keys.len(),
                rows@.map_values(|i: usize| i as int) == at,
                forall|k: int| 0 <= k < rows@.len() ==> #[trigger] rows@[k] < n,
                columns@.len() == f,
                forall|k: int| 0 <= k < f ==> (#[trigger] columns@[k])@ == given.fields[k].take(at),
            decreases self.fields@.len() - f,
        {
            assert(given.fields[f as int] == self.fields@[f as int]@);
            columns.push(self.fields[f].take(&rows));
            f = f + 1;
        }
        columns.push(self.timestamp.take(&rows));
        columns.push(take_dictionary(&self.encoded_primary_keys, &rows));
        columns.push(take_uint64(&self.sequence, &rows));
        columns.push(take_uint8(&self.op_type, &rows));
        assert(record_batch::columns_view(columns@) =~= given.columns(at));
        proof {
            assert(given.columns(at)[0].cells.len() == at.len()) by {
                lemma_dictionary_lens(at.map_values(|i: int| given.primary_keys[i]));
            }
        }
        proof {
            lemma_columns_well_typed(given, self.timestamp_unit, order);
        }
        match RecordBatch::try_new(self.arrow_schema, columns) {
            Ok(batch) => {
                assert(given.sorts_by(order, batch@, min_timestamp, max_timestamp));
                Ok((batch, min_timestamp, max_timestamp))
            },
            Err(e) => {
                assert(given.sort_fails_by(order, e));
                Err(e)
            },
        }
    }
}

/// The cells of a sorted batch, where `order` has the rows in order.
proof fn lemma_sorted_cells(sorter: SorterView, unit: TimeUnit, batch: BatchView, order: Seq<int>)
    requires
        sorter.valid(unit),
        row_order::is_sorted_order(sorter.keys(), order),
        batch == sorter.batch(sorter.kept(order)),
    ensures
        ({
            let m = sorter.fields.len() as int;
            let rows = sorter.kept(order);
            let times = batch.columns[m].cells;
            let keys = batch.columns[m + 1];
            let sequences = batch.columns[m + 2].cells;
            let ops = batch.columns[m + 3].cells;
            &&& rows.no_duplicates()
            &&& rows.len() == batch.num_rows
            &&& batch.columns.len() == m + 4
            &&& forall|c: int|
                0 <= c < batch.columns.len() ==> (#[trigger] batch.columns[c]).cells.len()
                    == batch.num_rows
            &&& forall|k: int|
                0 <= k < rows.len() ==> 0 <= #[trigger] rows[k] < sorter.primary_keys.len()
            &&& forall|k: int, f: int|
                0 <= k < rows.len() && 0 <= f < m ==> #[trigger] batch.columns[f].cells[k]
                    == sorter.fields[f].cells[rows[k]]
            &&& forall|k: int|
                0 <= k < rows.len() ==> #[trigger] times[k] == sorter.timestamp.cells[rows[k]]
            &&& forall|k: int|
                0 <= k < rows.len() ==> (#[trigger] keys.cells[k] matches CellView::UInt32(d) && d
                    < keys.dictionary.len() && keys.dictionary[d as int]
                    == sorter.primary_keys[rows[k]])
            &&& forall|k: int|
                0 <= k < rows.len() ==> #[trigger] sequences[k] == CellView::UInt64(
                    sorter.sequence[rows[k]],
                )
            &&& forall|k: int|
                0 <= k < rows.len() ==> #[trigger] ops[k] == CellView::UInt8(
                    sorter.op_type[rows[k]],
                )
        }),
{
    let m = sorter.fields.len() as int;
    let rows = sorter.kept(order);
    row_order::law_dedup_keeps_latest(sorter.keys(), order);
    lemma_kept_distinct(sorter.keys(), order);
    lemma_kept_keys_ascend(sorter, order);
    let picked = rows.map_values(|i: int| sorter.primary_keys[i]);
    lemma_dictionary_lens(picked);
    law_dictionary_gives_back(picked);
    assert(batch.columns[m] == sorter.timestamp.take(rows));
    assert(batch.columns[m + 1] == dictionary_column(picked));
    assert forall|k: int| 0 <= k < rows.len() implies (
    #[trigger] batch.columns[m + 1].cells[k] matches CellView::UInt32(d) && d
        < dictionary(picked).1.len() && dictionary(picked).1[d as int]
        == sorter.primary_keys[rows[k]]) by {
        assert(dictionary(picked).0[k] < dictionary(picked).1.len());
        assert(picked[k] == sorter.primary_keys[rows[k]]);
    }
    assert forall|k: int, f: int| 0 <= k < rows.len() && 0 <= f < m implies
        #[trigger] batch.columns[f].cells[k] == sorter.fields[f].cells[rows[k]] by {
        assert(batch.columns[f] == sorter.fields[f].take(rows));
    }
    assert forall|c: int| 0 <= c < batch.columns.len() implies (
    #[trigger] batch.columns[c]).cells.len() == batch.num_rows by {
        if c < m {
            assert(batch.columns[c] == sorter.fields[c].take(rows));
        }
    }
}

/// The rows that are left, where `order` has all of them in order.
proof fn lemma_sorted_rows(sorter: SorterView, unit: TimeUnit, order: Seq<int>)
    requires
        sorter.valid(unit),
        row_order::is_sorted_order(sorter.keys(), order),
    ensures
        ({
            let rows = sorter.kept(order);
            &&& forall|i: int, j: int|
                #![trigger rows[i], rows[j]]
                0 <= i < j < rows.len() ==> {
                    ||| text::lex_lt(sorter.primary_keys[rows[i]], sorter.primary_keys[rows[j]])
                    ||| sorter.primary_keys[rows[i]] == sorter.primary_keys[rows[j]]
                        && sorter.timestamp.cells[rows[i]]->Int64_0
                        < sorter.timestamp.cells[rows[j]]->Int64_0
                    ||| sorter.primary_keys[rows[i]] == sorter.primary_keys[rows[j]]
                        && sorter.timestamp.cells[rows[i]] == sorter.timestamp.cells[rows[j]]
                        && sorter.sequence[rows[i]] >= sorter.sequence[rows[j]] && !sorter.dedup
                }
            &&& forall|row: int|
                0 <= row < sorter.primary_keys.len() && !sorter.dedup ==> #[trigger] rows.contains(
                    row,
                )
        }),
{
    let keys = sorter.keys();
    let rows = sorter.kept(order);
    row_order::law_dedup_keeps_latest(keys, order);
    assert forall|row: int| 0 <= row < sorter.primary_keys.len() && !sorter.dedup implies
        #[trigger] rows.contains(row) by {
        row_order::lemma_order_covers(order, keys.len(), row);
    }
    assert forall|i: int, j: int|
        #![trigger rows[i], rows[j]]
        0 <= i < j < rows.len() implies {
        ||| text::lex_lt(sorter.primary_keys[rows[i]], sorter.primary_keys[rows[j]])
        ||| sorter.primary_keys[rows[i]] == sorter.primary_keys[rows[j]]
            && sorter.timestamp.cells[rows[i]]->Int64_0 < sorter.timestamp.cells[rows[j]]->Int64_0
        ||| sorter.primary_keys[rows[i]] == sorter.primary_keys[rows[j]]
            && sorter.timestamp.cells[rows[i]] == sorter.timestamp.cells[rows[j]]
            && sorter.sequence[rows[i]] >= sorter.sequence[rows[j]] && !sorter.dedup
    } by {
        assert(keys[rows[i]].le(keys[rows[j]]));
        assert(0 <= rows[i] < keys.len() && 0 <= rows[j] < keys.len());
        assert(sorter.timestamp.cells[rows[i]] is Int64);
        assert(sorter.timestamp.cells[rows[j]] is Int64);
        if sorter.dedup {
            assert(!keys[rows[i]].same_row(keys[rows[j]]));
        }
    }
}

/// Each row of a sorted batch is one of the rows given, as it was given: its fields, its
/// timestamp, its primary key, its sequence and its kind of operation. No row is stored twice.
/// Rows come by primary key, then by time, the last written first. Where duplicates are looked
/// for, each primary key and timestamp is left with one row, and no row given has a higher
/// sequence than the one left of its key and timestamp; else all rows are left. A kind of
/// operation that no row given has, no row stored has: of deletes alone none becomes a put.
/// Gives the places of the rows that are stored, in the order in which they are.
pub proof fn law_sorted_batch_holds_rows(
    sorter: SorterView,
    unit: TimeUnit,
    batch: BatchView,
    min: i64,
    max: i64,
) -> (rows: Seq<int>)
    requires
        sorter.valid(unit),
        sorter.sorts_to(batch, min, max),
    ensures
        batch.columns.len() == sorter.fields.len() + 4,
        batch.fields == sorter.arrow_schema,
        forall|c: int|
            0 <= c < batch.columns.len() ==> (#[trigger] batch.columns[c]).cells.len()
                == batch.num_rows,
        rows.no_duplicates(),
        ({
                let m = sorter.fields.len() as int;
                let times = batch.columns[m].cells;
                let keys = batch.columns[m + 1];
                let sequences = batch.columns[m + 2].cells;
                let ops = batch.columns[m + 3].cells;
                &&& rows.len() == batch.num_rows
                &&& forall|k: int|
                    0 <= k < rows.len() ==> 0 <= #[trigger] rows[k] < sorter.primary_keys.len()
                &&& forall|k: int, f: int|
                    0 <= k < rows.len() && 0 <= f < m ==> #[trigger] batch.columns[f].cells[k]
                        == sorter.fields[f].cells[rows[k]]
                &&& forall|k: int|
                    0 <= k < rows.len() ==> #[trigger] times[k] == sorter.timestamp.cells[rows[k]]
                &&& forall|k: int|
                    0 <= k < rows.len() ==> (#[trigger] keys.cells[k] matches CellView::UInt32(d)
                        && d < keys.dictionary.len() && keys.dictionary[d as int]
                        == sorter.primary_keys[rows[k]])
                &&& forall|k: int|
                    0 <= k < rows.len() ==> #[trigger] sequences[k] == CellView::UInt64(
                        sorter.sequence[rows[k]],
                    )
                &&& forall|k: int|
                    0 <= k < rows.len() ==> #[trigger] ops[k] == CellView::UInt8(
                        sorter.op_type[rows[k]],
                    )
                &&& forall|i: int, j: int|
                    #![trigger rows[i], rows[j]]
                    0 <= i < j < rows.len() ==> {
                        ||| text::lex_lt(
                            sorter.primary_keys[rows[i]],
                            sorter.primary_keys[rows[j]],
                        )
                        ||| sorter.primary_keys[rows[i]] == sorter.primary_keys[rows[j]]
                            && sorter.timestamp.cells[rows[i]]->Int64_0
                            < sorter.timestamp.cells[rows[j]]->Int64_0
                        ||| sorter.primary_keys[rows[i]] == sorter.primary_keys[rows[j]]
                            && sorter.timestamp.cells[rows[i]] == sorter.timestamp.cells[rows[j]]
                            && sorter.sequence[rows[i]] >= sorter.sequence[rows[j]]
                            && !sorter.dedup
                    }
                &&& forall|row: int|
                    0 <= row < sorter.primary_keys.len() && !sorter.dedup
                        ==> #[trigger] rows.contains(row)
            }),
        forall|op: u8|
            !#[trigger] sorter.op_type.contains(op) ==> forall|k: int|
                0 <= k < batch.num_rows ==> #[trigger] batch.columns.last().cells[k]
                    != CellView::UInt8(op),
        exists|i: int|
            0 <= i < sorter.timestamp.cells.len() && #[trigger] sorter.timestamp.cells[i]
                == CellView::Int64(min),
        exists|i: int|
            0 <= i < sorter.timestamp.cells.len() && #[trigger] sorter.timestamp.cells[i]
                == CellView::Int64(max),
        forall|i: int|
            0 <= i < sorter.timestamp.cells.len() ==> (#[trigger] sorter.timestamp.cells[i] matches
                CellView::Int64(t) && min <= t <= max),
{
    let order = choose|order: Seq<int>| #[trigger]
        row_order::is_sorted_order(sorter.keys(), order) && sorter.sorts_by(
            order,
            batch,
            min,
            max,
        );
    let rows = sorter.kept(order);
    lemma_sorted_cells(sorter, unit, batch, order);
    lemma_sorted_rows(sorter, unit, order);
    assert(rows.no_duplicates());
    assert forall|op: u8| !#[trigger] sorter.op_type.contains(op) implies forall|k: int|
        0 <= k < batch.num_rows ==> #[trigger] batch.columns.last().cells[k] != CellView::UInt8(
            op,
        ) by {
        assert forall|k: int| 0 <= k < batch.num_rows implies
            #[trigger] batch.columns.last().cells[k] != CellView::UInt8(op) by {
            assert(0 <= rows[k] < sorter.primary_keys.len());
            assert(sorter.op_type.contains(sorter.op_type[rows[k]]));
        }
    }
    rows
}

/// No row that is sorted gets lost: the batch has a row with its primary key and timestamp that
/// was written no earlier. Gives the place of that row in the batch.
pub proof fn law_sort_leaves_latest(
    sorter: SorterView,
    unit: TimeUnit,
    batch: BatchView,
    min: i64,
    max: i64,
    row: int,
) -> (k: int)
    requires
        sorter.valid(unit),
        sorter.sorts_to(batch, min, max),
        0 <= row < sorter.primary_keys.len(),
    ensures
        0 <= k < batch.num_rows,
        batch.columns.len() == sorter.fields.len() + 4,
        batch.columns[sorter.fields.len() as int].cells[k] == sorter.timestamp.cells[row],
        batch.columns[sorter.fields.len() as int + 1].cells[k] matches CellView::UInt32(d) && d
            < batch.columns[sorter.fields.len() as int + 1].dictionary.len()
            && batch.columns[sorter.fields.len() as int + 1].dictionary[d as int]
            == sorter.primary_keys[row],
        batch.columns[sorter.fields.len() as int + 2].cells[k] matches CellView::UInt64(s) && s
            >= sorter.sequence[row],
{
    let keys = sorter.keys();
    let order = choose|order: Seq<int>| #[trigger]
        row_order::is_sorted_order(keys, order) && sorter.sorts_by(order, batch, min, max);
    let rows = sorter.kept(order);
    lemma_sorted_cells(sorter, unit, batch, order);
    row_order::law_dedup_keeps_latest(keys, order);
    let k = if sorter.dedup {
        assert(row_order::latest_kept(keys, rows, row));
        choose|k: int|
            0 <= k < rows.len() && keys[#[trigger] rows[k]].same_row(keys[row])
                && keys[rows[k]].sequence >= keys[row].sequence
    } else {
        row_order::lemma_order_covers(order, keys.len(), row);
        choose|k: int| 0 <= k < rows.len() && rows[k] == row
    };
    assert(0 <= rows[k] < keys.len());
    assert(sorter.timestamp.cells[rows[k]] is Int64);
    assert(sorter.timestamp.cells[row] is Int64);
    let m = sorter.fields.len() as int;
    assert(batch.columns[m].cells[k] == sorter.timestamp.cells[rows[k]]);
    assert(batch.columns[m + 1].cells[k] is UInt32);
    assert(batch.columns[m + 2].cells[k] == CellView::UInt64(sorter.sequence[rows[k]]));
    k
}

/// The keys of the rows that are left come in order, so the dictionary of their primary
/// keys gives each of them back.
pub proof fn lemma_kept_keys_ascend(sorter: SorterView, order: Seq<int>)
    requires
        row_order::is_sorted_order(sorter.keys(), order),
    ensures
        ascending(sorter.kept(order).map_values(|i: int| sorter.primary_keys[i])),
{
    row_order::law_dedup_keeps_latest(sorter.keys(), order);
    let rows = sorter.kept(order);
    let keys = sorter.keys();
    let picked = rows.map_values(|i: int| sorter.primary_keys[i]);
    assert forall|i: int, j: int| 0 <= i < j < picked.len() implies #[trigger] picked[i]
        == #[trigger] picked[j] || text::lex_lt(picked[i], picked[j]) by {
        assert(keys[rows[i]].le(keys[rows[j]]));
        assert(0 <= rows[i] < keys.len() && 0 <= rows[j] < keys.len());
    }
}

/// The columns of sorted rows hold values of their types.
proof fn lemma_columns_well_typed(sorter: SorterView, unit: TimeUnit, order: Seq<int>)
    requires
        sorter.valid(unit),
        row_order::is_sorted_order(sorter.keys(), order),
    ensures
        forall|i: int|
            0 <= i < sorter.columns(sorter.kept(order)).len() ==> (#[trigger] sorter.columns(
                sorter.kept(order),
            )[i]).well_typed(),
{
    row_order::law_dedup_keeps_latest(sorter.keys(), order);
    lemma_kept_distinct(sorter.keys(), order);
    lemma_kept_keys_ascend(sorter, order);
    let rows = sorter.kept(order);
    let columns = sorter.columns(rows);
    let picked = rows.map_values(|i: int| sorter.primary_keys[i]);
    lemma_dictionary_lens(picked);
    law_dictionary_gives_back(picked);
    let m = sorter.fields.len() as int;
    assert forall|i: int| 0 <= i < columns.len() implies (#[trigger] columns[i]).well_typed() by {
        if i < m {
            let before = sorter.fields[i];
            assert(columns[i] == before.take(rows));
            assert(before.well_typed());
            assert forall|k: int| 0 <= k < columns[i].cells.len() implies #[trigger] columns[i].cells[k]
                == before.cells[rows[k]] && columns[i].cells[k].fits(columns[i].data_type) by {
                assert(0 <= rows[k] < sorter.keys().len());
            }
        } else if i == m {
            assert(columns[i] == sorter.timestamp.take(rows));
            assert forall|k: int| 0 <= k < columns[i].cells.len() implies (
            #[trigger] columns[i].cells[k]).fits(columns[i].data_type) by {
                assert(0 <= rows[k] < sorter.keys().len());
            }
        } else if i == m + 1 {
            assert(columns[i] == dictionary_column(picked));
            assert forall|k: int| 0 <= k < columns[i].cells.len() implies #[trigger] columns[i].cells[k]
                == CellView::UInt32(dictionary(picked).0[k]) && dictionary(picked).0[k]
                < columns[i].dictionary.len() by {}
        }
    }
}

/// The rows that are left without duplicates are each left once.
proof fn lemma_kept_distinct(keys: Seq<RowKey>, order: Seq<int>)
    requires
        row_order::is_sorted_order(keys, order),
    ensures
        row_order::deduped(keys, order).no_duplicates(),
        row_order::deduped(keys, order).len() <= keys.len(),
{
    row_order::law_dedup_keeps_latest(keys, order);
    let kept = row_order::deduped(keys, order);
    assert forall|i: int, j: int| 0 <= i < kept.len() && 0 <= j < kept.len() && i != j implies kept[i]
        != kept[j] by {
        if i < j {
            assert(!keys[kept[i]].same_row(keys[kept[j]]));
        } else {
            assert(!keys[kept[j]].same_row(keys[kept[i]]));
        }
    }
    lemma_deduped_len(keys, order);
}

proof fn lemma_deduped_len(keys: Seq<RowKey>, order: Seq<int>)
    ensures
        row_order::deduped(keys, order).len() <= order.len(),
    decreases order.len(),
{
    if order.len() > 1 {
        lemma_deduped_len(keys, order.drop_last());
    }
}

/// A row that a mutation writes, with its primary key encoded where that was possible.
#[derive(Debug)]
pub struct KeyValue {
    pub primary_key: Result<Vec<u8>, String>,
    pub timestamp: i64,
    pub sequence: u64,
    pub op_type: u8,
    pub fields: Vec<Cell>,
}

/// What a [`KeyValue`] holds.
pub struct KeyValueView {
    pub primary_key: Result<Seq<u8>, Seq<char>>,
    pub timestamp: i64,
    pub sequence: u64,
    pub op_type: u8,
    pub fields: Seq<CellView>,
}

/// What a write does to a region.
#[derive(Debug)]
pub struct Mutation {
    pub rows: Option<Vec<KeyValue>>,
}

/// What is known of the region that rows are written to.
#[derive(Debug)]
pub struct RegionMetadata {
    /// The identifiers of all columns.
    pub column_ids: Vec<u32>,
    /// The unit of the time index.
    pub time_unit: TimeUnit,
    /// The types of the field columns.
    pub field_types: Vec<DataType>,
    /// The schema of the region's files.
    pub sst_schema: Schema,
}

/// Why mutations could not be encoded.
#[derive(Debug)]
pub enum PartError {
    EncodePrimaryKey(String),
    NewRecordBatch(BatchError),
    /// The file could not be written.
    EncodeMemtable,
    /// The file that was written could not be read.
    ReadDataPart(String),
}

impl View for KeyValue {
    type V = KeyValueView;

    open spec fn view(&self) -> KeyValueView {
        KeyValueView {
            primary_key: match self.primary_key {
                Ok(key) => Ok(key@),
                Err(reason) => Err(reason@),
            },
            timestamp: self.timestamp,
            sequence: self.sequence,
            op_type: self.op_type,
            fields: record_batch::cells_view(self.fields@),
        }
    }
}

/// The rows of a mutation.
pub open spec fn mutation_rows(mutation: Mutation) -> Seq<KeyValueView> {
    match mutation.rows {
        Some(rows) => rows@.map_values(|r: KeyValue| r@),
        None => Seq::empty(),
    }
}

/// The rows of all mutations, in order.
pub open spec fn all_rows(mutations: Seq<Mutation>) -> Seq<KeyValueView>
    decreases mutations.len(),
{
    if mutations.len() == 0 {
        Seq::empty()
    } else {
        all_rows(mutations.drop_last()) + mutation_rows(mutations.last())
    }
}

/// The primary key of a row, empty where it could not be encoded.
pub open spec fn key_bytes(row: KeyValueView) -> Seq<u8> {
    match row.primary_key {
        Ok(key) => key,
        Err(_) => Seq::empty(),
    }
}

/// The primary key of row `k` is the first that could not be encoded.
pub open spec fn encode_fails_at(rows: Seq<KeyValueView>, k: int) -> bool {
    &&& 0 <= k < rows.len()
    &&& rows[k].primary_key is Err
    &&& forall|i: int| 0 <= i < k ==> (#[trigger] rows[i]).primary_key is Ok
}

/// The rows' columns, before they are sorted.
pub open spec fn unsorted(
    rows: Seq<KeyValueView>,
    metadata: RegionMetadata,
    dedup: bool,
) -> SorterView {
    SorterView {
        primary_keys: rows.map_values(|r: KeyValueView| key_bytes(r)),
        timestamp: ColumnView {
            data_type: TypeView::Timestamp(metadata.time_unit, None),
            cells: rows.map_values(|r: KeyValueView| CellView::Int64(r.timestamp)),
            dictionary: Seq::empty(),
        },
        sequence: rows.map_values(|r: KeyValueView| r.sequence),
        op_type: rows.map_values(|r: KeyValueView| r.op_type),
        fields: Seq::new(
            metadata.field_types@.len(),
            |j: int|
                ColumnView {
                    data_type: metadata.field_types@[j]@,
                    cells: rows.map_values(|r: KeyValueView| r.fields[j]),
                    dictionary: Seq::empty(),
                },
        ),
        dedup,
        arrow_schema: metadata.sst_schema@,
    }
}

/// A row has a value of its type for each field column.
pub open spec fn row_fits(row: KeyValueView, metadata: RegionMetadata) -> bool {
    &&& row.fields.len() == metadata.field_types@.len()
    &&& forall|j: int|
        0 <= j < row.fields.len() ==> (#[trigger] row.fields[j]).fits(metadata.field_types@[j]@)
            && metadata.field_types@[j]@ !is DictionaryBinary
}

/// The number of rows of all mutations.
fn count_rows(mutations: &Vec<Mutation>) -> (r: usize)
    requires
        all_rows(mutations@).len() <= usize::MAX,
    ensures
        r == all_rows(mutations@).len(),
{
    let mut total: usize = 0;
    let mut i: usize = 0;
    assert(mutations@.take(0) =~= Seq::<Mutation>::empty());
    while i < mutations.len()
        invariant
            i <= mutations@.len(),
            all_rows(mutations@).len() <= usize::MAX,
            total == all_rows(mutations@.take(i as int)).len(),
        decreases mutations@.len() - i,
    {
        proof {
            lemma_all_rows_prefix(mutations@, i + 1);
            assert(mutations@.take(i + 1).drop_last() =~= mutations@.take(i as int));
        }
        match &mutations[i].rows {
            Some(rows) => {
                total = total + rows.len();
            },
            None => {},
        }
        i = i + 1;
    }
    assert(mutations@.take(i as int) =~= mutations@);
    total
}

/// The rows of the first mutations are the first of all rows.
proof fn lemma_all_rows_prefix(mutations: Seq<Mutation>, n: int)
    requires
        0 <= n <= mutations.len(),
    ensures
        all_rows(mutations.take(n)).len() <= all_rows(mutations).len(),
        forall|k: int|
            0 <= k < all_rows(mutations.take(n)).len() ==> #[trigger] all_rows(mutations.take(n))[k]
                == all_rows(mutations)[k],
    decreases mutations.len() - n,
{
    if n < mutations.len() {
        lemma_all_rows_prefix(mutations, n + 1);
        assert(mutations.take(n + 1).drop_last() =~= mutations.take(n));
        assert forall|k: int| 0 <= k < all_rows(mutations.take(n)).len() implies #[trigger] all_rows(
            mutations.take(n),
        )[k] == all_rows(mutations)[k] by {
            assert(all_rows(mutations.take(n + 1))[k] == all_rows(mutations)[k]);
        }
    } else {
        assert(mutations.take(n) =~= mutations);
    }
}

/// The columns collected so far are those of `rows`.
spec fn collected(
    rows: Seq<KeyValueView>,
    primary_keys: Seq<Vec<u8>>,
    timestamps: Seq<Cell>,
    sequences: Seq<u64>,
    op_types: Seq<u8>,
    fields: Seq<Vec<Cell>>,
) -> bool {
    &&& arrow_builders::byte_strings(primary_keys) == rows.map_values(
        |r: KeyValueView| key_bytes(r),
    )
    &&& record_batch::cells_view(timestamps) == rows.map_values(
        |r: KeyValueView| CellView::Int64(r.timestamp),
    )
    &&& sequences == rows.map_values(|r: KeyValueView| r.sequence)
    &&& op_types == rows.map_values(|r: KeyValueView| r.op_type)
    &&& forall|j: int|
        0 <= j < fields.len() ==> record_batch::cells_view((#[trigger] fields[j])@)
            == rows.map_values(|r: KeyValueView| r.fields[j])
}

/// Adds a row's field values to the columns.
fn push_fields(fields: &mut Vec<Vec<Cell>>, row: &KeyValue)
    requires
        row.fields@.len() == old(fields)@.len(),
    ensures
        final(fields)@.len() == old(fields)@.len(),
        forall|j: int|
            0 <= j < final(fields)@.len() ==> record_batch::cells_view(
                (#[trigger] final(fields)@[j])@,
            ) == record_batch::cells_view(old(fields)@[j]@).push(row@.fields[j]),
{
    let ghost start = fields@;
    let mut j: usize = 0;
    while j < row.fields.len()
        invariant
            j <= row.fields@.len(),
            start == old(fields)@,
            row.fields@.len() == start.len(),
            fields@.len() == start.len(),
            forall|k: int|
                0 <= k < j ==> record_batch::cells_view((#[trigger] fields@[k])@)
                    == record_batch::cells_view(start[k]@).push(row@.fields[k]),
            forall|k: int| j <= k < start.len() ==> #[trigger] fields@[k] == start[k],
        decreases row.fields@.len() - j,
    {
        let cell = row.fields[j].clone();
        let ghost before = fields@[j as int]@;
        assert(row@.fields[j as int] == row.fields@[j as int]@);
        fields[j].push(cell);
        assert(record_batch::cells_view(fields@[j as int]@) =~= record_batch::cells_view(
            before,
        ).push(cell@));
        j = j + 1;
    }
}

/// Converts mutations to a sorted record batch, with the earliest and the latest
/// timestamp. There is none where the mutations write no rows.
pub fn mutations_to_record_batch(
    mutations: &Vec<Mutation>,
    metadata: &RegionMetadata,
    dedup: bool,
) -> (r: Result<Option<(RecordBatch, i64, i64)>, PartError>)
    requires
        all_rows(mutations@).len() <= u32::MAX,
        arrow_builders::total_len(
            all_rows(mutations@).map_values(|r: KeyValueView| key_bytes(r)),
        ) <= i32::MAX,
        forall|k: int|
            0 <= k < all_rows(mutations@).len() ==> row_fits(
                #[trigger] all_rows(mutations@)[k],
                *metadata,
            ),
    ensures
        r matches Ok(None) <==> all_rows(mutations@).len() == 0,
        r matches Err(PartError::EncodePrimaryKey(reason)) ==> exists|k: int| #[trigger]
            encode_fails_at(all_rows(mutations@), k) && all_rows(mutations@)[k].primary_key == Err::<
                Seq<u8>,
                Seq<char>,
            >(reason@),
        !(r matches Err(PartError::EncodePrimaryKey(_))) ==> forall|k: int|
            !#[trigger] encode_fails_at(all_rows(mutations@), k),
        r matches Ok(Some((batch, min, max))) ==> batch@.valid() && unsorted(
            all_rows(mutations@),
            *metadata,
            dedup,
        ).sorts_to(batch@, min, max),
        r matches Err(e) ==> e is EncodePrimaryKey || (e matches PartError::NewRecordBatch(error)
            && unsorted(all_rows(mutations@), *metadata, dedup).sort_fails(error)),
{
    let ghost all = all_rows(mutations@);
    let total_rows: usize = count_rows(mutations);
    if total_rows == 0 {
        return Ok(None);
    }
    let mut primary_keys: Vec<Vec<u8>> = Vec::new();
    let mut timestamps: Vec<Cell> = Vec::new();
    let mut sequences: Vec<u64> = Vec::new();
    let mut op_types: Vec<u8> = Vec::new();
    let mut fields: Vec<Vec<Cell>> = Vec::new();
    let mut f: usize = 0;
    while f < metadata.field_types.len()
        invariant
            f <= metadata.field_types@.len(),
            fields@.len() == f,
            forall|j: int| 0 <= j < f ==> (#[trigger] fields@[j])@.len() == 0,
        decreases metadata.field_types@.len() - f,
    {
        fields.push(Vec::new());
        f = f + 1;
    }
    let mut i: usize = 0;
    let ghost mut done = Seq::<KeyValueView>::empty();
    assert(mutations@.take(0) =~= Seq::<Mutation>::empty());
    assert(collected(done, primary_keys@, timestamps@, sequences@, op_types@, fields@)) by {
        assert(arrow_builders::byte_strings(primary_keys@) =~= done.map_values(
            |r: KeyValueView| key_bytes(r),
        ));
        assert(record_batch::cells_view(timestamps@) =~= done.map_values(
            |r: KeyValueView| CellView::Int64(r.timestamp),
        ));
        assert(sequences@ =~= done.map_values(|r: KeyValueView| r.sequence));
        assert(op_types@ =~= done.map_values(|r: KeyValueView| r.op_type));
        assert forall|j: int| 0 <= j < fields@.len() implies record_batch::cells_view(
            (#[trigger] fields@[j])@,
        ) == done.map_values(|r: KeyValueView| r.fields[j]) by {
            assert(record_batch::cells_view(fields@[j]@) =~= done.map_values(
                |r: KeyValueView| r.fields[j],
            ));
        }
    }
    while i < mutations.len()
        invariant
            i <= mutations@.len(),
            all == all_rows(mutations@),
            forall|k: int| 0 <= k < all.len() ==> row_fits(#[trigger] all[k], *metadata),
            done == all_rows(mutations@.take(i as int)),
            fields@.len() == metadata.field_types@.len(),
            forall|k: int| 0 <= k < done.len() ==> (#[trigger] done[k]).primary_key is Ok,
            collected(done, primary_keys@, timestamps@, sequences@, op_types@, fields@),
        decreases mutations@.len() - i,
    {
        let ghost before = done;
        proof {
            assert(mutations@.take(i + 1).drop_last() =~= mutations@.take(i as int));
            lemma_all_rows_prefix(mutations@, i + 1);
        }
        let ghost with_this = all_rows(mutations@.take(i + 1));
        match &mutations[i].rows {
            Some(rows) => {
                let mut k: usize = 0;
                assert(before + mutation_rows(mutations@[i as int]).take(0) =~= before);
                while k < rows.len()
                    invariant
                        k <= rows@.len(),
                        all == all_rows(mutations@),
                        with_this == before + mutation_rows(mutations@[i as int]),
                        mutation_rows(mutations@[i as int]) == rows@.map_values(
                            |r: KeyValue| r@,
                        ),
                        with_this.len() <= all.len(),
                        forall|m: int|
                            0 <= m < with_this.len() ==> #[trigger] with_this[m] == all[m],
                        forall|m: int| 0 <= m < all.len() ==> row_fits(#[trigger] all[m], *metadata),
                        done == before + mutation_rows(mutations@[i as int]).take(k as int),
                        fields@.len() == metadata.field_types@.len(),
                        forall|m: int| 0 <= m < done.len() ==> (#[trigger] done[m]).primary_key is Ok,
                        collected(done, primary_keys@, timestamps@, sequences@, op_types@, fields@),
                    decreases rows@.len() - k,
                {
                    let row = &rows[k];
                    let ghost at = (before.len() + k) as int;
                    assert(with_this[at] == row@);
                    assert(all[at] == row@);
                    assert(row_fits(all[at], *metadata));
                    assert forall|m: int| 0 <= m < at implies #[trigger] done[m] == all[m] by {
                        assert(with_this[m] == done[m]);
                    }
                    let key = match &row.primary_key {
                        Ok(key) => vstd::slice::slice_to_vec(key.as_slice()),
                        Err(reason) => {
                            assert forall|m: int| 0 <= m < at implies (
                            #[trigger] all[m]).primary_key is Ok by {
                                assert(done[m] == all[m]);
                            }
                            assert(encode_fails_at(all, at));
                            return Err(PartError::EncodePrimaryKey(reason.clone()));
                        },
                    };
                    let ghost keys0 = arrow_builders::byte_strings(primary_keys@);
                    let ghost times0 = record_batch::cells_view(timestamps@);
                    let ghost fields0 = fields@;
                    primary_keys.push(key);
                    timestamps.push(Cell::Int64(row.timestamp));
                    sequences.push(row.sequence);
                    op_types.push(row.op_type);
                    push_fields(&mut fields, row);
                    proof {
                        let next = done.push(row@);
                        assert(arrow_builders::byte_strings(primary_keys@) =~= keys0.push(key@));
                        assert(next.map_values(|r: KeyValueView| key_bytes(r)) =~= keys0.push(
                            key@,
                        ));
                        assert(record_batch::cells_view(timestamps@) =~= times0.push(
                            CellView::Int64(row.timestamp),
                        ));
                        assert(next.map_values(|r: KeyValueView| CellView::Int64(r.timestamp))
                            =~= times0.push(CellView::Int64(row.timestamp)));
                        assert(sequences@ =~= next.map_values(|r: KeyValueView| r.sequence));
                        assert(op_types@ =~= next.map_values(|r: KeyValueView| r.op_type));
                        assert forall|j: int| 0 <= j < fields@.len() implies record_batch::cells_view(
                            (#[trigger] fields@[j])@,
                        ) == next.map_values(|r: KeyValueView| r.fields[j]) by {
                            assert(record_batch::cells_view(fields0[j]@) == done.map_values(
                                |r: KeyValueView| r.fields[j],
                            ));
                            assert(next.map_values(|r: KeyValueView| r.fields[j])
                                =~= done.map_values(|r: KeyValueView| r.fields[j]).push(
                                row@.fields[j],
                            ));
                        }
                        done = next;
                        assert(done =~= before + mutation_rows(mutations@[i as int]).take(k + 1));
                    }
                    k = k + 1;
                }
                assert(mutation_rows(mutations@[i as int]).take(k as int) =~= mutation_rows(
                    mutations@[i as int],
                ));
            },
            None => {
                assert(before + Seq::<KeyValueView>::empty() =~= before);
            },
        }
        i = i + 1;
    }
    assert(mutations@.take(i as int) =~= mutations@);
    let mut columns: Vec<Column> = Vec::new();
    lists::reverse(&mut fields);
    let ghost reversed = fields@;
    let n: usize = metadata.field_types.len();
    let mut j: usize = 0;
    while j < n
        invariant
            j <= n,
            n == metadata.field_types@.len(),
            fields@.len() == n - j,
            reversed.len() == n,
            forall|k: int| 0 <= k < fields@.len() ==> #[trigger] fields@[k] == reversed[k],
            forall|k: int|
                0 <= k < n ==> record_batch::cells_view((#[trigger] reversed[k])@)
                    == all.map_values(|r: KeyValueView| r.fields[n - 1 - k]),
            columns@.len() == j,
            forall|k: int|
                0 <= k < j ==> (#[trigger] columns@[k])@ == unsorted(
                    all,
                    *metadata,
                    dedup,
                ).fields[k],
        decreases n - j,
    {
        if let Some(cells) = fields.pop() {
            assert(cells == reversed[n - 1 - j]);
            columns.push(Column::new(metadata.field_types[j].clone(), cells));
        }
        j = j + 1;
    }
    let sorter = ArraysSorter {
        encoded_primary_keys: primary_keys,
        timestamp_unit: metadata.time_unit,
        timestamp: Column::new(DataType::Timestamp(metadata.time_unit, None), timestamps),
        sequence: sequences,
        op_type: op_types,
        fields: columns,
        dedup,
        arrow_schema: metadata.sst_schema.clone(),
    };
    let ghost expected = unsorted(all, *metadata, dedup);
    assert(sorter@.fields =~= expected.fields);
    assert(sorter@ == expected);
    assert(sorter@.valid(metadata.time_unit)) by {
        assert forall|c: int| 0 <= c < expected.fields.len() implies (
        #[trigger] expected.fields[c]).cells.len() == all.len() && expected.fields[c].well_typed() by {
            assert forall|k: int| 0 <= k < all.len() implies (
            #[trigger] expected.fields[c].cells[k]).fits(expected.fields[c].data_type)
                && expected.fields[c].data_type !is DictionaryBinary by {
                assert(row_fits(all[k], *metadata));
                assert(all[k].fields[c].fits(metadata.field_types@[c]@));
            }
            assert(row_fits(all[0], *metadata));
            assert(all[0].fields[c].fits(metadata.field_types@[c]@));
        }
    }
    match sorter.sort() {
        Ok(sorted) => Ok(Some(sorted)),
        Err(e) => Err(PartError::NewRecordBatch(e)),
    }
}

/// Every row of every mutation is among all rows.
proof fn lemma_row_place(mutations: Seq<Mutation>, i: int, r: int) -> (at: int)
    requires
        0 <= i < mutations.len(),
        mutations[i].rows matches Some(rows) && 0 <= r < rows@.len(),
    ensures
        0 <= at < all_rows(mutations).len(),
        all_rows(mutations)[at] == mutations[i].rows->Some_0@[r]@,
    decreases mutations.len(),
{
    let rest = mutations.drop_last();
    if i == mutations.len() - 1 {
        all_rows(rest).len() + r
    } else {
        let at = lemma_row_place(rest, i, r);
        at
    }
}

/// Each of all rows is a row of a mutation.
proof fn lemma_place_row(mutations: Seq<Mutation>, at: int) -> (place: (int, int))
    requires
        0 <= at < all_rows(mutations).len(),
    ensures
        0 <= place.0 < mutations.len(),
        mutations[place.0].rows matches Some(rows) && 0 <= place.1 < rows@.len()
            && all_rows(mutations)[at] == rows@[place.1]@,
    decreases mutations.len(),
{
    let rest = mutations.drop_last();
    let before = all_rows(rest).len() as int;
    if at < before {
        lemma_place_row(rest, at)
    } else {
        (mutations.len() - 1, at - before)
    }
}

/// What a sorted batch of mutations has at `k` is what a row of one of them wrote: its fields,
/// its timestamp, its primary key, its sequence and its kind of operation. Gives the mutation
/// and the row.
pub proof fn law_stored_row_was_written(
    mutations: Seq<Mutation>,
    metadata: RegionMetadata,
    dedup: bool,
    batch: BatchView,
    min: i64,
    max: i64,
    k: int,
) -> (place: (int, int))
    requires
        unsorted(all_rows(mutations), metadata, dedup).valid(metadata.time_unit),
        forall|i: int| !#[trigger] encode_fails_at(all_rows(mutations), i),
        unsorted(all_rows(mutations), metadata, dedup).sorts_to(batch, min, max),
        0 <= k < batch.num_rows,
    ensures
        batch.columns.len() == metadata.field_types@.len() + 4,
        0 <= place.0 < mutations.len(),
        mutations[place.0].rows matches Some(rows) && 0 <= place.1 < rows@.len() && {
            let n = metadata.field_types@.len() as int;
            let row = rows@[place.1];
            &&& batch.columns[n].cells[k] == CellView::Int64(row.timestamp)
            &&& batch.columns[n + 2].cells[k] == CellView::UInt64(row.sequence)
            &&& batch.columns[n + 3].cells[k] == CellView::UInt8(row.op_type)
            &&& row.primary_key matches Ok(key) && batch.columns[n + 1].cells[k] matches
                CellView::UInt32(d) && batch.columns[n + 1].dictionary[d as int] == key@
            &&& forall|f: int|
                0 <= f < n && f < row.fields@.len() ==> (#[trigger] batch.columns[f]).cells[k]
                    == row.fields@[f]@
            &&& min <= row.timestamp <= max
        },
{
    let all = all_rows(mutations);
    let sorter = unsorted(all, metadata, dedup);
    let stored = law_sorted_batch_holds_rows(sorter, metadata.time_unit, batch, min, max);
    let at = stored[k];
    let place = lemma_place_row(mutations, at);
    let n = metadata.field_types@.len() as int;
    lemma_all_encoded(all);
    assert(batch.columns[n].cells[k] == sorter.timestamp.cells[at]);
    assert(batch.columns[n + 1].cells[k] is UInt32);
    assert(batch.columns[n + 2].cells[k] is UInt64);
    assert(batch.columns[n + 3].cells[k] is UInt8);
    assert(all[at].primary_key is Ok);
    let row = mutations[place.0].rows->Some_0@[place.1];
    assert forall|f: int| 0 <= f < n && f < row.fields@.len() implies (
    #[trigger] batch.columns[f]).cells[k] == row.fields@[f]@ by {
        assert(batch.columns[f].cells[k] == sorter.fields[f].cells[at]);
        assert(sorter.fields[f].cells[at] == row@.fields[f]);
    }
    place
}

/// Where no first row fails, no row does.
proof fn lemma_all_encoded(rows: Seq<KeyValueView>)
    requires
        forall|i: int| !#[trigger] encode_fails_at(rows, i),
    ensures
        forall|i: int| 0 <= i < rows.len() ==> (#[trigger] rows[i]).primary_key is Ok,
{
    if exists|i: int| 0 <= i < rows.len() && (#[trigger] rows[i]).primary_key is Err {
        let i = choose|i: int| 0 <= i < rows.len() && (#[trigger] rows[i]).primary_key is Err;
        lemma_first_failing(rows, i);
    }
}

proof fn lemma_first_failing(rows: Seq<KeyValueView>, i: int)
    requires
        0 <= i < rows.len(),
        rows[i].primary_key is Err,
    ensures
        exists|k: int| #[trigger] encode_fails_at(rows, k),
    decreases i,
{
    if exists|j: int| 0 <= j < i && (#[trigger] rows[j]).primary_key is Err {
        let j = choose|j: int| 0 <= j < i && (#[trigger] rows[j]).primary_key is Err;
        lemma_first_failing(rows, j);
    } else {
        assert(encode_fails_at(rows, i));
    }
}

/// Whatever a mutation wrote is stored, or a row with its primary key and timestamp that was
/// written no earlier; where duplicates are not looked for, it is stored itself. Gives the place
/// in the batch.
pub proof fn law_written_row_is_stored(
    mutations: Seq<Mutation>,
    metadata: RegionMetadata,
    dedup: bool,
    batch: BatchView,
    min: i64,
    max: i64,
    i: int,
    r: int,
) -> (k: int)
    requires
        unsorted(all_rows(mutations), metadata, dedup).valid(metadata.time_unit),
        forall|i: int| !#[trigger] encode_fails_at(all_rows(mutations), i),
        unsorted(all_rows(mutations), metadata, dedup).sorts_to(batch, min, max),
        0 <= i < mutations.len(),
        mutations[i].rows matches Some(rows) && 0 <= r < rows@.len(),
    ensures
        0 <= k < batch.num_rows,
        batch.columns.len() == metadata.field_types@.len() + 4,
        ({
            let n = metadata.field_types@.len() as int;
            let row = mutations[i].rows->Some_0@[r];
            &&& batch.columns[n].cells[k] == CellView::Int64(row.timestamp)
            &&& row.primary_key matches Ok(key) && batch.columns[n + 1].cells[k] matches
                CellView::UInt32(d) && batch.columns[n + 1].dictionary[d as int] == key@
            &&& batch.columns[n + 2].cells[k] matches CellView::UInt64(s) && s >= row.sequence && (
            !dedup ==> s == row.sequence)
            &&& !dedup ==> batch.columns[n + 3].cells[k] == CellView::UInt8(row.op_type)
        }),
{
    let all = all_rows(mutations);
    let sorter = unsorted(all, metadata, dedup);
    let at = lemma_row_place(mutations, i, r);
    let n = metadata.field_types@.len() as int;
    lemma_all_encoded(all);
    assert(all[at].primary_key is Ok);
    assert(sorter.primary_keys[at] == key_bytes(all[at]));
    assert(sorter.timestamp.cells[at] == CellView::Int64(all[at].timestamp));
    assert(sorter.sequence[at] == all[at].sequence);
    if dedup {
        law_sort_leaves_latest(sorter, metadata.time_unit, batch, min, max, at)
    } else {
        let stored = law_sorted_batch_holds_rows(sorter, metadata.time_unit, batch, min, max);
        assert(stored.contains(at));
        let k = choose|k: int| 0 <= k < stored.len() && stored[k] == at;
        assert(batch.columns[n].cells[k] == sorter.timestamp.cells[at]);
        assert(batch.columns[n + 1].cells[k] is UInt32);
        assert(batch.columns[n + 2].cells[k] is UInt64);
        assert(batch.columns[n + 3].cells[k] == CellView::UInt8(sorter.op_type[at]));
        k
    }
}

/// Encodes mutations to parts of a region.
#[derive(Debug)]
pub struct BulkPartEncoder {
    pub metadata: RegionMetadata,
    /// Whether only the last written of the rows with one primary key and timestamp is
    /// kept.
    pub dedup: bool,
    /// The number of rows of a row group, where it is not left to the writer.
    pub row_group_size: Option<usize>,
}

/// An encoded part of a memtable.
#[derive(Debug)]
pub struct BulkPart {
    pub data: Vec<u8>,
    pub metadata: BulkPartMeta,
}

/// What is known of a part.
#[derive(Debug)]
pub struct BulkPartMeta {
    /// Total rows in part.
    pub num_rows: usize,
    /// Max timestamp in part.
    pub max_timestamp: i64,
    /// Min timestamp in part.
    pub min_timestamp: i64,
    /// The number of row groups of the part's file.
    pub num_row_groups: usize,
    /// The identifiers of the region's columns.
    pub column_ids: Vec<u32>,
}

/// What is to be read of a part.
#[derive(Debug)]
pub struct ReadPlan {
    pub column_ids: Vec<u32>,
    pub row_groups: Vec<usize>,
}

/// The number of row groups of a Parquet file, where it can be read.
pub uninterp spec fn parquet_row_groups(file: Seq<u8>) -> Option<nat>;

/// The bytes are a Parquet file that was written from arrays.
pub open spec fn is_written(file: Seq<u8>) -> bool {
    exists|
        little_endian: bool,
        arrays: Seq<ArrowColumn>,
        row_group_size: Option<usize>,
        compression: FileCompression,
    |
        Some(file) == #[trigger] arrow_batch::parquet_file(
            little_endian,
            arrays,
            row_group_size,
            compression,
        )
}

/// `ArrowReaderMetadata::load` of parquet, with the page index and without the arrow
/// schema: whether the metadata of a file in memory can be read, and the number of row
/// groups that it tells of. What an error says is left open. As it panics on some schemas
/// that no arrays have, the file must be one that was written from arrays.
#[verifier::external_body]
fn load_metadata(file: &Vec<u8>) -> (r: Result<usize, String>)
    requires
        is_written(file@),
    ensures
        match r {
            Ok(n) => parquet_row_groups(file@) == Some(n as nat),
            Err(_) => parquet_row_groups(file@) is None,
        },
{
    let options = ArrowReaderOptions::new()
        .with_page_index_policy(PageIndexPolicy::Required)
        .with_skip_arrow_metadata(true);
    ArrowReaderMetadata::load(&Bytes::from(file.clone()), options)
        .map(|m| m.metadata().num_row_groups())
        .map_err(|e| e.to_string())
}

impl BulkPartEncoder {
    /// The part is the Parquet file of the batch that the rows are sorted into.
    pub open spec fn encodes(
        self,
        rows: Seq<KeyValueView>,
        batch: BatchView,
        part: BulkPart,
    ) -> bool {
        &&& part_holds(part, batch, self.row_group_size)
        &&& unsorted(rows, self.metadata, self.dedup).sorts_to(
            batch,
            part.metadata.min_timestamp,
            part.metadata.max_timestamp,
        )
        &&& part.metadata.column_ids@ == self.metadata.column_ids@
    }

    /// The part is the Parquet file of a batch that the rows are sorted into.
    pub open spec fn encodes_rows(self, rows: Seq<KeyValueView>, part: BulkPart) -> bool {
        exists|batch: BatchView| self.encodes(rows, batch, part)
    }

    /// The file, if any, that the batch of the rows, sorted, is written as on a machine of the
    /// given byte order.
    pub open spec fn writes_by(
        self,
        rows: Seq<KeyValueView>,
        batch: BatchView,
        time_range: (i64, i64),
        little_endian: bool,
        file: Option<Seq<u8>>,
    ) -> bool {
        &&& unsorted(rows, self.metadata, self.dedup).sorts_to(batch, time_range.0, time_range.1)
        &&& file == arrow_batch::parquet_file(
            little_endian,
            arrow_batch::batch_arrays(batch),
            self.row_group_size,
            FileCompression::Uncompressed,
        )
    }

    /// The file, if any, that the batch of the rows, sorted, is written as.
    pub open spec fn writes(self, rows: Seq<KeyValueView>, file: Option<Seq<u8>>) -> bool {
        exists|batch: BatchView, time_range: (i64, i64), little_endian: bool|
            self.writes_by(rows, batch, time_range, little_endian, file)
    }

    /// The file of the rows cannot be read.
    pub open spec fn writes_unreadable(self, rows: Seq<KeyValueView>) -> bool {
        exists|file: Seq<u8>| #[trigger]
            self.writes(rows, Some(file)) && parquet_row_groups(file) is None
    }

    /// An encoder for a region.
    pub fn new(metadata: RegionMetadata, dedup: bool, row_group_size: Option<usize>) -> (r: Self)
        ensures
            r == (BulkPartEncoder { metadata, dedup, row_group_size }),
    {
        BulkPartEncoder { metadata, dedup, row_group_size }
    }

    /// The part of the rows of mutations: the Parquet file of the sorted rows, with what is
    /// known of it. There is none where the mutations write no rows.
    pub fn encode_mutations(&self, mutations: &Vec<Mutation>) -> (r: Result<
        Option<BulkPart>,
        PartError,
    >)
        requires
            self.row_group_size != Some(0usize),
            all_rows(mutations@).len() <= u32::MAX,
            arrow_builders::total_len(
                all_rows(mutations@).map_values(|r: KeyValueView| key_bytes(r)),
            ) <= i32::MAX,
            forall|k: int|
                0 <= k < all_rows(mutations@).len() ==> row_fits(
                    #[trigger] all_rows(mutations@)[k],
                    self.metadata,
                ),
            forall|j: int|
                0 <= j < self.metadata.field_types@.len() ==> arrow_batch::convertible(
                    #[trigger] unsorted(
                        all_rows(mutations@),
                        self.metadata,
                        self.dedup,
                    ).fields[j],
                ),
        ensures
            r matches Ok(None) <==> all_rows(mutations@).len() == 0,
            r matches Err(PartError::EncodePrimaryKey(reason)) ==> exists|k: int| #[trigger]
                encode_fails_at(all_rows(mutations@), k) && all_rows(mutations@)[k].primary_key
                    == Err::<Seq<u8>, Seq<char>>(reason@),
            !(r matches Err(PartError::EncodePrimaryKey(_))) ==> forall|k: int|
                !#[trigger] encode_fails_at(all_rows(mutations@), k),
            r matches Err(PartError::NewRecordBatch(e)) ==> unsorted(
                all_rows(mutations@),
                self.metadata,
                self.dedup,
            ).sort_fails(e),
            r matches Err(PartError::EncodeMemtable) ==> self.writes(all_rows(mutations@), None),
            r matches Err(PartError::ReadDataPart(_)) ==> self.writes_unreadable(
                all_rows(mutations@),
            ),
            r matches Ok(Some(part)) ==> self.encodes_rows(all_rows(mutations@), part),
    {
        let (batch, min_timestamp, max_timestamp) = match mutations_to_record_batch(
            mutations,
            &self.metadata,
            self.dedup,
        ) {
            Ok(Some(sorted)) => sorted,
            Ok(None) => {
                return Ok(None);
            },
            Err(e) => {
                return Err(e);
            },
        };
        proof {
            let sorter = unsorted(all_rows(mutations@), self.metadata, self.dedup);
            let order = choose|order: Seq<int>| #[trigger]
                row_order::is_sorted_order(sorter.keys(), order) && sorter.sorts_by(
                    order,
                    batch@,
                    min_timestamp,
                    max_timestamp,
                );
            lemma_columns_convertible(sorter, order);
        }
        let arrays = arrow_batch::to_arrow(&batch);
        let file: Vec<u8> = match arrow_batch::write_parquet(
            &arrays,
            self.row_group_size,
            FileCompression::Uncompressed,
        ) {
            Some(file) => {
                proof {
                    let little_endian = choose|little_endian: bool|
                        Some(file@) == #[trigger] arrow_batch::parquet_file(
                            little_endian,
                            arrow_batch::batch_arrays(batch@),
                            self.row_group_size,
                            FileCompression::Uncompressed,
                        );
                    assert(self.writes_by(
                        all_rows(mutations@),
                        batch@,
                        (min_timestamp, max_timestamp),
                        little_endian,
                        Some(file@),
                    ));
                }
                file
            },
            None => {
                proof {
                    let little_endian = choose|little_endian: bool|
                        None::<Seq<u8>> == #[trigger] arrow_batch::parquet_file(
                            little_endian,
                            arrow_batch::batch_arrays(batch@),
                            self.row_group_size,
                            FileCompression::Uncompressed,
                        );
                    assert(self.writes_by(
                        all_rows(mutations@),
                        batch@,
                        (min_timestamp, max_timestamp),
                        little_endian,
                        None,
                    ));
                }
                return Err(PartError::EncodeMemtable);
            },
        };
        assert(self.writes(all_rows(mutations@), Some(file@)));
        match load_metadata(&file) {
            Ok(num_row_groups) => {
                let part = BulkPart {
                    data: file,
                    metadata: BulkPartMeta {
                        num_rows: batch.num_rows,
                        max_timestamp,
                        min_timestamp,
                        num_row_groups,
                        column_ids: copy_ids(&self.metadata.column_ids),
                    },
                };
                assert(self.encodes(all_rows(mutations@), batch@, part));
                assert(self.encodes_rows(all_rows(mutations@), part));
                Ok(Some(part))
            },
            Err(e) => Err(PartError::ReadDataPart(e)),
        }
    }
}

/// The text of a cell as bytes.
spec fn text_of(cell: CellView) -> Seq<u8> {
    match cell {
        CellView::Utf8(s) => vstd::utf8::encode_utf8(s),
        _ => Seq::empty(),
    }
}

/// The bytes of a cell.
spec fn bytes_of(cell: CellView) -> Seq<u8> {
    match cell {
        CellView::Binary(b) => b,
        _ => Seq::empty(),
    }
}

proof fn lemma_cell_bytes(cells: Seq<CellView>)
    ensures
        table_builders::text_bytes(cells) == arrow_builders::total_len(
            cells.map_values(|c: CellView| text_of(c)),
        ),
        arrow_batch::binary_bytes(cells) == arrow_builders::total_len(
            cells.map_values(|c: CellView| bytes_of(c)),
        ),
    decreases cells.len(),
{
    if cells.len() > 0 {
        lemma_cell_bytes(cells.drop_last());
        assert(cells.map_values(|c: CellView| text_of(c)).drop_last()
            =~= cells.drop_last().map_values(|c: CellView| text_of(c)));
        assert(cells.map_values(|c: CellView| bytes_of(c)).drop_last()
            =~= cells.drop_last().map_values(|c: CellView| bytes_of(c)));
    }
}

/// Rows taken from a column that arrow can hold, each at most once, are a column that arrow
/// can hold.
proof fn lemma_take_convertible(column: ColumnView, rows: Seq<int>)
    requires
        arrow_batch::convertible(column),
        rows.no_duplicates(),
        row_order::in_range(rows, column.cells.len()),
    ensures
        arrow_batch::convertible(column.take(rows)),
{
    let taken = column.take(rows);
    let texts = column.cells.map_values(|c: CellView| text_of(c));
    let bytes = column.cells.map_values(|c: CellView| bytes_of(c));
    lemma_cell_bytes(column.cells);
    lemma_cell_bytes(taken.cells);
    arrow_builders::lemma_total_len_picked(texts, rows);
    arrow_builders::lemma_total_len_picked(bytes, rows);
    assert(taken.cells.map_values(|c: CellView| text_of(c)) =~= rows.map_values(
        |i: int| texts[i],
    ));
    assert(taken.cells.map_values(|c: CellView| bytes_of(c)) =~= rows.map_values(
        |i: int| bytes[i],
    ));
}

/// A column without text, byte strings and dictionary is one that arrow can hold.
proof fn lemma_plain_convertible(column: ColumnView)
    requires
        column.data_type !is Other,
        column.dictionary.len() == 0,
        forall|i: int|
            0 <= i < column.cells.len() ==> !(#[trigger] column.cells[i] is Utf8)
                && !(column.cells[i] is Binary),
    ensures
        arrow_batch::convertible(column),
{
    lemma_plain_cells(column.cells);
}

proof fn lemma_plain_cells(cells: Seq<CellView>)
    requires
        forall|i: int|
            0 <= i < cells.len() ==> !(#[trigger] cells[i] is Utf8) && !(cells[i] is Binary),
    ensures
        table_builders::text_bytes(cells) == 0,
        arrow_batch::binary_bytes(cells) == 0,
    decreases cells.len(),
{
    if cells.len() > 0 {
        let rest = cells.drop_last();
        assert(!(cells[cells.len() - 1] is Utf8));
        assert forall|i: int| 0 <= i < rest.len() implies !(#[trigger] rest[i] is Utf8) && !(
        rest[i] is Binary) by {
            assert(rest[i] == cells[i]);
        }
        lemma_plain_cells(rest);
    }
}

/// arrow can hold the columns of sorted rows where it can hold those of the rows.
proof fn lemma_columns_convertible(sorter: SorterView, order: Seq<int>)
    requires
        row_order::is_sorted_order(sorter.keys(), order),
        arrow_builders::total_len(sorter.primary_keys) <= i32::MAX,
        sorter.timestamp.data_type !is Other,
        sorter.timestamp.dictionary.len() == 0,
        sorter.timestamp.cells.len() == sorter.primary_keys.len(),
        forall|i: int|
            0 <= i < sorter.timestamp.cells.len() ==> #[trigger] sorter.timestamp.cells[i] is Int64,
        forall|j: int|
            0 <= j < sorter.fields.len() ==> arrow_batch::convertible(#[trigger] sorter.fields[j])
                && sorter.fields[j].cells.len() == sorter.primary_keys.len(),
    ensures
        forall|i: int|
            0 <= i < sorter.columns(sorter.kept(order)).len() ==> arrow_batch::convertible(
                #[trigger] sorter.columns(sorter.kept(order))[i],
            ),
{
    row_order::law_dedup_keeps_latest(sorter.keys(), order);
    lemma_kept_distinct(sorter.keys(), order);
    let rows = sorter.kept(order);
    let columns = sorter.columns(rows);
    let picked = rows.map_values(|i: int| sorter.primary_keys[i]);
    let m = sorter.fields.len() as int;
    arrow_builders::lemma_total_len_picked(sorter.primary_keys, rows);
    lemma_dictionary_lens(picked);
    assert forall|i: int| 0 <= i < columns.len() implies arrow_batch::convertible(
        #[trigger] columns[i],
    ) by {
        if i < m {
            lemma_take_convertible(sorter.fields[i], rows);
        } else if i == m {
            assert(columns[i] == sorter.timestamp.take(rows));
            assert forall|k: int| 0 <= k < columns[i].cells.len() implies !(
            #[trigger] columns[i].cells[k] is Utf8) && !(columns[i].cells[k] is Binary) by {
                assert(sorter.timestamp.cells[rows[k]] is Int64);
            }
            lemma_plain_convertible(columns[i]);
        } else if i == m + 1 {
            assert(columns[i] == dictionary_column(picked));
            lemma_plain_cells(columns[i].cells);
        } else {
            lemma_plain_convertible(columns[i]);
        }
    }
}

/// The part is the Parquet file of a batch, and tells the number of its rows and of its row
/// groups.
pub open spec fn part_holds(
    part: BulkPart,
    batch: BatchView,
    row_group_size: Option<usize>,
) -> bool {
    &&& part.metadata.num_rows == batch.num_rows
    &&& parquet_row_groups(part.data@) == Some(part.metadata.num_row_groups as nat)
    &&& exists|little_endian: bool|
        Some(part.data@) == #[trigger] arrow_batch::parquet_file(
            little_endian,
            arrow_batch::batch_arrays(batch),
            row_group_size,
            FileCompression::Uncompressed,
        )
}

/// A copy of a list of column identifiers.
fn copy_ids(ids: &Vec<u32>) -> (r: Vec<u32>)
    ensures
        r@ == ids@,
{
    vstd::slice::slice_to_vec(ids.as_slice())
}

/// The row groups of `n` that are selected: those whose entry is true, where there is
/// one.
pub open spec fn selected_groups(selected: Seq<bool>, n: nat) -> Seq<int> {
    record_batch::selected(
        selected.take(
            if selected.len() < n {
                selected.len() as int
            } else {
                n as int
            },
        ),
    )
}

impl BulkPart {
    /// A part of an encoded file.
    pub fn new(data: Vec<u8>, metadata: BulkPartMeta) -> (r: Self)
        ensures
            r == (BulkPart { data, metadata }),
    {
        BulkPart { data, metadata }
    }

    /// What is known of the part.
    pub fn metadata(&self) -> (r: &BulkPartMeta)
        ensures
            *r == self.metadata,
    {
        &self.metadata
    }

    /// The columns to read: those asked for, or all.
    pub fn build_read_format(&self, projection: Option<&Vec<u32>>) -> (r: Vec<u32>)
        ensures
            r@ == (match projection {
                Some(ids) => ids@,
                None => self.metadata.column_ids@,
            }),
    {
        match projection {
            Some(ids) => copy_ids(ids),
            None => copy_ids(&self.metadata.column_ids),
        }
    }

    /// The row groups that statistics did not rule out.
    pub fn row_groups_to_read(&self, selected: &Vec<bool>) -> (r: Vec<usize>)
        ensures
            row_order::places(r@) == selected_groups(
                selected@,
                self.metadata.num_row_groups as nat,
            ),
    {
        let n: usize = if selected.len() < self.metadata.num_row_groups {
            selected.len()
        } else {
            self.metadata.num_row_groups
        };
        let mut considered: Vec<bool> = Vec::new();
        let mut i: usize = 0;
        while i < n
            invariant
                i <= n <= selected@.len(),
                considered@ == selected@.take(i as int),
            decreases n - i,
        {
            considered.push(selected[i]);
            i = i + 1;
            assert(considered@ =~= selected@.take(i as int));
        }
        record_batch::selected_rows(&considered)
    }

    /// What is to be read of the part: the columns asked for, or all, of the row groups
    /// that statistics did not rule out, or of all where nothing is ruled out.
    pub fn read(&self, projection: Option<&Vec<u32>>, pruned: Option<&Vec<bool>>) -> (r: ReadPlan)
        ensures
            r.column_ids@ == (match projection {
                Some(ids) => ids@,
                None => self.metadata.column_ids@,
            }),
            row_order::places(r.row_groups@) == (match pruned {
                Some(selected) => selected_groups(
                    selected@,
                    self.metadata.num_row_groups as nat,
                ),
                None => Seq::new(self.metadata.num_row_groups as nat, |i: int| i),
            }),
    {
        let column_ids = self.build_read_format(projection);
        let row_groups = match pruned {
            Some(selected) => self.row_groups_to_read(selected),
            None => {
                let mut all: Vec<usize> = Vec::new();
                let mut i: usize = 0;
                while i < self.metadata.num_row_groups
                    invariant
                        i <= self.metadata.num_row_groups,
                        all@.len() == i,
                        forall|k: int| 0 <= k < i ==> #[trigger] all@[k] == k,
                    decreases self.metadata.num_row_groups - i,
                {
                    all.push(i);
                    i = i + 1;
                }
                assert(row_order::places(all@) =~= Seq::new(
                    self.metadata.num_row_groups as nat,
                    |i: int| i,
                ));
                all
            },
        };
        ReadPlan { column_ids, row_groups }
    }
}

/// The rows of mutations are those of some of them and then those of the others; and the rows of
/// one mutation are the rows that it has, each once, as they are. So no row is counted twice,
/// and none is left out.
pub proof fn law_rows_of_mutations(some: Seq<Mutation>, others: Seq<Mutation>, one: Mutation)
    ensures
        all_rows(some + others) == all_rows(some) + all_rows(others),
        one.rows is None ==> all_rows(seq![one]).len() == 0,
        one.rows matches Some(rows) ==> all_rows(seq![one]).len() == rows@.len() && forall|r: int|
            0 <= r < rows@.len() ==> {
                let row = #[trigger] all_rows(seq![one])[r];
                &&& row.timestamp == rows@[r].timestamp
                &&& row.sequence == rows@[r].sequence
                &&& row.op_type == rows@[r].op_type
                &&& row.fields.len() == rows@[r].fields@.len()
                &&& forall|f: int|
                    0 <= f < rows@[r].fields@.len() ==> #[trigger] row.fields[f]
                        == rows@[r].fields@[f]@
                &&& match rows@[r].primary_key {
                    Ok(key) => row.primary_key == Ok::<Seq<u8>, Seq<char>>(key@),
                    Err(reason) => row.primary_key == Err::<Seq<u8>, Seq<char>>(reason@),
                }
            },
    decreases others.len(),
{
    reveal_with_fuel(all_rows, 2);
    assert(seq![one].drop_last() =~= Seq::<Mutation>::empty());
    assert(all_rows(seq![one]) =~= mutation_rows(one));
    if others.len() == 0 {
        assert(some + others =~= some);
        assert(all_rows(some) + all_rows(others) =~= all_rows(some));
    } else {
        law_rows_of_mutations(some, others.drop_last(), one);
        assert((some + others).drop_last() =~= some + others.drop_last());
        assert((some + others).last() == others.last());
        assert(all_rows(some + others) =~= all_rows(some) + all_rows(others));
    }
}

/// Mutations are refused for a primary key that could not be encoded exactly where some row has
/// such a key, and the first such row is the one that is told of.
pub proof fn law_first_broken_key_is_told(rows: Seq<KeyValueView>, i: int, j: int)
    ensures
        (exists|k: int| #[trigger] encode_fails_at(rows, k)) <==> exists|k: int|
            0 <= k < rows.len() && (#[trigger] rows[k]).primary_key is Err,
        encode_fails_at(rows, i) ==> 0 <= i < rows.len() && rows[i].primary_key is Err,
        encode_fails_at(rows, i) && 0 <= j < i ==> rows[j].primary_key is Ok,
{
    if exists|k: int| 0 <= k < rows.len() && (#[trigger] rows[k]).primary_key is Err {
        let k = choose|k: int| 0 <= k < rows.len() && (#[trigger] rows[k]).primary_key is Err;
        lemma_first_failing(rows, k);
    }
    if exists|k: int| #[trigger] encode_fails_at(rows, k) {
        let k = choose|k: int| #[trigger] encode_fails_at(rows, k);
        assert(rows[k].primary_key is Err);
    }
}

/// What a part tells of itself is so: it has as many rows as its batch, and all that were written
/// where duplicates are not looked for; its earliest and its latest time are times of rows, and
/// no row is outside them; it has the columns of the region; and its bytes are the Parquet file
/// of its batch, with row groups of the size asked for.
pub proof fn law_part_tells_of_its_rows(
    encoder: BulkPartEncoder,
    mutations: Seq<Mutation>,
    batch: BatchView,
    part: BulkPart,
) -> (r: (int, int))
    requires
        unsorted(all_rows(mutations), encoder.metadata, encoder.dedup).valid(
            encoder.metadata.time_unit,
        ),
        encoder.encodes(all_rows(mutations), batch, part),
    ensures
        part.metadata.num_rows == batch.num_rows,
        part.metadata.num_rows <= all_rows(mutations).len(),
        !encoder.dedup ==> part.metadata.num_rows == all_rows(mutations).len(),
        0 <= r.0 < all_rows(mutations).len(),
        0 <= r.1 < all_rows(mutations).len(),
        all_rows(mutations)[r.0].timestamp == part.metadata.min_timestamp,
        all_rows(mutations)[r.1].timestamp == part.metadata.max_timestamp,
        forall|i: int|
            0 <= i < all_rows(mutations).len() ==> part.metadata.min_timestamp <= (
            #[trigger] all_rows(mutations)[i]).timestamp <= part.metadata.max_timestamp,
        part.metadata.column_ids@ == encoder.metadata.column_ids@,
        parquet_row_groups(part.data@) == Some(part.metadata.num_row_groups as nat),
        exists|little_endian: bool|
            Some(part.data@) == #[trigger] arrow_batch::parquet_file(
                little_endian,
                arrow_batch::batch_arrays(batch),
                encoder.row_group_size,
                FileCompression::Uncompressed,
            ),
{
    let all = all_rows(mutations);
    let sorter = unsorted(all, encoder.metadata, encoder.dedup);
    let min = part.metadata.min_timestamp;
    let max = part.metadata.max_timestamp;
    let stored = law_sorted_batch_holds_rows(sorter, encoder.metadata.time_unit, batch, min, max);
    assert forall|i: int| 0 <= i < all.len() implies min <= (#[trigger] all[i]).timestamp
        <= max by {
        assert(sorter.timestamp.cells[i] is Int64);
    }
    lemma_picks_len(stored, all.len());
    if !encoder.dedup {
        let places = Seq::new(all.len(), |i: int| i);
        assert forall|k: int| 0 <= k < places.len() implies stored.contains(
            #[trigger] places[k],
        ) by {}
        lemma_all_picked(stored, all.len());
    }
    let first = choose|i: int|
        0 <= i < sorter.timestamp.cells.len() && #[trigger] sorter.timestamp.cells[i]
            == CellView::Int64(min);
    let last = choose|i: int|
        0 <= i < sorter.timestamp.cells.len() && #[trigger] sorter.timestamp.cells[i]
            == CellView::Int64(max);
    assert(all[first].timestamp == min);
    assert(all[last].timestamp == max);
    (first, last)
}

/// Places below a number, none twice, are no more than the number.
proof fn lemma_picks_len(picks: Seq<int>, n: nat)
    requires
        picks.no_duplicates(),
        forall|k: int| 0 <= k < picks.len() ==> 0 <= #[trigger] picks[k] < n,
    ensures
        picks.len() <= n,
{
    let below = Set::new(|i: int| 0 <= i < n);
    vstd::set_lib::lemma_int_range(0, n as int);
    assert(below =~= vstd::set_lib::set_int_range(0, n as int));
    picks.unique_seq_to_set();
    assert forall|i: int| #[trigger] picks.to_set().contains(i) implies below.contains(i) by {
        let k = choose|k: int| 0 <= k < picks.len() && picks[k] == i;
        assert(0 <= picks[k] < n);
    }
    vstd::set_lib::lemma_len_subset(picks.to_set(), below);
}

/// Places among which every place below a number is are no fewer than the number.
proof fn lemma_all_picked(picks: Seq<int>, n: nat)
    requires
        picks.no_duplicates(),
        forall|i: int| 0 <= i < n ==> #[trigger] picks.contains(i),
    ensures
        picks.len() >= n,
{
    let below = vstd::set_lib::set_int_range(0, n as int);
    vstd::set_lib::lemma_int_range(0, n as int);
    picks.unique_seq_to_set();
    assert forall|i: int| #[trigger] below.contains(i) implies picks.to_set().contains(i) by {
        assert(picks.contains(i));
    }
    vstd::set_lib::lemma_len_subset(below, picks.to_set());
}

/// The row groups to read are those of the part that are not ruled out, in order and each once: a
/// group that is not ruled out is read, and one that is, or of which nothing is said, is not.
pub proof fn law_selected_groups(selected: Seq<bool>, n: nat, g: int)
    ensures
        selected_groups(selected, n).contains(g) <==> 0 <= g < n && g < selected.len()
            && selected[g],
        forall|j: int, k: int|
            0 <= j < k < selected_groups(selected, n).len() ==> #[trigger] selected_groups(
                selected,
                n,
            )[j] < #[trigger] selected_groups(selected, n)[k],
{
    let end = if selected.len() < n {
        selected.len() as int
    } else {
        n as int
    };
    let mask = selected.take(end);
    record_batch::law_mask_selects(mask);
    let groups = selected_groups(selected, n);
    if groups.contains(g) {
        let k = choose|k: int| 0 <= k < groups.len() && groups[k] == g;
        assert(0 <= groups[k] < mask.len());
        assert(mask[g] == selected[g]);
    }
    if 0 <= g < end {
        assert(mask[g] == selected[g]);
    }
}

/// What is said of rows that are to be sorted is what they are, column by column.
pub proof fn law_sorter_as_it_is(sorter: ArraysSorter, i: int)
    ensures
        sorter@.primary_keys.len() == sorter.encoded_primary_keys@.len(),
        0 <= i < sorter.encoded_primary_keys@.len() ==> sorter@.primary_keys[i]
            == sorter.encoded_primary_keys@[i]@,
        sorter@.timestamp == sorter.timestamp@,
        sorter@.sequence == sorter.sequence@,
        sorter@.op_type == sorter.op_type@,
        sorter@.fields.len() == sorter.fields@.len(),
        0 <= i < sorter.fields@.len() ==> sorter@.fields[i] == sorter.fields@[i]@,
        sorter@.dedup == sorter.dedup,
        sorter@.arrow_schema == sorter.arrow_schema@,
{
}

/// Rows that fit a region make up columns that can be sorted.
proof fn lemma_unsorted_valid(rows: Seq<KeyValueView>, metadata: RegionMetadata, dedup: bool)
    requires
        0 < rows.len() <= u32::MAX,
        arrow_builders::total_len(rows.map_values(|r: KeyValueView| key_bytes(r))) <= i32::MAX,
        forall|k: int| 0 <= k < rows.len() ==> row_fits(#[trigger] rows[k], metadata),
    ensures
        unsorted(rows, metadata, dedup).valid(metadata.time_unit),
{
    let expected = unsorted(rows, metadata, dedup);
    assert forall|c: int| 0 <= c < expected.fields.len() implies (
    #[trigger] expected.fields[c]).cells.len() == rows.len()
        && expected.fields[c].well_typed() by {
        assert forall|k: int| 0 <= k < rows.len() implies (
        #[trigger] expected.fields[c].cells[k]).fits(expected.fields[c].data_type)
            && expected.fields[c].data_type !is DictionaryBinary by {
            assert(row_fits(rows[k], metadata));
            assert(rows[k].fields[c].fits(metadata.field_types@[c]@));
        }
        assert(row_fits(rows[0], metadata));
        assert(rows[0].fields[c].fits(metadata.field_types@[c]@));
    }
}

/// What [`mutations_to_record_batch`] gives holds in each row what a row of a mutation wrote: its
/// fields, its timestamp, its primary key, its sequence and its own kind of operation, so a
/// delete stays a delete and a put a put; and the times that it gives are no later and no
/// earlier than those of the rows. Gives the mutation and the row.
pub proof fn law_batch_of_mutations(
    mutations: Vec<Mutation>,
    metadata: RegionMetadata,
    dedup: bool,
    r: Result<Option<(RecordBatch, i64, i64)>, PartError>,
    k: int,
) -> (place: (int, int))
    requires
        all_rows(mutations@).len() <= u32::MAX,
        arrow_builders::total_len(
            all_rows(mutations@).map_values(|r: KeyValueView| key_bytes(r)),
        ) <= i32::MAX,
        forall|i: int|
            0 <= i < all_rows(mutations@).len() ==> row_fits(
                #[trigger] all_rows(mutations@)[i],
                metadata,
            ),
        call_ensures(mutations_to_record_batch, (&mutations, &metadata, dedup), r),
        r matches Ok(Some(_)),
        0 <= k < (r->Ok_0->0).0@.num_rows,
    ensures
        0 <= place.0 < mutations@.len(),
        mutations@[place.0].rows matches Some(rows) && 0 <= place.1 < rows@.len() && {
            let (batch, min, max) = r->Ok_0->0;
            let n = metadata.field_types@.len() as int;
            let row = rows@[place.1];
            &&& batch@.columns.len() == n + 4
            &&& batch@.columns[n].cells[k] == CellView::Int64(row.timestamp)
            &&& batch@.columns[n + 2].cells[k] == CellView::UInt64(row.sequence)
            &&& batch@.columns[n + 3].cells[k] == CellView::UInt8(row.op_type)
            &&& row.primary_key matches Ok(key) && batch@.columns[n + 1].cells[k] matches
                CellView::UInt32(d) && batch@.columns[n + 1].dictionary[d as int] == key@
            &&& forall|f: int|
                0 <= f < n && f < row.fields@.len() ==> (#[trigger] batch@.columns[f]).cells[k]
                    == row.fields@[f]@
            &&& min <= row.timestamp <= max
        },
{
    let all = all_rows(mutations@);
    let (batch, min, max) = r->Ok_0->0;
    lemma_unsorted_valid(all, metadata, dedup);
    law_stored_row_was_written(mutations@, metadata, dedup, batch@, min, max, k)
}

/// Without looking for duplicates, [`mutations_to_record_batch`] gives as many rows as the
/// mutations have, and each of them, a delete as a delete and a put as a put; with it, each of
/// them or a later one of its primary key and timestamp. Where the mutations have no rows, and
/// nowhere else, it gives no batch. Gives the place in the batch.
pub proof fn law_mutations_are_in_batch(
    mutations: Vec<Mutation>,
    metadata: RegionMetadata,
    dedup: bool,
    r: Result<Option<(RecordBatch, i64, i64)>, PartError>,
    i: int,
    at: int,
) -> (k: int)
    requires
        all_rows(mutations@).len() <= u32::MAX,
        arrow_builders::total_len(
            all_rows(mutations@).map_values(|r: KeyValueView| key_bytes(r)),
        ) <= i32::MAX,
        forall|i: int|
            0 <= i < all_rows(mutations@).len() ==> row_fits(
                #[trigger] all_rows(mutations@)[i],
                metadata,
            ),
        call_ensures(mutations_to_record_batch, (&mutations, &metadata, dedup), r),
        0 <= i < mutations@.len(),
        mutations@[i].rows matches Some(rows) && 0 <= at < rows@.len(),
    ensures
        !(r matches Ok(None)),
        r matches Ok(Some((batch, min, max))) ==> {
            let n = metadata.field_types@.len() as int;
            let row = mutations@[i].rows->Some_0@[at];
            &&& 0 <= k < batch@.num_rows
            &&& !dedup ==> batch@.num_rows == all_rows(mutations@).len()
            &&& batch@.columns[n].cells[k] == CellView::Int64(row.timestamp)
            &&& row.primary_key matches Ok(key) && batch@.columns[n + 1].cells[k] matches
                CellView::UInt32(d) && batch@.columns[n + 1].dictionary[d as int] == key@
            &&& batch@.columns[n + 2].cells[k] matches CellView::UInt64(s) && s >= row.sequence && (
            !dedup ==> s == row.sequence)
            &&& !dedup ==> batch@.columns[n + 3].cells[k] == CellView::UInt8(row.op_type)
        },
{
    let all = all_rows(mutations@);
    let place = lemma_row_place(mutations@, i, at);
    if r matches Ok(Some(_)) {
        let (batch, min, max) = r->Ok_0->0;
        lemma_unsorted_valid(all, metadata, dedup);
        if !dedup {
            let sorter = unsorted(all, metadata, dedup);
            let stored = law_sorted_batch_holds_rows(
                sorter,
                metadata.time_unit,
                batch@,
                min,
                max,
            );
            lemma_picks_len(stored, all.len());
            lemma_all_picked(stored, all.len());
        }
        law_written_row_is_stored(mutations@, metadata, dedup, batch@, min, max, i, at)
    } else {
        0
    }
}

} // verus!

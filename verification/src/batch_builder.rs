//! Builds record batches of metrics, with encoded primary keys, from rows.

use arrow::array::BinaryArray;
use arrow::compute;
use vstd::layout;
use vstd::prelude::*;

use crate::arrow_builders;
use crate::arrow_builders::{ByteBuffer, OffsetBuffer};
use crate::batch_modifier::PRIMARY_KEY_COLUMN_NAME;
use crate::bulk_part;
use crate::lists;
use crate::record_batch;
use crate::record_batch::{
    BatchView, Cell, CellView, Column, ColumnView, DataType, Field, FieldView, RecordBatch, Schema,
    TimeUnit, TypeView,
};
use crate::row_order;
use crate::rows::{RowValue, ValueData, ValueView};
use crate::text;

verus! {

/// Collects byte strings, none of them null, in two buffers: the bytes, and the places
/// where the byte strings end.
#[derive(Debug)]
pub struct NonNullBinaryBuilder {
    value_builder: ByteBuffer,
    offsets_builder: OffsetBuffer,
}

impl View for NonNullBinaryBuilder {
    type V = Seq<Seq<u8>>;

    closed spec fn view(&self) -> Seq<Seq<u8>> {
        Seq::new(
            (self.offsets().len() - 1) as nat,
            |i: int|
                self.data().subrange(
                    self.offsets()[i] as int,
                    self.offsets()[i + 1] as int,
                ),
        )
    }
}

impl NonNullBinaryBuilder {
    /// The bytes collected.
    closed spec fn data(self) -> Seq<u8> {
        arrow_builders::buffer_bytes(self.value_builder)
    }

    /// Where the first byte string begins, and where each ends.
    closed spec fn offsets(self) -> Seq<i32> {
        arrow_builders::buffer_offsets(self.offsets_builder)
    }

    /// The places begin with zero, do not go back, and end with the last byte.
    pub closed spec fn well_formed(self) -> bool {
        &&& self.offsets().len() >= 1
        &&& self.offsets()[0] == 0
        &&& self.offsets()[self.offsets().len() - 1] == self.data().len()
        &&& forall|i: int, j: int|
            0 <= i <= j < self.offsets().len() ==> #[trigger] self.offsets()[i]
                <= #[trigger] self.offsets()[j]
    }

    /// The number of bytes collected.
    pub closed spec fn bytes(self) -> nat {
        self.data().len()
    }

    /// A builder with room for the given numbers of byte strings and of bytes.
    pub fn with_capacity(item_capacity: usize, data_capacity: usize) -> (r: Self)
        requires
            4 * (item_capacity + 1) + 256 <= isize::MAX,
            data_capacity + 256 <= isize::MAX,
        ensures
            r.well_formed(),
            r@ == Seq::<Seq<u8>>::empty(),
            r.bytes() == 0,
    {
        let mut offsets_builder = arrow_builders::offset_buffer_new(item_capacity + 1);
        arrow_builders::offset_buffer_append(&mut offsets_builder, 0);
        let r = NonNullBinaryBuilder {
            value_builder: arrow_builders::byte_buffer_new(data_capacity),
            offsets_builder,
        };
        assert(r@ =~= Seq::<Seq<u8>>::empty());
        r
    }

    /// Appends a byte string.
    pub fn append(&mut self, data: &[u8])
        requires
            old(self).well_formed(),
            old(self).bytes() + data@.len() <= i32::MAX,
        ensures
            final(self).well_formed(),
            final(self)@ == old(self)@.push(data@),
            final(self).bytes() == old(self).bytes() + data@.len(),
    {
        let ghost before = *self;
        arrow_builders::byte_buffer_append_slice(&mut self.value_builder, data);
        let next: i32 = self.next_offset();
        arrow_builders::offset_buffer_append(&mut self.offsets_builder, next);
        proof {
            let n = before.offsets().len() - 1;
            assert forall|i: int| 0 <= i < n implies self@[i] =~= before@[i] by {
                assert(before.offsets()[i] <= before.offsets()[i + 1]);
                assert(before.offsets()[i + 1] <= before.offsets()[n]);
            }
            assert(self@[n] =~= data@);
            assert(self@ =~= before@.push(data@));
        }
    }

    /// Where the next byte string begins.
    fn next_offset(&self) -> (r: i32)
        requires
            self.bytes() <= i32::MAX,
        ensures
            r == self.bytes(),
    {
        arrow_builders::byte_buffer_len(&self.value_builder) as i32
    }

    /// The number of byte strings collected.
    pub fn len(&self) -> (r: usize)
        requires
            self.well_formed(),
        ensures
            r == self@.len(),
    {
        arrow_builders::offset_buffer_len(&self.offsets_builder) - 1
    }

    /// The number of bytes collected.
    pub fn value_len(&self) -> (r: usize)
        ensures
            r == self.bytes(),
    {
        arrow_builders::byte_buffer_len(&self.value_builder)
    }

    /// The room for one byte string more: the average length of those collected, or one
    /// byte.
    pub open spec fn item_size(self) -> nat {
        if self@.len() == 0 {
            1
        } else {
            self.bytes() / self@.len()
        }
    }

    /// Makes room for more byte strings, at the end. Only the memory allocated changes, and nothing is
    /// said of it.
    pub fn reserve(&mut self, additional: usize)
        requires
            old(self).well_formed(),
            4 * (old(self)@.len() + 1 + additional) + 256 <= isize::MAX,
            old(self).bytes() + old(self).item_size() * additional + 256 <= isize::MAX,
        ensures
            final(self).well_formed(),
            final(self)@ == old(self)@,
            final(self).bytes() == old(self).bytes(),
    {
        let ghost before = *self;
        let avg_item_size: usize = if self.len() == 0 {
            1
        } else {
            arrow_builders::byte_buffer_len(&self.value_builder) / self.len()
        };
        assert(avg_item_size == before.item_size());
        arrow_builders::offset_buffer_reserve(&mut self.offsets_builder, additional);
        arrow_builders::byte_buffer_reserve(&mut self.value_builder, avg_item_size * additional);
        assert(self@ =~= before@);
    }

    /// The byte strings collected; the builder then holds nothing.
    pub fn build(&mut self) -> (r: Vec<Vec<u8>>)
        requires
            old(self).well_formed(),
        ensures
            arrow_builders::byte_strings(r@) == old(self)@,
            final(self).well_formed(),
            final(self)@ == Seq::<Seq<u8>>::empty(),
            final(self).bytes() == 0,
    {
        let ghost before = *self;
        let n: usize = self.len();
        let data: Vec<u8> = arrow_builders::byte_buffer_finish(&mut self.value_builder);
        let offsets: Vec<i32> = arrow_builders::offset_buffer_finish(&mut self.offsets_builder);
        let mut values: Vec<Vec<u8>> = Vec::new();
        let mut i: usize = 0;
        while i < n
            invariant
                before.well_formed(),
                data@ == before.data(),
                offsets@ == before.offsets(),
                n == before@.len(),
                i <= n,
                values@.len() == i,
                forall|k: int| 0 <= k < i ==> (#[trigger] values@[k])@ == before@[k],
            decreases n - i,
        {
            proof {
                let m = before.offsets().len() - 1;
                assert(before.offsets()[0] <= before.offsets()[i as int]);
                assert(before.offsets()[i as int] <= before.offsets()[i + 1]);
                assert(before.offsets()[i + 1] <= before.offsets()[m]);
            }
            let from: usize = offsets[i] as usize;
            let to: usize = offsets[i + 1] as usize;
            let item = vstd::slice::slice_subrange(data.as_slice(), from, to);
            values.push(vstd::slice::slice_to_vec(item));
            i = i + 1;
        }
        assert(arrow_builders::byte_strings(values@) =~= before@);
        let next: i32 = self.next_offset();
        arrow_builders::offset_buffer_append(&mut self.offsets_builder, next);
        assert(self@ =~= Seq::<Seq<u8>>::empty());
        values
    }
}

impl NonNullBinaryBuilder {
    /// The bytes collected are those of the byte strings, and no more than an `i32` counts.
    pub proof fn lemma_bytes(self)
        requires
            self.well_formed(),
        ensures
            self.bytes() == arrow_builders::total_len(self@),
            self.bytes() <= i32::MAX,
    {
        self.lemma_bytes_prefix(self@.len() as int);
        assert(self@.take(self@.len() as int) =~= self@);
    }

    proof fn lemma_bytes_prefix(self, n: int)
        requires
            self.well_formed(),
            0 <= n <= self@.len(),
        ensures
            arrow_builders::total_len(self@.take(n)) == self.offsets()[n],
        decreases n,
    {
        if n > 0 {
            self.lemma_bytes_prefix(n - 1);
            assert(self@.take(n).drop_last() =~= self@.take(n - 1));
            let m = self.offsets().len() - 1;
            assert(self.offsets()[0] <= self.offsets()[n - 1]);
            assert(self.offsets()[n - 1] <= self.offsets()[n]);
            assert(self.offsets()[n] <= self.offsets()[m]);
            assert(self@.take(n).last() == self@[n - 1]);
        }
    }
}

impl Default for NonNullBinaryBuilder {
    fn default() -> (r: Self)
        ensures
            r.well_formed(),
            r@ == Seq::<Seq<u8>>::empty(),
            r.bytes() == 0,
    {
        NonNullBinaryBuilder::with_capacity(16, 256)
    }
}

/// A value of a metric: the encoded primary key of its time series, the bits of the value,
/// and the time.
pub struct PointView {
    pub primary_key: Seq<u8>,
    pub value: u64,
    pub timestamp: i64,
}

/// The earliest and the latest of some times.
pub open spec fn range_of(timestamps: Seq<i64>) -> Option<(i64, i64)>
    decreases timestamps.len(),
{
    if timestamps.len() == 0 {
        None
    } else {
        let t = timestamps.last();
        match range_of(timestamps.drop_last()) {
            Some((min, max)) => Some(
                (
                    if t < min {
                        t
                    } else {
                        min
                    },
                    if t > max {
                        t
                    } else {
                        max
                    },
                ),
            ),
            None => Some((t, t)),
        }
    }
}

/// [`range_of`] bounds the times, and both bounds are among them.
pub proof fn lemma_range_of(timestamps: Seq<i64>)
    requires
        timestamps.len() > 0,
    ensures
        range_of(timestamps) matches Some((min, max)) && timestamps.contains(min)
            && timestamps.contains(max) && forall|i: int|
            0 <= i < timestamps.len() ==> min <= #[trigger] timestamps[i] <= max,
    decreases timestamps.len(),
{
    let rest = timestamps.drop_last();
    let n = timestamps.len() - 1;
    assert(timestamps[n] == timestamps.last());
    if rest.len() > 0 {
        lemma_range_of(rest);
        let (min, max) = range_of(rest)->0;
        let i = choose|i: int| 0 <= i < rest.len() && rest[i] == min;
        assert(timestamps[i] == min);
        let j = choose|j: int| 0 <= j < rest.len() && rest[j] == max;
        assert(timestamps[j] == max);
        assert forall|k: int| 0 <= k < timestamps.len() implies (range_of(timestamps)->0).0
            <= #[trigger] timestamps[k] <= (range_of(timestamps)->0).1 by {
            if k < n {
                assert(rest[k] == timestamps[k]);
            }
        }
    }
}

/// The points of one record batch, column by column.
#[derive(Debug)]
pub struct Columns {
    pub encoded_primary_key_array_builder: NonNullBinaryBuilder,
    pub timestamps: Vec<i64>,
    /// The values, by their bits.
    pub value: Vec<u64>,
    pub timestamp_range: Option<(i64, i64)>,
}

impl View for Columns {
    type V = Seq<PointView>;

    open spec fn view(&self) -> Seq<PointView> {
        Seq::new(
            self.timestamps@.len(),
            |i: int|
                PointView {
                    primary_key: self.encoded_primary_key_array_builder@[i],
                    value: self.value@[i],
                    timestamp: self.timestamps@[i],
                },
        )
    }
}

impl Columns {
    /// There are as many of each, and the range is that of the times.
    pub open spec fn well_formed(self) -> bool {
        &&& self.encoded_primary_key_array_builder.well_formed()
        &&& self.encoded_primary_key_array_builder@.len() == self.timestamps@.len()
        &&& self.value@.len() == self.timestamps@.len()
        &&& self.timestamp_range == range_of(self.timestamps@)
    }

    /// The number of bytes of the primary keys.
    pub open spec fn key_bytes(self) -> nat {
        self.encoded_primary_key_array_builder.bytes()
    }

    /// Columns with room for the given number of points.
    pub fn with_capacity(cap: usize, avg_pk_len: Option<usize>) -> (r: Self)
        requires
            8 * (cap + 1) <= isize::MAX,
            cap * (match avg_pk_len {
                Some(len) => len as int,
                None => 10,
            }) + 256 <= isize::MAX,
        ensures
            r.well_formed(),
            r@ == Seq::<PointView>::empty(),
            r.key_bytes() == 0,
    {
        let len: usize = match avg_pk_len {
            Some(len) => len,
            None => 10,
        };
        let r = Columns {
            encoded_primary_key_array_builder: NonNullBinaryBuilder::with_capacity(cap, cap * len),
            timestamps: Vec::with_capacity(cap),
            value: Vec::with_capacity(cap),
            timestamp_range: None,
        };
        assert(r@ =~= Seq::<PointView>::empty());
        r
    }

    /// Makes room for more points, at the end. Only the memory allocated changes, and nothing is
    /// said of it.
    pub fn reserve(&mut self, additional: usize)
        requires
            old(self).well_formed(),
            8 * (old(self)@.len() + 1 + additional) <= isize::MAX,
            old(self).key_bytes() + old(self).encoded_primary_key_array_builder.item_size()
                * additional + 256 <= isize::MAX,
        ensures
            final(self).well_formed(),
            final(self)@ == old(self)@,
            final(self).key_bytes() == old(self).key_bytes(),
    {
        self.encoded_primary_key_array_builder.reserve(additional);
        self.timestamps.reserve(additional);
        self.value.reserve(additional);
        assert(self@ =~= old(self)@);
    }

    /// The number of primary keys.
    pub fn pk_offset(&self) -> (r: usize)
        requires
            self.well_formed(),
        ensures
            r == self@.len(),
    {
        self.encoded_primary_key_array_builder.len()
    }

    /// The estimated size in memory: five bytes for each byte of a primary key, eight for
    /// each time and each value, and what the columns take themselves.
    pub open spec fn estimated(self) -> nat {
        5 * self.key_bytes() + 16 * self@.len() + layout::size_of::<Vec<i64>>()
            + layout::size_of::<Vec<u64>>() + layout::size_of::<Columns>()
    }

    /// The estimated size in memory.
    pub fn estimated_size(&self) -> (r: usize)
        requires
            self.well_formed(),
            self.estimated() <= usize::MAX,
        ensures
            r == self.estimated(),
    {
        let value_size: usize = self.encoded_primary_key_array_builder.value_len();
        let offset_size: usize = self.encoded_primary_key_array_builder.value_len() * 4;
        let timestamp_size: usize = self.timestamps.len() * 8 + std::mem::size_of::<Vec<i64>>();
        let val_size: usize = self.value.len() * 8 + std::mem::size_of::<Vec<u64>>();
        value_size + offset_size + timestamp_size + val_size + std::mem::size_of::<Columns>()
    }

    /// Adds a point.
    pub fn push(&mut self, pk: &[u8], val: u64, timestamp: i64)
        requires
            old(self).well_formed(),
            old(self).key_bytes() + pk@.len() <= i32::MAX,
        ensures
            final(self).well_formed(),
            final(self)@ == old(self)@.push(
                PointView { primary_key: pk@, value: val, timestamp },
            ),
            final(self).key_bytes() == old(self).key_bytes() + pk@.len(),
    {
        let ghost before = *self;
        self.encoded_primary_key_array_builder.append(pk);
        self.value.push(val);
        self.timestamps.push(timestamp);
        assert(self.timestamps@.drop_last() =~= before.timestamps@);
        self.timestamp_range = match self.timestamp_range {
            Some((min, max)) => Some(
                (
                    if timestamp < min {
                        timestamp
                    } else {
                        min
                    },
                    if timestamp > max {
                        timestamp
                    } else {
                        max
                    },
                ),
            ),
            None => Some((timestamp, timestamp)),
        };
        assert(self@ =~= before@.push(PointView { primary_key: pk@, value: val, timestamp }));
    }
}

/// Collects points in as many columns as their number asks for.
#[derive(Debug)]
pub struct ColumnsBuilder {
    pub columns: Vec<Columns>,
}

/// The points of each of some columns.
pub open spec fn chunks_of(columns: Seq<Columns>) -> Seq<Seq<PointView>> {
    columns.map_values(|c: Columns| c@)
}

impl View for ColumnsBuilder {
    type V = Seq<Seq<PointView>>;

    open spec fn view(&self) -> Seq<Seq<PointView>> {
        chunks_of(self.columns@)
    }
}

/// A point goes into a new chunk: the number of points of the chunk and the length of its
/// key are together out of the range of an `i32`.
pub open spec fn chunk_full(chunk: Seq<PointView>, primary_key: Seq<u8>) -> bool {
    chunk.len() + primary_key.len() >= i32::MAX
}

/// The chunks with a point more.
pub open spec fn chunks_push(chunks: Seq<Seq<PointView>>, point: PointView) -> Seq<Seq<PointView>> {
    if chunk_full(chunks.last(), point.primary_key) {
        chunks.push(seq![point])
    } else {
        chunks.drop_last().push(chunks.last().push(point))
    }
}

impl ColumnsBuilder {
    /// Every chunk is well formed, and there is one.
    pub open spec fn well_formed(self) -> bool {
        &&& self.columns@.len() > 0
        &&& forall|i: int| 0 <= i < self.columns@.len() ==> (#[trigger] self.columns@[i]).well_formed()
    }

    /// The last columns.
    pub open spec fn last(self) -> Columns {
        self.columns@[self.columns@.len() - 1]
    }

    /// The machine can hold a point with the given key more, before which `remaining_rows`
    /// were to come.
    pub open spec fn has_room(self, primary_key: Seq<u8>, remaining_rows: nat) -> bool {
        if chunk_full(self@.last(), primary_key) {
            &&& self@.last().len() > 0
            &&& primary_key.len() <= i32::MAX
            &&& 8 * (remaining_rows + 1) <= isize::MAX
        } else {
            self.last().key_bytes() + primary_key.len() <= i32::MAX
        }
    }

    /// A builder with room for the given number of points.
    pub fn new(initial_cap: usize) -> (r: Self)
        requires
            10 * initial_cap + 256 <= isize::MAX,
        ensures
            r.well_formed(),
            r@ == seq![Seq::<PointView>::empty()],
            r.last().key_bytes() == 0,
    {
        let columns = Columns::with_capacity(initial_cap, None);
        let mut all: Vec<Columns> = Vec::new();
        all.push(columns);
        let r = ColumnsBuilder { columns: all };
        assert(r@ =~= seq![Seq::<PointView>::empty()]);
        r
    }

    /// Makes room for more points, at the end. Only the memory allocated changes, and nothing is
    /// said of it.
    pub fn reserve(&mut self, additional: usize)
        requires
            old(self).well_formed(),
            8 * (old(self).last()@.len() + 1 + additional) <= isize::MAX,
            old(self).last().key_bytes() + old(
                self,
            ).last().encoded_primary_key_array_builder.item_size() * additional + 256 <= isize::MAX,
        ensures
            final(self).well_formed(),
            final(self)@ == old(self)@,
            final(self).last().key_bytes() == old(self).last().key_bytes(),
    {
        let last: usize = self.columns.len() - 1;
        self.columns[last].reserve(additional);
        assert(self@ =~= old(self)@);
    }

    /// Adds a point, in new columns where the last are full.
    pub fn push(&mut self, pk: &[u8], val: u64, ts: i64, remaining_rows: usize)
        requires
            old(self).well_formed(),
            old(self).has_room(pk@, remaining_rows as nat),
        ensures
            final(self).well_formed(),
            final(self)@ == chunks_push(
                old(self)@,
                PointView { primary_key: pk@, value: val, timestamp: ts },
            ),
    {
        let ghost before = self@;
        let ghost point = PointView { primary_key: pk@, value: val, timestamp: ts };
        let mut last: usize = self.columns.len() - 1;
        assert(self.columns@[last as int].well_formed());
        assert(before.last() == self.columns@[last as int]@);
        assert(self.columns@[last as int].timestamps.len() == before.last().len());
        let ghost full = chunk_full(before.last(), pk@);
        let offset: u128 = self.columns[last].pk_offset() as u128;
        if offset + pk.len() as u128 >= i32::MAX as u128 {
            let avg_pk_size: usize = self.columns[last].pk_offset()
                / self.columns[last].timestamps.len();
            assert(avg_pk_size == 1) by (nonlinear_arith)
                requires
                    avg_pk_size == before.last().len() / before.last().len(),
                    before.last().len() > 0,
            ;
            assert(remaining_rows * avg_pk_size + 256 <= isize::MAX);
            self.columns.push(Columns::with_capacity(remaining_rows, Some(avg_pk_size)));
            last = self.columns.len() - 1;
        }
        self.columns[last].push(pk, val, ts);
        proof {
            if full {
                assert(self@ =~= before.push(Seq::<PointView>::empty().push(point)));
                assert(Seq::<PointView>::empty().push(point) =~= seq![point]);
            } else {
                assert(self@ =~= before.drop_last().push(before.last().push(point)));
            }
        }
    }
}

/// All points of some chunks, in order.
pub open spec fn all_points(chunks: Seq<Seq<PointView>>) -> Seq<PointView>
    decreases chunks.len(),
{
    if chunks.len() == 0 {
        Seq::empty()
    } else {
        all_points(chunks.drop_last()) + chunks.last()
    }
}

/// No point is lost or moved, whichever columns it goes to.
pub proof fn law_push_keeps_points(chunks: Seq<Seq<PointView>>, point: PointView)
    requires
        chunks.len() > 0,
    ensures
        all_points(chunks_push(chunks, point)) == all_points(chunks).push(point),
{
    let pushed = chunks_push(chunks, point);
    if chunk_full(chunks.last(), point.primary_key) {
        assert(pushed.drop_last() =~= chunks);
        assert(all_points(chunks) + seq![point] =~= all_points(chunks).push(point));
    } else {
        assert(pushed.drop_last() =~= chunks.drop_last());
        assert(all_points(chunks.drop_last()) + chunks.last().push(point) =~= all_points(
            chunks,
        ).push(point));
    }
}

/// The primary keys of some points.
pub open spec fn keys_of(points: Seq<PointView>) -> Seq<Seq<u8>> {
    points.map_values(|p: PointView| p.primary_key)
}

/// The length of the primary keys of some points.
pub open spec fn key_bytes_of(points: Seq<PointView>) -> nat {
    arrow_builders::total_len(keys_of(points))
}

impl Columns {
    /// The bytes of the primary keys are those of the points.
    pub proof fn lemma_key_bytes(self)
        requires
            self.well_formed(),
        ensures
            self.key_bytes() == key_bytes_of(self@),
            self.key_bytes() <= i32::MAX,
            self.encoded_primary_key_array_builder@ == keys_of(self@),
    {
        self.encoded_primary_key_array_builder.lemma_bytes();
        assert(self.encoded_primary_key_array_builder@ =~= keys_of(self@));
    }
}

/// A row of a metric, with its primary key encoded where that was possible.
#[derive(Debug)]
pub struct MetricRow {
    pub primary_key: Result<Vec<u8>, String>,
    pub timestamp: RowValue,
    pub value: RowValue,
}

/// What a [`MetricRow`] holds.
pub struct MetricRowView {
    pub primary_key: Result<Seq<u8>, Seq<char>>,
    pub timestamp: Option<ValueView>,
    pub value: Option<ValueView>,
}

impl View for MetricRow {
    type V = MetricRowView;

    open spec fn view(&self) -> MetricRowView {
        MetricRowView {
            primary_key: match self.primary_key {
                Ok(key) => Ok(key@),
                Err(reason) => Err(reason@),
            },
            timestamp: self.timestamp@,
            value: self.value@,
        }
    }
}

/// Why a row could not be added.
#[derive(Debug)]
pub enum AppendError {
    EncodePrimaryKey(String),
    InvalidFieldValueType,
    InvalidTimestampValueType,
}

/// What an [`AppendError`] says.
pub enum AppendErrorView {
    EncodePrimaryKey(Seq<char>),
    InvalidFieldValueType,
    InvalidTimestampValueType,
}

impl View for AppendError {
    type V = AppendErrorView;

    open spec fn view(&self) -> AppendErrorView {
        match self {
            AppendError::EncodePrimaryKey(reason) => AppendErrorView::EncodePrimaryKey(reason@),
            AppendError::InvalidFieldValueType => AppendErrorView::InvalidFieldValueType,
            AppendError::InvalidTimestampValueType => AppendErrorView::InvalidTimestampValueType,
        }
    }
}

/// The point of a row, or why there is none.
pub open spec fn point_of(row: MetricRowView) -> Result<PointView, AppendErrorView> {
    match row.primary_key {
        Err(reason) => Err(AppendErrorView::EncodePrimaryKey(reason)),
        Ok(primary_key) => match row.value {
            Some(ValueView::F64Value(value)) => match row.timestamp {
                Some(ValueView::TimestampMillisecondValue(timestamp)) => Ok(
                    PointView { primary_key, value, timestamp },
                ),
                _ => Err(AppendErrorView::InvalidTimestampValueType),
            },
            _ => Err(AppendErrorView::InvalidFieldValueType),
        },
    }
}

/// The chunks with the points of rows, up to the first row that has none, and why it has
/// none.
pub open spec fn chunks_append(chunks: Seq<Seq<PointView>>, rows: Seq<MetricRowView>) -> (
    Seq<Seq<PointView>>,
    Option<AppendErrorView>,
)
    decreases rows.len(),
{
    if rows.len() == 0 {
        (chunks, None)
    } else {
        let (before, error) = chunks_append(chunks, rows.drop_last());
        match error {
            Some(e) => (before, Some(e)),
            None => match point_of(rows.last()) {
                Ok(point) => (chunks_push(before, point), None),
                Err(e) => (before, Some(e)),
            },
        }
    }
}

/// Every row has a point.
pub open spec fn all_have_points(rows: Seq<MetricRowView>) -> bool {
    forall|i: int| 0 <= i < rows.len() ==> point_of(#[trigger] rows[i]) is Ok
}

/// No row is lost: where all rows have a point, those come after the points that were there, in
/// the order of the rows.
pub proof fn law_append_keeps_points(chunks: Seq<Seq<PointView>>, rows: Seq<MetricRowView>)
    requires
        chunks.len() > 0,
    ensures
        chunks_append(chunks, rows).0.len() > 0,
        chunks_append(chunks, rows).1 is None <==> all_have_points(rows),
        chunks_append(chunks, rows).1 is None ==> all_points(chunks_append(chunks, rows).0)
            == all_points(chunks) + rows.map_values(|r: MetricRowView| point_of(r)->Ok_0),
    decreases rows.len(),
{
    if rows.len() == 0 {
        assert(all_points(chunks) + rows.map_values(|r: MetricRowView| point_of(r)->Ok_0)
            =~= all_points(chunks));
    } else {
        let before = rows.drop_last();
        law_append_keeps_points(chunks, before);
        assert(rows[rows.len() - 1] == rows.last());
        if all_have_points(before) && point_of(rows.last()) is Ok {
            assert forall|i: int| 0 <= i < rows.len() implies point_of(#[trigger] rows[i]) is Ok by {
                if i < before.len() {
                    assert(point_of(before[i]) is Ok);
                }
            }
        }
        if all_have_points(rows) {
            assert forall|i: int| 0 <= i < before.len() implies point_of(
                #[trigger] before[i],
            ) is Ok by {
                assert(point_of(rows[i]) is Ok);
            }
        }
        if chunks_append(chunks, before).1 is None && point_of(rows.last()) is Ok {
            law_push_keeps_points(chunks_append(chunks, before).0, point_of(rows.last())->Ok_0);
            assert(all_points(chunks) + rows.map_values(|r: MetricRowView| point_of(r)->Ok_0)
                =~= (all_points(chunks) + before.map_values(
                |r: MetricRowView| point_of(r)->Ok_0,
            )).push(point_of(rows.last())->Ok_0));
        }
    }
}

/// The machine can hold a point with the given key more.
pub open spec fn chunks_room(
    chunks: Seq<Seq<PointView>>,
    primary_key: Seq<u8>,
    remaining_rows: nat,
) -> bool {
    if chunk_full(chunks.last(), primary_key) {
        &&& chunks.last().len() > 0
        &&& primary_key.len() <= i32::MAX
        &&& 8 * (remaining_rows + 1) <= isize::MAX
    } else {
        key_bytes_of(chunks.last()) + primary_key.len() <= i32::MAX
    }
}

/// A row whose key could be encoded has a value and, where that is one of a metric, a time.
pub open spec fn lacks_nothing(row: MetricRowView) -> bool {
    row.primary_key is Ok ==> {
        &&& row.value is Some
        &&& row.value->0 is F64Value ==> row.timestamp is Some
    }
}

/// The machine can hold the points of rows, of `total` in all, and no row that is come to lacks
/// its value or its time.
pub open spec fn rows_room(
    chunks: Seq<Seq<PointView>>,
    rows: Seq<MetricRowView>,
    total: nat,
) -> bool
    decreases rows.len(),
{
    rows.len() > 0 ==> {
        let (before, error) = chunks_append(chunks, rows.drop_last());
        &&& rows_room(chunks, rows.drop_last(), total)
        &&& error is None ==> lacks_nothing(rows.last())
        &&& error is None ==> (point_of(rows.last()) matches Ok(point) ==> chunks_room(
            before,
            point.primary_key,
            (total - (rows.len() - 1)) as nat,
        ))
    }
}

/// The room that is made for one key more: the average length of those of a chunk, or one
/// byte.
pub open spec fn key_size(chunk: Seq<PointView>) -> nat {
    if chunk.len() == 0 {
        1
    } else {
        key_bytes_of(chunk) / chunk.len()
    }
}

/// The machine can hold the points of rows, and no row that is come to lacks its value or its
/// time.
pub open spec fn append_room(chunks: Seq<Seq<PointView>>, rows: Seq<MetricRowView>) -> bool {
    &&& 8 * (chunks.last().len() + 1 + rows.len()) <= isize::MAX
    &&& key_bytes_of(chunks.last()) + key_size(chunks.last()) * rows.len() + 256 <= isize::MAX
    &&& rows_room(chunks, rows, rows.len())
}

proof fn lemma_rows_room_prefix(
    chunks: Seq<Seq<PointView>>,
    rows: Seq<MetricRowView>,
    total: nat,
    n: int,
)
    requires
        rows_room(chunks, rows, total),
        0 <= n <= rows.len(),
    ensures
        rows_room(chunks, rows.take(n), total),
    decreases rows.len(),
{
    if n < rows.len() {
        lemma_rows_room_prefix(chunks, rows.drop_last(), total, n);
        assert(rows.drop_last().take(n) =~= rows.take(n));
    } else {
        assert(rows.take(n) =~= rows);
    }
}

proof fn lemma_append_stops(chunks: Seq<Seq<PointView>>, rows: Seq<MetricRowView>, n: int)
    requires
        0 <= n <= rows.len(),
        chunks_append(chunks, rows.take(n)).1 is Some,
    ensures
        chunks_append(chunks, rows) == chunks_append(chunks, rows.take(n)),
    decreases rows.len() - n,
{
    if n < rows.len() {
        assert(rows.take(n + 1).drop_last() =~= rows.take(n));
        lemma_append_stops(chunks, rows, n + 1);
    } else {
        assert(rows.take(n) =~= rows);
    }
}

/// Encodes the rows of the logical tables of one physical region.
#[derive(Debug)]
pub struct BatchEncoder {
    pub columns_builder: ColumnsBuilder,
}

impl View for BatchEncoder {
    type V = Seq<Seq<PointView>>;

    open spec fn view(&self) -> Seq<Seq<PointView>> {
        self.columns_builder@
    }
}

/// The sum of the estimated sizes of columns.
pub open spec fn estimated_sum(columns: Seq<Columns>) -> nat
    decreases columns.len(),
{
    if columns.len() == 0 {
        0
    } else {
        estimated_sum(columns.drop_last()) + columns.last().estimated()
    }
}

proof fn lemma_estimated_sum_prefix(columns: Seq<Columns>, n: int)
    requires
        0 <= n <= columns.len(),
    ensures
        estimated_sum(columns.take(n)) <= estimated_sum(columns),
    decreases columns.len() - n,
{
    if n < columns.len() {
        lemma_estimated_sum_prefix(columns, n + 1);
        assert(columns.take(n + 1).drop_last() =~= columns.take(n));
    } else {
        assert(columns.take(n) =~= columns);
    }
}

proof fn lemma_all_points_prefix(chunks: Seq<Seq<PointView>>, n: int)
    requires
        0 <= n <= chunks.len(),
    ensures
        all_points(chunks.take(n)).len() <= all_points(chunks).len(),
    decreases chunks.len() - n,
{
    if n < chunks.len() {
        lemma_all_points_prefix(chunks, n + 1);
        assert(chunks.take(n + 1).drop_last() =~= chunks.take(n));
    } else {
        assert(chunks.take(n) =~= chunks);
    }
}

impl BatchEncoder {
    /// An encoder that holds no rows.
    pub fn new() -> (r: Self)
        ensures
            r.columns_builder.well_formed(),
            r@ == seq![Seq::<PointView>::empty()],
    {
        BatchEncoder { columns_builder: ColumnsBuilder::new(16384) }
    }

    /// The estimated size in memory of the rows.
    pub fn estimated_size(&self) -> (r: usize)
        requires
            self.columns_builder.well_formed(),
            estimated_sum(self.columns_builder.columns@) <= usize::MAX,
        ensures
            r == estimated_sum(self.columns_builder.columns@),
    {
        let ghost all = self.columns_builder.columns@;
        let mut total: usize = 0;
        let mut i: usize = 0;
        assert(all.take(0) =~= Seq::<Columns>::empty());
        while i < self.columns_builder.columns.len()
            invariant
                i <= all.len(),
                all == self.columns_builder.columns@,
                self.columns_builder.well_formed(),
                estimated_sum(all) <= usize::MAX,
                total == estimated_sum(all.take(i as int)),
            decreases all.len() - i,
        {
            proof {
                lemma_estimated_sum_prefix(all, i + 1);
                assert(all.take(i + 1).drop_last() =~= all.take(i as int));
            }
            total = total + self.columns_builder.columns[i].estimated_size();
            i = i + 1;
        }
        assert(all.take(i as int) =~= all);
        total
    }

    /// The number of rows.
    pub fn total_rows(&self) -> (r: usize)
        requires
            self.columns_builder.well_formed(),
            all_points(self@).len() <= usize::MAX,
        ensures
            r == all_points(self@).len(),
    {
        let ghost all = self@;
        let mut total: usize = 0;
        let mut i: usize = 0;
        assert(all.take(0) =~= Seq::<Seq<PointView>>::empty());
        while i < self.columns_builder.columns.len()
            invariant
                i <= all.len(),
                all == self@,
                self.columns_builder.well_formed(),
                all_points(all).len() <= usize::MAX,
                total == all_points(all.take(i as int)).len(),
            decreases all.len() - i,
        {
            proof {
                lemma_all_points_prefix(all, i + 1);
                assert(all.take(i + 1).drop_last() =~= all.take(i as int));
                assert(all[i as int] == self.columns_builder.columns@[i as int]@);
            }
            total = total + self.columns_builder.columns[i].timestamps.len();
            i = i + 1;
        }
        assert(all.take(i as int) =~= all);
        total
    }

    /// Adds rows, up to the first that cannot be added.
    pub fn append_rows(&mut self, rows: &Vec<MetricRow>) -> (r: Result<(), AppendError>)
        requires
            old(self).columns_builder.well_formed(),
            append_room(old(self)@, rows@.map_values(|r: MetricRow| r@)),
        ensures
            final(self).columns_builder.well_formed(),
            final(self)@ == chunks_append(old(self)@, rows@.map_values(|r: MetricRow| r@)).0,
            match r {
                Ok(_) => chunks_append(old(self)@, rows@.map_values(|r: MetricRow| r@)).1 is None,
                Err(e) => chunks_append(old(self)@, rows@.map_values(|r: MetricRow| r@)).1 == Some(
                    e@,
                ),
            },
    {
        let ghost start = self@;
        let ghost all = rows@.map_values(|r: MetricRow| r@);
        let num_rows: usize = rows.len();
        proof {
            let last = self.columns_builder.last();
            assert(last.well_formed());
            last.lemma_key_bytes();
            assert(self@.last() == last@);
        }
        self.columns_builder.reserve(num_rows);
        let mut i: usize = 0;
        assert(all.take(0) =~= Seq::<MetricRowView>::empty());
        while i < num_rows
            invariant
                i <= num_rows,
                num_rows == rows@.len(),
                all == rows@.map_values(|r: MetricRow| r@),
                start == old(self)@,
                self.columns_builder.well_formed(),
                rows_room(start, all, num_rows as nat),
                chunks_append(start, all.take(i as int)) == (
                    self@,
                    None::<AppendErrorView>,
                ),
            decreases num_rows - i,
        {
            let row = &rows[i];
            let ghost next = all.take(i + 1);
            proof {
                assert(next.drop_last() =~= all.take(i as int));
                assert(next.last() == row@);
                lemma_rows_room_prefix(start, all, num_rows as nat, i + 1);
                if chunks_append(start, next).1 is Some {
                    lemma_append_stops(start, all, i + 1);
                }
            }
            let key: &Vec<u8> = match &row.primary_key {
                Ok(key) => key,
                Err(reason) => {
                    return Err(AppendError::EncodePrimaryKey(reason.clone()));
                },
            };
            let val: u64 = match &row.value.value_data {
                Some(ValueData::F64Value(v)) => *v,
                _ => {
                    return Err(AppendError::InvalidFieldValueType);
                },
            };
            let ts: i64 = match &row.timestamp.value_data {
                Some(ValueData::TimestampMillisecondValue(v)) => *v,
                _ => {
                    return Err(AppendError::InvalidTimestampValueType);
                },
            };
            let remaining_rows: usize = num_rows - i;
            proof {
                let last = self.columns_builder.last();
                assert(last.well_formed());
                last.lemma_key_bytes();
                assert(self@.last() == last@);
            }
            self.columns_builder.push(key.as_slice(), val, ts, remaining_rows);
            i = i + 1;
        }
        assert(all.take(i as int) =~= all);
        Ok(())
    }
}

/// The name of the column of times.
pub const GREPTIME_TIMESTAMP: &'static str = "greptime_timestamp";

/// The name of the column of values.
pub const GREPTIME_VALUE: &'static str = "greptime_value";

/// The name of the column of sequences.
pub const SEQUENCE_COLUMN_NAME: &'static str = "__sequence";

/// The name of the column of the kinds of operation.
pub const OP_TYPE_COLUMN_NAME: &'static str = "__op_type";

/// The kind of operation that writes a row.
pub const OP_TYPE_PUT: u8 = 1;

/// The fields of the batches that points are written in.
pub open spec fn physical_fields() -> Seq<FieldView> {
    seq![
        FieldView { name: GREPTIME_VALUE@, data_type: TypeView::Float64, nullable: false },
        FieldView {
            name: GREPTIME_TIMESTAMP@,
            data_type: TypeView::Timestamp(TimeUnit::Millisecond, None),
            nullable: false,
        },
        FieldView { name: PRIMARY_KEY_COLUMN_NAME@, data_type: TypeView::Binary, nullable: false },
        FieldView { name: SEQUENCE_COLUMN_NAME@, data_type: TypeView::UInt64, nullable: false },
        FieldView { name: OP_TYPE_COLUMN_NAME@, data_type: TypeView::UInt8, nullable: false },
    ]
}

/// The schema of the batches that points are written in.
pub fn physical_schema() -> (r: Schema)
    ensures
        r@ == physical_fields(),
{
    let mut fields: Vec<Field> = Vec::new();
    fields.push(
        Field {
            name: GREPTIME_VALUE.to_string(),
            data_type: DataType::Float64,
            nullable: false,
        },
    );
    fields.push(
        Field {
            name: GREPTIME_TIMESTAMP.to_string(),
            data_type: DataType::Timestamp(TimeUnit::Millisecond, None),
            nullable: false,
        },
    );
    fields.push(
        Field {
            name: PRIMARY_KEY_COLUMN_NAME.to_string(),
            data_type: DataType::Binary,
            nullable: false,
        },
    );
    fields.push(
        Field {
            name: SEQUENCE_COLUMN_NAME.to_string(),
            data_type: DataType::UInt64,
            nullable: false,
        },
    );
    fields.push(
        Field {
            name: OP_TYPE_COLUMN_NAME.to_string(),
            data_type: DataType::UInt8,
            nullable: false,
        },
    );
    let r = Schema { fields };
    assert(r@ =~= physical_fields());
    r
}

/// Every byte string once, in ascending order.
pub open spec fn is_key_order(keys: Seq<Seq<u8>>, order: Seq<int>) -> bool {
    &&& order.len() == keys.len()
    &&& order.no_duplicates()
    &&& row_order::in_range(order, keys.len())
    &&& bulk_part::ascending(order.map_values(|i: int| keys[i]))
}

/// Indices as numbers.
pub open spec fn indices_view(indices: Seq<u32>) -> Seq<int> {
    indices.map_values(|i: u32| i as int)
}

/// `sort_to_indices` of arrow on an array of byte strings: the place of each of them, so
/// that they come in ascending order. Which of equal byte strings comes first is left
/// open. The array panics where the byte strings come to more bytes than an `i32` counts.
#[verifier::external_body]
fn sort_to_indices(values: &Vec<Vec<u8>>) -> (r: Option<Vec<u32>>)
    requires
        values@.len() <= u32::MAX,
        arrow_builders::total_len(arrow_builders::byte_strings(values@)) <= i32::MAX,
    ensures
        r is Some,
        is_key_order(arrow_builders::byte_strings(values@), indices_view(r->0@)),
{
    let array = BinaryArray::from_iter_values(values);
    compute::sort_to_indices(&array, None, None).ok().map(|i| i.values().to_vec())
}

/// The columns of points in the order `order`: the values, the times, the primary keys, no
/// sequence, and the kind of operation that writes a row.
pub open spec fn point_columns(points: Seq<PointView>, order: Seq<int>) -> Seq<ColumnView> {
    seq![
        ColumnView {
            data_type: TypeView::Float64,
            cells: order.map_values(|i: int| CellView::Float64(points[i].value)),
            dictionary: Seq::empty(),
        },
        ColumnView {
            data_type: TypeView::Timestamp(TimeUnit::Millisecond, None),
            cells: order.map_values(|i: int| CellView::Int64(points[i].timestamp)),
            dictionary: Seq::empty(),
        },
        ColumnView {
            data_type: TypeView::Binary,
            cells: order.map_values(|i: int| CellView::Binary(points[i].primary_key)),
            dictionary: Seq::empty(),
        },
        bulk_part::uint64_column(Seq::new(order.len(), |i: int| 0u64)),
        bulk_part::uint8_column(Seq::new(order.len(), |i: int| OP_TYPE_PUT)),
    ]
}

/// The batch of points in the order `order`.
pub open spec fn point_batch(points: Seq<PointView>, order: Seq<int>) -> BatchView {
    BatchView {
        fields: physical_fields(),
        columns: point_columns(points, order),
        num_rows: order.len(),
    }
}

/// The batch holds the points, sorted by primary key.
pub open spec fn is_sorted_batch(points: Seq<PointView>, batch: BatchView) -> bool {
    exists|order: Seq<int>| #[trigger]
        is_key_order(keys_of(points), order) && batch == point_batch(points, order)
}

/// The times of some points.
pub open spec fn times_of(points: Seq<PointView>) -> Seq<i64> {
    points.map_values(|p: PointView| p.timestamp)
}

proof fn lemma_point_columns_fit(points: Seq<PointView>, order: Seq<int>)
    ensures
        record_batch::batch_fits(physical_fields(), point_columns(points, order)),
        forall|i: int|
            0 <= i < point_columns(points, order).len() ==> (#[trigger] point_columns(
                points,
                order,
            )[i]).well_typed(),
{
    let fields = physical_fields();
    let columns = point_columns(points, order);
    assert forall|i: int| 0 <= i < columns.len() implies (#[trigger] columns[i]).well_typed()
        && columns[i].cells.len() == order.len() && !record_batch::null_forbidden(
        fields,
        columns,
        i,
    ) && !record_batch::type_differs(fields, columns, i) by {
        if i == 0 {
        } else if i == 1 {
        } else if i == 2 {
        } else if i == 3 {
        } else {
            assert(i == 4);
        }
    }
}

impl Columns {
    /// The batch of the points, sorted by primary key.
    fn finish(self) -> (r: RecordBatch)
        requires
            self.well_formed(),
            self@.len() <= u32::MAX,
        ensures
            is_sorted_batch(self@, r@),
            r@.valid(),
    {
        let ghost points = self@;
        proof {
            self.lemma_key_bytes();
        }
        let Columns {
            encoded_primary_key_array_builder,
            timestamps,
            value,
            timestamp_range: _,
        } = self;
        let mut builder = encoded_primary_key_array_builder;
        let pks = builder.build();
        let num_rows: usize = timestamps.len();
        let indices: Vec<u32> = match sort_to_indices(&pks) {
            Some(indices) => indices,
            None => Vec::new(),
        };
        let ghost order = indices_view(indices@);
        let mut value_cells: Vec<Cell> = Vec::new();
        let mut ts_cells: Vec<Cell> = Vec::new();
        let mut pk_cells: Vec<Cell> = Vec::new();
        let mut sequence_cells: Vec<Cell> = Vec::new();
        let mut op_cells: Vec<Cell> = Vec::new();
        let mut i: usize = 0;
        while i < indices.len()
            invariant
                i <= indices@.len(),
                order == indices_view(indices@),
                row_order::in_range(order, points.len()),
                points.len() == num_rows,
                timestamps@.len() == num_rows,
                value@.len() == num_rows,
                pks@.len() == num_rows,
                forall|k: int|
                    0 <= k < num_rows ==> (#[trigger] points[k]) == (PointView {
                        primary_key: pks@[k]@,
                        value: value@[k],
                        timestamp: timestamps@[k],
                    }),
                value_cells@.len() == i,
                ts_cells@.len() == i,
                pk_cells@.len() == i,
                sequence_cells@.len() == i,
                op_cells@.len() == i,
                forall|k: int|
                    0 <= k < i ==> (#[trigger] value_cells@[k])@ == CellView::Float64(
                        points[order[k]].value,
                    ),
                forall|k: int|
                    0 <= k < i ==> (#[trigger] ts_cells@[k])@ == CellView::Int64(
                        points[order[k]].timestamp,
                    ),
                forall|k: int|
                    0 <= k < i ==> (#[trigger] pk_cells@[k])@ == CellView::Binary(
                        points[order[k]].primary_key,
                    ),
                forall|k: int| 0 <= k < i ==> (#[trigger] sequence_cells@[k])@ == CellView::UInt64(0),
                forall|k: int|
                    0 <= k < i ==> (#[trigger] op_cells@[k])@ == CellView::UInt8(OP_TYPE_PUT),
            decreases indices@.len() - i,
        {
            assert(order[i as int] == indices@[i as int]);
            assert(0 <= order[i as int] < points.len());
            let at: usize = indices[i] as usize;
            assert(points[at as int].value == value@[at as int]);
            value_cells.push(Cell::Float64(value[at]));
            ts_cells.push(Cell::Int64(timestamps[at]));
            let key = vstd::slice::slice_to_vec(pks[at].as_slice());
            pk_cells.push(Cell::Binary(key));
            sequence_cells.push(Cell::UInt64(0));
            op_cells.push(Cell::UInt8(OP_TYPE_PUT));
            i = i + 1;
        }
        let mut columns: Vec<Column> = Vec::new();
        columns.push(Column::new(DataType::Float64, value_cells));
        columns.push(Column::new(DataType::Timestamp(TimeUnit::Millisecond, None), ts_cells));
        columns.push(Column::new(DataType::Binary, pk_cells));
        columns.push(Column::new(DataType::UInt64, sequence_cells));
        columns.push(Column::new(DataType::UInt8, op_cells));
        let ghost expected = point_columns(points, order);
        proof {
            assert(columns@[0]@.cells =~= expected[0].cells);
            assert(columns@[1]@.cells =~= expected[1].cells);
            assert(columns@[2]@.cells =~= expected[2].cells);
            assert(columns@[3]@.cells =~= expected[3].cells);
            assert(columns@[4]@.cells =~= expected[4].cells);
            assert(record_batch::columns_view(columns@) =~= expected);
            lemma_point_columns_fit(points, order);
        }
        let n: usize = indices.len();
        let r = RecordBatch { schema: physical_schema(), columns, num_rows: n };
        assert(r@ == point_batch(points, order));
        r
    }
}

impl BatchEncoder {
    /// The batches of the rows, each sorted by primary key, with the earliest and the
    /// latest time of its points.
    pub fn finish(self) -> (r: Vec<(RecordBatch, (i64, i64))>)
        requires
            self.columns_builder.well_formed(),
            forall|i: int| 0 <= i < self@.len() ==> 0 < (#[trigger] self@[i]).len() <= u32::MAX,
        ensures
            r@.len() == self@.len(),
            forall|i: int|
                0 <= i < r@.len() ==> is_sorted_batch(self@[i], (#[trigger] r@[i]).0@)
                    && r@[i].0@.valid() && range_of(times_of(self@[i])) == Some(r@[i].1),
    {
        let ghost chunks = self@;
        let ghost all = self.columns_builder.columns@;
        let mut rest = self.columns_builder.columns;
        let n: usize = rest.len();
        lists::reverse(&mut rest);
        let mut batches: Vec<(RecordBatch, (i64, i64))> = Vec::new();
        let mut i: usize = 0;
        while i < n
            invariant
                i <= n,
                n == all.len(),
                chunks == chunks_of(all),
                forall|k: int| 0 <= k < all.len() ==> (#[trigger] all[k]).well_formed(),
                forall|k: int| 0 <= k < chunks.len() ==> 0 < (#[trigger] chunks[k]).len() <= u32::MAX,
                rest@.len() == n - i,
                forall|k: int| 0 <= k < rest@.len() ==> #[trigger] rest@[k] == all[n - 1 - k],
                batches@.len() == i,
                forall|k: int|
                    0 <= k < i ==> is_sorted_batch(chunks[k], (#[trigger] batches@[k]).0@)
                        && batches@[k].0@.valid() && range_of(times_of(chunks[k])) == Some(
                        batches@[k].1,
                    ),
            decreases n - i,
        {
            if let Some(columns) = rest.pop() {
                assert(columns == all[i as int]);
                assert(chunks[i as int] == columns@);
                assert(times_of(columns@) =~= columns.timestamps@);
                proof {
                    lemma_range_of(columns.timestamps@);
                }
                let range: (i64, i64) = match columns.timestamp_range {
                    Some(range) => range,
                    None => (0, 0),
                };
                batches.push((columns.finish(), range));
            }
            i = i + 1;
        }
        batches
    }
}

/// A row of a metric becomes a point where its key could be encoded, its value is a
/// floating-point number and its time is in milliseconds: a point with that key, that number, bit
/// by bit, and that time. Else it is told what is wrong: the key first, then the value, then the
/// time.
pub proof fn law_row_becomes_point(row: MetricRow)
    ensures
        row.primary_key matches Ok(key) ==> (row.value.value_data matches Some(
            ValueData::F64Value(v),
        ) ==> (row.timestamp.value_data matches Some(ValueData::TimestampMillisecondValue(t))
            ==> point_of(row@) == Ok::<PointView, AppendErrorView>(
            PointView { primary_key: key@, value: v, timestamp: t },
        ))),
        row.primary_key matches Err(reason) ==> point_of(row@) == Err::<PointView, AppendErrorView>(
            AppendErrorView::EncodePrimaryKey(reason@),
        ),
        row.primary_key is Ok && !(row.value.value_data matches Some(ValueData::F64Value(_)))
            ==> point_of(row@) == Err::<PointView, AppendErrorView>(
            AppendErrorView::InvalidFieldValueType,
        ),
        row.primary_key is Ok && (row.value.value_data matches Some(ValueData::F64Value(_))) && !(
        row.timestamp.value_data matches Some(ValueData::TimestampMillisecondValue(_)))
            ==> point_of(row@) == Err::<PointView, AppendErrorView>(
            AppendErrorView::InvalidTimestampValueType,
        ),
{
}

/// Every point of every chunk is among all points. Gives its place there.
pub proof fn law_all_points_hold(chunks: Seq<Seq<PointView>>, c: int, p: int) -> (at: int)
    requires
        0 <= c < chunks.len(),
        0 <= p < chunks[c].len(),
    ensures
        0 <= at < all_points(chunks).len(),
        all_points(chunks)[at] == chunks[c][p],
    decreases chunks.len(),
{
    let rest = chunks.drop_last();
    if c == chunks.len() - 1 {
        all_points(rest).len() + p
    } else {
        law_all_points_hold(rest, c, p)
    }
}

/// All points are points of chunks. Gives the chunk and the place in it.
pub proof fn law_all_points_are_held(chunks: Seq<Seq<PointView>>, at: int) -> (place: (int, int))
    requires
        0 <= at < all_points(chunks).len(),
    ensures
        0 <= place.0 < chunks.len(),
        0 <= place.1 < chunks[place.0].len(),
        all_points(chunks)[at] == chunks[place.0][place.1],
    decreases chunks.len(),
{
    let rest = chunks.drop_last();
    let before = all_points(rest).len() as int;
    if at < before {
        law_all_points_are_held(rest, at)
    } else {
        (chunks.len() - 1, at - before)
    }
}

/// Where rows were added, each of them is stored: a point with its key, its number, bit by bit,
/// and its time comes after those that were there, at the place that the row has among the rows.
pub proof fn law_added_row_is_held(chunks: Seq<Seq<PointView>>, rows: Seq<MetricRow>, r: int)
    requires
        chunks.len() > 0,
        chunks_append(chunks, rows.map_values(|m: MetricRow| m@)).1 is None,
        0 <= r < rows.len(),
    ensures
        ({
            let after = all_points(chunks_append(chunks, rows.map_values(|m: MetricRow| m@)).0);
            let point = after[all_points(chunks).len() + r];
            &&& after.len() == all_points(chunks).len() + rows.len()
            &&& forall|k: int|
                0 <= k < all_points(chunks).len() ==> #[trigger] after[k] == all_points(chunks)[k]
            &&& rows[r].primary_key matches Ok(key) && point.primary_key == key@
            &&& rows[r].value.value_data == Some(ValueData::F64Value(point.value))
            &&& rows[r].timestamp.value_data == Some(
                ValueData::TimestampMillisecondValue(point.timestamp),
            )
        }),
{
    let views = rows.map_values(|m: MetricRow| m@);
    law_append_keeps_points(chunks, views);
    let points = views.map_values(|r: MetricRowView| point_of(r)->Ok_0);
    assert(point_of(views[r]) is Ok);
    law_row_becomes_point(rows[r]);
    assert((all_points(chunks) + points)[all_points(chunks).len() + r] == points[r]);
}

/// The batch of some points has each of them once, as it is: its number, bit by bit, in the first
/// column, its time in the second and its key in the third. None has a sequence, and all are
/// put. They come in ascending order of their keys. Gives the places of the points, in the order
/// in which the batch has them.
pub proof fn law_sorted_batch_has_points(points: Seq<PointView>, batch: BatchView) -> (order: Seq<
    int,
>)
    requires
        is_sorted_batch(points, batch),
    ensures
        order.len() == points.len(),
        order.no_duplicates(),
        batch.num_rows == points.len(),
        batch.columns.len() == 5,
        forall|c: int| 0 <= c < 5 ==> (#[trigger] batch.columns[c]).cells.len() == points.len(),
        forall|k: int|
            0 <= k < order.len() ==> {
                &&& 0 <= #[trigger] order[k] < points.len()
                &&& batch.columns[0].cells[k] == CellView::Float64(points[order[k]].value)
                &&& batch.columns[1].cells[k] == CellView::Int64(points[order[k]].timestamp)
                &&& batch.columns[2].cells[k] == CellView::Binary(points[order[k]].primary_key)
                &&& batch.columns[3].cells[k] == CellView::UInt64(0)
                &&& batch.columns[4].cells[k] == CellView::UInt8(1)
            },
        forall|i: int| 0 <= i < points.len() ==> #[trigger] order.contains(i),
        forall|i: int, j: int|
            0 <= i < j < order.len() ==> points[#[trigger] order[i]].primary_key
                == points[#[trigger] order[j]].primary_key || text::lex_lt(
                points[order[i]].primary_key,
                points[order[j]].primary_key,
            ),
        batch.fields.len() == 5,
        batch.fields[0].name == "greptime_value"@,
        batch.fields[1].name == "greptime_timestamp"@,
        batch.fields[2].name == "__primary_key"@,
        batch.fields[3].name == "__sequence"@,
        batch.fields[4].name == "__op_type"@,
        batch.fields[0].data_type is Float64,
        batch.fields[1].data_type == TypeView::Timestamp(TimeUnit::Millisecond, None),
        batch.fields[2].data_type is Binary,
        batch.fields[3].data_type is UInt64,
        batch.fields[4].data_type is UInt8,
{
    let keys = keys_of(points);
    let order = choose|order: Seq<int>| #[trigger]
        is_key_order(keys, order) && batch == point_batch(points, order);
    lemma_point_columns_fit(points, order);
    assert forall|i: int| 0 <= i < points.len() implies #[trigger] order.contains(i) by {
        row_order::lemma_order_covers(order, points.len(), i);
    }
    let sorted = order.map_values(|i: int| keys[i]);
    assert forall|i: int, j: int| 0 <= i < j < order.len() implies points[#[trigger] order[i]].primary_key
        == points[#[trigger] order[j]].primary_key || text::lex_lt(
        points[order[i]].primary_key,
        points[order[j]].primary_key,
    ) by {
        assert(sorted[i] == keys[order[i]]);
        assert(sorted[j] == keys[order[j]]);
        assert(0 <= order[i] < points.len() && 0 <= order[j] < points.len());
    }
    order
}

/// The estimated size grows by five bytes for each byte of a point's key, and by sixteen for its
/// time and its number; and what is estimated of columns together is what is estimated of some
/// of them and of the others.
pub proof fn law_estimate_grows(a: Columns, b: Columns, some: Seq<Columns>, others: Seq<Columns>)
    requires
        a.well_formed(),
        b.well_formed(),
    ensures
        b@.len() == a@.len() + 1 && b@.drop_last() == a@ ==> b.estimated() == a.estimated() + 5
            * b@.last().primary_key.len() + 16,
        a@.len() == 0 && b@.len() == 0 ==> a.estimated() == b.estimated(),
        estimated_sum(some + others) == estimated_sum(some) + estimated_sum(others),
        estimated_sum(seq![a]) == a.estimated(),
    decreases others.len(),
{
    reveal_with_fuel(estimated_sum, 2);
    reveal_with_fuel(arrow_builders::total_len, 2);
    a.lemma_key_bytes();
    b.lemma_key_bytes();
    assert(seq![a].drop_last() =~= Seq::<Columns>::empty());
    if b@.len() == a@.len() + 1 && b@.drop_last() == a@ {
        assert(keys_of(b@).drop_last() =~= keys_of(a@));
        assert(keys_of(b@).last() == b@.last().primary_key);
    }
    if others.len() == 0 {
        assert(some + others =~= some);
    } else {
        law_estimate_grows(a, b, some, others.drop_last());
        assert((some + others).drop_last() =~= some + others.drop_last());
        assert((some + others).last() == others.last());
    }
}

/// A point begins a new chunk exactly where the points of the last chunk and the bytes of its key
/// are together no less than the largest `i32`; it comes last, and all chunks but the last are
/// left as they are.
pub proof fn law_point_comes_last(chunks: Seq<Seq<PointView>>, point: PointView)
    requires
        chunks.len() > 0,
    ensures
        ({
            let after = chunks_push(chunks, point);
            let full = chunks.last().len() + point.primary_key.len() >= 0x7fff_ffff;
            &&& after.last().len() > 0
            &&& after.last().last() == point
            &&& full ==> after.len() == chunks.len() + 1 && after.last().len() == 1
                && after.drop_last() == chunks
            &&& !full ==> after.len() == chunks.len() && after.last().drop_last() == chunks.last()
            &&& forall|c: int| 0 <= c < chunks.len() - 1 ==> #[trigger] after[c] == chunks[c]
        }),
{
    let after = chunks_push(chunks, point);
    if chunk_full(chunks.last(), point.primary_key) {
        assert(after.drop_last() =~= chunks);
    } else {
        assert(after.last().drop_last() =~= chunks.last());
    }
}

/// The times between which points lie are times of points, and no point is outside them.
pub proof fn law_range_bounds_points(points: Seq<PointView>) -> (r: (int, int))
    requires
        points.len() > 0,
    ensures
        range_of(times_of(points)) matches Some((min, max)) && 0 <= r.0 < points.len() && 0 <= r.1
            < points.len() && points[r.0].timestamp == min && points[r.1].timestamp == max
            && forall|i: int|
            0 <= i < points.len() ==> min <= (#[trigger] points[i]).timestamp <= max,
{
    let times = times_of(points);
    lemma_range_of(times);
    let (min, max) = range_of(times)->0;
    let first = choose|i: int| 0 <= i < times.len() && times[i] == min;
    let last = choose|i: int| 0 <= i < times.len() && times[i] == max;
    assert forall|i: int| 0 <= i < points.len() implies min <= (#[trigger] points[i]).timestamp
        <= max by {
        assert(times[i] == points[i].timestamp);
    }
    (first, last)
}

/// Rows that were added are in the batches of the encoder: each in one, with its key, its time and
/// its number bit by bit. Gives the batch and the row of it.
pub proof fn law_added_row_is_in_a_batch(
    encoder: &mut BatchEncoder,
    after: BatchEncoder,
    rows: Vec<MetricRow>,
    batches: Vec<(RecordBatch, (i64, i64))>,
    r: int,
) -> (place: (int, int))
    requires
        old(encoder).columns_builder.well_formed(),
        call_ensures(BatchEncoder::append_rows, (encoder, &rows), Ok(())),
        *final(encoder) == after,
        call_ensures(BatchEncoder::finish, (after,), batches),
        0 <= r < rows@.len(),
    ensures
        0 <= place.0 < batches@.len(),
        ({
            let (batch, range) = batches@[place.0];
            let row = rows@[r];
            &&& 0 <= place.1 < batch@.num_rows
            &&& batch@.columns.len() == 5
            &&& row.value.value_data matches Some(ValueData::F64Value(bits))
                && batch@.columns[0].cells[place.1] == CellView::Float64(bits)
            &&& row.timestamp.value_data matches Some(ValueData::TimestampMillisecondValue(t))
                && batch@.columns[1].cells[place.1] == CellView::Int64(t) && range.0 <= t
                <= range.1
            &&& row.primary_key matches Ok(key) && batch@.columns[2].cells[place.1]
                == CellView::Binary(key@)
            &&& batch@.columns[4].cells[place.1] == CellView::UInt8(1)
        }),
{
    let chunks = old(encoder)@;
    law_added_row_is_held(chunks, rows@, r);
    let at = all_points(chunks).len() + r;
    let held = law_all_points_are_held(after@, at);
    let points = after@[held.0];
    assert(is_sorted_batch(points, batches@[held.0].0@));
    let order = law_sorted_batch_has_points(points, batches@[held.0].0@);
    assert(order.contains(held.1));
    let k = choose|k: int| 0 <= k < order.len() && order[k] == held.1;
    assert(0 <= order[k] < points.len());
    let bounds = law_range_bounds_points(points);
    assert(points[held.1].timestamp == points[held.1].timestamp);
    (held.0, k)
}

/// The schema of the batches that points are written in: the value, the time, the key, the sequence
/// and the kind of operation, none of which is ever null.
pub proof fn law_physical_schema(r: Schema)
    requires
        call_ensures(physical_schema, (), r),
    ensures
        r@.len() == 5,
        forall|c: int| 0 <= c < 5 ==> !(#[trigger] r@[c]).nullable,
        r@[0].name == "greptime_value"@,
        r@[0].data_type is Float64,
        r@[1].name == "greptime_timestamp"@,
        r@[1].data_type == TypeView::Timestamp(TimeUnit::Millisecond, None),
        r@[2].name == "__primary_key"@,
        r@[2].data_type is Binary,
        r@[3].name == "__sequence"@,
        r@[3].data_type is UInt64,
        r@[4].name == "__op_type"@,
        r@[4].data_type is UInt8,
{
}

} // verus!

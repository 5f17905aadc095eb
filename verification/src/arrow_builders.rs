//! The arrow array builders that columns are collected in.
//!
//! arrow's builders of primitive arrays are one generic type over the value's
//! type. An `Int64Builder` collects the timestamps of every unit, whose values are
//! `i64`, and a `UInt64Builder` the floating-point values, by their bits; the
//! column that is built says what its values stand for.

use arrow::array::{
    BinaryBuilder, BufferBuilder, Int64Builder, StringBuilder, UInt64Builder, UInt8BufferBuilder,
};
use vstd::prelude::*;

verus! {

/// arrow's `Int64Builder`.
#[verifier::external_body]
pub struct Int64Cells {
    inner: Int64Builder,
}

/// arrow's `UInt64Builder`.
#[verifier::external_body]
pub struct UInt64Cells {
    inner: UInt64Builder,
}

/// arrow's `StringBuilder`.
#[verifier::external_body]
pub struct StringCells {
    inner: StringBuilder,
}

/// arrow's `BinaryBuilder`.
#[verifier::external_body]
pub struct BinaryCells {
    inner: BinaryBuilder,
}

/// arrow's `BufferBuilder` of bytes.
#[derive(Debug)]
#[verifier::external_body]
pub struct ByteBuffer {
    inner: UInt8BufferBuilder,
}

/// arrow's `BufferBuilder` of `i32`.
#[derive(Debug)]
#[verifier::external_body]
pub struct OffsetBuffer {
    inner: BufferBuilder<i32>,
}

/// What a `BufferBuilder` of bytes holds: the bytes appended so far.
pub uninterp spec fn buffer_bytes(b: ByteBuffer) -> Seq<u8>;

/// What a `BufferBuilder` of `i32` holds: the numbers appended so far.
pub uninterp spec fn buffer_offsets(b: OffsetBuffer) -> Seq<i32>;

/// What an `Int64Builder` holds: the values appended so far, `None` for a null.
pub uninterp spec fn int64_cells(b: Int64Cells) -> Seq<Option<i64>>;

/// What a `UInt64Builder` holds: the values appended so far, `None` for a null.
pub uninterp spec fn uint64_cells(b: UInt64Cells) -> Seq<Option<u64>>;

/// What a `StringBuilder` holds: the strings appended so far, `None` for a null.
pub uninterp spec fn string_cells(b: StringCells) -> Seq<Option<Seq<char>>>;

/// What a `BinaryBuilder` that was given no null holds: the byte strings appended so far.
pub uninterp spec fn binary_cells(b: BinaryCells) -> Seq<Seq<u8>>;

/// The length of all byte strings together.
pub open spec fn total_len(values: Seq<Seq<u8>>) -> nat
    decreases values.len(),
{
    if values.len() == 0 {
        0
    } else {
        total_len(values.drop_last()) + values.last().len()
    }
}

/// Fewer byte strings are no longer together.
pub proof fn lemma_total_len_prefix(values: Seq<Seq<u8>>, n: int)
    requires
        0 <= n <= values.len(),
    ensures
        total_len(values.take(n)) <= total_len(values),
    decreases values.len() - n,
{
    if n < values.len() {
        lemma_total_len_prefix(values, n + 1);
        assert(values.take(n + 1).drop_last() =~= values.take(n));
    } else {
        assert(values.take(n) =~= values);
    }
}

/// The length together does not depend on where one byte string stands.
pub proof fn lemma_total_len_remove(values: Seq<Seq<u8>>, i: int)
    requires
        0 <= i < values.len(),
    ensures
        total_len(values) == total_len(values.remove(i)) + values[i].len(),
    decreases values.len(),
{
    if i == values.len() - 1 {
        assert(values.remove(i) =~= values.drop_last());
    } else {
        lemma_total_len_remove(values.drop_last(), i);
        assert(values.remove(i).drop_last() =~= values.drop_last().remove(i));
        assert(values.remove(i).last() == values.last());
    }
}

/// Byte strings picked from a list, each at most once, are no longer together than all.
pub proof fn lemma_total_len_picked(values: Seq<Seq<u8>>, picks: Seq<int>)
    requires
        picks.no_duplicates(),
        forall|k: int| 0 <= k < picks.len() ==> 0 <= #[trigger] picks[k] < values.len(),
    ensures
        total_len(picks.map_values(|i: int| values[i])) <= total_len(values),
    decreases values.len(),
{
    let picked = picks.map_values(|i: int| values[i]);
    if values.len() == 0 {
        if picks.len() > 0 {
            assert(0 <= picks[0] < values.len());
        }
    } else {
        let rest = values.drop_last();
        let n = values.len() - 1;
        if picks.contains(n) {
            let at = choose|at: int| 0 <= at < picks.len() && picks[at] == n;
            let fewer = picks.remove(at);
            assert forall|k: int| 0 <= k < fewer.len() implies 0 <= #[trigger] fewer[k]
                < rest.len() by {
                if k < at {
                    assert(fewer[k] == picks[k]);
                } else {
                    assert(fewer[k] == picks[k + 1]);
                }
            }
            lemma_total_len_picked(rest, fewer);
            lemma_total_len_remove(picked, at);
            assert(picked.remove(at) =~= fewer.map_values(|i: int| rest[i]));
        } else {
            assert forall|k: int| 0 <= k < picks.len() implies 0 <= #[trigger] picks[k]
                < rest.len() by {
                assert(picks.contains(picks[k]));
            }
            lemma_total_len_picked(rest, picks);
            assert(picked =~= picks.map_values(|i: int| rest[i]));
        }
    }
}

/// The length of a string in UTF-8; none for a null.
pub open spec fn cell_bytes(cell: Option<Seq<char>>) -> nat {
    match cell {
        Some(s) => vstd::utf8::encode_utf8(s).len(),
        None => 0,
    }
}

/// The length of all the strings of a column together, in UTF-8.
pub open spec fn total_bytes(cells: Seq<Option<Seq<char>>>) -> nat
    decreases cells.len(),
{
    if cells.len() == 0 {
        0
    } else {
        total_bytes(cells.drop_last()) + cell_bytes(cells.last())
    }
}

/// `Int64Builder::new`: a builder that holds nothing.
#[verifier::external_body]
pub(crate) fn int64_new() -> (b: Int64Cells)
    ensures
        int64_cells(b) == Seq::<Option<i64>>::empty(),
{
    Int64Cells { inner: Int64Builder::new() }
}

/// `Int64Builder::append_value`: one value more, at the end.
#[verifier::external_body]
pub(crate) fn int64_append_value(b: &mut Int64Cells, v: i64)
    ensures
        int64_cells(*final(b)) == int64_cells(*old(b)).push(Some(v)),
{
    b.inner.append_value(v)
}

/// `Int64Builder::append_null`: one null more, at the end.
#[verifier::external_body]
pub(crate) fn int64_append_null(b: &mut Int64Cells)
    ensures
        int64_cells(*final(b)) == int64_cells(*old(b)).push(None),
{
    b.inner.append_null()
}

/// `Int64Builder::finish`: the array of what the builder holds, in order.
#[verifier::external_body]
pub(crate) fn int64_finish(b: Int64Cells) -> (cells: Vec<Option<i64>>)
    ensures
        cells@ == int64_cells(b),
{
    let mut b = b;
    b.inner.finish().iter().collect()
}

/// `UInt64Builder::new`: a builder that holds nothing.
#[verifier::external_body]
pub(crate) fn uint64_new() -> (b: UInt64Cells)
    ensures
        uint64_cells(b) == Seq::<Option<u64>>::empty(),
{
    UInt64Cells { inner: UInt64Builder::new() }
}

/// `UInt64Builder::append_value`: one value more, at the end.
#[verifier::external_body]
pub(crate) fn uint64_append_value(b: &mut UInt64Cells, v: u64)
    ensures
        uint64_cells(*final(b)) == uint64_cells(*old(b)).push(Some(v)),
{
    b.inner.append_value(v)
}

/// `UInt64Builder::append_null`: one null more, at the end.
#[verifier::external_body]
pub(crate) fn uint64_append_null(b: &mut UInt64Cells)
    ensures
        uint64_cells(*final(b)) == uint64_cells(*old(b)).push(None),
{
    b.inner.append_null()
}

/// `UInt64Builder::finish`: the array of what the builder holds, in order.
#[verifier::external_body]
pub(crate) fn uint64_finish(b: UInt64Cells) -> (cells: Vec<Option<u64>>)
    ensures
        cells@ == uint64_cells(b),
{
    let mut b = b;
    b.inner.finish().iter().collect()
}

/// `StringBuilder::new`: a builder that holds nothing.
#[verifier::external_body]
pub(crate) fn string_new() -> (b: StringCells)
    ensures
        string_cells(b) == Seq::<Option<Seq<char>>>::empty(),
{
    StringCells { inner: StringBuilder::new() }
}

/// `StringBuilder::append_value`: one string more, at the end. It panics once the
/// strings come to more bytes than an `i32` can count.
#[verifier::external_body]
pub(crate) fn string_append_value(b: &mut StringCells, v: &str)
    requires
        total_bytes(string_cells(*old(b))) + vstd::utf8::encode_utf8(v@).len() <= i32::MAX,
    ensures
        string_cells(*final(b)) == string_cells(*old(b)).push(Some(v@)),
{
    b.inner.append_value(v)
}

/// `StringBuilder::append_null`: one null more, at the end.
#[verifier::external_body]
pub(crate) fn string_append_null(b: &mut StringCells)
    ensures
        string_cells(*final(b)) == string_cells(*old(b)).push(None),
{
    b.inner.append_null()
}

/// `StringBuilder::finish`: the array of what the builder holds, in order.
#[verifier::external_body]
pub(crate) fn string_finish(b: StringCells) -> (cells: Vec<Option<String>>)
    ensures
        cells@.len() == string_cells(b).len(),
        forall|i: int|
            0 <= i < cells@.len() ==> (match #[trigger] cells@[i] {
                Some(s) => string_cells(b)[i] == Some(s@),
                None => string_cells(b)[i] is None,
            }),
{
    let mut b = b;
    b.inner.finish().iter().map(|s| s.map(str::to_string)).collect()
}

/// `BinaryBuilder::new`: a builder that holds nothing.
#[verifier::external_body]
pub(crate) fn binary_new() -> (b: BinaryCells)
    ensures
        binary_cells(b) == Seq::<Seq<u8>>::empty(),
{
    BinaryCells { inner: BinaryBuilder::new() }
}

/// `BinaryBuilder::append_value`: one byte string more, at the end. It panics once the
/// byte strings come to more bytes than an `i32` can count.
#[verifier::external_body]
pub(crate) fn binary_append_value(b: &mut BinaryCells, v: &[u8])
    requires
        total_len(binary_cells(*old(b))) + v@.len() <= i32::MAX,
    ensures
        binary_cells(*final(b)) == binary_cells(*old(b)).push(v@),
{
    b.inner.append_value(v)
}

/// `BinaryBuilder::finish`: the array of what the builder holds, in order.
#[verifier::external_body]
pub(crate) fn binary_finish(b: BinaryCells) -> (values: Vec<Vec<u8>>)
    ensures
        byte_strings(values@) == binary_cells(b),
{
    let mut b = b;
    b.inner.finish().iter().map(|v| v.map(<[u8]>::to_vec).unwrap_or_default()).collect()
}

/// What a list of byte strings holds.
pub open spec fn byte_strings(values: Seq<Vec<u8>>) -> Seq<Seq<u8>> {
    values.map_values(|v: Vec<u8>| v@)
}

/// `BufferBuilder::new`, of bytes: a builder that holds nothing, with room for the given number.
/// It panics where the room, rounded up to the allocator's alignment, cannot be asked for.
#[verifier::external_body]
pub(crate) fn byte_buffer_new(capacity: usize) -> (b: ByteBuffer)
    requires
        capacity + 256 <= isize::MAX,
    ensures
        buffer_bytes(b) == Seq::<u8>::empty(),
{
    ByteBuffer { inner: UInt8BufferBuilder::new(capacity) }
}

/// `BufferBuilder::append_slice`, of bytes: the bytes, at the end.
#[verifier::external_body]
pub(crate) fn byte_buffer_append_slice(b: &mut ByteBuffer, bytes: &[u8])
    ensures
        buffer_bytes(*final(b)) == buffer_bytes(*old(b)) + bytes@,
{
    b.inner.append_slice(bytes)
}

/// `BufferBuilder::len`, of bytes: how many the builder holds.
#[verifier::external_body]
pub(crate) fn byte_buffer_len(b: &ByteBuffer) -> (r: usize)
    ensures
        r == buffer_bytes(*b).len(),
{
    b.inner.len()
}

/// `BufferBuilder::reserve`, of bytes: what the builder holds stays. How much memory is then
/// allocated is left unsaid. It panics where the room, rounded up to the allocator's alignment,
/// cannot be asked for.
#[verifier::external_body]
pub(crate) fn byte_buffer_reserve(b: &mut ByteBuffer, additional: usize)
    requires
        buffer_bytes(*old(b)).len() + additional + 256 <= isize::MAX,
    ensures
        buffer_bytes(*final(b)) == buffer_bytes(*old(b)),
{
    b.inner.reserve(additional)
}

/// `BufferBuilder::finish`, of bytes: the bytes that the builder holds, which then holds none.
#[verifier::external_body]
pub(crate) fn byte_buffer_finish(b: &mut ByteBuffer) -> (r: Vec<u8>)
    ensures
        r@ == buffer_bytes(*old(b)),
        buffer_bytes(*final(b)) == Seq::<u8>::empty(),
{
    b.inner.finish().as_slice().to_vec()
}

/// `BufferBuilder::new`, of `i32`: a builder that holds nothing, with room for the given number.
/// It panics where the room, rounded up to the allocator's alignment, cannot be asked for.
#[verifier::external_body]
pub(crate) fn offset_buffer_new(capacity: usize) -> (b: OffsetBuffer)
    requires
        4 * capacity + 256 <= isize::MAX,
    ensures
        buffer_offsets(b) == Seq::<i32>::empty(),
{
    OffsetBuffer { inner: BufferBuilder::<i32>::new(capacity) }
}

/// `BufferBuilder::append`, of `i32`: the number, at the end.
#[verifier::external_body]
pub(crate) fn offset_buffer_append(b: &mut OffsetBuffer, v: i32)
    ensures
        buffer_offsets(*final(b)) == buffer_offsets(*old(b)).push(v),
{
    b.inner.append(v)
}

/// `BufferBuilder::len`, of `i32`: how many numbers the builder holds.
#[verifier::external_body]
pub(crate) fn offset_buffer_len(b: &OffsetBuffer) -> (r: usize)
    ensures
        r == buffer_offsets(*b).len(),
{
    b.inner.len()
}

/// `BufferBuilder::reserve`, of `i32`: what the builder holds stays. How much memory is then
/// allocated is left unsaid. It panics where the room, rounded up to the allocator's alignment,
/// cannot be asked for.
#[verifier::external_body]
pub(crate) fn offset_buffer_reserve(b: &mut OffsetBuffer, additional: usize)
    requires
        4 * (buffer_offsets(*old(b)).len() + additional) + 256 <= isize::MAX,
    ensures
        buffer_offsets(*final(b)) == buffer_offsets(*old(b)),
{
    b.inner.reserve(additional)
}

/// `BufferBuilder::finish`, of `i32`: the numbers that the builder holds, which then holds none.
#[verifier::external_body]
pub(crate) fn offset_buffer_finish(b: &mut OffsetBuffer) -> (r: Vec<i32>)
    ensures
        r@ == buffer_offsets(*old(b)),
        buffer_offsets(*final(b)) == Seq::<i32>::empty(),
{
    b.inner.finish().typed_data::<i32>().to_vec()
}

} // verus!

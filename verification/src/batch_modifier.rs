//! Turns batches of a metric's rows into batches with encoded primary keys.

use std::hash::Hasher;

use fxhash::FxHasher;
use vstd::prelude::*;
use vstd::utf8::encode_utf8;

use crate::arrow_builders;
use crate::record_batch;
use crate::record_batch::{
    BatchError, BatchView, Cell, CellView, Column, ColumnView, DataType, Field, FieldView,
    RecordBatch, Schema, TypeView,
};

verus! {

/// The name of the column that holds encoded primary keys.
pub const PRIMARY_KEY_COLUMN_NAME: &'static str = "__primary_key";

/// Info about a tag column for the identifiers of time series and for the encoding of
/// sparse primary keys.
#[derive(Debug)]
pub struct TagColumnInfo {
    /// Column name, which goes into the hash of the label names.
    pub name: String,
    /// Column index in the record batch.
    pub index: usize,
    /// Column identifier in the physical region.
    pub column_id: u32,
}

/// What is fed to a hasher.
pub enum HashInput {
    Bytes(Seq<u8>),
    U8(u8),
    U64(u64),
}

/// `FxHasher` of fxhash.
#[verifier::external_type_specification]
#[verifier::external_body]
pub struct ExFxHasher(FxHasher);

/// What a hasher has been fed so far.
pub uninterp spec fn fx_fed(hasher: FxHasher) -> Seq<HashInput>;

/// Whether a hasher reads the bytes of a word from the lowest to the highest, as the
/// machine does.
pub uninterp spec fn fx_little_endian(hasher: FxHasher) -> bool;

/// The hash of what was fed to a hasher, on a machine of the given word length and byte
/// order.
pub uninterp spec fn fx_hash(bits: nat, little_endian: bool, fed: Seq<HashInput>) -> u64;

/// `FxHasher::default`: a hasher that was fed nothing.
#[verifier::external_body]
fn fx_default() -> (hasher: FxHasher)
    ensures
        fx_fed(hasher) == Seq::<HashInput>::empty(),
{
    FxHasher::default()
}

/// `FxHasher::clone`: a hasher that was fed the same, on the same machine.
#[verifier::external_body]
fn fx_clone(hasher: &FxHasher) -> (r: FxHasher)
    ensures
        fx_fed(r) == fx_fed(*hasher),
        fx_little_endian(r) == fx_little_endian(*hasher),
{
    hasher.clone()
}

/// `FxHasher::write`: feeds bytes.
#[verifier::external_body]
fn fx_write(hasher: &mut FxHasher, bytes: &[u8])
    ensures
        fx_fed(*final(hasher)) == fx_fed(*old(hasher)).push(HashInput::Bytes(bytes@)),
        fx_little_endian(*final(hasher)) == fx_little_endian(*old(hasher)),
{
    hasher.write(bytes)
}

/// `FxHasher::write_u8`: feeds one byte.
#[verifier::external_body]
fn fx_write_u8(hasher: &mut FxHasher, v: u8)
    ensures
        fx_fed(*final(hasher)) == fx_fed(*old(hasher)).push(HashInput::U8(v)),
        fx_little_endian(*final(hasher)) == fx_little_endian(*old(hasher)),
{
    hasher.write_u8(v)
}

/// `FxHasher::write_u64`: feeds a number of 64 bits.
#[verifier::external_body]
fn fx_write_u64(hasher: &mut FxHasher, v: u64)
    ensures
        fx_fed(*final(hasher)) == fx_fed(*old(hasher)).push(HashInput::U64(v)),
        fx_little_endian(*final(hasher)) == fx_little_endian(*old(hasher)),
{
    hasher.write_u64(v)
}

/// `FxHasher::finish`: the hash of what was fed. It depends on the machine's word length
/// and, as words are read in the machine's byte order, on that.
#[verifier::external_body]
fn fx_finish(hasher: &FxHasher) -> (r: u64)
    ensures
        r == fx_hash(usize::BITS as nat, fx_little_endian(*hasher), fx_fed(*hasher)),
{
    hasher.finish()
}

/// What is fed for the names of the labels that a row has.
pub open spec fn fed_names(names: Seq<Seq<char>>, values: Seq<Option<Seq<char>>>) -> Seq<HashInput>
    decreases names.len(),
{
    if names.len() == 0 {
        Seq::empty()
    } else {
        let before = fed_names(names.drop_last(), values);
        match values[names.len() - 1] {
            Some(_) => before.push(HashInput::Bytes(encode_utf8(names.last()))).push(
                HashInput::U8(0xff),
            ),
            None => before,
        }
    }
}

/// What is fed for the values of the labels that a row has, after `first`.
pub open spec fn fed_values(first: u64, values: Seq<Option<Seq<char>>>) -> Seq<HashInput>
    decreases values.len(),
{
    if values.len() == 0 {
        seq![HashInput::U64(first)]
    } else {
        let before = fed_values(first, values.drop_last());
        match values.last() {
            Some(value) => before.push(HashInput::Bytes(encode_utf8(value))).push(
                HashInput::U8(0xff),
            ),
            None => before,
        }
    }
}

/// The identifier of the time series that a row belongs to: the hash of the values of its
/// labels after the hash of their names. Labels that the row has not count for nothing.
pub open spec fn tsid(
    little_endian: bool,
    names: Seq<Seq<char>>,
    values: Seq<Option<Seq<char>>>,
) -> u64 {
    let bits = usize::BITS as nat;
    fx_hash(
        bits,
        little_endian,
        fed_values(fx_hash(bits, little_endian, fed_names(names, values)), values),
    )
}

/// The names of tag columns.
pub open spec fn tag_names(tags: Seq<TagColumnInfo>) -> Seq<Seq<char>> {
    tags.map_values(|t: TagColumnInfo| t.name@)
}

/// The text of a cell.
pub open spec fn cell_text(cell: CellView) -> Option<Seq<char>> {
    match cell {
        CellView::Utf8(s) => Some(s),
        _ => None,
    }
}

/// The values of the labels of a row.
pub open spec fn label_values(columns: Seq<ColumnView>, row: int) -> Seq<Option<Seq<char>>> {
    columns.map_values(|c: ColumnView| cell_text(c.cells[row]))
}

/// The columns hold text for `n` rows.
pub open spec fn are_text(columns: Seq<ColumnView>, n: nat) -> bool {
    forall|i: int|
        0 <= i < columns.len() ==> (#[trigger] columns[i]).data_type is Utf8
            && columns[i].well_typed() && columns[i].cells.len() == n
}

/// The columns behind references.
pub open spec fn column_refs(columns: Seq<&Column>) -> Seq<ColumnView> {
    columns.map_values(|c: &Column| c@)
}

/// `tsids` are the identifiers of the time series of the rows, on a machine of the given
/// byte order.
pub open spec fn are_tsids(
    little_endian: bool,
    names: Seq<Seq<char>>,
    columns: Seq<ColumnView>,
    tsids: Seq<u64>,
) -> bool {
    forall|row: int|
        0 <= row < tsids.len() ==> #[trigger] tsids[row] == tsid(
            little_endian,
            names,
            label_values(columns, row),
        )
}

proof fn lemma_fed_names_same(
    names: Seq<Seq<char>>,
    a: Seq<Option<Seq<char>>>,
    b: Seq<Option<Seq<char>>>,
)
    requires
        names.len() <= a.len(),
        names.len() <= b.len(),
        forall|i: int| 0 <= i < names.len() ==> (#[trigger] a[i] is Some <==> b[i] is Some),
    ensures
        fed_names(names, a) == fed_names(names, b),
    decreases names.len(),
{
    if names.len() > 0 {
        lemma_fed_names_same(names.drop_last(), a, b);
        assert(a[names.len() - 1] is Some <==> b[names.len() - 1] is Some);
    }
}

/// The hash of the names of the labels that a row has.
fn hash_names(
    start: &FxHasher,
    tags: &Vec<TagColumnInfo>,
    present: &Vec<bool>,
    Ghost(values): Ghost<Seq<Option<Seq<char>>>>,
) -> (r: u64)
    requires
        fx_fed(*start) == Seq::<HashInput>::empty(),
        present@.len() == tags@.len(),
        values.len() == tags@.len(),
        forall|i: int| 0 <= i < values.len() ==> (#[trigger] present@[i] <==> values[i] is Some),
    ensures
        r == fx_hash(
            usize::BITS as nat,
            fx_little_endian(*start),
            fed_names(tag_names(tags@), values),
        ),
{
    let ghost names = tag_names(tags@);
    let mut hasher = fx_clone(start);
    let mut i: usize = 0;
    assert(names.take(0) =~= Seq::<Seq<char>>::empty());
    while i < tags.len()
        invariant
            i <= tags@.len(),
            names == tag_names(tags@),
            present@.len() == tags@.len(),
            values.len() == tags@.len(),
            forall|k: int|
                0 <= k < values.len() ==> (#[trigger] present@[k] <==> values[k] is Some),
            fx_little_endian(hasher) == fx_little_endian(*start),
            fx_fed(hasher) == fed_names(names.take(i as int), values),
        decreases tags@.len() - i,
    {
        assert(names.take(i + 1).drop_last() =~= names.take(i as int));
        assert(names.take(i + 1).last() == tags@[i as int].name@);
        assert(present@[i as int] <==> values[i as int] is Some);
        if present[i] {
            fx_write(&mut hasher, tags[i].name.as_str().as_bytes());
            fx_write_u8(&mut hasher, 0xff);
        }
        i = i + 1;
    }
    assert(names.take(i as int) =~= names);
    fx_finish(&hasher)
}

/// Computes the identifiers of the time series of rows from their labels.
pub fn compute_tsid_from_arrays(
    tag_arrays: &Vec<&Column>,
    sorted_tag_columns: &Vec<TagColumnInfo>,
    num_rows: usize,
) -> (r: Vec<u64>)
    requires
        tag_arrays@.len() == sorted_tag_columns@.len(),
        are_text(column_refs(tag_arrays@), num_rows as nat),
    ensures
        r@.len() == num_rows,
        exists|little_endian: bool| #[trigger]
            are_tsids(
                little_endian,
                tag_names(sorted_tag_columns@),
                column_refs(tag_arrays@),
                r@,
            ),
{
    let start = new_hasher();
    tsids_by(&start, tag_arrays, sorted_tag_columns, num_rows)
}

/// A hasher that was fed nothing. It reads words in the byte order of the machine.
pub fn new_hasher() -> (r: FxHasher)
    ensures
        fx_fed(r) == Seq::<HashInput>::empty(),
{
    fx_default()
}

/// Computes the identifiers of the time series of rows from their labels, as a hasher that was
/// fed nothing hashes. Those that one hasher gives can be compared, as their byte order is the
/// same.
pub fn tsids_by(
    start: &FxHasher,
    tag_arrays: &Vec<&Column>,
    sorted_tag_columns: &Vec<TagColumnInfo>,
    num_rows: usize,
) -> (r: Vec<u64>)
    requires
        fx_fed(*start) == Seq::<HashInput>::empty(),
        tag_arrays@.len() == sorted_tag_columns@.len(),
        are_text(column_refs(tag_arrays@), num_rows as nat),
    ensures
        r@.len() == num_rows,
        are_tsids(
            fx_little_endian(*start),
            tag_names(sorted_tag_columns@),
            column_refs(tag_arrays@),
            r@,
        ),
{
    let ghost names = tag_names(sorted_tag_columns@);
    let ghost columns = column_refs(tag_arrays@);
    let ghost order = fx_little_endian(*start);
    let ghost all_given = Seq::new(names.len(), |i: int| Some(Seq::<char>::empty()));
    let mut all_present: Vec<bool> = Vec::new();
    let mut t: usize = 0;
    while t < sorted_tag_columns.len()
        invariant
            t <= sorted_tag_columns@.len(),
            all_present@.len() == t,
            forall|i: int| 0 <= i < t ==> #[trigger] all_present@[i],
        decreases sorted_tag_columns@.len() - t,
    {
        all_present.push(true);
        t = t + 1;
    }
    let label_name_hash: u64 = hash_names(
        start,
        sorted_tag_columns,
        &all_present,
        Ghost(all_given),
    );
    let mut tsids: Vec<u64> = Vec::new();
    let mut row: usize = 0;
    while row < num_rows
        invariant
            row <= num_rows,
            names == tag_names(sorted_tag_columns@),
            columns == column_refs(tag_arrays@),
            tag_arrays@.len() == sorted_tag_columns@.len(),
            are_text(columns, num_rows as nat),
            fx_fed(*start) == Seq::<HashInput>::empty(),
            order == fx_little_endian(*start),
            all_given == Seq::new(names.len(), |i: int| Some(Seq::<char>::empty())),
            label_name_hash == fx_hash(
                usize::BITS as nat,
                order,
                fed_names(names, all_given),
            ),
            tsids@.len() == row,
            forall|k: int|
                0 <= k < row ==> #[trigger] tsids@[k] == tsid(
                    order,
                    names,
                    label_values(columns, k),
                ),
        decreases num_rows - row,
    {
        let ghost values = label_values(columns, row as int);
        let mut present: Vec<bool> = Vec::new();
        let mut has_null: bool = false;
        let mut i: usize = 0;
        while i < tag_arrays.len()
            invariant
                i <= tag_arrays@.len(),
                row < num_rows,
                columns == column_refs(tag_arrays@),
                are_text(columns, num_rows as nat),
                values == label_values(columns, row as int),
                present@.len() == i,
                forall|k: int| 0 <= k < i ==> (#[trigger] present@[k] <==> values[k] is Some),
                has_null <==> exists|k: int| 0 <= k < i && #[trigger] values[k] is None,
            decreases tag_arrays@.len() - i,
        {
            assert(columns[i as int] == tag_arrays@[i as int]@);
            assert(columns[i as int].cells[row as int] == tag_arrays@[i as int].cells@[row as int]@);
            let is_null: bool = match &tag_arrays[i].cells[row] {
                Cell::Utf8(_) => false,
                _ => true,
            };
            assert(is_null <==> values[i as int] is None);
            present.push(!is_null);
            if is_null {
                has_null = true;
            }
            i = i + 1;
        }
        let row_label_hash: u64 = if !has_null {
            proof {
                assert forall|k: int| 0 <= k < names.len() implies (#[trigger] all_given[k] is Some
                    <==> values[k] is Some) by {
                    if values[k] is None {
                        assert(has_null);
                    }
                }
                lemma_fed_names_same(names, all_given, values);
            }
            label_name_hash
        } else {
            hash_names(start, sorted_tag_columns, &present, Ghost(values))
        };
        let mut hasher = fx_clone(start);
        fx_write_u64(&mut hasher, row_label_hash);
        assert(values.take(0) =~= Seq::<Option<Seq<char>>>::empty());
        assert(fx_fed(hasher) =~= fed_values(row_label_hash, values.take(0)));
        let mut v: usize = 0;
        while v < tag_arrays.len()
            invariant
                v <= tag_arrays@.len(),
                row < num_rows,
                columns == column_refs(tag_arrays@),
                are_text(columns, num_rows as nat),
                values == label_values(columns, row as int),
                fx_little_endian(hasher) == order,
                fx_fed(hasher) == fed_values(row_label_hash, values.take(v as int)),
            decreases tag_arrays@.len() - v,
        {
            assert(columns[v as int] == tag_arrays@[v as int]@);
            assert(columns[v as int].cells[row as int] == tag_arrays@[v as int].cells@[row as int]@);
            assert(values.take(v + 1).drop_last() =~= values.take(v as int));
            assert(values.take(v + 1).last() == values[v as int]);
            if let Cell::Utf8(value) = &tag_arrays[v].cells[row] {
                fx_write(&mut hasher, value.as_str().as_bytes());
                fx_write_u8(&mut hasher, 0xff);
            }
            v = v + 1;
        }
        assert(values.take(v as int) =~= values);
        tsids.push(fx_finish(&hasher));
        row = row + 1;
    }
    assert(are_tsids(order, names, columns, tsids@));
    tsids
}

/// What a row's primary key is encoded from: the table, the time series, and the values
/// of the labels that the row has, each with its column.
#[derive(Debug)]
pub struct SparseKey {
    pub table_id: u32,
    pub tsid: u64,
    pub tags: Vec<(u32, Vec<u8>)>,
}

/// The time series of keys.
pub open spec fn key_tsids(keys: Seq<SparseKey>) -> Seq<u64> {
    keys.map_values(|k: SparseKey| k.tsid)
}

/// What a [`SparseKey`] holds of tags.
pub open spec fn tags_view(tags: Seq<(u32, Vec<u8>)>) -> Seq<(u32, Seq<u8>)> {
    tags.map_values(|t: (u32, Vec<u8>)| (t.0, t.1@))
}

/// The labels that a row has, each with its column.
pub open spec fn present_tags(column_ids: Seq<u32>, values: Seq<Option<Seq<char>>>) -> Seq<
    (u32, Seq<u8>),
>
    decreases values.len(),
{
    if values.len() == 0 {
        Seq::empty()
    } else {
        let before = present_tags(column_ids, values.drop_last());
        match values.last() {
            Some(value) => before.push((column_ids[values.len() - 1], encode_utf8(value))),
            None => before,
        }
    }
}

/// The tag columns of a batch.
pub open spec fn tag_columns(batch: BatchView, tags: Seq<TagColumnInfo>) -> Seq<ColumnView> {
    tags.map_values(|t: TagColumnInfo| batch.columns[t.index as int])
}

/// The identifiers of tag columns.
pub open spec fn column_ids(tags: Seq<TagColumnInfo>) -> Seq<u32> {
    tags.map_values(|t: TagColumnInfo| t.column_id)
}

/// Each tag column is a column of text of the batch.
pub open spec fn tags_fit(batch: BatchView, tags: Seq<TagColumnInfo>) -> bool {
    forall|i: int|
        0 <= i < tags.len() ==> (#[trigger] tags[i]).index < batch.columns.len()
            && batch.columns[tags[i].index as int].data_type is Utf8
}

/// What the primary keys of a batch's rows are encoded from.
pub fn sparse_keys(
    batch: &RecordBatch,
    table_id: u32,
    sorted_tag_columns: &Vec<TagColumnInfo>,
) -> (r: Vec<SparseKey>)
    requires
        batch@.valid(),
        tags_fit(batch@, sorted_tag_columns@),
    ensures
        r@.len() == batch@.num_rows,
        exists|little_endian: bool| #[trigger]
            are_tsids(
                little_endian,
                tag_names(sorted_tag_columns@),
                tag_columns(batch@, sorted_tag_columns@),
                key_tsids(r@),
            ),
        forall|row: int|
            0 <= row < r@.len() ==> (#[trigger] r@[row]).table_id == table_id && tags_view(
                r@[row].tags@,
            ) == present_tags(
                column_ids(sorted_tag_columns@),
                label_values(tag_columns(batch@, sorted_tag_columns@), row),
            ),
{
    let ghost columns = tag_columns(batch@, sorted_tag_columns@);
    let num_rows: usize = batch.num_rows;
    let mut tag_arrays: Vec<&Column> = Vec::new();
    let mut i: usize = 0;
    while i < sorted_tag_columns.len()
        invariant
            i <= sorted_tag_columns@.len(),
            tags_fit(batch@, sorted_tag_columns@),
            columns == tag_columns(batch@, sorted_tag_columns@),
            tag_arrays@.len() == i,
            forall|k: int| 0 <= k < i ==> (#[trigger] tag_arrays@[k])@ == columns[k],
        decreases sorted_tag_columns@.len() - i,
    {
        assert(sorted_tag_columns@[i as int].index < batch@.columns.len());
        let at: usize = sorted_tag_columns[i].index;
        tag_arrays.push(&batch.columns[at]);
        i = i + 1;
    }
    assert(column_refs(tag_arrays@) =~= columns);
    assert(are_text(columns, num_rows as nat)) by {
        assert forall|k: int| 0 <= k < columns.len() implies (#[trigger] columns[k]).data_type is Utf8
            && columns[k].well_typed() && columns[k].cells.len() == num_rows by {
            assert(sorted_tag_columns@[k].index < batch@.columns.len());
            assert(batch@.columns[sorted_tag_columns@[k].index as int].cells.len()
                == batch@.columns[0].cells.len());
        }
    }
    let tsids = compute_tsid_from_arrays(&tag_arrays, sorted_tag_columns, num_rows);
    let mut keys: Vec<SparseKey> = Vec::new();
    let mut row: usize = 0;
    while row < num_rows
        invariant
            row <= num_rows,
            tsids@.len() == num_rows,
            tag_arrays@.len() == sorted_tag_columns@.len(),
            column_refs(tag_arrays@) == columns,
            are_text(columns, num_rows as nat),
            keys@.len() == row,
            forall|k: int|
                0 <= k < row ==> (#[trigger] keys@[k]).table_id == table_id && keys@[k].tsid
                    == tsids@[k] && tags_view(keys@[k].tags@) == present_tags(
                    column_ids(sorted_tag_columns@),
                    label_values(columns, k),
                ),
        decreases num_rows - row,
    {
        let ghost values = label_values(columns, row as int);
        let ghost ids = column_ids(sorted_tag_columns@);
        let mut tags: Vec<(u32, Vec<u8>)> = Vec::new();
        let mut t: usize = 0;
        assert(values.take(0) =~= Seq::<Option<Seq<char>>>::empty());
        assert(tags_view(tags@) =~= present_tags(ids, values.take(0)));
        while t < tag_arrays.len()
            invariant
                t <= tag_arrays@.len(),
                row < num_rows,
                tag_arrays@.len() == sorted_tag_columns@.len(),
                column_refs(tag_arrays@) == columns,
                are_text(columns, num_rows as nat),
                values == label_values(columns, row as int),
                ids == column_ids(sorted_tag_columns@),
                tags_view(tags@) == present_tags(ids, values.take(t as int)),
            decreases tag_arrays@.len() - t,
        {
            assert(columns[t as int] == tag_arrays@[t as int]@);
            assert(columns[t as int].cells[row as int] == tag_arrays@[t as int].cells@[row as int]@);
            assert(values.take(t + 1).drop_last() =~= values.take(t as int));
            assert(values.take(t + 1).last() == values[t as int]);
            if let Cell::Utf8(value) = &tag_arrays[t].cells[row] {
                let ghost before = tags_view(tags@);
                let bytes = vstd::slice::slice_to_vec(value.as_str().as_bytes());
                tags.push((sorted_tag_columns[t].column_id, bytes));
                assert(tags_view(tags@) =~= before.push((ids[t as int], encode_utf8(value@))));
            }
            t = t + 1;
        }
        assert(values.take(t as int) =~= values);
        keys.push(SparseKey { table_id, tsid: tsids[row], tags });
        row = row + 1;
    }
    assert(key_tsids(keys@) =~= tsids@);
    keys
}

/// Why a batch could not be modified.
#[derive(Debug)]
pub enum ModifyError {
    EncodePrimaryKey(String),
    /// The columns do not make up a batch.
    UnexpectedRequest(BatchError),
}

/// The primary key of row `k` is the first that could not be encoded.
pub open spec fn key_fails_at(encoded: Seq<Result<Vec<u8>, String>>, k: int) -> bool {
    &&& 0 <= k < encoded.len()
    &&& encoded[k] is Err
    &&& forall|i: int| 0 <= i < k ==> #[trigger] encoded[i] is Ok
}

/// The encoded primary keys, empty where there is none.
pub open spec fn encoded_bytes(encoded: Seq<Result<Vec<u8>, String>>) -> Seq<Seq<u8>> {
    encoded.map_values(
        |k: Result<Vec<u8>, String>|
            match k {
                Ok(bytes) => bytes@,
                Err(_) => Seq::<u8>::empty(),
            },
    )
}

/// The field of encoded primary keys.
pub open spec fn primary_key_field() -> FieldView {
    FieldView {
        name: PRIMARY_KEY_COLUMN_NAME@,
        data_type: TypeView::Binary,
        nullable: false,
    }
}

/// Byte strings as a column.
pub open spec fn binary_column(values: Seq<Seq<u8>>) -> ColumnView {
    ColumnView {
        data_type: TypeView::Binary,
        cells: values.map_values(|v: Seq<u8>| CellView::Binary(v)),
        dictionary: Seq::empty(),
    }
}

/// The fields of a modified batch: the primary key, then the batch's fields at `kept`.
pub open spec fn modified_fields(batch: BatchView, kept: Seq<usize>) -> Seq<FieldView> {
    seq![primary_key_field()] + kept.map_values(|i: usize| batch.fields[i as int])
}

/// The columns of a modified batch: the primary keys, then the batch's columns at `kept`.
pub open spec fn modified_columns(
    batch: BatchView,
    keys: Seq<Seq<u8>>,
    kept: Seq<usize>,
) -> Seq<ColumnView> {
    seq![binary_column(keys)] + kept.map_values(|i: usize| batch.columns[i as int])
}

/// Modifies a batch for sparse primary keys: the encoded keys of its rows come first, then
/// the columns that are no tags.
pub fn modify_batch_sparse(
    batch: &RecordBatch,
    encoded: Vec<Result<Vec<u8>, String>>,
    non_tag_column_indices: &Vec<usize>,
) -> (r: Result<RecordBatch, ModifyError>)
    requires
        batch@.valid(),
        encoded@.len() == batch@.num_rows,
        arrow_builders::total_len(encoded_bytes(encoded@)) <= i32::MAX,
        forall|k: int|
            0 <= k < non_tag_column_indices@.len() ==> #[trigger] non_tag_column_indices@[k]
                < batch@.columns.len(),
    ensures
        match r {
            Ok(modified) => {
                &&& forall|k: int| !#[trigger] key_fails_at(encoded@, k)
                &&& modified@ == (BatchView {
                    fields: modified_fields(batch@, non_tag_column_indices@),
                    columns: modified_columns(
                        batch@,
                        encoded_bytes(encoded@),
                        non_tag_column_indices@,
                    ),
                    num_rows: batch@.num_rows,
                })
                &&& modified@.valid()
            },
            Err(ModifyError::EncodePrimaryKey(reason)) => exists|k: int| #[trigger]
                key_fails_at(encoded@, k) && encoded@[k]->Err_0@ == reason@,
            Err(ModifyError::UnexpectedRequest(e)) => false,
        },
{
    let ghost keys = encoded_bytes(encoded@);
    let ghost kept = non_tag_column_indices@;
    let mut pk_values = arrow_builders::binary_new();
    let mut row: usize = 0;
    assert(keys.take(0) =~= Seq::<Seq<u8>>::empty());
    while row < encoded.len()
        invariant
            row <= encoded@.len(),
            keys == encoded_bytes(encoded@),
            arrow_builders::total_len(keys) <= i32::MAX,
            arrow_builders::binary_cells(pk_values) == keys.take(row as int),
            forall|k: int| 0 <= k < row ==> #[trigger] encoded@[k] is Ok,
        decreases encoded@.len() - row,
    {
        match &encoded[row] {
            Ok(bytes) => {
                proof {
                    arrow_builders::lemma_total_len_prefix(keys, row + 1);
                    assert(keys.take(row + 1).drop_last() =~= keys.take(row as int));
                    assert(keys.take(row + 1).last() == bytes@);
                }
                arrow_builders::binary_append_value(&mut pk_values, bytes.as_slice());
                assert(keys.take(row + 1) =~= keys.take(row as int).push(bytes@));
            },
            Err(reason) => {
                assert(key_fails_at(encoded@, row as int));
                return Err(ModifyError::EncodePrimaryKey(reason.clone()));
            },
        }
        row = row + 1;
    }
    assert(keys.take(row as int) =~= keys);
    let pks = arrow_builders::binary_finish(pk_values);
    let mut cells: Vec<Cell> = Vec::new();
    let mut i: usize = 0;
    while i < pks.len()
        invariant
            i <= pks@.len(),
            cells@.len() == i,
            forall|k: int| 0 <= k < i ==> (#[trigger] cells@[k])@ == CellView::Binary(pks@[k]@),
        decreases pks@.len() - i,
    {
        let bytes = vstd::slice::slice_to_vec(pks[i].as_slice());
        cells.push(Cell::Binary(bytes));
        i = i + 1;
    }
    let pk_column = Column::new(DataType::Binary, cells);
    assert(pk_column@.cells =~= binary_column(keys).cells) by {
        assert forall|k: int| 0 <= k < keys.len() implies pk_column@.cells[k]
            == binary_column(keys).cells[k] by {
            assert(arrow_builders::byte_strings(pks@)[k] == pks@[k]@);
        }
    }
    let mut fields: Vec<Field> = Vec::new();
    fields.push(
        Field {
            name: PRIMARY_KEY_COLUMN_NAME.to_string(),
            data_type: DataType::Binary,
            nullable: false,
        },
    );
    let mut columns: Vec<Column> = Vec::new();
    columns.push(pk_column);
    let mut c: usize = 0;
    while c < non_tag_column_indices.len()
        invariant
            c <= non_tag_column_indices@.len(),
            kept == non_tag_column_indices@,
            batch@.valid(),
            forall|k: int| 0 <= k < kept.len() ==> #[trigger] kept[k] < batch@.columns.len(),
            fields@.len() == c + 1,
            columns@.len() == c + 1,
            forall|k: int|
                0 <= k < c + 1 ==> (#[trigger] fields@[k])@ == modified_fields(batch@, kept)[k],
            forall|k: int|
                0 <= k < c + 1 ==> (#[trigger] columns@[k])@ == modified_columns(
                    batch@,
                    keys,
                    kept,
                )[k],
        decreases non_tag_column_indices@.len() - c,
    {
        let at: usize = non_tag_column_indices[c];
        assert(kept[c as int] < batch@.columns.len());
        assert(batch@.fields[at as int] == batch.schema.fields@[at as int]@);
        assert(batch@.columns[at as int] == batch.columns@[at as int]@);
        fields.push(batch.schema.fields[at].clone());
        columns.push(batch.columns[at].clone());
        c = c + 1;
    }
    let schema = Schema { fields };
    let ghost new_fields = modified_fields(batch@, kept);
    let ghost new_columns = modified_columns(batch@, keys, kept);
    assert(schema@ =~= new_fields);
    assert(record_batch::columns_view(columns@) =~= new_columns);
    proof {
        lemma_modified_fits(batch@, keys, kept);
    }
    match RecordBatch::try_new(schema, columns) {
        Ok(modified) => {
            assert(forall|k: int| !#[trigger] key_fails_at(encoded@, k));
            Ok(modified)
        },
        Err(e) => Err(ModifyError::UnexpectedRequest(e)),
    }
}

/// The primary keys and columns of a valid batch make up a valid batch.
proof fn lemma_modified_fits(batch: BatchView, keys: Seq<Seq<u8>>, kept: Seq<usize>)
    requires
        batch.valid(),
        keys.len() == batch.num_rows,
        forall|k: int| 0 <= k < kept.len() ==> #[trigger] kept[k] < batch.columns.len(),
    ensures
        record_batch::batch_fits(
            modified_fields(batch, kept),
            modified_columns(batch, keys, kept),
        ),
        forall|i: int|
            0 <= i < modified_columns(batch, keys, kept).len() ==> (#[trigger] modified_columns(
                batch,
                keys,
                kept,
            )[i]).well_typed(),
{
    let fields = modified_fields(batch, kept);
    let columns = modified_columns(batch, keys, kept);
    assert(columns[0] == binary_column(keys));
    assert(fields[0] == primary_key_field());
    assert forall|i: int| 0 <= i < columns.len() implies (#[trigger] columns[i]).well_typed()
        && columns[i].cells.len() == columns[0].cells.len() && !record_batch::null_forbidden(
        fields,
        columns,
        i,
    ) && !record_batch::type_differs(fields, columns, i) by {
        if i > 0 {
            let at = kept[i - 1] as int;
            assert(columns[i] == batch.columns[at]);
            assert(fields[i] == batch.fields[at]);
            assert(!record_batch::null_forbidden(batch.fields, batch.columns, at));
            assert(!record_batch::type_differs(batch.fields, batch.columns, at));
            assert(batch.columns[at].well_typed());
        }
    }
}

proof fn lemma_fed_names_without(names: Seq<Seq<char>>, values: Seq<Option<Seq<char>>>, i: int)
    requires
        names.len() <= values.len(),
        0 <= i < names.len(),
        values[i] is None,
    ensures
        fed_names(names, values) == fed_names(names.remove(i), values.remove(i)),
    decreases names.len(),
{
    let n = names.len() - 1;
    if i == n {
        assert(names.remove(i) =~= names.drop_last());
        assert forall|k: int| 0 <= k < names.drop_last().len() implies (#[trigger] values[k] is Some
            <==> values.remove(i)[k] is Some) by {}
        lemma_fed_names_same(names.drop_last(), values, values.remove(i));
    } else {
        lemma_fed_names_without(names.drop_last(), values, i);
        assert(names.remove(i).drop_last() =~= names.drop_last().remove(i));
        assert(names.remove(i).last() == names.last());
        assert(values.remove(i)[n - 1] == values[n]);
    }
}

proof fn lemma_fed_values_without(first: u64, values: Seq<Option<Seq<char>>>, i: int)
    requires
        0 <= i < values.len(),
        values[i] is None,
    ensures
        fed_values(first, values) == fed_values(first, values.remove(i)),
    decreases values.len(),
{
    if i == values.len() - 1 {
        assert(values.remove(i) =~= values.drop_last());
    } else {
        lemma_fed_values_without(first, values.drop_last(), i);
        assert(values.remove(i).drop_last() =~= values.drop_last().remove(i));
        assert(values.remove(i).last() == values.last());
    }
}

/// A label that a row has not makes no difference to the time series that the row belongs
/// to: it is that of the same row in a table without the label.
pub proof fn law_absent_label_ignored(
    little_endian: bool,
    names: Seq<Seq<char>>,
    values: Seq<Option<Seq<char>>>,
    i: int,
)
    requires
        names.len() == values.len(),
        0 <= i < values.len(),
        values[i] is None,
    ensures
        tsid(little_endian, names, values) == tsid(
            little_endian,
            names.remove(i),
            values.remove(i),
        ),
{
    lemma_fed_names_without(names, values, i);
    let bits = usize::BITS as nat;
    lemma_fed_values_without(
        fx_hash(bits, little_endian, fed_names(names, values)),
        values,
        i,
    );
}

/// The places of the labels that a row has.
pub open spec fn present_at(values: Seq<Option<Seq<char>>>) -> Seq<int>
    decreases values.len(),
{
    if values.len() == 0 {
        Seq::empty()
    } else {
        let before = present_at(values.drop_last());
        if values.last() is Some {
            before.push(values.len() - 1)
        } else {
            before
        }
    }
}

/// The items at some places.
pub open spec fn items_at<A>(items: Seq<A>, places: Seq<int>) -> Seq<A> {
    places.map_values(|i: int| items[i])
}

proof fn lemma_present_at(values: Seq<Option<Seq<char>>>)
    ensures
        forall|k: int|
            0 <= k < present_at(values).len() ==> 0 <= #[trigger] present_at(values)[k]
                < values.len(),
    decreases values.len(),
{
    if values.len() > 0 {
        let fewer = values.drop_last();
        lemma_present_at(fewer);
        assert forall|k: int| 0 <= k < present_at(values).len() implies 0 <= #[trigger] present_at(
            values,
        )[k] < values.len() by {
            if k < present_at(fewer).len() {
                assert(present_at(values)[k] == present_at(fewer)[k]);
            }
        }
    }
}

proof fn lemma_fed_present(names: Seq<Seq<char>>, values: Seq<Option<Seq<char>>>, first: u64)
    requires
        names.len() == values.len(),
    ensures
        fed_names(names, values) == fed_names(
            items_at(names, present_at(values)),
            items_at(values, present_at(values)),
        ),
        fed_values(first, values) == fed_values(first, items_at(values, present_at(values))),
    decreases names.len(),
{
    let places = present_at(values);
    let kept_names = items_at(names, places);
    let kept = items_at(values, places);
    if names.len() > 0 {
        let fewer = values.drop_last();
        let before = present_at(fewer);
        lemma_present_at(fewer);
        lemma_fed_present(names.drop_last(), fewer, first);
        assert(items_at(fewer, before) =~= items_at(values, before));
        assert(items_at(names.drop_last(), before) =~= items_at(names, before));
        assert forall|i: int| 0 <= i < names.len() - 1 implies (#[trigger] values[i] is Some
            <==> fewer[i] is Some) by {}
        lemma_fed_names_same(names.drop_last(), values, fewer);
        if values.last() is Some {
            assert(kept.drop_last() =~= items_at(values, before));
            assert(kept_names.drop_last() =~= items_at(names, before));
            let n = before.len() as int;
            assert forall|i: int| 0 <= i < n implies (#[trigger] kept[i] is Some <==> items_at(
                values,
                before,
            )[i] is Some) by {}
            lemma_fed_names_same(items_at(names, before), kept, items_at(values, before));
            assert(kept[n] == values.last());
            assert(kept_names.last() == names.last());
        }
    } else {
        assert(kept_names =~= names);
        assert(kept =~= values);
    }
}

/// A label that a row has not counts as absent: the time series that a row belongs to is the
/// one that it belongs to in a table with the labels alone that the row has. It goes by nothing
/// but the row and the names of its labels. `tsids` and `kept_tsids` are those of two tables as
/// [`tsids_by`] gives them.
pub proof fn law_tsid_of_present_labels(
    little_endian: bool,
    names: Seq<Seq<char>>,
    columns: Seq<ColumnView>,
    tsids: Seq<u64>,
    kept_tsids: Seq<u64>,
    row: int,
)
    requires
        names.len() == columns.len(),
        0 <= row < tsids.len(),
        row < kept_tsids.len(),
        are_tsids(little_endian, names, columns, tsids),
        are_tsids(
            little_endian,
            items_at(names, present_at(label_values(columns, row))),
            items_at(columns, present_at(label_values(columns, row))),
            kept_tsids,
        ),
    ensures
        tsids[row] == kept_tsids[row],
{
    let values = label_values(columns, row);
    let places = present_at(values);
    let bits = usize::BITS as nat;
    lemma_present_at(values);
    assert(label_values(items_at(columns, places), row) =~= items_at(values, places));
    lemma_fed_present(names, values, fx_hash(bits, little_endian, fed_names(names, values)));
    assert(tsids[row] == tsid(little_endian, names, values));
    assert(kept_tsids[row] == tsid(
        little_endian,
        items_at(names, places),
        items_at(values, places),
    ));
}

/// The places of the labels that a row has come in order, and are those of all labels that it
/// has.
proof fn lemma_present_places(values: Seq<Option<Seq<char>>>)
    ensures
        forall|j: int, k: int|
            0 <= j < k < present_at(values).len() ==> #[trigger] present_at(values)[j]
                < #[trigger] present_at(values)[k],
        forall|k: int|
            0 <= k < present_at(values).len() ==> 0 <= #[trigger] present_at(values)[k]
                < values.len() && values[present_at(values)[k]] is Some,
        forall|i: int|
            0 <= i < values.len() ==> (#[trigger] values[i] is Some <==> present_at(
                values,
            ).contains(i)),
    decreases values.len(),
{
    if values.len() > 0 {
        let fewer = values.drop_last();
        lemma_present_places(fewer);
        let before = present_at(fewer);
        let places = present_at(values);
        assert forall|i: int| 0 <= i < values.len() implies (#[trigger] values[i] is Some
            <==> places.contains(i)) by {
            if i < fewer.len() {
                assert(values[i] == fewer[i]);
                if before.contains(i) {
                    let k = choose|k: int| 0 <= k < before.len() && before[k] == i;
                    assert(places[k] == i);
                }
                if places.contains(i) {
                    let k = choose|k: int| 0 <= k < places.len() && places[k] == i;
                    assert(before[k] == i);
                }
            } else {
                if values[i] is Some {
                    assert(places[before.len() as int] == i);
                }
                if places.contains(i) && values[i] is None {
                    let k = choose|k: int| 0 <= k < places.len() && places[k] == i;
                    assert(before[k] == i);
                }
            }
        }
        assert forall|k: int| 0 <= k < places.len() implies 0 <= #[trigger] places[k]
            < values.len() && values[places[k]] is Some by {
            if k < before.len() {
                assert(places[k] == before[k]);
                assert(fewer[before[k]] is Some);
            }
        }
    }
}

/// What is fed for the values of the labels that a row has, place by place.
proof fn lemma_fed_values_at(first: u64, values: Seq<Option<Seq<char>>>)
    ensures
        fed_values(first, values).len() == 1 + 2 * present_at(values).len(),
        fed_values(first, values)[0] == HashInput::U64(first),
        forall|k: int|
            0 <= k < present_at(values).len() ==> fed_values(first, values)[1 + 2 * k]
                == HashInput::Bytes(encode_utf8(values[#[trigger] present_at(values)[k]]->Some_0))
                && fed_values(first, values)[2 + 2 * k] == HashInput::U8(0xff),
    decreases values.len(),
{
    if values.len() > 0 {
        let fewer = values.drop_last();
        lemma_fed_values_at(first, fewer);
        lemma_present_at(fewer);
        let before = present_at(fewer);
        assert forall|k: int| 0 <= k < present_at(values).len() implies fed_values(
            first,
            values,
        )[1 + 2 * k] == HashInput::Bytes(
            encode_utf8(values[#[trigger] present_at(values)[k]]->Some_0),
        ) && fed_values(first, values)[2 + 2 * k] == HashInput::U8(0xff) by {
            if k < before.len() {
                assert(present_at(values)[k] == before[k]);
                assert(fewer[before[k]] == values[before[k]]);
            }
        }
    }
}

/// What is fed for the names of the labels that a row has, place by place.
proof fn lemma_fed_names_at(names: Seq<Seq<char>>, values: Seq<Option<Seq<char>>>)
    requires
        names.len() == values.len(),
    ensures
        fed_names(names, values).len() == 2 * present_at(values).len(),
        forall|k: int|
            0 <= k < present_at(values).len() ==> fed_names(names, values)[2 * k]
                == HashInput::Bytes(encode_utf8(names[#[trigger] present_at(values)[k]]))
                && fed_names(names, values)[1 + 2 * k] == HashInput::U8(0xff),
    decreases values.len(),
{
    if values.len() > 0 {
        let fewer = values.drop_last();
        lemma_fed_names_at(names.drop_last(), fewer);
        lemma_present_at(fewer);
        assert forall|i: int| 0 <= i < names.len() - 1 implies (#[trigger] values[i] is Some
            <==> fewer[i] is Some) by {}
        lemma_fed_names_same(names.drop_last(), values, fewer);
        let before = present_at(fewer);
        assert forall|k: int| 0 <= k < present_at(values).len() implies fed_names(
            names,
            values,
        )[2 * k] == HashInput::Bytes(encode_utf8(names[#[trigger] present_at(values)[k]]))
            && fed_names(names, values)[1 + 2 * k] == HashInput::U8(0xff) by {
            if k < before.len() {
                assert(present_at(values)[k] == before[k]);
                assert(names.drop_last()[before[k]] == names[before[k]]);
            }
        }
    }
}

/// The time series of a row is the hash of every label that the row has: of the hash of the
/// labels' names, followed by the value of each of them and a separator. The names are hashed
/// the same way: each with a separator, in the order of the columns. Gives the places of the
/// labels that the row has, what is fed for their names and what is fed for their values.
pub proof fn law_tsid_hashes_every_label(
    little_endian: bool,
    names: Seq<Seq<char>>,
    columns: Seq<ColumnView>,
    tsids: Seq<u64>,
    row: int,
) -> (r: (Seq<int>, Seq<HashInput>, Seq<HashInput>))
    requires
        names.len() == columns.len(),
        0 <= row < tsids.len(),
        are_tsids(little_endian, names, columns, tsids),
    ensures
        forall|j: int, k: int| 0 <= j < k < r.0.len() ==> #[trigger] r.0[j] < #[trigger] r.0[k],
        forall|k: int|
            0 <= k < r.0.len() ==> 0 <= #[trigger] r.0[k] < columns.len()
                && columns[r.0[k]].cells[row] is Utf8,
        forall|c: int|
            0 <= c < columns.len() && (#[trigger] columns[c]).cells[row] is Utf8 ==> r.0.contains(
                c,
            ),
        r.1.len() == 2 * r.0.len(),
        forall|k: int|
            0 <= k < r.0.len() ==> r.1[2 * k] == HashInput::Bytes(
                encode_utf8(names[#[trigger] r.0[k]]),
            ) && r.1[1 + 2 * k] == HashInput::U8(0xff),
        r.2.len() == 1 + 2 * r.0.len(),
        r.2[0] == HashInput::U64(fx_hash(usize::BITS as nat, little_endian, r.1)),
        forall|k: int|
            0 <= k < r.0.len() ==> r.2[1 + 2 * k] == HashInput::Bytes(
                encode_utf8(columns[#[trigger] r.0[k]].cells[row]->Utf8_0),
            ) && r.2[2 + 2 * k] == HashInput::U8(0xff),
        tsids[row] == fx_hash(usize::BITS as nat, little_endian, r.2),
{
    let values = label_values(columns, row);
    let places = present_at(values);
    let names_hash = fx_hash(usize::BITS as nat, little_endian, fed_names(names, values));
    lemma_present_places(values);
    lemma_fed_names_at(names, values);
    lemma_fed_values_at(names_hash, values);
    assert(tsids[row] == tsid(little_endian, names, values));
    assert forall|k: int| 0 <= k < places.len() implies 0 <= #[trigger] places[k] < columns.len()
        && columns[places[k]].cells[row] is Utf8 && values[places[k]]
        == Some(columns[places[k]].cells[row]->Utf8_0) by {
        assert(values[places[k]] == cell_text(columns[places[k]].cells[row]));
    }
    assert forall|c: int|
        0 <= c < columns.len() && (#[trigger] columns[c]).cells[row] is Utf8 implies places.contains(
        c,
    ) by {
        assert(values[c] == cell_text(columns[c].cells[row]));
    }
    (places, fed_names(names, values), fed_values(names_hash, values))
}

/// What is hashed tells rows apart. Of two rows that have the same labels, what is fed for the
/// one is what is fed for the other only where the rows have the same value of every label.
/// Rows of one table that do not have the same labels differ in what is fed for the names, where
/// no two labels have the same name.
pub proof fn law_fed_tells_rows_apart(
    first: u64,
    other_first: u64,
    names: Seq<Seq<char>>,
    a: Seq<Option<Seq<char>>>,
    b: Seq<Option<Seq<char>>>,
)
    requires
        names.len() == a.len(),
        names.len() == b.len(),
    ensures
        (forall|i: int| 0 <= i < a.len() ==> (#[trigger] a[i] is Some <==> b[i] is Some)) ==> (
        fed_values(first, a) == fed_values(other_first, b) <==> first == other_first && a == b),
        names.no_duplicates() && fed_names(names, a) == fed_names(names, b) ==> forall|i: int|
            0 <= i < a.len() ==> (#[trigger] a[i] is Some <==> b[i] is Some),
{
    lemma_present_places(a);
    lemma_present_places(b);
    lemma_fed_values_at(first, a);
    lemma_fed_values_at(other_first, b);
    let at = present_at(a);
    if forall|i: int| 0 <= i < a.len() ==> (#[trigger] a[i] is Some <==> b[i] is Some) {
        lemma_present_same(a, b);
        if fed_values(first, a) == fed_values(other_first, b) {
            let fed = fed_values(first, a);
            assert(fed[0] == HashInput::U64(first) && fed[0] == HashInput::U64(other_first));
            assert forall|i: int| 0 <= i < a.len() implies a[i] == b[i] by {
                assert(a[i] is Some <==> b[i] is Some);
                if a[i] is Some {
                    assert(at.contains(i));
                    let k = choose|k: int| 0 <= k < at.len() && at[k] == i;
                    assert(fed[1 + 2 * k] == HashInput::Bytes(encode_utf8(a[at[k]]->Some_0)));
                    assert(present_at(b)[k] == i);
                    assert(fed[1 + 2 * k] == HashInput::Bytes(
                        encode_utf8(b[present_at(b)[k]]->Some_0),
                    ));
                    vstd::utf8::encode_utf8_decode_utf8(a[i]->Some_0);
                    vstd::utf8::encode_utf8_decode_utf8(b[i]->Some_0);
                }
            }
            assert(a =~= b);
        }
    }
    if names.no_duplicates() && fed_names(names, a) == fed_names(names, b) {
        lemma_fed_names_at(names, a);
        lemma_fed_names_at(names, b);
        let fed = fed_names(names, a);
        assert forall|k: int| 0 <= k < at.len() implies #[trigger] at[k] == present_at(b)[k] by {
            assert(fed[2 * k] == HashInput::Bytes(encode_utf8(names[at[k]])));
            assert(fed[2 * k] == HashInput::Bytes(encode_utf8(names[present_at(b)[k]])));
            vstd::utf8::encode_utf8_decode_utf8(names[at[k]]);
            vstd::utf8::encode_utf8_decode_utf8(names[present_at(b)[k]]);
        }
        assert(at =~= present_at(b));
        assert forall|i: int| 0 <= i < a.len() implies (#[trigger] a[i] is Some
            <==> b[i] is Some) by {
            assert(b[i] is Some <==> present_at(b).contains(i));
        }
    }
}

proof fn lemma_present_same(a: Seq<Option<Seq<char>>>, b: Seq<Option<Seq<char>>>)
    requires
        a.len() == b.len(),
        forall|i: int| 0 <= i < a.len() ==> (#[trigger] a[i] is Some <==> b[i] is Some),
    ensures
        present_at(a) == present_at(b),
    decreases a.len(),
{
    if a.len() > 0 {
        assert forall|i: int| 0 <= i < a.drop_last().len() implies (
        #[trigger] a.drop_last()[i] is Some <==> b.drop_last()[i] is Some) by {
            assert(a[i] is Some <==> b[i] is Some);
        }
        lemma_present_same(a.drop_last(), b.drop_last());
        assert(a[a.len() - 1] is Some <==> b[a.len() - 1] is Some);
    }
}

/// What a row's primary key is encoded from holds every label that the row has, and no other,
/// each with the identifier of its column and its own value, in the order of the columns. Gives
/// the places of those labels.
pub proof fn law_sparse_key_holds_labels(
    ids: Seq<u32>,
    columns: Seq<ColumnView>,
    row: int,
) -> (at: Seq<int>)
    requires
        ids.len() == columns.len(),
    ensures
        present_tags(ids, label_values(columns, row)).len() == at.len(),
        forall|j: int, k: int| 0 <= j < k < at.len() ==> #[trigger] at[j] < #[trigger] at[k],
        forall|k: int|
            0 <= k < at.len() ==> 0 <= #[trigger] at[k] < columns.len()
                && columns[at[k]].cells[row] is Utf8 && present_tags(
                ids,
                label_values(columns, row),
            )[k] == (ids[at[k]], encode_utf8(columns[at[k]].cells[row]->Utf8_0)),
        forall|c: int|
            0 <= c < columns.len() && (#[trigger] columns[c]).cells[row] is Utf8 ==> at.contains(
                c,
            ),
{
    let values = label_values(columns, row);
    let places = present_at(values);
    lemma_present_places(values);
    lemma_present_tags_at(ids, values);
    assert forall|k: int| 0 <= k < places.len() implies 0 <= #[trigger] places[k] < columns.len()
        && columns[places[k]].cells[row] is Utf8 && values[places[k]]
        == Some(columns[places[k]].cells[row]->Utf8_0) by {
        assert(values[places[k]] == cell_text(columns[places[k]].cells[row]));
    }
    assert forall|c: int|
        0 <= c < columns.len() && (#[trigger] columns[c]).cells[row] is Utf8 implies places.contains(
        c,
    ) by {
        assert(values[c] == cell_text(columns[c].cells[row]));
    }
    places
}

proof fn lemma_present_tags_at(ids: Seq<u32>, values: Seq<Option<Seq<char>>>)
    ensures
        present_tags(ids, values).len() == present_at(values).len(),
        forall|k: int|
            0 <= k < present_at(values).len() ==> present_tags(ids, values)[k] == (
                ids[#[trigger] present_at(values)[k]],
                encode_utf8(values[present_at(values)[k]]->Some_0),
            ),
    decreases values.len(),
{
    if values.len() > 0 {
        let fewer = values.drop_last();
        lemma_present_tags_at(ids, fewer);
        lemma_present_at(fewer);
        assert forall|k: int| 0 <= k < present_at(values).len() implies present_tags(
            ids,
            values,
        )[k] == (
            ids[#[trigger] present_at(values)[k]],
            encode_utf8(values[present_at(values)[k]]->Some_0),
        ) by {
            if k < present_at(fewer).len() {
                assert(present_at(values)[k] == present_at(fewer)[k]);
                assert(fewer[present_at(fewer)[k]] == values[present_at(fewer)[k]]);
            }
        }
    }
}

/// A modified batch has the encoded key of each row in its first column, which is called
/// `__primary_key` and holds no nulls, and after it the columns of the batch that are no tags,
/// unchanged and in order.
pub proof fn law_modified_batch(
    batch: BatchView,
    encoded: Seq<Result<Vec<u8>, String>>,
    kept: Seq<usize>,
)
    ensures
        modified_fields(batch, kept).len() == kept.len() + 1,
        modified_columns(batch, encoded_bytes(encoded), kept).len() == kept.len() + 1,
        modified_fields(batch, kept)[0] == (FieldView {
            name: "__primary_key"@,
            data_type: TypeView::Binary,
            nullable: false,
        }),
        modified_columns(batch, encoded_bytes(encoded), kept)[0].cells.len() == encoded.len(),
        modified_columns(batch, encoded_bytes(encoded), kept)[0].data_type is Binary,
        forall|row: int|
            0 <= row < encoded.len() && #[trigger] encoded[row] is Ok ==> modified_columns(
                batch,
                encoded_bytes(encoded),
                kept,
            )[0].cells[row] == CellView::Binary(encoded[row]->Ok_0@),
        forall|c: int|
            0 <= c < kept.len() ==> modified_columns(batch, encoded_bytes(encoded), kept)[c + 1]
                == batch.columns[#[trigger] kept[c] as int] && modified_fields(batch, kept)[c + 1]
                == batch.fields[kept[c] as int],
{
}

/// Of the keys that could not be encoded the first is told of, and there is one to tell of
/// exactly where some key could not be.
pub proof fn law_first_broken_key_is_told(
    encoded: Seq<Result<Vec<u8>, String>>,
    k: int,
    i: int,
)
    ensures
        key_fails_at(encoded, k) ==> 0 <= k < encoded.len() && encoded[k] is Err,
        key_fails_at(encoded, k) && 0 <= i < k ==> encoded[i] is Ok,
        0 <= i < encoded.len() && encoded[i] is Err ==> exists|j: int| #[trigger]
            key_fails_at(encoded, j) && j <= i,
    decreases i,
{
    if 0 <= i < encoded.len() && encoded[i] is Err {
        if exists|j: int| 0 <= j < i && #[trigger] encoded[j] is Err {
            let j = choose|j: int| 0 <= j < i && #[trigger] encoded[j] is Err;
            law_first_broken_key_is_told(encoded, k, j);
        } else {
            assert(key_fails_at(encoded, i));
        }
    }
}

/// [`compute_tsid_from_arrays`] hashes, for each row, the names of all labels that the row has,
/// each followed by a mark, and then their values, each followed by a mark; none is left out, and
/// none that the row does not have goes in. So two more pieces are fed for each label, and the
/// order is that of the columns. Gives the places of the labels that the row has, what the names
/// are hashed from, and what the values are.
pub proof fn law_tsid_of_arrays(
    tag_arrays: Vec<&Column>,
    tags: Vec<TagColumnInfo>,
    num_rows: usize,
    r: Vec<u64>,
    row: int,
) -> (fed: (Seq<int>, Seq<HashInput>, Seq<HashInput>))
    requires
        tag_arrays@.len() == tags@.len(),
        forall|i: int|
            0 <= i < tag_arrays@.len() ==> (#[trigger] tag_arrays@[i])@.cells.len() == num_rows,
        call_ensures(compute_tsid_from_arrays, (&tag_arrays, &tags, num_rows), r),
        0 <= row < num_rows,
    ensures
        r@.len() == num_rows,
        forall|j: int, k: int|
            0 <= j < k < fed.0.len() ==> #[trigger] fed.0[j] < #[trigger] fed.0[k],
        forall|k: int|
            0 <= k < fed.0.len() ==> 0 <= #[trigger] fed.0[k] < tags@.len()
                && tag_arrays@[fed.0[k]]@.cells[row] is Utf8,
        forall|c: int|
            0 <= c < tags@.len() && (#[trigger] tag_arrays@[c])@.cells[row] is Utf8
                ==> fed.0.contains(c),
        fed.1.len() == 2 * fed.0.len(),
        forall|k: int|
            0 <= k < fed.0.len() ==> fed.1[2 * k] == HashInput::Bytes(
                encode_utf8(tags@[#[trigger] fed.0[k]].name@),
            ) && fed.1[1 + 2 * k] == HashInput::U8(0xff),
        fed.2.len() == 1 + 2 * fed.0.len(),
        forall|k: int|
            0 <= k < fed.0.len() ==> fed.2[1 + 2 * k] == HashInput::Bytes(
                encode_utf8(tag_arrays@[#[trigger] fed.0[k]]@.cells[row]->Utf8_0),
            ) && fed.2[2 + 2 * k] == HashInput::U8(0xff),
        exists|little_endian: bool|
            fed.2[0] == HashInput::U64(
                fx_hash(usize::BITS as nat, little_endian, fed.1),
            ) && r@[row] == #[trigger] fx_hash(usize::BITS as nat, little_endian, fed.2),
{
    let names = tag_names(tags@);
    let columns = column_refs(tag_arrays@);
    let little_endian = choose|little_endian: bool| #[trigger]
        are_tsids(little_endian, names, columns, r@);
    let fed = law_tsid_hashes_every_label(little_endian, names, columns, r@, row);
    assert forall|c: int|
        0 <= c < tags@.len() && (#[trigger] tag_arrays@[c])@.cells[row] is Utf8 implies
        fed.0.contains(c) by {
        assert(columns[c].cells[row] is Utf8);
    }
    fed
}

/// [`sparse_keys`] gives for each row of a batch a key of the table, with each label that the row
/// has in a column of a tag, under that column's identifier, and no other.
pub proof fn law_sparse_keys_of_batch(
    batch: RecordBatch,
    table_id: u32,
    tags: Vec<TagColumnInfo>,
    r: Vec<SparseKey>,
    row: int,
) -> (at: Seq<int>)
    requires
        call_ensures(sparse_keys, (&batch, table_id, &tags), r),
        0 <= row < batch@.num_rows,
        forall|i: int| 0 <= i < tags@.len() ==> (#[trigger] tags@[i]).index < batch@.columns.len(),
    ensures
        r@.len() == batch@.num_rows,
        r@[row].table_id == table_id,
        r@[row].tags@.len() == at.len(),
        forall|j: int, k: int| 0 <= j < k < at.len() ==> #[trigger] at[j] < #[trigger] at[k],
        forall|k: int|
            0 <= k < at.len() ==> 0 <= #[trigger] at[k] < tags@.len()
                && batch@.columns[tags@[at[k]].index as int].cells[row] is Utf8
                && r@[row].tags@[k].0 == tags@[at[k]].column_id && r@[row].tags@[k].1@
                == encode_utf8(batch@.columns[tags@[at[k]].index as int].cells[row]->Utf8_0),
        forall|c: int|
            0 <= c < tags@.len() && batch@.columns[(
            #[trigger] tags@[c]).index as int].cells[row] is Utf8 ==> at.contains(c),
{
    let ids = column_ids(tags@);
    let columns = tag_columns(batch@, tags@);
    let at = law_sparse_key_holds_labels(ids, columns, row);
    let held = tags_view(r@[row].tags@);
    assert(r@[row].table_id == table_id);
    assert(held == present_tags(ids, label_values(columns, row)));
    assert forall|k: int| 0 <= k < at.len() implies 0 <= #[trigger] at[k] < tags@.len()
        && batch@.columns[tags@[at[k]].index as int].cells[row] is Utf8 && r@[row].tags@[k].0
        == tags@[at[k]].column_id && r@[row].tags@[k].1@ == encode_utf8(
        batch@.columns[tags@[at[k]].index as int].cells[row]->Utf8_0,
    ) by {
        assert(held[k] == (r@[row].tags@[k].0, r@[row].tags@[k].1@));
        assert(columns[at[k]] == batch@.columns[tags@[at[k]].index as int]);
    }
    assert forall|c: int|
        0 <= c < tags@.len() && batch@.columns[(
        #[trigger] tags@[c]).index as int].cells[row] is Utf8 implies at.contains(c) by {
        assert(columns[c].cells[row] is Utf8);
    }
    at
}

/// [`modify_batch_sparse`] gives a batch with the primary key of each row, as it was encoded, in
/// the first column, and after it the columns that are no tags, as they were; and it fails where,
/// and only where, a key could not be encoded.
pub proof fn law_batch_is_modified(
    batch: RecordBatch,
    encoded: Vec<Result<Vec<u8>, String>>,
    kept: Vec<usize>,
    r: Result<RecordBatch, ModifyError>,
    row: int,
    c: int,
)
    requires
        call_ensures(modify_batch_sparse, (&batch, encoded, &kept), r),
    ensures
        r is Ok <==> forall|i: int| 0 <= i < encoded@.len() ==> #[trigger] encoded@[i] is Ok,
        r matches Ok(modified) ==> {
            &&& modified@.num_rows == batch@.num_rows
            &&& modified@.columns.len() == kept@.len() + 1
            &&& modified@.columns[0].cells.len() == encoded@.len()
            &&& 0 <= row < encoded@.len() ==> modified@.columns[0].cells[row] == CellView::Binary(
                encoded@[row]->Ok_0@,
            )
            &&& 0 <= c < kept@.len() ==> modified@.columns[c + 1]
                == batch@.columns[kept@[c] as int] && modified@.fields[c + 1]
                == batch@.fields[kept@[c] as int]
        },
        r matches Err(ModifyError::EncodePrimaryKey(reason)) ==> exists|i: int|
            0 <= i < encoded@.len() && (#[trigger] encoded@[i] matches Err(told) && told@
                == reason@),
{
    law_modified_batch(batch@, encoded@, kept@);
    if exists|i: int| 0 <= i < encoded@.len() && #[trigger] encoded@[i] is Err {
        let i = choose|i: int| 0 <= i < encoded@.len() && #[trigger] encoded@[i] is Err;
        law_first_broken_key_is_told(encoded@, 0, i);
    }
    if r is Ok {
        assert forall|i: int| 0 <= i < encoded@.len() implies #[trigger] encoded@[i] is Ok by {
            law_first_broken_key_is_told(encoded@, 0, i);
        }
        if 0 <= row < encoded@.len() {
            assert(encoded@[row] is Ok);
        }
        if 0 <= c < kept@.len() {
            assert(kept@[c] == kept@[c]);
        }
    } else if r matches Err(ModifyError::EncodePrimaryKey(reason)) {
        let k = choose|k: int| #[trigger]
            key_fails_at(encoded@, k) && encoded@[k]->Err_0@ == r->Err_0->EncodePrimaryKey_0@;
        assert(encoded@[k] is Err);
    }
}

} // verus!

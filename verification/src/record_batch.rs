//! Columnar data: typed columns, schemas and record batches.

use vstd::prelude::*;

use crate::text::text_equal;

verus! {

/// The unit of a timestamp column.
#[derive(Clone, Copy, Debug, PartialEq, Eq, Structural)]
pub enum TimeUnit {
    Second,
    Millisecond,
    Microsecond,
    Nanosecond,
}

/// The type of a column.
#[derive(Debug)]
pub enum DataType {
    Float64,
    Utf8,
    Binary,
    Boolean,
    UInt8,
    UInt16,
    UInt32,
    UInt64,
    Int8,
    Int16,
    Int32,
    Int64,
    Float32,
    /// Days.
    Date32,
    /// Timestamps of a unit, with a time zone where there is one.
    Timestamp(TimeUnit, Option<String>),
    /// Byte strings, each held once and referred to by a 32-bit key.
    DictionaryBinary,
    /// Any other type, by its name.
    Other(String),
}

/// What a [`DataType`] is.
pub enum TypeView {
    Float64,
    Utf8,
    Binary,
    Boolean,
    UInt8,
    UInt16,
    UInt32,
    UInt64,
    Int8,
    Int16,
    Int32,
    Int64,
    Float32,
    /// Days.
    Date32,
    Timestamp(TimeUnit, Option<Seq<char>>),
    DictionaryBinary,
    Other(Seq<char>),
}

/// One value of a column. A floating-point value is held by its bits.
#[derive(Debug)]
pub enum Cell {
    Null,
    Float64(u64),
    Utf8(String),
    Binary(Vec<u8>),
    Boolean(bool),
    UInt8(u8),
    UInt16(u16),
    UInt32(u32),
    UInt64(u64),
    Int8(i8),
    Int16(i16),
    Int32(i32),
    Int64(i64),
    Float32(u32),
    /// A value of a type that is known by its name alone, by its bytes.
    Other(Vec<u8>),
}

/// What a [`Cell`] holds.
pub enum CellView {
    Null,
    Float64(u64),
    Utf8(Seq<char>),
    Binary(Seq<u8>),
    Boolean(bool),
    UInt8(u8),
    UInt16(u16),
    UInt32(u32),
    UInt64(u64),
    Int8(i8),
    Int16(i16),
    Int32(i32),
    Int64(i64),
    Float32(u32),
    /// A value of a type that is known by its name alone, by its bytes.
    Other(Seq<u8>),
}

/// A column of values of one type.
#[derive(Debug)]
pub struct Column {
    pub data_type: DataType,
    /// One cell per row; in a dictionary column, the keys.
    pub cells: Vec<Cell>,
    /// The values of a dictionary column, by key; empty in any other.
    pub dictionary: Vec<Vec<u8>>,
}

/// What a [`Column`] holds.
#[verifier::ext_equal]
pub struct ColumnView {
    pub data_type: TypeView,
    pub cells: Seq<CellView>,
    pub dictionary: Seq<Seq<u8>>,
}

/// A column's name and type, and whether it may hold nulls.
#[derive(Debug)]
pub struct Field {
    pub name: String,
    pub data_type: DataType,
    pub nullable: bool,
}

/// What a [`Field`] says.
pub struct FieldView {
    pub name: Seq<char>,
    pub data_type: TypeView,
    pub nullable: bool,
}

/// The fields of a table, in order.
#[derive(Debug)]
pub struct Schema {
    pub fields: Vec<Field>,
}

/// Columns of equal length with the schema they follow.
#[derive(Debug)]
pub struct RecordBatch {
    pub schema: Schema,
    pub columns: Vec<Column>,
    pub num_rows: usize,
}

/// What a [`RecordBatch`] holds.
#[verifier::ext_equal]
pub struct BatchView {
    pub fields: Seq<FieldView>,
    pub columns: Seq<ColumnView>,
    pub num_rows: nat,
}

/// Why columns do not make up a record batch of a schema.
#[derive(Clone, Copy, Debug, PartialEq, Eq, Structural)]
pub enum BatchError {
    /// There are not as many columns as fields.
    ColumnCount,
    /// There is no column to take the number of rows from.
    NoColumn,
    /// The first column, by index, that holds a null though its field allows none.
    UnexpectedNull(usize),
    /// The columns are not of one length.
    UnequalLengths,
    /// The first column, by index, whose type is not that of its field.
    TypeMismatch(usize),
}

impl View for DataType {
    type V = TypeView;

    open spec fn view(&self) -> TypeView {
        match self {
            DataType::Float64 => TypeView::Float64,
            DataType::Utf8 => TypeView::Utf8,
            DataType::Binary => TypeView::Binary,
            DataType::Boolean => TypeView::Boolean,
            DataType::UInt16 => TypeView::UInt16,
            DataType::Int8 => TypeView::Int8,
            DataType::Int16 => TypeView::Int16,
            DataType::Int32 => TypeView::Int32,
            DataType::Float32 => TypeView::Float32,
            DataType::Date32 => TypeView::Date32,
            DataType::UInt8 => TypeView::UInt8,
            DataType::UInt32 => TypeView::UInt32,
            DataType::UInt64 => TypeView::UInt64,
            DataType::Int64 => TypeView::Int64,
            DataType::Timestamp(unit, zone) => TypeView::Timestamp(
                *unit,
                match zone {
                    Some(z) => Some(z@),
                    None => None,
                },
            ),
            DataType::DictionaryBinary => TypeView::DictionaryBinary,
            DataType::Other(name) => TypeView::Other(name@),
        }
    }
}

impl View for Cell {
    type V = CellView;

    open spec fn view(&self) -> CellView {
        match self {
            Cell::Null => CellView::Null,
            Cell::Float64(v) => CellView::Float64(*v),
            Cell::Utf8(v) => CellView::Utf8(v@),
            Cell::Binary(v) => CellView::Binary(v@),
            Cell::Boolean(v) => CellView::Boolean(*v),
            Cell::UInt16(v) => CellView::UInt16(*v),
            Cell::Int8(v) => CellView::Int8(*v),
            Cell::Int16(v) => CellView::Int16(*v),
            Cell::Int32(v) => CellView::Int32(*v),
            Cell::Float32(v) => CellView::Float32(*v),
            Cell::Other(v) => CellView::Other(v@),
            Cell::UInt8(v) => CellView::UInt8(*v),
            Cell::UInt32(v) => CellView::UInt32(*v),
            Cell::UInt64(v) => CellView::UInt64(*v),
            Cell::Int64(v) => CellView::Int64(*v),
        }
    }
}

/// What a sequence of cells holds.
pub open spec fn cells_view(cells: Seq<Cell>) -> Seq<CellView> {
    cells.map_values(|c: Cell| c@)
}

impl View for Column {
    type V = ColumnView;

    open spec fn view(&self) -> ColumnView {
        ColumnView {
            data_type: self.data_type@,
            cells: cells_view(self.cells@),
            dictionary: self.dictionary@.map_values(|v: Vec<u8>| v@),
        }
    }
}

impl View for Field {
    type V = FieldView;

    open spec fn view(&self) -> FieldView {
        FieldView { name: self.name@, data_type: self.data_type@, nullable: self.nullable }
    }
}

impl View for Schema {
    type V = Seq<FieldView>;

    open spec fn view(&self) -> Seq<FieldView> {
        self.fields@.map_values(|f: Field| f@)
    }
}

/// What a sequence of columns holds.
pub open spec fn columns_view(columns: Seq<Column>) -> Seq<ColumnView> {
    columns.map_values(|c: Column| c@)
}

impl View for RecordBatch {
    type V = BatchView;

    open spec fn view(&self) -> BatchView {
        BatchView {
            fields: self.schema@,
            columns: columns_view(self.columns@),
            num_rows: self.num_rows as nat,
        }
    }
}

impl CellView {
    /// Whether a column of type `t` can hold this value.
    pub open spec fn fits(self, t: TypeView) -> bool {
        match self {
            CellView::Null => true,
            CellView::Float64(_) => t is Float64,
            CellView::Utf8(_) => t is Utf8,
            CellView::Binary(_) => t is Binary,
            CellView::Boolean(_) => t is Boolean,
            CellView::UInt16(_) => t is UInt16,
            CellView::Int8(_) => t is Int8,
            CellView::Int16(_) => t is Int16,
            CellView::Int32(_) => t is Int32 || t is Date32,
            CellView::Float32(_) => t is Float32,
            CellView::Other(_) => t is Other,
            CellView::UInt8(_) => t is UInt8,
            CellView::UInt32(_) => t is UInt32 || t is DictionaryBinary,
            CellView::UInt64(_) => t is UInt64,
            CellView::Int64(_) => t is Int64 || t is Timestamp,
        }
    }
}

impl ColumnView {
    /// Every value is of the column's type, and a dictionary column's keys have values.
    pub open spec fn well_typed(self) -> bool {
        &&& forall|i: int| 0 <= i < self.cells.len() ==> (#[trigger] self.cells[i]).fits(
            self.data_type,
        )
        &&& self.data_type is DictionaryBinary ==> forall|i: int|
            0 <= i < self.cells.len() ==> (#[trigger] self.cells[i] matches CellView::UInt32(k)
                ==> k < self.dictionary.len())
        &&& self.data_type !is DictionaryBinary ==> self.dictionary.len() == 0
    }

    /// Whether the column holds a null.
    pub open spec fn has_null(self) -> bool {
        exists|i: int| 0 <= i < self.cells.len() && #[trigger] self.cells[i] is Null
    }

    /// The column's rows at `indices`, in that order.
    pub open spec fn take(self, indices: Seq<int>) -> ColumnView {
        ColumnView {
            data_type: self.data_type,
            cells: indices.map_values(|i: int| self.cells[i]),
            dictionary: self.dictionary,
        }
    }
}

/// Whether the column at `i` holds a null that its field forbids.
pub open spec fn null_forbidden(fields: Seq<FieldView>, columns: Seq<ColumnView>, i: int) -> bool {
    !fields[i].nullable && columns[i].has_null()
}

/// Whether the column at `i` is of another type than its field.
pub open spec fn type_differs(fields: Seq<FieldView>, columns: Seq<ColumnView>, i: int) -> bool {
    columns[i].data_type != fields[i].data_type
}

/// What keeps columns from making up a record batch, where anything does. The
/// faults are looked for in the order of [`BatchError`].
pub open spec fn batch_error_is(
    fields: Seq<FieldView>,
    columns: Seq<ColumnView>,
    error: BatchError,
) -> bool {
    match error {
        BatchError::ColumnCount => fields.len() != columns.len(),
        BatchError::NoColumn => fields.len() == columns.len() && columns.len() == 0,
        BatchError::UnexpectedNull(at) => {
            &&& fields.len() == columns.len()
            &&& at < columns.len()
            &&& null_forbidden(fields, columns, at as int)
            &&& forall|i: int| 0 <= i < at ==> !#[trigger] null_forbidden(fields, columns, i)
        },
        BatchError::UnequalLengths => {
            &&& fields.len() == columns.len()
            &&& columns.len() > 0
            &&& forall|i: int|
                0 <= i < columns.len() ==> !#[trigger] null_forbidden(fields, columns, i)
            &&& exists|i: int|
                0 <= i < columns.len() && (#[trigger] columns[i]).cells.len()
                    != columns[0].cells.len()
        },
        BatchError::TypeMismatch(at) => {
            &&& fields.len() == columns.len()
            &&& at < columns.len()
            &&& forall|i: int|
                0 <= i < columns.len() ==> !#[trigger] null_forbidden(fields, columns, i)
            &&& forall|i: int|
                0 <= i < columns.len() ==> (#[trigger] columns[i]).cells.len()
                    == columns[0].cells.len()
            &&& type_differs(fields, columns, at as int)
            &&& forall|i: int| 0 <= i < at ==> !#[trigger] type_differs(fields, columns, i)
        },
    }
}

/// Whether columns make up a record batch of the schema `fields`.
pub open spec fn batch_fits(fields: Seq<FieldView>, columns: Seq<ColumnView>) -> bool {
    &&& fields.len() == columns.len()
    &&& columns.len() > 0
    &&& forall|i: int| 0 <= i < columns.len() ==> !#[trigger] null_forbidden(fields, columns, i)
    &&& forall|i: int|
        0 <= i < columns.len() ==> (#[trigger] columns[i]).cells.len() == columns[0].cells.len()
    &&& forall|i: int| 0 <= i < columns.len() ==> !#[trigger] type_differs(fields, columns, i)
}

impl BatchView {
    /// The columns follow the schema, have the batch's number of rows and hold
    /// values of their types.
    pub open spec fn valid(self) -> bool {
        &&& batch_fits(self.fields, self.columns)
        &&& forall|i: int|
            0 <= i < self.columns.len() ==> (#[trigger] self.columns[i]).well_typed()
        &&& self.columns[0].cells.len() == self.num_rows
    }

    /// The batch's rows at `indices`, in that order.
    pub open spec fn take(self, indices: Seq<int>) -> BatchView {
        BatchView {
            fields: self.fields,
            columns: self.columns.map_values(|c: ColumnView| c.take(indices)),
            num_rows: indices.len(),
        }
    }
}

/// The places where a mask is true, in order.
pub open spec fn selected(mask: Seq<bool>) -> Seq<int>
    decreases mask.len(),
{
    if mask.len() == 0 {
        Seq::empty()
    } else {
        let before = selected(mask.drop_last());
        if mask.last() {
            before.push(mask.len() - 1)
        } else {
            before
        }
    }
}

/// What a mask selects are places of the mask at which it is true, in ascending order.
pub proof fn lemma_selected(mask: Seq<bool>)
    ensures
        selected(mask).len() <= mask.len(),
        forall|k: int|
            0 <= k < selected(mask).len() ==> 0 <= #[trigger] selected(mask)[k] < mask.len()
                && mask[selected(mask)[k]],
        forall|j: int, k: int|
            0 <= j < k < selected(mask).len() ==> #[trigger] selected(mask)[j]
                < #[trigger] selected(mask)[k],
    decreases mask.len(),
{
    if mask.len() > 0 {
        lemma_selected(mask.drop_last());
    }
}

/// Rows taken from a valid batch make up a valid batch.
pub proof fn lemma_take_valid(batch: BatchView, indices: Seq<int>)
    requires
        batch.valid(),
        forall|k: int| 0 <= k < indices.len() ==> 0 <= #[trigger] indices[k] < batch.num_rows,
    ensures
        batch.take(indices).valid(),
{
    let taken = batch.take(indices);
    assert forall|i: int| 0 <= i < taken.columns.len() implies (#[trigger] taken.columns[i])
        == batch.columns[i].take(indices) && taken.columns[i].well_typed() && !null_forbidden(
        taken.fields,
        taken.columns,
        i,
    ) && !type_differs(taken.fields, taken.columns, i) by {
        let before = batch.columns[i];
        let after = taken.columns[i];
        assert(before.well_typed());
        assert(before.cells.len() == batch.num_rows);
        assert(!null_forbidden(batch.fields, batch.columns, i));
        assert(!type_differs(batch.fields, batch.columns, i));
        assert forall|k: int| 0 <= k < after.cells.len() implies #[trigger] after.cells[k]
            == before.cells[indices[k]] && after.cells[k].fits(after.data_type) by {
            assert(0 <= indices[k] < batch.num_rows);
        }
        if after.has_null() {
            let k = choose|k: int| 0 <= k < after.cells.len() && #[trigger] after.cells[k] is Null;
            assert(before.cells[indices[k]] is Null);
        }
    }
}

impl Clone for DataType {
    fn clone(&self) -> (r: Self)
        ensures
            r@ == self@,
    {
        match self {
            DataType::Float64 => DataType::Float64,
            DataType::Utf8 => DataType::Utf8,
            DataType::Binary => DataType::Binary,
            DataType::Boolean => DataType::Boolean,
            DataType::UInt16 => DataType::UInt16,
            DataType::Int8 => DataType::Int8,
            DataType::Int16 => DataType::Int16,
            DataType::Int32 => DataType::Int32,
            DataType::Float32 => DataType::Float32,
            DataType::Date32 => DataType::Date32,
            DataType::UInt8 => DataType::UInt8,
            DataType::UInt32 => DataType::UInt32,
            DataType::UInt64 => DataType::UInt64,
            DataType::Int64 => DataType::Int64,
            DataType::Timestamp(unit, zone) => DataType::Timestamp(
                *unit,
                match zone {
                    Some(z) => Some(z.clone()),
                    None => None,
                },
            ),
            DataType::DictionaryBinary => DataType::DictionaryBinary,
            DataType::Other(name) => DataType::Other(name.clone()),
        }
    }
}

impl DataType {
    /// Whether two types are the same.
    pub fn same(&self, other: &DataType) -> (r: bool)
        ensures
            r == (self@ == other@),
    {
        match (self, other) {
            (DataType::Float64, DataType::Float64) => true,
            (DataType::Utf8, DataType::Utf8) => true,
            (DataType::Binary, DataType::Binary) => true,
            (DataType::Boolean, DataType::Boolean) => true,
            (DataType::UInt16, DataType::UInt16) => true,
            (DataType::Int8, DataType::Int8) => true,
            (DataType::Int16, DataType::Int16) => true,
            (DataType::Int32, DataType::Int32) => true,
            (DataType::Float32, DataType::Float32) => true,
            (DataType::Date32, DataType::Date32) => true,
            (DataType::UInt8, DataType::UInt8) => true,
            (DataType::UInt32, DataType::UInt32) => true,
            (DataType::UInt64, DataType::UInt64) => true,
            (DataType::Int64, DataType::Int64) => true,
            (DataType::Timestamp(a, za), DataType::Timestamp(b, zb)) => *a == *b && match (za, zb) {
                (Some(x), Some(y)) => text_equal(x.as_str(), y.as_str()),
                (None, None) => true,
                _ => false,
            },
            (DataType::DictionaryBinary, DataType::DictionaryBinary) => true,
            (DataType::Other(a), DataType::Other(b)) => text_equal(a.as_str(), b.as_str()),
            _ => false,
        }
    }
}

impl Clone for Cell {
    fn clone(&self) -> (r: Self)
        ensures
            r@ == self@,
    {
        match self {
            Cell::Null => Cell::Null,
            Cell::Float64(v) => Cell::Float64(*v),
            Cell::Utf8(v) => Cell::Utf8(v.clone()),
            Cell::Binary(v) => {
                let bytes = vstd::slice::slice_to_vec(v.as_slice());
                Cell::Binary(bytes)
            },
            Cell::Boolean(v) => Cell::Boolean(*v),
            Cell::UInt16(v) => Cell::UInt16(*v),
            Cell::Int8(v) => Cell::Int8(*v),
            Cell::Int16(v) => Cell::Int16(*v),
            Cell::Int32(v) => Cell::Int32(*v),
            Cell::Float32(v) => Cell::Float32(*v),
            Cell::Other(v) => {
                let bytes = vstd::slice::slice_to_vec(v.as_slice());
                Cell::Other(bytes)
            },
            Cell::UInt8(v) => Cell::UInt8(*v),
            Cell::UInt32(v) => Cell::UInt32(*v),
            Cell::UInt64(v) => Cell::UInt64(*v),
            Cell::Int64(v) => Cell::Int64(*v),
        }
    }
}

impl Clone for Field {
    fn clone(&self) -> (r: Self)
        ensures
            r@ == self@,
    {
        Field {
            name: self.name.clone(),
            data_type: self.data_type.clone(),
            nullable: self.nullable,
        }
    }
}

impl Clone for Schema {
    fn clone(&self) -> (r: Self)
        ensures
            r@ == self@,
    {
        let mut fields: Vec<Field> = Vec::new();
        let mut i: usize = 0;
        while i < self.fields.len()
            invariant
                i <= self.fields@.len(),
                fields@.map_values(|f: Field| f@) == self@.take(i as int),
            decreases self.fields@.len() - i,
        {
            let f = self.fields[i].clone();
            let ghost before = fields@;
            fields.push(f);
            i = i + 1;
            assert(fields@.map_values(|f: Field| f@) =~= before.map_values(|f: Field| f@).push(f@));
            assert(self@.take(i as int) =~= self@.take(i - 1).push(f@));
        }
        assert(self@.take(i as int) =~= self@);
        Schema { fields }
    }
}

/// A copy of a list of byte strings.
pub fn clone_byte_strings(values: &Vec<Vec<u8>>) -> (r: Vec<Vec<u8>>)
    ensures
        r@.map_values(|v: Vec<u8>| v@) == values@.map_values(|v: Vec<u8>| v@),
{
    let mut out: Vec<Vec<u8>> = Vec::new();
    let mut i: usize = 0;
    while i < values.len()
        invariant
            i <= values@.len(),
            out@.len() == i,
            forall|k: int| 0 <= k < i ==> (#[trigger] out@[k])@ == values@[k]@,
        decreases values@.len() - i,
    {
        out.push(vstd::slice::slice_to_vec(values[i].as_slice()));
        i = i + 1;
    }
    assert(out@.map_values(|v: Vec<u8>| v@) =~= values@.map_values(|v: Vec<u8>| v@));
    out
}

impl Column {
    /// A column without a dictionary.
    pub fn new(data_type: DataType, cells: Vec<Cell>) -> (r: Self)
        ensures
            r@ == (ColumnView {
                data_type: data_type@,
                cells: cells_view(cells@),
                dictionary: Seq::empty(),
            }),
    {
        let r = Column { data_type, cells, dictionary: Vec::new() };
        assert(r@.dictionary =~= Seq::<Seq<u8>>::empty());
        r
    }

    /// The number of rows.
    pub fn len(&self) -> (r: usize)
        ensures
            r == self@.cells.len(),
    {
        self.cells.len()
    }

    /// Whether the column holds a null.
    pub fn has_null(&self) -> (r: bool)
        ensures
            r == self@.has_null(),
    {
        let mut i: usize = 0;
        while i < self.cells.len()
            invariant
                i <= self.cells@.len(),
                forall|k: int| 0 <= k < i ==> !(#[trigger] self@.cells[k] is Null),
            decreases self.cells@.len() - i,
        {
            if let Cell::Null = &self.cells[i] {
                assert(self@.cells[i as int] is Null);
                return true;
            }
            assert(self@.cells[i as int] == self.cells@[i as int]@);
            i = i + 1;
        }
        false
    }

    /// The column's rows at `indices`, in that order.
    pub fn take(&self, indices: &Vec<usize>) -> (r: Column)
        requires
            forall|k: int| 0 <= k < indices@.len() ==> #[trigger] indices@[k] < self@.cells.len(),
        ensures
            r@ == self@.take(indices@.map_values(|i: usize| i as int)),
    {
        let mut cells: Vec<Cell> = Vec::new();
        let mut k: usize = 0;
        while k < indices.len()
            invariant
                k <= indices@.len(),
                cells@.len() == k,
                forall|j: int|
                    0 <= j < indices@.len() ==> #[trigger] indices@[j] < self@.cells.len(),
                forall|j: int|
                    0 <= j < k ==> (#[trigger] cells@[j])@ == self@.cells[indices@[j] as int],
            decreases indices@.len() - k,
        {
            let at: usize = indices[k];
            assert(indices@[k as int] < self@.cells.len());
            cells.push(self.cells[at].clone());
            k = k + 1;
        }
        let r = Column {
            data_type: self.data_type.clone(),
            cells,
            dictionary: clone_byte_strings(&self.dictionary),
        };
        assert(r@.cells =~= self@.take(indices@.map_values(|i: usize| i as int)).cells);
        r
    }
}

impl Clone for Column {
    fn clone(&self) -> (r: Self)
        ensures
            r@ == self@,
    {
        let mut cells: Vec<Cell> = Vec::new();
        let mut k: usize = 0;
        while k < self.cells.len()
            invariant
                k <= self.cells@.len(),
                cells@.len() == k,
                forall|j: int| 0 <= j < k ==> (#[trigger] cells@[j])@ == self.cells@[j]@,
            decreases self.cells@.len() - k,
        {
            cells.push(self.cells[k].clone());
            k = k + 1;
        }
        let r = Column {
            data_type: self.data_type.clone(),
            cells,
            dictionary: clone_byte_strings(&self.dictionary),
        };
        assert(r@.cells =~= self@.cells);
        r
    }
}

impl RecordBatch {
    /// A record batch of `columns`, where they follow the schema: as many as there
    /// are fields, at least one, of one length, of the fields' types, and without
    /// nulls where a field allows none.
    pub fn try_new(schema: Schema, columns: Vec<Column>) -> (r: Result<RecordBatch, BatchError>)
        ensures
            r is Ok <==> batch_fits(schema@, columns_view(columns@)),
            r matches Ok(batch) ==> batch@ == (BatchView {
                fields: schema@,
                columns: columns_view(columns@),
                num_rows: columns_view(columns@)[0].cells.len(),
            }),
            r matches Err(e) ==> batch_error_is(schema@, columns_view(columns@), e),
    {
        let ghost fields = schema@;
        let ghost cols = columns_view(columns@);
        if schema.fields.len() != columns.len() {
            return Err(BatchError::ColumnCount);
        }
        if columns.len() == 0 {
            return Err(BatchError::NoColumn);
        }
        let num_rows: usize = columns[0].len();
        let mut i: usize = 0;
        while i < columns.len()
            invariant
                i <= columns@.len(),
                fields == schema@,
                cols == columns_view(columns@),
                fields.len() == cols.len(),
                forall|k: int| 0 <= k < i ==> !#[trigger] null_forbidden(fields, cols, k),
            decreases columns@.len() - i,
        {
            assert(fields[i as int] == schema.fields@[i as int]@);
            assert(cols[i as int] == columns@[i as int]@);
            if !schema.fields[i].nullable && columns[i].has_null() {
                assert(null_forbidden(fields, cols, i as int));
                return Err(BatchError::UnexpectedNull(i));
            }
            i = i + 1;
        }
        i = 0;
        while i < columns.len()
            invariant
                i <= columns@.len(),
                cols == columns_view(columns@),
                fields.len() == cols.len(),
                columns@.len() > 0,
                num_rows == cols[0].cells.len(),
                forall|k: int|
                    0 <= k < cols.len() ==> !#[trigger] null_forbidden(fields, cols, k),
                forall|k: int|
                    0 <= k < i ==> (#[trigger] cols[k]).cells.len() == cols[0].cells.len(),
                fields == schema@,
            decreases columns@.len() - i,
        {
            assert(cols[i as int] == columns@[i as int]@);
            if columns[i].len() != num_rows {
                return Err(BatchError::UnequalLengths);
            }
            i = i + 1;
        }
        i = 0;
        while i < columns.len()
            invariant
                i <= columns@.len(),
                fields == schema@,
                cols == columns_view(columns@),
                fields.len() == cols.len(),
                columns@.len() > 0,
                num_rows == cols[0].cells.len(),
                forall|k: int|
                    0 <= k < cols.len() ==> !#[trigger] null_forbidden(fields, cols, k),
                forall|k: int|
                    0 <= k < cols.len() ==> (#[trigger] cols[k]).cells.len()
                        == cols[0].cells.len(),
                forall|k: int| 0 <= k < i ==> !#[trigger] type_differs(fields, cols, k),
            decreases columns@.len() - i,
        {
            assert(fields[i as int] == schema.fields@[i as int]@);
            assert(cols[i as int] == columns@[i as int]@);
            if !columns[i].data_type.same(&schema.fields[i].data_type) {
                assert(type_differs(fields, cols, i as int));
                return Err(BatchError::TypeMismatch(i));
            }
            i = i + 1;
        }
        Ok(RecordBatch { schema, columns, num_rows })
    }
}

/// The places where a mask is true, in order.
pub fn selected_rows(mask: &Vec<bool>) -> (r: Vec<usize>)
    ensures
        r@.map_values(|i: usize| i as int) == selected(mask@),
{
    let mut rows: Vec<usize> = Vec::new();
    let mut i: usize = 0;
    while i < mask.len()
        invariant
            i <= mask@.len(),
            rows@.map_values(|i: usize| i as int) == selected(mask@.take(i as int)),
        decreases mask@.len() - i,
    {
        assert(mask@.take(i + 1).drop_last() =~= mask@.take(i as int));
        let ghost before = rows@.map_values(|i: usize| i as int);
        if mask[i] {
            rows.push(i);
            assert(rows@.map_values(|i: usize| i as int) =~= before.push(i as int));
        }
        i = i + 1;
    }
    assert(mask@.take(i as int) =~= mask@);
    rows
}

/// The rows of a batch for which a mask is true. There is no answer where the mask
/// has more entries than the batch has rows; rows past a shorter mask are left out.
pub fn filter_record_batch(batch: &RecordBatch, mask: &Vec<bool>) -> (r: Option<RecordBatch>)
    requires
        batch@.valid(),
    ensures
        r is Some <==> mask@.len() <= batch@.num_rows,
        r matches Some(filtered) ==> filtered@ == batch@.take(selected(mask@))
            && filtered@.valid(),
{
    if mask.len() > batch.num_rows {
        return None;
    }
    let rows = selected_rows(mask);
    let ghost indices = selected(mask@);
    proof {
        lemma_selected(mask@);
        lemma_take_valid(batch@, indices);
    }
    let mut columns: Vec<Column> = Vec::new();
    let mut i: usize = 0;
    while i < batch.columns.len()
        invariant
            i <= batch.columns@.len(),
            batch@.valid(),
            columns@.len() == i,
            indices == rows@.map_values(|i: usize| i as int),
            forall|k: int|
                0 <= k < indices.len() ==> 0 <= #[trigger] indices[k] < batch@.num_rows,
            forall|k: int|
                0 <= k < i ==> (#[trigger] columns@[k])@ == batch.columns@[k]@.take(indices),
        decreases batch.columns@.len() - i,
    {
        assert(batch@.columns[i as int] == batch.columns@[i as int]@);
        assert(batch@.columns[i as int].cells.len() == batch@.num_rows);
        assert forall|k: int| 0 <= k < rows@.len() implies #[trigger] rows@[k]
            < batch.columns@[i as int]@.cells.len() by {
            assert(indices[k] == rows@[k]);
        }
        columns.push(batch.columns[i].take(&rows));
        i = i + 1;
    }
    let filtered = RecordBatch { schema: batch.schema.clone(), columns, num_rows: rows.len() };
    assert(filtered@.columns =~= batch@.take(indices).columns);
    Some(filtered)
}

impl Clone for RecordBatch {
    fn clone(&self) -> (r: Self)
        ensures
            r@ == self@,
    {
        let mut columns: Vec<Column> = Vec::new();
        let mut k: usize = 0;
        while k < self.columns.len()
            invariant
                k <= self.columns@.len(),
                columns@.len() == k,
                forall|j: int| 0 <= j < k ==> (#[trigger] columns@[j])@ == self.columns@[j]@,
            decreases self.columns@.len() - k,
        {
            columns.push(self.columns[k].clone());
            k = k + 1;
        }
        let r = RecordBatch { schema: self.schema.clone(), columns, num_rows: self.num_rows };
        assert(r@.columns =~= self@.columns);
        r
    }
}

/// What is said of a cell is what it holds: cells of which the same is said are of one kind and
/// hold the same.
pub proof fn law_cells_are_told_apart(cell: Cell)
    ensures
        match cell {
            Cell::Null => cell@ is Null,
            Cell::Float64(v) => cell@ == CellView::Float64(v),
            Cell::Utf8(v) => cell@ == CellView::Utf8(v@),
            Cell::Binary(v) => cell@ == CellView::Binary(v@),
            Cell::Boolean(v) => cell@ == CellView::Boolean(v),
            Cell::UInt8(v) => cell@ == CellView::UInt8(v),
            Cell::UInt16(v) => cell@ == CellView::UInt16(v),
            Cell::UInt32(v) => cell@ == CellView::UInt32(v),
            Cell::UInt64(v) => cell@ == CellView::UInt64(v),
            Cell::Int8(v) => cell@ == CellView::Int8(v),
            Cell::Int16(v) => cell@ == CellView::Int16(v),
            Cell::Int32(v) => cell@ == CellView::Int32(v),
            Cell::Int64(v) => cell@ == CellView::Int64(v),
            Cell::Float32(v) => cell@ == CellView::Float32(v),
            Cell::Other(v) => cell@ == CellView::Other(v@),
        },
{
}

/// What is said of a batch is what it holds: its fields, and in each column its cells and its
/// dictionary, each at its place.
pub proof fn law_batch_as_it_is(batch: RecordBatch)
    ensures
        batch@.num_rows == batch.num_rows,
        batch@.fields.len() == batch.schema.fields@.len(),
        forall|f: int|
            0 <= f < batch@.fields.len() ==> (#[trigger] batch@.fields[f]).name
                == batch.schema.fields@[f].name@ && batch@.fields[f].nullable
                == batch.schema.fields@[f].nullable && batch@.fields[f].data_type
                == batch.schema.fields@[f].data_type@,
        batch@.columns.len() == batch.columns@.len(),
        forall|c: int|
            0 <= c < batch@.columns.len() ==> {
                let column = #[trigger] batch@.columns[c];
                &&& column.data_type == batch.columns@[c].data_type@
                &&& column.cells.len() == batch.columns@[c].cells@.len()
                &&& column.dictionary.len() == batch.columns@[c].dictionary@.len()
            },
        forall|c: int, k: int|
            0 <= c < batch@.columns.len() && 0 <= k < batch.columns@[c].cells@.len()
                ==> #[trigger] batch@.columns[c].cells[k] == batch.columns@[c].cells@[k]@,
        forall|c: int, k: int|
            0 <= c < batch@.columns.len() && 0 <= k < batch.columns@[c].dictionary@.len()
                ==> #[trigger] batch@.columns[c].dictionary[k] == batch.columns@[c].dictionary@[k]@,
{
    assert forall|c: int| 0 <= c < batch@.columns.len() implies #[trigger] batch@.columns[c]
        == batch.columns@[c]@ by {}
}

/// A mask selects the places at which it is true, and no others, in ascending order.
pub proof fn law_mask_selects(mask: Seq<bool>)
    ensures
        forall|i: int| 0 <= i < mask.len() ==> (#[trigger] mask[i] <==> selected(mask).contains(i)),
        forall|k: int|
            0 <= k < selected(mask).len() ==> 0 <= #[trigger] selected(mask)[k] < mask.len(),
        forall|j: int, k: int|
            0 <= j < k < selected(mask).len() ==> #[trigger] selected(mask)[j]
                < #[trigger] selected(mask)[k],
    decreases mask.len(),
{
    lemma_selected(mask);
    if mask.len() > 0 {
        let rest = mask.drop_last();
        law_mask_selects(rest);
        let before = selected(rest);
        let all = selected(mask);
        assert forall|i: int| 0 <= i < mask.len() implies (#[trigger] mask[i] <==> all.contains(
            i,
        )) by {
            if all.contains(i) {
                let k = choose|k: int| 0 <= k < all.len() && all[k] == i;
                assert(mask[all[k]]);
            }
            if mask[i] {
                if i < rest.len() {
                    assert(rest[i]);
                    let k = choose|k: int| 0 <= k < before.len() && before[k] == i;
                    assert(all[k] == i);
                } else {
                    assert(all[before.len() as int] == i);
                }
            }
        }
    }
}

/// The rows of a batch for which a mask is true are left, in their order, each cell as it was;
/// the batch keeps its fields and its columns their types.
pub proof fn law_filter_keeps_rows(batch: BatchView, mask: Seq<bool>, k: int) -> (row: int)
    requires
        batch.valid(),
        mask.len() <= batch.num_rows,
        0 <= k < batch.take(selected(mask)).num_rows,
    ensures
        0 <= row < mask.len(),
        mask[row],
        selected(mask)[k] == row,
        batch.take(selected(mask)).fields == batch.fields,
        batch.take(selected(mask)).columns.len() == batch.columns.len(),
        batch.take(selected(mask)).num_rows == selected(mask).len(),
        forall|c: int|
            0 <= c < batch.columns.len() ==> (#[trigger] batch.take(
                selected(mask),
            ).columns[c]).cells[k] == batch.columns[c].cells[row] && batch.take(
                selected(mask),
            ).columns[c].data_type == batch.columns[c].data_type && batch.take(
                selected(mask),
            ).columns[c].dictionary == batch.columns[c].dictionary,
{
    lemma_selected(mask);
    selected(mask)[k]
}

/// Columns make up a batch of a schema where there are as many as fields and at least one, each
/// is of its field's type, all are of one length, and none has a null that its field forbids.
/// Where they do not, what is told is wrong indeed, and of several faults the first of these is
/// told: the number of columns, nulls, lengths, types.
pub proof fn law_batch_or_fault(fields: Seq<FieldView>, columns: Seq<ColumnView>)
    ensures
        batch_fits(fields, columns) <==> {
            &&& fields.len() == columns.len()
            &&& columns.len() > 0
            &&& forall|c: int|
                0 <= c < columns.len() ==> (#[trigger] columns[c]).data_type == fields[c].data_type
                    && columns[c].cells.len() == columns[0].cells.len()
            &&& forall|c: int, k: int|
                0 <= c < columns.len() && !fields[c].nullable && 0 <= k < columns[c].cells.len()
                    ==> !(#[trigger] columns[c].cells[k] is Null)
        },
        forall|e: BatchError| #[trigger]
            batch_error_is(fields, columns, e) ==> !batch_fits(fields, columns),
        forall|e: BatchError, f: BatchError| #[trigger]
            batch_error_is(fields, columns, e) && #[trigger] batch_error_is(fields, columns, f)
                ==> e == f,
        forall|at: usize|
            #[trigger] batch_error_is(fields, columns, BatchError::TypeMismatch(at)) ==> at
                < columns.len() && columns[at as int].data_type != fields[at as int].data_type,
        forall|at: usize|
            #[trigger] batch_error_is(fields, columns, BatchError::UnexpectedNull(at)) ==> at
                < columns.len() && !fields[at as int].nullable && exists|k: int|
                0 <= k < columns[at as int].cells.len()
                    && #[trigger] columns[at as int].cells[k] is Null,
        batch_error_is(fields, columns, BatchError::ColumnCount) <==> fields.len() != columns.len(),
        batch_error_is(fields, columns, BatchError::NoColumn) <==> fields.len() == 0
            && columns.len() == 0,
        batch_error_is(fields, columns, BatchError::UnequalLengths) ==> exists|c: int|
            0 <= c < columns.len() && (#[trigger] columns[c]).cells.len() != columns[0].cells.len(),
{
    if fields.len() == columns.len() && columns.len() > 0 && (forall|c: int|
        0 <= c < columns.len() ==> (#[trigger] columns[c]).data_type == fields[c].data_type
            && columns[c].cells.len() == columns[0].cells.len()) && (forall|c: int, k: int|
        0 <= c < columns.len() && !fields[c].nullable && 0 <= k < columns[c].cells.len() ==> !(
        #[trigger] columns[c].cells[k] is Null)) {
        assert(batch_fits(fields, columns));
    }
    if batch_fits(fields, columns) {
        assert forall|c: int| 0 <= c < columns.len() implies (#[trigger] columns[c]).data_type
            == fields[c].data_type by {
            assert(!type_differs(fields, columns, c));
        }
        assert forall|c: int, k: int|
            0 <= c < columns.len() && !fields[c].nullable && 0 <= k
                < columns[c].cells.len() implies !(#[trigger] columns[c].cells[k] is Null) by {
            assert(!null_forbidden(fields, columns, c));
        }
    }
    assert forall|e: BatchError, f: BatchError| #[trigger]
        batch_error_is(fields, columns, e) && #[trigger] batch_error_is(
            fields,
            columns,
            f,
        ) implies e == f by {
        match (e, f) {
            (BatchError::UnexpectedNull(a), BatchError::UnexpectedNull(b)) => {
                assert(null_forbidden(fields, columns, a as int));
                assert(null_forbidden(fields, columns, b as int));
            },
            (BatchError::TypeMismatch(a), BatchError::TypeMismatch(b)) => {
                assert(type_differs(fields, columns, a as int));
                assert(type_differs(fields, columns, b as int));
            },
            (BatchError::UnexpectedNull(a), _) => {
                assert(null_forbidden(fields, columns, a as int));
            },
            (_, BatchError::UnexpectedNull(b)) => {
                assert(null_forbidden(fields, columns, b as int));
            },
            _ => {},
        }
    }
}

/// A batch that is filtered has the rows for which the mask is true, in their order, each cell as
/// it was, and no other row; it is refused exactly where the mask is longer than the batch.
/// Gives the places of the rows that are left.
pub proof fn law_filtered_batch(
    batch: RecordBatch,
    mask: Vec<bool>,
    r: Option<RecordBatch>,
) -> (at: Seq<int>)
    requires
        batch@.valid(),
        call_ensures(filter_record_batch, (&batch, &mask), r),
    ensures
        r is Some <==> mask@.len() <= batch@.num_rows,
        r matches Some(filtered) ==> {
            &&& filtered@.num_rows == at.len()
            &&& filtered@.fields == batch@.fields
            &&& filtered@.columns.len() == batch@.columns.len()
            &&& forall|k: int| 0 <= k < at.len() ==> 0 <= #[trigger] at[k] < mask@.len()
            &&& forall|j: int, k: int|
                0 <= j < k < at.len() ==> #[trigger] at[j] < #[trigger] at[k]
            &&& forall|i: int| 0 <= i < mask@.len() ==> (#[trigger] mask@[i] <==> at.contains(i))
            &&& forall|c: int, k: int|
                0 <= c < filtered@.columns.len() && 0 <= k < at.len()
                    ==> #[trigger] filtered@.columns[c].cells[k] == batch@.columns[c].cells[at[k]]
        },
{
    law_mask_selects(mask@);
    let at = selected(mask@);
    if let Some(filtered) = r {
        assert forall|c: int, k: int|
            0 <= c < filtered@.columns.len() && 0 <= k < at.len() implies
            #[trigger] filtered@.columns[c].cells[k] == batch@.columns[c].cells[at[k]] by {
            let row = law_filter_keeps_rows(batch@, mask@, k);
            assert(batch@.take(selected(mask@)).columns[c].cells[k]
                == batch@.columns[c].cells[row]);
        }
    }
    at
}

/// Columns make up a batch, as they are, exactly where there is a column for each field, of its
/// type, as long as the others, and without nulls where the field has none.
pub proof fn law_new_batch(schema: Schema, columns: Vec<Column>, r: Result<RecordBatch, BatchError>)
    requires
        call_ensures(RecordBatch::try_new, (schema, columns), r),
    ensures
        r is Ok <==> {
            &&& schema@.len() == columns@.len()
            &&& columns@.len() > 0
            &&& forall|c: int|
                0 <= c < columns@.len() ==> (#[trigger] columns@[c])@.data_type
                    == schema@[c].data_type && columns@[c]@.cells.len() == columns@[0]@.cells.len()
            &&& forall|c: int, k: int|
                0 <= c < columns@.len() && !schema@[c].nullable && 0 <= k
                    < columns@[c]@.cells.len() ==> !(#[trigger] columns@[c]@.cells[k] is Null)
        },
        r matches Ok(batch) ==> {
            &&& batch@.fields == schema@
            &&& batch@.columns.len() == columns@.len()
            &&& forall|c: int| 0 <= c < columns@.len() ==> #[trigger] batch@.columns[c]
                == columns@[c]@
            &&& batch@.num_rows == columns@[0]@.cells.len()
        },
{
    let views = columns_view(columns@);
    law_batch_or_fault(schema@, views);
    assert(views.len() == columns@.len());
    assert forall|c: int| 0 <= c < columns@.len() implies #[trigger] views[c]
        == columns@[c]@ by {}
    let fits = {
        &&& schema@.len() == columns@.len()
        &&& columns@.len() > 0
        &&& forall|c: int|
            0 <= c < columns@.len() ==> (#[trigger] columns@[c])@.data_type == schema@[c].data_type
                && columns@[c]@.cells.len() == columns@[0]@.cells.len()
        &&& forall|c: int, k: int|
            0 <= c < columns@.len() && !schema@[c].nullable && 0 <= k < columns@[c]@.cells.len()
                ==> !(#[trigger] columns@[c]@.cells[k] is Null)
    };
    if fits {
        assert forall|c: int| 0 <= c < views.len() implies (#[trigger] views[c]).data_type
            == schema@[c].data_type && views[c].cells.len() == views[0].cells.len() by {
            assert(columns@[c]@.data_type == schema@[c].data_type);
        }
        assert forall|c: int, k: int|
            0 <= c < views.len() && !schema@[c].nullable && 0 <= k < views[c].cells.len() implies !(
        #[trigger] views[c].cells[k] is Null) by {
            assert(!(columns@[c]@.cells[k] is Null));
        }
        assert(batch_fits(schema@, views));
    }
    if batch_fits(schema@, views) {
        assert forall|c: int| 0 <= c < columns@.len() implies (
        #[trigger] columns@[c])@.data_type == schema@[c].data_type && columns@[c]@.cells.len()
            == columns@[0]@.cells.len() by {
            assert(views[c].data_type == schema@[c].data_type);
        }
        assert forall|c: int, k: int|
            0 <= c < columns@.len() && !schema@[c].nullable && 0 <= k
                < columns@[c]@.cells.len() implies !(#[trigger] columns@[c]@.cells[k] is Null) by {
            assert(!(views[c].cells[k] is Null));
        }
    }
}

} // verus!

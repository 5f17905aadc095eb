//! Builders that collect the rows of a table, column by column.

use vstd::prelude::*;

use crate::arrow_builders;
use crate::arrow_builders::{Int64Cells, StringCells, UInt64Cells};
use crate::lists;
use crate::record_batch;
use crate::record_batch::{
    BatchError, BatchView, Cell, CellView, Column, ColumnView, DataType, FieldView, RecordBatch,
    Schema, TimeUnit, TypeView,
};
use crate::rows;
use crate::rows::{Rows, RowsView, ValueData, ValueView};

verus! {

/// What is known of a table that rows are written to.
#[derive(Debug)]
pub struct TableInfo {
    pub table_id: u32,
    pub name: String,
}

/// What a [`TableInfo`] says.
pub struct TableInfoView {
    pub table_id: u32,
    pub name: Seq<char>,
}

/// Why rows could not be collected.
#[derive(Debug)]
pub enum BuildError {
    /// No builder collects columns of this type.
    UnsupportedColumnType(DataType),
    /// The value is not of its column's type.
    UnexpectedValue(ValueData),
    /// A row has not as many values as there are columns.
    ColumnCountMismatch { row: usize, expected: usize, got: usize },
    /// Nothing is known of the table of this name.
    MissingTableInfo(String),
    /// The columns do not make up a record batch.
    Arrow(BatchError),
}

/// What a [`BuildError`] says.
pub enum BuildErrorView {
    UnsupportedColumnType(TypeView),
    UnexpectedValue(ValueView),
    ColumnCountMismatch { row: int, expected: int, got: int },
    MissingTableInfo(Seq<char>),
    Arrow(BatchError),
}

/// Collects the values of one column. Timestamps of every unit are `i64`, and
/// floating-point values are held by their bits.
pub enum ColumnBuilder {
    Float64(UInt64Cells),
    Utf8(StringCells),
    TimestampSecond(Int64Cells),
    TimestampMillisecond(Int64Cells),
    TimestampMicrosecond(Int64Cells),
    TimestampNanosecond(Int64Cells),
}

/// What a [`ColumnBuilder`] has collected.
#[verifier::ext_equal]
pub struct BuilderView {
    pub data_type: TypeView,
    pub cells: Seq<CellView>,
}

/// Collects the rows of one table.
pub struct TableBuilders {
    pub table_name: String,
    pub table_info: Option<TableInfo>,
    pub schema: Schema,
    pub builders: Vec<ColumnBuilder>,
    pub row_count: usize,
}

/// What [`TableBuilders`] have collected.
#[verifier::ext_equal]
pub struct TableView {
    pub table_name: Seq<char>,
    pub table_info: Option<TableInfoView>,
    pub fields: Seq<FieldView>,
    pub columns: Seq<BuilderView>,
    pub row_count: nat,
}

impl View for TableInfo {
    type V = TableInfoView;

    open spec fn view(&self) -> TableInfoView {
        TableInfoView { table_id: self.table_id, name: self.name@ }
    }
}

impl View for BuildError {
    type V = BuildErrorView;

    open spec fn view(&self) -> BuildErrorView {
        match self {
            BuildError::UnsupportedColumnType(t) => BuildErrorView::UnsupportedColumnType(t@),
            BuildError::UnexpectedValue(v) => BuildErrorView::UnexpectedValue(v@),
            BuildError::ColumnCountMismatch { row, expected, got } => {
                BuildErrorView::ColumnCountMismatch {
                    row: *row as int,
                    expected: *expected as int,
                    got: *got as int,
                }
            },
            BuildError::MissingTableInfo(name) => BuildErrorView::MissingTableInfo(name@),
            BuildError::Arrow(e) => BuildErrorView::Arrow(*e),
        }
    }
}

/// A collected timestamp as a cell.
pub open spec fn int64_cell(v: Option<i64>) -> CellView {
    match v {
        Some(v) => CellView::Int64(v),
        None => CellView::Null,
    }
}

/// A collected floating-point value as a cell.
pub open spec fn float64_cell(v: Option<u64>) -> CellView {
    match v {
        Some(v) => CellView::Float64(v),
        None => CellView::Null,
    }
}

/// A collected string as a cell.
pub open spec fn utf8_cell(v: Option<Seq<char>>) -> CellView {
    match v {
        Some(v) => CellView::Utf8(v),
        None => CellView::Null,
    }
}

impl View for ColumnBuilder {
    type V = BuilderView;

    open spec fn view(&self) -> BuilderView {
        match self {
            ColumnBuilder::Float64(b) => BuilderView {
                data_type: TypeView::Float64,
                cells: arrow_builders::uint64_cells(*b).map_values(|v: Option<u64>| float64_cell(v)),
            },
            ColumnBuilder::Utf8(b) => BuilderView {
                data_type: TypeView::Utf8,
                cells: arrow_builders::string_cells(*b).map_values(
                    |v: Option<Seq<char>>| utf8_cell(v),
                ),
            },
            ColumnBuilder::TimestampSecond(b) => timestamps(TimeUnit::Second, *b),
            ColumnBuilder::TimestampMillisecond(b) => timestamps(TimeUnit::Millisecond, *b),
            ColumnBuilder::TimestampMicrosecond(b) => timestamps(TimeUnit::Microsecond, *b),
            ColumnBuilder::TimestampNanosecond(b) => timestamps(TimeUnit::Nanosecond, *b),
        }
    }
}

/// A column of timestamps without a time zone.
pub open spec fn timestamps(unit: TimeUnit, b: Int64Cells) -> BuilderView {
    BuilderView {
        data_type: TypeView::Timestamp(unit, None),
        cells: arrow_builders::int64_cells(b).map_values(|v: Option<i64>| int64_cell(v)),
    }
}

impl View for TableBuilders {
    type V = TableView;

    open spec fn view(&self) -> TableView {
        TableView {
            table_name: self.table_name@,
            table_info: match self.table_info {
                Some(info) => Some(info@),
                None => None,
            },
            fields: self.schema@,
            columns: self.builders@.map_values(|b: ColumnBuilder| b@),
            row_count: self.row_count as nat,
        }
    }
}

/// The type that a builder for columns of type `t` collects, where there is one.
/// The time zone of a timestamp type is not kept.
pub open spec fn builder_type(t: TypeView) -> Option<TypeView> {
    match t {
        TypeView::Float64 => Some(TypeView::Float64),
        TypeView::Utf8 => Some(TypeView::Utf8),
        TypeView::Timestamp(unit, _) => Some(TypeView::Timestamp(unit, None)),
        _ => None,
    }
}

/// The cell that a builder of type `t` makes of a value; none where the value is of
/// another type. A date-time counts as a timestamp in microseconds.
pub open spec fn accepted(t: TypeView, value: Option<ValueView>) -> Option<CellView> {
    match value {
        None => Some(CellView::Null),
        Some(ValueView::F64Value(v)) => if t is Float64 {
            Some(CellView::Float64(v))
        } else {
            None
        },
        Some(ValueView::StringValue(v)) => if t is Utf8 {
            Some(CellView::Utf8(v))
        } else {
            None
        },
        Some(ValueView::TimestampSecondValue(v)) => if t == TypeView::Timestamp(
            TimeUnit::Second,
            None,
        ) {
            Some(CellView::Int64(v))
        } else {
            None
        },
        Some(ValueView::TimestampMillisecondValue(v)) => if t == TypeView::Timestamp(
            TimeUnit::Millisecond,
            None,
        ) {
            Some(CellView::Int64(v))
        } else {
            None
        },
        Some(ValueView::TimestampMicrosecondValue(v)) | Some(ValueView::DatetimeValue(v)) => if t
            == TypeView::Timestamp(TimeUnit::Microsecond, None) {
            Some(CellView::Int64(v))
        } else {
            None
        },
        Some(ValueView::TimestampNanosecondValue(v)) => if t == TypeView::Timestamp(
            TimeUnit::Nanosecond,
            None,
        ) {
            Some(CellView::Int64(v))
        } else {
            None
        },
        Some(_) => None,
    }
}

/// The length of a cell's text in UTF-8.
pub open spec fn cell_text_bytes(cell: CellView) -> nat {
    match cell {
        CellView::Utf8(s) => vstd::utf8::encode_utf8(s).len(),
        _ => 0,
    }
}

/// The length of all the text of a column, in UTF-8.
pub open spec fn text_bytes(cells: Seq<CellView>) -> nat
    decreases cells.len(),
{
    if cells.len() == 0 {
        0
    } else {
        text_bytes(cells.drop_last()) + cell_text_bytes(cells.last())
    }
}

proof fn lemma_text_bytes_strings(strings: Seq<Option<Seq<char>>>)
    ensures
        text_bytes(strings.map_values(|v: Option<Seq<char>>| utf8_cell(v)))
            == arrow_builders::total_bytes(strings),
    decreases strings.len(),
{
    let cells = strings.map_values(|v: Option<Seq<char>>| utf8_cell(v));
    if strings.len() > 0 {
        lemma_text_bytes_strings(strings.drop_last());
        assert(cells.drop_last() =~= strings.drop_last().map_values(
            |v: Option<Seq<char>>| utf8_cell(v),
        ));
    }
}

/// More cells hold no less text.
proof fn lemma_text_bytes_prefix(cells: Seq<CellView>, n: int)
    requires
        0 <= n <= cells.len(),
    ensures
        text_bytes(cells.take(n)) <= text_bytes(cells),
    decreases cells.len() - n,
{
    if n < cells.len() {
        lemma_text_bytes_prefix(cells, n + 1);
        assert(cells.take(n + 1).drop_last() =~= cells.take(n));
    } else {
        assert(cells.take(n) =~= cells);
    }
}

impl Clone for TableInfo {
    fn clone(&self) -> (r: Self)
        ensures
            r@ == self@,
    {
        TableInfo { table_id: self.table_id, name: self.name.clone() }
    }
}

impl ColumnBuilder {
    /// An empty builder for columns of the given type.
    pub fn new(data_type: &DataType) -> (r: Result<Self, BuildError>)
        ensures
            match (builder_type(data_type@), r) {
                (Some(t), Ok(b)) => b@ == (BuilderView { data_type: t, cells: Seq::empty() }),
                (None, Err(e)) => e@ == BuildErrorView::UnsupportedColumnType(data_type@),
                _ => false,
            },
    {
        let r = match data_type {
            DataType::Float64 => Ok(ColumnBuilder::Float64(arrow_builders::uint64_new())),
            DataType::Utf8 => Ok(ColumnBuilder::Utf8(arrow_builders::string_new())),
            DataType::Timestamp(unit, _) => match unit {
                TimeUnit::Second => Ok(
                    ColumnBuilder::TimestampSecond(arrow_builders::int64_new()),
                ),
                TimeUnit::Millisecond => Ok(
                    ColumnBuilder::TimestampMillisecond(arrow_builders::int64_new()),
                ),
                TimeUnit::Microsecond => Ok(
                    ColumnBuilder::TimestampMicrosecond(arrow_builders::int64_new()),
                ),
                TimeUnit::Nanosecond => Ok(
                    ColumnBuilder::TimestampNanosecond(arrow_builders::int64_new()),
                ),
            },
            other => Err(BuildError::UnsupportedColumnType(other.clone())),
        };
        assert(r matches Ok(b) ==> b@.cells =~= Seq::<CellView>::empty());
        r
    }

    /// Appends a value, or a null. A value of another type than the column's is
    /// refused and leaves the builder as it was.
    pub fn append_value_data(&mut self, value: Option<&ValueData>) -> (r: Result<(), BuildError>)
        requires
            value matches Some(v) ==> (v@ matches ValueView::StringValue(s) ==> (
            old(self)@.data_type is Utf8 ==> text_bytes(old(self)@.cells)
                + vstd::utf8::encode_utf8(s).len() <= i32::MAX)),
        ensures
            final(self)@.data_type == old(self)@.data_type,
            ({
                let given = match value {
                    Some(v) => Some(v@),
                    None => None,
                };
                match accepted(old(self)@.data_type, given) {
                    Some(cell) => r is Ok && final(self)@.cells == old(self)@.cells.push(cell),
                    None => r matches Err(e) && e@ == BuildErrorView::UnexpectedValue(given->0)
                        && *final(self) == *old(self),
                }
            }),
    {
        let ghost before = self@;
        match self {
            ColumnBuilder::Float64(builder) => match value {
                Some(ValueData::F64Value(v)) => arrow_builders::uint64_append_value(builder, *v),
                Some(v) => {
                    return Err(BuildError::UnexpectedValue(v.clone()));
                },
                None => arrow_builders::uint64_append_null(builder),
            },
            ColumnBuilder::Utf8(builder) => match value {
                Some(ValueData::StringValue(v)) => {
                    proof {
                        lemma_text_bytes_strings(arrow_builders::string_cells(*builder));
                    }
                    arrow_builders::string_append_value(builder, v.as_str())
                },
                Some(v) => {
                    return Err(BuildError::UnexpectedValue(v.clone()));
                },
                None => arrow_builders::string_append_null(builder),
            },
            ColumnBuilder::TimestampSecond(builder) => match value {
                Some(ValueData::TimestampSecondValue(v)) => arrow_builders::int64_append_value(
                    builder,
                    *v,
                ),
                Some(v) => {
                    return Err(BuildError::UnexpectedValue(v.clone()));
                },
                None => arrow_builders::int64_append_null(builder),
            },
            ColumnBuilder::TimestampMillisecond(builder) => match value {
                Some(ValueData::TimestampMillisecondValue(v)) => arrow_builders::int64_append_value(
                    builder,
                    *v,
                ),
                Some(v) => {
                    return Err(BuildError::UnexpectedValue(v.clone()));
                },
                None => arrow_builders::int64_append_null(builder),
            },
            ColumnBuilder::TimestampMicrosecond(builder) => match value {
                Some(ValueData::DatetimeValue(v)) => arrow_builders::int64_append_value(
                    builder,
                    *v,
                ),
                Some(ValueData::TimestampMicrosecondValue(v)) => arrow_builders::int64_append_value(
                    builder,
                    *v,
                ),
                Some(v) => {
                    return Err(BuildError::UnexpectedValue(v.clone()));
                },
                None => arrow_builders::int64_append_null(builder),
            },
            ColumnBuilder::TimestampNanosecond(builder) => match value {
                Some(ValueData::TimestampNanosecondValue(v)) => arrow_builders::int64_append_value(
                    builder,
                    *v,
                ),
                Some(v) => {
                    return Err(BuildError::UnexpectedValue(v.clone()));
                },
                None => arrow_builders::int64_append_null(builder),
            },
        }
        assert(self@.cells =~= before.cells.push(self@.cells.last()));
        Ok(())
    }

    /// Appends a null.
    pub fn append_null(&mut self)
        ensures
            final(self)@.data_type == old(self)@.data_type,
            final(self)@.cells == old(self)@.cells.push(CellView::Null),
    {
        let ghost before = self@;
        match self {
            ColumnBuilder::Float64(builder) => arrow_builders::uint64_append_null(builder),
            ColumnBuilder::Utf8(builder) => arrow_builders::string_append_null(builder),
            ColumnBuilder::TimestampSecond(builder) => arrow_builders::int64_append_null(builder),
            ColumnBuilder::TimestampMillisecond(builder) => arrow_builders::int64_append_null(
                builder,
            ),
            ColumnBuilder::TimestampMicrosecond(builder) => arrow_builders::int64_append_null(
                builder,
            ),
            ColumnBuilder::TimestampNanosecond(builder) => arrow_builders::int64_append_null(
                builder,
            ),
        }
        assert(self@.cells =~= before.cells.push(CellView::Null));
    }

    /// The column of what was collected.
    pub fn finish(self) -> (r: Column)
        ensures
            r@ == (ColumnView {
                data_type: self@.data_type,
                cells: self@.cells,
                dictionary: Seq::empty(),
            }),
            r@.well_typed(),
    {
        let ghost collected = self@;
        let r = match self {
            ColumnBuilder::Float64(builder) => Column::new(
                DataType::Float64,
                float64_column(arrow_builders::uint64_finish(builder)),
            ),
            ColumnBuilder::Utf8(builder) => {
                let cells = utf8_column(arrow_builders::string_finish(builder));
                assert(record_batch::cells_view(cells@) =~= collected.cells);
                Column::new(DataType::Utf8, cells)
            },
            ColumnBuilder::TimestampSecond(builder) => timestamp_column(TimeUnit::Second, builder),
            ColumnBuilder::TimestampMillisecond(builder) => timestamp_column(
                TimeUnit::Millisecond,
                builder,
            ),
            ColumnBuilder::TimestampMicrosecond(builder) => timestamp_column(
                TimeUnit::Microsecond,
                builder,
            ),
            ColumnBuilder::TimestampNanosecond(builder) => timestamp_column(
                TimeUnit::Nanosecond,
                builder,
            ),
        };
        assert(r@.cells =~= collected.cells);
        r
    }
}

/// Floating-point values as cells.
fn float64_column(values: Vec<Option<u64>>) -> (r: Vec<Cell>)
    ensures
        record_batch::cells_view(r@) == values@.map_values(|v: Option<u64>| float64_cell(v)),
{
    let mut cells: Vec<Cell> = Vec::new();
    let mut i: usize = 0;
    while i < values.len()
        invariant
            i <= values@.len(),
            cells@.len() == i,
            forall|k: int| 0 <= k < i ==> (#[trigger] cells@[k])@ == float64_cell(values@[k]),
        decreases values@.len() - i,
    {
        cells.push(
            match values[i] {
                Some(v) => Cell::Float64(v),
                None => Cell::Null,
            },
        );
        i = i + 1;
    }
    assert(record_batch::cells_view(cells@) =~= values@.map_values(
        |v: Option<u64>| float64_cell(v),
    ));
    cells
}

/// Strings as cells.
fn utf8_column(values: Vec<Option<String>>) -> (r: Vec<Cell>)
    ensures
        r@.len() == values@.len(),
        forall|k: int|
            0 <= k < r@.len() ==> (#[trigger] r@[k])@ == (match values@[k] {
                Some(s) => CellView::Utf8(s@),
                None => CellView::Null,
            }),
{
    let mut cells: Vec<Cell> = Vec::new();
    let mut i: usize = 0;
    while i < values.len()
        invariant
            i <= values@.len(),
            cells@.len() == i,
            forall|k: int|
                0 <= k < i ==> (#[trigger] cells@[k])@ == (match values@[k] {
                    Some(s) => CellView::Utf8(s@),
                    None => CellView::Null,
                }),
        decreases values@.len() - i,
    {
        let cell = match &values[i] {
            Some(v) => Cell::Utf8(v.clone()),
            None => Cell::Null,
        };
        cells.push(cell);
        i = i + 1;
    }
    cells
}

/// Collected timestamps as a column.
fn timestamp_column(unit: TimeUnit, builder: Int64Cells) -> (r: Column)
    ensures
        r@ == (ColumnView {
            data_type: TypeView::Timestamp(unit, None),
            cells: timestamps(unit, builder).cells,
            dictionary: Seq::empty(),
        }),
        r@.well_typed(),
{
    let values = arrow_builders::int64_finish(builder);
    let mut cells: Vec<Cell> = Vec::new();
    let mut i: usize = 0;
    while i < values.len()
        invariant
            i <= values@.len(),
            cells@.len() == i,
            forall|k: int| 0 <= k < i ==> (#[trigger] cells@[k])@ == int64_cell(values@[k]),
        decreases values@.len() - i,
    {
        cells.push(
            match values[i] {
                Some(v) => Cell::Int64(v),
                None => Cell::Null,
            },
        );
        i = i + 1;
    }
    let r = Column::new(DataType::Timestamp(unit, None), cells);
    assert(r@.cells =~= timestamps(unit, builder).cells);
    r
}

impl TableView {
    /// The column of `rows` that the table's column at `j` is filled from.
    pub open spec fn source(self, rows: RowsView, j: int) -> Option<int> {
        rows::last_index(rows.names(), self.fields[j].name)
    }

    /// The cell that row `r` of `rows` gives the column at `j`; none where the value
    /// is of another type. A column that `rows` do not name gets a null.
    pub open spec fn cell(self, rows: RowsView, r: int, j: int) -> Option<CellView> {
        match self.source(rows, j) {
            Some(s) => accepted(self.columns[j].data_type, rows.rows[r][s]),
            None => Some(CellView::Null),
        }
    }

    /// Row `r` gives the column at `j` a value of another type.
    pub open spec fn refuses(self, rows: RowsView, r: int, j: int) -> bool {
        0 <= r < rows.rows.len() && 0 <= j < self.columns.len() && self.cell(rows, r, j) is None
    }

    /// Row `r` gives the column at `j` the first value that is refused, row by row.
    pub open spec fn refuses_first(self, rows: RowsView, r: int, j: int) -> bool {
        &&& self.refuses(rows, r, j)
        &&& forall|r1: int, j1: int| #[trigger]
            self.refuses(rows, r1, j1) ==> r < r1 || (r == r1 && j <= j1)
    }

    /// Every value of `rows` is of its column's type.
    pub open spec fn accepts(self, rows: RowsView) -> bool {
        forall|r: int, j: int| !#[trigger] self.refuses(rows, r, j)
    }

    /// The first `n` cells that `rows` give the column at `j`.
    pub open spec fn new_cells(self, rows: RowsView, j: int, n: int) -> Seq<CellView> {
        Seq::new(
            n as nat,
            |r: int|
                match self.cell(rows, r, j) {
                    Some(cell) => cell,
                    None => CellView::Null,
                },
        )
    }

    /// The columns with the cells of the first `n` rows and, in the first `t`
    /// columns, that of one row more.
    pub open spec fn columns_with(self, rows: RowsView, n: int, t: int) -> Seq<BuilderView> {
        Seq::new(
            self.columns.len(),
            |j: int|
                BuilderView {
                    data_type: self.columns[j].data_type,
                    cells: self.columns[j].cells + self.new_cells(
                        rows,
                        j,
                        if j < t {
                            n + 1
                        } else {
                            n
                        },
                    ),
                },
        )
    }

    /// Collects `rows`, and says what went wrong. The number of values is looked at
    /// in every row before anything is collected; a refused value ends the work
    /// with what came before it collected, and the rows not counted.
    pub open spec fn append_rows(self, rows: RowsView) -> (TableView, Option<BuildErrorView>) {
        if rows.rows.len() == 0 {
            (self, None)
        } else if !aligned(rows) {
            let row = choose|i: int| misaligned_first(rows, i);
            (
                self,
                Some(
                    BuildErrorView::ColumnCountMismatch {
                        row,
                        expected: rows.schema.len() as int,
                        got: rows.rows[row].len() as int,
                    },
                ),
            )
        } else if !self.accepts(rows) {
            let (r, j) = choose|r: int, j: int| self.refuses_first(rows, r, j);
            (
                TableView { columns: self.columns_with(rows, r, j), ..self },
                Some(
                    BuildErrorView::UnexpectedValue(rows.rows[r][self.source(rows, j)->0]->0),
                ),
            )
        } else {
            (
                TableView {
                    columns: self.columns_with(rows, rows.rows.len() as int, 0),
                    row_count: self.row_count + rows.rows.len(),
                    ..self
                },
                None,
            )
        }
    }

    /// The machine can hold what `rows` add, where they are collected at all: the number of
    /// rows, and the text of a column, which arrow counts in an `i32`.
    pub open spec fn has_room(self, rows: RowsView) -> bool {
        aligned(rows) ==> {
            &&& self.row_count + rows.rows.len() <= usize::MAX
            &&& forall|j: int|
                0 <= j < self.columns.len() ==> text_bytes(
                    (#[trigger] self.columns_with(rows, rows.rows.len() as int, 0)[j]).cells,
                ) <= i32::MAX
        }
    }

    /// There is a builder for each field, of its type.
    pub open spec fn well_formed(self) -> bool {
        &&& self.columns.len() == self.fields.len()
        &&& forall|j: int|
            0 <= j < self.columns.len() ==> builder_type(self.fields[j].data_type) == Some(
                (#[trigger] self.columns[j]).data_type,
            )
    }

    /// The columns that were collected.
    pub open spec fn finished_columns(self) -> Seq<ColumnView> {
        self.columns.map_values(
            |b: BuilderView|
                ColumnView { data_type: b.data_type, cells: b.cells, dictionary: Seq::empty() },
        )
    }

    /// The batch that was collected.
    pub open spec fn finished_batch(self) -> BatchView {
        BatchView {
            fields: self.fields,
            columns: self.finished_columns(),
            num_rows: self.finished_columns()[0].cells.len(),
        }
    }
}

/// Row `i` has another number of values than there are columns.
pub open spec fn misaligned(rows: RowsView, i: int) -> bool {
    0 <= i < rows.rows.len() && rows.rows[i].len() != rows.schema.len()
}

/// Row `i` is the first with another number of values than there are columns.
pub open spec fn misaligned_first(rows: RowsView, i: int) -> bool {
    misaligned(rows, i) && forall|k: int| #[trigger] misaligned(rows, k) ==> i <= k
}

/// Every row has as many values as there are columns.
pub open spec fn aligned(rows: RowsView) -> bool {
    forall|i: int| !#[trigger] misaligned(rows, i)
}

/// The table that nothing has been collected for yet; none where a field is of a
/// type that no builder collects.
pub open spec fn empty_table(
    name: Seq<char>,
    info: Option<TableInfoView>,
    fields: Seq<FieldView>,
) -> TableView {
    TableView {
        table_name: name,
        table_info: info,
        fields,
        columns: fields.map_values(
            |f: FieldView|
                BuilderView { data_type: builder_type(f.data_type)->0, cells: Seq::empty() },
        ),
        row_count: 0,
    }
}

/// The field at `i` is of a type that no builder collects.
pub open spec fn unsupported(fields: Seq<FieldView>, i: int) -> bool {
    0 <= i < fields.len() && builder_type(fields[i].data_type) is None
}

/// The first field of a type that no builder collects, if any, is at `i`.
pub open spec fn unsupported_first(fields: Seq<FieldView>, i: int) -> bool {
    unsupported(fields, i) && forall|k: int| #[trigger] unsupported(fields, k) ==> i <= k
}

/// Every field is of a type that some builder collects.
pub open spec fn supported(fields: Seq<FieldView>) -> bool {
    forall|i: int| !#[trigger] unsupported(fields, i)
}

/// What the builders of a schema's columns are, or why there are none.
pub open spec fn create_error(fields: Seq<FieldView>) -> BuildErrorView {
    BuildErrorView::UnsupportedColumnType(
        fields[choose|i: int| unsupported_first(fields, i)].data_type,
    )
}

impl TableBuilders {
    /// Builders for a table of the given name, without anything known of it.
    pub fn new(table_name: String, schema: Schema) -> (r: Result<Self, BuildError>)
        ensures
            match r {
                Ok(b) => supported(schema@) && b@ == empty_table(table_name@, None, schema@)
                    && b@.well_formed(),
                Err(e) => !supported(schema@) && e@ == create_error(schema@),
            },
    {
        let mut builders: Vec<ColumnBuilder> = Vec::new();
        let mut i: usize = 0;
        while i < schema.fields.len()
            invariant
                i <= schema.fields@.len(),
                builders@.len() == i,
                forall|k: int| 0 <= k < i ==> !#[trigger] unsupported(schema@, k),
                forall|k: int|
                    0 <= k < i ==> (#[trigger] builders@[k])@ == (BuilderView {
                        data_type: builder_type(schema@[k].data_type)->0,
                        cells: Seq::empty(),
                    }),
            decreases schema.fields@.len() - i,
        {
            assert(schema@[i as int] == schema.fields@[i as int]@);
            match ColumnBuilder::new(&schema.fields[i].data_type) {
                Ok(builder) => {
                    builders.push(builder);
                },
                Err(e) => {
                    assert(unsupported(schema@, i as int));
                    assert(unsupported_first(schema@, i as int));
                    return Err(e);
                },
            }
            i = i + 1;
        }
        let r = TableBuilders { table_name, table_info: None, schema, builders, row_count: 0 };
        assert(r@.columns =~= empty_table(table_name@, None, schema@).columns);
        assert forall|j: int| 0 <= j < r@.columns.len() implies builder_type(
            r@.fields[j].data_type,
        ) == Some((#[trigger] r@.columns[j]).data_type) by {
            assert(!unsupported(schema@, j));
        }
        Ok(r)
    }

    /// Builders for a table of which `table_info` is known.
    pub fn new_with_table_info(table_info: TableInfo, schema: Schema) -> (r: Result<
        Self,
        BuildError,
    >)
        ensures
            match r {
                Ok(b) => supported(schema@) && b@ == empty_table(
                    table_info@.name,
                    Some(table_info@),
                    schema@,
                ) && b@.well_formed(),
                Err(e) => !supported(schema@) && e@ == create_error(schema@),
            },
    {
        let table_name = table_info.name.clone();
        match TableBuilders::new(table_name, schema) {
            Ok(builders) => {
                let r = TableBuilders {
                    table_name: builders.table_name,
                    table_info: Some(table_info),
                    schema: builders.schema,
                    builders: builders.builders,
                    row_count: builders.row_count,
                };
                Ok(r)
            },
            Err(e) => Err(e),
        }
    }

    /// Collects `rows`. A column is filled from the last column of `rows` that has
    /// its name, and with nulls where there is none.
    pub fn append_rows(&mut self, rows: &Rows) -> (r: Result<(), BuildError>)
        requires
            old(self)@.well_formed(),
            old(self)@.has_room(rows@),
        ensures
            final(self)@.well_formed(),
            final(self)@ == old(self)@.append_rows(rows@).0,
            match r {
                Ok(_) => old(self)@.append_rows(rows@).1 is None,
                Err(e) => old(self)@.append_rows(rows@).1 == Some(e@),
            },
    {
        if rows.rows.len() == 0 {
            return Ok(());
        }
        let ghost start = self@;
        let ghost given = rows@;
        let mut sources: Vec<Option<usize>> = Vec::new();
        let mut j: usize = 0;
        while j < self.schema.fields.len()
            invariant
                j <= self.schema.fields@.len(),
                self@ == start,
                given == rows@,
                sources@.len() == j,
                forall|k: int|
                    0 <= k < j ==> (match #[trigger] sources@[k] {
                        Some(s) => start.source(given, k) == Some(s as int),
                        None => start.source(given, k) is None,
                    }),
            decreases self.schema.fields@.len() - j,
        {
            assert(start.fields[j as int] == self.schema.fields@[j as int]@);
            let source = rows.column_index(self.schema.fields[j].name.as_str());
            sources.push(source);
            j = j + 1;
        }
        let mut i: usize = 0;
        while i < rows.rows.len()
            invariant
                i <= rows.rows@.len(),
                given == rows@,
                start == old(self)@,
                self@ == start,
                start.well_formed(),
                rows.rows@.len() > 0,
                forall|k: int| 0 <= k < i ==> !#[trigger] misaligned(given, k),
            decreases rows.rows@.len() - i,
        {
            assert(given.rows[i as int] == rows.rows@[i as int]@);
            if rows.rows[i].values.len() != rows.schema.len() {
                assert(misaligned(given, i as int));
                assert(misaligned_first(given, i as int));
                return Err(
                    BuildError::ColumnCountMismatch {
                        row: i,
                        expected: rows.schema.len(),
                        got: rows.rows[i].values.len(),
                    },
                );
            }
            i = i + 1;
        }
        assert(aligned(given));
        assert(self@.columns =~= start.columns_with(given, 0, 0));
        let mut r: usize = 0;
        while r < rows.rows.len()
            invariant
                r <= rows.rows@.len(),
                given == rows@,
                rows.rows@.len() > 0,
                start == old(self)@,
                start.well_formed(),
                start.has_room(given),
                aligned(given),
                self@ == (TableView { columns: start.columns_with(given, r as int, 0), ..start }),
                sources@.len() == start.columns.len(),
                forall|k: int|
                    0 <= k < sources@.len() ==> (match #[trigger] sources@[k] {
                        Some(s) => start.source(given, k) == Some(s as int),
                        None => start.source(given, k) is None,
                    }),
                forall|r1: int, j1: int| #[trigger]
                    start.refuses(given, r1, j1) ==> r1 >= r,
            decreases rows.rows@.len() - r,
        {
            let mut t: usize = 0;
            while t < sources.len()
                invariant
                    t <= sources@.len(),
                    r < rows.rows@.len(),
                    given == rows@,
                    start == old(self)@,
                    start.well_formed(),
                    start.has_room(given),
                    aligned(given),
                    self@ == (TableView {
                        columns: start.columns_with(given, r as int, t as int),
                        ..start
                    }),
                    sources@.len() == start.columns.len(),
                    forall|k: int|
                        0 <= k < sources@.len() ==> (match #[trigger] sources@[k] {
                            Some(s) => start.source(given, k) == Some(s as int),
                            None => start.source(given, k) is None,
                        }),
                    forall|r1: int, j1: int| #[trigger]
                        start.refuses(given, r1, j1) ==> r1 > r || (r1 == r && j1 >= t),
                decreases sources@.len() - t,
            {
                let ghost before = self.builders@;
                let ghost cell = start.cell(given, r as int, t as int);
                let ghost columns = start.columns_with(given, r as int, t as int);
                assert(self@.columns.len() == before.len());
                assert(self@.columns[t as int] == before[t as int]@);
                proof {
                    let all = start.columns_with(given, given.rows.len() as int, 0)[t as int].cells;
                    let done = columns[t as int].cells;
                    lemma_text_bytes_prefix(all, done.len() as int + 1);
                    if cell is Some {
                        assert(all.take(done.len() as int + 1) =~= done.push(cell->0));
                        assert(done.push(cell->0).drop_last() =~= done);
                    }
                }
                let source: Option<usize> = sources[t];
                match source {
                    Some(s) => {
                        proof {
                            rows::lemma_last_index(given.names(), start.fields[t as int].name);
                            assert(!misaligned(given, r as int));
                            assert(given.rows[r as int] == rows.rows@[r as int]@);
                            assert(given.rows[r as int][s as int]
                                == rows.rows@[r as int].values@[s as int]@);
                        }
                        let value: Option<&ValueData> = match &rows.rows[r].values[s].value_data {
                            Some(v) => Some(v),
                            None => None,
                        };
                        match self.builders[t].append_value_data(value) {
                            Ok(_) => {},
                            Err(e) => {
                                proof {
                                    assert(self.builders@ =~= before);
                                    assert(start.refuses(given, r as int, t as int));
                                    assert(start.refuses_first(given, r as int, t as int));
                                    let (r1, j1) = choose|r1: int, j1: int|
                                        start.refuses_first(given, r1, j1);
                                    assert(start.refuses(given, r1, j1));
                                    assert(r1 == r && j1 == t);
                                }
                                return Err(e);
                            },
                        }
                    },
                    None => {
                        self.builders[t].append_null();
                    },
                }
                proof {
                    let next = start.columns_with(given, r as int, t + 1);
                    assert forall|k: int| 0 <= k < next.len() implies #[trigger] next[k]
                        == self.builders@[k]@ by {
                        assert(columns[k] == before.map_values(|b: ColumnBuilder| b@)[k]);
                        if k == t {
                            assert(next[k].cells =~= columns[k].cells.push(cell->0));
                        } else {
                            assert(next[k].cells =~= columns[k].cells);
                        }
                    }
                    assert(self@.columns =~= next);
                }
                t = t + 1;
            }
            assert(start.columns_with(given, r as int, t as int) =~= start.columns_with(
                given,
                r + 1,
                0,
            )) by {
                let a = start.columns_with(given, r as int, t as int);
                let b = start.columns_with(given, r + 1, 0);
                assert forall|k: int| 0 <= k < a.len() implies a[k] == b[k] by {
                    assert(a[k].cells =~= b[k].cells);
                }
            }
            r = r + 1;
        }
        assert(start.accepts(given));
        self.row_count = self.row_count + rows.rows.len();
        Ok(())
    }

    /// The table's name, the batch that was collected and the number of its rows.
    pub fn finish(self) -> (r: Result<(String, RecordBatch, usize), BuildError>)
        ensures
            match r {
                Ok((name, batch, row_count)) => {
                    &&& record_batch::batch_fits(self@.fields, self@.finished_columns())
                    &&& name@ == self@.table_name
                    &&& batch@ == self@.finished_batch()
                    &&& batch@.valid()
                    &&& row_count == self@.row_count
                },
                Err(e) => {
                    &&& !record_batch::batch_fits(self@.fields, self@.finished_columns())
                    &&& e@ matches BuildErrorView::Arrow(error) && record_batch::batch_error_is(
                        self@.fields,
                        self@.finished_columns(),
                        error,
                    )
                },
            },
    {
        let ghost collected = self@;
        let TableBuilders { table_name, table_info: _, schema, builders, row_count } = self;
        let columns = finish_columns(builders);
        assert(record_batch::columns_view(columns@) =~= collected.finished_columns());
        match RecordBatch::try_new(schema, columns) {
            Ok(batch) => Ok((table_name, batch, row_count)),
            Err(e) => Err(BuildError::Arrow(e)),
        }
    }

    /// What is known of the table, the batch that was collected and the number of
    /// its rows.
    pub fn finish_with_table_info(self) -> (r: Result<(TableInfo, RecordBatch, usize), BuildError>)
        ensures
            match r {
                Ok((info, batch, row_count)) => {
                    &&& self@.finish_error_free()
                    &&& self@.table_info == Some(info@)
                    &&& batch@ == self@.finished_batch()
                    &&& batch@.valid()
                    &&& row_count == self@.row_count
                },
                Err(e) => self@.finish_error_is(e@),
            },
    {
        let ghost collected = self@;
        let TableBuilders { table_name, table_info, schema, builders, row_count } = self;
        let info = match table_info {
            Some(info) => info,
            None => {
                return Err(BuildError::MissingTableInfo(table_name));
            },
        };
        let columns = finish_columns(builders);
        assert(record_batch::columns_view(columns@) =~= collected.finished_columns());
        match RecordBatch::try_new(schema, columns) {
            Ok(batch) => Ok((info, batch, row_count)),
            Err(e) => Err(BuildError::Arrow(e)),
        }
    }
}

impl TableView {
    /// The table is known and its columns make up a batch.
    pub open spec fn finish_error_free(self) -> bool {
        self.table_info is Some && record_batch::batch_fits(self.fields, self.finished_columns())
    }

    /// Why the table's batch cannot be finished.
    pub open spec fn finish_error_is(self, e: BuildErrorView) -> bool {
        match self.table_info {
            None => e == BuildErrorView::MissingTableInfo(self.table_name),
            Some(_) => {
                &&& !record_batch::batch_fits(self.fields, self.finished_columns())
                &&& e matches BuildErrorView::Arrow(error) && record_batch::batch_error_is(
                    self.fields,
                    self.finished_columns(),
                    error,
                )
            },
        }
    }
}

/// The columns of what was collected.
fn finish_columns(builders: Vec<ColumnBuilder>) -> (r: Vec<Column>)
    ensures
        r@.len() == builders@.len(),
        forall|k: int|
            0 <= k < r@.len() ==> (#[trigger] r@[k])@ == (ColumnView {
                data_type: builders@[k]@.data_type,
                cells: builders@[k]@.cells,
                dictionary: Seq::empty(),
            }) && r@[k]@.well_typed(),
{
    let mut columns: Vec<Column> = Vec::new();
    let mut rest = builders;
    lists::reverse(&mut rest);
    let n: usize = rest.len();
    let mut i: usize = 0;
    while i < n
        invariant
            i <= n,
            n == builders@.len(),
            rest@.len() == n - i,
            forall|k: int| 0 <= k < rest@.len() ==> #[trigger] rest@[k] == builders@[n - 1 - k],
            columns@.len() == i,
            forall|k: int|
                0 <= k < i ==> (#[trigger] columns@[k])@ == (ColumnView {
                    data_type: builders@[k]@.data_type,
                    cells: builders@[k]@.cells,
                    dictionary: Seq::empty(),
                }) && columns@[k]@.well_typed(),
        decreases n - i,
    {
        if let Some(builder) = rest.pop() {
            assert(builder == builders@[i as int]);
            columns.push(builder.finish());
        }
        i = i + 1;
    }
    columns
}

impl TableView {
    /// Each column has as many cells as rows were counted.
    pub open spec fn even(self) -> bool {
        forall|j: int|
            0 <= j < self.columns.len() ==> (#[trigger] self.columns[j]).cells.len()
                == self.row_count
    }

    /// The table after all of `all` were collected, where none of them was refused.
    pub open spec fn collected(self, all: Seq<RowsView>) -> Option<TableView>
        decreases all.len(),
    {
        if all.len() == 0 {
            Some(self)
        } else {
            match self.collected(all.drop_last()) {
                Some(before) => match before.append_rows(all.last()) {
                    (after, None) => Some(after),
                    _ => None,
                },
                None => None,
            }
        }
    }
}

/// The number of all rows.
pub open spec fn count_all(all: Seq<RowsView>) -> nat
    decreases all.len(),
{
    if all.len() == 0 {
        0
    } else {
        count_all(all.drop_last()) + all.last().rows.len()
    }
}

/// Where no rows are refused, the rows that a new table has collected are counted, and its
/// batch has as many.
pub proof fn law_collected_rows_counted(
    name: Seq<char>,
    info: Option<TableInfoView>,
    fields: Seq<FieldView>,
    all: Seq<RowsView>,
)
    requires
        fields.len() > 0,
    ensures
        empty_table(name, info, fields).collected(all) matches Some(table) ==> table.row_count
            == count_all(all) && table.finished_batch().num_rows == count_all(all),
{
    lemma_collected_even(name, info, fields, all);
}

proof fn lemma_collected_even(
    name: Seq<char>,
    info: Option<TableInfoView>,
    fields: Seq<FieldView>,
    all: Seq<RowsView>,
)
    ensures
        empty_table(name, info, fields).collected(all) matches Some(table) ==> table.even()
            && table.row_count == count_all(all) && table.columns.len() == fields.len(),
    decreases all.len(),
{
    if all.len() > 0 {
        lemma_collected_even(name, info, fields, all.drop_last());
    }
}

/// A value that is collected comes back as it was given. Where rows were collected, the cell that
/// row `r` has in the column at `j` of the batch is the value that the row gives to the last
/// column of the rows that has the name of the batch's: a floating-point value bit by bit, a
/// string or a time likewise. It is null where no column of the rows has that name, or the row
/// has no value there. What was collected before stays.
pub proof fn law_collected_value_comes_back(table: TableView, rows: Rows, r: int, j: int)
    requires
        table.well_formed(),
        table.append_rows(rows@).1 is None,
        0 <= r < rows.rows@.len(),
        0 <= j < table.columns.len(),
    ensures
        ({
            let column = table.append_rows(rows@).0.finished_batch().columns[j];
            let cell = column.cells[table.columns[j].cells.len() + r];
            let name = table.fields[j].name;
            &&& column.cells.len() == table.columns[j].cells.len() + rows.rows@.len()
            &&& forall|k: int|
                0 <= k < table.columns[j].cells.len() ==> #[trigger] column.cells[k]
                    == table.columns[j].cells[k]
            &&& (forall|s: int|
                0 <= s < rows.schema@.len() ==> (#[trigger] rows.schema@[s]).column_name@ != name)
                ==> cell is Null
            &&& forall|s: int|
                0 <= s < rows.schema@.len() && (#[trigger] rows.schema@[s]).column_name@ == name && (
                forall|later: int|
                    s < later < rows.schema@.len() ==> (
                    #[trigger] rows.schema@[later]).column_name@ != name) ==> match (
                    rows.rows@[r].values@[s].value_data
                ) {
                    None => cell is Null,
                    Some(ValueData::F64Value(v)) => cell == CellView::Float64(v)
                        && table.fields[j].data_type is Float64,
                    Some(ValueData::StringValue(v)) => cell == CellView::Utf8(v@)
                        && table.fields[j].data_type is Utf8,
                    Some(ValueData::TimestampSecondValue(v)) => cell == CellView::Int64(v)
                        && (table.fields[j].data_type matches TypeView::Timestamp(unit, _)
                        && unit == TimeUnit::Second),
                    Some(ValueData::TimestampMillisecondValue(v)) => cell == CellView::Int64(v)
                        && (table.fields[j].data_type matches TypeView::Timestamp(unit, _)
                        && unit == TimeUnit::Millisecond),
                    Some(ValueData::TimestampMicrosecondValue(v)) => cell == CellView::Int64(v)
                        && (table.fields[j].data_type matches TypeView::Timestamp(unit, _)
                        && unit == TimeUnit::Microsecond),
                    Some(ValueData::DatetimeValue(v)) => cell == CellView::Int64(v)
                        && (table.fields[j].data_type matches TypeView::Timestamp(unit, _)
                        && unit == TimeUnit::Microsecond),
                    Some(ValueData::TimestampNanosecondValue(v)) => cell == CellView::Int64(v)
                        && (table.fields[j].data_type matches TypeView::Timestamp(unit, _)
                        && unit == TimeUnit::Nanosecond),
                    Some(_) => false,
                }
        }),
{
    let given = rows@;
    let names = given.names();
    let name = table.fields[j].name;
    assert(!table.refuses(given, r, j));
    assert(!misaligned(given, r));
    rows::lemma_last_index(names, name);
    assert(given.rows[r] == rows.rows@[r]@);
    assert forall|s: int| 0 <= s < rows.schema@.len() implies #[trigger] names[s]
        == rows.schema@[s].column_name@ by {}
    if let Some(s) = table.source(given, j) {
        assert(names[s] == rows.schema@[s].column_name@);
        assert(given.rows[r][s] == rows.rows@[r].values@[s]@);
    }
    assert forall|s: int|
        0 <= s < rows.schema@.len() && (#[trigger] rows.schema@[s]).column_name@ == name && (forall|
            later: int,
        |
            s < later < rows.schema@.len() ==> (#[trigger] rows.schema@[later]).column_name@
                != name) implies table.source(given, j) == Some(s) by {
        assert(names[s] == name);
        assert(names.contains(name));
        let found = table.source(given, j)->0;
        assert(names[found] == rows.schema@[found].column_name@);
    }
    let new_cells = table.new_cells(given, j, rows.rows@.len() as int);
    assert(table.append_rows(given).0.columns[j].cells =~= table.columns[j].cells + new_cells);
    assert(new_cells[r] == table.cell(given, r, j)->0);
}

/// Rows are collected where each of them has as many values as there are columns and each value
/// that is collected is of the type of its column; all of them are then counted. Where a row has
/// another number of values, nothing is collected, and the first such row is told.
pub proof fn law_rows_accepted(table: TableView, rows: Rows)
    requires
        table.well_formed(),
        rows.rows@.len() > 0,
    ensures
        (exists|r: int|
            0 <= r < rows.rows@.len() && (#[trigger] rows.rows@[r]).values@.len()
                != rows.schema@.len()) <==> (table.append_rows(
            rows@,
        ).1 matches Some(BuildErrorView::ColumnCountMismatch { .. })),
        table.append_rows(rows@).1 matches Some(
            BuildErrorView::ColumnCountMismatch { row, expected, got },
        ) ==> {
            &&& table.append_rows(rows@).0 == table
            &&& 0 <= row < rows.rows@.len()
            &&& expected == rows.schema@.len()
            &&& got == rows.rows@[row].values@.len()
            &&& got != expected
            &&& forall|r: int|
                0 <= r < row ==> (#[trigger] rows.rows@[r]).values@.len() == rows.schema@.len()
        },
        table.append_rows(rows@).1 is None ==> table.append_rows(rows@).0.row_count
            == table.row_count + rows.rows@.len() && table.append_rows(rows@).0.fields
            == table.fields && table.append_rows(rows@).0.table_name == table.table_name
            && table.append_rows(rows@).0.table_info == table.table_info,
        table.append_rows(rows@).1 is Some ==> table.append_rows(rows@).0.row_count
            == table.row_count,
        (forall|r: int|
            0 <= r < rows.rows@.len() ==> (#[trigger] rows.rows@[r]).values@.len()
                == rows.schema@.len()) && (forall|r: int, s: int, j: int|
            0 <= r < rows.rows@.len() && 0 <= s < rows.schema@.len() && 0 <= j < table.fields.len()
                && rows.schema@[s].column_name@ == (#[trigger] table.fields[j]).name ==> match (
            #[trigger] rows.rows@[r].values@[s].value_data) {
                None => true,
                Some(ValueData::F64Value(_)) => table.fields[j].data_type is Float64,
                Some(ValueData::StringValue(_)) => table.fields[j].data_type is Utf8,
                Some(ValueData::TimestampSecondValue(_)) => table.fields[j].data_type matches
                    TypeView::Timestamp(unit, _) && unit == TimeUnit::Second,
                Some(ValueData::TimestampMillisecondValue(_)) => table.fields[j].data_type matches
                    TypeView::Timestamp(unit, _) && unit == TimeUnit::Millisecond,
                Some(ValueData::TimestampMicrosecondValue(_))
                | Some(ValueData::DatetimeValue(_)) => table.fields[j].data_type matches
                    TypeView::Timestamp(unit, _) && unit == TimeUnit::Microsecond,
                Some(ValueData::TimestampNanosecondValue(_)) => table.fields[j].data_type matches
                    TypeView::Timestamp(unit, _) && unit == TimeUnit::Nanosecond,
                Some(_) => false,
            }) ==> table.append_rows(rows@).1 is None,
{
    let given = rows@;
    let names = given.names();
    assert forall|r: int| 0 <= r < rows.rows@.len() implies #[trigger] given.rows[r].len()
        == rows.rows@[r].values@.len() by {
        assert(given.rows[r] == rows.rows@[r]@);
    }
    assert forall|r: int| #[trigger] misaligned(given, r) <==> 0 <= r < rows.rows@.len()
        && rows.rows@[r].values@.len() != rows.schema@.len() by {
        if 0 <= r < rows.rows@.len() {
            assert(given.rows[r].len() == rows.rows@[r].values@.len());
        }
    }
    if !aligned(given) {
        let r = choose|r: int| misaligned(given, r);
        lemma_first_misaligned(given, r);
        let row = choose|i: int| misaligned_first(given, i);
        assert(misaligned(given, row));
        assert(rows.rows@[row].values@.len() != rows.schema@.len());
        assert forall|r: int| 0 <= r < row implies (#[trigger] rows.rows@[r]).values@.len()
            == rows.schema@.len() by {
            if rows.rows@[r].values@.len() != rows.schema@.len() {
                assert(misaligned(given, r));
            }
        }
    } else {
        assert forall|r: int| 0 <= r < rows.rows@.len() implies (
        #[trigger] rows.rows@[r]).values@.len() == rows.schema@.len() by {
            assert(!misaligned(given, r));
        }
        if !table.accepts(given) {
            let (r, j) = choose|r: int, j: int| table.refuses(given, r, j);
            assert(table.refuses(given, r, j));
            rows::lemma_last_index(names, table.fields[j].name);
            let s = table.source(given, j)->0;
            assert(names[s] == rows.schema@[s].column_name@);
            assert(given.rows[r][s] == rows.rows@[r].values@[s]@);
            let value = rows.rows@[r].values@[s].value_data;
            let field = table.fields[j];
            assert(builder_type(field.data_type) == Some(table.columns[j].data_type));
            assert(value is Some);
        }
    }
}

proof fn lemma_first_misaligned(rows: RowsView, r: int)
    requires
        misaligned(rows, r),
    ensures
        exists|i: int| misaligned_first(rows, i),
    decreases r,
{
    if exists|k: int| misaligned(rows, k) && k < r {
        let k = choose|k: int| misaligned(rows, k) && k < r;
        lemma_first_misaligned(rows, k);
    } else {
        assert(misaligned_first(rows, r));
    }
}

/// What is said of a column that is being collected is what its builder holds: numbers bit by
/// bit, strings and times as they are, and a null as a null.
pub proof fn law_column_as_collected(builder: ColumnBuilder, i: int)
    ensures
        match builder {
            ColumnBuilder::Float64(b) => {
                let collected = arrow_builders::uint64_cells(b);
                &&& builder@.data_type is Float64
                &&& builder@.cells.len() == collected.len()
                &&& 0 <= i < collected.len() ==> builder@.cells[i] == (match collected[i] {
                    Some(v) => CellView::Float64(v),
                    None => CellView::Null,
                })
            },
            ColumnBuilder::Utf8(b) => {
                let collected = arrow_builders::string_cells(b);
                &&& builder@.data_type is Utf8
                &&& builder@.cells.len() == collected.len()
                &&& 0 <= i < collected.len() ==> builder@.cells[i] == (match collected[i] {
                    Some(v) => CellView::Utf8(v),
                    None => CellView::Null,
                })
            },
            ColumnBuilder::TimestampSecond(b)
            | ColumnBuilder::TimestampMillisecond(b)
            | ColumnBuilder::TimestampMicrosecond(b)
            | ColumnBuilder::TimestampNanosecond(b) => {
                let collected = arrow_builders::int64_cells(b);
                &&& builder@.cells.len() == collected.len()
                &&& 0 <= i < collected.len() ==> builder@.cells[i] == (match collected[i] {
                    Some(v) => CellView::Int64(v),
                    None => CellView::Null,
                })
            },
        },
        builder is TimestampSecond ==> builder@.data_type == TypeView::Timestamp(
            TimeUnit::Second,
            None,
        ),
        builder is TimestampMillisecond ==> builder@.data_type == TypeView::Timestamp(
            TimeUnit::Millisecond,
            None,
        ),
        builder is TimestampMicrosecond ==> builder@.data_type == TypeView::Timestamp(
            TimeUnit::Microsecond,
            None,
        ),
        builder is TimestampNanosecond ==> builder@.data_type == TypeView::Timestamp(
            TimeUnit::Nanosecond,
            None,
        ),
{
}

/// What is said of a refusal is what it is.
pub proof fn law_refusal_as_it_is(e: BuildError)
    ensures
        match e {
            BuildError::UnsupportedColumnType(t) => e@ == BuildErrorView::UnsupportedColumnType(t@),
            BuildError::UnexpectedValue(v) => e@ == BuildErrorView::UnexpectedValue(v@),
            BuildError::ColumnCountMismatch { row, expected, got } => e@ matches
                BuildErrorView::ColumnCountMismatch { row: r, expected: x, got: g } && r == row && x
                == expected && g == got,
            BuildError::MissingTableInfo(name) => e@ == BuildErrorView::MissingTableInfo(name@),
            BuildError::Arrow(error) => e@ == BuildErrorView::Arrow(error),
        },
{
}

/// A value that is appended to a column is collected as it is, at the end: a number bit by bit, a
/// string and a time unchanged, and a null as a null; what was collected before stays. A value
/// of another type than the column's is refused, told, and leaves the column as it was.
pub proof fn law_value_is_collected(
    builder: &mut ColumnBuilder,
    value: Option<&ValueData>,
    r: Result<(), BuildError>,
)
    requires
        call_ensures(ColumnBuilder::append_value_data, (builder, value), r),
    ensures
        final(builder)@.data_type == old(builder)@.data_type,
        r is Ok ==> {
            let cells = final(builder)@.cells;
            &&& cells.len() == old(builder)@.cells.len() + 1
            &&& cells.drop_last() == old(builder)@.cells
            &&& match value {
                None => cells.last() is Null,
                Some(ValueData::F64Value(v)) => cells.last() == CellView::Float64(*v),
                Some(ValueData::StringValue(v)) => cells.last() == CellView::Utf8(v@),
                Some(ValueData::TimestampSecondValue(v))
                | Some(ValueData::TimestampMillisecondValue(v))
                | Some(ValueData::TimestampMicrosecondValue(v))
                | Some(ValueData::DatetimeValue(v))
                | Some(ValueData::TimestampNanosecondValue(v)) => cells.last() == CellView::Int64(
                    *v,
                ),
                Some(_) => false,
            }
        },
        r matches Err(e) ==> *final(builder) == *old(builder) && (value matches Some(v) && e@
            == BuildErrorView::UnexpectedValue(v@)),
        value is None ==> r is Ok,
        value matches Some(ValueData::F64Value(_)) ==> (r is Ok <==> old(
            builder,
        )@.data_type is Float64),
        value matches Some(ValueData::StringValue(_)) ==> (r is Ok <==> old(
            builder,
        )@.data_type is Utf8),
        value matches Some(ValueData::TimestampSecondValue(_)) ==> (r is Ok <==> (old(
            builder,
        )@.data_type matches TypeView::Timestamp(unit, _) && unit == TimeUnit::Second)),
        value matches Some(ValueData::TimestampMillisecondValue(_)) ==> (r is Ok <==> (old(
            builder,
        )@.data_type matches TypeView::Timestamp(unit, _) && unit == TimeUnit::Millisecond)),
        value matches Some(ValueData::TimestampMicrosecondValue(_)) ==> (r is Ok <==> (old(
            builder,
        )@.data_type matches TypeView::Timestamp(unit, _) && unit == TimeUnit::Microsecond)),
        value matches Some(ValueData::DatetimeValue(_)) ==> (r is Ok <==> (old(
            builder,
        )@.data_type matches TypeView::Timestamp(unit, _) && unit == TimeUnit::Microsecond)),
        value matches Some(ValueData::TimestampNanosecondValue(_)) ==> (r is Ok <==> (old(
            builder,
        )@.data_type matches TypeView::Timestamp(unit, _) && unit == TimeUnit::Nanosecond)),
{
}

/// A column that is finished has the cells that were collected, and their type.
pub proof fn law_finished_column(builder: ColumnBuilder, r: Column)
    requires
        call_ensures(ColumnBuilder::finish, (builder,), r),
    ensures
        r@.cells == builder@.cells,
        r@.data_type == builder@.data_type,
        r@.dictionary.len() == 0,
{
}

/// Rows that were collected come back: after [`TableBuilders::append_rows`] the batch that
/// [`TableBuilders::finish`] gives has, behind the rows that were there, a row for each row, in
/// order, and in each column the value of the last column of its name, as it was given. The
/// number of rows that is given is that of all rows.
pub proof fn law_rows_come_back(
    builders: &mut TableBuilders,
    rows: Rows,
    finished: Result<(String, RecordBatch, usize), BuildError>,
    r: int,
    j: int,
    s: int,
)
    requires
        old(builders)@.well_formed(),
        call_ensures(TableBuilders::append_rows, (builders, &rows), Ok(())),
        call_ensures(TableBuilders::finish, (*final(builders),), finished),
        finished is Ok,
        0 <= r < rows.rows@.len(),
        0 <= j < old(builders)@.columns.len(),
        0 <= s < rows.schema@.len(),
        rows.schema@[s].column_name@ == old(builders)@.fields[j].name,
        forall|later: int|
            s < later < rows.schema@.len() ==> (#[trigger] rows.schema@[later]).column_name@
                != rows.schema@[s].column_name@,
    ensures
        ({
            let (name, batch, row_count) = finished->Ok_0;
            let before = old(builders)@.columns[j].cells;
            let cells = batch@.columns[j].cells;
            &&& name@ == old(builders)@.table_name
            &&& row_count == old(builders)@.row_count + rows.rows@.len()
            &&& cells.len() == before.len() + rows.rows@.len()
            &&& forall|k: int| 0 <= k < before.len() ==> #[trigger] cells[k] == before[k]
            &&& match rows.rows@[r].values@[s].value_data {
                None => cells[before.len() + r] is Null,
                Some(ValueData::F64Value(v)) => cells[before.len() + r] == CellView::Float64(v),
                Some(ValueData::StringValue(v)) => cells[before.len() + r] == CellView::Utf8(v@),
                Some(ValueData::TimestampSecondValue(v))
                | Some(ValueData::TimestampMillisecondValue(v))
                | Some(ValueData::TimestampMicrosecondValue(v))
                | Some(ValueData::DatetimeValue(v))
                | Some(ValueData::TimestampNanosecondValue(v)) => cells[before.len() + r]
                    == CellView::Int64(v),
                Some(_) => false,
            }
        }),
{
    law_collected_value_comes_back(old(builders)@, rows, r, j);
    law_rows_accepted(old(builders)@, rows);
    assert(rows.schema@[s].column_name@ == old(builders)@.fields[j].name);
}

/// A column of numbers, of text or of times can be collected, as what it is, and starts empty; a
/// column of any other type is refused, and its type told.
pub proof fn law_new_column(data_type: DataType, r: Result<ColumnBuilder, BuildError>)
    requires
        call_ensures(ColumnBuilder::new, (&data_type,), r),
    ensures
        r is Ok <==> (data_type@ is Float64 || data_type@ is Utf8 || data_type@ is Timestamp),
        r matches Ok(builder) ==> {
            &&& builder@.cells.len() == 0
            &&& data_type@ is Float64 ==> builder@.data_type is Float64
            &&& data_type@ is Utf8 ==> builder@.data_type is Utf8
            &&& data_type@ matches TypeView::Timestamp(unit, _) ==> builder@.data_type
                == TypeView::Timestamp(unit, None)
        },
        r matches Err(e) ==> e@ == BuildErrorView::UnsupportedColumnType(data_type@),
{
}

/// A table whose columns can all be collected starts with an empty column for each field, in
/// order; for any other the first field that cannot be is told.
pub proof fn law_new_table(
    table_name: String,
    schema: Schema,
    r: Result<TableBuilders, BuildError>,
    j: int,
)
    requires
        call_ensures(TableBuilders::new, (table_name, schema), r),
    ensures
        r matches Ok(table) ==> {
            &&& table@.table_name == table_name@
            &&& table@.table_info is None
            &&& table@.fields == schema@
            &&& table@.row_count == 0
            &&& table@.columns.len() == schema@.len()
            &&& 0 <= j < schema@.len() ==> table@.columns[j].cells.len() == 0 && (
            schema@[j].data_type is Float64 || schema@[j].data_type is Utf8
                || schema@[j].data_type is Timestamp)
        },
        r matches Err(e) ==> exists|i: int|
            0 <= i < schema@.len() && e@ == BuildErrorView::UnsupportedColumnType(
                (#[trigger] schema@[i]).data_type,
            ) && !(schema@[i].data_type is Float64 || schema@[i].data_type is Utf8
                || schema@[i].data_type is Timestamp) && (0 <= j < i ==> (
            schema@[j].data_type is Float64 || schema@[j].data_type is Utf8
                || schema@[j].data_type is Timestamp)),
        (forall|i: int|
            0 <= i < schema@.len() ==> ((#[trigger] schema@[i]).data_type is Float64
                || schema@[i].data_type is Utf8 || schema@[i].data_type is Timestamp)) ==> r is Ok,
{
    match r {
        Ok(_) => {
            if 0 <= j < schema@.len() {
                assert(!unsupported(schema@, j));
            }
        },
        Err(e) => {
            let i = choose|i: int| unsupported(schema@, i);
            lemma_first_unsupported(schema@, i);
            let first = choose|i: int| unsupported_first(schema@, i);
            assert(unsupported(schema@, first));
            assert(schema@[first] == schema@[first]);
            if 0 <= j < first {
                assert(!unsupported(schema@, j));
            }
        },
    }
}

proof fn lemma_first_unsupported(fields: Seq<FieldView>, i: int)
    requires
        unsupported(fields, i),
    ensures
        exists|k: int| unsupported_first(fields, k),
    decreases i,
{
    if exists|k: int| #[trigger] unsupported(fields, k) && k < i {
        let k = choose|k: int| #[trigger] unsupported(fields, k) && k < i;
        lemma_first_unsupported(fields, k);
    } else {
        assert(unsupported_first(fields, i));
    }
}

/// A table that is known is finished with what is known of it, with the rows that were collected
/// and with their number; one that is not known is told by its name.
pub proof fn law_finished_table(
    table: TableBuilders,
    r: Result<(TableInfo, RecordBatch, usize), BuildError>,
    j: int,
)
    requires
        call_ensures(TableBuilders::finish_with_table_info, (table,), r),
    ensures
        table.table_info is None ==> (r matches Err(e) && e@ == BuildErrorView::MissingTableInfo(
            table.table_name@,
        )),
        r matches Ok((info, batch, row_count)) ==> {
            &&& table.table_info matches Some(known) && info.table_id == known.table_id
                && info.name@ == known.name@
            &&& row_count == table.row_count
            &&& batch@.columns.len() == table.builders@.len()
            &&& batch@.fields == table.schema@
            &&& 0 <= j < table.builders@.len() ==> batch@.columns[j].cells
                == table.builders@[j]@.cells
        },
{
    assert(table@.columns.len() == table.builders@.len());
    if 0 <= j < table.builders@.len() {
        assert(table@.columns[j] == table.builders@[j]@);
    }
}

} // verus!

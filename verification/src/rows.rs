//! Rows of values as clients send them.

use vstd::prelude::*;

use crate::text;

verus! {

/// A value that a client sent. A floating-point value is held by its bits.
#[derive(Debug)]
pub enum ValueData {
    F64Value(u64),
    StringValue(String),
    BinaryValue(Vec<u8>),
    DatetimeValue(i64),
    TimestampSecondValue(i64),
    TimestampMillisecondValue(i64),
    TimestampMicrosecondValue(i64),
    TimestampNanosecondValue(i64),
    /// A value of any other type, by its text.
    Other(String),
}

/// What a [`ValueData`] is.
pub enum ValueView {
    F64Value(u64),
    StringValue(Seq<char>),
    BinaryValue(Seq<u8>),
    DatetimeValue(i64),
    TimestampSecondValue(i64),
    TimestampMillisecondValue(i64),
    TimestampMicrosecondValue(i64),
    TimestampNanosecondValue(i64),
    Other(Seq<char>),
}

/// The type of a column as clients declare it.
#[derive(Clone, Copy, Debug, PartialEq, Eq, Structural)]
pub enum ColumnDataType {
    Float64,
    Text,
    Binary,
    Datetime,
    TimestampSecond,
    TimestampMillisecond,
    TimestampMicrosecond,
    TimestampNanosecond,
    /// Any other type, by its number.
    Other(i32),
}

/// What a column is for.
#[derive(Clone, Copy, Debug, PartialEq, Eq, Structural)]
pub enum SemanticType {
    Tag,
    Field,
    Timestamp,
}

/// A column as clients declare it.
#[derive(Debug)]
pub struct ColumnSchema {
    pub column_name: String,
    pub datatype: ColumnDataType,
    pub semantic_type: SemanticType,
}

/// What a [`ColumnSchema`] says.
pub struct ColumnSchemaView {
    pub column_name: Seq<char>,
    pub datatype: ColumnDataType,
    pub semantic_type: SemanticType,
}

/// A value, or a null.
#[derive(Debug)]
pub struct RowValue {
    pub value_data: Option<ValueData>,
}

/// The values of one row.
#[derive(Debug)]
pub struct Row {
    pub values: Vec<RowValue>,
}

/// Rows with the columns that they give values for.
#[derive(Debug)]
pub struct Rows {
    pub schema: Vec<ColumnSchema>,
    pub rows: Vec<Row>,
}

/// What [`Rows`] hold: the columns, and each row's values.
pub struct RowsView {
    pub schema: Seq<ColumnSchemaView>,
    pub rows: Seq<Seq<Option<ValueView>>>,
}

impl View for ValueData {
    type V = ValueView;

    open spec fn view(&self) -> ValueView {
        match self {
            ValueData::F64Value(v) => ValueView::F64Value(*v),
            ValueData::StringValue(v) => ValueView::StringValue(v@),
            ValueData::BinaryValue(v) => ValueView::BinaryValue(v@),
            ValueData::DatetimeValue(v) => ValueView::DatetimeValue(*v),
            ValueData::TimestampSecondValue(v) => ValueView::TimestampSecondValue(*v),
            ValueData::TimestampMillisecondValue(v) => ValueView::TimestampMillisecondValue(*v),
            ValueData::TimestampMicrosecondValue(v) => ValueView::TimestampMicrosecondValue(*v),
            ValueData::TimestampNanosecondValue(v) => ValueView::TimestampNanosecondValue(*v),
            ValueData::Other(v) => ValueView::Other(v@),
        }
    }
}

impl View for RowValue {
    type V = Option<ValueView>;

    open spec fn view(&self) -> Option<ValueView> {
        match self.value_data {
            Some(v) => Some(v@),
            None => None,
        }
    }
}

impl View for Row {
    type V = Seq<Option<ValueView>>;

    open spec fn view(&self) -> Seq<Option<ValueView>> {
        self.values@.map_values(|v: RowValue| v@)
    }
}

impl View for ColumnSchema {
    type V = ColumnSchemaView;

    open spec fn view(&self) -> ColumnSchemaView {
        ColumnSchemaView {
            column_name: self.column_name@,
            datatype: self.datatype,
            semantic_type: self.semantic_type,
        }
    }
}

impl View for Rows {
    type V = RowsView;

    open spec fn view(&self) -> RowsView {
        RowsView {
            schema: self.schema@.map_values(|c: ColumnSchema| c@),
            rows: self.rows@.map_values(|r: Row| r@),
        }
    }
}

impl RowsView {
    /// The names of the columns, in order.
    pub open spec fn names(self) -> Seq<Seq<char>> {
        self.schema.map_values(|c: ColumnSchemaView| c.column_name)
    }
}

/// The last place at which `name` stands in `names`.
pub open spec fn last_index<A>(names: Seq<A>, name: A) -> Option<int>
    decreases names.len(),
{
    if names.len() == 0 {
        None
    } else if names.last() == name {
        Some(names.len() - 1)
    } else {
        last_index(names.drop_last(), name)
    }
}

/// The place that [`last_index`] gives holds the name, and no later place does; there is one
/// where the name is in the list.
pub proof fn lemma_last_index<A>(names: Seq<A>, name: A)
    ensures
        last_index(names, name) matches Some(i) ==> 0 <= i < names.len() && names[i] == name
            && forall|k: int| i < k < names.len() ==> #[trigger] names[k] != name,
        last_index(names, name) is None ==> !names.contains(name),
    decreases names.len(),
{
    if names.len() > 0 && names.last() != name {
        lemma_last_index(names.drop_last(), name);
        if let Some(i) = last_index(names, name) {
            assert forall|k: int| i < k < names.len() implies #[trigger] names[k] != name by {
                if k < names.len() - 1 {
                    assert(names.drop_last()[k] == names[k]);
                }
            }
        }
        if names.contains(name) {
            let i = choose|i: int| 0 <= i < names.len() && names[i] == name;
            assert(names.drop_last()[i] == name);
        }
    }
}

impl Clone for ValueData {
    fn clone(&self) -> (r: Self)
        ensures
            r@ == self@,
    {
        match self {
            ValueData::F64Value(v) => ValueData::F64Value(*v),
            ValueData::StringValue(v) => ValueData::StringValue(v.clone()),
            ValueData::BinaryValue(v) => {
                let bytes = vstd::slice::slice_to_vec(v.as_slice());
                ValueData::BinaryValue(bytes)
            },
            ValueData::DatetimeValue(v) => ValueData::DatetimeValue(*v),
            ValueData::TimestampSecondValue(v) => ValueData::TimestampSecondValue(*v),
            ValueData::TimestampMillisecondValue(v) => ValueData::TimestampMillisecondValue(*v),
            ValueData::TimestampMicrosecondValue(v) => ValueData::TimestampMicrosecondValue(*v),
            ValueData::TimestampNanosecondValue(v) => ValueData::TimestampNanosecondValue(*v),
            ValueData::Other(v) => ValueData::Other(v.clone()),
        }
    }
}

impl Rows {
    /// The last column of the given name.
    pub fn column_index(&self, name: &str) -> (r: Option<usize>)
        ensures
            match r {
                Some(i) => last_index(self@.names(), name@) == Some(i as int),
                None => last_index(self@.names(), name@) is None,
            },
    {
        let ghost names = self@.names();
        let mut end: usize = self.schema.len();
        assert(names.take(end as int) =~= names);
        while end > 0
            invariant
                end <= self.schema@.len(),
                names == self@.names(),
                last_index(names, name@) == last_index(names.take(end as int), name@),
            decreases end,
        {
            let i: usize = end - 1;
            let ghost prefix = names.take(end as int);
            assert(prefix.last() == self.schema@[i as int].column_name@);
            assert(prefix.drop_last() =~= names.take(i as int));
            if text::text_equal(self.schema[i].column_name.as_str(), name) {
                return Some(i);
            }
            end = i;
        }
        assert(names.take(0) =~= Seq::<Seq<char>>::empty());
        None
    }
}

/// What is said of rows that a client sent is what they are: each value with its type, and
/// numbers bit by bit.
pub proof fn law_values_as_sent(rows: Rows, r: int, s: int)
    requires
        0 <= r < rows.rows@.len(),
        0 <= s < rows.rows@[r].values@.len(),
    ensures
        rows@.rows.len() == rows.rows@.len(),
        rows@.rows[r].len() == rows.rows@[r].values@.len(),
        match rows.rows@[r].values@[s].value_data {
            None => rows@.rows[r][s] is None,
            Some(ValueData::F64Value(v)) => rows@.rows[r][s] == Some(ValueView::F64Value(v)),
            Some(ValueData::StringValue(v)) => rows@.rows[r][s] == Some(
                ValueView::StringValue(v@),
            ),
            Some(ValueData::BinaryValue(v)) => rows@.rows[r][s] == Some(
                ValueView::BinaryValue(v@),
            ),
            Some(ValueData::DatetimeValue(v)) => rows@.rows[r][s] == Some(
                ValueView::DatetimeValue(v),
            ),
            Some(ValueData::TimestampSecondValue(v)) => rows@.rows[r][s] == Some(
                ValueView::TimestampSecondValue(v),
            ),
            Some(ValueData::TimestampMillisecondValue(v)) => rows@.rows[r][s] == Some(
                ValueView::TimestampMillisecondValue(v),
            ),
            Some(ValueData::TimestampMicrosecondValue(v)) => rows@.rows[r][s] == Some(
                ValueView::TimestampMicrosecondValue(v),
            ),
            Some(ValueData::TimestampNanosecondValue(v)) => rows@.rows[r][s] == Some(
                ValueView::TimestampNanosecondValue(v),
            ),
            Some(ValueData::Other(v)) => rows@.rows[r][s] == Some(ValueView::Other(v@)),
        },
{
    assert(rows@.rows[r] == rows.rows@[r]@);
    assert(rows@.rows[r][s] == rows.rows@[r].values@[s]@);
}

} // verus!

//! Compares the sizes of a log table's rows in several encodings.

use std::io::Write;

use flate2::write::GzEncoder;
use rand::Rng;
use vstd::prelude::*;
use vstd::utf8::encode_utf8;

use crate::arrow_batch;
use crate::arrow_batch::FileCompression;
use crate::lists;
use crate::record_batch;
use crate::record_batch::{
    BatchView, Cell, CellView, Column, ColumnView, DataType, Field, FieldView, RecordBatch, Schema,
    TimeUnit, TypeView,
};
use crate::rows::{ColumnDataType, SemanticType};
use crate::text;

verus! {

/// `Rng::gen_range` of rand on the bytes from `0` to `z`: one of them.
#[verifier::external_body]
fn random_byte() -> (r: u8)
    ensures
        48 <= r <= 122,
{
    rand::thread_rng().gen_range(b'0'..=b'z')
}

/// `Rng::gen_range` of rand on the numbers below `n`: one of them. It panics where there is
/// none.
#[verifier::external_body]
fn random_below(n: usize) -> (r: usize)
    requires
        n > 0,
    ensures
        r < n,
{
    rand::thread_rng().gen_range(0..n)
}

/// The string has the given length, and its characters lie between `0` and `z`.
pub open spec fn is_random_string(s: Seq<char>, length: nat) -> bool {
    s.len() == length && forall|i: int| 0 <= i < s.len() ==> '0' <= #[trigger] s[i] <= 'z'
}

/// A random string of the given length.
pub fn random_string(length: usize) -> (r: String)
    ensures
        is_random_string(r@, length as nat),
{
    let mut bytes: Vec<u8> = Vec::new();
    let mut i: usize = 0;
    while i < length
        invariant
            i <= length,
            bytes@.len() == i,
            forall|k: int| 0 <= k < i ==> 48 <= #[trigger] bytes@[k] <= 122,
        decreases length - i,
    {
        bytes.push(random_byte());
        i = i + 1;
    }
    let r = text::ascii_string(bytes);
    assert forall|k: int| 0 <= k < r@.len() implies '0' <= #[trigger] r@[k] <= 'z' by {
        assert(48 <= bytes@[k] <= 122);
    }
    r
}

/// One of some strings.
pub fn random_in_candidates(candidates: &Vec<&str>) -> (r: String)
    requires
        candidates@.len() > 0,
    ensures
        exists|i: int| 0 <= i < candidates@.len() && (#[trigger] candidates@[i])@ == r@,
{
    let i: usize = random_below(candidates.len());
    assert(candidates@[i as int]@ == candidates@[i as int]@);
    candidates[i].to_string()
}

/// The first message of a log, of which `so_far` was read, and the lines after it. Lines
/// belong to one message until it has more than a thousand bytes. There is none where the
/// lines end before.
pub open spec fn next_message(lines: Seq<Seq<char>>, so_far: Seq<char>) -> Option<
    (Seq<char>, Seq<Seq<char>>),
>
    decreases lines.len(),
{
    if lines.len() == 0 {
        None
    } else {
        let message = so_far + lines[0];
        if encode_utf8(message).len() > 1000 {
            Some((message, lines.drop_first()))
        } else {
            next_message(lines.drop_first(), message)
        }
    }
}

/// The first `n` messages of a log, where there are as many.
pub open spec fn messages(lines: Seq<Seq<char>>, n: nat) -> Option<Seq<Seq<char>>>
    decreases n,
{
    if n == 0 {
        Some(Seq::empty())
    } else {
        match next_message(lines, Seq::empty()) {
            Some((message, rest)) => match messages(rest, (n - 1) as nat) {
                Some(more) => Some(seq![message] + more),
                None => None,
            },
            None => None,
        }
    }
}

/// The first `num_rows` messages of a log, where there are as many.
pub fn log_messages(lines: &Vec<String>, num_rows: usize) -> (r: Option<Vec<String>>)
    ensures
        match r {
            Some(found) => messages(lists::texts(lines@), num_rows as nat) == Some(
                lists::texts(found@),
            ),
            None => messages(lists::texts(lines@), num_rows as nat) is None,
        },
{
    let ghost all = lists::texts(lines@);
    let mut found: Vec<String> = Vec::new();
    let mut next: usize = 0;
    let mut row: usize = 0;
    assert(all.skip(0) =~= all);
    assert(lists::texts(found@) =~= Seq::<Seq<char>>::empty());
    proof {
        if messages(all, num_rows as nat) is Some {
            let m = messages(all, num_rows as nat)->0;
            assert(m =~= Seq::<Seq<char>>::empty() + m);
        }
    }
    while row < num_rows
        invariant
            row <= num_rows,
            next <= lines@.len(),
            all == lists::texts(lines@),
            messages(all, num_rows as nat) == (match messages(
                all.skip(next as int),
                (num_rows - row) as nat,
            ) {
                Some(more) => Some(lists::texts(found@) + more),
                None => None,
            }),
        decreases num_rows - row,
    {
        let ghost start = all.skip(next as int);
        let mut line = String::new();
        let mut complete: bool = false;
        while !complete
            invariant
                next <= lines@.len(),
                all == lists::texts(lines@),
                row < num_rows,
                messages(all, num_rows as nat) == (match messages(
                    start,
                    (num_rows - row) as nat,
                ) {
                    Some(more) => Some(lists::texts(found@) + more),
                    None => None,
                }),
                !complete ==> next_message(start, Seq::empty()) == next_message(
                    all.skip(next as int),
                    line@,
                ),
                complete ==> next_message(start, Seq::empty()) == Some(
                    (line@, all.skip(next as int)),
                ),
            decreases lines@.len() - next,
        {
            if next == lines.len() {
                assert(messages(start, (num_rows - row) as nat) is None);
                return None;
            }
            let ghost rest = all.skip(next as int);
            assert(rest[0] == lines@[next as int]@);
            assert(rest.drop_first() =~= all.skip(next + 1));
            line.append(lines[next].as_str());
            next = next + 1;
            if line.as_str().as_bytes().len() > 1000 {
                complete = true;
            }
        }
        let ghost before = lists::texts(found@);
        found.push(line);
        proof {
            assert(lists::texts(found@) =~= before.push(line@));
            let left = (num_rows - row - 1) as nat;
            match messages(all.skip(next as int), left) {
                Some(more) => {
                    assert(before + (seq![line@] + more) =~= before.push(line@) + more);
                },
                None => {},
            }
        }
        row = row + 1;
    }
    proof {
        assert(lists::texts(found@) + Seq::<Seq<char>>::empty() =~= lists::texts(found@));
    }
    Some(found)
}

/// The values of a column: strings, or times in milliseconds.
#[derive(Debug)]
pub struct Values {
    pub string_values: Vec<String>,
    pub timestamp_millisecond_values: Vec<i64>,
}

/// What [`Values`] hold.
pub struct ValuesView {
    pub string_values: Seq<Seq<char>>,
    pub timestamp_millisecond_values: Seq<i64>,
}

impl View for Values {
    type V = ValuesView;

    open spec fn view(&self) -> ValuesView {
        ValuesView {
            string_values: lists::texts(self.string_values@),
            timestamp_millisecond_values: self.timestamp_millisecond_values@,
        }
    }
}

/// A column of rows that are to be inserted.
#[derive(Debug)]
pub struct InsertColumn {
    pub column_name: String,
    pub semantic_type: SemanticType,
    pub datatype: ColumnDataType,
    pub values: Option<Values>,
}

/// Rows that are to be inserted into a table, column by column.
#[derive(Debug)]
pub struct InsertRequest {
    pub table_name: String,
    pub columns: Vec<InsertColumn>,
    pub row_count: u32,
}

/// The names of the columns of the log table, in order.
pub open spec fn log_columns() -> Seq<Seq<char>> {
    seq![
        "message"@,
        "extractLevel"@,
        "dltag"@,
        "hostName"@,
        "odinLeaf"@,
        "logName"@,
        "logTime"@,
        "traceid"@,
        "spanid"@,
        "cspanid"@,
        "uri"@,
        "errno"@,
    ]
}

/// The place of the column of times among the columns of the log table.
pub const LOG_TIME: usize = 6;

/// The length of all strings together, in UTF-8.
pub open spec fn sum_bytes(strings: Seq<Seq<char>>) -> nat
    decreases strings.len(),
{
    if strings.len() == 0 {
        0
    } else {
        sum_bytes(strings.drop_last()) + encode_utf8(strings.last()).len()
    }
}

proof fn lemma_sum_bytes_prefix(strings: Seq<Seq<char>>, n: int)
    requires
        0 <= n <= strings.len(),
    ensures
        sum_bytes(strings.take(n)) <= sum_bytes(strings),
    decreases strings.len() - n,
{
    if n < strings.len() {
        lemma_sum_bytes_prefix(strings, n + 1);
        assert(strings.take(n + 1).drop_last() =~= strings.take(n));
    } else {
        assert(strings.take(n) =~= strings);
    }
}

/// The length of some strings together, in UTF-8.
fn sum_of_bytes(strings: &Vec<String>) -> (r: usize)
    requires
        sum_bytes(lists::texts(strings@)) <= usize::MAX,
    ensures
        r == sum_bytes(lists::texts(strings@)),
{
    let ghost all = lists::texts(strings@);
    let mut total: usize = 0;
    let mut i: usize = 0;
    assert(all.take(0) =~= Seq::<Seq<char>>::empty());
    while i < strings.len()
        invariant
            i <= strings@.len(),
            all == lists::texts(strings@),
            sum_bytes(all) <= usize::MAX,
            total == sum_bytes(all.take(i as int)),
        decreases strings@.len() - i,
    {
        proof {
            lemma_sum_bytes_prefix(all, i + 1);
            assert(all.take(i + 1).drop_last() =~= all.take(i as int));
            assert(all.take(i + 1).last() == strings@[i as int]@);
        }
        total = total + strings[i].as_str().as_bytes().len();
        i = i + 1;
    }
    assert(all.take(i as int) =~= all);
    total
}

/// A column of strings.
fn string_column(name: &str, values: Vec<String>) -> (r: InsertColumn)
    ensures
        is_string_column(r, name@, lists::texts(values@)),
{
    InsertColumn {
        column_name: name.to_string(),
        semantic_type: SemanticType::Field,
        datatype: ColumnDataType::Text,
        values: Some(Values { string_values: values, timestamp_millisecond_values: Vec::new() }),
    }
}

/// The column has the name, is a field of text and has the values.
pub open spec fn is_string_column(
    column: InsertColumn,
    name: Seq<char>,
    values: Seq<Seq<char>>,
) -> bool {
    &&& column.column_name@ == name
    &&& column.semantic_type == SemanticType::Field
    &&& column.datatype == ColumnDataType::Text
    &&& column.values matches Some(v) && v@.string_values == values
        && v@.timestamp_millisecond_values.len() == 0
}

/// The column has the name, is a field of text and has `n` random strings of the length.
pub open spec fn is_random_column(
    column: InsertColumn,
    name: Seq<char>,
    n: nat,
    length: nat,
) -> bool {
    exists|values: Seq<Seq<char>>| #[trigger]
        is_string_column(column, name, values) && values.len() == n && forall|i: int|
            0 <= i < n ==> is_random_string(#[trigger] values[i], length)
}

/// One of the levels of a log.
pub open spec fn is_level(s: Seq<char>) -> bool {
    s == "INFO"@ || s == "WARN"@ || s == "ERROR"@
}

/// The column of levels has `n` of them.
pub open spec fn is_level_column(column: InsertColumn, n: nat) -> bool {
    exists|values: Seq<Seq<char>>| #[trigger]
        is_string_column(column, "extractLevel"@, values) && values.len() == n && forall|i: int|
            0 <= i < n ==> is_level(#[trigger] values[i])
}

/// The column of times has `n` of them, each within a second of `now`.
pub open spec fn is_time_column(column: InsertColumn, n: nat, now: i64) -> bool {
    &&& column.column_name@ == "logTime"@
    &&& column.semantic_type == SemanticType::Timestamp
    &&& column.datatype == ColumnDataType::TimestampMillisecond
    &&& column.values matches Some(v) && v@.string_values.len() == 0
        && v@.timestamp_millisecond_values.len() == n && forall|i: int|
        0 <= i < n ==> now <= #[trigger] v@.timestamp_millisecond_values[i] < now + 1000
}

/// A column of `n` random strings of the given length.
fn random_column(name: &str, n: usize, length: usize) -> (r: InsertColumn)
    ensures
        is_random_column(r, name@, n as nat, length as nat),
{
    let mut values: Vec<String> = Vec::new();
    let mut i: usize = 0;
    while i < n
        invariant
            i <= n,
            values@.len() == i,
            forall|k: int|
                0 <= k < i ==> is_random_string((#[trigger] values@[k])@, length as nat),
        decreases n - i,
    {
        values.push(random_string(length));
        i = i + 1;
    }
    let ghost texts = lists::texts(values@);
    let r = string_column(name, values);
    proof {
        assert(is_string_column(r, name@, texts));
        assert forall|k: int| 0 <= k < n implies is_random_string(
            #[trigger] texts[k],
            length as nat,
        ) by {
            assert(texts[k] == values@[k]@);
        }
    }
    r
}

/// The column of `n` levels of a log.
fn level_column(n: usize) -> (r: InsertColumn)
    ensures
        is_level_column(r, n as nat),
{
    let mut candidates: Vec<&str> = Vec::new();
    candidates.push("INFO");
    candidates.push("WARN");
    candidates.push("ERROR");
    let mut values: Vec<String> = Vec::new();
    let mut i: usize = 0;
    while i < n
        invariant
            i <= n,
            candidates@.len() == 3,
            candidates@[0]@ == "INFO"@,
            candidates@[1]@ == "WARN"@,
            candidates@[2]@ == "ERROR"@,
            values@.len() == i,
            forall|k: int| 0 <= k < i ==> is_level((#[trigger] values@[k])@),
        decreases n - i,
    {
        values.push(random_in_candidates(&candidates));
        i = i + 1;
    }
    let ghost texts = lists::texts(values@);
    let r = string_column("extractLevel", values);
    proof {
        assert(is_string_column(r, "extractLevel"@, texts));
        assert forall|k: int| 0 <= k < n implies is_level(#[trigger] texts[k]) by {
            assert(texts[k] == values@[k]@);
        }
    }
    r
}

/// The column of `n` times within a second of `now`.
fn time_column(n: usize, now: i64) -> (r: InsertColumn)
    requires
        now <= i64::MAX - 999,
    ensures
        is_time_column(r, n as nat, now),
{
    let mut times: Vec<i64> = Vec::new();
    let mut i: usize = 0;
    while i < n
        invariant
            i <= n,
            now <= i64::MAX - 999,
            times@.len() == i,
            forall|k: int| 0 <= k < i ==> now <= #[trigger] times@[k] < now + 1000,
        decreases n - i,
    {
        let offset: i64 = random_below(1000) as i64;
        times.push(offset + now);
        i = i + 1;
    }
    let r = InsertColumn {
        column_name: "logTime".to_string(),
        semantic_type: SemanticType::Timestamp,
        datatype: ColumnDataType::TimestampMillisecond,
        values: Some(Values { string_values: Vec::new(), timestamp_millisecond_values: times }),
    };
    r
}

/// A request to insert `num_rows` messages of a log with made-up values of the other columns,
/// and the number of bytes that its rows are counted with: those of the messages, and 120 for
/// the values of each row.
pub fn build_insert_request(num_rows: usize, lines: &Vec<String>, current_timestamp: i64) -> (r: (
    usize,
    InsertRequest,
))
    requires
        messages(lists::texts(lines@), num_rows as nat) is Some,
        sum_bytes(messages(lists::texts(lines@), num_rows as nat)->0) + 120 * num_rows
            <= usize::MAX,
        current_timestamp <= i64::MAX - 999,
    ensures
        r.0 == sum_bytes(messages(lists::texts(lines@), num_rows as nat)->0) + 120 * num_rows,
        r.1.table_name@ == "test_bamai_table_v5"@,
        r.1.row_count == num_rows as u32,
        r.1.columns@.len() == 12,
        is_string_column(
            r.1.columns@[0],
            "message"@,
            messages(lists::texts(lines@), num_rows as nat)->0,
        ),
        is_level_column(r.1.columns@[1], num_rows as nat),
        is_random_column(r.1.columns@[2], "dltag"@, num_rows as nat, 10),
        is_random_column(r.1.columns@[3], "hostName"@, num_rows as nat, 10),
        is_random_column(r.1.columns@[4], "odinLeaf"@, num_rows as nat, 10),
        is_random_column(r.1.columns@[5], "logName"@, num_rows as nat, 10),
        is_time_column(r.1.columns@[6], num_rows as nat, current_timestamp),
        is_random_column(r.1.columns@[7], "traceid"@, num_rows as nat, 16),
        is_random_column(r.1.columns@[8], "spanid"@, num_rows as nat, 16),
        is_random_column(r.1.columns@[9], "cspanid"@, num_rows as nat, 16),
        is_random_column(r.1.columns@[10], "uri"@, num_rows as nat, 10),
        is_random_column(r.1.columns@[11], "errno"@, num_rows as nat, 10),
{
    let mut total_size: usize = 0;
    let mut columns: Vec<InsertColumn> = Vec::new();
    let log_messages: Vec<String> = match log_messages(lines, num_rows) {
        Some(found) => found,
        None => Vec::new(),
    };
    total_size = total_size + sum_of_bytes(&log_messages);
    columns.push(string_column("message", log_messages));
    columns.push(level_column(num_rows));
    total_size = total_size + 4 * num_rows;
    columns.push(random_column("dltag", num_rows, 10));
    total_size = total_size + 10 * num_rows;
    columns.push(random_column("hostName", num_rows, 10));
    total_size = total_size + 10 * num_rows;
    columns.push(random_column("odinLeaf", num_rows, 10));
    total_size = total_size + 10 * num_rows;
    columns.push(random_column("logName", num_rows, 10));
    total_size = total_size + 10 * num_rows;
    columns.push(time_column(num_rows, current_timestamp));
    total_size = total_size + 8 * num_rows;
    columns.push(random_column("traceid", num_rows, 16));
    total_size = total_size + 16 * num_rows;
    columns.push(random_column("spanid", num_rows, 16));
    total_size = total_size + 16 * num_rows;
    columns.push(random_column("cspanid", num_rows, 16));
    total_size = total_size + 16 * num_rows;
    columns.push(random_column("uri", num_rows, 10));
    total_size = total_size + 10 * num_rows;
    columns.push(random_column("errno", num_rows, 10));
    total_size = total_size + 10 * num_rows;
    (
        total_size,
        InsertRequest {
            table_name: "test_bamai_table_v5".to_string(),
            columns,
            row_count: num_rows as u32,
        },
    )
}

/// The fields of the log table: text, but for the times, which are never null.
pub open spec fn log_fields() -> Seq<FieldView> {
    Seq::new(
        12,
        |i: int|
            FieldView {
                name: log_columns()[i],
                data_type: if i == LOG_TIME {
                    TypeView::Timestamp(TimeUnit::Millisecond, None)
                } else {
                    TypeView::Utf8
                },
                nullable: i != LOG_TIME,
            },
    )
}

/// A field of text that may be null.
fn text_field(name: &str) -> (r: Field)
    ensures
        r@ == (FieldView { name: name@, data_type: TypeView::Utf8, nullable: true }),
{
    Field { name: name.to_string(), data_type: DataType::Utf8, nullable: true }
}

/// The schema of the log table.
fn log_schema() -> (r: Schema)
    ensures
        r@ == log_fields(),
{
    let mut fields: Vec<Field> = Vec::new();
    fields.push(text_field("message"));
    fields.push(text_field("extractLevel"));
    fields.push(text_field("dltag"));
    fields.push(text_field("hostName"));
    fields.push(text_field("odinLeaf"));
    fields.push(text_field("logName"));
    fields.push(
        Field {
            name: "logTime".to_string(),
            data_type: DataType::Timestamp(TimeUnit::Millisecond, None),
            nullable: false,
        },
    );
    fields.push(text_field("traceid"));
    fields.push(text_field("spanid"));
    fields.push(text_field("cspanid"));
    fields.push(text_field("uri"));
    fields.push(text_field("errno"));
    let r = Schema { fields };
    assert(r@ =~= log_fields());
    r
}

/// The cells of the column at `i` of the log table, from the values of a request.
pub open spec fn log_cells(values: ValuesView, i: int) -> Seq<CellView> {
    if i == LOG_TIME {
        values.timestamp_millisecond_values.map_values(|t: i64| CellView::Int64(t))
    } else {
        values.string_values.map_values(|v: Seq<char>| CellView::Utf8(v))
    }
}

/// The columns of the log table, from a request's.
pub open spec fn log_batch_columns(columns: Seq<InsertColumn>) -> Seq<ColumnView> {
    Seq::new(
        12,
        |i: int|
            ColumnView {
                data_type: log_fields()[i].data_type,
                cells: log_cells(columns[i].values->0@, i),
                dictionary: Seq::empty(),
            },
    )
}

/// A request has values for every column of the log table, as many for each.
pub open spec fn is_log_request(request: InsertRequest) -> bool {
    &&& request.columns@.len() >= 12
    &&& forall|i: int|
        0 <= i < 12 ==> (#[trigger] request.columns@[i]).values is Some && log_cells(
            request.columns@[i].values->0@,
            i,
        ).len() == log_cells(request.columns@[0].values->0@, 0).len()
}

/// The rows of a request for the log table as a batch.
pub fn insert_request_to_record_batch(insert_request: &InsertRequest) -> (r: RecordBatch)
    requires
        is_log_request(*insert_request),
    ensures
        r@ == (BatchView {
            fields: log_fields(),
            columns: log_batch_columns(insert_request.columns@),
            num_rows: log_cells(insert_request.columns@[0].values->0@, 0).len(),
        }),
        r@.valid(),
{
    let ghost expected = log_batch_columns(insert_request.columns@);
    let mut columns: Vec<Column> = Vec::new();
    let mut i: usize = 0;
    while i < 12
        invariant
            i <= 12,
            is_log_request(*insert_request),
            expected == log_batch_columns(insert_request.columns@),
            columns@.len() == i,
            forall|k: int| 0 <= k < i ==> (#[trigger] columns@[k])@ == expected[k],
        decreases 12 - i,
    {
        assert(insert_request.columns@[i as int].values is Some);
        if let Some(values) = &insert_request.columns[i].values {
            let column = if i == LOG_TIME {
                time_cells(&values.timestamp_millisecond_values)
            } else {
                text_cells(&values.string_values)
            };
            assert(column@.cells =~= expected[i as int].cells);
            columns.push(column);
        }
        i = i + 1;
    }
    let schema = log_schema();
    assert(record_batch::columns_view(columns@) =~= expected);
    proof {
        assert forall|k: int| 0 <= k < expected.len() implies (#[trigger] expected[k]).well_typed()
            && expected[k].cells.len() == expected[0].cells.len()
            && !record_batch::null_forbidden(log_fields(), expected, k)
            && !record_batch::type_differs(log_fields(), expected, k) by {
            assert(insert_request.columns@[k].values is Some);
            if k == LOG_TIME {
                assert forall|m: int| 0 <= m < expected[k].cells.len() implies !(
                #[trigger] expected[k].cells[m] is Null) by {}
            }
        }
    }
    let num_rows: usize = columns[0].len();
    RecordBatch { schema, columns, num_rows }
}

/// Times as a column.
fn time_cells(times: &Vec<i64>) -> (r: Column)
    ensures
        r@ == (ColumnView {
            data_type: TypeView::Timestamp(TimeUnit::Millisecond, None),
            cells: times@.map_values(|t: i64| CellView::Int64(t)),
            dictionary: Seq::empty(),
        }),
{
    let mut cells: Vec<Cell> = Vec::new();
    let mut i: usize = 0;
    while i < times.len()
        invariant
            i <= times@.len(),
            cells@.len() == i,
            forall|k: int| 0 <= k < i ==> (#[trigger] cells@[k])@ == CellView::Int64(times@[k]),
        decreases times@.len() - i,
    {
        cells.push(Cell::Int64(times[i]));
        i = i + 1;
    }
    let r = Column::new(DataType::Timestamp(TimeUnit::Millisecond, None), cells);
    assert(r@.cells =~= times@.map_values(|t: i64| CellView::Int64(t)));
    r
}

/// Strings as a column.
fn text_cells(strings: &Vec<String>) -> (r: Column)
    ensures
        r@ == (ColumnView {
            data_type: TypeView::Utf8,
            cells: lists::texts(strings@).map_values(|v: Seq<char>| CellView::Utf8(v)),
            dictionary: Seq::empty(),
        }),
{
    let mut cells: Vec<Cell> = Vec::new();
    let mut i: usize = 0;
    while i < strings.len()
        invariant
            i <= strings@.len(),
            cells@.len() == i,
            forall|k: int| 0 <= k < i ==> (#[trigger] cells@[k])@ == CellView::Utf8(strings@[k]@),
        decreases strings@.len() - i,
    {
        cells.push(Cell::Utf8(strings[i].clone()));
        i = i + 1;
    }
    let r = Column::new(DataType::Utf8, cells);
    assert(r@.cells =~= lists::texts(strings@).map_values(|v: Seq<char>| CellView::Utf8(v)));
    r
}

/// The gzip stream of some bytes.
pub uninterp spec fn gzip(data: Seq<u8>) -> Seq<u8>;

/// `GzEncoder` of flate2 at its default level, written to and finished: the gzip stream of
/// the bytes. Writing to memory does not fail.
#[verifier::external_body]
pub fn gzip_compress(data: &[u8]) -> (r: Vec<u8>)
    ensures
        r@ == gzip(data@),
{
    let mut encoder = GzEncoder::new(Vec::new(), flate2::Compression::default());
    encoder.write_all(data).unwrap();
    encoder.finish().unwrap()
}

/// The arrow IPC file of a batch, with or without Zstandard compression; none where it
/// cannot be written.
pub fn insert_request_to_arrow_ipc(rb: &RecordBatch, zstd: bool) -> (r: Option<Vec<u8>>)
    requires
        rb@.valid(),
        forall|i: int|
            0 <= i < rb@.columns.len() ==> arrow_batch::convertible(#[trigger] rb@.columns[i]),
    ensures
        exists|little_endian: bool|
            arrow_batch::bytes_view(r) == #[trigger] arrow_batch::ipc_file(
                little_endian,
                arrow_batch::batch_arrays(rb@),
                zstd,
            ),
{
    let arrays = arrow_batch::to_arrow(rb);
    arrow_batch::write_ipc(&arrays, zstd)
}

/// The Parquet file of a batch; none where it cannot be written.
pub fn insert_request_to_parquet(rb: &RecordBatch, compression: FileCompression) -> (r: Option<
    Vec<u8>,
>)
    requires
        rb@.valid(),
        forall|i: int|
            0 <= i < rb@.columns.len() ==> arrow_batch::convertible(#[trigger] rb@.columns[i]),
    ensures
        exists|little_endian: bool|
            arrow_batch::bytes_view(r) == #[trigger] arrow_batch::parquet_file(
                little_endian,
                arrow_batch::batch_arrays(rb@),
                None,
                compression,
            ),
{
    let arrays = arrow_batch::to_arrow(rb);
    arrow_batch::write_parquet(&arrays, None, compression)
}

/// The first message of a log is its first lines put together, up to the first line with which
/// they have more than a thousand bytes, and no line after it; what is left are the lines after
/// that one. There is no message where all lines together are no longer than that.
proof fn lemma_next_message(lines: Seq<Seq<char>>, so_far: Seq<char>) -> (k: int)
    ensures
        match next_message(lines, so_far) {
            Some((message, rest)) => {
                &&& 0 < k <= lines.len()
                &&& message == so_far + lines.take(k).flatten()
                &&& encode_utf8(message).len() > 1000
                &&& rest == lines.skip(k)
                &&& forall|j: int|
                    0 < j < k ==> encode_utf8(so_far + #[trigger] lines.take(j).flatten()).len()
                        <= 1000
            },
            None => forall|j: int|
                0 < j <= lines.len() ==> encode_utf8(
                    so_far + #[trigger] lines.take(j).flatten(),
                ).len() <= 1000,
        },
    decreases lines.len(),
{
    if lines.len() == 0 {
        0
    } else {
        let message = so_far + lines[0];
        let tail = lines.drop_first();
        assert forall|j: int| 0 < j <= lines.len() implies so_far + (#[trigger] lines.take(
            j,
        ).flatten()) == message + tail.take(j - 1).flatten() by {
            assert(lines.take(j).first() == lines[0]);
            assert(lines.take(j).drop_first() =~= tail.take(j - 1));
            assert(so_far + (lines[0] + tail.take(j - 1).flatten()) =~= message + tail.take(
                j - 1,
            ).flatten());
        }
        assert(tail.take(0) =~= Seq::<Seq<char>>::empty());
        assert(message + tail.take(0).flatten() =~= message);
        if encode_utf8(message).len() > 1000 {
            assert(lines.skip(1) =~= tail);
            assert(so_far + lines.take(1).flatten() == message + tail.take(0).flatten());
            1
        } else {
            let k = lemma_next_message(tail, message);
            if next_message(tail, message) is Some {
                assert(tail.skip(k) =~= lines.skip(k + 1));
                assert(so_far + lines.take(k + 1).flatten() == message + tail.take(k).flatten());
                assert forall|j: int| 0 < j < k + 1 implies encode_utf8(
                    so_far + #[trigger] lines.take(j).flatten(),
                ).len() <= 1000 by {
                    if j > 1 {
                        assert(encode_utf8(message + tail.take(j - 1).flatten()).len() <= 1000);
                    }
                }
            } else {
                assert forall|j: int| 0 < j <= lines.len() implies encode_utf8(
                    so_far + #[trigger] lines.take(j).flatten(),
                ).len() <= 1000 by {
                    if j > 1 {
                        assert(encode_utf8(message + tail.take(j - 1).flatten()).len() <= 1000);
                    }
                }
            }
            k + 1
        }
    }
}

/// The lines from one place to another put together are a message: they have more than a
/// thousand bytes, and would not have without the last of them.
pub open spec fn is_message(
    lines: Seq<Seq<char>>,
    from: int,
    to: int,
    message: Seq<char>,
) -> bool {
    &&& 0 <= from < to <= lines.len()
    &&& message == lines.take(to).skip(from).flatten()
    &&& encode_utf8(message).len() > 1000
    &&& forall|j: int|
        from < j < to ==> encode_utf8((#[trigger] lines.take(j)).skip(from).flatten()).len()
            <= 1000
}

proof fn lemma_message_of_rest(
    lines: Seq<Seq<char>>,
    k: int,
    from: int,
    to: int,
    message: Seq<char>,
)
    requires
        0 <= k <= lines.len(),
        is_message(lines.skip(k), from, to, message),
    ensures
        is_message(lines, from + k, to + k, message),
{
    let rest = lines.skip(k);
    assert(lines.take(to + k).skip(from + k) =~= rest.take(to).skip(from));
    assert forall|j: int| from + k < j < to + k implies encode_utf8(
        (#[trigger] lines.take(j)).skip(from + k).flatten(),
    ).len() <= 1000 by {
        assert(lines.take(j).skip(from + k) =~= rest.take(j - k).skip(from));
    }
}

/// The messages of a log divide its lines without a gap: each is the lines from where the one
/// before it ends, up to the first with which they have more than a thousand bytes. They are
/// fewer than asked for only where the lines that are left never have as many bytes.
pub proof fn law_messages_divide_lines(lines: Seq<Seq<char>>, n: nat) -> (r: (
    Seq<Seq<char>>,
    Seq<int>,
))
    ensures
        r.1.len() == r.0.len() + 1,
        r.1[0] == 0,
        0 <= r.1.last() <= lines.len(),
        forall|k: int|
            0 <= k < r.0.len() ==> is_message(lines, r.1[k], r.1[k + 1], #[trigger] r.0[k]),
        match messages(lines, n) {
            Some(m) => m == r.0 && r.0.len() == n,
            None => r.0.len() < n && forall|j: int|
                r.1.last() < j <= lines.len() ==> encode_utf8(
                    (#[trigger] lines.take(j)).skip(r.1.last()).flatten(),
                ).len() <= 1000,
        },
    decreases n,
{
    let none = Seq::<Seq<char>>::empty();
    let start = seq![0int];
    assert(start.last() == 0);
    if n == 0 {
        (none, start)
    } else {
        let so_far = Seq::<char>::empty();
        let k = lemma_next_message(lines, so_far);
        assert forall|j: int| 0 < j <= lines.len() implies (#[trigger] lines.take(j)).skip(
            0,
        ).flatten() == so_far + lines.take(j).flatten() by {
            assert(lines.take(j).skip(0) =~= lines.take(j));
            assert(so_far + lines.take(j).flatten() =~= lines.take(j).flatten());
        }
        match next_message(lines, so_far) {
            None => (none, start),
            Some((message, rest)) => {
                let (more, later) = law_messages_divide_lines(rest, (n - 1) as nat);
                let found = seq![message] + more;
                let starts = start + later.map_values(|s: int| s + k);
                assert(starts.last() == later.last() + k);
                assert(lines.take(k).skip(0).flatten() == so_far + lines.take(k).flatten());
                assert forall|i: int| 0 <= i < found.len() implies is_message(
                    lines,
                    starts[i],
                    starts[i + 1],
                    #[trigger] found[i],
                ) by {
                    if i == 0 {
                        assert(is_message(lines, 0, k, message));
                    } else {
                        assert(is_message(rest, later[i - 1], later[i], more[i - 1]));
                        lemma_message_of_rest(lines, k, later[i - 1], later[i], more[i - 1]);
                    }
                }
                if messages(lines, n) is None {
                    assert forall|j: int| starts.last() < j <= lines.len() implies encode_utf8(
                        (#[trigger] lines.take(j)).skip(starts.last()).flatten(),
                    ).len() <= 1000 by {
                        assert(lines.take(j).skip(starts.last()) =~= rest.take(j - k).skip(
                            later.last(),
                        ));
                    }
                }
                (found, starts)
            },
        }
    }
}

/// The length of strings together is that of some of them and that of the others, and of one
/// alone its own; so a string's length is never left out.
pub proof fn law_bytes_add_up(some: Seq<Seq<char>>, others: Seq<Seq<char>>, s: Seq<char>)
    ensures
        sum_bytes(some + others) == sum_bytes(some) + sum_bytes(others),
        sum_bytes(seq![s]) == encode_utf8(s).len(),
    decreases others.len(),
{
    reveal_with_fuel(sum_bytes, 2);
    assert(seq![s].drop_last() =~= Seq::<Seq<char>>::empty());
    if others.len() == 0 {
        assert(some + others =~= some);
    } else {
        law_bytes_add_up(some, others.drop_last(), s);
        assert((some + others).drop_last() =~= some + others.drop_last());
        assert((some + others).last() == others.last());
    }
}

/// A batch of the log table holds, in each row, the very values that the request has for it:
/// the time among its times, and the texts among its strings, column by column.
pub proof fn law_log_batch_holds_values(request: InsertRequest, i: int, row: int)
    requires
        is_log_request(request),
        0 <= i < 12,
        0 <= row < log_batch_columns(request.columns@)[0].cells.len(),
    ensures
        request.columns@[i].values matches Some(values) && if i == 6 {
            &&& row < values.timestamp_millisecond_values@.len()
            &&& log_batch_columns(request.columns@)[i].cells[row] == CellView::Int64(
                values.timestamp_millisecond_values@[row],
            )
            &&& log_fields()[i].data_type == TypeView::Timestamp(TimeUnit::Millisecond, None)
            &&& !log_fields()[i].nullable
        } else {
            &&& row < values.string_values@.len()
            &&& log_batch_columns(request.columns@)[i].cells[row] == CellView::Utf8(
                values.string_values@[row]@,
            )
            &&& log_fields()[i].data_type == TypeView::Utf8
            &&& log_fields()[i].nullable
        },
        log_batch_columns(request.columns@).len() == 12,
        log_batch_columns(request.columns@)[0].cells.len()
            == request.columns@[0].values->0.string_values@.len(),
        log_fields().len() == 12,
        log_batch_columns(request.columns@)[i].data_type == log_fields()[i].data_type,
        log_batch_columns(request.columns@)[i].dictionary.len() == 0,
{
    assert(request.columns@[i].values is Some);
    assert(request.columns@[0].values is Some);
    assert(log_cells(request.columns@[i].values->0@, i).len() == log_cells(
        request.columns@[0].values->0@,
        0,
    ).len());
}

/// The batch of a request for the log table has the names of the request's columns, in order.
pub proof fn law_log_fields_are_named(i: int)
    requires
        0 <= i < 12,
    ensures
        log_fields()[i].name == if i == 0 {
            "message"@
        } else if i == 1 {
            "extractLevel"@
        } else if i == 2 {
            "dltag"@
        } else if i == 3 {
            "hostName"@
        } else if i == 4 {
            "odinLeaf"@
        } else if i == 5 {
            "logName"@
        } else if i == 6 {
            "logTime"@
        } else if i == 7 {
            "traceid"@
        } else if i == 8 {
            "spanid"@
        } else if i == 9 {
            "cspanid"@
        } else if i == 10 {
            "uri"@
        } else {
            "errno"@
        },
{
}

/// The batch of a request for the log table has its values, row by row and column by column.
pub proof fn law_request_becomes_batch(
    request: InsertRequest,
    r: RecordBatch,
    i: int,
    row: int,
)
    requires
        is_log_request(request),
        call_ensures(insert_request_to_record_batch, (&request,), r),
        0 <= i < 12,
        0 <= row < r@.num_rows,
    ensures
        r@.num_rows == request.columns@[0].values->0.string_values@.len(),
        r@.columns.len() == 12,
        r@.fields.len() == 12,
        request.columns@[i].values matches Some(values) && r@.columns[i].cells[row] == if i == 6 {
            CellView::Int64(values.timestamp_millisecond_values@[row])
        } else {
            CellView::Utf8(values.string_values@[row]@)
        },
{
    assert(request.columns@[0].values is Some);
    law_log_batch_holds_values(request, i, row);
}

} // verus!

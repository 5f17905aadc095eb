//! The batch in which a worker collects the rows of many requests until it is flushed.

use vstd::prelude::*;

use crate::lists;
use crate::record_batch::{BatchView, FieldView, RecordBatch, Schema};
use crate::rows;
use crate::rows::{Rows, RowsView};
use crate::table_builders;
use crate::table_builders::{
    BuildError, BuildErrorView, TableBuilders, TableInfo, TableInfoView, TableView,
};
use crate::text;

verus! {

/// Rows for one table, with the schema they are collected under.
#[derive(Debug)]
pub struct TableRows {
    pub table_info: TableInfo,
    pub schema: Schema,
    pub rows: Rows,
}

/// What [`TableRows`] hold.
pub struct TableRowsView {
    pub table_info: TableInfoView,
    pub fields: Seq<FieldView>,
    pub rows: RowsView,
}

/// The rows collected since the last flush, and who waits for them. A waiter is
/// known by a number.
pub struct PendingBatch {
    pub tables: Vec<TableBuilders>,
    pub created_at: Option<u64>,
    pub total_row_count: usize,
    pub waiters: Vec<u64>,
}

/// What a [`PendingBatch`] holds.
#[verifier::ext_equal]
pub struct PendingView {
    pub tables: Seq<TableView>,
    pub created_at: Option<u64>,
    pub total_row_count: nat,
    pub waiters: Seq<u64>,
}

/// Why a pending batch was given up.
#[derive(Debug)]
pub enum BatchFailure {
    CreateBuilders(BuildError),
    AppendRows(BuildError),
    FinalizeBuilders(BuildError),
}

/// What a [`BatchFailure`] says.
pub enum BatchFailureView {
    CreateBuilders(BuildErrorView),
    AppendRows(BuildErrorView),
    FinalizeBuilders(BuildErrorView),
}

/// A pending batch that was given up: who is to be told, why, and how many rows
/// were dropped.
#[derive(Debug)]
pub struct FailedBatch {
    pub waiters: Vec<u64>,
    pub failure: BatchFailure,
    pub row_count: usize,
}

/// What a [`FailedBatch`] says.
#[verifier::ext_equal]
pub struct FailedView {
    pub waiters: Seq<u64>,
    pub failure: BatchFailureView,
    pub row_count: nat,
}

/// The rows of one table that are to be flushed.
#[derive(Debug)]
pub struct TableBatch {
    pub table_info: TableInfo,
    pub record_batch: RecordBatch,
    pub row_count: usize,
}

/// What a [`TableBatch`] holds.
pub struct TableBatchView {
    pub table_info: TableInfoView,
    pub record_batch: BatchView,
    pub row_count: nat,
}

/// The rows that are to be flushed together, and who waits for them.
#[derive(Debug)]
pub struct FlushBatch {
    pub table_batches: Vec<TableBatch>,
    pub total_row_count: usize,
    pub waiters: Vec<u64>,
}

/// What a [`FlushBatch`] holds.
#[verifier::ext_equal]
pub struct FlushView {
    pub table_batches: Seq<TableBatchView>,
    pub total_row_count: nat,
    pub waiters: Seq<u64>,
}

/// What came of draining a pending batch.
#[derive(Debug)]
pub enum Drained {
    /// There was nothing to flush.
    Nothing,
    Flush(FlushBatch),
    Failed(FailedBatch),
}

impl View for TableRows {
    type V = TableRowsView;

    open spec fn view(&self) -> TableRowsView {
        TableRowsView {
            table_info: self.table_info@,
            fields: self.schema@,
            rows: self.rows@,
        }
    }
}

/// What a sequence of builders has collected.
pub open spec fn tables_view(tables: Seq<TableBuilders>) -> Seq<TableView> {
    tables.map_values(|t: TableBuilders| t@)
}

impl View for PendingBatch {
    type V = PendingView;

    open spec fn view(&self) -> PendingView {
        PendingView {
            tables: tables_view(self.tables@),
            created_at: self.created_at,
            total_row_count: self.total_row_count as nat,
            waiters: self.waiters@,
        }
    }
}

impl View for BatchFailure {
    type V = BatchFailureView;

    open spec fn view(&self) -> BatchFailureView {
        match self {
            BatchFailure::CreateBuilders(e) => BatchFailureView::CreateBuilders(e@),
            BatchFailure::AppendRows(e) => BatchFailureView::AppendRows(e@),
            BatchFailure::FinalizeBuilders(e) => BatchFailureView::FinalizeBuilders(e@),
        }
    }
}

impl View for FailedBatch {
    type V = FailedView;

    open spec fn view(&self) -> FailedView {
        FailedView {
            waiters: self.waiters@,
            failure: self.failure@,
            row_count: self.row_count as nat,
        }
    }
}

/// What a sequence of failures says.
pub open spec fn failed_view(failed: Seq<FailedBatch>) -> Seq<FailedView> {
    failed.map_values(|f: FailedBatch| f@)
}

impl View for TableBatch {
    type V = TableBatchView;

    open spec fn view(&self) -> TableBatchView {
        TableBatchView {
            table_info: self.table_info@,
            record_batch: self.record_batch@,
            row_count: self.row_count as nat,
        }
    }
}

impl View for FlushBatch {
    type V = FlushView;

    open spec fn view(&self) -> FlushView {
        FlushView {
            table_batches: self.table_batches@.map_values(|t: TableBatch| t@),
            total_row_count: self.total_row_count as nat,
            waiters: self.waiters@,
        }
    }
}

impl FlushView {
    /// Every table's batch is valid.
    pub open spec fn valid(self) -> bool {
        forall|i: int|
            0 <= i < self.table_batches.len() ==> (
            #[trigger] self.table_batches[i]).record_batch.valid()
    }
}

/// The batch that holds nothing.
pub open spec fn empty_pending() -> PendingView {
    PendingView {
        tables: Seq::empty(),
        created_at: None,
        total_row_count: 0,
        waiters: Seq::empty(),
    }
}

/// The names of the tables, in order.
pub open spec fn table_names(tables: Seq<TableView>) -> Seq<Seq<char>> {
    tables.map_values(|t: TableView| t.table_name)
}

impl PendingView {
    /// Each table's builders follow its schema, and no two tables have one name.
    pub open spec fn well_formed(self) -> bool {
        &&& forall|i: int| 0 <= i < self.tables.len() ==> (#[trigger] self.tables[i]).well_formed()
        &&& forall|i: int, j: int|
            0 <= i < j < self.tables.len() ==> (#[trigger] self.tables[i]).table_name != (
            #[trigger] self.tables[j]).table_name
    }

    /// Gives the batch up, and says whom to tell. A batch that counts no rows is
    /// left as it is.
    pub open spec fn given_up(self, failure: BatchFailureView) -> (PendingView, Seq<FailedView>) {
        if self.total_row_count == 0 {
            (self, Seq::empty())
        } else {
            (
                empty_pending(),
                seq![
                    FailedView { waiters: self.waiters, failure, row_count: self.total_row_count },
                ],
            )
        }
    }

    /// The place of the table that `item` goes to: that of its name, or a new one.
    pub open spec fn place(self, item: TableRowsView) -> int {
        match rows::last_index(table_names(self.tables), item.table_info.name) {
            Some(i) => i,
            None => self.tables.len() as int,
        }
    }

    /// The tables with one for `item`.
    pub open spec fn tables_for(self, item: TableRowsView) -> Seq<TableView> {
        if self.place(item) < self.tables.len() {
            self.tables
        } else {
            self.tables.push(
                table_builders::empty_table(
                    item.table_info.name,
                    Some(item.table_info),
                    item.fields,
                ),
            )
        }
    }

    /// A table for `item` is missing and cannot be made.
    pub open spec fn cannot_create(self, item: TableRowsView) -> bool {
        self.place(item) == self.tables.len() && !table_builders::supported(item.fields)
    }

    /// Collects the rows of one table.
    pub open spec fn collect_one(self, item: TableRowsView) -> (PendingView, Seq<FailedView>) {
        if self.cannot_create(item) {
            self.given_up(
                BatchFailureView::CreateBuilders(table_builders::create_error(item.fields)),
            )
        } else {
            let tables = self.tables_for(item);
            let (table, error) = tables[self.place(item)].append_rows(item.rows);
            let next = PendingView { tables: tables.update(self.place(item), table), ..self };
            match error {
                None => (next, Seq::empty()),
                Some(e) => next.given_up(BatchFailureView::AppendRows(e)),
            }
        }
    }

    /// The machine can hold what `item` adds.
    pub open spec fn has_room_one(self, item: TableRowsView) -> bool {
        self.cannot_create(item) || self.tables_for(item)[self.place(item)].has_room(item.rows)
    }

    /// Collects rows table by table. A failure does not keep the rows after it from
    /// being collected.
    pub open spec fn collect(self, items: Seq<TableRowsView>) -> (PendingView, Seq<FailedView>)
        decreases items.len(),
    {
        if items.len() == 0 {
            (self, Seq::empty())
        } else {
            let (before, failed) = self.collect(items.drop_last());
            let (after, more) = before.collect_one(items.last());
            (after, failed + more)
        }
    }

    /// The machine can hold what `items` add.
    pub open spec fn has_room(self, items: Seq<TableRowsView>) -> bool
        decreases items.len(),
    {
        items.len() > 0 ==> self.has_room(items.drop_last()) && self.collect(
            items.drop_last(),
        ).0.has_room_one(items.last())
    }

    /// The batch as a request joins it: a batch without rows begins now.
    pub open spec fn joined(self, waiter: u64, now: u64) -> PendingView {
        PendingView {
            created_at: if self.total_row_count == 0 {
                Some(now)
            } else {
                self.created_at
            },
            waiters: self.waiters.push(waiter),
            ..self
        }
    }

    /// Takes in a request of `total_rows` rows. They are counted even where
    /// collecting them failed.
    pub open spec fn submitted(
        self,
        items: Seq<TableRowsView>,
        total_rows: nat,
        waiter: u64,
        now: u64,
    ) -> (PendingView, Seq<FailedView>) {
        let (batch, failed) = self.joined(waiter, now).collect(items);
        (
            PendingView { total_row_count: batch.total_row_count + total_rows, ..batch },
            failed,
        )
    }

    /// What is flushed of the batch when every table can be finished.
    pub open spec fn flushed(self) -> FlushView {
        FlushView {
            table_batches: self.tables.map_values(
                |t: TableView|
                    TableBatchView {
                        table_info: t.table_info->0,
                        record_batch: t.finished_batch(),
                        row_count: t.row_count,
                    },
            ),
            total_row_count: self.total_row_count,
            waiters: self.waiters,
        }
    }

    /// Every table's rows can be finished.
    pub open spec fn can_finish(self) -> bool {
        forall|i: int|
            0 <= i < self.tables.len() ==> (#[trigger] self.tables[i]).finish_error_free()
    }

    /// The first table whose rows cannot be finished gives the error `e`.
    pub open spec fn finish_error_is(self, e: BuildErrorView) -> bool {
        exists|i: int|
            {
                &&& 0 <= i < self.tables.len()
                &&& (#[trigger] self.tables[i]).finish_error_is(e)
                &&& forall|k: int|
                    0 <= k < i ==> (#[trigger] self.tables[k]).finish_error_free()
            }
    }
}

impl PendingBatch {
    /// A batch that holds nothing.
    pub fn new() -> (r: Self)
        ensures
            r@ == empty_pending(),
            r@.well_formed(),
    {
        let r = PendingBatch {
            tables: Vec::new(),
            created_at: None,
            total_row_count: 0,
            waiters: Vec::new(),
        };
        assert(r@.tables =~= Seq::<TableView>::empty());
        r
    }

    /// Gives the batch up, and says whom to tell. A batch that counts no rows is
    /// left as it is.
    pub fn flush_with_error(&mut self, failure: BatchFailure) -> (r: Option<FailedBatch>)
        requires
            old(self)@.well_formed(),
        ensures
            final(self)@.well_formed(),
            final(self)@ == old(self)@.given_up(failure@).0,
            match r {
                Some(f) => old(self)@.given_up(failure@).1 == seq![f@],
                None => old(self)@.given_up(failure@).1.len() == 0,
            },
    {
        if self.total_row_count == 0 {
            return None;
        }
        let row_count: usize = self.total_row_count;
        let mut waiters: Vec<u64> = Vec::new();
        std::mem::swap(&mut waiters, &mut self.waiters);
        self.tables.clear();
        self.total_row_count = 0;
        self.created_at = None;
        assert(self@.tables =~= Seq::<TableView>::empty());
        let failed = FailedBatch { waiters, failure, row_count };
        assert(old(self)@.given_up(failure@).1 =~= seq![failed@]);
        Some(failed)
    }

    /// The place of the table of the given name.
    fn find_table(&self, name: &str) -> (r: Option<usize>)
        ensures
            match r {
                Some(i) => rows::last_index(table_names(self@.tables), name@) == Some(i as int) && i
                    < self.tables@.len(),
                None => rows::last_index(table_names(self@.tables), name@) is None,
            },
    {
        let ghost names = table_names(self@.tables);
        let mut end: usize = self.tables.len();
        assert(names.take(end as int) =~= names);
        while end > 0
            invariant
                end <= self.tables@.len(),
                names == table_names(self@.tables),
                rows::last_index(names, name@) == rows::last_index(names.take(end as int), name@),
            decreases end,
        {
            let i: usize = end - 1;
            let ghost prefix = names.take(end as int);
            assert(prefix.last() == self.tables@[i as int].table_name@);
            assert(prefix.drop_last() =~= names.take(i as int));
            if text::text_equal(self.tables[i].table_name.as_str(), name) {
                return Some(i);
            }
            end = i;
        }
        assert(names.take(0) =~= Seq::<Seq<char>>::empty());
        None
    }

    /// Collects the rows of one table.
    fn collect_one(&mut self, item: &TableRows) -> (r: Option<FailedBatch>)
        requires
            old(self)@.well_formed(),
            old(self)@.has_room_one(item@),
        ensures
            final(self)@.well_formed(),
            final(self)@ == old(self)@.collect_one(item@).0,
            match r {
                Some(f) => old(self)@.collect_one(item@).1 == seq![f@],
                None => old(self)@.collect_one(item@).1.len() == 0,
            },
    {
        let ghost start = self@;
        let found = self.find_table(item.table_info.name.as_str());
        let at: usize = match found {
            Some(i) => i,
            None => {
                match TableBuilders::new_with_table_info(
                    item.table_info.clone(),
                    item.schema.clone(),
                ) {
                    Ok(builders) => {
                        proof {
                            rows::lemma_last_index(
                                table_names(start.tables),
                                item@.table_info.name,
                            );
                        }
                        self.tables.push(builders);
                        assert(self@.tables =~= start.tables_for(item@));
                        assert forall|i: int, j: int|
                            0 <= i < j < self@.tables.len() implies (
                        #[trigger] self@.tables[i]).table_name != (
                        #[trigger] self@.tables[j]).table_name by {
                            assert(self@.tables[i] == start.tables[i]);
                            assert(table_names(start.tables)[i] == start.tables[i].table_name);
                        }
                        self.tables.len() - 1
                    },
                    Err(e) => {
                        return self.flush_with_error(BatchFailure::CreateBuilders(e));
                    },
                }
            },
        };
        assert(self@.tables == start.tables_for(item@));
        assert(at == start.place(item@));
        let ghost tables = self@.tables;
        let ghost mid = self@;
        assert(mid.well_formed());
        assert(tables[at as int] == self.tables@[at as int]@);
        let outcome = self.tables[at].append_rows(&item.rows);
        let ghost table = tables[at as int].append_rows(item@.rows).0;
        assert(self@.tables =~= tables.update(at as int, table));
        assert(self@.well_formed()) by {
            assert forall|i: int| 0 <= i < self@.tables.len() implies (
            #[trigger] self@.tables[i]).well_formed() && self@.tables[i].table_name
                == tables[i].table_name by {}
        }
        match outcome {
            Ok(_) => None,
            Err(e) => self.flush_with_error(BatchFailure::AppendRows(e)),
        }
    }

    /// Takes in a request of `total_rows` rows, and says which batches were given up
    /// over it.
    pub fn submit(
        &mut self,
        table_rows: &Vec<TableRows>,
        total_rows: usize,
        waiter: u64,
        now: u64,
    ) -> (r: Vec<FailedBatch>)
        requires
            old(self)@.well_formed(),
            old(self)@.joined(waiter, now).has_room(table_rows@.map_values(|t: TableRows| t@)),
            old(self)@.submitted(
                table_rows@.map_values(|t: TableRows| t@),
                total_rows as nat,
                waiter,
                now,
            ).0.total_row_count <= usize::MAX,
        ensures
            final(self)@.well_formed(),
            final(self)@ == old(self)@.submitted(
                table_rows@.map_values(|t: TableRows| t@),
                total_rows as nat,
                waiter,
                now,
            ).0,
            failed_view(r@) == old(self)@.submitted(
                table_rows@.map_values(|t: TableRows| t@),
                total_rows as nat,
                waiter,
                now,
            ).1,
    {
        let ghost items = table_rows@.map_values(|t: TableRows| t@);
        if self.total_row_count == 0 {
            self.created_at = Some(now);
        }
        self.waiters.push(waiter);
        let ghost start = self@;
        assert(start == old(self)@.joined(waiter, now));
        let mut failed: Vec<FailedBatch> = Vec::new();
        let mut i: usize = 0;
        assert(items.take(0) =~= Seq::<TableRowsView>::empty());
        assert(items.take(items.len() as int) =~= items);
        assert(failed_view(failed@) =~= Seq::<FailedView>::empty());
        while i < table_rows.len()
            invariant
                i <= table_rows@.len(),
                items == table_rows@.map_values(|t: TableRows| t@),
                start.has_room(items),
                self@.well_formed(),
                self@ == start.collect(items.take(i as int)).0,
                failed_view(failed@) == start.collect(items.take(i as int)).1,
            decreases table_rows@.len() - i,
        {
            let ghost now_failed = failed_view(failed@);
            proof {
                lemma_room_prefix(start, items, i + 1);
                assert(items.take(i + 1).drop_last() =~= items.take(i as int));
            }
            match self.collect_one(&table_rows[i]) {
                Some(f) => {
                    failed.push(f);
                    assert(failed_view(failed@) =~= now_failed + seq![f@]);
                },
                None => {
                    assert(failed_view(failed@) =~= now_failed + Seq::<FailedView>::empty());
                },
            }
            i = i + 1;
        }
        assert(items.take(i as int) =~= items);
        self.total_row_count = self.total_row_count + total_rows;
        failed
    }

    /// Takes what is to be flushed out of the batch, which then holds nothing. Where
    /// a table's rows cannot be finished, the whole batch is given up.
    pub fn drain(&mut self) -> (r: Drained)
        requires
            old(self)@.well_formed(),
        ensures
            final(self)@.well_formed(),
            old(self)@.total_row_count == 0 ==> *final(self) == *old(self) && r is Nothing,
            old(self)@.total_row_count > 0 ==> final(self)@ == empty_pending(),
            old(self)@.total_row_count > 0 && old(self)@.can_finish() ==> (r matches Drained::Flush(
                flush,
            ) && flush@ == old(self)@.flushed() && flush@.valid()),
            old(self)@.total_row_count > 0 && !old(self)@.can_finish() ==> (
            r matches Drained::Failed(failed) && failed@.waiters == old(self)@.waiters
                && failed@.row_count == old(self)@.total_row_count
                && (failed@.failure matches BatchFailureView::FinalizeBuilders(e)
                && old(self)@.finish_error_is(e))),
    {
        if self.total_row_count == 0 {
            return Drained::Nothing;
        }
        let ghost start = self@;
        let total_row_count: usize = self.total_row_count;
        let mut tables: Vec<TableBuilders> = Vec::new();
        std::mem::swap(&mut tables, &mut self.tables);
        assert(self@.tables =~= Seq::<TableView>::empty());
        let mut table_batches: Vec<TableBatch> = Vec::new();
        let ghost builders = tables@;
        lists::reverse(&mut tables);
        let mut n: usize = tables.len();
        let mut i: usize = 0;
        while i < n
            invariant
                i <= n,
                n == builders.len(),
                start == old(self)@,
                start.total_row_count > 0,
                start.total_row_count == total_row_count,
                tables_view(builders) == start.tables,
                tables@.len() == n - i,
                forall|k: int| 0 <= k < tables@.len() ==> #[trigger] tables@[k] == builders[n - 1 - k],
                self@ == (PendingView { tables: Seq::empty(), ..start }),
                table_batches@.len() == i,
                forall|k: int| 0 <= k < i ==> (#[trigger] start.tables[k]).finish_error_free(),
                forall|k: int|
                    0 <= k < i ==> (#[trigger] table_batches@[k])@ == start.flushed().table_batches[k]
                        && table_batches@[k]@.record_batch.valid(),
            decreases n - i,
        {
            if let Some(builder) = tables.pop() {
                assert(builder == builders[i as int]);
                assert(start.tables[i as int] == builders[i as int]@);
                match builder.finish_with_table_info() {
                    Ok((table_info, record_batch, row_count)) => {
                        table_batches.push(TableBatch { table_info, record_batch, row_count });
                    },
                    Err(e) => {
                        assert(start.tables[i as int].finish_error_is(e@));
                        assert(!start.tables[i as int].finish_error_free());
                        assert(!start.can_finish());
                        match self.flush_with_error(BatchFailure::FinalizeBuilders(e)) {
                            Some(failed) => {
                                assert(failed@ == seq![failed@][0]);
                                return Drained::Failed(failed);
                            },
                            None => {
                                return Drained::Nothing;
                            },
                        }
                    },
                }
            }
            i = i + 1;
        }
        let mut waiters: Vec<u64> = Vec::new();
        std::mem::swap(&mut waiters, &mut self.waiters);
        self.total_row_count = 0;
        self.created_at = None;
        let flush = FlushBatch { table_batches, total_row_count, waiters };
        assert(start.can_finish());
        assert(flush@.table_batches =~= start.flushed().table_batches);
        Drained::Flush(flush)
    }
}

/// What fits as a whole fits piece by piece.
proof fn lemma_room_prefix(batch: PendingView, items: Seq<TableRowsView>, n: int)
    requires
        batch.has_room(items),
        0 <= n <= items.len(),
    ensures
        batch.has_room(items.take(n)),
    decreases items.len(),
{
    if n < items.len() {
        lemma_room_prefix(batch, items.drop_last(), n);
        assert(items.drop_last().take(n) =~= items.take(n));
    } else {
        assert(items.take(n) =~= items);
    }
}

/// Everyone who is told of one of the failures, in order.
pub open spec fn told(failed: Seq<FailedView>) -> Seq<u64>
    decreases failed.len(),
{
    if failed.len() == 0 {
        Seq::empty()
    } else {
        told(failed.drop_last()) + failed.last().waiters
    }
}

proof fn lemma_told_concat(a: Seq<FailedView>, b: Seq<FailedView>)
    ensures
        told(a + b) == told(a) + told(b),
    decreases b.len(),
{
    if b.len() == 0 {
        assert(a + b =~= a);
        assert(told(a) + told(b) =~= told(a));
    } else {
        lemma_told_concat(a, b.drop_last());
        assert((a + b).drop_last() =~= a + b.drop_last());
        assert((a + b).last() == b.last());
        assert(told(a) + told(b) =~= told(a) + told(b.drop_last()) + b.last().waiters);
    }
}

/// Whoever waits for a batch is either told that it was given up or waits on.
pub proof fn lemma_collect_keeps_waiters(batch: PendingView, items: Seq<TableRowsView>)
    ensures
        told(batch.collect(items).1) + batch.collect(items).0.waiters == batch.waiters,
    decreases items.len(),
{
    if items.len() == 0 {
        assert(told(Seq::empty()) + batch.waiters =~= batch.waiters);
    } else {
        lemma_collect_keeps_waiters(batch, items.drop_last());
        let (before, failed) = batch.collect(items.drop_last());
        let (after, more) = before.collect_one(items.last());
        lemma_told_concat(failed, more);
        assert(told(more) + after.waiters =~= before.waiters) by {
            reveal_with_fuel(told, 2);
            if more.len() > 0 {
                assert(more.drop_last() =~= Seq::<FailedView>::empty());
            }
        }
        assert(told(failed + more) + after.waiters =~= told(failed) + before.waiters);
    }
}

/// Nobody who waits is lost or told twice: after a request has joined a batch, those
/// told of a failure and those who wait on are, in order, those who waited before
/// and the one of the request.
pub proof fn law_submit_keeps_waiters(
    batch: PendingView,
    items: Seq<TableRowsView>,
    total_rows: nat,
    waiter: u64,
    now: u64,
)
    ensures
        told(batch.submitted(items, total_rows, waiter, now).1) + batch.submitted(
            items,
            total_rows,
            waiter,
            now,
        ).0.waiters == batch.waiters.push(waiter),
{
    lemma_collect_keeps_waiters(batch.joined(waiter, now), items);
}

/// A request's rows are counted, on top of those of the batch that they joined or,
/// where a batch was given up over them, on their own.
pub proof fn law_submit_counts_rows(
    batch: PendingView,
    items: Seq<TableRowsView>,
    total_rows: nat,
    waiter: u64,
    now: u64,
)
    ensures
        ({
            let (after, failed) = batch.submitted(items, total_rows, waiter, now);
            after.total_row_count == total_rows + (if failed.len() == 0 {
                batch.total_row_count
            } else {
                0
            }) && failed.len() <= 1 && (failed.len() == 1 ==> failed[0].row_count
                == batch.total_row_count)
        }),
{
    lemma_collect_counts_rows(batch.joined(waiter, now), items);
}

proof fn lemma_collect_counts_rows(batch: PendingView, items: Seq<TableRowsView>)
    ensures
        ({
            let (after, failed) = batch.collect(items);
            &&& failed.len() <= 1
            &&& failed.len() == 0 ==> after.total_row_count == batch.total_row_count
            &&& failed.len() == 1 ==> after.total_row_count == 0 && failed[0].row_count
                == batch.total_row_count
        }),
    decreases items.len(),
{
    if items.len() > 0 {
        lemma_collect_counts_rows(batch, items.drop_last());
    }
}

/// Rows that are collected go to the table of their name, and no other table changes. Where there
/// is none yet, there is one more, of that name and schema, which has collected nothing but them.
/// Gives the table's place.
pub proof fn law_rows_go_to_their_table(batch: PendingView, item: TableRowsView) -> (at: int)
    requires
        batch.well_formed(),
        !batch.cannot_create(item),
        batch.tables_for(item)[batch.place(item)].append_rows(item.rows).1 is None,
    ensures
        batch.collect_one(item).1.len() == 0,
        ({
            let after = batch.collect_one(item).0;
            let n = batch.tables.len() as int;
            &&& 0 <= at < after.tables.len()
            &&& after.waiters == batch.waiters
            &&& after.created_at == batch.created_at
            &&& after.total_row_count == batch.total_row_count
            &&& forall|k: int|
                0 <= k < n && k != at ==> #[trigger] after.tables[k] == batch.tables[k]
            &&& at < n ==> after.tables.len() == n && batch.tables[at].table_name
                == item.table_info.name && after.tables[at] == batch.tables[at].append_rows(
                item.rows,
            ).0
            &&& at == n ==> {
                let new = TableView {
                    table_name: item.table_info.name,
                    table_info: Some(item.table_info),
                    fields: item.fields,
                    columns: batch.tables_for(item)[n].columns,
                    row_count: 0,
                };
                &&& after.tables.len() == n + 1
                &&& forall|k: int|
                    0 <= k < n ==> (#[trigger] batch.tables[k]).table_name != item.table_info.name
                &&& new.columns.len() == item.fields.len()
                &&& forall|j: int|
                    0 <= j < new.columns.len() ==> (#[trigger] new.columns[j]).cells.len() == 0
                &&& after.tables[n] == new.append_rows(item.rows).0
            }
            &&& at <= n
            &&& after.tables[at].table_name == item.table_info.name
        }),
{
    let names = table_names(batch.tables);
    rows::lemma_last_index(names, item.table_info.name);
    let at = batch.place(item);
    assert forall|k: int| 0 <= k < batch.tables.len() implies #[trigger] names[k]
        == batch.tables[k].table_name by {}
    if at == batch.tables.len() {
        assert forall|k: int| 0 <= k < batch.tables.len() implies (
        #[trigger] batch.tables[k]).table_name != item.table_info.name by {
            assert(names[k] == batch.tables[k].table_name);
            if names[k] == item.table_info.name {
                assert(names.contains(item.table_info.name));
            }
        }
    }
    at
}

/// What is told of a batch that is given up: where it counted rows, those who waited for it are
/// told why, and that so many rows were dropped, and it then holds nothing; else it stays as it
/// is, and nobody is told.
pub proof fn law_given_up(batch: PendingView, failure: BatchFailureView)
    ensures
        batch.total_row_count == 0 ==> batch.given_up(failure).0 == batch && batch.given_up(
            failure,
        ).1.len() == 0,
        batch.total_row_count > 0 ==> {
            let (after, told) = batch.given_up(failure);
            &&& after.tables.len() == 0
            &&& after.waiters.len() == 0
            &&& after.total_row_count == 0
            &&& after.created_at is None
            &&& told.len() == 1
            &&& told[0].waiters == batch.waiters
            &&& told[0].failure == failure
            &&& told[0].row_count == batch.total_row_count
        },
{
}

/// The batch that a request joins keeps its rows and those who wait, with the request's waiter
/// last; it begins now where it counts no rows, and else when it began.
pub proof fn law_joined(batch: PendingView, waiter: u64, now: u64)
    ensures
        batch.joined(waiter, now).waiters == batch.waiters.push(waiter),
        batch.joined(waiter, now).tables == batch.tables,
        batch.joined(waiter, now).total_row_count == batch.total_row_count,
        batch.total_row_count == 0 ==> batch.joined(waiter, now).created_at == Some(now),
        batch.total_row_count > 0 ==> batch.joined(waiter, now).created_at == batch.created_at,
{
}

impl PendingView {
    /// None of the items fails: for each there is a table or one can be made, and its rows are
    /// accepted.
    pub open spec fn takes_all(self, items: Seq<TableRowsView>) -> bool
        decreases items.len(),
    {
        items.len() > 0 ==> {
            let before = self.collect(items.drop_last()).0;
            &&& self.takes_all(items.drop_last())
            &&& !before.cannot_create(items.last())
            &&& before.tables_for(items.last())[before.place(items.last())].append_rows(
                items.last().rows,
            ).1 is None
        }
    }
}

/// What a table has collected stays when more is.
proof fn lemma_append_keeps(table: TableView, rows: RowsView)
    requires
        table.well_formed(),
        table.append_rows(rows).1 is None,
    ensures
        table.append_rows(rows).0.well_formed(),
        table.append_rows(rows).0.table_name == table.table_name,
        table.append_rows(rows).0.columns.len() == table.columns.len(),
        forall|j: int|
            0 <= j < table.columns.len() ==> (#[trigger] table.columns[j]).cells.len()
                <= table.append_rows(rows).0.columns[j].cells.len(),
        forall|j: int, k: int|
            0 <= j < table.columns.len() && 0 <= k < table.columns[j].cells.len()
                ==> table.append_rows(rows).0.columns[j].cells[k]
                == #[trigger] table.columns[j].cells[k],
{
    if rows.rows.len() > 0 {
        let after = table.append_rows(rows).0;
        assert forall|j: int| 0 <= j < after.columns.len() implies table_builders::builder_type(
            after.fields[j].data_type,
        ) == Some((#[trigger] after.columns[j]).data_type) by {
            assert(after.columns[j].data_type == table.columns[j].data_type);
        }
        assert forall|j: int| 0 <= j < table.columns.len() implies (
        #[trigger] table.columns[j]).cells.len() <= after.columns[j].cells.len() by {
            assert(after.columns[j].cells == table.columns[j].cells + table.new_cells(
                rows,
                j,
                rows.rows.len() as int,
            ));
        }
        assert forall|j: int, k: int|
            0 <= j < table.columns.len() && 0 <= k
                < table.columns[j].cells.len() implies after.columns[j].cells[k]
            == #[trigger] table.columns[j].cells[k] by {
            assert(after.columns[j].cells == table.columns[j].cells + table.new_cells(
                rows,
                j,
                rows.rows.len() as int,
            ));
        }
    }
}

proof fn lemma_collect_one_well_formed(batch: PendingView, item: TableRowsView)
    requires
        batch.well_formed(),
        !batch.cannot_create(item),
        batch.tables_for(item)[batch.place(item)].append_rows(item.rows).1 is None,
    ensures
        batch.collect_one(item).0.well_formed(),
        batch.tables_for(item)[batch.place(item)].well_formed(),
{
    let at = law_rows_go_to_their_table(batch, item);
    let tables = batch.tables_for(item);
    let after = batch.collect_one(item).0;
    let n = batch.tables.len() as int;
    rows::lemma_last_index(table_names(batch.tables), item.table_info.name);
    if batch.place(item) == n {
        let new = tables[n];
        assert forall|j: int| 0 <= j < new.columns.len() implies table_builders::builder_type(
            new.fields[j].data_type,
        ) == Some((#[trigger] new.columns[j]).data_type) by {
            assert(!table_builders::unsupported(item.fields, j));
        }
        assert forall|k: int| 0 <= k < n implies (#[trigger] batch.tables[k]).table_name
            != item.table_info.name by {
            assert(table_names(batch.tables)[k] == batch.tables[k].table_name);
            if batch.tables[k].table_name == item.table_info.name {
                assert(table_names(batch.tables).contains(item.table_info.name));
            }
        }
    }
    lemma_append_keeps(tables[batch.place(item)], item.rows);
    assert forall|i: int| 0 <= i < after.tables.len() implies (
    #[trigger] after.tables[i]).well_formed() && after.tables[i].table_name
        == tables[i].table_name by {
        if i != batch.place(item) {
            assert(after.tables[i] == tables[i]);
            assert(tables[i] == batch.tables[i]);
        }
    }
    assert forall|i: int, j: int| 0 <= i < j < after.tables.len() implies (
    #[trigger] after.tables[i]).table_name != (#[trigger] after.tables[j]).table_name by {
        assert(tables[i] == batch.tables[i]);
        if j < n {
            assert(tables[j] == batch.tables[j]);
        }
    }
}

proof fn lemma_collected(batch: PendingView, items: Seq<TableRowsView>)
    requires
        batch.well_formed(),
        batch.takes_all(items),
    ensures
        batch.collect(items).0.well_formed(),
        batch.collect(items).1.len() == 0,
    decreases items.len(),
{
    if items.len() > 0 {
        lemma_collected(batch, items.drop_last());
        let before = batch.collect(items.drop_last()).0;
        lemma_collect_one_well_formed(before, items.last());
        law_rows_go_to_their_table(before, items.last());
    }
}

/// Rows that were collected stay. Where nothing of a request fails, the item at `i` was appended
/// to the table of its name, and what that table had then it has in the end, cell by cell,
/// whatever came after. Gives the place of the table, and the table as it was before the item.
pub proof fn law_collected_rows_stay(
    batch: PendingView,
    items: Seq<TableRowsView>,
    i: int,
) -> (r: (int, TableView))
    requires
        batch.well_formed(),
        batch.takes_all(items),
        0 <= i < items.len(),
    ensures
        batch.collect(items).1.len() == 0,
        ({
            let (at, before) = r;
            let then = before.append_rows(items[i].rows).0;
            let table = batch.collect(items).0.tables[at];
            &&& before.well_formed()
            &&& before.append_rows(items[i].rows).1 is None
            &&& 0 <= at < batch.collect(items).0.tables.len()
            &&& table.table_name == items[i].table_info.name
            &&& table.columns.len() == then.columns.len()
            &&& forall|j: int|
                0 <= j < then.columns.len() ==> (#[trigger] then.columns[j]).cells.len()
                    <= table.columns[j].cells.len()
            &&& forall|j: int, k: int|
                0 <= j < then.columns.len() && 0 <= k < then.columns[j].cells.len()
                    ==> table.columns[j].cells[k] == #[trigger] then.columns[j].cells[k]
        }),
    decreases items.len(),
{
    lemma_collected(batch, items);
    let rest = items.drop_last();
    lemma_collected(batch, rest);
    let mid = batch.collect(rest).0;
    let last = items.last();
    lemma_collect_one_well_formed(mid, last);
    let place = law_rows_go_to_their_table(mid, last);
    let after = batch.collect(items).0;
    assert(after == mid.collect_one(last).0);
    let p = mid.place(last);
    rows::lemma_last_index(table_names(mid.tables), last.table_info.name);
    let start = mid.tables_for(last)[p];
    assert(after.tables[p] == start.append_rows(last.rows).0);
    lemma_append_keeps(start, last.rows);
    if i == items.len() - 1 {
        if p < mid.tables.len() {
            assert(table_names(mid.tables)[p] == mid.tables[p].table_name);
        }
        assert(start.table_name == last.table_info.name);
        assert(after.tables[p].table_name == items[i].table_info.name);
        (p, start)
    } else {
        let (at, before) = law_collected_rows_stay(batch, rest, i);
        let then = before.append_rows(rest[i].rows).0;
        assert(rest[i] == items[i]);
        if at == p {
            assert(start == mid.tables[at]);
            assert(after.tables[at].table_name == start.table_name);
            assert(after.tables[at].columns.len() == start.columns.len());
            assert forall|j: int| 0 <= j < then.columns.len() implies (
            #[trigger] then.columns[j]).cells.len() <= after.tables[at].columns[j].cells.len() by {
                assert(then.columns[j].cells.len() <= start.columns[j].cells.len());
            }
            assert forall|j: int, k: int|
                0 <= j < then.columns.len() && 0 <= k
                    < then.columns[j].cells.len() implies after.tables[at].columns[j].cells[k]
                == #[trigger] then.columns[j].cells[k] by {
                assert(then.columns[j].cells.len() <= start.columns[j].cells.len());
                assert(start.columns[j].cells[k] == then.columns[j].cells[k]);
            }
        } else {
            assert(after.tables[at] == mid.tables[at]);
        }
        (at, before)
    }
}

/// What is flushed of a batch is all of it: one batch for each table, in order, with what is
/// known of the table, its fields, each of its columns with the cells that were collected, and
/// the number of its rows; those who wait; and the number of all rows.
pub proof fn law_flush_holds_all(batch: PendingView)
    ensures
        batch.flushed().waiters == batch.waiters,
        batch.flushed().total_row_count == batch.total_row_count,
        batch.flushed().table_batches.len() == batch.tables.len(),
        forall|i: int|
            0 <= i < batch.tables.len() ==> {
                let flushed = #[trigger] batch.flushed().table_batches[i];
                &&& batch.tables[i].table_info matches Some(info) ==> flushed.table_info == info
                &&& flushed.row_count == batch.tables[i].row_count
                &&& flushed.record_batch.fields == batch.tables[i].fields
                &&& flushed.record_batch.columns.len() == batch.tables[i].columns.len()
            },
        forall|i: int, j: int|
            0 <= i < batch.tables.len() && 0 <= j < batch.tables[i].columns.len() ==> (
            #[trigger] batch.flushed().table_batches[i].record_batch.columns[j]).cells
                == batch.tables[i].columns[j].cells
                && batch.flushed().table_batches[i].record_batch.columns[j].data_type
                == batch.tables[i].columns[j].data_type,
{
}

/// What is said of rows that wait, of rows that are flushed and of rows that were given up is
/// what they are: who waits for them, how many they are, and of each table its rows.
pub proof fn law_batch_as_it_is(
    pending: PendingBatch,
    flush: FlushBatch,
    failed: FailedBatch,
    rows: TableRows,
    i: int,
)
    ensures
        pending@.created_at == pending.created_at,
        pending@.total_row_count == pending.total_row_count,
        pending@.waiters == pending.waiters@,
        pending@.tables.len() == pending.tables@.len(),
        0 <= i < pending.tables@.len() ==> {
            let table = pending@.tables[i];
            &&& table.table_name == pending.tables@[i].table_name@
            &&& table.row_count == pending.tables@[i].row_count
            &&& table.fields == pending.tables@[i].schema@
            &&& table.columns.len() == pending.tables@[i].builders@.len()
        },
        flush@.total_row_count == flush.total_row_count,
        flush@.waiters == flush.waiters@,
        flush@.table_batches.len() == flush.table_batches@.len(),
        0 <= i < flush.table_batches@.len() ==> {
            let table = flush@.table_batches[i];
            &&& table.row_count == flush.table_batches@[i].row_count
            &&& table.record_batch == flush.table_batches@[i].record_batch@
            &&& table.table_info.table_id == flush.table_batches@[i].table_info.table_id
            &&& table.table_info.name == flush.table_batches@[i].table_info.name@
        },
        failed@.waiters == failed.waiters@,
        failed@.row_count == failed.row_count,
        match failed.failure {
            BatchFailure::CreateBuilders(e) => failed@.failure == BatchFailureView::CreateBuilders(
                e@,
            ),
            BatchFailure::AppendRows(e) => failed@.failure == BatchFailureView::AppendRows(e@),
            BatchFailure::FinalizeBuilders(e) => failed@.failure
                == BatchFailureView::FinalizeBuilders(e@),
        },
        rows@.rows == rows.rows@,
        rows@.fields == rows.schema@,
        rows@.table_info.table_id == rows.table_info.table_id,
        rows@.table_info.name == rows.table_info.name@,
{
}

/// Rows that cannot be collected give up the whole batch: all who wait are told, with the number
/// of rows that waited and why, and nothing is left. A table whose columns cannot be collected
/// is told as one that could not be made, and rows that do not fit as rows that could not be
/// added.
pub proof fn law_refused_rows_give_up_the_batch(batch: PendingView, item: TableRowsView)
    requires
        batch.total_row_count > 0,
        batch.cannot_create(item) || batch.tables_for(item)[batch.place(item)].append_rows(
            item.rows,
        ).1 is Some,
    ensures
        ({
            let (after, told) = batch.collect_one(item);
            &&& after.tables.len() == 0
            &&& after.waiters.len() == 0
            &&& after.total_row_count == 0
            &&& told.len() == 1
            &&& told[0].waiters == batch.waiters
            &&& told[0].row_count == batch.total_row_count
            &&& batch.cannot_create(item) ==> told[0].failure is CreateBuilders
            &&& !batch.cannot_create(item) ==> (told[0].failure matches
                BatchFailureView::AppendRows(e) && batch.tables_for(item)[batch.place(
                item,
            )].append_rows(item.rows).1 == Some(e))
        }),
{
}

/// A request adds its waiter behind those that wait; all of them still wait or were told, in
/// order, and its rows are counted. Where nothing failed the rows that waited still do.
pub proof fn law_submit_adds_a_waiter(
    batch: &mut PendingBatch,
    table_rows: Vec<TableRows>,
    total_rows: usize,
    waiter: u64,
    now: u64,
    r: Vec<FailedBatch>,
)
    requires
        call_ensures(PendingBatch::submit, (batch, &table_rows, total_rows, waiter, now), r),
    ensures
        r@.len() <= 1,
        r@.len() == 0 ==> final(batch).waiters@ == old(batch).waiters@.push(waiter) && final(batch).total_row_count == old(batch).total_row_count + total_rows,
        r@.len() == 1 ==> r@[0].waiters@ + final(batch).waiters@ == old(batch).waiters@.push(
            waiter,
        ) && r@[0].row_count == old(batch).total_row_count && final(batch).total_row_count
            == total_rows,
{
    let items = table_rows@.map_values(|t: TableRows| t@);
    law_submit_keeps_waiters(old(batch)@, items, total_rows as nat, waiter, now);
    law_submit_counts_rows(old(batch)@, items, total_rows as nat, waiter, now);
    let failed = old(batch)@.submitted(items, total_rows as nat, waiter, now).1;
    assert(failed_view(r@).len() == r@.len());
    reveal_with_fuel(told, 2);
    if r@.len() == 0 {
        assert(told(failed) =~= Seq::<u64>::empty());
        assert(told(failed) + final(batch)@.waiters =~= final(batch)@.waiters);
    } else {
        assert(failed_view(r@)[0] == r@[0]@);
        assert(failed.drop_last() =~= Seq::<FailedView>::empty());
        assert(told(failed) =~= r@[0].waiters@);
    }
}

/// What waits is flushed as a whole or told as a whole, and nothing waits then; nothing is done
/// where no rows wait.
pub proof fn law_drain_takes_all(batch: &mut PendingBatch, r: Drained)
    requires
        call_ensures(PendingBatch::drain, (batch,), r),
    ensures
        old(batch).total_row_count == 0 ==> r is Nothing && *final(batch) == *old(batch),
        old(batch).total_row_count > 0 ==> {
            &&& final(batch).total_row_count == 0
            &&& final(batch).waiters@.len() == 0
            &&& final(batch).tables@.len() == 0
            &&& match r {
                Drained::Nothing => false,
                Drained::Flush(flush) => flush.waiters@ == old(batch).waiters@
                    && flush.total_row_count == old(batch).total_row_count
                    && flush.table_batches@.len() == old(batch).tables@.len(),
                Drained::Failed(failed) => failed.waiters@ == old(batch).waiters@
                    && failed.row_count == old(batch).total_row_count && failed.failure is
                    FinalizeBuilders,
            }
        },
{
    law_flush_holds_all(old(batch)@);
    assert(final(batch)@.tables.len() == final(batch).tables@.len());
    assert(old(batch)@.tables.len() == old(batch).tables@.len());
    if let Drained::Flush(flush) = r {
        assert(flush@.table_batches.len() == flush.table_batches@.len());
    }
}

/// What waits can be flushed where every table is known and its columns make up a batch: there is
/// one for each field, of its type, as long as the others, and without nulls where the field has
/// none.
pub proof fn law_sound_tables_are_flushed(batch: PendingView)
    requires
        forall|i: int|
            0 <= i < batch.tables.len() ==> {
                let table = #[trigger] batch.tables[i];
                &&& table.table_info is Some
                &&& table.columns.len() > 0
                &&& table.columns.len() == table.fields.len()
                &&& forall|c: int|
                    0 <= c < table.columns.len() ==> (#[trigger] table.columns[c]).data_type
                        == table.fields[c].data_type && table.columns[c].cells.len()
                        == table.columns[0].cells.len()
                &&& forall|c: int, k: int|
                    0 <= c < table.columns.len() && !table.fields[c].nullable && 0 <= k
                        < table.columns[c].cells.len() ==> !(
                    #[trigger] table.columns[c].cells[k] is Null)
            },
    ensures
        batch.can_finish(),
{
    assert forall|i: int| 0 <= i < batch.tables.len() implies (
    #[trigger] batch.tables[i]).finish_error_free() by {
        let table = batch.tables[i];
        let columns = table.finished_columns();
        crate::record_batch::law_batch_or_fault(table.fields, columns);
        assert forall|c: int| 0 <= c < columns.len() implies (#[trigger] columns[c]).data_type
            == table.fields[c].data_type && columns[c].cells.len() == columns[0].cells.len() by {
            assert(table.columns[c].data_type == table.fields[c].data_type);
        }
        assert forall|c: int, k: int|
            0 <= c < columns.len() && !table.fields[c].nullable && 0 <= k
                < columns[c].cells.len() implies !(#[trigger] columns[c].cells[k] is Null) by {
            assert(!(table.columns[c].cells[k] is Null));
        }
    }
}

} // verus!

//! Batches the rows of remote-write requests, one worker per physical table.

use dashmap::DashMap;
use vstd::prelude::*;

use crate::lists;
use crate::pending_batch;
use crate::pending_batch::{
    Drained, FailedBatch, FailedView, FlushBatch, PendingBatch, PendingView, TableRows,
    TableRowsView,
};
use crate::record_batch::{FieldView, Schema};
use crate::rows;
use crate::rows::{Rows, RowsView};
use crate::table_builders::{TableInfo, TableInfoView};
use crate::text;

verus! {

/// What a worker is told.
pub enum WorkerEvent {
    /// A request of `total_rows` rows, for whose flush `waiter` waits.
    Submit { table_rows: Vec<TableRows>, total_rows: usize, waiter: u64, now: u64 },
    /// No more requests will come.
    Closed,
    /// The flush interval is over.
    Tick { now: u64 },
    /// The batcher goes away.
    Shutdown,
}

/// What a worker does about it.
#[derive(Debug)]
pub struct WorkerAction {
    /// The batches that were given up: their waiters are to be told.
    pub failed: Vec<FailedBatch>,
    /// What is to be flushed.
    pub flush: Option<FlushBatch>,
    /// The flush is to be over before the worker goes on.
    pub flush_inline: bool,
    /// The worker ends.
    pub stop: bool,
}

/// Collects the rows of one physical table and decides when to flush them.
pub struct Worker {
    pub batch: PendingBatch,
    /// In nanoseconds, as every time of a worker.
    pub flush_interval: u64,
    pub max_batch_rows: usize,
}

/// What a worker's action says of the drain that it stands for, where `batch` was
/// drained.
pub open spec fn drained_into(
    batch: PendingView,
    failed: Seq<FailedView>,
    flush: Option<FlushBatch>,
) -> bool {
    if batch.total_row_count == 0 {
        failed.len() == 0 && flush is None
    } else if batch.can_finish() {
        failed.len() == 0 && (flush matches Some(f) && f@ == batch.flushed() && f@.valid())
    } else {
        &&& flush is None
        &&& failed.len() == 1
        &&& failed[0].waiters == batch.waiters
        &&& failed[0].row_count == batch.total_row_count
        &&& (failed[0].failure matches pending_batch::BatchFailureView::FinalizeBuilders(e)
            && batch.finish_error_is(e))
    }
}

/// The batch that is left after a drain.
pub open spec fn drained_batch(batch: PendingView) -> PendingView {
    if batch.total_row_count == 0 {
        batch
    } else {
        pending_batch::empty_pending()
    }
}

/// The rows of a request, table by table.
pub open spec fn items(table_rows: Seq<TableRows>) -> Seq<TableRowsView> {
    table_rows.map_values(|t: TableRows| t@)
}

/// The interval since the batch was begun is over, and it counts rows.
pub open spec fn due(batch: PendingView, flush_interval: u64, now: u64) -> bool {
    batch.total_row_count > 0 && (batch.created_at matches Some(created_at) && (if now
        >= created_at {
        now - created_at
    } else {
        0
    }) >= flush_interval)
}

impl Worker {
    /// A worker that has collected nothing.
    pub fn new(flush_interval: u64, max_batch_rows: usize) -> (r: Self)
        ensures
            r.batch@ == pending_batch::empty_pending(),
            r.batch@.well_formed(),
            r.flush_interval == flush_interval,
            r.max_batch_rows == max_batch_rows,
    {
        Worker { batch: PendingBatch::new(), flush_interval, max_batch_rows }
    }

    /// Takes what is to be flushed out of the batch, after `failed` were given up.
    fn drain(&mut self, failed: Vec<FailedBatch>, flush_inline: bool, stop: bool) -> (r:
        WorkerAction)
        requires
            old(self).batch@.well_formed(),
        ensures
            final(self).batch@.well_formed(),
            final(self).batch@ == drained_batch(old(self).batch@),
            final(self).flush_interval == old(self).flush_interval,
            final(self).max_batch_rows == old(self).max_batch_rows,
            r.flush_inline == flush_inline,
            r.stop == stop,
            exists|more: Seq<FailedView>|
                pending_batch::failed_view(r.failed@) == pending_batch::failed_view(failed@) + more
                    && #[trigger] drained_into(old(self).batch@, more, r.flush),
    {
        let ghost before = self.batch@;
        let ghost given_up = pending_batch::failed_view(failed@);
        match self.batch.drain() {
            Drained::Nothing => {
                proof {
                    let more = Seq::<FailedView>::empty();
                    assert(given_up =~= given_up + more);
                    assert(drained_into(before, more, None));
                }
                WorkerAction { failed, flush: None, flush_inline, stop }
            },
            Drained::Flush(flush) => {
                proof {
                    let more = Seq::<FailedView>::empty();
                    assert(given_up =~= given_up + more);
                    assert(drained_into(before, more, Some(flush)));
                }
                WorkerAction { failed, flush: Some(flush), flush_inline, stop }
            },
            Drained::Failed(f) => {
                let mut failed = failed;
                failed.push(f);
                proof {
                    let more = seq![f@];
                    assert(pending_batch::failed_view(failed@) =~= given_up + more);
                    assert(drained_into(before, more, None));
                }
                WorkerAction { failed, flush: None, flush_inline, stop }
            },
        }
    }

    /// Takes in an event and says what to do. A request is flushed once the batch has
    /// enough rows, a tick flushes a batch whose interval is over, and the end of the
    /// requests flushes whatever there is.
    pub fn step(&mut self, event: WorkerEvent) -> (r: WorkerAction)
        requires
            old(self).batch@.well_formed(),
            event matches WorkerEvent::Submit { table_rows, total_rows, waiter, now } ==> old(
                self,
            ).batch@.joined(waiter, now).has_room(items(table_rows@)) && old(
                self,
            ).batch@.submitted(
                items(table_rows@),
                total_rows as nat,
                waiter,
                now,
            ).0.total_row_count <= usize::MAX,
        ensures
            final(self).batch@.well_formed(),
            final(self).flush_interval == old(self).flush_interval,
            final(self).max_batch_rows == old(self).max_batch_rows,
            match event {
                WorkerEvent::Submit { table_rows, total_rows, waiter, now } => {
                    let (batch, failed) = old(self).batch@.submitted(
                        items(table_rows@),
                        total_rows as nat,
                        waiter,
                        now,
                    );
                    &&& !r.stop
                    &&& !r.flush_inline
                    &&& if batch.total_row_count >= old(self).max_batch_rows {
                        final(self).batch@ == drained_batch(batch)
                            && exists|more: Seq<FailedView>|
                            pending_batch::failed_view(r.failed@) == failed + more
                                && #[trigger] drained_into(batch, more, r.flush)
                    } else {
                        final(self).batch@ == batch && pending_batch::failed_view(r.failed@)
                            == failed && r.flush is None
                    }
                },
                WorkerEvent::Tick { now } => {
                    &&& !r.stop
                    &&& !r.flush_inline
                    &&& if due(old(self).batch@, old(self).flush_interval, now) {
                        final(self).batch@ == drained_batch(old(self).batch@) && drained_into(
                            old(self).batch@,
                            pending_batch::failed_view(r.failed@),
                            r.flush,
                        )
                    } else {
                        final(self).batch@ == old(self).batch@ && r.failed@.len() == 0
                            && r.flush is None
                    }
                },
                WorkerEvent::Closed | WorkerEvent::Shutdown => {
                    &&& r.stop
                    &&& r.flush_inline
                    &&& final(self).batch@ == drained_batch(old(self).batch@)
                    &&& drained_into(
                        old(self).batch@,
                        pending_batch::failed_view(r.failed@),
                        r.flush,
                    )
                },
            },
    {
        let ghost none = pending_batch::failed_view(Seq::<FailedBatch>::empty());
        assert(forall|more: Seq<FailedView>| none + more =~= more);
        match event {
            WorkerEvent::Submit { table_rows, total_rows, waiter, now } => {
                let failed = self.batch.submit(&table_rows, total_rows, waiter, now);
                if self.batch.total_row_count >= self.max_batch_rows {
                    self.drain(failed, false, false)
                } else {
                    WorkerAction { failed, flush: None, flush_inline: false, stop: false }
                }
            },
            WorkerEvent::Tick { now } => {
                let is_due: bool = match self.batch.created_at {
                    Some(created_at) => {
                        let elapsed: u64 = if now >= created_at {
                            now - created_at
                        } else {
                            0
                        };
                        self.batch.total_row_count > 0 && elapsed >= self.flush_interval
                    },
                    None => false,
                };
                if is_due {
                    self.drain(Vec::new(), false, false)
                } else {
                    WorkerAction {
                        failed: Vec::new(),
                        flush: None,
                        flush_inline: false,
                        stop: false,
                    }
                }
            },
            WorkerEvent::Closed => self.drain(Vec::new(), true, true),
            WorkerEvent::Shutdown => self.drain(Vec::new(), true, true),
        }
    }
}

/// The table that rows are written to where the client names none.
pub const GREPTIME_PHYSICAL_TABLE: &'static str = "greptime_physical_table";

/// What a worker is for: the table that the rows of its requests are written to.
#[derive(Debug)]
pub struct BatchKey {
    pub catalog: String,
    pub schema: String,
    pub physical_table: String,
}

impl View for BatchKey {
    type V = (Seq<char>, Seq<char>, Seq<char>);

    open spec fn view(&self) -> (Seq<char>, Seq<char>, Seq<char>) {
        (self.catalog@, self.schema@, self.physical_table@)
    }
}

/// The worker that a client's requests go to.
pub fn batch_key(catalog: &str, schema: &str, physical_table: Option<&str>) -> (r: BatchKey)
    ensures
        r@ == (
            catalog@,
            schema@,
            match physical_table {
                Some(table) => table@,
                None => GREPTIME_PHYSICAL_TABLE@,
            },
        ),
{
    BatchKey {
        catalog: catalog.to_string(),
        schema: schema.to_string(),
        physical_table: match physical_table {
            Some(table) => table.to_string(),
            None => GREPTIME_PHYSICAL_TABLE.to_string(),
        },
    }
}

/// The `DashMap` in which the workers are kept, each known by a number.
#[verifier::external_body]
pub struct WorkerMap {
    inner: DashMap<(String, String, String), u64>,
}

/// What a `WorkerMap` holds.
pub uninterp spec fn workers(map: WorkerMap) -> Map<(Seq<char>, Seq<char>, Seq<char>), u64>;

/// No workers at all.
pub open spec fn no_workers() -> Map<(Seq<char>, Seq<char>, Seq<char>), u64> {
    Map::empty()
}

/// `DashMap::new`: a map that holds nothing.
#[verifier::external_body]
fn worker_map_new() -> (r: WorkerMap)
    ensures
        workers(r) == no_workers(),
{
    WorkerMap { inner: DashMap::new() }
}

/// `DashMap::get`: the value under a key, where there is one.
#[verifier::external_body]
fn worker_map_get(map: &WorkerMap, key: &BatchKey) -> (r: Option<u64>)
    ensures
        r == (if workers(*map).contains_key(key@) {
            Some(workers(*map)[key@])
        } else {
            None
        }),
{
    let key = (key.catalog.clone(), key.schema.clone(), key.physical_table.clone());
    map.inner.get(&key).map(|worker| *worker)
}

/// `DashMap::insert`: the map with a value under a key.
#[verifier::external_body]
fn worker_map_insert(map: &mut WorkerMap, key: BatchKey, worker: u64)
    ensures
        workers(*final(map)) == workers(*old(map)).insert(key@, worker),
{
    map.inner.insert((key.catalog, key.schema, key.physical_table), worker);
}

/// A client's rows for one table.
#[derive(Debug)]
pub struct RowInsertRequest {
    pub table_name: String,
    pub rows: Option<Rows>,
}

/// What a [`RowInsertRequest`] holds.
pub struct RequestView {
    pub table_name: Seq<char>,
    pub rows: Option<RowsView>,
}

impl View for RowInsertRequest {
    type V = RequestView;

    open spec fn view(&self) -> RequestView {
        RequestView {
            table_name: self.table_name@,
            rows: match self.rows {
                Some(rows) => Some(rows@),
                None => None,
            },
        }
    }
}

/// What a list of named rows holds.
pub open spec fn named_rows(table_rows: Seq<(String, Rows)>) -> Seq<(Seq<char>, RowsView)> {
    table_rows.map_values(|t: (String, Rows)| (t.0@, t.1@))
}

/// The requests that carry rows, in order.
pub open spec fn with_rows(requests: Seq<RequestView>) -> Seq<(Seq<char>, RowsView)>
    decreases requests.len(),
{
    if requests.len() == 0 {
        Seq::empty()
    } else {
        let before = with_rows(requests.drop_last());
        match requests.last().rows {
            Some(rows) => if rows.rows.len() > 0 {
                before.push((requests.last().table_name, rows))
            } else {
                before
            },
            None => before,
        }
    }
}

/// The number of rows that requests carry.
pub open spec fn count_rows(requests: Seq<RequestView>) -> nat
    decreases requests.len(),
{
    if requests.len() == 0 {
        0
    } else {
        count_rows(requests.drop_last()) + match requests.last().rows {
            Some(rows) => rows.rows.len(),
            None => 0,
        }
    }
}

proof fn lemma_count_rows_prefix(requests: Seq<RequestView>, n: int)
    requires
        0 <= n <= requests.len(),
    ensures
        count_rows(requests.take(n)) <= count_rows(requests),
    decreases requests.len() - n,
{
    if n < requests.len() {
        lemma_count_rows_prefix(requests, n + 1);
        assert(requests.take(n + 1).drop_last() =~= requests.take(n));
    } else {
        assert(requests.take(n) =~= requests);
    }
}

/// What was found of a table in the catalog.
#[derive(Debug)]
pub enum TableLookup {
    Found(TableInfo, Schema),
    NotFound,
    /// The catalog could not be asked.
    Failed(String),
}

/// What a [`TableLookup`] says.
pub enum LookupView {
    Found(TableInfoView, Seq<FieldView>),
    NotFound,
    Failed(Seq<char>),
}

impl View for TableLookup {
    type V = LookupView;

    open spec fn view(&self) -> LookupView {
        match self {
            TableLookup::Found(info, schema) => LookupView::Found(info@, schema@),
            TableLookup::NotFound => LookupView::NotFound,
            TableLookup::Failed(reason) => LookupView::Failed(reason@),
        }
    }
}

/// What is done about a client's requests.
#[derive(Debug)]
pub enum SubmitStart {
    /// There is nothing to do: no table is looked up, nothing is sent to a worker, and the
    /// client is told the number.
    Answer(u64),
    /// The tables of the rows, of which there are `total_rows`, are looked up, and the rows
    /// are then sent to the worker.
    Resolve { table_rows: Vec<(String, Rows)>, total_rows: usize },
}

/// Why a request was not taken in, or not flushed.
#[derive(Debug)]
pub enum SubmitError {
    ResolveTable { table: String, reason: String },
    TableNotFound(String),
    /// The batcher or its worker is gone.
    BatcherChannelClosed,
    /// What those who waited for the batch were told.
    Flush(String),
}

/// What a [`SubmitError`] says.
pub enum SubmitErrorView {
    ResolveTable { table: Seq<char>, reason: Seq<char> },
    TableNotFound(Seq<char>),
    BatcherChannelClosed,
    Flush(Seq<char>),
}

impl View for SubmitError {
    type V = SubmitErrorView;

    open spec fn view(&self) -> SubmitErrorView {
        match self {
            SubmitError::ResolveTable { table, reason } => SubmitErrorView::ResolveTable {
                table: table@,
                reason: reason@,
            },
            SubmitError::TableNotFound(table) => SubmitErrorView::TableNotFound(table@),
            SubmitError::BatcherChannelClosed => SubmitErrorView::BatcherChannelClosed,
            SubmitError::Flush(reason) => SubmitErrorView::Flush(reason@),
        }
    }
}

/// Batches the rows of remote-write requests.
pub struct PendingRowsBatcher {
    pub workers: WorkerMap,
    /// In nanoseconds.
    pub flush_interval: u64,
    pub max_batch_rows: usize,
    pub max_concurrent_flushes: usize,
    pub worker_channel_capacity: usize,
    pub max_inflight_requests: usize,
}

impl PendingRowsBatcher {
    /// A batcher without workers; none where there is no flush interval.
    pub fn try_new(
        flush_interval: u64,
        max_batch_rows: usize,
        max_concurrent_flushes: usize,
        worker_channel_capacity: usize,
        max_inflight_requests: usize,
    ) -> (r: Option<Self>)
        ensures
            r is Some <==> flush_interval != 0,
            r matches Some(b) ==> {
                &&& workers(b.workers) == no_workers()
                &&& b.flush_interval == flush_interval
                &&& b.max_batch_rows == max_batch_rows
                &&& b.max_concurrent_flushes == max_concurrent_flushes
                &&& b.worker_channel_capacity == worker_channel_capacity
                &&& b.max_inflight_requests == max_inflight_requests
            },
    {
        if flush_interval == 0 {
            return None;
        }
        Some(
            PendingRowsBatcher {
                workers: worker_map_new(),
                flush_interval,
                max_batch_rows,
                max_concurrent_flushes,
                worker_channel_capacity,
                max_inflight_requests,
            },
        )
    }

    /// The worker of a key. Where there is none yet, `spawned` becomes it, and is to be
    /// started.
    pub fn get_or_spawn_worker(&mut self, key: BatchKey, spawned: u64) -> (r: (u64, bool))
        ensures
            r.1 <==> !workers(old(self).workers).contains_key(key@),
            r.0 == (if r.1 {
                spawned
            } else {
                workers(old(self).workers)[key@]
            }),
            workers(final(self).workers) == (if r.1 {
                workers(old(self).workers).insert(key@, spawned)
            } else {
                workers(old(self).workers)
            }),
            final(self).flush_interval == old(self).flush_interval,
            final(self).max_batch_rows == old(self).max_batch_rows,
            final(self).max_concurrent_flushes == old(self).max_concurrent_flushes,
            final(self).worker_channel_capacity == old(self).worker_channel_capacity,
            final(self).max_inflight_requests == old(self).max_inflight_requests,
    {
        match worker_map_get(&self.workers, &key) {
            Some(worker) => (worker, false),
            None => {
                worker_map_insert(&mut self.workers, key, spawned);
                (spawned, true)
            },
        }
    }

    /// What is done about a client's requests. Those without rows are left out; where no
    /// rows are left, they are answered with zero.
    pub fn submit(&self, requests: Vec<RowInsertRequest>) -> (r: SubmitStart)
        requires
            count_rows(requests@.map_values(|q: RowInsertRequest| q@)) <= usize::MAX,
        ensures
            match r {
                SubmitStart::Answer(rows) => rows == 0 && count_rows(
                    requests@.map_values(|q: RowInsertRequest| q@),
                ) == 0,
                SubmitStart::Resolve { table_rows, total_rows } => {
                    &&& named_rows(table_rows@) == with_rows(
                        requests@.map_values(|q: RowInsertRequest| q@),
                    )
                    &&& total_rows == count_rows(requests@.map_values(|q: RowInsertRequest| q@))
                    &&& total_rows > 0
                },
            },
    {
        let ghost all = requests@.map_values(|q: RowInsertRequest| q@);
        let mut rest = requests;
        let mut table_rows: Vec<(String, Rows)> = Vec::new();
        let mut total_rows: usize = 0;
        let n: usize = rest.len();
        lists::reverse(&mut rest);
        let mut i: usize = 0;
        assert(all.take(0) =~= Seq::<RequestView>::empty());
        assert(named_rows(table_rows@) =~= Seq::<(Seq<char>, RowsView)>::empty());
        while i < n
            invariant
                i <= n,
                n == requests@.len(),
                all == requests@.map_values(|q: RowInsertRequest| q@),
                count_rows(all) <= usize::MAX,
                rest@.len() == n - i,
                forall|k: int| 0 <= k < rest@.len() ==> #[trigger] rest@[k] == requests@[n - 1 - k],
                named_rows(table_rows@) == with_rows(all.take(i as int)),
                total_rows == count_rows(all.take(i as int)),
            decreases n - i,
        {
            if let Some(request) = rest.pop() {
                assert(request == requests@[i as int]);
                assert(all.take(i + 1).drop_last() =~= all.take(i as int));
                assert(all.take(i + 1).last() == request@);
                proof {
                    lemma_count_rows_prefix(all, i + 1);
                }
                let RowInsertRequest { table_name, rows } = request;
                if let Some(rows) = rows {
                    assert(rows@.rows.len() == rows.rows@.len());
                    if rows.rows.len() > 0 {
                        total_rows = total_rows + rows.rows.len();
                        let ghost before = named_rows(table_rows@);
                        table_rows.push((table_name, rows));
                        assert(named_rows(table_rows@) =~= before.push((table_name@, rows@)));
                    }
                }
            }
            i = i + 1;
        }
        assert(all.take(i as int) =~= all);
        if total_rows == 0 {
            SubmitStart::Answer(0)
        } else {
            SubmitStart::Resolve { table_rows, total_rows }
        }
    }
}

/// The names of a list of named rows.
pub open spec fn row_names(table_rows: Seq<(Seq<char>, RowsView)>) -> Seq<Seq<char>> {
    table_rows.map_values(|t: (Seq<char>, RowsView)| t.0)
}

/// The tables that named rows are for, each once, in the order in which they are to be
/// looked up in the catalog.
pub fn tables_to_resolve(table_rows: &Vec<(String, Rows)>) -> (r: Vec<String>)
    ensures
        lists::texts(r@) == lists::distinct(row_names(named_rows(table_rows@))),
{
    let ghost names = row_names(named_rows(table_rows@));
    let mut tables: Vec<String> = Vec::new();
    let mut i: usize = 0;
    assert(names.take(0) =~= Seq::<Seq<char>>::empty());
    assert(lists::texts(tables@) =~= Seq::<Seq<char>>::empty());
    while i < table_rows.len()
        invariant
            i <= table_rows@.len(),
            names == row_names(named_rows(table_rows@)),
            lists::texts(tables@) == lists::distinct(names.take(i as int)),
        decreases table_rows@.len() - i,
    {
        let ghost before = lists::texts(tables@);
        let ghost name = table_rows@[i as int].0@;
        assert(names.take(i + 1).drop_last() =~= names.take(i as int));
        assert(names.take(i + 1).last() == name);
        proof {
            rows::lemma_last_index(before, name);
        }
        if lists::find_text(&tables, table_rows[i].0.as_str()).is_none() {
            tables.push(table_rows[i].0.clone());
            assert(lists::texts(tables@) =~= before.push(name));
        }
        i = i + 1;
    }
    assert(names.take(i as int) =~= names);
    tables
}

/// The lookups came to an end at `k`, which found no table.
pub open spec fn lookup_ends_at(lookups: Seq<TableLookup>, k: int) -> bool {
    &&& 0 <= k < lookups.len()
    &&& !(lookups[k] is Found)
    &&& forall|i: int| 0 <= i < k ==> #[trigger] lookups[i] is Found
}

/// What a lookup that found no table means for the request.
pub open spec fn lookup_error(table: Seq<char>, lookup: TableLookup) -> SubmitErrorView {
    match lookup {
        TableLookup::Failed(reason) => SubmitErrorView::ResolveTable { table, reason: reason@ },
        _ => SubmitErrorView::TableNotFound(table),
    }
}

/// `item` is `rows` with what was found of the table `name`, which stands in `tables`
/// where its lookup stands in `lookups`.
pub open spec fn resolves(
    tables: Seq<Seq<char>>,
    lookups: Seq<TableLookup>,
    name: Seq<char>,
    rows: RowsView,
    item: TableRowsView,
) -> bool {
    match rows::last_index(tables, name) {
        Some(k) => k < lookups.len() && lookups[k]@ == LookupView::Found(
            item.table_info,
            item.fields,
        ) && item.rows == rows,
        None => false,
    }
}

/// The rows with what was found of their tables, where every table was found. The
/// lookups are those of [`tables_to_resolve`], in order, and may end with the first
/// that found nothing.
pub fn resolve_region_schemas(
    table_rows: Vec<(String, Rows)>,
    lookups: Vec<TableLookup>,
) -> (r: Result<Vec<TableRows>, SubmitError>)
    requires
        lookups@.len() <= lists::distinct(row_names(named_rows(table_rows@))).len(),
        lookups@.len() < lists::distinct(row_names(named_rows(table_rows@))).len() ==> exists|
            k: int,
        |
            lookup_ends_at(lookups@, k),
    ensures
        match r {
            Ok(resolved) => {
                let names = row_names(named_rows(table_rows@));
                &&& forall|k: int| 0 <= k < lookups@.len() ==> #[trigger] lookups@[k] is Found
                &&& resolved@.len() == table_rows@.len()
                &&& forall|i: int|
                    0 <= i < resolved@.len() ==> resolves(
                        lists::distinct(names),
                        lookups@,
                        table_rows@[i].0@,
                        table_rows@[i].1@,
                        (#[trigger] resolved@[i])@,
                    )
            },
            Err(e) => exists|k: int| #[trigger]
                lookup_ends_at(lookups@, k) && e@ == lookup_error(
                    lists::distinct(row_names(named_rows(table_rows@)))[k],
                    lookups@[k],
                ),
        },
{
    let ghost names = row_names(named_rows(table_rows@));
    let ghost given = table_rows@;
    let tables = tables_to_resolve(&table_rows);
    let ghost known = lists::texts(tables@);
    let mut k: usize = 0;
    while k < lookups.len()
        invariant
            k <= lookups@.len(),
            lookups@.len() <= tables@.len(),
            known == lists::texts(tables@),
            known == lists::distinct(row_names(named_rows(table_rows@))),
            forall|i: int| 0 <= i < k ==> #[trigger] lookups@[i] is Found,
        decreases lookups@.len() - k,
    {
        match &lookups[k] {
            TableLookup::Found(_, _) => {},
            TableLookup::NotFound => {
                assert(lookup_ends_at(lookups@, k as int));
                assert(known[k as int] == tables@[k as int]@);
                return Err(SubmitError::TableNotFound(tables[k].clone()));
            },
            TableLookup::Failed(reason) => {
                assert(lookup_ends_at(lookups@, k as int));
                assert(known[k as int] == tables@[k as int]@);
                return Err(
                    SubmitError::ResolveTable { table: tables[k].clone(), reason: reason.clone() },
                );
            },
        }
        k = k + 1;
    }
    assert(lookups@.len() == known.len()) by {
        if lookups@.len() < known.len() {
            let end = choose|end: int| lookup_ends_at(lookups@, end);
            assert(lookups@[end] is Found);
        }
    }
    let n: usize = table_rows.len();
    let mut rest = table_rows;
    lists::reverse(&mut rest);
    let mut resolved: Vec<TableRows> = Vec::new();
    let mut i: usize = 0;
    while i < n
        invariant
            i <= n,
            n == given.len(),
            names == row_names(named_rows(given)),
            known == lists::texts(tables@),
            known == lists::distinct(names),
            lookups@.len() == known.len(),
            forall|k: int| 0 <= k < lookups@.len() ==> #[trigger] lookups@[k] is Found,
            rest@.len() == n - i,
            forall|k: int| 0 <= k < rest@.len() ==> #[trigger] rest@[k] == given[n - 1 - k],
            resolved@.len() == i,
            forall|j: int|
                0 <= j < i ==> resolves(
                    known,
                    lookups@,
                    given[j].0@,
                    given[j].1@,
                    (#[trigger] resolved@[j])@,
                ),
        decreases n - i,
    {
        if let Some((table_name, rows)) = rest.pop() {
            assert((table_name, rows) == given[i as int]);
            assert(names[i as int] == table_name@);
            proof {
                lists::lemma_distinct(names);
                assert(names.contains(table_name@));
                assert(known.contains(table_name@));
                rows::lemma_last_index(known, table_name@);
            }
            if let Some(at) = lists::find_text(&tables, table_name.as_str()) {
                assert(lookups@[at as int] is Found);
                if let TableLookup::Found(info, schema) = &lookups[at] {
                    resolved.push(
                        TableRows { table_info: info.clone(), schema: schema.clone(), rows },
                    );
                }
            }
        }
        i = i + 1;
    }
    Ok(resolved)
}

/// Whether the setting that makes a request wait for its flush is on.
pub fn waits_for_flush(setting: Option<&str>) -> (r: bool)
    ensures
        r <==> (setting matches Some(s) && s@ == "true"@),
{
    match setting {
        Some(s) => text::text_equal(s, "true"),
        None => false,
    }
}

/// How far a request got after its tables were resolved.
#[derive(Debug)]
pub enum SubmitProgress {
    /// No permit could be had.
    NoPermit,
    /// The worker was gone.
    NotSent,
    /// The request was handed to its worker, and nobody waits for the flush.
    Sent,
    /// The request was handed to its worker, which went away without an answer.
    NoAnswer,
    /// The request was flushed.
    Flushed(Result<(), String>),
}

/// What a client is told: how many rows were taken in, or why none were.
pub fn submit_answer(total_rows: usize, progress: SubmitProgress) -> (r: Result<u64, SubmitError>)
    ensures
        match (progress, r) {
            (SubmitProgress::Sent, Ok(n)) => n == total_rows,
            (SubmitProgress::Flushed(Ok(_)), Ok(n)) => n == total_rows,
            (SubmitProgress::Flushed(Err(reason)), Err(e)) => e@ == SubmitErrorView::Flush(
                reason@,
            ),
            (SubmitProgress::NoPermit, Err(e)) => e is BatcherChannelClosed,
            (SubmitProgress::NotSent, Err(e)) => e is BatcherChannelClosed,
            (SubmitProgress::NoAnswer, Err(e)) => e is BatcherChannelClosed,
            _ => false,
        },
{
    match progress {
        SubmitProgress::Sent => Ok(total_rows as u64),
        SubmitProgress::Flushed(Ok(_)) => Ok(total_rows as u64),
        SubmitProgress::Flushed(Err(reason)) => Err(SubmitError::Flush(reason)),
        _ => Err(SubmitError::BatcherChannelClosed),
    }
}

/// Nobody who waits for a batch that counts rows is lost when it is drained: all of them wait for
/// the flush, or all of them are told of the one failure. Either tells of all rows, and the batch
/// then holds nothing. A batch without rows stays as it is.
pub proof fn law_drain_answers_all(
    batch: PendingView,
    failed: Seq<FailedView>,
    flush: Option<FlushBatch>,
)
    requires
        drained_into(batch, failed, flush),
    ensures
        batch.total_row_count == 0 ==> flush is None && failed.len() == 0 && drained_batch(batch)
            == batch,
        batch.total_row_count > 0 ==> {
            &&& drained_batch(batch).tables.len() == 0
            &&& drained_batch(batch).waiters.len() == 0
            &&& drained_batch(batch).total_row_count == 0
            &&& drained_batch(batch).created_at is None
            &&& flush is Some <==> failed.len() == 0
            &&& flush matches Some(f) ==> f.waiters@ == batch.waiters && f.total_row_count
                == batch.total_row_count && f.table_batches@.len() == batch.tables.len()
            &&& flush is None ==> failed.len() == 1 && failed[0].waiters == batch.waiters
                && failed[0].row_count == batch.total_row_count
        },
{
    if let Some(f) = flush {
        assert(f@.waiters == f.waiters@);
        assert(f@.table_batches.len() == f.table_batches@.len());
    }
}

/// A tick flushes a batch that counts rows and was begun at least the flush interval ago, and no
/// other.
pub proof fn law_due(batch: PendingView, flush_interval: u64, now: u64)
    ensures
        due(batch, flush_interval, now) ==> batch.total_row_count > 0 && batch.created_at is Some,
        batch.total_row_count > 0 ==> (batch.created_at matches Some(begun) ==> (due(
            batch,
            flush_interval,
            now,
        ) <==> flush_interval == 0 || now >= begun + flush_interval)),
{
}

/// No request with rows is left out: its rows are kept under its name. Gives their place.
pub proof fn law_rows_are_kept(requests: Seq<RowInsertRequest>, i: int) -> (at: int)
    requires
        0 <= i < requests.len(),
        requests[i].rows matches Some(rows) && rows.rows@.len() > 0,
    ensures
        ({
            let kept = with_rows(requests.map_values(|q: RowInsertRequest| q@));
            &&& 0 <= at < kept.len()
            &&& kept[at].0 == requests[i].table_name@
            &&& kept[at].1 == requests[i].rows->Some_0@
        }),
    decreases requests.len(),
{
    let views = requests.map_values(|q: RowInsertRequest| q@);
    let rest = requests.drop_last();
    let rest_views = rest.map_values(|q: RowInsertRequest| q@);
    assert(views.drop_last() =~= rest_views);
    if i == requests.len() - 1 {
        assert(views.last() == requests[i]@);
        with_rows(rest_views).len() as int
    } else {
        assert(rest[i] == requests[i]);
        law_rows_are_kept(rest, i)
    }
}

/// What is kept are rows of requests, at least one row each, later ones of later requests, and as
/// many rows in all as the requests have. Gives the places of the requests.
pub proof fn law_kept_rows_are_sent(requests: Seq<RowInsertRequest>) -> (at: Seq<int>)
    ensures
        ({
            let views = requests.map_values(|q: RowInsertRequest| q@);
            let kept = with_rows(views);
            &&& at.len() == kept.len()
            &&& forall|k: int|
                0 <= k < at.len() ==> 0 <= #[trigger] at[k] < requests.len() && (
                requests[at[k]].rows matches Some(rows) && rows.rows@.len() > 0 && kept[k].1
                    == rows@) && kept[k].0 == requests[at[k]].table_name@
            &&& forall|j: int, k: int| 0 <= j < k < at.len() ==> #[trigger] at[j] < #[trigger] at[k]
            &&& count_rows(views) == 0 <==> kept.len() == 0
        }),
    decreases requests.len(),
{
    let views = requests.map_values(|q: RowInsertRequest| q@);
    if requests.len() == 0 {
        Seq::empty()
    } else {
        let rest = requests.drop_last();
        let rest_views = rest.map_values(|q: RowInsertRequest| q@);
        assert(views.drop_last() =~= rest_views);
        assert(views.last() == requests.last()@);
        let before = law_kept_rows_are_sent(rest);
        assert forall|k: int| 0 <= k < before.len() implies #[trigger] before[k] < rest.len()
            && rest[before[k]] == requests[before[k]] by {}
        match requests.last().rows {
            Some(rows) => {
                assert(rows@.rows.len() == rows.rows@.len());
                if rows.rows@.len() > 0 {
                    before.push(requests.len() - 1)
                } else {
                    before
                }
            },
            None => before,
        }
    }
}

/// The rows of requests are counted: those of two lists of requests together are those of the one
/// and those of the other, and one request has as many as it carries.
pub proof fn law_rows_are_counted(a: Seq<RequestView>, b: Seq<RequestView>, request: RequestView)
    ensures
        count_rows(a + b) == count_rows(a) + count_rows(b),
        count_rows(Seq::empty()) == 0,
        request.rows matches Some(rows) ==> count_rows(seq![request]) == rows.rows.len(),
        request.rows is None ==> count_rows(seq![request]) == 0,
    decreases b.len(),
{
    reveal_with_fuel(count_rows, 2);
    assert(seq![request].drop_last() =~= Seq::<RequestView>::empty());
    if b.len() == 0 {
        assert(a + b =~= a);
    } else {
        law_rows_are_counted(a, b.drop_last(), request);
        assert((a + b).drop_last() =~= a + b.drop_last());
    }
}

/// Rows get what was found of their own table: the lookup that stands where the table's name
/// stands among the tables that are looked up. Gives that place.
pub proof fn law_rows_get_their_table(
    tables: Seq<Seq<char>>,
    lookups: Seq<TableLookup>,
    name: Seq<char>,
    rows: RowsView,
    item: TableRows,
) -> (k: int)
    requires
        resolves(tables, lookups, name, rows, item@),
    ensures
        0 <= k < lookups.len(),
        k < tables.len(),
        tables[k] == name,
        item.rows@ == rows,
        lookups[k] matches TableLookup::Found(info, schema) && info.table_id
            == item.table_info.table_id && info.name@ == item.table_info.name@ && schema@
            == item.schema@,
{
    rows::lemma_last_index(tables, name);
    let k = rows::last_index(tables, name)->0;
    assert(lookups[k]@ == LookupView::Found(item@.table_info, item@.fields));
    k
}

/// Of the tables that were not found the first is told of, by its own name; and why the catalog
/// could not be asked is told in its own words.
pub proof fn law_unfound_table_is_told(
    table: Seq<char>,
    lookups: Seq<TableLookup>,
    k: int,
    i: int,
)
    ensures
        lookup_ends_at(lookups, k) ==> {
            &&& 0 <= k < lookups.len()
            &&& 0 <= i < k ==> lookups[i] is Found
            &&& match lookups[k] {
                TableLookup::Found(info, schema) => false,
                TableLookup::NotFound => lookup_error(table, lookups[k])
                    == SubmitErrorView::TableNotFound(table),
                TableLookup::Failed(reason) => lookup_error(table, lookups[k])
                    == (SubmitErrorView::ResolveTable { table, reason: reason@ }),
            }
        },
        0 <= i < lookups.len() && !(lookups[i] is Found) ==> exists|j: int| #[trigger]
            lookup_ends_at(lookups, j) && j <= i,
    decreases i,
{
    if 0 <= i < lookups.len() && !(lookups[i] is Found) {
        if exists|j: int| 0 <= j < i && !(#[trigger] lookups[j] is Found) {
            let j = choose|j: int| 0 <= j < i && !(#[trigger] lookups[j] is Found);
            law_unfound_table_is_told(table, lookups, k, j);
        } else {
            assert(lookup_ends_at(lookups, i));
        }
    }
}

/// What is said of a client's request, of a lookup, of a worker's table and of a refusal is what
/// they are.
pub proof fn law_request_as_it_is(
    request: RowInsertRequest,
    lookup: TableLookup,
    key: BatchKey,
    error: SubmitError,
)
    ensures
        request@.table_name == request.table_name@,
        match request.rows {
            Some(rows) => request@.rows == Some(rows@),
            None => request@.rows is None,
        },
        match lookup {
            TableLookup::Found(info, schema) => lookup@ == LookupView::Found(info@, schema@)
                && info@.table_id == info.table_id && info@.name == info.name@,
            TableLookup::NotFound => lookup@ == LookupView::NotFound,
            TableLookup::Failed(reason) => lookup@ == LookupView::Failed(reason@),
        },
        key@.0 == key.catalog@,
        key@.1 == key.schema@,
        key@.2 == key.physical_table@,
        match error {
            SubmitError::ResolveTable { table, reason } => error@
                == (SubmitErrorView::ResolveTable { table: table@, reason: reason@ }),
            SubmitError::TableNotFound(table) => error@ == SubmitErrorView::TableNotFound(table@),
            SubmitError::BatcherChannelClosed => error@ == SubmitErrorView::BatcherChannelClosed,
            SubmitError::Flush(reason) => error@ == SubmitErrorView::Flush(reason@),
        },
{
}

/// A client's requests that carry rows are sent on, each with its table and its rows, in order;
/// and the number of rows is told with them. Where there are no rows nothing is sent. Gives the
/// places of the requests that are sent.
pub proof fn law_requests_are_sent(
    batcher: PendingRowsBatcher,
    requests: Vec<RowInsertRequest>,
    r: SubmitStart,
) -> (at: Seq<int>)
    requires
        call_ensures(PendingRowsBatcher::submit, (&batcher, requests), r),
    ensures
        match r {
            SubmitStart::Answer(rows) => rows == 0 && forall|i: int|
                0 <= i < requests@.len() ==> ((#[trigger] requests@[i]).rows matches Some(rows)
                    ==> rows.rows@.len() == 0),
            SubmitStart::Resolve { table_rows, total_rows } => {
                &&& total_rows > 0
                &&& table_rows@.len() == at.len()
                &&& forall|k: int|
                    0 <= k < at.len() ==> 0 <= #[trigger] at[k] < requests@.len()
                        && table_rows@[k].0@ == requests@[at[k]].table_name@ && (
                    requests@[at[k]].rows matches Some(rows) && table_rows@[k].1@ == rows@)
                &&& forall|j: int, k: int|
                    0 <= j < k < at.len() ==> #[trigger] at[j] < #[trigger] at[k]
                &&& forall|i: int|
                    0 <= i < requests@.len() && ((#[trigger] requests@[i]).rows matches Some(rows)
                        && rows.rows@.len() > 0) ==> at.contains(i)
            },
        },
{
    let views = requests@.map_values(|q: RowInsertRequest| q@);
    let at = law_kept_rows_are_sent(requests@);
    let kept = with_rows(views);
    match r {
        SubmitStart::Answer(rows) => {
            assert forall|i: int| 0 <= i < requests@.len() implies ((
            #[trigger] requests@[i]).rows matches Some(rows) ==> rows.rows@.len() == 0) by {
                if requests@[i].rows matches Some(rows) && rows.rows@.len() > 0 {
                    let k = law_rows_are_kept(requests@, i);
                }
            }
        },
        SubmitStart::Resolve { table_rows, total_rows } => {
            let named = named_rows(table_rows@);
            assert(named.len() == table_rows@.len());
            assert forall|k: int| 0 <= k < at.len() implies 0 <= #[trigger] at[k] < requests@.len()
                && table_rows@[k].0@ == requests@[at[k]].table_name@ && (
            requests@[at[k]].rows matches Some(rows) && table_rows@[k].1@ == rows@) by {
                assert(named[k] == (table_rows@[k].0@, table_rows@[k].1@));
            }
            assert forall|i: int|
                0 <= i < requests@.len() && ((#[trigger] requests@[i]).rows matches Some(rows)
                    && rows.rows@.len() > 0) implies at.contains(i) by {
                lemma_sent_place(requests@, at, i);
            }
        },
    }
    at
}

/// The places that ascend through all requests with rows leave none out.
proof fn lemma_sent_place(requests: Seq<RowInsertRequest>, at: Seq<int>, i: int)
    requires
        0 <= i < requests.len(),
        requests[i].rows matches Some(rows) && rows.rows@.len() > 0,
        at.len() == with_rows(requests.map_values(|q: RowInsertRequest| q@)).len(),
        forall|k: int|
            0 <= k < at.len() ==> 0 <= #[trigger] at[k] < requests.len() && (
            requests[at[k]].rows matches Some(rows) && rows.rows@.len() > 0),
        forall|j: int, k: int| 0 <= j < k < at.len() ==> #[trigger] at[j] < #[trigger] at[k],
    ensures
        at.contains(i),
    decreases requests.len(),
{
    let views = requests.map_values(|q: RowInsertRequest| q@);
    let rest = requests.drop_last();
    let rest_views = rest.map_values(|q: RowInsertRequest| q@);
    assert(views.drop_last() =~= rest_views);
    let n = requests.len() - 1;
    let last = requests[n];
    assert(views.last() == last@);
    let carries = last.rows matches Some(rows) && rows.rows@.len() > 0;
    if carries {
        assert(last@.rows matches Some(rows) && rows.rows.len() > 0);
        let m = at.len() - 1;
        if at[m] != n {
            assert forall|k: int| 0 <= k < at.len() implies 0 <= #[trigger] at[k] < rest.len() && (
            rest[at[k]].rows matches Some(rows) && rows.rows@.len() > 0) by {
                if k < m {
                    assert(at[k] < at[m]);
                }
            }
            lemma_too_many_sent(rest, at);
        }
        if i < n {
            let fewer = at.drop_last();
            assert forall|k: int| 0 <= k < fewer.len() implies 0 <= #[trigger] fewer[k]
                < rest.len() && (rest[fewer[k]].rows matches Some(rows) && rows.rows@.len() > 0) by {
                assert(fewer[k] == at[k] && at[k] < at[m]);
            }
            lemma_sent_place(rest, fewer, i);
            let k = choose|k: int| 0 <= k < fewer.len() && fewer[k] == i;
            assert(at[k] == i);
        } else {
            assert(at[m] == i);
        }
    } else {
        assert forall|k: int| 0 <= k < at.len() implies 0 <= #[trigger] at[k] < rest.len() && (
        rest[at[k]].rows matches Some(rows) && rows.rows@.len() > 0) by {
            assert(at[k] != n);
        }
        lemma_sent_place(rest, at, i);
    }
}

/// Ascending places of requests with rows are no more than the requests with rows.
proof fn lemma_too_many_sent(requests: Seq<RowInsertRequest>, at: Seq<int>)
    requires
        forall|k: int|
            0 <= k < at.len() ==> 0 <= #[trigger] at[k] < requests.len() && (
            requests[at[k]].rows matches Some(rows) && rows.rows@.len() > 0),
        forall|j: int, k: int| 0 <= j < k < at.len() ==> #[trigger] at[j] < #[trigger] at[k],
    ensures
        at.len() <= with_rows(requests.map_values(|q: RowInsertRequest| q@)).len(),
    decreases requests.len(),
{
    if requests.len() == 0 {
        if at.len() > 0 {
            assert(0 <= at[0] < requests.len());
        }
    } else {
        let views = requests.map_values(|q: RowInsertRequest| q@);
        let rest = requests.drop_last();
        assert(views.drop_last() =~= rest.map_values(|q: RowInsertRequest| q@));
        let n = requests.len() - 1;
        assert(views.last() == requests[n]@);
        if at.len() > 0 && at.last() == n {
            let m = at.len() - 1;
            let fewer = at.drop_last();
            assert forall|k: int| 0 <= k < fewer.len() implies 0 <= #[trigger] fewer[k]
                < rest.len() && (rest[fewer[k]].rows matches Some(rows) && rows.rows@.len() > 0) by {
                assert(fewer[k] == at[k] && at[k] < at[m]);
            }
            lemma_too_many_sent(rest, fewer);
            assert(requests[at[m]].rows matches Some(rows) && rows.rows@.len() > 0);
        } else {
            assert forall|k: int| 0 <= k < at.len() implies 0 <= #[trigger] at[k] < rest.len() && (
            rest[at[k]].rows matches Some(rows) && rows.rows@.len() > 0) by {
                let m = at.len() - 1;
                if k < m {
                    assert(at[k] < at[m]);
                }
            }
            lemma_too_many_sent(rest, at);
        }
    }
}

/// A client is answered with the number of rows that it sent where they were taken in, and where
/// it waits for the flush only where that succeeded; else with what went wrong.
pub proof fn law_client_is_answered(
    total_rows: usize,
    progress: SubmitProgress,
    r: Result<u64, SubmitError>,
)
    requires
        call_ensures(submit_answer, (total_rows, progress), r),
    ensures
        progress is Sent ==> r == Ok::<u64, SubmitError>(total_rows as u64),
        progress matches SubmitProgress::Flushed(Ok(_)) ==> r == Ok::<u64, SubmitError>(
            total_rows as u64,
        ),
        progress matches SubmitProgress::Flushed(Err(reason)) ==> (r matches Err(
            SubmitError::Flush(told),
        ) && told@ == reason@),
        progress is NoPermit || progress is NotSent || progress is NoAnswer ==> (r matches Err(
            SubmitError::BatcherChannelClosed,
        )),
{
}

/// A table keeps its worker: the first client of a table gets the worker that was spawned, later
/// ones of the same table the same worker, and other tables keep theirs.
pub proof fn law_table_keeps_its_worker(
    batcher: &mut PendingRowsBatcher,
    key: BatchKey,
    spawned: u64,
    r: (u64, bool),
    other: (Seq<char>, Seq<char>, Seq<char>),
)
    requires
        call_ensures(PendingRowsBatcher::get_or_spawn_worker, (batcher, key, spawned), r),
        other != (key.catalog@, key.schema@, key.physical_table@),
    ensures
        ({
            let table = (key.catalog@, key.schema@, key.physical_table@);
            let before = workers(old(batcher).workers);
            let after = workers(final(batcher).workers);
            &&& after.contains_key(table)
            &&& after[table] == r.0
            &&& before.contains_key(table) ==> !r.1 && r.0 == before[table]
            &&& !before.contains_key(table) ==> r.1 && r.0 == spawned
            &&& after.contains_key(other) <==> before.contains_key(other)
            &&& before.contains_key(other) ==> after[other] == before[other]
        }),
{
}

/// A worker flushes what waits where a request makes it enough rows, where its time is over, and
/// where no more requests come, and then stops; else it keeps it. It stops for nothing else, and
/// its settings stay.
pub proof fn law_worker_steps(worker: &mut Worker, event: WorkerEvent, r: WorkerAction)
    requires
        call_ensures(Worker::step, (worker, event), r),
    ensures
        final(worker).flush_interval == old(worker).flush_interval,
        final(worker).max_batch_rows == old(worker).max_batch_rows,
        r.stop <==> event is Closed || event is Shutdown,
        event is Closed || event is Shutdown ==> final(worker).batch.total_row_count == 0 && (old(
            worker,
        ).batch.total_row_count > 0 ==> (r.flush is Some || r.failed@.len() > 0)),
        event matches WorkerEvent::Submit { table_rows, total_rows, waiter, now } ==> {
            &&& old(worker).batch.total_row_count + total_rows < old(worker).max_batch_rows
                && r.failed@.len() == 0 ==> r.flush is None && final(worker).batch.total_row_count
                == old(worker).batch.total_row_count + total_rows && final(worker).batch.waiters@ == old(worker).batch.waiters@.push(waiter)
            &&& total_rows >= old(worker).max_batch_rows && total_rows > 0 ==> final(worker).batch.total_row_count == 0 && final(worker).batch.waiters@.len() == 0
            &&& r.flush matches Some(flush) ==> flush.total_row_count >= old(worker).max_batch_rows
        },
        event matches WorkerEvent::Tick { now } ==> {
            &&& r.flush is Some ==> old(worker).batch.total_row_count > 0
            &&& old(worker).batch.total_row_count == 0 ==> r.flush is None && r.failed@.len() == 0
        },
        !(event is Submit) ==> (r.flush matches Some(flush) ==> flush.waiters@ == old(
            worker,
        ).batch.waiters@ && flush.total_row_count == old(worker).batch.total_row_count),
{
    match event {
        WorkerEvent::Submit { table_rows, total_rows, waiter, now } => {
            let before = old(worker).batch@;
            let (batch, failed) = before.submitted(
                items(table_rows@),
                total_rows as nat,
                waiter,
                now,
            );
            pending_batch::law_submit_counts_rows(
                before,
                items(table_rows@),
                total_rows as nat,
                waiter,
                now,
            );
            pending_batch::law_submit_keeps_waiters(
                before,
                items(table_rows@),
                total_rows as nat,
                waiter,
                now,
            );
            assert(pending_batch::failed_view(r.failed@).len() == r.failed@.len());
            if failed.len() == 0 {
                assert(pending_batch::told(failed) + batch.waiters =~= batch.waiters) by {
                    reveal_with_fuel(pending_batch::told, 1);
                }
            }
            if batch.total_row_count >= old(worker).max_batch_rows {
                let more = choose|more: Seq<FailedView>|
                    pending_batch::failed_view(r.failed@) == failed + more
                        && #[trigger] drained_into(batch, more, r.flush);
                law_drain_answers_all(batch, more, r.flush);
            }
        },
        _ => {
            lemma_drain_answers_all(old(worker).batch@, r);
        },
    }
}

/// What a drain comes to, where there was one.
proof fn lemma_drain_answers_all(batch: PendingView, r: WorkerAction)
    ensures
        drained_into(batch, pending_batch::failed_view(r.failed@), r.flush) ==> (
        batch.total_row_count == 0 ==> r.flush is None && r.failed@.len() == 0) && (
        batch.total_row_count > 0 ==> (r.flush is Some || r.failed@.len() > 0) && (
        r.flush matches Some(f) ==> f.waiters@ == batch.waiters && f.total_row_count
            == batch.total_row_count)),
{
    assert(pending_batch::failed_view(r.failed@).len() == r.failed@.len());
    if drained_into(batch, pending_batch::failed_view(r.failed@), r.flush) {
        law_drain_answers_all(batch, pending_batch::failed_view(r.failed@), r.flush);
    }
}

/// Every table that rows are for is looked up, once; and where all were found, each client's rows
/// go on as they are, in their order, with what was found of their own table. Gives the place of
/// the lookup.
pub proof fn law_rows_are_resolved(
    table_rows: Vec<(String, Rows)>,
    tables: Vec<String>,
    lookups: Vec<TableLookup>,
    r: Result<Vec<TableRows>, SubmitError>,
    i: int,
) -> (k: int)
    requires
        call_ensures(tables_to_resolve, (&table_rows,), tables),
        call_ensures(resolve_region_schemas, (table_rows, lookups), r),
        r is Ok,
        0 <= i < table_rows@.len(),
    ensures
        r->Ok_0@.len() == table_rows@.len(),
        0 <= k < tables@.len(),
        k < lookups@.len(),
        tables@[k]@ == table_rows@[i].0@,
        r->Ok_0@[i].rows@ == table_rows@[i].1@,
        lookups@[k] matches TableLookup::Found(info, schema) && info.table_id
            == r->Ok_0@[i].table_info.table_id && info.name@ == r->Ok_0@[i].table_info.name@
            && schema@ == r->Ok_0@[i].schema@,
        forall|a: int, b: int|
            0 <= a < b < tables@.len() ==> (#[trigger] tables@[a])@ != (#[trigger] tables@[b])@,
{
    let names = row_names(named_rows(table_rows@));
    let distinct = lists::distinct(names);
    let resolved = r->Ok_0@;
    assert(resolves(
        distinct,
        lookups@,
        table_rows@[i].0@,
        table_rows@[i].1@,
        resolved[i]@,
    ));
    let k = law_rows_get_their_table(
        distinct,
        lookups@,
        table_rows@[i].0@,
        table_rows@[i].1@,
        resolved[i],
    );
    let at = lists::law_distinct_keeps_first(names);
    assert(lists::texts(tables@).len() == tables@.len());
    assert(lists::texts(tables@)[k] == tables@[k]@);
    assert forall|a: int, b: int| 0 <= a < b < tables@.len() implies (#[trigger] tables@[a])@ != (
    #[trigger] tables@[b])@ by {
        assert(lists::texts(tables@)[a] == tables@[a]@);
        assert(lists::texts(tables@)[b] == tables@[b]@);
        assert(at[a] < at[b]);
        assert(names[at[a]] != names[at[b]]);
    }
    k
}

} // verus!

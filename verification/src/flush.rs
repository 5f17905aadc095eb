//! The flush of a batch: what is asked of the cluster for each table and each of its
//! regions, and what is made of the answers.

use vstd::prelude::*;

use crate::pending_batch::{FlushBatch, FlushView, TableBatch, TableBatchView};
use crate::record_batch;
use crate::record_batch::{BatchView, RecordBatch};
use crate::region::RegionId;
use crate::table_builders::TableInfo;

verus! {

/// Which rows of a batch belong to a region.
#[derive(Debug)]
pub struct RegionMask {
    pub selected: Vec<bool>,
}

/// No row is selected.
pub open spec fn selects_none(mask: Seq<bool>) -> bool {
    forall|i: int| 0 <= i < mask.len() ==> !#[trigger] mask[i]
}

/// Every row is selected.
pub open spec fn selects_all(mask: Seq<bool>) -> bool {
    forall|i: int| 0 <= i < mask.len() ==> #[trigger] mask[i]
}

impl RegionMask {
    /// Whether no row is selected.
    pub fn select_none(&self) -> (r: bool)
        ensures
            r == selects_none(self.selected@),
    {
        let mut i: usize = 0;
        while i < self.selected.len()
            invariant
                i <= self.selected@.len(),
                forall|k: int| 0 <= k < i ==> !#[trigger] self.selected@[k],
            decreases self.selected@.len() - i,
        {
            if self.selected[i] {
                return false;
            }
            i = i + 1;
        }
        true
    }

    /// Whether every row is selected.
    pub fn select_all(&self) -> (r: bool)
        ensures
            r == selects_all(self.selected@),
    {
        let mut i: usize = 0;
        while i < self.selected.len()
            invariant
                i <= self.selected@.len(),
                forall|k: int| 0 <= k < i ==> #[trigger] self.selected@[k],
            decreases self.selected@.len() - i,
        {
            if !self.selected[i] {
                return false;
            }
            i = i + 1;
        }
        true
    }
}

/// A message of an encoded record batch.
#[derive(Debug)]
pub struct FlightData {
    pub data_header: Vec<u8>,
    pub data_body: Vec<u8>,
}

/// An encoded record batch, as a bulk insert carries it.
#[derive(Debug)]
pub struct ArrowIpc {
    pub schema: Vec<u8>,
    pub data_header: Vec<u8>,
    pub payload: Vec<u8>,
}

/// What an [`ArrowIpc`] holds.
pub struct IpcView {
    pub schema: Seq<u8>,
    pub data_header: Seq<u8>,
    pub payload: Seq<u8>,
}

impl View for ArrowIpc {
    type V = IpcView;

    open spec fn view(&self) -> IpcView {
        IpcView {
            schema: self.schema@,
            data_header: self.data_header@,
            payload: self.payload@,
        }
    }
}

/// Why an encoded record batch cannot be sent.
#[derive(Clone, Copy, Debug, PartialEq, Eq, Structural)]
pub enum IpcError {
    /// The encoder gave no message.
    EmptyFlightData,
    /// The encoder gave more than one message, as it does for dictionary arrays.
    DictionaryArrays,
}

/// What a bulk insert carries of an encoded schema and the messages of an encoded
/// batch, of which there must be exactly one.
pub fn record_batch_to_ipc(schema: Vec<u8>, messages: Vec<FlightData>) -> (r: Result<
    ArrowIpc,
    IpcError,
>)
    ensures
        match r {
            Ok(ipc) => messages@.len() == 1 && ipc@ == (IpcView {
                schema: schema@,
                data_header: messages@[0].data_header@,
                payload: messages@[0].data_body@,
            }),
            Err(IpcError::EmptyFlightData) => messages@.len() == 0,
            Err(IpcError::DictionaryArrays) => messages@.len() > 1,
        },
{
    let mut messages = messages;
    let n: usize = messages.len();
    match messages.pop() {
        None => Err(IpcError::EmptyFlightData),
        Some(flight_data) => if n > 1 {
            Err(IpcError::DictionaryArrays)
        } else {
            Ok(
                ArrowIpc {
                    schema,
                    data_header: flight_data.data_header,
                    payload: flight_data.data_body,
                },
            )
        },
    }
}

/// What went wrong with the rows of a table or of a region.
#[derive(Debug)]
pub enum FlushFailure {
    FetchPartitionRule { table: String, reason: String },
    SplitRecordBatch { table: String, reason: String },
    FilterRecordBatch { table: String },
    ResolveRegionLeader { region_id: RegionId, reason: String },
    EncodeIpc { region_id: RegionId, error: IpcError },
    WriteRegion { region_id: RegionId, reason: String },
}

/// What a [`FlushFailure`] says.
pub enum FlushFailureView {
    FetchPartitionRule { table: Seq<char>, reason: Seq<char> },
    SplitRecordBatch { table: Seq<char>, reason: Seq<char> },
    FilterRecordBatch { table: Seq<char> },
    ResolveRegionLeader { region_id: RegionId, reason: Seq<char> },
    EncodeIpc { region_id: RegionId, error: IpcError },
    WriteRegion { region_id: RegionId, reason: Seq<char> },
}

impl View for FlushFailure {
    type V = FlushFailureView;

    open spec fn view(&self) -> FlushFailureView {
        match self {
            FlushFailure::FetchPartitionRule { table, reason } => {
                FlushFailureView::FetchPartitionRule { table: table@, reason: reason@ }
            },
            FlushFailure::SplitRecordBatch { table, reason } => {
                FlushFailureView::SplitRecordBatch { table: table@, reason: reason@ }
            },
            FlushFailure::FilterRecordBatch { table } => {
                FlushFailureView::FilterRecordBatch { table: table@ }
            },
            FlushFailure::ResolveRegionLeader { region_id, reason } => {
                FlushFailureView::ResolveRegionLeader { region_id: *region_id, reason: reason@ }
            },
            FlushFailure::EncodeIpc { region_id, error } => FlushFailureView::EncodeIpc {
                region_id: *region_id,
                error: *error,
            },
            FlushFailure::WriteRegion { region_id, reason } => FlushFailureView::WriteRegion {
                region_id: *region_id,
                reason: reason@,
            },
        }
    }
}

/// What the flush waits for.
#[derive(Clone, Copy, Debug, PartialEq, Eq, Structural)]
pub enum FlushPhase {
    /// The rule that partitions the current table.
    PartitionRule,
    /// The masks by which that rule splits the table's batch.
    Split,
    /// The leader of the current region.
    Leader,
    /// The encoded rows of the region.
    Encode,
    /// The answer of the region's leader to the rows.
    Write,
    /// Nothing more.
    Done,
}

/// An answer that the flush waits for.
#[derive(Debug)]
pub enum FlushEvent {
    PartitionRule(Result<(), String>),
    Split(Result<Vec<(u32, RegionMask)>, String>),
    Leader(Result<(), String>),
    Encoded { schema: Vec<u8>, messages: Vec<FlightData> },
    Written(Result<(), String>),
}

/// What a [`FlushEvent`] says.
pub enum FlushEventView {
    PartitionRule(Result<(), Seq<char>>),
    Split(Result<Seq<(u32, Seq<bool>)>, Seq<char>>),
    Leader(Result<(), Seq<char>>),
    Encoded { schema: Seq<u8>, messages: Seq<(Seq<u8>, Seq<u8>)> },
    Written(Result<(), Seq<char>>),
}

/// What a failed or successful answer without a value says.
pub open spec fn reply_view(reply: Result<(), String>) -> Result<(), Seq<char>> {
    match reply {
        Ok(_) => Ok(()),
        Err(reason) => Err(reason@),
    }
}

/// The masks of a split, by region number.
pub open spec fn masks_view(masks: Seq<(u32, RegionMask)>) -> Seq<(u32, Seq<bool>)> {
    masks.map_values(|m: (u32, RegionMask)| (m.0, m.1.selected@))
}

impl View for FlushEvent {
    type V = FlushEventView;

    open spec fn view(&self) -> FlushEventView {
        match self {
            FlushEvent::PartitionRule(reply) => FlushEventView::PartitionRule(reply_view(*reply)),
            FlushEvent::Split(Ok(masks)) => FlushEventView::Split(Ok(masks_view(masks@))),
            FlushEvent::Split(Err(reason)) => FlushEventView::Split(Err(reason@)),
            FlushEvent::Leader(reply) => FlushEventView::Leader(reply_view(*reply)),
            FlushEvent::Encoded { schema, messages } => FlushEventView::Encoded {
                schema: schema@,
                messages: messages@.map_values(
                    |m: FlightData| (m.data_header@, m.data_body@),
                ),
            },
            FlushEvent::Written(reply) => FlushEventView::Written(reply_view(*reply)),
        }
    }
}

/// A flush under way.
#[derive(Debug)]
pub struct FlushRun {
    pub table_batches: Vec<TableBatch>,
    pub total_row_count: usize,
    pub waiters: Vec<u64>,
    /// The table whose rows are being written.
    pub table: usize,
    /// Which of that table's rows belong to which region.
    pub masks: Vec<(u32, RegionMask)>,
    /// The mask of the region whose rows are being written.
    pub region: usize,
    /// The rows of that region.
    pub region_batch: Option<RecordBatch>,
    /// The same rows, encoded.
    pub ipc: Option<ArrowIpc>,
    pub phase: FlushPhase,
    /// What went wrong so far, each with the number of rows dropped over it.
    pub failures: Vec<(FlushFailure, usize)>,
    /// The regions written so far, each with the number of its rows.
    pub written: Vec<(RegionId, usize)>,
}

/// What a [`FlushRun`] holds.
#[verifier::ext_equal]
pub struct RunView {
    pub table_batches: Seq<TableBatchView>,
    pub total_row_count: nat,
    pub waiters: Seq<u64>,
    pub table: nat,
    pub masks: Seq<(u32, Seq<bool>)>,
    pub region: nat,
    pub region_batch: Option<BatchView>,
    pub ipc: Option<IpcView>,
    pub phase: FlushPhase,
    pub failures: Seq<(FlushFailureView, nat)>,
    pub written: Seq<(RegionId, nat)>,
}

/// What a sequence of failures says.
pub open spec fn failures_view(failures: Seq<(FlushFailure, usize)>) -> Seq<
    (FlushFailureView, nat),
> {
    failures.map_values(|f: (FlushFailure, usize)| (f.0@, f.1 as nat))
}

/// What a sequence of written regions says.
pub open spec fn written_view(written: Seq<(RegionId, usize)>) -> Seq<(RegionId, nat)> {
    written.map_values(|w: (RegionId, usize)| (w.0, w.1 as nat))
}

impl View for FlushRun {
    type V = RunView;

    open spec fn view(&self) -> RunView {
        RunView {
            table_batches: self.table_batches@.map_values(|t: TableBatch| t@),
            total_row_count: self.total_row_count as nat,
            waiters: self.waiters@,
            table: self.table as nat,
            masks: masks_view(self.masks@),
            region: self.region as nat,
            region_batch: match self.region_batch {
                Some(b) => Some(b@),
                None => None,
            },
            ipc: match self.ipc {
                Some(ipc) => Some(ipc@),
                None => None,
            },
            phase: self.phase,
            failures: failures_view(self.failures@),
            written: written_view(self.written@),
        }
    }
}

/// The rows of a batch that a mask selects, where it is not longer than the batch.
pub open spec fn region_rows(batch: BatchView, mask: Seq<bool>) -> Option<BatchView> {
    if selects_all(mask) {
        Some(batch)
    } else if mask.len() <= batch.num_rows {
        Some(batch.take(record_batch::selected(mask)))
    } else {
        None
    }
}

impl RunView {
    /// The tables' batches are valid, and what the phase needs is there.
    pub open spec fn valid(self) -> bool {
        &&& forall|i: int|
            0 <= i < self.table_batches.len() ==> (
            #[trigger] self.table_batches[i]).record_batch.valid()
        &&& self.phase != FlushPhase::Done ==> self.table < self.table_batches.len()
        &&& self.in_region() ==> self.region < self.masks.len() && self.region_batch is Some
        &&& self.phase == FlushPhase::Write ==> self.ipc is Some
    }

    /// The rows of a region are being written.
    pub open spec fn in_region(self) -> bool {
        self.phase == FlushPhase::Leader || self.phase == FlushPhase::Encode || self.phase
            == FlushPhase::Write
    }

    /// The table whose rows are being written.
    pub open spec fn current(self) -> TableBatchView {
        self.table_batches[self.table as int]
    }

    /// The region whose rows are being written.
    pub open spec fn region_id(self) -> RegionId {
        RegionId {
            table_id: self.current().table_info.table_id,
            region_number: self.masks[self.region as int].0,
        }
    }

    /// Notes a failure and the rows dropped over it.
    pub open spec fn failed(self, failure: FlushFailureView, rows: nat) -> RunView {
        RunView { failures: self.failures.push((failure, rows)), ..self }
    }

    /// Goes on with the first table from `t` on that has rows.
    pub open spec fn at_table(self, t: nat) -> RunView
        decreases self.table_batches.len() - t,
    {
        if t >= self.table_batches.len() {
            RunView {
                table: self.table_batches.len(),
                masks: Seq::empty(),
                region: 0,
                region_batch: None,
                ipc: None,
                phase: FlushPhase::Done,
                ..self
            }
        } else if self.table_batches[t as int].row_count == 0 {
            self.at_table(t + 1)
        } else {
            RunView {
                table: t,
                masks: Seq::empty(),
                region: 0,
                region_batch: None,
                ipc: None,
                phase: FlushPhase::PartitionRule,
                ..self
            }
        }
    }

    /// Goes on with the first mask from `m` on that selects rows, or with the next
    /// table. A mask that is longer than the batch is a failure of the whole table.
    pub open spec fn at_region(self, m: nat) -> RunView
        decreases self.masks.len() - m,
    {
        if m >= self.masks.len() {
            self.at_table(self.table + 1)
        } else if selects_none(self.masks[m as int].1) {
            self.at_region(m + 1)
        } else {
            match region_rows(self.current().record_batch, self.masks[m as int].1) {
                None => self.failed(
                    FlushFailureView::FilterRecordBatch { table: self.current().table_info.name },
                    self.current().row_count,
                ).at_region(m + 1),
                Some(rows) => if rows.num_rows == 0 {
                    self.at_region(m + 1)
                } else {
                    RunView {
                        region: m,
                        region_batch: Some(rows),
                        ipc: None,
                        phase: FlushPhase::Leader,
                        ..self
                    }
                },
            }
        }
    }

    /// Takes in an answer. One that the flush does not wait for changes nothing.
    pub open spec fn step(self, event: FlushEventView) -> RunView {
        match (self.phase, event) {
            (FlushPhase::PartitionRule, FlushEventView::PartitionRule(Ok(_))) => RunView {
                phase: FlushPhase::Split,
                ..self
            },
            (FlushPhase::PartitionRule, FlushEventView::PartitionRule(Err(reason))) => self.failed(
                FlushFailureView::FetchPartitionRule {
                    table: self.current().table_info.name,
                    reason,
                },
                self.current().row_count,
            ).at_table(self.table + 1),
            (FlushPhase::Split, FlushEventView::Split(Ok(masks))) => (RunView {
                masks,
                ..self
            }).at_region(0),
            (FlushPhase::Split, FlushEventView::Split(Err(reason))) => self.failed(
                FlushFailureView::SplitRecordBatch {
                    table: self.current().table_info.name,
                    reason,
                },
                self.current().row_count,
            ).at_table(self.table + 1),
            (FlushPhase::Leader, FlushEventView::Leader(Ok(_))) => RunView {
                phase: FlushPhase::Encode,
                ..self
            },
            (FlushPhase::Leader, FlushEventView::Leader(Err(reason))) => self.failed(
                FlushFailureView::ResolveRegionLeader { region_id: self.region_id(), reason },
                self.region_batch->0.num_rows,
            ).at_region(self.region + 1),
            (FlushPhase::Encode, FlushEventView::Encoded { schema, messages }) => if messages.len()
                == 1 {
                RunView {
                    ipc: Some(
                        IpcView { schema, data_header: messages[0].0, payload: messages[0].1 },
                    ),
                    phase: FlushPhase::Write,
                    ..self
                }
            } else {
                self.failed(
                    FlushFailureView::EncodeIpc {
                        region_id: self.region_id(),
                        error: if messages.len() == 0 {
                            IpcError::EmptyFlightData
                        } else {
                            IpcError::DictionaryArrays
                        },
                    },
                    self.region_batch->0.num_rows,
                ).at_region(self.region + 1)
            },
            (FlushPhase::Write, FlushEventView::Written(Ok(_))) => (RunView {
                written: self.written.push((self.region_id(), self.region_batch->0.num_rows)),
                ..self
            }).at_region(self.region + 1),
            (FlushPhase::Write, FlushEventView::Written(Err(reason))) => self.failed(
                FlushFailureView::WriteRegion { region_id: self.region_id(), reason },
                self.region_batch->0.num_rows,
            ).at_region(self.region + 1),
            _ => self,
        }
    }

    /// The first thing that went wrong.
    pub open spec fn first_error(self) -> Option<FlushFailureView> {
        if self.failures.len() == 0 {
            None
        } else {
            Some(self.failures[0].0)
        }
    }
}

/// The flush of a batch before anything was asked.
pub open spec fn started(flush: FlushView) -> RunView {
    (RunView {
        table_batches: flush.table_batches,
        total_row_count: flush.total_row_count,
        waiters: flush.waiters,
        table: 0,
        masks: Seq::empty(),
        region: 0,
        region_batch: None,
        ipc: None,
        phase: FlushPhase::Done,
        failures: Seq::empty(),
        written: Seq::empty(),
    }).at_table(0)
}

impl FlushRun {
    /// Begins the flush of a batch.
    pub fn start(flush: FlushBatch) -> (r: Self)
        requires
            flush@.valid(),
        ensures
            r@ == started(flush@),
            r@.valid(),
    {
        let mut run = FlushRun {
            table_batches: flush.table_batches,
            total_row_count: flush.total_row_count,
            waiters: flush.waiters,
            table: 0,
            masks: Vec::new(),
            region: 0,
            region_batch: None,
            ipc: None,
            phase: FlushPhase::Done,
            failures: Vec::new(),
            written: Vec::new(),
        };
        assert(run@.masks =~= Seq::<(u32, Seq<bool>)>::empty());
        assert(run@.failures =~= Seq::<(FlushFailureView, nat)>::empty());
        assert(run@.written =~= Seq::<(RegionId, nat)>::empty());
        run.go_to_table(0);
        run
    }

    /// Goes on with the first table from `t` on that has rows.
    fn go_to_table(&mut self, from: usize)
        requires
            forall|i: int|
                0 <= i < old(self)@.table_batches.len() ==> (
                #[trigger] old(self)@.table_batches[i]).record_batch.valid(),
        ensures
            final(self)@ == old(self)@.at_table(from as nat),
            final(self)@.valid(),
    {
        let ghost start = self@;
        let mut t: usize = from;
        self.masks = Vec::new();
        self.region = 0;
        self.region_batch = None;
        self.ipc = None;
        assert(self@.masks =~= Seq::<(u32, Seq<bool>)>::empty());
        let ghost cleared = self@;
        while t < self.table_batches.len()
            invariant
                start == old(self)@,
                self@ == cleared,
                cleared == (RunView {
                    masks: Seq::empty(),
                    region: 0,
                    region_batch: None,
                    ipc: None,
                    ..start
                }),
                start.at_table(from as nat) == start.at_table(t as nat),
                self.table_batches@.len() == start.table_batches.len(),
                forall|i: int|
                    0 <= i < start.table_batches.len() ==> (
                    #[trigger] start.table_batches[i]).record_batch.valid(),
            decreases self.table_batches@.len() - t,
        {
            assert(start.table_batches[t as int] == self.table_batches@[t as int]@);
            if self.table_batches[t].row_count != 0 {
                self.table = t;
                self.phase = FlushPhase::PartitionRule;
                return;
            }
            t = t + 1;
        }
        self.table = self.table_batches.len();
        self.phase = FlushPhase::Done;
    }

    /// Goes on with the first mask from `from` on that selects rows, or with the next
    /// table.
    fn go_to_region(&mut self, from: usize)
        requires
            old(self)@.valid(),
            old(self)@.table < old(self)@.table_batches.len(),
        ensures
            final(self)@ == old(self)@.at_region(from as nat),
            final(self)@.valid(),
    {
        let mut m: usize = from;
        while m < self.masks.len()
            invariant
                self@.at_region(m as nat) == old(self)@.at_region(from as nat),
                self@.table_batches == old(self)@.table_batches,
                self@.table < self@.table_batches.len(),
                forall|i: int|
                    0 <= i < self@.table_batches.len() ==> (
                    #[trigger] self@.table_batches[i]).record_batch.valid(),
            decreases self.masks@.len() - m,
        {
            let ghost before = self@;
            assert(before.masks[m as int] == (
                self.masks@[m as int].0,
                self.masks@[m as int].1.selected@,
            ));
            assert(before.current() == self.table_batches@[self.table as int]@);
            assert(before.current().record_batch.valid());
            if !self.masks[m].1.select_none() {
                let rows: Option<RecordBatch> = if self.masks[m].1.select_all() {
                    Some(self.table_batches[self.table].record_batch.clone())
                } else {
                    record_batch::filter_record_batch(
                        &self.table_batches[self.table].record_batch,
                        &self.masks[m].1.selected,
                    )
                };
                match rows {
                    Some(batch) => if batch.num_rows != 0 {
                        self.region = m;
                        self.region_batch = Some(batch);
                        self.ipc = None;
                        self.phase = FlushPhase::Leader;
                        return;
                    },
                    None => {
                        let failure = FlushFailure::FilterRecordBatch {
                            table: self.table_batches[self.table].table_info.name.clone(),
                        };
                        let row_count: usize = self.table_batches[self.table].row_count;
                        self.note_failure(failure, row_count);
                    },
                }
            }
            m = m + 1;
        }
        assert(self.table_batches.len() == self@.table_batches.len());
        self.go_to_table(self.table + 1);
    }

    /// Notes a failure and the rows dropped over it.
    fn note_failure(&mut self, failure: FlushFailure, rows: usize)
        ensures
            final(self)@ == old(self)@.failed(failure@, rows as nat),
            final(self).masks@.len() == old(self).masks@.len(),
    {
        let ghost before = self@;
        self.failures.push((failure, rows));
        assert(self@.failures =~= before.failures.push((failure@, rows as nat)));
    }

    /// The region whose rows are being written.
    fn current_region(&self) -> (r: RegionId)
        requires
            self@.valid(),
            self@.in_region(),
        ensures
            r == self@.region_id(),
    {
        assert(self@.current() == self.table_batches@[self.table as int]@);
        assert(self@.masks[self.region as int] == (
            self.masks@[self.region as int].0,
            self.masks@[self.region as int].1.selected@,
        ));
        RegionId::new(
            self.table_batches[self.table].table_info.table_id,
            self.masks[self.region].0,
        )
    }

    /// The number of rows of the region that is being written.
    fn region_row_count(&self) -> (r: usize)
        requires
            self@.valid(),
            self@.in_region(),
        ensures
            r == self@.region_batch->0.num_rows,
    {
        match &self.region_batch {
            Some(batch) => batch.num_rows,
            None => 0,
        }
    }

    /// Takes in an answer. One that the flush does not wait for changes nothing.
    pub fn step(&mut self, event: FlushEvent)
        requires
            old(self)@.valid(),
        ensures
            final(self)@ == old(self)@.step(event@),
            final(self)@.valid(),
    {
        assert(self@.phase != FlushPhase::Done ==> self@.current()
            == self.table_batches@[self.table as int]@);
        assert(self.masks.len() == self@.masks.len());
        assert(self.table_batches.len() == self@.table_batches.len());
        match (self.phase, event) {
            (FlushPhase::PartitionRule, FlushEvent::PartitionRule(reply)) => match reply {
                Ok(_) => {
                    self.phase = FlushPhase::Split;
                },
                Err(reason) => {
                    let table = self.table_batches[self.table].table_info.name.clone();
                    let rows: usize = self.table_batches[self.table].row_count;
                    self.note_failure(FlushFailure::FetchPartitionRule { table, reason }, rows);
                    self.go_to_table(self.table + 1);
                },
            },
            (FlushPhase::Split, FlushEvent::Split(reply)) => match reply {
                Ok(masks) => {
                    self.masks = masks;
                    self.go_to_region(0);
                },
                Err(reason) => {
                    let table = self.table_batches[self.table].table_info.name.clone();
                    let rows: usize = self.table_batches[self.table].row_count;
                    self.note_failure(FlushFailure::SplitRecordBatch { table, reason }, rows);
                    self.go_to_table(self.table + 1);
                },
            },
            (FlushPhase::Leader, FlushEvent::Leader(reply)) => match reply {
                Ok(_) => {
                    self.phase = FlushPhase::Encode;
                },
                Err(reason) => {
                    let region_id = self.current_region();
                    let rows: usize = self.region_row_count();
                    self.note_failure(
                        FlushFailure::ResolveRegionLeader { region_id, reason },
                        rows,
                    );
                    self.go_to_region(self.region + 1);
                },
            },
            (FlushPhase::Encode, FlushEvent::Encoded { schema, messages }) => {
                let region_id = self.current_region();
                let rows: usize = self.region_row_count();
                match record_batch_to_ipc(schema, messages) {
                    Ok(ipc) => {
                        self.ipc = Some(ipc);
                        self.phase = FlushPhase::Write;
                    },
                    Err(error) => {
                        self.note_failure(FlushFailure::EncodeIpc { region_id, error }, rows);
                        self.go_to_region(self.region + 1);
                    },
                }
            },
            (FlushPhase::Write, FlushEvent::Written(reply)) => {
                let region_id = self.current_region();
                let rows: usize = self.region_row_count();
                match reply {
                    Ok(_) => {
                        let ghost before = self@.written;
                        self.written.push((region_id, rows));
                        assert(self@.written =~= before.push((region_id, rows as nat)));
                    },
                    Err(reason) => {
                        self.note_failure(FlushFailure::WriteRegion { region_id, reason }, rows);
                    },
                }
                self.go_to_region(self.region + 1);
            },
            _ => {},
        }
    }

    /// What is to be asked now.
    pub fn action(&self) -> (r: FlushAction<'_>)
        requires
            self@.valid(),
        ensures
            match (self@.phase, r) {
                (FlushPhase::PartitionRule, FlushAction::FetchPartitionRule(info)) => info@
                    == self@.current().table_info,
                (FlushPhase::Split, FlushAction::SplitRecordBatch(batch)) => batch@
                    == self@.current().record_batch,
                (FlushPhase::Leader, FlushAction::ResolveRegionLeader(region_id)) => region_id
                    == self@.region_id(),
                (FlushPhase::Encode, FlushAction::EncodeIpc(batch)) => batch@
                    == self@.region_batch->0,
                (FlushPhase::Write, FlushAction::WriteRegion(region_id, ipc)) => region_id
                    == self@.region_id() && self@.ipc == Some(ipc@),
                (FlushPhase::Done, FlushAction::NotifyWaiters) => true,
                _ => false,
            },
    {
        assert(self@.phase != FlushPhase::Done ==> self@.current()
            == self.table_batches@[self.table as int]@);
        match self.phase {
            FlushPhase::PartitionRule => FlushAction::FetchPartitionRule(
                &self.table_batches[self.table].table_info,
            ),
            FlushPhase::Split => FlushAction::SplitRecordBatch(
                &self.table_batches[self.table].record_batch,
            ),
            FlushPhase::Leader => FlushAction::ResolveRegionLeader(self.current_region()),
            FlushPhase::Encode => match &self.region_batch {
                Some(batch) => FlushAction::EncodeIpc(batch),
                None => FlushAction::NotifyWaiters,
            },
            FlushPhase::Write => match &self.ipc {
                Some(ipc) => FlushAction::WriteRegion(self.current_region(), ipc),
                None => FlushAction::NotifyWaiters,
            },
            FlushPhase::Done => FlushAction::NotifyWaiters,
        }
    }

    /// Who is to be told that the flush is over, and the first thing that went wrong,
    /// which is what they are all told.
    pub fn finish(self) -> (r: (Vec<u64>, Option<FlushFailure>))
        ensures
            r.0@ == self@.waiters,
            match r.1 {
                Some(failure) => self@.first_error() == Some(failure@),
                None => self@.first_error() is None,
            },
    {
        let FlushRun { waiters, failures, .. } = self;
        let mut failures = failures;
        assert(self@.failures.len() == failures@.len());
        if failures.len() == 0 {
            return (waiters, None);
        }
        assert(self@.failures[0] == (failures@[0].0@, failures@[0].1 as nat));
        let (first, _) = failures.swap_remove(0);
        (waiters, Some(first))
    }
}

/// What a flush asks of the cluster.
#[derive(Debug)]
pub enum FlushAction<'a> {
    FetchPartitionRule(&'a TableInfo),
    SplitRecordBatch(&'a RecordBatch),
    ResolveRegionLeader(RegionId),
    EncodeIpc(&'a RecordBatch),
    WriteRegion(RegionId, &'a ArrowIpc),
    NotifyWaiters,
}

impl RunView {
    /// Whether the flush waits for an answer of this kind.
    pub open spec fn awaits(self, event: FlushEventView) -> bool {
        match event {
            FlushEventView::PartitionRule(_) => self.phase == FlushPhase::PartitionRule,
            FlushEventView::Split(_) => self.phase == FlushPhase::Split,
            FlushEventView::Leader(_) => self.phase == FlushPhase::Leader,
            FlushEventView::Encoded { .. } => self.phase == FlushPhase::Encode,
            FlushEventView::Written(_) => self.phase == FlushPhase::Write,
        }
    }

    /// How many answers the flush may still ask for within a region or a table.
    pub open spec fn rank(self) -> int {
        match self.phase {
            FlushPhase::PartitionRule => 1,
            FlushPhase::Split => 0,
            FlushPhase::Leader => 2,
            FlushPhase::Encode => 1,
            FlushPhase::Write => 0,
            FlushPhase::Done => 0,
        }
    }

    /// Whether this point of a flush comes after `other`: with a later table, with a
    /// later region of the same table, or later with the same region.
    pub open spec fn is_after(self, other: RunView) -> bool {
        ||| self.table > other.table
        ||| self.table == other.table && self.in_region() && !other.in_region()
        ||| self.table == other.table && self.in_region() == other.in_region() && self.in_region()
            && self.region > other.region
        ||| self.table == other.table && self.in_region() == other.in_region() && (
        self.in_region() ==> self.region == other.region) && self.rank() < other.rank()
    }

    /// What the flush was asked to do is the same, and what went wrong or was
    /// written in `other` is still noted.
    pub open spec fn continues(self, other: RunView) -> bool {
        &&& self.table_batches == other.table_batches
        &&& self.total_row_count == other.total_row_count
        &&& self.waiters == other.waiters
        &&& other.failures.is_prefix_of(self.failures)
        &&& other.written.is_prefix_of(self.written)
    }
}

proof fn lemma_at_table(run: RunView, t: nat)
    ensures
        run.at_table(t).continues(run),
        run.at_table(t).table >= t || run.at_table(t).table == run.table_batches.len(),
        run.at_table(t).phase == FlushPhase::PartitionRule || run.at_table(t).phase
            == FlushPhase::Done,
        run.at_table(t).phase == FlushPhase::Done ==> run.at_table(t).table
            == run.table_batches.len(),
    decreases run.table_batches.len() - t,
{
    if t < run.table_batches.len() && run.table_batches[t as int].row_count == 0 {
        lemma_at_table(run, t + 1);
    }
}

proof fn lemma_at_region(run: RunView, m: nat)
    requires
        run.table < run.table_batches.len(),
    ensures
        run.at_region(m).continues(run),
        run.at_region(m).table > run.table || (run.at_region(m).table == run.table
            && run.at_region(m).phase == FlushPhase::Leader && run.at_region(m).region >= m),
    decreases run.masks.len() - m,
{
    if m >= run.masks.len() {
        lemma_at_table(run, run.table + 1);
    } else if selects_none(run.masks[m as int].1) {
        lemma_at_region(run, m + 1);
    } else {
        match region_rows(run.current().record_batch, run.masks[m as int].1) {
            None => {
                lemma_at_region(
                    run.failed(
                        FlushFailureView::FilterRecordBatch {
                            table: run.current().table_info.name,
                        },
                        run.current().row_count,
                    ),
                    m + 1,
                );
            },
            Some(rows) => {
                if rows.num_rows == 0 {
                    lemma_at_region(run, m + 1);
                }
            },
        }
    }
}

/// Every answer that a flush waits for takes it further: to a later table, a later
/// region or a later question about the same one. What it has noted stays noted, and
/// who waits stays the same.
pub proof fn law_flush_goes_on(run: RunView, event: FlushEventView)
    requires
        run.valid(),
    ensures
        run.step(event).continues(run),
        run.awaits(event) ==> run.step(event).is_after(run),
        !run.awaits(event) ==> run.step(event) == run,
{
    if run.awaits(event) {
        match event {
            FlushEventView::PartitionRule(Err(reason)) => {
                lemma_at_table(
                    run.failed(
                        FlushFailureView::FetchPartitionRule {
                            table: run.current().table_info.name,
                            reason,
                        },
                        run.current().row_count,
                    ),
                    run.table + 1,
                );
            },
            FlushEventView::Split(Ok(masks)) => {
                lemma_at_region(RunView { masks, ..run }, 0);
            },
            FlushEventView::Split(Err(reason)) => {
                lemma_at_table(
                    run.failed(
                        FlushFailureView::SplitRecordBatch {
                            table: run.current().table_info.name,
                            reason,
                        },
                        run.current().row_count,
                    ),
                    run.table + 1,
                );
            },
            FlushEventView::Leader(Err(reason)) => {
                lemma_at_region(
                    run.failed(
                        FlushFailureView::ResolveRegionLeader {
                            region_id: run.region_id(),
                            reason,
                        },
                        run.region_batch->0.num_rows,
                    ),
                    run.region + 1,
                );
            },
            FlushEventView::Encoded { schema, messages } => {
                if messages.len() != 1 {
                    lemma_at_region(
                        run.failed(
                            FlushFailureView::EncodeIpc {
                                region_id: run.region_id(),
                                error: if messages.len() == 0 {
                                    IpcError::EmptyFlightData
                                } else {
                                    IpcError::DictionaryArrays
                                },
                            },
                            run.region_batch->0.num_rows,
                        ),
                        run.region + 1,
                    );
                }
            },
            FlushEventView::Written(Ok(_)) => {
                lemma_at_region(
                    RunView {
                        written: run.written.push(
                            (run.region_id(), run.region_batch->0.num_rows),
                        ),
                        ..run
                    },
                    run.region + 1,
                );
            },
            FlushEventView::Written(Err(reason)) => {
                lemma_at_region(
                    run.failed(
                        FlushFailureView::WriteRegion { region_id: run.region_id(), reason },
                        run.region_batch->0.num_rows,
                    ),
                    run.region + 1,
                );
            },
            _ => {},
        }
    }
}

/// Once something went wrong, that is what those who wait will be told, whatever
/// else goes wrong later.
pub proof fn law_first_error_stays(run: RunView, event: FlushEventView)
    requires
        run.valid(),
        run.first_error() is Some,
    ensures
        run.step(event).first_error() == run.first_error(),
{
    law_flush_goes_on(run, event);
}

/// The point that a flush has come to after some answers.
pub open spec fn run_after(run: RunView, events: Seq<FlushEventView>) -> RunView
    decreases events.len(),
{
    if events.len() == 0 {
        run
    } else {
        run_after(run, events.drop_last()).step(events.last())
    }
}

/// Wherever the batch of a table is split, it is split into the masks that `splits` holds for
/// the table.
pub open spec fn splits_into(
    run: RunView,
    events: Seq<FlushEventView>,
    splits: Seq<Seq<(u32, Seq<bool>)>>,
) -> bool
    decreases events.len(),
{
    events.len() > 0 ==> {
        let before = run_after(run, events.drop_last());
        &&& splits_into(run, events.drop_last(), splits)
        &&& before.phase == FlushPhase::Split && events.last() is Split && events.last()->Split_0
            is Ok ==> events.last()->Split_0->Ok_0 == splits[before.table as int]
    }
}

/// The rows of a region that a mask selects, where it selects any.
pub open spec fn region_write(table: TableBatchView, mask: (u32, Seq<bool>)) -> Option<
    (RegionId, nat),
> {
    match region_rows(table.record_batch, mask.1) {
        Some(rows) if !selects_none(mask.1) && rows.num_rows > 0 => Some(
            (
                RegionId { table_id: table.table_info.table_id, region_number: mask.0 },
                rows.num_rows,
            ),
        ),
        _ => None,
    }
}

/// The regions of a table that the first `m` masks select rows of, each with their number.
pub open spec fn table_writes(table: TableBatchView, masks: Seq<(u32, Seq<bool>)>, m: int) -> Seq<
    (RegionId, nat),
>
    decreases m,
{
    if m <= 0 {
        Seq::empty()
    } else {
        let before = table_writes(table, masks, m - 1);
        match region_write(table, masks[m - 1]) {
            Some(write) => before.push(write),
            None => before,
        }
    }
}

/// The regions of the first `t` tables that masks select rows of, each with their number.
pub open spec fn planned(
    tables: Seq<TableBatchView>,
    splits: Seq<Seq<(u32, Seq<bool>)>>,
    t: int,
) -> Seq<(RegionId, nat)>
    decreases t,
{
    if t <= 0 {
        Seq::empty()
    } else if tables[t - 1].row_count == 0 {
        planned(tables, splits, t - 1)
    } else {
        planned(tables, splits, t - 1) + table_writes(
            tables[t - 1],
            splits[t - 1],
            splits[t - 1].len() as int,
        )
    }
}

/// All regions that a flush is to write: of each table with rows, those that its masks select
/// rows of.
pub open spec fn plan(tables: Seq<TableBatchView>, splits: Seq<Seq<(u32, Seq<bool>)>>) -> Seq<
    (RegionId, nat),
> {
    planned(tables, splits, tables.len() as int)
}

/// One list is another with some items left out.
pub open spec fn is_part_of<A>(part: Seq<A>, whole: Seq<A>) -> bool
    decreases whole.len(),
{
    if whole.len() == 0 {
        part.len() == 0
    } else {
        ||| is_part_of(part, whole.drop_last())
        ||| part.len() > 0 && part.last() == whole.last() && is_part_of(
            part.drop_last(),
            whole.drop_last(),
        )
    }
}

/// No region occurs twice.
pub open spec fn distinct_regions(writes: Seq<(RegionId, nat)>) -> bool {
    forall|i: int, j: int|
        0 <= i < j < writes.len() ==> (#[trigger] writes[i]).0 != (#[trigger] writes[j]).0
}

/// No two tables have one identifier.
pub open spec fn distinct_tables(tables: Seq<TableBatchView>) -> bool {
    forall|i: int, j: int|
        0 <= i < j < tables.len() ==> (#[trigger] tables[i]).table_info.table_id != (
        #[trigger] tables[j]).table_info.table_id
}

/// No two masks of a table are for one region.
pub open spec fn distinct_masks(masks: Seq<(u32, Seq<bool>)>) -> bool {
    forall|i: int, j: int|
        0 <= i < j < masks.len() ==> (#[trigger] masks[i]).0 != (#[trigger] masks[j]).0
}

proof fn lemma_part_push<A>(part: Seq<A>, whole: Seq<A>, item: A)
    requires
        is_part_of(part, whole),
    ensures
        is_part_of(part, whole.push(item)),
        is_part_of(part.push(item), whole.push(item)),
{
    assert(whole.push(item).drop_last() =~= whole);
    assert(part.push(item).drop_last() =~= part);
}

proof fn lemma_part_longer<A>(part: Seq<A>, whole: Seq<A>, more: Seq<A>)
    requires
        is_part_of(part, whole),
    ensures
        is_part_of(part, whole + more),
    decreases more.len(),
{
    if more.len() == 0 {
        assert(whole + more =~= whole);
    } else {
        lemma_part_longer(part, whole, more.drop_last());
        assert((whole + more).drop_last() =~= whole + more.drop_last());
    }
}

proof fn lemma_part_contained<A>(part: Seq<A>, whole: Seq<A>)
    requires
        is_part_of(part, whole),
    ensures
        forall|i: int| 0 <= i < part.len() ==> whole.contains(#[trigger] part[i]),
    decreases whole.len(),
{
    if whole.len() > 0 {
        let rest = whole.drop_last();
        assert forall|i: int| 0 <= i < part.len() implies whole.contains(#[trigger] part[i]) by {
            if is_part_of(part, rest) {
                lemma_part_contained(part, rest);
                let k = choose|k: int| 0 <= k < rest.len() && rest[k] == part[i];
                assert(whole[k] == part[i]);
            } else if i < part.len() - 1 {
                lemma_part_contained(part.drop_last(), rest);
                assert(part.drop_last()[i] == part[i]);
                let k = choose|k: int| 0 <= k < rest.len() && rest[k] == part[i];
                assert(whole[k] == part[i]);
            } else {
                assert(whole[whole.len() - 1] == part[i]);
            }
        }
    }
}

proof fn lemma_part_distinct(part: Seq<(RegionId, nat)>, whole: Seq<(RegionId, nat)>)
    requires
        is_part_of(part, whole),
        distinct_regions(whole),
    ensures
        distinct_regions(part),
    decreases whole.len(),
{
    if whole.len() > 0 {
        let rest = whole.drop_last();
        assert(distinct_regions(rest)) by {
            assert forall|i: int, j: int| 0 <= i < j < rest.len() implies (#[trigger] rest[i]).0 != (
            #[trigger] rest[j]).0 by {
                assert(whole[i].0 != whole[j].0);
            }
        }
        if is_part_of(part, rest) {
            lemma_part_distinct(part, rest);
        } else {
            let front = part.drop_last();
            lemma_part_distinct(front, rest);
            lemma_part_contained(front, rest);
            assert forall|i: int, j: int| 0 <= i < j < part.len() implies (#[trigger] part[i]).0 != (
            #[trigger] part[j]).0 by {
                assert(front[i] == part[i]);
                if j < front.len() {
                    assert(front[j] == part[j]);
                } else {
                    let k = choose|k: int| 0 <= k < rest.len() && rest[k] == front[i];
                    assert(whole[k].0 != whole[whole.len() - 1].0);
                }
            }
        }
    }
}

/// The regions of one table are of the table, and each is that of one of the masks.
proof fn lemma_table_writes(table: TableBatchView, masks: Seq<(u32, Seq<bool>)>, m: int)
    requires
        distinct_masks(masks),
        0 <= m <= masks.len(),
    ensures
        distinct_regions(table_writes(table, masks, m)),
        forall|i: int|
            0 <= i < table_writes(table, masks, m).len() ==> (#[trigger] table_writes(
                table,
                masks,
                m,
            )[i]).0.table_id == table.table_info.table_id && exists|k: int|
                0 <= k < m && (#[trigger] masks[k]).0 == table_writes(
                    table,
                    masks,
                    m,
                )[i].0.region_number,
    decreases m,
{
    if m > 0 {
        lemma_table_writes(table, masks, m - 1);
        let before = table_writes(table, masks, m - 1);
        let writes = table_writes(table, masks, m);
        assert forall|i: int| 0 <= i < writes.len() implies (
        #[trigger] writes[i]).0.table_id == table.table_info.table_id && exists|k: int|
            0 <= k < m && (#[trigger] masks[k]).0 == writes[i].0.region_number by {
            if i < before.len() {
                assert(writes[i] == before[i]);
                let k = choose|k: int|
                    0 <= k < m - 1 && (#[trigger] masks[k]).0 == before[i].0.region_number;
                assert(masks[k].0 == writes[i].0.region_number);
            } else {
                assert(masks[m - 1].0 == writes[i].0.region_number);
            }
        }
        assert forall|i: int, j: int| 0 <= i < j < writes.len() implies (#[trigger] writes[i]).0
            != (#[trigger] writes[j]).0 by {
            assert(writes[i] == before[i]);
            if j < before.len() {
                assert(writes[j] == before[j]);
            } else {
                let k = choose|k: int|
                    0 <= k < m - 1 && (#[trigger] masks[k]).0 == before[i].0.region_number;
                assert(masks[k].0 != masks[m - 1].0);
            }
        }
    }
}

proof fn lemma_planned_distinct(
    tables: Seq<TableBatchView>,
    splits: Seq<Seq<(u32, Seq<bool>)>>,
    t: int,
)
    requires
        distinct_tables(tables),
        splits.len() == tables.len(),
        forall|i: int| 0 <= i < splits.len() ==> distinct_masks(#[trigger] splits[i]),
        0 <= t <= tables.len(),
    ensures
        distinct_regions(planned(tables, splits, t)),
        forall|i: int|
            0 <= i < planned(tables, splits, t).len() ==> exists|k: int|
                0 <= k < t && (#[trigger] tables[k]).table_info.table_id == (#[trigger] planned(
                    tables,
                    splits,
                    t,
                )[i]).0.table_id,
    decreases t,
{
    if t > 0 {
        lemma_planned_distinct(tables, splits, t - 1);
        let before = planned(tables, splits, t - 1);
        let writes = planned(tables, splits, t);
        let masks = splits[t - 1];
        let own = table_writes(tables[t - 1], masks, masks.len() as int);
        assert(distinct_masks(splits[t - 1]));
        lemma_table_writes(tables[t - 1], masks, masks.len() as int);
        assert forall|i: int| 0 <= i < writes.len() implies exists|k: int|
            0 <= k < t && (#[trigger] tables[k]).table_info.table_id == (
            #[trigger] writes[i]).0.table_id by {
            if i < before.len() {
                assert(writes[i] == before[i]);
                let k = choose|k: int|
                    0 <= k < t - 1 && (#[trigger] tables[k]).table_info.table_id
                        == before[i].0.table_id;
                assert(tables[k].table_info.table_id == writes[i].0.table_id);
            } else {
                assert(writes[i] == own[i - before.len()]);
                assert(tables[t - 1].table_info.table_id == writes[i].0.table_id);
            }
        }
        assert forall|i: int, j: int| 0 <= i < j < writes.len() implies (#[trigger] writes[i]).0
            != (#[trigger] writes[j]).0 by {
            if j < before.len() {
                assert(writes[i] == before[i] && writes[j] == before[j]);
            } else if i < before.len() {
                assert(writes[i] == before[i] && writes[j] == own[j - before.len()]);
                let k = choose|k: int|
                    0 <= k < t - 1 && (#[trigger] tables[k]).table_info.table_id
                        == before[i].0.table_id;
                assert(tables[k].table_info.table_id != tables[t - 1].table_info.table_id);
            } else {
                assert(writes[i] == own[i - before.len()] && writes[j] == own[j - before.len()]);
            }
        }
    }
}

impl RunView {
    /// What was written so far is part of `done`, and all of it where nothing went wrong.
    pub open spec fn has_written(self, done: Seq<(RegionId, nat)>) -> bool {
        &&& is_part_of(self.written, done)
        &&& self.failures.len() == 0 ==> self.written == done
    }

    /// What the flush has come by: the regions of the tables before, and those of the masks
    /// before of the table whose rows are being written.
    pub open spec fn passed(self, splits: Seq<Seq<(u32, Seq<bool>)>>) -> Seq<(RegionId, nat)> {
        if self.in_region() {
            planned(self.table_batches, splits, self.table as int) + table_writes(
                self.current(),
                splits[self.table as int],
                self.region as int,
            )
        } else {
            planned(self.table_batches, splits, self.table as int)
        }
    }

    /// The flush writes what masks select, and has written what it has come by, as far as nothing
    /// went wrong.
    pub open spec fn on_plan(self, splits: Seq<Seq<(u32, Seq<bool>)>>) -> bool {
        &&& self.has_written(self.passed(splits))
        &&& self.phase == FlushPhase::Done ==> self.table == self.table_batches.len()
        &&& self.phase != FlushPhase::Done ==> self.table < self.table_batches.len()
            && self.current().row_count != 0
        &&& self.in_region() ==> {
            &&& self.masks == splits[self.table as int]
            &&& self.region < self.masks.len()
            &&& region_write(self.current(), self.masks[self.region as int]) == Some(
                (self.region_id(), self.region_batch->0.num_rows),
            )
        }
    }
}

proof fn lemma_at_table_on_plan(run: RunView, splits: Seq<Seq<(u32, Seq<bool>)>>, t: nat)
    requires
        run.has_written(planned(run.table_batches, splits, t as int)),
        t <= run.table_batches.len(),
    ensures
        run.at_table(t).on_plan(splits),
    decreases run.table_batches.len() - t,
{
    if t < run.table_batches.len() && run.table_batches[t as int].row_count == 0 {
        lemma_at_table_on_plan(run, splits, t + 1);
    }
}

proof fn lemma_at_region_on_plan(run: RunView, splits: Seq<Seq<(u32, Seq<bool>)>>, m: nat)
    requires
        run.table < run.table_batches.len(),
        run.current().row_count != 0,
        run.masks == splits[run.table as int],
        m <= run.masks.len(),
        run.has_written(
            planned(run.table_batches, splits, run.table as int) + table_writes(
                run.current(),
                run.masks,
                m as int,
            ),
        ),
    ensures
        run.at_region(m).on_plan(splits),
    decreases run.masks.len() - m,
{
    if m >= run.masks.len() {
        lemma_at_table_on_plan(run, splits, run.table + 1);
    } else {
        let mask = run.masks[m as int];
        assert(table_writes(run.current(), run.masks, m as int + 1) == match region_write(
            run.current(),
            mask,
        ) {
            Some(write) => table_writes(run.current(), run.masks, m as int).push(write),
            None => table_writes(run.current(), run.masks, m as int),
        });
        if selects_none(mask.1) {
            lemma_at_region_on_plan(run, splits, m + 1);
        } else {
            match region_rows(run.current().record_batch, mask.1) {
                None => {
                    lemma_at_region_on_plan(
                        run.failed(
                            FlushFailureView::FilterRecordBatch {
                                table: run.current().table_info.name,
                            },
                            run.current().row_count,
                        ),
                        splits,
                        m + 1,
                    );
                },
                Some(rows) => {
                    if rows.num_rows == 0 {
                        lemma_at_region_on_plan(run, splits, m + 1);
                    }
                },
            }
        }
    }
}

/// Giving up a table leaves the flush on its plan.
proof fn lemma_table_failed(
    run: RunView,
    splits: Seq<Seq<(u32, Seq<bool>)>>,
    failure: FlushFailureView,
)
    requires
        run.on_plan(splits),
        run.phase == FlushPhase::PartitionRule || run.phase == FlushPhase::Split,
    ensures
        run.failed(failure, run.current().row_count).at_table(run.table + 1).on_plan(splits),
{
    let masks = splits[run.table as int];
    lemma_part_longer(
        run.written,
        planned(run.table_batches, splits, run.table as int),
        table_writes(run.current(), masks, masks.len() as int),
    );
    lemma_at_table_on_plan(
        run.failed(failure, run.current().row_count),
        splits,
        run.table + 1,
    );
}

/// Writing a region, or giving it up, leaves the flush on its plan.
proof fn lemma_region_over(
    run: RunView,
    splits: Seq<Seq<(u32, Seq<bool>)>>,
    failure: FlushFailureView,
)
    requires
        run.on_plan(splits),
        run.in_region(),
    ensures
        run.failed(failure, run.region_batch->0.num_rows).at_region(run.region + 1).on_plan(splits),
        (RunView {
            written: run.written.push((run.region_id(), run.region_batch->0.num_rows)),
            ..run
        }).at_region(run.region + 1).on_plan(splits),
{
    let write = (run.region_id(), run.region_batch->0.num_rows);
    let before = planned(run.table_batches, splits, run.table as int);
    let own = table_writes(run.current(), run.masks, run.region as int);
    let next = table_writes(run.current(), run.masks, run.region as int + 1);
    assert(next == own.push(write));
    assert(before + next =~= (before + own).push(write));
    lemma_part_push(run.written, before + own, write);
    let failed = run.failed(failure, run.region_batch->0.num_rows);
    assert(failed.current() == run.current());
    lemma_at_region_on_plan(failed, splits, run.region + 1);
    let written = RunView { written: run.written.push(write), ..run };
    assert(written.current() == run.current());
    lemma_at_region_on_plan(written, splits, run.region + 1);
}

proof fn lemma_step_on_plan(
    run: RunView,
    splits: Seq<Seq<(u32, Seq<bool>)>>,
    event: FlushEventView,
)
    requires
        run.on_plan(splits),
        run.phase == FlushPhase::Split && event is Split && event->Split_0 is Ok
            ==> event->Split_0->Ok_0 == splits[run.table as int],
    ensures
        run.step(event).on_plan(splits),
{
    if run.awaits(event) {
        match event {
            FlushEventView::PartitionRule(Err(reason)) => {
                lemma_table_failed(
                    run,
                    splits,
                    FlushFailureView::FetchPartitionRule {
                        table: run.current().table_info.name,
                        reason,
                    },
                );
            },
            FlushEventView::Split(Ok(masks)) => {
                let split = RunView { masks, ..run };
                let before = planned(run.table_batches, splits, run.table as int);
                assert(before + table_writes(split.current(), masks, 0) =~= before);
                lemma_at_region_on_plan(split, splits, 0);
            },
            FlushEventView::Split(Err(reason)) => {
                lemma_table_failed(
                    run,
                    splits,
                    FlushFailureView::SplitRecordBatch {
                        table: run.current().table_info.name,
                        reason,
                    },
                );
            },
            FlushEventView::Leader(Err(reason)) => {
                lemma_region_over(
                    run,
                    splits,
                    FlushFailureView::ResolveRegionLeader { region_id: run.region_id(), reason },
                );
            },
            FlushEventView::Encoded { schema, messages } => {
                lemma_region_over(
                    run,
                    splits,
                    FlushFailureView::EncodeIpc {
                        region_id: run.region_id(),
                        error: if messages.len() == 0 {
                            IpcError::EmptyFlightData
                        } else {
                            IpcError::DictionaryArrays
                        },
                    },
                );
            },
            FlushEventView::Written(Ok(_)) => {
                lemma_region_over(
                    run,
                    splits,
                    FlushFailureView::FilterRecordBatch { table: Seq::empty() },
                );
            },
            FlushEventView::Written(Err(reason)) => {
                lemma_region_over(
                    run,
                    splits,
                    FlushFailureView::WriteRegion { region_id: run.region_id(), reason },
                );
            },
            _ => {},
        }
    }
}

proof fn lemma_run_on_plan(
    flush: FlushView,
    events: Seq<FlushEventView>,
    splits: Seq<Seq<(u32, Seq<bool>)>>,
)
    requires
        splits_into(started(flush), events, splits),
    ensures
        run_after(started(flush), events).on_plan(splits),
        run_after(started(flush), events).table_batches == flush.table_batches,
    decreases events.len(),
{
    if events.len() == 0 {
        let run = RunView {
            table_batches: flush.table_batches,
            total_row_count: flush.total_row_count,
            waiters: flush.waiters,
            table: 0,
            masks: Seq::empty(),
            region: 0,
            region_batch: None,
            ipc: None,
            phase: FlushPhase::Done,
            failures: Seq::empty(),
            written: Seq::empty(),
        };
        lemma_at_table_on_plan(run, splits, 0);
        lemma_at_table(run, 0);
    } else {
        lemma_run_on_plan(flush, events.drop_last(), splits);
        let before = run_after(started(flush), events.drop_last());
        lemma_step_on_plan(before, splits, events.last());
        lemma_step_keeps_tables(before, events.last());
    }
}

proof fn lemma_step_keeps_tables(run: RunView, event: FlushEventView)
    requires
        run.phase != FlushPhase::Done ==> run.table < run.table_batches.len(),
    ensures
        run.step(event).table_batches == run.table_batches,
{
    if run.awaits(event) {
        assert forall|r: RunView, t: nat| #[trigger]
            r.at_table(t).table_batches == r.table_batches by {
            lemma_at_table(r, t);
        }
        assert forall|r: RunView, m: nat|
            r.table < r.table_batches.len() implies #[trigger] r.at_region(m).table_batches
            == r.table_batches by {
            lemma_at_region(r, m);
        }
    }
}

/// A whole flush, whatever the answers: it writes only regions that masks select rows of, in the
/// order of the tables and masks, and none of them twice, where no two tables and no two masks of
/// a table are for the same. When it is over and nothing went wrong, it has written every one of
/// them, exactly once.
pub proof fn law_flush_writes_each_region_once(
    flush: FlushView,
    events: Seq<FlushEventView>,
    splits: Seq<Seq<(u32, Seq<bool>)>>,
)
    requires
        flush.valid(),
        splits.len() == flush.table_batches.len(),
        splits_into(started(flush), events, splits),
    ensures
        ({
            let run = run_after(started(flush), events);
            let all = plan(flush.table_batches, splits);
            &&& is_part_of(run.written, all)
            &&& distinct_tables(flush.table_batches) && (forall|i: int|
                0 <= i < splits.len() ==> distinct_masks(#[trigger] splits[i]))
                ==> distinct_regions(run.written)
            &&& run.phase == FlushPhase::Done && run.failures.len() == 0 ==> run.written == all
        }),
{
    let run = run_after(started(flush), events);
    let tables = flush.table_batches;
    lemma_run_on_plan(flush, events, splits);
    lemma_passed_is_part(run, splits);
    if distinct_tables(tables) && (forall|i: int|
        0 <= i < splits.len() ==> distinct_masks(#[trigger] splits[i])) {
        lemma_planned_distinct(tables, splits, tables.len() as int);
        lemma_part_distinct(run.written, plan(tables, splits));
    }
}

/// What is planned for some tables begins with what is planned for fewer.
proof fn lemma_planned_longer(
    tables: Seq<TableBatchView>,
    splits: Seq<Seq<(u32, Seq<bool>)>>,
    part: Seq<(RegionId, nat)>,
    t: int,
    end: int,
)
    requires
        0 <= t <= end,
        is_part_of(part, planned(tables, splits, t)),
    ensures
        is_part_of(part, planned(tables, splits, end)),
    decreases end - t,
{
    if t < end {
        lemma_planned_longer(tables, splits, part, t, end - 1);
        let masks = splits[end - 1];
        lemma_part_longer(
            part,
            planned(tables, splits, end - 1),
            table_writes(tables[end - 1], masks, masks.len() as int),
        );
    }
}

/// The regions of some masks begin with those of fewer.
proof fn lemma_table_writes_longer(
    front: Seq<(RegionId, nat)>,
    table: TableBatchView,
    masks: Seq<(u32, Seq<bool>)>,
    part: Seq<(RegionId, nat)>,
    m: int,
    end: int,
)
    requires
        0 <= m <= end,
        is_part_of(part, front + table_writes(table, masks, m)),
    ensures
        is_part_of(part, front + table_writes(table, masks, end)),
    decreases end - m,
{
    if m < end {
        lemma_table_writes_longer(front, table, masks, part, m, end - 1);
        let before = table_writes(table, masks, end - 1);
        if let Some(write) = region_write(table, masks[end - 1]) {
            lemma_part_push(part, front + before, write);
            assert(front + before.push(write) =~= (front + before).push(write));
        }
    }
}

proof fn lemma_passed_is_part(run: RunView, splits: Seq<Seq<(u32, Seq<bool>)>>)
    requires
        run.on_plan(splits),
    ensures
        is_part_of(run.written, plan(run.table_batches, splits)),
{
    let tables = run.table_batches;
    let n = tables.len() as int;
    if run.in_region() {
        lemma_table_writes_longer(
            planned(tables, splits, run.table as int),
            run.current(),
            run.masks,
            run.written,
            run.region as int,
            run.masks.len() as int,
        );
        lemma_planned_longer(tables, splits, run.written, run.table as int + 1, n);
    } else {
        lemma_planned_longer(tables, splits, run.written, run.table as int, n);
    }
}

/// A region gets the rows that its mask selects, and no others, in order, each cell as it is. A
/// mask that selects every row stands for the whole batch, and one that does not and is longer
/// than the batch for nothing. Gives the places of the rows.
pub proof fn law_region_gets_its_rows(batch: BatchView, mask: Seq<bool>) -> (at: Seq<int>)
    requires
        batch.valid(),
    ensures
        (forall|i: int| 0 <= i < mask.len() ==> #[trigger] mask[i]) ==> region_rows(batch, mask)
            == Some(batch),
        !(forall|i: int| 0 <= i < mask.len() ==> #[trigger] mask[i]) && mask.len() > batch.num_rows
            ==> region_rows(batch, mask) is None,
        !(forall|i: int| 0 <= i < mask.len() ==> #[trigger] mask[i]) && mask.len() <= batch.num_rows
            ==> {
            &&& region_rows(batch, mask) matches Some(rows) && rows.num_rows == at.len()
                && rows.fields == batch.fields && rows.columns.len() == batch.columns.len() && (
            forall|c: int, k: int|
                0 <= c < rows.columns.len() && 0 <= k < at.len()
                    ==> #[trigger] rows.columns[c].cells[k] == batch.columns[c].cells[at[k]])
            &&& forall|i: int| 0 <= i < mask.len() ==> (#[trigger] mask[i] <==> at.contains(i))
            &&& forall|k: int| 0 <= k < at.len() ==> 0 <= #[trigger] at[k] < mask.len()
            &&& forall|j: int, k: int| 0 <= j < k < at.len() ==> #[trigger] at[j] < #[trigger] at[k]
        },
{
    record_batch::law_mask_selects(mask);
    let at = record_batch::selected(mask);
    if !selects_all(mask) && mask.len() <= batch.num_rows {
        let rows = batch.take(at);
        assert forall|c: int, k: int|
            0 <= c < rows.columns.len() && 0 <= k < at.len() implies #[trigger] rows.columns[c].cells[k]
            == batch.columns[c].cells[at[k]] by {
            assert(rows.columns[c] == batch.columns[c].take(at));
        }
    }
    at
}

/// Every region that a mask selects a row of is to be written, with the number of those rows.
/// Gives its place among the regions to write.
pub proof fn law_plan_has_every_region(
    tables: Seq<TableBatchView>,
    splits: Seq<Seq<(u32, Seq<bool>)>>,
    t: int,
    m: int,
    row: int,
) -> (place: int)
    requires
        splits.len() == tables.len(),
        0 <= t < tables.len(),
        tables[t].row_count != 0,
        tables[t].record_batch.valid(),
        0 <= m < splits[t].len(),
        splits[t][m].1.len() <= tables[t].record_batch.num_rows,
        0 <= row < splits[t][m].1.len(),
        splits[t][m].1[row],
    ensures
        0 <= place < plan(tables, splits).len(),
        plan(tables, splits)[place].0.table_id == tables[t].table_info.table_id,
        plan(tables, splits)[place].0.region_number == splits[t][m].0,
        region_rows(tables[t].record_batch, splits[t][m].1) matches Some(rows) && plan(
            tables,
            splits,
        )[place].1 == rows.num_rows && rows.num_rows > 0,
{
    let mask = splits[t][m].1;
    let at = law_region_gets_its_rows(tables[t].record_batch, mask);
    assert(!selects_none(mask));
    if !selects_all(mask) {
        assert(at.contains(row));
    }
    let own = lemma_table_has_region(tables[t], splits[t], m, splits[t].len() as int);
    lemma_planned_has(tables, splits, t, own, tables.len() as int)
}

proof fn lemma_table_has_region(
    table: TableBatchView,
    masks: Seq<(u32, Seq<bool>)>,
    m: int,
    end: int,
) -> (place: int)
    requires
        0 <= m < end <= masks.len(),
        region_write(table, masks[m]) is Some,
    ensures
        0 <= place < table_writes(table, masks, end).len(),
        table_writes(table, masks, end)[place] == region_write(table, masks[m])->0,
    decreases end,
{
    if m == end - 1 {
        table_writes(table, masks, end - 1).len() as int
    } else {
        lemma_table_has_region(table, masks, m, end - 1)
    }
}

proof fn lemma_planned_has(
    tables: Seq<TableBatchView>,
    splits: Seq<Seq<(u32, Seq<bool>)>>,
    t: int,
    own: int,
    end: int,
) -> (place: int)
    requires
        0 <= t < end <= tables.len(),
        tables[t].row_count != 0,
        0 <= own < table_writes(tables[t], splits[t], splits[t].len() as int).len(),
    ensures
        0 <= place < planned(tables, splits, end).len(),
        planned(tables, splits, end)[place] == table_writes(
            tables[t],
            splits[t],
            splits[t].len() as int,
        )[own],
    decreases end,
{
    if t == end - 1 {
        planned(tables, splits, end - 1).len() + own
    } else {
        lemma_planned_has(tables, splits, t, own, end - 1)
    }
}

proof fn lemma_at_region_batch(run: RunView, m: nat)
    ensures
        run.at_region(m).in_region() ==> run.at_region(m).region < run.at_region(m).masks.len()
            && run.at_region(m).region_batch == region_rows(
            run.at_region(m).current().record_batch,
            run.at_region(m).masks[run.at_region(m).region as int].1,
        ),
        run.at_region(m).phase != FlushPhase::Encode && run.at_region(m).phase
            != FlushPhase::Write,
    decreases run.masks.len() - m,
{
    if m >= run.masks.len() {
        lemma_at_table(run, run.table + 1);
    } else if selects_none(run.masks[m as int].1) {
        lemma_at_region_batch(run, m + 1);
    } else {
        match region_rows(run.current().record_batch, run.masks[m as int].1) {
            None => {
                lemma_at_region_batch(
                    run.failed(
                        FlushFailureView::FilterRecordBatch {
                            table: run.current().table_info.name,
                        },
                        run.current().row_count,
                    ),
                    m + 1,
                );
            },
            Some(rows) => {
                if rows.num_rows == 0 {
                    lemma_at_region_batch(run, m + 1);
                }
            },
        }
    }
}

/// Whatever the answers, the rows that are encoded and written for a region are those that the
/// region's mask selects of the batch of the table whose rows are being written.
pub proof fn law_region_is_written_its_rows(flush: FlushView, events: Seq<FlushEventView>)
    ensures
        ({
            let run = run_after(started(flush), events);
            run.in_region() ==> run.region < run.masks.len() && run.region_batch == region_rows(
                run.current().record_batch,
                run.masks[run.region as int].1,
            )
        }),
    decreases events.len(),
{
    if events.len() == 0 {
        let run = RunView {
            table_batches: flush.table_batches,
            total_row_count: flush.total_row_count,
            waiters: flush.waiters,
            table: 0,
            masks: Seq::empty(),
            region: 0,
            region_batch: None,
            ipc: None,
            phase: FlushPhase::Done,
            failures: Seq::empty(),
            written: Seq::empty(),
        };
        lemma_at_table(run, 0);
    } else {
        law_region_is_written_its_rows(flush, events.drop_last());
        let run = run_after(started(flush), events.drop_last());
        let event = events.last();
        assert forall|r: RunView, m: nat| #[trigger]
            r.at_region(m).in_region() implies r.at_region(m).region < r.at_region(m).masks.len()
            && r.at_region(m).region_batch == region_rows(
            r.at_region(m).current().record_batch,
            r.at_region(m).masks[r.at_region(m).region as int].1,
        ) by {
            lemma_at_region_batch(r, m);
        }
        assert forall|r: RunView, t: nat| !(#[trigger] r.at_table(t)).in_region() by {
            lemma_at_table(r, t);
        }
        assert(run_after(started(flush), events) == run.step(event));
    }
}

/// What an answer is made of. An error is noted next, with its reason and the rows that are
/// dropped over it, those of the table or of the region; a region whose leader took its rows is
/// noted as written, with their number; what is sent to a leader is the one message that the rows
/// were encoded to.
pub proof fn law_answers_are_noted(run: RunView, event: FlushEventView)
    requires
        run.valid(),
        run.awaits(event),
    ensures
        ({
            let next = run.step(event);
            let n = run.failures.len() as int;
            let table = run.table_batches[run.table as int];
            let region = RegionId {
                table_id: table.table_info.table_id,
                region_number: run.masks[run.region as int].0,
            };
            match event {
                FlushEventView::PartitionRule(Err(reason)) => next.failures.len() > n
                    && next.failures[n] == (
                    FlushFailureView::FetchPartitionRule { table: table.table_info.name, reason },
                    table.row_count,
                ),
                FlushEventView::Split(Err(reason)) => next.failures.len() > n && next.failures[n]
                    == (
                    FlushFailureView::SplitRecordBatch { table: table.table_info.name, reason },
                    table.row_count,
                ),
                FlushEventView::Leader(Err(reason)) => next.failures.len() > n && next.failures[n]
                    == (
                    FlushFailureView::ResolveRegionLeader { region_id: region, reason },
                    run.region_batch->0.num_rows,
                ),
                FlushEventView::Written(Err(reason)) => next.failures.len() > n && next.failures[n]
                    == (
                    FlushFailureView::WriteRegion { region_id: region, reason },
                    run.region_batch->0.num_rows,
                ),
                FlushEventView::Written(Ok(_)) => next.written == run.written.push(
                    (region, run.region_batch->0.num_rows),
                ),
                FlushEventView::Encoded { schema, messages } => if messages.len() == 1 {
                    next.phase == FlushPhase::Write && next.failures == run.failures && (
                    next.ipc matches Some(ipc) && ipc.schema == schema && ipc.data_header
                        == messages[0].0 && ipc.payload == messages[0].1)
                } else {
                    next.failures.len() > n && next.failures[n].1 == run.region_batch->0.num_rows
                        && (next.failures[n].0 matches FlushFailureView::EncodeIpc {
                        region_id,
                        error,
                    } && region_id == region && (error == IpcError::EmptyFlightData
                        <==> messages.len() == 0))
                },
                FlushEventView::PartitionRule(Ok(_)) => next.failures == run.failures && next.phase
                    == FlushPhase::Split && next.table == run.table,
                FlushEventView::Leader(Ok(_)) => next.failures == run.failures && next.phase
                    == FlushPhase::Encode && next.region == run.region && next.region_batch
                    == run.region_batch,
                FlushEventView::Split(Ok(masks)) => next.written == run.written,
            }
        }),
        !(event matches FlushEventView::Written(Ok(_))) ==> run.step(event).written == run.written,
{
    assert forall|r: RunView, m: nat|
        r.table < r.table_batches.len() implies (#[trigger] r.at_region(m)).failures.len()
        >= r.failures.len() && (r.failures.len() > 0 ==> r.at_region(m).failures[r.failures.len()
        - 1] == r.failures.last()) && r.at_region(m).written == r.written by {
        lemma_at_region(r, m);
        lemma_at_region_written(r, m);
    }
    assert forall|r: RunView, t: nat|
        (#[trigger] r.at_table(t)).failures == r.failures && r.at_table(t).written == r.written by {
        lemma_at_table_written(r, t);
    }
}

proof fn lemma_at_table_written(run: RunView, t: nat)
    ensures
        run.at_table(t).failures == run.failures,
        run.at_table(t).written == run.written,
    decreases run.table_batches.len() - t,
{
    if t < run.table_batches.len() && run.table_batches[t as int].row_count == 0 {
        lemma_at_table_written(run, t + 1);
    }
}

proof fn lemma_at_region_written(run: RunView, m: nat)
    ensures
        run.at_region(m).written == run.written,
    decreases run.masks.len() - m,
{
    if m >= run.masks.len() {
        lemma_at_table_written(run, run.table + 1);
    } else if selects_none(run.masks[m as int].1) {
        lemma_at_region_written(run, m + 1);
    } else {
        match region_rows(run.current().record_batch, run.masks[m as int].1) {
            None => {
                lemma_at_region_written(
                    run.failed(
                        FlushFailureView::FilterRecordBatch {
                            table: run.current().table_info.name,
                        },
                        run.current().row_count,
                    ),
                    m + 1,
                );
            },
            Some(rows) => {
                if rows.num_rows == 0 {
                    lemma_at_region_written(run, m + 1);
                }
            },
        }
    }
}

/// What is said of a flush under way is what it is: its tables, whose rows are being written,
/// those who wait, and each failure and each region written with its number of rows.
pub proof fn law_run_as_it_is(run: FlushRun, i: int)
    ensures
        run@.total_row_count == run.total_row_count,
        run@.waiters == run.waiters@,
        run@.table == run.table,
        run@.region == run.region,
        run@.phase == run.phase,
        run@.table_batches.len() == run.table_batches@.len(),
        run@.masks.len() == run.masks@.len(),
        run@.failures.len() == run.failures@.len(),
        run@.written.len() == run.written@.len(),
        0 <= i < run.table_batches@.len() ==> {
            let table = run@.table_batches[i];
            &&& table.row_count == run.table_batches@[i].row_count
            &&& table.record_batch == run.table_batches@[i].record_batch@
            &&& table.table_info.table_id == run.table_batches@[i].table_info.table_id
            &&& table.table_info.name == run.table_batches@[i].table_info.name@
        },
        0 <= i < run.masks@.len() ==> run@.masks[i].0 == run.masks@[i].0 && run@.masks[i].1
            == run.masks@[i].1.selected@,
        0 <= i < run.failures@.len() ==> run@.failures[i].0 == run.failures@[i].0@
            && run@.failures[i].1 == run.failures@[i].1,
        0 <= i < run.written@.len() ==> run@.written[i].0 == run.written@[i].0 && run@.written[i].1
            == run.written@[i].1,
        match run.region_batch {
            Some(batch) => run@.region_batch == Some(batch@),
            None => run@.region_batch is None,
        },
        match run.ipc {
            Some(ipc) => run@.ipc matches Some(v) && v.schema == ipc.schema@ && v.data_header
                == ipc.data_header@ && v.payload == ipc.payload@,
            None => run@.ipc is None,
        },
{
}

/// What is said of an answer that a flush waits for is what the answer is.
pub proof fn law_event_as_it_is(event: FlushEvent, i: int)
    ensures
        match event {
            FlushEvent::PartitionRule(Ok(_)) => event@ == FlushEventView::PartitionRule(Ok(())),
            FlushEvent::PartitionRule(Err(reason)) => event@ == FlushEventView::PartitionRule(
                Err(reason@),
            ),
            FlushEvent::Split(Ok(masks)) => event@ matches FlushEventView::Split(Ok(v)) && v.len()
                == masks@.len() && (0 <= i < masks@.len() ==> v[i].0 == masks@[i].0 && v[i].1
                == masks@[i].1.selected@),
            FlushEvent::Split(Err(reason)) => event@ == FlushEventView::Split(Err(reason@)),
            FlushEvent::Leader(Ok(_)) => event@ == FlushEventView::Leader(Ok(())),
            FlushEvent::Leader(Err(reason)) => event@ == FlushEventView::Leader(Err(reason@)),
            FlushEvent::Encoded { schema, messages } => event@ matches FlushEventView::Encoded {
                schema: s,
                messages: m,
            } && s == schema@ && m.len() == messages@.len() && (0 <= i < messages@.len() ==> m[i].0
                == messages@[i].data_header@ && m[i].1 == messages@[i].data_body@),
            FlushEvent::Written(Ok(_)) => event@ == FlushEventView::Written(Ok(())),
            FlushEvent::Written(Err(reason)) => event@ == FlushEventView::Written(Err(reason@)),
        },
{
}

/// What is said of a failure is what it is: its table or its region, and why.
pub proof fn law_failure_as_it_is(failure: FlushFailure)
    ensures
        match failure {
            FlushFailure::FetchPartitionRule { table, reason } => failure@
                == (FlushFailureView::FetchPartitionRule { table: table@, reason: reason@ }),
            FlushFailure::SplitRecordBatch { table, reason } => failure@
                == (FlushFailureView::SplitRecordBatch { table: table@, reason: reason@ }),
            FlushFailure::FilterRecordBatch { table } => failure@
                == (FlushFailureView::FilterRecordBatch { table: table@ }),
            FlushFailure::ResolveRegionLeader { region_id, reason } => failure@
                == (FlushFailureView::ResolveRegionLeader { region_id, reason: reason@ }),
            FlushFailure::EncodeIpc { region_id, error } => failure@
                == (FlushFailureView::EncodeIpc { region_id, error }),
            FlushFailure::WriteRegion { region_id, reason } => failure@
                == (FlushFailureView::WriteRegion { region_id, reason: reason@ }),
        },
{
}

/// A mask that selects some rows and is longer than the batch is noted as a failure, with the
/// table and the number of its rows, and no row of it is written; a mask that selects rows and is
/// not longer brings its region up; one that selects none is passed over.
pub proof fn law_masks_are_taken_one_by_one(run: RunView, m: nat, row: int)
    requires
        run.table < run.table_batches.len(),
        run.table_batches[run.table as int].record_batch.valid(),
        m < run.masks.len(),
    ensures
        ({
            let batch = run.table_batches[run.table as int].record_batch;
            let name = run.table_batches[run.table as int].table_info.name;
            let mask = run.masks[m as int].1;
            let all = forall|i: int| 0 <= i < mask.len() ==> #[trigger] mask[i];
            let next = run.at_region(m);
            &&& 0 <= row < mask.len() && mask[row] && !all && mask.len() > batch.num_rows
                ==> next.failures.len() > run.failures.len() && next.failures[run.failures.len() as int]
                == (
                FlushFailureView::FilterRecordBatch { table: name },
                run.table_batches[run.table as int].row_count,
            )
            &&& 0 <= row < mask.len() && mask[row] && mask.len() <= batch.num_rows ==> next.phase
                == FlushPhase::Leader && next.region == m && next.table == run.table
                && next.failures == run.failures
            &&& (forall|i: int| 0 <= i < mask.len() ==> !#[trigger] mask[i]) ==> next
                == run.at_region(m + 1)
        }),
{
    let batch = run.current().record_batch;
    let mask = run.masks[m as int].1;
    if 0 <= row < mask.len() && mask[row] {
        assert(!selects_none(mask));
        let at = law_region_gets_its_rows(batch, mask);
        if mask.len() > batch.num_rows && !selects_all(mask) {
            let failed = run.failed(
                FlushFailureView::FilterRecordBatch { table: run.current().table_info.name },
                run.current().row_count,
            );
            lemma_at_region(failed, m + 1);
            assert(failed.failures.is_prefix_of(run.at_region(m).failures));
            assert(run.at_region(m).failures[run.failures.len() as int]
                == failed.failures[run.failures.len() as int]);
        } else if mask.len() <= batch.num_rows && !selects_all(mask) {
            assert(at.contains(row));
        }
    }
}

/// Those who wait are told the first thing that went wrong, and that nothing did only where
/// nothing did; and all who waited are told.
pub proof fn law_waiters_are_told(run: FlushRun, r: (Vec<u64>, Option<FlushFailure>))
    requires
        call_ensures(FlushRun::finish, (run,), r),
    ensures
        r.0@ == run.waiters@,
        run.failures@.len() == 0 <==> r.1 is None,
        run.failures@.len() > 0 ==> (r.1 matches Some(failure) && failure@
            == run.failures@[0].0@),
{
}

/// A flush begins with no failure and nothing written, for all tables and all who wait.
pub proof fn law_flush_begins(flush: FlushBatch, r: FlushRun)
    requires
        call_ensures(FlushRun::start, (flush,), r),
    ensures
        r.waiters@ == flush.waiters@,
        r.total_row_count == flush.total_row_count,
        r.failures@.len() == 0,
        r.written@.len() == 0,
        r.table_batches@.len() == flush.table_batches@.len(),
        r.phase == FlushPhase::Done ==> forall|t: int|
            0 <= t < flush.table_batches@.len() ==> (
            #[trigger] flush.table_batches@[t]).row_count == 0,
{
    let begun = RunView {
        table_batches: flush@.table_batches,
        total_row_count: flush@.total_row_count,
        waiters: flush@.waiters,
        table: 0,
        masks: Seq::empty(),
        region: 0,
        region_batch: None,
        ipc: None,
        phase: FlushPhase::Done,
        failures: Seq::empty(),
        written: Seq::empty(),
    };
    lemma_at_table(begun, 0);
    lemma_at_table_written(begun, 0);
    assert(r@ == started(flush@));
    assert(r@.failures.len() == r.failures@.len());
    assert(r@.written.len() == r.written@.len());
    assert(r@.table_batches.len() == r.table_batches@.len());
    assert(flush@.table_batches.len() == flush.table_batches@.len());
    if r.phase == FlushPhase::Done {
        lemma_done_at_once(begun, 0);
        assert forall|t: int| 0 <= t < flush.table_batches@.len() implies (
        #[trigger] flush.table_batches@[t]).row_count == 0 by {
            assert(flush@.table_batches[t].row_count == 0);
        }
    }
}

proof fn lemma_done_at_once(run: RunView, t: nat)
    requires
        run.at_table(t).phase == FlushPhase::Done,
    ensures
        forall|i: int|
            t <= i < run.table_batches.len() ==> (#[trigger] run.table_batches[i]).row_count == 0,
    decreases run.table_batches.len() - t,
{
    if t < run.table_batches.len() {
        lemma_done_at_once(run, t + 1);
    }
}

/// The one message of an encoded batch is sent as it is; none, and more than one, is refused.
pub proof fn law_message_is_sent(
    schema: Vec<u8>,
    messages: Vec<FlightData>,
    r: Result<ArrowIpc, IpcError>,
)
    requires
        call_ensures(record_batch_to_ipc, (schema, messages), r),
    ensures
        messages@.len() == 1 ==> (r matches Ok(ipc) && ipc.schema@ == schema@ && ipc.data_header@
            == messages@[0].data_header@ && ipc.payload@ == messages@[0].data_body@),
        messages@.len() == 0 ==> r == Err::<ArrowIpc, IpcError>(IpcError::EmptyFlightData),
        messages@.len() > 1 ==> r == Err::<ArrowIpc, IpcError>(IpcError::DictionaryArrays),
{
}

} // verus!

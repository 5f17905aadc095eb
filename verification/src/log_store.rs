//! A log of entries by namespace, kept by an engine on disk: when the engine is open, what it
//! is asked for, and how a log is read batch by batch.

use vstd::prelude::*;

use crate::text;

verus! {

/// The namespace that holds the list of namespaces.
pub const SYSTEM_NAMESPACE: u64 = 0;

/// The size from which a batch is compressed, in bytes.
pub const BATCH_COMPRESSION_THRESHOLD: u64 = 8192;

/// An entry of a log.
#[derive(Debug, PartialEq, Eq)]
pub struct Entry {
    pub id: u64,
    pub namespace_id: u64,
    pub data: Vec<u8>,
}

/// What an [`Entry`] holds.
#[verifier::ext_equal]
pub struct EntryView {
    pub id: u64,
    pub namespace_id: u64,
    pub data: Seq<u8>,
}

impl View for Entry {
    type V = EntryView;

    open spec fn view(&self) -> EntryView {
        EntryView { id: self.id, namespace_id: self.namespace_id, data: self.data@ }
    }
}

/// What entries hold.
pub open spec fn entries_view(entries: Seq<Entry>) -> Seq<EntryView> {
    entries.map_values(|e: Entry| e@)
}

/// Entries that are handed to the engine together, for one namespace.
#[derive(Debug)]
pub struct EntryBatch {
    pub namespace_id: u64,
    pub entries: Vec<Entry>,
    /// They are to be on disk when the call ends.
    pub sync: bool,
}

/// Asks for an entry to be appended.
#[derive(Debug)]
pub struct AppendRequest {
    pub batch: EntryBatch,
    /// What the appending answers with.
    pub entry_id: u64,
}

/// Asks for entries to be appended.
#[derive(Debug)]
pub struct AppendBatchRequest {
    pub batch: EntryBatch,
    /// What the appending answers with.
    pub ids: Vec<u64>,
}

/// A log of its own.
#[derive(Clone, Copy, Debug, PartialEq, Eq, Structural)]
pub struct Namespace {
    pub id: u64,
}

/// Asks the engine to put a namespace under a key of a log or, where there is none, to delete
/// what is there.
#[derive(Debug, PartialEq, Eq)]
pub struct NamespaceWrite {
    pub log_id: u64,
    pub key: Vec<u8>,
    pub namespace: Option<Namespace>,
    /// It is to be on disk when the call ends.
    pub sync: bool,
}

/// Asks the engine for what is under the keys of a log from `start_key` on, in their order.
#[derive(Debug, PartialEq, Eq)]
pub struct NamespaceScan {
    pub log_id: u64,
    pub start_key: Vec<u8>,
}

/// How the store is set up.
#[derive(Debug)]
pub struct LogConfig {
    pub log_file_dir: String,
    pub max_log_file_size: usize,
    pub purge_threshold: usize,
    /// How much a reader gets at once.
    pub read_batch_size: usize,
}

/// How the engine is opened. It puts up with a broken end of the last file.
#[derive(Debug)]
pub struct EngineConfig {
    pub dir: String,
    pub purge_threshold: u64,
    pub target_file_size: u64,
    pub batch_compression_threshold: u64,
}

/// Why the store cannot do what it is asked for.
#[derive(Debug, PartialEq, Eq)]
pub enum LogStoreError {
    /// The store is not running.
    IllegalState,
    /// An entry cannot be put into a batch.
    AddEntryLogBatch(String),
    /// The engine fails.
    RaftEngine(String),
    /// The task that removes old files does not end.
    WaitGcTaskStop(String),
}

/// Whether the store has its parts: the engine, the task that removes old files, and the means
/// to end that task.
#[derive(Debug)]
pub struct RaftEngineLogstore {
    pub config: LogConfig,
    pub engine: bool,
    pub cancel_token: bool,
    pub gc_task_handle: bool,
    pub started: bool,
}

impl RaftEngineLogstore {
    /// The store has all its parts.
    pub open spec fn is_running(self) -> bool {
        self.engine && self.cancel_token && self.gc_task_handle && self.started
    }

    /// The store has none of its parts.
    pub open spec fn is_stopped(self) -> bool {
        !self.engine && !self.cancel_token && !self.gc_task_handle && !self.started
    }

    /// A store that does not run.
    pub fn new(config: LogConfig) -> (r: Self)
        ensures
            r.config == config,
            r.is_stopped(),
    {
        RaftEngineLogstore {
            config,
            engine: false,
            cancel_token: false,
            gc_task_handle: false,
            started: false,
        }
    }

    /// The engine to open to start the store, where none is open.
    pub fn start(&self) -> (r: Option<EngineConfig>)
        ensures
            r is Some <==> !self.engine,
            r matches Some(config) ==> config.dir@ == self.config.log_file_dir@
                && config.purge_threshold == self.config.purge_threshold && config.target_file_size
                == self.config.max_log_file_size && config.batch_compression_threshold
                == BATCH_COMPRESSION_THRESHOLD,
    {
        if self.engine {
            None
        } else {
            Some(
                EngineConfig {
                    dir: self.config.log_file_dir.clone(),
                    purge_threshold: self.config.purge_threshold as u64,
                    target_file_size: self.config.max_log_file_size as u64,
                    batch_compression_threshold: BATCH_COMPRESSION_THRESHOLD,
                },
            )
        }
    }

    /// What starting comes to, given whether the engine could be opened: the store runs, with
    /// a task of its own that removes old files, or stays as it was.
    pub fn opened(&mut self, outcome: Result<(), String>) -> (r: Result<(), LogStoreError>)
        ensures
            final(self).config == old(self).config,
            match outcome {
                Ok(_) => r is Ok && final(self).is_running(),
                Err(e) => r == Err::<(), LogStoreError>(LogStoreError::RaftEngine(e))
                    && *final(self) == *old(self),
            },
    {
        match outcome {
            Ok(_) => {
                self.engine = true;
                self.cancel_token = true;
                self.gc_task_handle = true;
                self.started = true;
                Ok(())
            },
            Err(e) => Err(LogStoreError::RaftEngine(e)),
        }
    }

    /// Takes the task that removes old files and the means to end it, which is then ended; where
    /// one of them is missing the store cannot be stopped.
    pub fn stop(&mut self) -> (r: Result<(), LogStoreError>)
        ensures
            r is Ok <==> old(self).gc_task_handle && old(self).cancel_token,
            r matches Err(e) ==> e == LogStoreError::IllegalState,
            !final(self).gc_task_handle,
            final(self).cancel_token == (old(self).cancel_token && !old(self).gc_task_handle),
            final(self).engine == old(self).engine,
            final(self).started == old(self).started,
            final(self).config == old(self).config,
    {
        if !self.gc_task_handle {
            return Err(LogStoreError::IllegalState);
        }
        self.gc_task_handle = false;
        if !self.cancel_token {
            return Err(LogStoreError::IllegalState);
        }
        self.cancel_token = false;
        Ok(())
    }

    /// What stopping comes to, given how the task ended: the engine is closed where it ended in
    /// order.
    pub fn stopped(&mut self, outcome: Result<(), String>) -> (r: Result<(), LogStoreError>)
        ensures
            final(self).config == old(self).config,
            final(self).gc_task_handle == old(self).gc_task_handle,
            final(self).cancel_token == old(self).cancel_token,
            match outcome {
                Ok(_) => r is Ok && !final(self).engine && !final(self).started,
                Err(e) => r == Err::<(), LogStoreError>(LogStoreError::WaitGcTaskStop(e))
                    && *final(self) == *old(self),
            },
    {
        match outcome {
            Ok(_) => {
                self.engine = false;
                self.started = false;
                Ok(())
            },
            Err(e) => Err(LogStoreError::WaitGcTaskStop(e)),
        }
    }

    /// The engine, where it is open.
    fn opened_engine(&self) -> (r: Result<(), LogStoreError>)
        ensures
            r is Ok <==> self.engine,
            r matches Err(e) ==> e == LogStoreError::IllegalState,
    {
        if self.engine {
            Ok(())
        } else {
            Err(LogStoreError::IllegalState)
        }
    }

    /// Whether a batch can be handed to the engine, given whether its entries could be put into
    /// it.
    pub open spec fn readiness(self, added: Result<(), String>) -> Result<(), LogStoreError> {
        match added {
            Err(reason) => Err(LogStoreError::AddEntryLogBatch(reason)),
            Ok(_) => if self.engine {
                Ok(())
            } else {
                Err(LogStoreError::IllegalState)
            },
        }
    }

    /// Whether a batch can be handed to the engine, given whether its entries could be put into
    /// it. Where it cannot, nothing is handed over, and this is what the appending fails with.
    pub fn batch_ready(&self, added: Result<(), String>) -> (r: Result<(), LogStoreError>)
        ensures
            r == self.readiness(added),
    {
        match added {
            Ok(_) => if self.engine {
                Ok(())
            } else {
                Err(LogStoreError::IllegalState)
            },
            Err(e) => Err(LogStoreError::AddEntryLogBatch(e)),
        }
    }

    /// What handing a batch to the engine comes to.
    pub fn written(&self, outcome: Result<(), String>) -> (r: Result<(), LogStoreError>)
        ensures
            r == written_outcome(outcome),
    {
        match outcome {
            Ok(_) => Ok(()),
            Err(e) => Err(LogStoreError::RaftEngine(e)),
        }
    }

    /// Appends an entry: the batch to hand to the engine holds it alone, for the namespace that
    /// it names. Whether that namespace was ever created is not looked at.
    pub fn append(&self, e: Entry) -> (r: AppendRequest)
        ensures
            r.entry_id == e.id,
            r.batch.namespace_id == e.namespace_id,
            r.batch.entries@ == seq![e],
            !r.batch.sync,
    {
        let entry_id: u64 = e.id;
        let namespace_id: u64 = e.namespace_id;
        let mut entries: Vec<Entry> = Vec::new();
        entries.push(e);
        AppendRequest { entry_id, batch: EntryBatch { namespace_id, entries, sync: false } }
    }

    /// The answer to the appending of an entry, given whether its batch was stored.
    pub fn append_answer(&self, request: AppendRequest, stored: Result<(), LogStoreError>) -> (r:
        Result<u64, LogStoreError>)
        ensures
            r == (match stored {
                Ok(_) => Ok(request.entry_id),
                Err(e) => Err(e),
            }),
    {
        match stored {
            Ok(_) => Ok(request.entry_id),
            Err(e) => Err(e),
        }
    }

    /// Appends entries to a namespace: the one batch to hand to the engine holds them all.
    pub fn append_batch(&self, ns: &Namespace, entries: Vec<Entry>) -> (r: AppendBatchRequest)
        ensures
            r.ids@ == entry_ids(entries@),
            r.batch.namespace_id == ns.id,
            r.batch.entries == entries,
            !r.batch.sync,
    {
        let mut ids: Vec<u64> = Vec::new();
        let mut i: usize = 0;
        while i < entries.len()
            invariant
                i <= entries@.len(),
                ids@ == entry_ids(entries@).take(i as int),
            decreases entries@.len() - i,
        {
            ids.push(entries[i].id);
            i = i + 1;
            assert(ids@ =~= entry_ids(entries@).take(i as int));
        }
        assert(entry_ids(entries@).take(i as int) =~= entry_ids(entries@));
        AppendBatchRequest { ids, batch: EntryBatch { namespace_id: ns.id, entries, sync: false } }
    }

    /// The answer to the appending of entries, given whether their batch was stored.
    pub fn append_batch_answer(
        &self,
        request: AppendBatchRequest,
        stored: Result<(), LogStoreError>,
    ) -> (r: Result<Vec<u64>, LogStoreError>)
        ensures
            r == (match stored {
                Ok(_) => Ok(request.ids),
                Err(e) => Err(e),
            }),
    {
        match stored {
            Ok(_) => Ok(request.ids),
            Err(e) => Err(e),
        }
    }

    /// A reader of a namespace from an entry on, given the last entry that it has now.
    pub fn read(&self, ns: &Namespace, id: u64, last_index: u64) -> (r: Result<
        LogReader,
        LogStoreError,
    >)
        requires
            last_index < u64::MAX,
        ensures
            r is Ok <==> self.engine,
            r matches Err(e) ==> e == LogStoreError::IllegalState,
            r matches Ok(reader) ==> reader == (LogReader {
                namespace_id: ns.id,
                start_index: id,
                last_index,
                max_batch_size: self.config.read_batch_size,
            }),
    {
        match self.opened_engine() {
            Ok(_) => Ok(
                LogReader {
                    namespace_id: ns.id,
                    start_index: id,
                    last_index,
                    max_batch_size: self.config.read_batch_size,
                },
            ),
            Err(e) => Err(e),
        }
    }

    /// What to put into the list of namespaces to create one, where the engine is open. It is
    /// to be on disk when the call ends.
    pub fn create_namespace(&self, ns: &Namespace) -> (r: Result<NamespaceWrite, LogStoreError>)
        ensures
            r is Ok <==> self.engine,
            r matches Ok(write) ==> write.log_id == SYSTEM_NAMESPACE && write.key@
                == namespace_key(ns.id) && write.namespace == Some(*ns) && write.sync,
            r matches Err(e) ==> e == LogStoreError::IllegalState,
    {
        match self.opened_engine() {
            Ok(_) => Ok(
                NamespaceWrite {
                    log_id: SYSTEM_NAMESPACE,
                    key: key_of(ns),
                    namespace: Some(*ns),
                    sync: true,
                },
            ),
            Err(e) => Err(e),
        }
    }

    /// What to delete from the list of namespaces to delete one, where the engine is open. It is
    /// to be on disk when the call ends.
    pub fn delete_namespace(&self, ns: &Namespace) -> (r: Result<NamespaceWrite, LogStoreError>)
        ensures
            r is Ok <==> self.engine,
            r matches Ok(write) ==> write.log_id == SYSTEM_NAMESPACE && write.key@
                == namespace_key(ns.id) && write.namespace is None && write.sync,
            r matches Err(e) ==> e == LogStoreError::IllegalState,
    {
        match self.opened_engine() {
            Ok(_) => Ok(
                NamespaceWrite {
                    log_id: SYSTEM_NAMESPACE,
                    key: key_of(ns),
                    namespace: None,
                    sync: true,
                },
            ),
            Err(e) => Err(e),
        }
    }

    /// What to ask the engine for to list the namespaces, where it is open.
    pub fn list_namespaces(&self) -> (r: Result<NamespaceScan, LogStoreError>)
        ensures
            r is Ok <==> self.engine,
            r matches Ok(scan) ==> scan.log_id == SYSTEM_NAMESPACE && scan.start_key@
                == namespace_prefix(),
            r matches Err(e) ==> e == LogStoreError::IllegalState,
    {
        match self.opened_engine() {
            Ok(_) => Ok(NamespaceScan { log_id: SYSTEM_NAMESPACE, start_key: prefix_bytes() }),
            Err(e) => Err(e),
        }
    }

    /// An entry of a namespace.
    pub fn entry(&self, data: &[u8], id: u64, ns: Namespace) -> (r: Entry)
        ensures
            r.id == id,
            r.namespace_id == ns.id,
            r.data@ == data@,
    {
        Entry { id, namespace_id: ns.id, data: vstd::slice::slice_to_vec(data) }
    }

    /// The namespace of an identifier.
    pub fn namespace(&self, id: u64) -> (r: Namespace)
        ensures
            r.id == id,
    {
        Namespace { id }
    }

    /// The namespace and the entry before which all entries are given up, where the engine is
    /// open.
    pub fn obsolete(&self, namespace: Namespace, id: u64) -> (r: Result<(u64, u64), LogStoreError>)
        ensures
            r is Ok <==> self.engine,
            r matches Ok(given_up) ==> given_up == (namespace.id, id),
            r matches Err(e) ==> e == LogStoreError::IllegalState,
    {
        match self.opened_engine() {
            Ok(_) => Ok((namespace.id, id)),
            Err(e) => Err(e),
        }
    }
}

/// What handing a batch to the engine comes to.
pub open spec fn written_outcome(outcome: Result<(), String>) -> Result<(), LogStoreError> {
    match outcome {
        Ok(_) => Ok(()),
        Err(reason) => Err(LogStoreError::RaftEngine(reason)),
    }
}

/// The identifiers of entries.
pub open spec fn entry_ids(entries: Seq<Entry>) -> Seq<u64> {
    entries.map_values(|e: Entry| e.id)
}

/// The bytes `__sys_namespace_`.
pub open spec fn namespace_prefix() -> Seq<u8> {
    seq![95u8, 95, 115, 121, 115, 95, 110, 97, 109, 101, 115, 112, 97, 99, 101, 95]
}

/// The key of a namespace in the list of namespaces.
pub open spec fn namespace_key(id: u64) -> Seq<u8> {
    namespace_prefix() + text::decimal(id as nat)
}

/// What the keys of the list of namespaces start with.
fn prefix_bytes() -> (r: Vec<u8>)
    ensures
        r@ == namespace_prefix(),
{
    let mut key: Vec<u8> = Vec::new();
    text::push_bytes(
        &mut key,
        &[95, 95, 115, 121, 115, 95, 110, 97, 109, 101, 115, 112, 97, 99, 101, 95],
    );
    assert(key@ =~= namespace_prefix());
    key
}

/// The key of a namespace in the list of namespaces.
fn key_of(ns: &Namespace) -> (r: Vec<u8>)
    ensures
        r@ == namespace_key(ns.id),
{
    let mut key: Vec<u8> = prefix_bytes();
    text::push_decimal(&mut key, ns.id);
    key
}

/// No two namespaces have one key, and every key is found in the list of namespaces.
pub proof fn law_namespace_keys(a: u64, b: u64)
    ensures
        namespace_prefix().is_prefix_of(namespace_key(a)),
        namespace_key(a) == namespace_key(b) ==> a == b,
{
    let n = namespace_prefix().len() as int;
    assert(namespace_key(a).take(n) =~= namespace_prefix());
    assert(namespace_key(a).skip(n) =~= text::decimal(a as nat));
    assert(namespace_key(b).skip(n) =~= text::decimal(b as nat));
    text::lemma_decimal(a as nat);
    text::lemma_decimal(b as nat);
}

/// What is under the keys of the list of namespaces after one was put there or, where there is
/// none, deleted.
pub open spec fn keys_after(
    keys: Map<Seq<u8>, Namespace>,
    key: Seq<u8>,
    namespace: Option<Namespace>,
) -> Map<Seq<u8>, Namespace> {
    match namespace {
        Some(namespace) => keys.insert(key, namespace),
        None => keys.remove(key),
    }
}

/// A namespace is under a key of the list that a scan from `start_key` on comes to.
pub open spec fn is_listed(
    keys: Map<Seq<u8>, Namespace>,
    start_key: Seq<u8>,
    namespace: Namespace,
) -> bool {
    exists|key: Seq<u8>| #[trigger]
        keys.contains_key(key) && !text::lex_lt(key, start_key) && keys[key] == namespace
}

/// Each namespace of the list is under its own key.
pub open spec fn is_namespace_list(keys: Map<Seq<u8>, Namespace>) -> bool {
    forall|key: Seq<u8>| #[trigger] keys.contains_key(key) ==> key == namespace_key(keys[key].id)
}

/// A namespace that was created is listed until it is deleted; and creating or deleting one makes
/// no difference to whether another is listed.
pub proof fn law_manage_namespaces(
    keys: Map<Seq<u8>, Namespace>,
    namespace: Namespace,
    other: Namespace,
)
    requires
        is_namespace_list(keys),
        other != namespace,
    ensures
        ({
            let key = namespace_key(namespace.id);
            let start = namespace_prefix();
            let created = keys_after(keys, key, Some(namespace));
            let deleted = keys_after(created, key, None);
            &&& is_namespace_list(created)
            &&& is_namespace_list(deleted)
            &&& is_listed(created, start, namespace)
            &&& !is_listed(deleted, start, namespace)
            &&& is_listed(created, start, other) <==> is_listed(keys, start, other)
            &&& is_listed(deleted, start, other) <==> is_listed(keys, start, other)
        }),
{
    let key = namespace_key(namespace.id);
    let start = namespace_prefix();
    let created = keys_after(keys, key, Some(namespace));
    let deleted = keys_after(created, key, None);
    let empty = Seq::<u8>::empty();
    assert(start =~= start + empty);
    text::lemma_lex_common(start, text::decimal(namespace.id as nat), empty);
    assert(created.contains_key(key));
    law_namespace_keys(namespace.id, other.id);
    if is_listed(keys, start, other) {
        let k = choose|k: Seq<u8>| #[trigger]
            keys.contains_key(k) && !text::lex_lt(k, start) && keys[k] == other;
        assert(k == namespace_key(other.id));
        assert(created.contains_key(k) && deleted.contains_key(k));
    }
    if is_listed(created, start, other) {
        let k = choose|k: Seq<u8>| #[trigger]
            created.contains_key(k) && !text::lex_lt(k, start) && created[k] == other;
        assert(keys.contains_key(k));
    }
    if is_listed(deleted, start, other) {
        let k = choose|k: Seq<u8>| #[trigger]
            deleted.contains_key(k) && !text::lex_lt(k, start) && deleted[k] == other;
        assert(keys.contains_key(k));
    }
}

/// Reads a log, batch by batch, up to the entry that was its last when the reading began.
#[derive(Debug)]
pub struct LogReader {
    pub namespace_id: u64,
    pub start_index: u64,
    pub last_index: u64,
    pub max_batch_size: usize,
}

/// Asks the engine for the entries from `start_index` on, before `end_index`, as many as fit.
#[derive(Clone, Copy, Debug, PartialEq, Eq, Structural)]
pub struct FetchEntries {
    pub namespace_id: u64,
    pub start_index: u64,
    pub end_index: u64,
    pub max_batch_size: usize,
}

impl LogReader {
    /// What to ask the engine for.
    pub open spec fn request(self) -> FetchEntries {
        FetchEntries {
            namespace_id: self.namespace_id,
            start_index: self.start_index,
            end_index: (self.last_index + 1) as u64,
            max_batch_size: self.max_batch_size,
        }
    }

    /// The reader after a batch: the next one starts behind its last entry.
    pub open spec fn after(self, batch: Seq<EntryView>) -> LogReader {
        if batch.len() == 0 {
            self
        } else {
            LogReader { start_index: (batch.last().id + 1) as u64, ..self }
        }
    }

    /// The last entry has not been read.
    pub open spec fn has_more(self) -> bool {
        self.start_index <= self.last_index
    }

    /// What to ask the engine for.
    pub fn fetch(&self) -> (r: FetchEntries)
        requires
            self.last_index < u64::MAX,
        ensures
            r == self.request(),
    {
        FetchEntries {
            namespace_id: self.namespace_id,
            start_index: self.start_index,
            end_index: self.last_index + 1,
            max_batch_size: self.max_batch_size,
        }
    }

    /// What is done about a batch that was read: it is handed to the one who reads, and the
    /// next one starts behind its last entry.
    pub fn fetched(&mut self, batch: &Vec<Entry>)
        requires
            batch@.len() > 0 ==> batch@.last().id < u64::MAX,
        ensures
            *final(self) == old(self).after(entries_view(batch@)),
    {
        if batch.len() > 0 {
            assert(entries_view(batch@).last() == batch@.last()@);
            self.start_index = batch[batch.len() - 1].id + 1;
        }
    }

    /// Whether to go on, given that the last batch or failure was handed over: not after a
    /// failure, not where the one who reads is gone, and not behind the last entry.
    pub fn goes_on(&self, failed: bool, reader_gone: bool) -> (r: bool)
        ensures
            r == (!failed && !reader_gone && self.has_more()),
    {
        !failed && !reader_gone && self.start_index <= self.last_index
    }
}

/// The identifiers of a log's entries grow.
pub open spec fn in_order(log: Seq<EntryView>) -> bool {
    forall|i: int, j: int|
        0 <= i < j < log.len() ==> (#[trigger] log[i]).id < (#[trigger] log[j]).id
}

/// The entries of a log from `first` on, before `end`.
pub open spec fn entries_between(log: Seq<EntryView>, first: int, end: int) -> Seq<EntryView>
    decreases log.len(),
{
    if log.len() == 0 {
        Seq::empty()
    } else {
        let before = entries_between(log.drop_last(), first, end);
        if first <= log.last().id < end {
            before.push(log.last())
        } else {
            before
        }
    }
}

/// The engine's answer to what it is asked for: one or more of the entries that are asked for,
/// the first of them first.
pub open spec fn answers(
    log: Seq<EntryView>,
    request: FetchEntries,
    batch: Seq<EntryView>,
) -> bool {
    &&& batch.len() > 0
    &&& batch.is_prefix_of(
        entries_between(log, request.start_index as int, request.end_index as int),
    )
}

/// The batches in one.
pub open spec fn joined(batches: Seq<Seq<EntryView>>) -> Seq<EntryView>
    decreases batches.len(),
{
    if batches.len() == 0 {
        Seq::empty()
    } else {
        joined(batches.drop_last()) + batches.last()
    }
}

/// The reader after some batches.
pub open spec fn reader_after(reader: LogReader, batches: Seq<Seq<EntryView>>) -> LogReader
    decreases batches.len(),
{
    if batches.len() == 0 {
        reader
    } else {
        reader_after(reader, batches.drop_last()).after(batches.last())
    }
}

/// Each batch is the engine's answer to what it was asked for after the ones before, of which
/// none was the last.
pub open spec fn reads(log: Seq<EntryView>, reader: LogReader, batches: Seq<Seq<EntryView>>) -> bool
    decreases batches.len(),
{
    batches.len() > 0 ==> {
        let before = reader_after(reader, batches.drop_last());
        &&& reads(log, reader, batches.drop_last())
        &&& before.has_more()
        &&& answers(log, before.request(), batches.last())
    }
}

/// What is between two identifiers is in order and within them.
proof fn lemma_between(log: Seq<EntryView>, first: int, end: int)
    requires
        in_order(log),
    ensures
        in_order(entries_between(log, first, end)),
        forall|i: int|
            0 <= i < entries_between(log, first, end).len() ==> first <= (
            #[trigger] entries_between(log, first, end)[i]).id < end,
        log.len() > 0 ==> forall|i: int|
            0 <= i < entries_between(log, first, end).len() ==> (
            #[trigger] entries_between(log, first, end)[i]).id <= log.last().id,
        log.len() > 0 && log.last().id < first ==> entries_between(log, first, end).len() == 0,
    decreases log.len(),
{
    if log.len() > 0 {
        let rest = log.drop_last();
        lemma_between(rest, first, end);
        if rest.len() > 0 {
            assert(rest.last().id < log.last().id);
        }
    }
}

/// What is between two identifiers is what comes before one in the middle, and the rest.
proof fn lemma_between_parts(log: Seq<EntryView>, first: int, middle: int, end: int)
    requires
        in_order(log),
        first <= middle <= end,
    ensures
        entries_between(log, first, end) == entries_between(log, first, middle) + entries_between(
            log,
            middle,
            end,
        ),
    decreases log.len(),
{
    let a = entries_between(log, first, middle);
    let b = entries_between(log, middle, end);
    if log.len() > 0 {
        let rest = log.drop_last();
        let last = log.last();
        lemma_between_parts(rest, first, middle, end);
        if first <= last.id < middle {
            lemma_between(rest, middle, end);
            if rest.len() > 0 {
                assert(rest.last().id < last.id);
            }
            assert(entries_between(rest, middle, end).len() == 0);
            assert(entries_between(log, first, end) =~= a + b);
        } else {
            assert(entries_between(log, first, end) =~= a + b);
        }
    } else {
        assert(entries_between(log, first, end) =~= a + b);
    }
}

/// What is asked for is a batch of it, and what is asked for after that batch.
proof fn lemma_answer(log: Seq<EntryView>, first: int, end: int, batch: Seq<EntryView>)
    requires
        in_order(log),
        batch.len() > 0,
        batch.is_prefix_of(entries_between(log, first, end)),
    ensures
        first <= batch.last().id < end,
        entries_between(log, first, end) == batch + entries_between(
            log,
            batch.last().id + 1,
            end,
        ),
{
    let all = entries_between(log, first, end);
    let n = batch.len() as int;
    let middle = batch.last().id + 1;
    assert(all.take(n) =~= batch);
    assert(all[n - 1] == batch.last());
    lemma_between(log, first, end);
    lemma_between(log, first, middle);
    lemma_between(log, middle, end);
    lemma_between_parts(log, first, middle, end);
    let a = entries_between(log, first, middle);
    let b = entries_between(log, middle, end);
    if a.len() < n {
        assert(all[n - 1] == b[n - 1 - a.len()]);
    }
    if a.len() > n {
        assert(all[n - 1].id < all[n].id);
        assert(all[n] == a[n]);
    }
    assert(a =~= batch);
}

proof fn lemma_reading(log: Seq<EntryView>, reader: LogReader, batches: Seq<Seq<EntryView>>)
    requires
        in_order(log),
        reader.last_index < u64::MAX,
        reads(log, reader, batches),
    ensures
        reader_after(reader, batches).last_index == reader.last_index,
        entries_between(log, reader.start_index as int, reader.last_index + 1) == joined(batches)
            + entries_between(
            log,
            reader_after(reader, batches).start_index as int,
            reader.last_index + 1,
        ),
    decreases batches.len(),
{
    let end = reader.last_index + 1;
    let rest = entries_between(log, reader_after(reader, batches).start_index as int, end);
    if batches.len() > 0 {
        let before = batches.drop_last();
        let batch = batches.last();
        let at = reader_after(reader, before);
        lemma_reading(log, reader, before);
        lemma_answer(log, at.start_index as int, end, batch);
        assert(joined(before) + (batch + rest) =~= joined(batches) + rest);
    } else {
        assert(joined(batches) + rest =~= rest);
    }
}

/// A reading hands over exactly the entries from the one asked for to the last one, each once
/// and in order, whatever the size of a batch: where nothing more is to be read, the batches in
/// one are these. What is appended behind the last one while the reading goes on is left out.
pub proof fn law_read_gives_entries(
    log: Seq<EntryView>,
    reader: LogReader,
    batches: Seq<Seq<EntryView>>,
)
    requires
        in_order(log),
        reader.last_index < u64::MAX,
        reads(log, reader, batches),
    ensures
        joined(batches).is_prefix_of(
            entries_between(log, reader.start_index as int, reader.last_index + 1),
        ),
        !reader_after(reader, batches).has_more() ==> joined(batches) == entries_between(
            log,
            reader.start_index as int,
            reader.last_index + 1,
        ),
{
    let end = reader.last_index + 1;
    let next = reader_after(reader, batches).start_index as int;
    lemma_reading(log, reader, batches);
    if !reader_after(reader, batches).has_more() {
        lemma_between(log, next, end);
        if entries_between(log, next, end).len() > 0 {
            assert(entries_between(log, next, end)[0].id < end);
        }
        assert(joined(batches) + entries_between(log, next, end) =~= joined(batches));
    }
}

/// The identifiers of entries are without a gap.
pub open spec fn is_log(log: Seq<EntryView>) -> bool {
    forall|i: int| 0 <= i < log.len() ==> (#[trigger] log[i]).id == log[0].id + i
}

/// The log of a namespace, which is empty where nothing was appended to it.
pub open spec fn log_of(logs: Map<u64, Seq<EntryView>>, namespace_id: u64) -> Seq<EntryView> {
    if logs.contains_key(namespace_id) {
        logs[namespace_id]
    } else {
        Seq::empty()
    }
}

/// The engine takes entries behind a log: they are without a gap, begin where the log ends or
/// within it, and can be counted on.
pub open spec fn can_follow(log: Seq<EntryView>, entries: Seq<EntryView>) -> bool {
    &&& is_log(entries)
    &&& entries.len() > 0 && log.len() > 0 ==> log[0].id <= entries[0].id <= log.last().id + 1
    &&& entries.len() > 0 ==> entries.last().id < u64::MAX
}

/// The logs by namespace after entries were appended to one: they come behind the entries that
/// are before the first of them, and in the place of those from it on.
pub open spec fn logs_with(
    logs: Map<u64, Seq<EntryView>>,
    namespace_id: u64,
    entries: Seq<EntryView>,
) -> Map<u64, Seq<EntryView>> {
    if entries.len() == 0 {
        logs
    } else {
        logs.insert(
            namespace_id,
            entries_between(log_of(logs, namespace_id), 0, entries[0].id as int) + entries,
        )
    }
}

/// The batch is stored or not, as its entries could be put into it, the store runs, and the
/// engine takes it, which it does as a whole or not at all. `after` are the logs then.
pub open spec fn stores(
    store: RaftEngineLogstore,
    batch: EntryBatch,
    added: Result<(), String>,
    written: Result<(), String>,
    logs: Map<u64, Seq<EntryView>>,
    stored: Result<(), LogStoreError>,
    after: Map<u64, Seq<EntryView>>,
) -> bool {
    match store.readiness(added) {
        Err(e) => stored == Err::<(), LogStoreError>(e) && after == logs,
        Ok(_) => {
            &&& stored == written_outcome(written)
            &&& after == if written is Ok {
                logs_with(logs, batch.namespace_id, entries_view(batch.entries@))
            } else {
                logs
            }
        },
    }
}

/// An appending stores all entries of its batch, in the namespace of the batch, or none: where
/// it succeeds, they are the end of that namespace's log; where it fails, no log has changed.
/// It fails wherever the store does not run. The logs of other namespaces do not change.
pub proof fn law_append_stores_all_or_none(
    store: RaftEngineLogstore,
    batch: EntryBatch,
    added: Result<(), String>,
    written: Result<(), String>,
    logs: Map<u64, Seq<EntryView>>,
    stored: Result<(), LogStoreError>,
    after: Map<u64, Seq<EntryView>>,
    other: u64,
)
    requires
        stores(store, batch, added, written, logs, stored, after),
        other != batch.namespace_id,
    ensures
        stored is Ok <==> added is Ok && store.engine && written is Ok,
        added is Ok && !store.engine ==> stored == Err::<(), LogStoreError>(
            LogStoreError::IllegalState,
        ),
        stored is Err ==> after == logs,
        stored is Ok ==> entries_view(batch.entries@).is_suffix_of(
            log_of(after, batch.namespace_id),
        ),
        log_of(after, other) == log_of(logs, other),
{
    let entries = entries_view(batch.entries@);
    let log = log_of(after, batch.namespace_id);
    if stored is Ok {
        assert(log.skip(log.len() - entries.len()) =~= entries);
    }
}

/// What is before an identifier of a log without a gap is its front.
proof fn lemma_front(log: Seq<EntryView>, end: int)
    requires
        is_log(log),
        log.len() > 0,
        log[0].id <= end <= log.last().id + 1,
    ensures
        entries_between(log, 0, end) == log.take(end - log[0].id),
    decreases log.len(),
{
    let n = end - log[0].id;
    let last = log.len() - 1;
    assert(log[last].id == log[0].id + last);
    let rest = log.drop_last();
    assert forall|i: int| 0 <= i < rest.len() implies (#[trigger] rest[i]).id == rest[0].id + i by {
        assert(log[i].id == log[0].id + i);
    }
    if rest.len() == 0 {
        assert(entries_between(rest, 0, end) =~= Seq::<EntryView>::empty());
        assert(entries_between(log, 0, end) =~= log.take(n));
    } else if n == log.len() {
        assert(rest.last().id == log[0].id + last - 1);
        lemma_between_all(rest, end);
        assert(entries_between(log, 0, end) =~= log.take(n));
    } else {
        assert(rest.last() == log[last - 1]);
        assert(log[last - 1].id == log[0].id + last - 1);
        lemma_front(rest, end);
        assert(rest.take(n) =~= log.take(n));
    }
}

/// What is before an identifier behind a whole log is the log.
proof fn lemma_between_all(log: Seq<EntryView>, end: int)
    requires
        forall|i: int| 0 <= i < log.len() ==> (#[trigger] log[i]).id < end,
    ensures
        entries_between(log, 0, end) == log,
    decreases log.len(),
{
    if log.len() > 0 {
        let rest = log.drop_last();
        assert forall|i: int| 0 <= i < rest.len() implies (#[trigger] rest[i]).id < end by {
            assert(log[i].id < end);
        }
        lemma_between_all(rest, end);
        assert(log[log.len() - 1].id < end);
        assert(log =~= rest.push(log.last()));
    } else {
        assert(log =~= Seq::empty());
    }
}

/// A log without a gap to which entries were appended is without a gap, and ends with them.
proof fn lemma_appended(log: Seq<EntryView>, entries: Seq<EntryView>)
    requires
        is_log(log),
        can_follow(log, entries),
        entries.len() > 0,
    ensures
        is_log(entries_between(log, 0, entries[0].id as int) + entries),
{
    let first = entries[0].id as int;
    let front = entries_between(log, 0, first);
    let whole = front + entries;
    if log.len() > 0 {
        assert(log[log.len() - 1].id == log[0].id + log.len() - 1);
        lemma_front(log, first);
        assert forall|i: int| 0 <= i < whole.len() implies (#[trigger] whole[i]).id == whole[0].id
            + i by {
            if front.len() > 0 {
                assert(whole[0] == log[0]);
            } else {
                assert(whole[0] == entries[0]);
            }
            if i < front.len() {
                assert(whole[i] == log[i]);
            } else {
                assert(whole[i] == entries[i - front.len()]);
            }
        }
    } else {
        assert(whole =~= entries);
    }
}

/// Nothing lies between an identifier and itself.
proof fn lemma_between_none(log: Seq<EntryView>, at: int)
    ensures
        entries_between(log, at, at).len() == 0,
    decreases log.len(),
{
    if log.len() > 0 {
        lemma_between_none(log.drop_last(), at);
    }
}

/// A read gives back what was appended. After entries were stored in a namespace, a reading of
/// it to its end, by the store that stored them or by one that was opened later, gives the
/// entries before them from the one asked for on, and then them; asked for the first of them,
/// it gives exactly them. The log stays without a gap, so that more can be appended.
pub proof fn law_read_gives_back_appended(
    store: RaftEngineLogstore,
    batch: EntryBatch,
    added: Result<(), String>,
    written: Result<(), String>,
    logs: Map<u64, Seq<EntryView>>,
    stored: Result<(), LogStoreError>,
    after: Map<u64, Seq<EntryView>>,
    reader: LogReader,
    batches: Seq<Seq<EntryView>>,
)
    requires
        stores(store, batch, added, written, logs, stored, after),
        stored is Ok,
        batch.entries@.len() > 0,
        is_log(log_of(logs, batch.namespace_id)),
        can_follow(log_of(logs, batch.namespace_id), entries_view(batch.entries@)),
        reader.namespace_id == batch.namespace_id,
        reader.start_index <= batch.entries@[0].id,
        reader.last_index == log_of(after, batch.namespace_id).last().id,
        reads(log_of(after, batch.namespace_id), reader, batches),
        !reader_after(reader, batches).has_more(),
    ensures
        is_log(log_of(after, batch.namespace_id)),
        reader.last_index == batch.entries@.last().id,
        joined(batches) == entries_between(
            log_of(logs, batch.namespace_id),
            reader.start_index as int,
            batch.entries@[0].id as int,
        ) + entries_view(batch.entries@),
        reader.start_index == batch.entries@[0].id ==> joined(batches) == entries_view(
            batch.entries@,
        ),
{
    let log = log_of(logs, batch.namespace_id);
    let entries = entries_view(batch.entries@);
    let first = entries[0].id as int;
    let from = reader.start_index as int;
    let front = entries_between(log, 0, first);
    let whole = log_of(after, batch.namespace_id);
    assert(whole == front + entries);
    assert(entries.last() == batch.entries@.last()@);
    lemma_appended(log, entries);
    assert(in_order(whole)) by {
        assert forall|i: int, j: int| 0 <= i < j < whole.len() implies (#[trigger] whole[i]).id < (
        #[trigger] whole[j]).id by {}
    }
    assert(in_order(log)) by {
        assert forall|i: int, j: int| 0 <= i < j < log.len() implies (#[trigger] log[i]).id < (
        #[trigger] log[j]).id by {}
    }
    law_read_gives_entries(whole, reader, batches);
    lemma_between(log, 0, first);
    lemma_between_front(log, from, first);
    lemma_between_behind(front, entries, from, reader.last_index + 1, first);
    lemma_between_none(log, first);
    if from == first {
        assert(entries_between(log, from, first) + entries =~= entries);
    }
}

/// What is between two identifiers of what is before the second is what is between them.
proof fn lemma_between_front(log: Seq<EntryView>, first: int, end: int)
    requires
        0 <= first <= end,
    ensures
        entries_between(entries_between(log, 0, end), first, end) == entries_between(
            log,
            first,
            end,
        ),
    decreases log.len(),
{
    if log.len() > 0 {
        let rest = log.drop_last();
        lemma_between_front(rest, first, end);
        if 0 <= log.last().id < end {
            let front = entries_between(rest, 0, end);
            assert(front.push(log.last()).drop_last() =~= front);
        }
    }
}

/// What is from an identifier on to the last one of a log in two parts is what is of the first
/// part, and the second, which begins at a later one.
proof fn lemma_between_behind(
    front: Seq<EntryView>,
    entries: Seq<EntryView>,
    first: int,
    end: int,
    middle: int,
)
    requires
        first <= middle,
        forall|i: int| 0 <= i < front.len() ==> (#[trigger] front[i]).id < middle,
        forall|i: int| 0 <= i < entries.len() ==> middle <= (#[trigger] entries[i]).id < end,
        middle <= end,
    ensures
        entries_between(front + entries, first, end) == entries_between(front, first, middle)
            + entries,
    decreases entries.len(),
{
    if entries.len() == 0 {
        assert(front + entries =~= front);
        lemma_between_ends(front, first, middle, end);
        assert(entries_between(front, first, middle) + entries =~= entries_between(
            front,
            first,
            middle,
        ));
    } else {
        let rest = entries.drop_last();
        assert forall|i: int| 0 <= i < rest.len() implies middle <= (#[trigger] rest[i]).id < end by {
            assert(rest[i] == entries[i]);
        }
        lemma_between_behind(front, rest, first, end, middle);
        assert((front + entries).drop_last() =~= front + rest);
        assert((front + entries).last() == entries.last());
        assert(entries.last() == entries[entries.len() - 1]);
        assert(entries_between(front, first, middle) + entries =~= (entries_between(
            front,
            first,
            middle,
        ) + rest).push(entries.last()));
    }
}

/// Where all of a log is before an identifier, it does not matter which later one ends it.
proof fn lemma_between_ends(log: Seq<EntryView>, first: int, end: int, later: int)
    requires
        end <= later,
        forall|i: int| 0 <= i < log.len() ==> (#[trigger] log[i]).id < end,
    ensures
        entries_between(log, first, end) == entries_between(log, first, later),
    decreases log.len(),
{
    if log.len() > 0 {
        let rest = log.drop_last();
        assert forall|i: int| 0 <= i < rest.len() implies (#[trigger] rest[i]).id < end by {
            assert(rest[i] == log[i]);
        }
        lemma_between_ends(rest, first, end, later);
        assert(log[log.len() - 1].id < end);
    }
}

/// What an appending fails with tells where it failed: the entries could not be put into a
/// batch, the store does not run, or the engine did not take the batch; and the engine's own
/// words are kept.
pub proof fn law_appending_fails_where_it_does(
    store: RaftEngineLogstore,
    added: Result<(), String>,
    written: Result<(), String>,
)
    ensures
        store.readiness(added) is Ok <==> added is Ok && store.engine,
        added matches Err(reason) ==> store.readiness(added) == Err::<(), LogStoreError>(
            LogStoreError::AddEntryLogBatch(reason),
        ),
        added is Ok && !store.engine ==> store.readiness(added) == Err::<(), LogStoreError>(
            LogStoreError::IllegalState,
        ),
        written is Ok <==> written_outcome(written) is Ok,
        written matches Err(reason) ==> written_outcome(written) == Err::<(), LogStoreError>(
            LogStoreError::RaftEngine(reason),
        ),
{
}

/// Every entry of a batch is answered with its own identifier, at its own place, and is seen as
/// it is.
pub proof fn law_every_entry_is_answered(entries: Seq<Entry>, i: int)
    requires
        0 <= i < entries.len(),
    ensures
        entry_ids(entries).len() == entries.len(),
        entry_ids(entries)[i] == entries[i].id,
        entries_view(entries).len() == entries.len(),
        entries_view(entries)[i].id == entries[i].id,
        entries_view(entries)[i].namespace_id == entries[i].namespace_id,
        entries_view(entries)[i].data == entries[i].data@,
{
}

/// The entries between two identifiers are those of the log whose identifiers lie between them,
/// all of them and no other.
pub proof fn law_entries_between(log: Seq<EntryView>, first: int, end: int, e: EntryView)
    ensures
        entries_between(log, first, end).contains(e) <==> log.contains(e) && first <= e.id < end,
    decreases log.len(),
{
    let found = entries_between(log, first, end);
    if log.len() > 0 {
        let rest = log.drop_last();
        let before = entries_between(rest, first, end);
        law_entries_between(rest, first, end, e);
        if log.contains(e) && first <= e.id < end {
            let i = choose|i: int| 0 <= i < log.len() && log[i] == e;
            if i < rest.len() {
                assert(rest[i] == e);
                let j = choose|j: int| 0 <= j < before.len() && before[j] == e;
                assert(found[j] == e);
            } else {
                assert(found[found.len() - 1] == e);
            }
        }
        if found.contains(e) {
            let j = choose|j: int| 0 <= j < found.len() && found[j] == e;
            if j < before.len() {
                assert(before[j] == e);
                let i = choose|i: int| 0 <= i < rest.len() && rest[i] == e;
                assert(log[i] == e);
            } else {
                assert(log[log.len() - 1] == e);
            }
        }
    }
}

/// A reader asks for exactly the entries that it has not read, up to the last, of its namespace;
/// a batch moves it behind the batch's last entry and changes nothing else; and it goes on
/// exactly while there is an entry to ask for.
pub proof fn law_reader_asks_for_the_rest(reader: LogReader, batch: Seq<EntryView>, id: int)
    requires
        reader.last_index < u64::MAX,
        batch.len() > 0 ==> batch.last().id < u64::MAX,
    ensures
        reader.request().start_index <= id < reader.request().end_index <==> reader.start_index
            <= id <= reader.last_index,
        reader.request().namespace_id == reader.namespace_id,
        reader.request().max_batch_size == reader.max_batch_size,
        reader.after(batch).namespace_id == reader.namespace_id,
        reader.after(batch).last_index == reader.last_index,
        reader.after(batch).max_batch_size == reader.max_batch_size,
        batch.len() == 0 ==> reader.after(batch).start_index == reader.start_index,
        batch.len() > 0 ==> (reader.after(batch).start_index <= id <==> batch.last().id < id),
        reader.has_more() <==> reader.request().start_index < reader.request().end_index,
{
}

/// An entry that is appended is handed over as it is, alone and for its own namespace, and
/// answered with its own identifier; entries that are appended together are handed over
/// together, for the namespace that is named, and each is answered with its own. What the
/// storing failed with is the answer where it failed.
pub proof fn law_appended_entries_are_handed_over(
    store: RaftEngineLogstore,
    e: Entry,
    one: AppendRequest,
    ns: Namespace,
    entries: Vec<Entry>,
    many: AppendBatchRequest,
    stored: Result<(), LogStoreError>,
    one_answer: Result<u64, LogStoreError>,
    many_answer: Result<Vec<u64>, LogStoreError>,
    i: int,
)
    requires
        call_ensures(RaftEngineLogstore::append, (&store, e), one),
        call_ensures(RaftEngineLogstore::append_batch, (&store, &ns, entries), many),
        call_ensures(RaftEngineLogstore::append_answer, (&store, one, stored), one_answer),
        call_ensures(RaftEngineLogstore::append_batch_answer, (&store, many, stored), many_answer),
    ensures
        one.batch.namespace_id == e.namespace_id,
        one.batch.entries@.len() == 1,
        one.batch.entries@[0] == e,
        many.batch.namespace_id == ns.id,
        many.batch.entries@ == entries@,
        stored is Ok ==> one_answer == Ok::<u64, LogStoreError>(e.id),
        stored is Ok ==> (many_answer matches Ok(ids) && ids@.len() == entries@.len() && (0 <= i
            < entries@.len() ==> ids@[i] == entries@[i].id)),
        stored matches Err(reason) ==> one_answer == Err::<u64, LogStoreError>(reason)
            && many_answer == Err::<Vec<u64>, LogStoreError>(reason),
{
}

/// Whether a batch can be handed over, and what the handing over comes to, is as the parts say.
pub proof fn law_batch_is_stored_where_it_can_be(
    store: RaftEngineLogstore,
    added: Result<(), String>,
    ready: Result<(), LogStoreError>,
    outcome: Result<(), String>,
    written: Result<(), LogStoreError>,
)
    requires
        call_ensures(RaftEngineLogstore::batch_ready, (&store, added), ready),
        call_ensures(RaftEngineLogstore::written, (&store, outcome), written),
    ensures
        ready is Ok <==> added is Ok && store.engine,
        added matches Err(reason) ==> ready == Err::<(), LogStoreError>(
            LogStoreError::AddEntryLogBatch(reason),
        ),
        added is Ok && !store.engine ==> ready == Err::<(), LogStoreError>(
            LogStoreError::IllegalState,
        ),
        outcome is Ok ==> written is Ok,
        outcome matches Err(reason) ==> written == Err::<(), LogStoreError>(
            LogStoreError::RaftEngine(reason),
        ),
{
}

/// A store that was started runs, and one that was stopped in order does not; where the engine
/// cannot be opened or the task does not end, nothing changes and the reason is told. The set-up
/// never changes.
pub proof fn law_start_and_stop(
    store: &mut RaftEngineLogstore,
    outcome: Result<(), String>,
    r: Result<(), LogStoreError>,
)
    requires
        call_ensures(RaftEngineLogstore::opened, (store, outcome), r),
    ensures
        final(store).config == old(store).config,
        outcome is Ok ==> r is Ok && final(store).engine && final(store).started && final(store).cancel_token && final(store).gc_task_handle,
        outcome matches Err(reason) ==> *final(store) == *old(store) && r == Err::<
            (),
            LogStoreError,
        >(LogStoreError::RaftEngine(reason)),
{
}

/// A reader of a store that runs begins at the entry that is asked for, ends at the last that
/// there is, and reads the namespace that is named; one that does not run gives none.
pub proof fn law_reader_begins_where_asked(
    store: RaftEngineLogstore,
    ns: Namespace,
    id: u64,
    last_index: u64,
    r: Result<LogReader, LogStoreError>,
)
    requires
        call_ensures(RaftEngineLogstore::read, (&store, &ns, id, last_index), r),
    ensures
        store.engine ==> (r matches Ok(reader) && reader.namespace_id == ns.id
            && reader.start_index == id && reader.last_index == last_index
            && reader.max_batch_size == store.config.read_batch_size),
        !store.engine ==> r == Err::<LogReader, LogStoreError>(LogStoreError::IllegalState),
{
}

/// A reader goes on behind the batch that it got, and only while it has not read the last entry,
/// nothing failed and someone reads.
pub proof fn law_reader_goes_on(
    reader: &mut LogReader,
    batch: Vec<Entry>,
    failed: bool,
    reader_gone: bool,
    more: bool,
    next: FetchEntries,
)
    requires
        old(reader).last_index < u64::MAX,
        batch@.len() > 0,
        batch@.last().id < u64::MAX,
        call_ensures(LogReader::fetched, (reader, &batch), ()),
        call_ensures(LogReader::goes_on, (final(reader), failed, reader_gone), more),
        call_ensures(LogReader::fetch, (final(reader),), next),
    ensures
        next.start_index == batch@.last().id + 1,
        next.end_index == old(reader).last_index + 1,
        next.namespace_id == old(reader).namespace_id,
        next.max_batch_size == old(reader).max_batch_size,
        more <==> !failed && !reader_gone && batch@.last().id < old(reader).last_index,
{
    assert(entries_view(batch@).last() == batch@.last()@);
}

} // verus!

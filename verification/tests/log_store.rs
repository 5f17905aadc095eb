use std::collections::{BTreeMap, HashSet};

use greptimedb::log_store::{
    Entry, EntryBatch, FetchEntries, LogConfig, LogStoreError, Namespace, NamespaceWrite,
    RaftEngineLogstore, BATCH_COMPRESSION_THRESHOLD, SYSTEM_NAMESPACE,
};

/// What an engine keeps on disk.
#[derive(Default)]
struct Disk {
    keys: BTreeMap<Vec<u8>, Namespace>,
    /// The entries of each namespace, by their identifiers.
    logs: BTreeMap<u64, BTreeMap<u64, (u64, Vec<u8>)>>,
}

impl Disk {
    /// Takes a batch as a whole. It comes in the place of what was there from its first entry on.
    fn store(
        &mut self,
        store: &RaftEngineLogstore,
        batch: &EntryBatch,
    ) -> Result<(), LogStoreError> {
        store.batch_ready(Ok(()))?;
        if let Some(first) = batch.entries.first() {
            let log = self.logs.entry(batch.namespace_id).or_default();
            log.split_off(&first.id);
            for e in &batch.entries {
                log.insert(e.id, (e.namespace_id, e.data.clone()));
            }
        }
        store.written(Ok(()))
    }

    fn append(&mut self, store: &RaftEngineLogstore, e: Entry) -> Result<u64, LogStoreError> {
        let request = store.append(e);
        let stored = self.store(store, &request.batch);
        store.append_answer(request, stored)
    }

    fn append_batch(
        &mut self,
        store: &RaftEngineLogstore,
        ns: &Namespace,
        entries: Vec<Entry>,
    ) -> Result<Vec<u64>, LogStoreError> {
        let request = store.append_batch(ns, entries);
        let stored = self.store(store, &request.batch);
        store.append_batch_answer(request, stored)
    }

    fn last_index(&self, ns: u64) -> u64 {
        self.logs.get(&ns).and_then(|log| log.keys().last().copied()).unwrap_or(0)
    }

    /// At most `limit` entries of a range.
    fn fetch(&self, ask: &FetchEntries, limit: usize) -> Vec<Entry> {
        self.logs[&ask.namespace_id]
            .range(ask.start_index..ask.end_index)
            .take(limit)
            .map(|(id, (namespace_id, data))| Entry {
                id: *id,
                namespace_id: *namespace_id,
                data: data.clone(),
            })
            .collect()
    }

    fn read(&self, store: &RaftEngineLogstore, ns: &Namespace, id: u64) -> Vec<Vec<Entry>> {
        let mut reader = store.read(ns, id, self.last_index(ns.id)).unwrap();
        let mut batches = vec![];
        while reader.goes_on(false, false) {
            let batch = self.fetch(&reader.fetch(), 100);
            reader.fetched(&batch);
            batches.push(batch);
        }
        batches
    }

    fn write_namespace(&mut self, write: NamespaceWrite) {
        assert_eq!((write.log_id, write.sync), (SYSTEM_NAMESPACE, true));
        match write.namespace {
            Some(ns) => {
                self.keys.insert(write.key, ns);
            }
            None => assert!(self.keys.remove(&write.key).is_some()),
        }
    }

    fn namespaces(&self, store: &RaftEngineLogstore) -> Vec<Namespace> {
        let scan = store.list_namespaces().unwrap();
        assert_eq!(scan.log_id, SYSTEM_NAMESPACE);
        self.keys.range(scan.start_key..).map(|(_, ns)| store.namespace(ns.id)).collect()
    }
}

fn config() -> LogConfig {
    LogConfig {
        log_file_dir: "/tmp/wal".to_string(),
        max_log_file_size: 1 << 20,
        purge_threshold: 1 << 22,
        read_batch_size: 128,
    }
}

fn started() -> RaftEngineLogstore {
    let mut store = RaftEngineLogstore::new(config());
    assert!(store.start().is_some());
    store.opened(Ok(())).unwrap();
    store
}

#[test]
fn test_open_logstore() {
    let store = started();
    assert_eq!(0, Disk::default().namespaces(&store).len());
}

#[test]
fn test_manage_namespace() {
    let store = started();
    let mut disk = Disk::default();
    assert!(disk.namespaces(&store).is_empty());

    let write = store.create_namespace(&Namespace { id: 42 }).unwrap();
    assert_eq!(write.key, b"__sys_namespace_42");
    disk.write_namespace(write);
    let namespaces = disk.namespaces(&store);
    assert_eq!(1, namespaces.len());
    assert_eq!(Namespace { id: 42 }, namespaces[0]);

    disk.write_namespace(store.delete_namespace(&Namespace { id: 42 }).unwrap());
    assert!(disk.namespaces(&store).is_empty());
}

#[test]
fn test_append_and_read() {
    let store = started();
    let mut disk = Disk::default();
    let namespace = store.namespace(1);
    let cnt = 1024;
    for i in 0..cnt {
        let entry = store.entry(i.to_string().as_bytes(), i, namespace);
        assert_eq!(i, disk.append(&store, entry).unwrap());
    }
    let mut entries = HashSet::new();
    for batch in disk.read(&store, &namespace, 0) {
        entries.extend(batch.into_iter().map(|e| e.id));
    }
    assert_eq!((0..cnt).collect::<HashSet<_>>(), entries);
}

#[test]
fn test_reopen() {
    let mut disk = Disk::default();
    {
        let mut store = started();
        let entry = store.entry(b"1", 1, Namespace { id: 1 });
        disk.append(&store, entry).unwrap();
        assert_eq!(1, disk.read(&store, &Namespace { id: 1 }, 1).len());
        store.stop().unwrap();
        store.stopped(Ok(())).unwrap();
    }

    let store = started();
    let entries: Vec<Entry> =
        disk.read(&store, &Namespace { id: 1 }, 1).into_iter().flatten().collect();
    assert_eq!(1, entries.len());
    assert_eq!(1, entries[0].id);
    assert_eq!(1, entries[0].namespace_id);
}

#[test]
fn engine_is_opened_once() {
    let mut store = RaftEngineLogstore::new(config());
    let engine = store.start().unwrap();
    assert_eq!(engine.dir, "/tmp/wal");
    assert_eq!(engine.purge_threshold, 1 << 22);
    assert_eq!(engine.target_file_size, 1 << 20);
    assert_eq!(engine.batch_compression_threshold, BATCH_COMPRESSION_THRESHOLD);
    assert_eq!(
        store.opened(Err("locked".to_string())),
        Err(LogStoreError::RaftEngine("locked".to_string()))
    );
    assert!(store.start().is_some());
    store.opened(Ok(())).unwrap();
    assert!(store.start().is_none());
}

#[test]
fn a_store_that_does_not_run_answers_nothing() {
    let mut store = RaftEngineLogstore::new(config());
    let ns = Namespace { id: 1 };
    let illegal = LogStoreError::IllegalState;
    assert_eq!(store.list_namespaces().unwrap_err(), illegal);
    assert_eq!(store.create_namespace(&ns).unwrap_err(), illegal);
    assert_eq!(store.delete_namespace(&ns).unwrap_err(), illegal);
    assert_eq!(store.read(&ns, 0, 5).unwrap_err(), illegal);
    assert_eq!(store.obsolete(ns, 3).unwrap_err(), illegal);
    assert_eq!(store.batch_ready(Ok(())).unwrap_err(), illegal);
    assert_eq!(store.stop().unwrap_err(), illegal);
    assert_eq!(
        store.batch_ready(Err("too large".to_string())).unwrap_err(),
        LogStoreError::AddEntryLogBatch("too large".to_string())
    );
}

#[test]
fn stopping_waits_for_the_purging_task() {
    let mut store = started();
    store.stop().unwrap();
    assert_eq!(
        store.stopped(Err("panicked".to_string())),
        Err(LogStoreError::WaitGcTaskStop("panicked".to_string()))
    );
    assert!(store.engine);
    assert_eq!(store.stop().unwrap_err(), LogStoreError::IllegalState);
    store.stopped(Ok(())).unwrap();
    assert!(!store.engine && !store.started);
}

#[test]
fn obsolete_entries_are_given_up() {
    assert_eq!(started().obsolete(Namespace { id: 42 }, 4000), Ok((42, 4000)));
}

#[test]
fn reader_stops_after_a_failure_or_without_a_reader() {
    let mut reader = started().read(&Namespace { id: 3 }, 5, 9).unwrap();
    assert_eq!(
        reader.fetch(),
        FetchEntries { namespace_id: 3, start_index: 5, end_index: 10, max_batch_size: 128 }
    );
    assert!(reader.goes_on(false, false));
    assert!(!reader.goes_on(true, false));
    assert!(!reader.goes_on(false, true));
    reader.fetched(&vec![]);
    assert_eq!(reader.start_index, 5);
    reader.fetched(&vec![Entry { id: 9, namespace_id: 3, data: vec![] }]);
    assert!(!reader.goes_on(false, false));
}

#[test]
fn keys_of_namespaces_differ() {
    let store = started();
    let key = |id: u64| store.create_namespace(&Namespace { id }).unwrap().key;
    assert_ne!(key(4), key(42));
    assert_eq!(key(u64::MAX), b"__sys_namespace_18446744073709551615");
    assert!(key(0).starts_with(&store.list_namespaces().unwrap().start_key));
}

#[test]
fn reading_gives_the_entries_from_the_one_asked_for_to_the_last() {
    let store = started();
    let mut disk = Disk::default();
    let namespace = store.namespace(1);
    for i in 0..250u64 {
        let entry = store.entry(&i.to_be_bytes(), i, namespace);
        disk.append(&store, entry).unwrap();
    }
    let mut reader = store.read(&namespace, 7, disk.last_index(1)).unwrap();
    let mut read = vec![];
    while reader.goes_on(false, false) {
        let batch = disk.fetch(&reader.fetch(), 100);
        reader.fetched(&batch);
        read.extend(batch.into_iter().map(|e| (e.id, e.data)));
        let late = store.entry(b"late", disk.last_index(1) + 1, namespace);
        disk.append(&store, late).unwrap();
    }
    let expected: Vec<(u64, Vec<u8>)> =
        (7..250u64).map(|i| (i, i.to_be_bytes().to_vec())).collect();
    assert_eq!(expected, read);
}

#[test]
fn entry_is_appended_to_the_namespace_that_it_names() {
    let store = started();
    let request = store.append(Entry { id: 5, namespace_id: 9, data: vec![1] });
    assert_eq!((request.entry_id, request.batch.namespace_id), (5, 9));
    assert!(!request.batch.sync);
    assert_eq!(request.batch.entries, vec![Entry { id: 5, namespace_id: 9, data: vec![1] }]);
}

#[test]
fn batch_is_appended_to_the_namespace_of_the_call() {
    let store = started();
    let mut disk = Disk::default();
    let entry = |id: u64| Entry { id, namespace_id: 7, data: vec![id as u8] };
    let ns = Namespace { id: 3 };
    let ids = disk.append_batch(&store, &ns, vec![entry(4), entry(5), entry(6)]).unwrap();
    assert_eq!(ids, vec![4, 5, 6]);
    assert!(!disk.logs.contains_key(&7));
    let read = |disk: &Disk, id: u64| -> Vec<Entry> {
        disk.read(&store, &ns, id).into_iter().flatten().collect()
    };
    assert_eq!(read(&disk, 4), vec![entry(4), entry(5), entry(6)]);

    disk.append_batch(&store, &ns, vec![entry(6), entry(7)]).unwrap();
    assert_eq!(read(&disk, 6), vec![entry(6), entry(7)]);
    assert_eq!(read(&disk, 5), vec![entry(5), entry(6), entry(7)]);
    assert_eq!(disk.append_batch(&store, &ns, vec![]).unwrap(), Vec::<u64>::new());
    assert_eq!(read(&disk, 4).len(), 4);
}

#[test]
fn failed_appending_stores_nothing() {
    let stopped = RaftEngineLogstore::new(config());
    let mut disk = Disk::default();
    let entry = || Entry { id: 1, namespace_id: 1, data: vec![] };
    assert_eq!(disk.append(&stopped, entry()), Err(LogStoreError::IllegalState));
    assert_eq!(
        disk.append_batch(&stopped, &Namespace { id: 1 }, vec![entry()]),
        Err(LogStoreError::IllegalState)
    );
    assert!(disk.logs.is_empty());
    assert_eq!(
        started().written(Err("no space".to_string())),
        Err(LogStoreError::RaftEngine("no space".to_string()))
    );
}

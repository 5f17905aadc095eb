use greptimedb::trash::{
    collect, format_dropped_at, PutIfAbsent, RangeRequest, ScannedPair, TrashEntry, TrashEntryKey,
    TrashError, TrashKeyError, TrashManager, DROPPED_AT_WIDTH,
};

fn sample_entry(dropped_at: i64, retention: i64, table_id: u32) -> TrashEntry {
    TrashEntry {
        table_id,
        original_catalog: "greptime".to_string(),
        original_schema: "public".to_string(),
        original_name: "foo".to_string(),
        dropped_at_millis: dropped_at,
        retention_millis: retention,
    }
}

#[test]
fn key_round_trip() {
    let key = TrashEntryKey::new(1_714_118_400_000, 7);
    let bytes = key.to_bytes();
    let encoded = std::str::from_utf8(&bytes).unwrap();
    assert_eq!(
        encoded, "__trash/00000001714118400000/7",
        "dropped_at segment must be zero-padded to {DROPPED_AT_WIDTH} digits"
    );
    let decoded = TrashEntryKey::from_bytes(&bytes).unwrap();
    assert_eq!(decoded, key);
}

#[test]
fn key_negative_dropped_at_clamps_in_display() {
    let key = TrashEntryKey::new(-1, 1);
    let encoded = String::from_utf8(key.to_bytes()).unwrap();
    assert!(
        encoded.starts_with("__trash/00000000000000000000/"),
        "negative dropped_at should clamp to 0 in the key: {encoded}"
    );
}

#[test]
fn key_rejects_invalid_bytes() {
    assert!(TrashEntryKey::from_bytes(b"not_a_trash_key").is_err());
    assert!(TrashEntryKey::from_bytes(b"__trash/abc/1").is_err());
    assert!(TrashEntryKey::from_bytes(b"__trash/000/notanum").is_err());
    assert!(TrashEntryKey::from_bytes(b"__trash/000/").is_err());
    assert!(TrashEntryKey::from_bytes(b"__trash/000").is_err());
}

#[test]
fn key_error_says_why() {
    assert_eq!(TrashEntryKey::from_bytes(b"__trash/\xff/1"), Err(TrashKeyError::NotUtf8));
    assert_eq!(TrashEntryKey::from_bytes(b"__tras/0/1"), Err(TrashKeyError::MissingPrefix));
    assert_eq!(TrashEntryKey::from_bytes(b"__trash"), Err(TrashKeyError::MissingPrefix));
    assert_eq!(TrashEntryKey::from_bytes(b"__trash/000"), Err(TrashKeyError::MissingTableId));
    assert_eq!(TrashEntryKey::from_bytes(b"__trash/000/"), Err(TrashKeyError::InvalidTableId));
    assert_eq!(TrashEntryKey::from_bytes(b"__trash/0/1/2"), Err(TrashKeyError::InvalidTableId));
    assert_eq!(
        TrashEntryKey::from_bytes(b"__trash/abc/1"),
        Err(TrashKeyError::NonNumericDroppedAt { dropped_at: b"abc".to_vec() })
    );
    assert_eq!(
        TrashEntryKey::from_bytes(b"__trash/9223372036854775808/1"),
        Err(TrashKeyError::NonNumericDroppedAt { dropped_at: b"9223372036854775808".to_vec() })
    );
    assert_eq!(
        TrashEntryKey::from_bytes(b"__trash/1/4294967296"),
        Err(TrashKeyError::NonNumericTableId { table_id: b"4294967296".to_vec() })
    );
    assert_eq!(
        TrashEntryKey::from_bytes(b"__trash/-12/+4294967295"),
        Ok(TrashEntryKey::new(-12, u32::MAX))
    );
}

#[test]
fn lex_order_matches_chronological_order() {
    let mut keys = [
        TrashEntryKey::new(3_000, 1),
        TrashEntryKey::new(100, 2),
        TrashEntryKey::new(1_500, 3),
        TrashEntryKey::new(20, 4),
    ];
    keys.sort_by_key(|k| k.to_bytes());
    let stamps: Vec<_> = keys.iter().map(|k| k.dropped_at_millis).collect();
    assert_eq!(stamps, vec![20, 100, 1_500, 3_000]);
}

#[test]
fn upper_bound_excludes_cutoff() {
    let at_cutoff = TrashEntryKey::new(5_000, 1).to_bytes();
    let before = TrashEntryKey::new(4_999, 1).to_bytes();
    let bound = TrashEntryKey::upper_bound_for_cutoff(5_000);
    assert!(before < bound, "entries before cutoff are < bound");
    assert!(at_cutoff >= bound, "entries at cutoff are >= bound");
}

#[test]
fn expires_at_saturates() {
    let entry = TrashEntry {
        retention_millis: i64::MAX,
        dropped_at_millis: 100,
        ..sample_entry(100, 0, 42)
    };
    assert_eq!(entry.expires_at_millis(), i64::MAX);
    assert_eq!(sample_entry(100, 25, 1).expires_at_millis(), 125);
    assert_eq!(sample_entry(-2, i64::MIN, 1).expires_at_millis(), i64::MIN);
}

#[test]
fn dropped_at_is_padded() {
    assert_eq!(format_dropped_at(1_500), "00000000000000001500");
    assert_eq!(format_dropped_at(-7), "00000000000000000000");
    assert_eq!(format_dropped_at(i64::MAX), "09223372036854775807");
    assert_eq!(TrashEntryKey::new(3, 4).to_string(), "__trash/00000000000000000003/4");
    assert_eq!(TrashEntryKey::range_prefix(), b"__trash/".to_vec());
}

/// A store of pairs in memory.
struct Memory {
    pairs: std::collections::BTreeMap<Vec<u8>, TrashEntry>,
}

impl Memory {
    fn put(&mut self, put: PutIfAbsent, entry: &TrashEntry) -> bool {
        if self.pairs.contains_key(&put.key) {
            return false;
        }
        self.pairs.insert(put.key, entry.clone());
        true
    }

    fn scan(&self, range: RangeRequest) -> Vec<ScannedPair> {
        let inside = |key: &Vec<u8>| match &range {
            RangeRequest::Prefix { prefix } => key.starts_with(prefix),
            RangeRequest::Between { start, end } => key >= start && key < end,
        };
        let mut found = vec![];
        for (key, entry) in &self.pairs {
            if inside(key) {
                found.push(ScannedPair { key: key.clone(), value: Ok(entry.clone()) });
            }
        }
        found
    }
}

fn new_manager() -> TrashManager<Memory> {
    TrashManager::new(Memory { pairs: Default::default() })
}

fn insert(
    mgr: &mut TrashManager<Memory>,
    key: &TrashEntryKey,
    entry: &TrashEntry,
) -> Result<(), TrashError> {
    let put = mgr.insert(key, vec![]);
    let succeeded = mgr.kv_backend.put(put, entry);
    mgr.inserted(key, succeeded)
}

fn get(mgr: &TrashManager<Memory>, key: &TrashEntryKey) -> Option<TrashEntry> {
    let value = mgr.kv_backend.pairs.get(&mgr.get(key)).cloned().map(Ok);
    mgr.found(value).unwrap()
}

#[test]
fn insert_get_delete_round_trip() {
    let mut mgr = new_manager();
    let key = TrashEntryKey::new(1_000, 7);
    let entry = sample_entry(1_000, 1, 7);

    assert!(get(&mgr, &key).is_none());
    insert(&mut mgr, &key, &entry).unwrap();
    assert_eq!(get(&mgr, &key).as_ref(), Some(&entry));

    for raw in mgr.delete(&key) {
        mgr.kv_backend.pairs.remove(&raw);
    }
    assert!(get(&mgr, &key).is_none());
    // Delete is idempotent.
    for raw in mgr.delete(&key) {
        mgr.kv_backend.pairs.remove(&raw);
    }
    assert!(get(&mgr, &key).is_none());
}

#[test]
fn insert_rejects_duplicate_key() {
    let mut mgr = new_manager();
    let key = TrashEntryKey::new(1_000, 7);
    let entry = sample_entry(1_000, 1, 7);
    insert(&mut mgr, &key, &entry).unwrap();
    let err = insert(&mut mgr, &key, &entry).unwrap_err();
    assert_eq!(err, TrashError::AlreadyExists { key: key.to_bytes() });
}

#[test]
fn list_before_bounds_and_order() {
    let mut mgr = new_manager();
    let entries = [
        (TrashEntryKey::new(100, 1), sample_entry(100, 10, 1)),
        (TrashEntryKey::new(200, 2), sample_entry(200, 10, 2)),
        (TrashEntryKey::new(300, 3), sample_entry(300, 10, 3)),
        (TrashEntryKey::new(400, 4), sample_entry(400, 10, 4)),
    ];
    for (k, v) in &entries {
        insert(&mut mgr, k, v).unwrap();
    }

    // Cutoff at 300 excludes the entry at exactly 300.
    let plan = mgr.list_before(300, 0);
    let before = collect(mgr.kv_backend.scan(plan.range), plan.limit).unwrap();
    let stamps: Vec<_> = before.iter().map(|(k, _)| k.dropped_at_millis).collect();
    assert_eq!(stamps, vec![100, 200]);

    // Limit is respected.
    let plan = mgr.list_before(1_000, 2);
    let limited = collect(mgr.kv_backend.scan(plan.range), plan.limit).unwrap();
    assert_eq!(limited.len(), 2);
    assert_eq!(limited[0].0.dropped_at_millis, 100);
    assert_eq!(limited[1].0.dropped_at_millis, 200);
}

#[test]
fn list_all_returns_chronological_order() {
    let mut mgr = new_manager();
    for (millis, id) in [(500, 1), (100, 2), (300, 3)] {
        insert(&mut mgr, &TrashEntryKey::new(millis, id), &sample_entry(millis, 10, id)).unwrap();
    }

    let plan = mgr.list_all();
    let all = collect(mgr.kv_backend.scan(plan.range), plan.limit).unwrap();
    let stamps: Vec<_> = all.iter().map(|(k, _)| k.dropped_at_millis).collect();
    assert_eq!(stamps, vec![100, 300, 500]);
}

#[test]
fn lists_hold_what_is_kept() {
    let mut mgr = new_manager();
    for (millis, id) in [(500, 1), (100, 2), (300, 3), (300, 4)] {
        insert(&mut mgr, &TrashEntryKey::new(millis, id), &sample_entry(millis, 10, id)).unwrap();
    }
    insert(&mut mgr, &TrashEntryKey::new(300, 3), &sample_entry(300, 99, 3)).unwrap_err();
    for raw in mgr.delete(&TrashEntryKey::new(300, 4)) {
        mgr.kv_backend.pairs.remove(&raw);
    }
    mgr.kv_backend.pairs.insert(b"__other/1".to_vec(), sample_entry(1, 1, 1));

    let plan = mgr.list_all();
    let all = collect(mgr.kv_backend.scan(plan.range), plan.limit).unwrap();
    let expected: Vec<_> = [(100, 2), (300, 3), (500, 1)]
        .into_iter()
        .map(|(millis, id)| (TrashEntryKey::new(millis, id), sample_entry(millis, 10, id)))
        .collect();
    assert_eq!(all, expected);

    let plan = mgr.list_before(500, 1);
    let before = collect(mgr.kv_backend.scan(plan.range), plan.limit).unwrap();
    assert_eq!(before, expected[..1]);
}

#[test]
fn pairs_that_are_no_entries_fail_a_scan() {
    let good = || ScannedPair {
        key: TrashEntryKey::new(1, 2).to_bytes(),
        value: Ok(sample_entry(1, 1, 2)),
    };
    let bad_key = ScannedPair { key: b"other/1/2".to_vec(), value: Err("late".to_string()) };
    assert_eq!(
        collect(vec![good(), bad_key], Some(1)),
        Err(TrashError::InvalidKey {
            key: b"other/1/2".to_vec(),
            reason: TrashKeyError::MissingPrefix
        })
    );
    let bad_value = ScannedPair { value: Err("no entry".to_string()), ..good() };
    assert_eq!(
        collect(vec![good(), bad_value, good()], None),
        Err(TrashError::InvalidValue { message: "no entry".to_string() })
    );
    assert_eq!(collect(vec![good(), good(), good()], Some(2)).unwrap().len(), 2);
    assert!(new_manager().found(Some(Err("no entry".to_string()))).is_err());
}

use greptimedb::compaction::{
    handle_compaction_finished, manifest_updated, new_compaction_request, CompactedRegion,
    CompactionAction, CompactionError, CompactionFinished,
};
use greptimedb::file_purger::{FilePurgeHandler, FilePurgeRequest};
use greptimedb::region::RegionId;
use greptimedb::text::{
    append_decimal, ascii_string, bytes_equal, lex_less, parse_i64, parse_u32, parse_u64,
    push_bytes, push_decimal, push_zero_padded, text_equal,
};
use greptimedb::throttled::{Limiter, PollAction, Rate, State, ThrottledFuture};

#[test]
fn test_file_purger_handler() {
    let sst_file_name = "test-file-purge-handler.parquet";
    let mut files = vec![sst_file_name.to_string(), "other.parquet".to_string()];
    let request =
        FilePurgeRequest { region_id: 0, file_name: sst_file_name.to_string(), sst_layer: () };

    let handler = FilePurgeHandler;
    let file = handler.handle_request(&request);
    files.retain(|name| name != file);
    let purged = handler.request_handled::<String>(Ok(()));

    assert!(purged.release_token && purged.notify && purged.result.is_ok());
    assert!(!files.contains(&sst_file_name.to_string()));
    assert_eq!(files.len(), 1);
}

#[test]
fn file_that_stays_keeps_its_token() {
    let purged = FilePurgeHandler.request_handled(Err("denied"));
    assert!(!purged.release_token && !purged.notify);
    assert_eq!(purged.result, Err("denied"));
}

#[test]
fn purge_requests_are_told_apart_by_region_and_file() {
    let key = |region_id: u64, name: &str| {
        FilePurgeRequest { region_id, file_name: name.to_string(), sst_layer: () }.key()
    };
    assert_eq!(key(12, "a.parquet"), "12/a.parquet");
    assert_ne!(key(1, "2/a"), key(12, "/a"));
    assert_ne!(key(1, "a"), key(2, "a"));
}

fn finished() -> CompactionFinished<&'static str> {
    CompactionFinished {
        region_id: RegionId::new(1, 2),
        compaction_outputs: vec!["c"],
        compacted_files: vec!["a", "b"],
    }
}

#[test]
fn compaction_edits_the_region() {
    let edit = match handle_compaction_finished::<_, String>(true, finished()) {
        CompactionAction::UpdateManifest(edit) => edit,
        other => panic!("unexpected action: {other:?}"),
    };
    assert_eq!(edit.files_to_add, vec!["c"]);
    assert_eq!(edit.files_to_remove, vec!["a", "b"]);
    assert_eq!((edit.compaction_time_window, edit.flushed_entry_id), (None, None));
    match manifest_updated::<_, String>(edit, Ok(())) {
        CompactionAction::ApplyEdit(edit) => assert_eq!(edit.files_to_add, vec!["c"]),
        other => panic!("unexpected action: {other:?}"),
    }
}

#[test]
fn compaction_fails_without_region_or_manifest() {
    assert!(matches!(
        handle_compaction_finished::<_, String>(false, finished()),
        CompactionAction::Fail(CompactionError::RegionNotFound { region_id })
            if region_id == RegionId::new(1, 2)
    ));
    let edit = match handle_compaction_finished::<_, &str>(true, finished()) {
        CompactionAction::UpdateManifest(edit) => edit,
        other => panic!("unexpected action: {other:?}"),
    };
    assert!(matches!(
        manifest_updated(edit, Err("full")),
        CompactionAction::Fail(CompactionError::Manifest("full"))
    ));
}

#[test]
fn compaction_request_of_a_region() {
    let region = CompactedRegion {
        region_id: RegionId::new(3, 0),
        metadata: "meta",
        version: 4,
        access_layer: 'l',
        file_purger: true,
    };
    let request = new_compaction_request(region, "sender", vec![1u8]);
    assert_eq!(request.region_id, RegionId::new(3, 0));
    assert_eq!((request.region_metadata, request.current_version), ("meta", 4));
    assert_eq!((request.ttl, request.compaction_time_window), (None, None));
    assert_eq!((request.request_sender, request.waiters), ("sender", vec![1u8]));
    assert_eq!((request.access_layer, request.file_purger), ('l', true));
}

#[test]
fn throttled_future_takes_a_token_before_each_poll() {
    let mut future = ThrottledFuture::new();
    assert_eq!(future.limited(Ok(())), PollAction::PollInner);
    assert_eq!(future.polled(false), PollAction::Wait);
    assert_eq!(future.limited(Err(500)), PollAction::Sleep(500));
    assert_eq!(future.state, State::Backoff);
    assert_eq!(future.slept(false), PollAction::Wait);
    assert_eq!(future.slept(true), PollAction::WakeAgain);
    assert_eq!(future.state, State::Pending);
    assert_eq!(future.limited(Ok(())), PollAction::PollInner);
    assert_eq!(future.polled(true), PollAction::Ready);
}

#[test]
fn throttled_future_asks_the_limiter() {
    let hour: u64 = 3_600_000_000_000;
    let mut limiter = Limiter::new(Rate {
        refill_amount: 1,
        refill_interval_nanos: hour,
        max_tokens: 1,
        initial_available: 1,
    })
    .unwrap();
    let mut future = ThrottledFuture::new();
    assert_eq!(future.poll(&mut limiter), PollAction::PollInner);
    let action = future.poll(&mut limiter);
    assert!(matches!(action, PollAction::Sleep(nanos) if nanos <= hour as u128));
    assert_eq!(future.poll(&mut limiter), PollAction::PollSleep);
}

#[test]
fn limiters_need_a_sound_rate() {
    let rate = Rate {
        refill_amount: 10,
        refill_interval_nanos: 1_000_000,
        max_tokens: 20,
        initial_available: 20,
    };
    assert!(Limiter::new(rate).is_some());
    assert!(Limiter::new(Rate { refill_amount: 0, ..rate }).is_none());
    assert!(Limiter::new(Rate { refill_amount: 21, ..rate }).is_none());
    assert!(Limiter::new(Rate { refill_interval_nanos: 0, ..rate }).is_none());
    assert!(Limiter::new(Rate { refill_interval_nanos: u64::MAX, ..rate }).is_none());
    assert!(Limiter::new(Rate { initial_available: 21, ..rate }).is_none());
    assert!(Limiter::new(Rate { refill_interval_nanos: 1, ..rate }).is_none());
}

#[test]
fn numbers_as_text() {
    let mut out = Vec::new();
    push_decimal(&mut out, 0);
    push_bytes(&mut out, b",");
    push_decimal(&mut out, u64::MAX);
    push_bytes(&mut out, b",");
    push_zero_padded(&mut out, 42, 5);
    push_zero_padded(&mut out, 123456, 5);
    assert_eq!(out, b"0,18446744073709551615,00042123456");
    let mut text = "x".to_string();
    append_decimal(&mut text, 907);
    assert_eq!(text, "x907");
    assert_eq!(ascii_string(b"abc".to_vec()), "abc");
}

#[test]
fn text_as_numbers() {
    assert_eq!(parse_u64(b"18446744073709551615"), Some(u64::MAX));
    assert_eq!(parse_u64(b"18446744073709551616"), None);
    assert_eq!(parse_u64(b"+7"), Some(7));
    assert_eq!(parse_u64(b""), None);
    assert_eq!(parse_u64(b"7a"), None);
    assert_eq!(parse_u32(b"4294967295"), Some(u32::MAX));
    assert_eq!(parse_u32(b"4294967296"), None);
    assert_eq!(parse_i64(b"-9223372036854775808"), Some(i64::MIN));
    assert_eq!(parse_i64(b"9223372036854775808"), None);
    assert_eq!(parse_i64(b"-"), None);
}

#[test]
fn bytes_in_order() {
    assert!(lex_less(b"a", b"ab"));
    assert!(lex_less(b"ab", b"b"));
    assert!(!lex_less(b"b", b"b"));
    assert!(bytes_equal(b"xy", b"xy"));
    assert!(!bytes_equal(b"xy", b"x"));
    assert!(text_equal("true", "true"));
    assert!(!text_equal("true", "tru"));
}

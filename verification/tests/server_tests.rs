use kv_store::client::cli::{
    compact_lines, flush_line, get_line, remote_compact_lines, remote_flush_line, remote_get_line,
    remote_limit, remote_scan_line, remote_stats_lines, scan_line, stats_lines, watch_line,
    ClientConfig,
};
use kv_store::raft::node::{PersistentState, Role};
use kv_store::server::dashboard::{
    compact_body, dashboard_event, dashboard_scan_limit, delete_body, demo_body, demo_rows,
    flush_body, get_body, put_body, scan_body, watch_event_name, Import, ImportStep,
    RowResponseBody,
};
use kv_store::server::grpc::{
    compact_response, delete_reply, flush_response, get_response, put_reply, scan_limit,
    scan_responses, stats_response, storage_error_to_status, watch_item, FlushResponse,
    GetResponse, ScanResponse, ServerConfig, StatusCode, WatchResponse,
};
use kv_store::storage::{
    CompactionReport, IoError, IoErrorKind, SstableId, SstableMetadata, StorageError, StorageStats,
};

fn refusal() -> StorageError {
    StorageError::InvalidInput("no".to_string())
}

fn told(key: &str, value: &str, event: i32) -> WatchResponse {
    WatchResponse {
        key: key.to_string(),
        value: value.to_string(),
        event,
    }
}

fn metadata() -> SstableMetadata {
    SstableMetadata {
        id: SstableId(3),
        entry_count: 12,
        smallest_key: b"a".to_vec(),
        largest_key: b"z".to_vec(),
    }
}

fn report() -> CompactionReport {
    CompactionReport {
        flushed_memtable: true,
        input_sstables: 3,
        output_sstables: 1,
        input_entries: 9,
        output_entries: 4,
        dropped_entries: 5,
    }
}

fn stats() -> StorageStats {
    StorageStats {
        memtable_entries: 1,
        memtable_bytes: 20,
        flush_threshold_bytes: 300,
        should_flush: false,
        sstable_count: 4,
        bloom_filter_count: 2,
        next_sstable_id: 6,
    }
}

fn row(key: &str, value: &str) -> RowResponseBody {
    RowResponseBody {
        key: key.to_string(),
        value: value.to_string(),
    }
}

#[test]
fn the_defaults_of_server_and_client() {
    let server = ServerConfig::default();
    assert_eq!(server.listen_addr, "127.0.0.1:50051");
    assert_eq!(server.dashboard_addr, Some("127.0.0.1:8080".to_string()));
    assert_eq!(ClientConfig::default().endpoint, "http://127.0.0.1:50051");
}

#[test]
fn errors_become_statuses() {
    let cases = [
        (refusal(), StatusCode::InvalidArgument, "no"),
        (
            StorageError::CorruptWal("torn".to_string()),
            StatusCode::DataLoss,
            "torn",
        ),
        (
            StorageError::CorruptSstable("bad".to_string()),
            StatusCode::DataLoss,
            "bad",
        ),
        (
            StorageError::Io(IoError {
                kind: IoErrorKind::Other,
                message: "disk".to_string(),
            }),
            StatusCode::Internal,
            "disk",
        ),
    ];
    for (error, code, message) in cases {
        let status = storage_error_to_status(error);
        assert_eq!(status.code, code);
        assert_eq!(status.message, message);
    }
}

#[test]
fn lookups_are_answered_in_text() {
    let found = get_response(Some("wörld".as_bytes().to_vec()));
    assert!(found.found);
    assert_eq!(found.value, "wörld");
    let broken = get_response(Some(vec![b'a', 0xff]));
    assert_eq!(broken.value, "a\u{fffd}");
    let missing = get_response(None);
    assert!(!missing.found);
    assert_eq!(missing.value, "");
}

#[test]
fn scans_are_answered_in_text() {
    let rows = scan_responses(vec![
        (b"a".to_vec(), b"1".to_vec()),
        (b"b".to_vec(), vec![0xff]),
    ]);
    assert_eq!(
        rows,
        vec![
            ScanResponse {
                key: "a".to_string(),
                value: "1".to_string()
            },
            ScanResponse {
                key: "b".to_string(),
                value: "\u{fffd}".to_string()
            },
        ]
    );
    assert_eq!(scan_limit(0), usize::MAX);
    assert_eq!(scan_limit(7), 7);
}

#[test]
fn flushes_compactions_and_states_are_answered() {
    assert_eq!(
        flush_response(Some(metadata())),
        FlushResponse {
            flushed: true,
            sstable_id: 3,
            entries: 12
        }
    );
    assert_eq!(
        flush_response(None),
        FlushResponse {
            flushed: false,
            sstable_id: 0,
            entries: 0
        }
    );
    let compact = compact_response(report());
    assert!(compact.flushed_memtable);
    assert_eq!(compact.input_sstables, 3);
    assert_eq!(compact.output_sstables, 1);
    assert_eq!(compact.input_entries, 9);
    assert_eq!(compact.output_entries, 4);
    assert_eq!(compact.dropped_entries, 5);
    let state = stats_response(stats());
    assert_eq!(state.memtable_entries, 1);
    assert_eq!(state.memtable_bytes, 20);
    assert_eq!(state.flush_threshold_bytes, 300);
    assert!(!state.should_flush);
    assert_eq!(state.sstable_count, 4);
    assert_eq!(state.bloom_filter_count, 2);
    assert_eq!(state.next_sstable_id, 6);
}

#[test]
fn writes_are_announced_when_they_succeed() {
    let reply = put_reply("k".to_string(), "v".to_string(), Ok(()));
    assert!(reply.response.expect("success"));
    assert_eq!(reply.announce, Some(told("k", "v", 1)));

    let reply = delete_reply("k".to_string(), Ok(()));
    assert!(reply.response.expect("success"));
    assert_eq!(reply.announce, Some(told("k", "", 2)));

    let reply = put_reply("k".to_string(), "v".to_string(), Err(refusal()));
    assert!(reply.response.is_err());
    assert_eq!(reply.announce, None);

    let reply = delete_reply("k".to_string(), Err(refusal()));
    assert!(reply.response.is_err());
    assert_eq!(reply.announce, None);
}

#[test]
fn watchers_get_the_keys_with_their_prefix() {
    let item = watch_item("user:", Ok(told("user:1", "x", 1)));
    assert_eq!(item.expect("item").expect("event"), told("user:1", "x", 1));
    assert!(watch_item("user:", Ok(told("order:1", "x", 1))).is_none());
    assert!(watch_item("", Ok(told("order:1", "x", 1))).is_some());
    assert!(watch_item("user:", Ok(told("use", "x", 1))).is_none());

    let status = watch_item("user:", Err(17)).expect("item").err().expect("failure");
    assert_eq!(status.code, StatusCode::DataLoss);
    assert_eq!(status.message, "watch lagged by 17 events");
}

#[test]
fn the_dashboard_answers_lookups() {
    let body = get_body("k".to_string(), Ok(Some(b"v".to_vec())));
    assert!(body.found);
    assert_eq!(body.key, "k");
    assert_eq!(body.value, Some("v".to_string()));
    let body = get_body("k".to_string(), Ok(None));
    assert!(!body.found);
    assert_eq!(body.value, None);
    let body = get_body("k".to_string(), Err(refusal()));
    assert!(!body.found);
    assert_eq!(body.value, Some("error: invalid input: no".to_string()));
}

#[test]
fn the_dashboard_answers_scans() {
    assert_eq!(dashboard_scan_limit(None), 100);
    assert_eq!(dashboard_scan_limit(Some(499)), 499);
    assert_eq!(dashboard_scan_limit(Some(501)), 500);
    assert_eq!(
        scan_body(Ok(vec![(b"a".to_vec(), b"1".to_vec())])),
        vec![row("a", "1")]
    );
    assert_eq!(scan_body(Err(refusal())), vec![]);
}

#[test]
fn the_dashboard_answers_actions() {
    let reply = put_body("k".to_string(), "v".to_string(), Ok(()));
    assert!(reply.response.success);
    assert_eq!(reply.response.message, "stored k");
    assert_eq!(reply.announce, Some(told("k", "v", 1)));
    let reply = put_body("k".to_string(), "v".to_string(), Err(refusal()));
    assert!(!reply.response.success);
    assert_eq!(reply.response.message, "invalid input: no");
    assert_eq!(reply.announce, None);
    let reply = delete_body("k".to_string(), Ok(()));
    assert_eq!(reply.response.message, "deleted k");
    assert_eq!(reply.announce, Some(told("k", "", 2)));
    assert_eq!(
        flush_body(Ok(Some(metadata()))).message,
        "flushed SSTable 3 with 12 entries"
    );
    assert_eq!(flush_body(Ok(None)).message, "nothing to flush");
    assert!(!flush_body(Err(refusal())).success);
    assert_eq!(
        compact_body(Ok(report())).message,
        "compacted 3 SSTables into 1; dropped 5 entries"
    );
    assert_eq!(compact_body(Err(refusal())).message, "invalid input: no");
}

#[test]
fn events_have_names() {
    assert_eq!(watch_event_name(1), "put");
    assert_eq!(watch_event_name(2), "delete");
    assert_eq!(watch_event_name(0), "unknown");
    assert_eq!(watch_event_name(9), "unknown");
    let shown = dashboard_event(Ok(told("k", "v", 2))).expect("event");
    assert_eq!(shown.key, "k");
    assert_eq!(shown.value, "v");
    assert_eq!(shown.event, "delete");
    assert!(dashboard_event(Err(3)).is_none());
}

/// Runs an import whose puts of the given key fail.
fn import(rows: Vec<RowResponseBody>, failing: &str) -> (Vec<WatchResponse>, bool, usize, String) {
    let mut announced = Vec::new();
    let mut step = Import::start(rows);
    loop {
        match step {
            ImportStep::Done(body) => {
                return (announced, body.success, body.imported, body.message)
            }
            ImportStep::Put { import, key, .. } => {
                let result = if key == failing { Err(refusal()) } else { Ok(()) };
                let (next, event) = import.next(result);
                announced.extend(event);
                step = next;
            }
        }
    }
}

#[test]
fn imports_skip_rows_without_a_key() {
    let rows = vec![row("", "x"), row("a", "1"), row("", "y"), row("b", "2")];
    let (announced, success, imported, message) = import(rows, "none");
    assert_eq!(announced, vec![told("a", "1", 1), told("b", "2", 1)]);
    assert!(success);
    assert_eq!(imported, 2);
    assert_eq!(message, "imported 2 rows");
}

#[test]
fn imports_stop_at_the_first_failure() {
    let rows = vec![row("a", "1"), row("b", "2"), row("c", "3")];
    let (announced, success, imported, message) = import(rows, "b");
    assert_eq!(announced, vec![told("a", "1", 1)]);
    assert!(!success);
    assert_eq!(imported, 1);
    assert_eq!(message, "invalid input: no");
    let (_, success, imported, message) = import(vec![], "b");
    assert!(success);
    assert_eq!(imported, 0);
    assert_eq!(message, "imported 0 rows");
}

#[test]
fn the_demo_seeds_its_keys() {
    let rows = demo_rows();
    assert_eq!(rows.len(), 6);
    assert_eq!(rows[0], row("user:1", "alice"));
    assert_eq!(rows[5], row("feature:bloom", "enabled"));
    let mut step = Import::start(rows);
    let body = loop {
        match step {
            ImportStep::Done(body) => break body,
            ImportStep::Put { import, .. } => step = import.next(Ok(())).0,
        }
    };
    let response = demo_body(body);
    assert!(response.success);
    assert_eq!(response.message, "seeded demo keys");

    let failed = match Import::start(demo_rows()) {
        ImportStep::Put { import, .. } => import.next(Err(refusal())).0,
        ImportStep::Done(_) => panic!("nothing to put"),
    };
    match failed {
        ImportStep::Done(body) => {
            let response = demo_body(body);
            assert!(!response.success);
            assert_eq!(response.message, "invalid input: no");
        }
        ImportStep::Put { .. } => panic!("the import went on"),
    }
}

#[test]
fn what_the_client_prints() {
    assert_eq!(get_line(Some(b"v".to_vec())), "v");
    assert_eq!(get_line(None), "(not found)");
    let response = GetResponse {
        value: "v".to_string(),
        found: true,
    };
    assert_eq!(remote_get_line(response), "v");
    let response = GetResponse {
        value: String::new(),
        found: false,
    };
    assert_eq!(remote_get_line(response), "(not found)");
    assert_eq!(scan_line(b"k", b"\xff"), "k=\u{fffd}");
    let response = ScanResponse {
        key: "k".to_string(),
        value: "v".to_string(),
    };
    assert_eq!(remote_scan_line(&response), "k=v");
    assert_eq!(flush_line(Some(metadata())), "flushed sstable_id=3 entries=12");
    assert_eq!(flush_line(None), "nothing to flush");
    assert_eq!(
        remote_flush_line(flush_response(Some(metadata()))),
        "flushed sstable_id=3 entries=12"
    );
    assert_eq!(
        compact_lines(report()),
        vec![
            "flushed_memtable=true",
            "input_sstables=3",
            "output_sstables=1",
            "input_entries=9",
            "output_entries=4",
            "dropped_entries=5",
        ]
    );
    assert_eq!(
        remote_compact_lines(compact_response(report())),
        compact_lines(report())
    );
    assert_eq!(
        stats_lines(stats()),
        vec![
            "memtable_entries=1",
            "memtable_bytes=20",
            "flush_threshold_bytes=300",
            "should_flush=false",
            "sstable_count=4",
            "bloom_filter_count=2",
            "next_sstable_id=6",
        ]
    );
    assert_eq!(remote_stats_lines(stats_response(stats())), stats_lines(stats()));
    assert_eq!(watch_line(&told("k", "v", 1)), "PUT k=v");
    assert_eq!(watch_line(&told("k", "", 2)), "DELETE k");
    assert_eq!(watch_line(&told("k", "", 5)), "UNKNOWN k");
}

#[test]
fn the_limit_is_sent_in_32_bits() {
    assert_eq!(remote_limit(100), 100);
    assert_eq!(remote_limit(usize::MAX), u32::MAX);
}

#[test]
fn a_new_node_has_voted_for_nobody() {
    let state = PersistentState::default();
    assert_eq!(state.current_term, 0);
    assert_eq!(state.voted_for, None);
    assert_ne!(Role::Follower, Role::Leader);
}

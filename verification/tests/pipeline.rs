use sagittarius::api::{handle_ingest, handle_query, IngestReply};
use sagittarius::classify::{classify, get_event_type, Category};
use sagittarius::codec::{encode_stats, parse_stats};
use sagittarius::delivery::{restore_snapshot, settle_delivery, should_deliver, SpoolCommand};
use sagittarius::stats::Stats;
use sagittarius::store::{CounterRow, Store};

fn event_count(stats: &Stats, name: &str) -> Option<u64> {
    for (k, v) in stats.events.iter() {
        if k == name {
            return Some(*v);
        }
    }
    None
}

const SECRET: &str = "SECRET-REDACTED";

#[test]
fn classifier_by_prefix() {
    assert_eq!(get_event_type("KEY_A"), "KEY");
    assert_eq!(get_event_type("KEY_LEFTCTRL"), "KEY");
    assert_eq!(get_event_type("CLICK_LEFT"), "CLICK");
    assert_eq!(get_event_type("CLICK_OTHER"), "CLICK");
    assert_eq!(get_event_type("WHEEL_VERTICAL"), "WHEEL");
    assert_eq!(get_event_type("WHEEL_HORIZONTAL"), "WHEEL");
    assert_eq!(get_event_type("unknown key: 999"), "OTHER");
    assert_eq!(get_event_type(""), "OTHER");
    assert_eq!(get_event_type("KEY"), "OTHER");
    assert_eq!(get_event_type("KEYBOARD"), "OTHER");
    assert_eq!(get_event_type("key_a"), "OTHER");
}

#[test]
fn classifier_deterministic() {
    for name in ["KEY_Z", "CLICK_MIDDLE", "WHEEL_VERTICAL", "whatever"] {
        assert_eq!(classify(name), classify(name));
        assert_eq!(get_event_type(name), get_event_type(name));
    }
}

#[test]
fn totals_match_event_sums() {
    let mut stats = Stats::new();
    for _ in 0..3 {
        assert!(stats.record("KEY_A", 1));
    }
    assert!(stats.record("KEY_B", 2));
    assert!(stats.record("CLICK_LEFT", 1));
    assert!(stats.record("CLICK_LEFT", 1));
    assert!(stats.record("WHEEL_VERTICAL", 5));
    assert!(stats.record("SOMETHING_ELSE", 7));

    let mut keys: u64 = 0;
    let mut clicks: u64 = 0;
    let mut wheels: u64 = 0;
    for (name, count) in stats.events.iter() {
        match classify(name) {
            Category::Key => keys += count,
            Category::Click => clicks += count,
            Category::Wheel => wheels += count,
            Category::Other => {}
        }
    }
    assert_eq!(stats.total_keys, keys);
    assert_eq!(stats.total_clicks, clicks);
    assert_eq!(stats.total_wheels, wheels);
    assert_eq!(stats.total_keys, 5);
    assert_eq!(stats.total_clicks, 2);
    assert_eq!(stats.total_wheels, 5);
    assert_eq!(event_count(&stats, "SOMETHING_ELSE"), Some(7));
}

#[test]
fn record_rejects_overflow_and_keeps_state() {
    let mut stats = Stats::new();
    assert!(stats.record("KEY_A", u64::MAX));
    assert!(!stats.record("KEY_A", 1));
    assert_eq!(stats.total_keys, u64::MAX);
    assert_eq!(event_count(&stats, "KEY_A"), Some(u64::MAX));
}

#[test]
fn button_and_wheel_recording() {
    let mut stats = Stats::new();
    assert!(stats.record_button_press(0x110));
    assert!(stats.record_button_press(0x111));
    assert!(stats.record_button_press(0x112));
    assert!(stats.record_button_press(0x999));
    assert!(stats.record_wheel(false, 2));
    assert!(stats.record_wheel(true, 1));
    assert_eq!(stats.total_clicks, 4);
    assert_eq!(stats.total_wheels, 3);
    assert_eq!(event_count(&stats, "CLICK_LEFT"), Some(1));
    assert_eq!(event_count(&stats, "CLICK_RIGHT"), Some(1));
    assert_eq!(event_count(&stats, "CLICK_MIDDLE"), Some(1));
    assert_eq!(event_count(&stats, "CLICK_OTHER"), Some(1));
    assert_eq!(event_count(&stats, "WHEEL_VERTICAL"), Some(2));
    assert_eq!(event_count(&stats, "WHEEL_HORIZONTAL"), Some(1));
}

#[test]
fn key_press_goes_through_the_key_table() {
    let mut stats = Stats::new();
    // code 30 is the canonical "KEY_A" in the fixed key table
    assert!(stats.record_key_press(30));
    assert_eq!(stats.total_keys, 1);
    assert_eq!(event_count(&stats, "KEY_A"), Some(1));
}

#[test]
fn encode_exact_document() {
    let mut stats = Stats::new();
    assert!(stats.record("KEY_A", 3));
    assert!(stats.record("CLICK_LEFT", 2));
    let body = encode_stats(&stats);
    assert_eq!(
        body,
        "{\"total_keys\":3,\"total_clicks\":2,\"total_wheels\":0,\
         \"events\":{\"KEY_A\":3,\"CLICK_LEFT\":2}}"
    );
}

#[test]
fn encode_is_valid_json() {
    let mut stats = Stats::new();
    assert!(stats.record("KEY_A", 3));
    assert!(stats.record("WHEEL_VERTICAL", 9));
    let body = encode_stats(&stats);
    let v: serde_json::Value = serde_json::from_str(&body).unwrap();
    assert_eq!(v["total_keys"].as_u64(), Some(3));
    assert_eq!(v["total_clicks"].as_u64(), Some(0));
    assert_eq!(v["total_wheels"].as_u64(), Some(9));
    assert_eq!(v["events"]["KEY_A"].as_u64(), Some(3));
    assert_eq!(v["events"]["WHEEL_VERTICAL"].as_u64(), Some(9));
    assert_eq!(v["events"].as_object().unwrap().len(), 2);
}

#[test]
fn round_trip_simple() {
    let mut stats = Stats::new();
    assert!(stats.record("KEY_A", 3));
    assert!(stats.record("CLICK_LEFT", 2));
    assert!(stats.record("zz plain key!", 1));
    let body = encode_stats(&stats);
    let back = parse_stats(&body).unwrap();
    assert_eq!(back.total_keys, stats.total_keys);
    assert_eq!(back.total_clicks, stats.total_clicks);
    assert_eq!(back.total_wheels, stats.total_wheels);
    assert_eq!(back.events, stats.events);
}

#[test]
fn round_trip_empty() {
    let stats = Stats::new();
    let body = encode_stats(&stats);
    assert_eq!(body, "{\"total_keys\":0,\"total_clicks\":0,\"total_wheels\":0,\"events\":{}}");
    let back = parse_stats(&body).unwrap();
    assert_eq!(back.total_keys, 0);
    assert!(back.events.is_empty());
}

#[test]
fn round_trip_extremes() {
    let mut stats = Stats::new();
    assert!(stats.record("KEY_MAX", u64::MAX));
    assert!(stats.record("WHEEL_VERTICAL", 0));
    let body = encode_stats(&stats);
    let back = parse_stats(&body).unwrap();
    assert_eq!(back.events, stats.events);
    assert_eq!(back.total_keys, u64::MAX);
    assert_eq!(event_count(&back, "WHEEL_VERTICAL"), Some(0));
}

#[test]
fn parse_rejects_malformed() {
    assert!(parse_stats("").is_none());
    assert!(parse_stats("{}").is_none());
    assert!(parse_stats("{\"total_keys\":1}").is_none());
    // leading zero is not canonical
    assert!(parse_stats(
        "{\"total_keys\":01,\"total_clicks\":0,\"total_wheels\":0,\"events\":{}}"
    )
    .is_none());
    // number beyond the counter width
    assert!(parse_stats(
        "{\"total_keys\":18446744073709551616,\"total_clicks\":0,\"total_wheels\":0,\"events\":{}}"
    )
    .is_none());
    // trailing garbage
    assert!(parse_stats(
        "{\"total_keys\":0,\"total_clicks\":0,\"total_wheels\":0,\"events\":{}} "
    )
    .is_none());
    // a repeated key
    assert!(parse_stats(
        "{\"total_keys\":0,\"total_clicks\":0,\"total_wheels\":0,\
         \"events\":{\"A\":1,\"A\":2}}"
    )
    .is_none());
    // an escape in a key is outside the plain charset
    assert!(parse_stats(
        "{\"total_keys\":0,\"total_clicks\":0,\"total_wheels\":0,\
         \"events\":{\"A\\\"B\":1}}"
    )
    .is_none());
}

#[test]
fn parse_largest_count() {
    let body = "{\"total_keys\":18446744073709551615,\"total_clicks\":0,\"total_wheels\":0,\
                \"events\":{}}";
    let back = parse_stats(body).unwrap();
    assert_eq!(back.total_keys, u64::MAX);
}

#[test]
fn spool_cycle_after_failed_delivery() {
    let mut stats = Stats::new();
    assert!(stats.record("KEY_A", 3));
    assert!(stats.record("CLICK_LEFT", 2));
    assert!(should_deliver(&stats));

    // the transport failed: counters stay, the snapshot goes to the spool
    let spool_text = encode_stats(&stats);
    let cmd = settle_delivery(&mut stats, false);
    assert_eq!(cmd, SpoolCommand::Save);
    assert_eq!(stats.total_keys, 3);

    // simulated restart: the agent resumes from the spool, not from zero
    let mut restored = restore_snapshot(Some(&spool_text));
    assert_eq!(restored.total_keys, 3);
    assert_eq!(restored.total_clicks, 2);
    assert_eq!(event_count(&restored, "KEY_A"), Some(3));
    assert!(restored.record("KEY_A", 1));
    assert_eq!(event_count(&restored, "KEY_A"), Some(4));
    assert_eq!(restored.total_keys, 4);
}

#[test]
fn spool_restore_tolerates_damage() {
    let restored = restore_snapshot(Some("not a snapshot"));
    assert_eq!(restored.total_keys, 0);
    assert!(restored.events.is_empty());
    let restored2 = restore_snapshot(None);
    assert_eq!(restored2.total_clicks, 0);
}

#[test]
fn successful_delivery_resets() {
    let mut stats = Stats::new();
    assert!(stats.record("KEY_A", 1));
    let cmd = settle_delivery(&mut stats, true);
    assert_eq!(cmd, SpoolCommand::Clear);
    assert_eq!(stats.total_keys, 0);
    assert!(stats.events.is_empty());
    assert!(!should_deliver(&stats));
}

#[test]
fn ingest_and_query_full_window() {
    // the agent side accumulates, then delivers
    let mut agent = Stats::new();
    assert!(agent.record("KEY_A", 3));
    assert!(agent.record("CLICK_LEFT", 2));
    let body = encode_stats(&agent.snapshot());

    let mut store = Store::new();
    let reply = handle_ingest(&mut store, Some(SECRET), SECRET, &body, 1000);
    assert_eq!(reply, IngestReply::Accepted { events_processed: 2 });

    let report = handle_query(&store, Some(SECRET), SECRET).unwrap();
    assert_eq!(report.total_keys, 3);
    assert_eq!(report.total_clicks, 2);
    assert_eq!(report.total_wheels, 0);
    assert_eq!(report.first_sync, Some(1000));
    assert_eq!(report.last_sync, Some(1000));
    assert_eq!(report.events.len(), 2);
    let key_a = report.events.iter().find(|e| e.name == "KEY_A").unwrap();
    assert_eq!(key_a.event_type, Category::Key);
    assert_eq!(key_a.count, 3);
    let left = report.events.iter().find(|e| e.name == "CLICK_LEFT").unwrap();
    assert_eq!(left.event_type, Category::Click);
    assert_eq!(left.count, 2);
}

#[test]
fn repeated_deliveries_accumulate() {
    let body = "{\"total_keys\":1,\"total_clicks\":0,\"total_wheels\":0,\"events\":{\"A\":1}}";
    let mut store = Store::new();
    assert_eq!(
        handle_ingest(&mut store, Some(SECRET), SECRET, body, 10),
        IngestReply::Accepted { events_processed: 1 }
    );
    assert_eq!(
        handle_ingest(&mut store, Some(SECRET), SECRET, body, 20),
        IngestReply::Accepted { events_processed: 1 }
    );
    assert_eq!(store.rows.len(), 1);
    assert_eq!(store.rows[0].event_name, "A");
    assert_eq!(store.rows[0].count, 2);
    assert_eq!(store.first_sync, Some(10));
    assert_eq!(store.last_sync, Some(20));
}

#[test]
fn server_rederives_event_types() {
    // the client-sent totals are informational; the type is derived server-side
    let body = "{\"total_keys\":999,\"total_clicks\":0,\"total_wheels\":0,\
                \"events\":{\"WHEEL_VERTICAL\":4,\"MYSTERY\":1}}";
    let mut store = Store::new();
    handle_ingest(&mut store, Some(SECRET), SECRET, body, 5);
    let report = handle_query(&store, Some(SECRET), SECRET).unwrap();
    // stored totals come from the rows alone, never from the wire totals
    assert_eq!(report.total_keys, 0);
    assert_eq!(report.total_wheels, 4);
    let wheel = report.events.iter().find(|e| e.name == "WHEEL_VERTICAL").unwrap();
    assert_eq!(wheel.event_type, Category::Wheel);
    let mystery = report.events.iter().find(|e| e.name == "MYSTERY").unwrap();
    assert_eq!(mystery.event_type, Category::Other);
}

#[test]
fn query_sorted_by_count_descending() {
    let body = "{\"total_keys\":0,\"total_clicks\":0,\"total_wheels\":0,\
                \"events\":{\"A\":2,\"B\":9,\"C\":5,\"D\":9}}";
    let mut store = Store::new();
    handle_ingest(&mut store, Some(SECRET), SECRET, body, 5);
    let report = handle_query(&store, Some(SECRET), SECRET).unwrap();
    let counts: Vec<u64> = report.events.iter().map(|e| e.count).collect();
    assert_eq!(counts.len(), 4);
    for w in counts.windows(2) {
        assert!(w[0] >= w[1]);
    }
    assert_eq!(counts[0], 9);
    assert_eq!(counts[3], 2);
}

#[test]
fn wrong_secret_changes_nothing() {
    let body = "{\"total_keys\":1,\"total_clicks\":0,\"total_wheels\":0,\"events\":{\"A\":1}}";
    let mut store = Store::new();
    handle_ingest(&mut store, Some(SECRET), SECRET, body, 1);

    let before_rows: Vec<(String, u64)> =
        store.rows.iter().map(|r| (r.event_name.clone(), r.count)).collect();
    let before_first = store.first_sync;
    let before_last = store.last_sync;

    assert_eq!(
        handle_ingest(&mut store, Some("wrong"), SECRET, body, 2),
        IngestReply::Unauthorized
    );
    assert_eq!(
        handle_ingest(&mut store, None, SECRET, body, 3),
        IngestReply::Unauthorized
    );
    assert!(handle_query(&store, Some("wrong"), SECRET).is_none());
    assert!(handle_query(&store, None, SECRET).is_none());

    let after_rows: Vec<(String, u64)> =
        store.rows.iter().map(|r| (r.event_name.clone(), r.count)).collect();
    assert_eq!(before_rows, after_rows);
    assert_eq!(before_first, store.first_sync);
    assert_eq!(before_last, store.last_sync);
}

#[test]
fn malformed_body_is_rejected_without_mutation() {
    let mut store = Store::new();
    assert_eq!(
        handle_ingest(&mut store, Some(SECRET), SECRET, "{\"nope\":1}", 1),
        IngestReply::BadRequest
    );
    assert!(store.rows.is_empty());
    assert_eq!(store.last_sync, None);
}

#[test]
fn overfull_store_rolls_back_whole_merge() {
    let body_max = format!(
        "{{\"total_keys\":0,\"total_clicks\":0,\"total_wheels\":0,\"events\":{{\"A\":{}}}}}",
        u64::MAX
    );
    let body_more = "{\"total_keys\":0,\"total_clicks\":0,\"total_wheels\":0,\
                     \"events\":{\"B\":7,\"A\":1}}";
    let mut store = Store::new();
    assert_eq!(
        handle_ingest(&mut store, Some(SECRET), SECRET, &body_max, 1),
        IngestReply::Accepted { events_processed: 1 }
    );
    // the second snapshot cannot fit; neither of its pairs may land
    assert_eq!(
        handle_ingest(&mut store, Some(SECRET), SECRET, body_more, 2),
        IngestReply::ServerError
    );
    assert_eq!(store.rows.len(), 1);
    assert_eq!(store.rows[0].count, u64::MAX);
    assert_eq!(store.last_sync, Some(1));
}

#[test]
fn sync_marks_first_set_once_last_refreshed() {
    let body = "{\"total_keys\":0,\"total_clicks\":0,\"total_wheels\":0,\"events\":{}}";
    let mut store = Store::new();
    let report0 = handle_query(&store, Some(SECRET), SECRET).unwrap();
    assert_eq!(report0.first_sync, None);
    assert_eq!(report0.last_sync, None);
    handle_ingest(&mut store, Some(SECRET), SECRET, body, 100);
    handle_ingest(&mut store, Some(SECRET), SECRET, body, 200);
    handle_ingest(&mut store, Some(SECRET), SECRET, body, 300);
    let report = handle_query(&store, Some(SECRET), SECRET).unwrap();
    assert_eq!(report.first_sync, Some(100));
    assert_eq!(report.last_sync, Some(300));
}

#[test]
fn snapshot_is_a_faithful_copy() {
    let mut stats = Stats::new();
    assert!(stats.record("KEY_A", 2));
    let copy = stats.snapshot();
    assert!(stats.record("KEY_A", 1));
    assert_eq!(event_count(&copy, "KEY_A"), Some(2));
    assert_eq!(event_count(&stats, "KEY_A"), Some(3));
}

#[test]
fn classifier_prefix_boundaries() {
    // an identifier that is exactly a prefix still belongs to the category
    assert_eq!(get_event_type("KEY_"), "KEY");
    assert_eq!(get_event_type("CLICK_"), "CLICK");
    assert_eq!(get_event_type("WHEEL_"), "WHEEL");
    // one character short of a prefix does not
    assert_eq!(get_event_type("CLICK"), "OTHER");
    assert_eq!(get_event_type("WHEEL"), "OTHER");
}

#[test]
fn parse_rejects_truncated() {
    let full = "{\"total_keys\":3,\"total_clicks\":2,\"total_wheels\":0,\
                \"events\":{\"KEY_A\":3,\"CLICK_LEFT\":2}}";
    assert!(parse_stats(full).is_some());
    for cut in 1..full.len() {
        assert!(parse_stats(&full[..full.len() - cut]).is_none());
    }
}

#[test]
fn key_table_names_survive_the_spool() {
    // names from the key table — listed ("KEY_A") or the fallback for an
    // unlisted code — are all in the plain wire alphabet, so a spooled
    // snapshot of real key presses restores exactly
    let mut stats = Stats::new();
    assert!(stats.record_key_press(30));
    assert!(stats.record_key_press(30));
    assert!(stats.record_key_press(65535));
    let spool_text = encode_stats(&stats);
    let restored = restore_snapshot(Some(&spool_text));
    assert_eq!(restored.total_keys, stats.total_keys);
    assert_eq!(restored.events, stats.events);
    assert_eq!(event_count(&restored, "KEY_A"), Some(2));
    assert_eq!(event_count(&restored, "unknown key: 65535"), Some(1));
}

#[test]
fn from_rows_sanitizes_untrusted_rows() {
    let rows = vec![
        CounterRow {
            event_name: "KEY_A".to_string(),
            // a wrong stored type is never trusted; it is re-derived
            event_type: Category::Other,
            count: 5,
            created_at: 1,
            updated_at: 2,
        },
        CounterRow {
            event_name: "KEY_A".to_string(),
            event_type: Category::Key,
            count: 7,
            created_at: 3,
            updated_at: 4,
        },
        CounterRow {
            event_name: "CLICK_LEFT".to_string(),
            event_type: Category::Click,
            count: u64::MAX,
            created_at: 5,
            updated_at: 6,
        },
    ];
    let store = Store::from_rows(rows, Some(10), Some(20));
    // the repeated name keeps its first row; the row that cannot fit is dropped
    assert_eq!(store.rows.len(), 1);
    assert_eq!(store.rows[0].event_name, "KEY_A");
    assert_eq!(store.rows[0].event_type, Category::Key);
    assert_eq!(store.rows[0].count, 5);
    assert_eq!(store.first_sync, Some(10));
    assert_eq!(store.last_sync, Some(20));
}

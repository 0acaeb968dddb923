use bridge_backend::catalog::get_bridge;
use bridge_backend::handlers::{bridge_or_not_found, recent_result_source, upload_outcome, BridgeQuery, RecentSource, UploadOutcome, BRIDGE_NOT_FOUND};
use bridge_backend::recent::RecentResults;
use bridge_backend::response::{current_time, timestamp_from_epoch, ApiResponse, Timestamp, MAX_TIMESTAMP_SECS};

fn catalog() -> Vec<String> {
    vec![
        "luding".to_string(),
        "jihong".to_string(),
        "luding".to_string(),
        "anlan".to_string(),
    ]
}

#[test]
fn get_bridge_finds_first_match() {
    let ids = catalog();
    assert_eq!(get_bridge(&ids, "luding"), Some(0));
    assert_eq!(get_bridge(&ids, "jihong"), Some(1));
    assert_eq!(get_bridge(&ids, "anlan"), Some(3));
}

#[test]
fn get_bridge_unknown_or_empty() {
    let ids = catalog();
    assert_eq!(get_bridge(&ids, "golden_gate"), None);
    assert_eq!(get_bridge(&ids, ""), None);
    assert_eq!(get_bridge(&Vec::new(), "luding"), None);
}

#[test]
fn ok_envelope_carries_data() {
    let r = ApiResponse::ok(vec![1u32, 2, 3]);
    assert!(r.success);
    assert_eq!(r.data, Some(vec![1, 2, 3]));
    assert_eq!(r.error, None);
    let t = r.timestamp.expect("the test machine's clock reads after 1970");
    assert!(t.secs > 0);
    assert!(t.nanos < 1_000_000_000);
}

#[test]
fn err_envelope_carries_message() {
    let r: ApiResponse<u8> = ApiResponse::err("boom");
    assert!(!r.success);
    assert_eq!(r.data, None);
    assert_eq!(r.error, Some("boom".to_string()));
    let t = r.timestamp.expect("the test machine's clock reads after 1970");
    assert!(t.secs > 0);
    assert!(t.nanos < 1_000_000_000);
}

#[test]
fn bridge_or_not_found_scenarios() {
    let ids = catalog();
    match bridge_or_not_found::<u8>(&ids, "anlan") {
        Ok(i) => assert_eq!(i, 3),
        Err(_) => panic!("anlan is in the catalogue"),
    }
    match bridge_or_not_found::<u8>(&ids, "nowhere") {
        Ok(_) => panic!("nowhere is not in the catalogue"),
        Err(resp) => {
            assert!(!resp.success);
            assert_eq!(resp.data, None);
            assert_eq!(resp.error.as_deref(), Some("Bridge not found"));
            assert_eq!(BRIDGE_NOT_FOUND, "Bridge not found");
        }
    }
}

#[test]
fn bridge_query_holds_id() {
    let q = BridgeQuery { bridge_id: "jihong".to_string() };
    assert_eq!(get_bridge(&catalog(), &q.bridge_id), Some(1));
}

#[test]
fn cache_read_after_write() {
    let mut cache: RecentResults<u32> = RecentResults::new();
    assert_eq!(cache.get("luding"), None);
    cache.insert("luding".to_string(), 7);
    assert_eq!(cache.get("luding"), Some(&7));
    assert_eq!(cache.get("anlan"), None);
    cache.insert("anlan".to_string(), 9);
    cache.insert("luding".to_string(), 11);
    assert_eq!(cache.get("luding"), Some(&11));
    assert_eq!(cache.get("anlan"), Some(&9));
}

#[test]
fn recent_source_three_outcomes() {
    let ids = catalog();
    let mut cache: RecentResults<u32> = RecentResults::new();
    cache.insert("jihong".to_string(), 5);
    match recent_result_source(&cache, &ids, "jihong") {
        RecentSource::Cached(v) => assert_eq!(*v, 5),
        _ => panic!("jihong is recorded"),
    }
    match recent_result_source(&cache, &ids, "anlan") {
        RecentSource::Evaluate(i) => assert_eq!(i, 3),
        _ => panic!("anlan is known but not recorded"),
    }
    match recent_result_source(&cache, &ids, "nowhere") {
        RecentSource::Unknown => {}
        _ => panic!("nowhere is unknown"),
    }
}

#[test]
fn recent_cache_prefers_record_over_catalogue() {
    let mut cache: RecentResults<u32> = RecentResults::new();
    cache.insert("offline".to_string(), 1);
    match recent_result_source(&cache, &Vec::new(), "offline") {
        RecentSource::Cached(v) => assert_eq!(*v, 1),
        _ => panic!("a recorded bridge is answered from the record"),
    }
}

#[test]
fn envelopes_carry_the_given_instant() {
    let at = Some(Timestamp { secs: 1_725_029_869, nanos: 5 });
    let r = ApiResponse::ok_at("data", at);
    assert!(r.success);
    assert_eq!(r.data, Some("data"));
    assert_eq!(r.error, None);
    assert_eq!(r.timestamp, at);
    let e: ApiResponse<u8> = ApiResponse::err_at("Bridge not found", None);
    assert!(!e.success);
    assert_eq!(e.data, None);
    assert_eq!(e.error.as_deref(), Some("Bridge not found"));
    assert_eq!(e.timestamp, None);
}

#[test]
fn timestamps_from_epoch_offsets() {
    assert_eq!(timestamp_from_epoch(0, 0), Some(Timestamp { secs: 0, nanos: 0 }));
    assert_eq!(timestamp_from_epoch(86_400, 999_999_999), Some(Timestamp { secs: 86_400, nanos: 999_999_999 }));
    assert_eq!(timestamp_from_epoch(MAX_TIMESTAMP_SECS, 1), Some(Timestamp { secs: i64::MAX, nanos: 1 }));
    assert_eq!(timestamp_from_epoch(MAX_TIMESTAMP_SECS + 1, 0), None);
    assert_eq!(timestamp_from_epoch(u64::MAX, 0), None);
}

#[test]
fn clock_reads_after_epoch() {
    let now = current_time().expect("the test machine's clock reads after 1970");
    let since = std::time::SystemTime::now()
        .duration_since(std::time::UNIX_EPOCH)
        .unwrap()
        .as_secs() as i64;
    assert!(now.secs <= since && since - now.secs <= 5);
    assert!(now.nanos < 1_000_000_000);
}

#[test]
fn upload_outcomes() {
    let ids = catalog();
    match upload_outcome(Ok(12), &ids, "luding") {
        UploadOutcome::Evaluate { written, bridge } => {
            assert_eq!(written, 12);
            assert_eq!(bridge, 0);
        }
        _ => panic!("a stored upload for a known bridge is evaluated"),
    }
    match upload_outcome(Ok(3), &ids, "nowhere") {
        UploadOutcome::WrittenOnly { written } => assert_eq!(written, 3),
        _ => panic!("an unknown bridge gets the count alone"),
    }
    match upload_outcome(Err("store down".to_string()), &ids, "luding") {
        UploadOutcome::StoreFailed(e) => assert_eq!(e, "store down"),
        _ => panic!("a store failure is reported"),
    }
}

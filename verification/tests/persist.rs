use proxybroker::addr::IpAddr;
use proxybroker::measure::Measure;
use proxybroker::parse::parse_ipv4_lenient;
use proxybroker::persist::{
    check_redis_schema, is_retryable_sqlite_contention, needs_migration, proxy_from_hash,
    proxy_from_row, proxy_key, read_member, redis_counts, store_row, types_from_entries,
    types_from_json, types_to_json, AfterFault, Blended, ContentionRetry, MemberFault, MemoryStore, RedisHash,
    SqliteFault, Store, UPSERT_LUA,
};
use proxybroker::proxy::Proxy;
use proxybroker::types::{AnonLevel, Duration, Error, Proto, Types};
use std::cell::Cell;

fn m(x: f64) -> Measure {
    Measure { bits: x.to_bits() }
}

fn f(x: Measure) -> f64 {
    f64::from_bits(x.bits)
}

fn ip(s: &str) -> IpAddr {
    parse_ipv4_lenient(s).unwrap()
}

fn sqlite_failure(code: i32) -> SqliteFault {
    match rusqlite::ffi::Error::new(code).code {
        rusqlite::ErrorCode::DatabaseBusy => SqliteFault::DatabaseBusy,
        rusqlite::ErrorCode::DatabaseLocked => SqliteFault::DatabaseLocked,
        _ => SqliteFault::Other,
    }
}

fn retry_sqlite_contention<T>(
    mut operation: impl FnMut() -> Result<T, SqliteFault>,
) -> Result<T, SqliteFault> {
    let mut retry = ContentionRetry::new();
    loop {
        match operation() {
            Ok(v) => return Ok(v),
            Err(e) => match retry.after_error(e) {
                AfterFault::RetryIn(_) => continue,
                AfterFault::Report => return Err(e),
            },
        }
    }
}

#[test]
fn database_busy_is_retryable() {
    let error = sqlite_failure(rusqlite::ffi::SQLITE_BUSY);
    assert!(is_retryable_sqlite_contention(error));
}

#[test]
fn database_locked_is_retryable() {
    let error = sqlite_failure(rusqlite::ffi::SQLITE_LOCKED);
    assert!(is_retryable_sqlite_contention(error));
}

#[test]
fn non_contention_sqlite_error_is_not_retryable() {
    let error = sqlite_failure(rusqlite::ffi::SQLITE_CONSTRAINT);
    assert!(!is_retryable_sqlite_contention(error));
}

#[test]
fn transient_contention_is_retried_until_success() {
    let attempts = Cell::new(0);
    let result = retry_sqlite_contention(|| {
        attempts.set(attempts.get() + 1);
        if attempts.get() < 3 {
            Err(sqlite_failure(rusqlite::ffi::SQLITE_BUSY))
        } else {
            Ok("written")
        }
    });

    assert_eq!(result.unwrap(), "written");
    assert_eq!(attempts.get(), 3);
}

#[test]
fn contention_retry_is_bounded_and_returns_final_error() {
    let attempts = Cell::new(0);
    let error = retry_sqlite_contention(|| {
        attempts.set(attempts.get() + 1);
        Err::<(), _>(sqlite_failure(rusqlite::ffi::SQLITE_LOCKED))
    })
    .unwrap_err();

    assert_eq!(attempts.get(), 5);
    assert!(is_retryable_sqlite_contention(error));
}

#[test]
fn non_contention_error_is_attempted_once() {
    let attempts = Cell::new(0);
    let error = retry_sqlite_contention(|| {
        attempts.set(attempts.get() + 1);
        Err::<(), _>(sqlite_failure(rusqlite::ffi::SQLITE_CONSTRAINT))
    })
    .unwrap_err();

    assert_eq!(attempts.get(), 1);
    assert!(!is_retryable_sqlite_contention(error));
}

#[test]
fn waits_grow_between_tries() {
    let mut r = ContentionRetry::new();
    for millis in [10, 25, 50, 100] {
        assert_eq!(
            r.after_error(SqliteFault::DatabaseBusy),
            AfterFault::RetryIn(Duration::from_millis(millis))
        );
    }
    assert_eq!(r.after_error(SqliteFault::DatabaseBusy), AfterFault::Report);
}

fn working(host: &str, port: u16, requests: u32, errors: u32, avg: f64) -> Proxy {
    let mut types = Types::new();
    types.insert(Proto::Http, None);
    Proxy::restored(ip(host), port, types, requests, errors, m(0.0), m(avg), None)
}

fn failing(host: &str, port: u16, requests: u32, errors: u32) -> Proxy {
    Proxy::restored(
        ip(host),
        port,
        Types::new(),
        requests,
        errors,
        m(0.0),
        m(0.0),
        None,
    )
}

fn fold(prev: f64, sample: f64) -> f64 {
    0.3 * sample + 0.7 * prev
}

fn upsert(store: &mut MemoryStore, p: &Proxy) {
    let sample = if p.is_working() { 1.0 } else { 0.0 };
    let blended = match store.get(p.host, p.port) {
        Some(r) => Blended {
            success: m(fold(f(r.ewma_success), sample)),
            latency: m(fold(f(r.avg_latency), f(p.avg_resp_time))),
            error_rate: m(0.0),
        },
        None => Blended {
            success: m(sample),
            latency: p.avg_resp_time,
            error_rate: m(0.0),
        },
    };
    store.upsert(p, blended).unwrap();
}

fn ewma_of(store: &MemoryStore, host: &str, port: u16) -> f64 {
    f(store.get(ip(host), port).unwrap().ewma_success)
}

#[test]
fn upsert_then_load_round_trips() {
    let mut store = MemoryStore::new();
    upsert(&mut store, &working("1.2.3.4", 8080, 3, 1, 250.0));
    let loaded = store.load().unwrap();
    assert_eq!(
        loaded.len(),
        1,
        "one upserted proxy round-trips through load"
    );
    let p = &loaded[0];
    assert_eq!(p.host, ip("1.2.3.4"));
    assert_eq!(p.port, 8080);
    assert_eq!(p.requests, 3);
    assert!(p.types.contains(Proto::Http));
    assert!((f(p.avg_resp_time) - 250.0).abs() < 1e-9);
}

#[test]
fn first_upsert_seeds_ewma_from_sample() {
    let mut store = MemoryStore::new();
    upsert(&mut store, &working("1.2.3.4", 8080, 1, 0, 100.0));
    assert!(
        (ewma_of(&store, "1.2.3.4", 8080) - 1.0).abs() < 1e-12,
        "a working first sample seeds ewma = 1.0"
    );
}

#[test]
fn second_upsert_folds_ewma_alpha_0_3() {
    let mut store = MemoryStore::new();
    upsert(&mut store, &working("1.2.3.4", 8080, 1, 0, 100.0));
    upsert(&mut store, &failing("1.2.3.4", 8080, 1, 1));
    assert!((ewma_of(&store, "1.2.3.4", 8080) - 0.7).abs() < 1e-12);
    let r = store.get(ip("1.2.3.4"), 8080).unwrap();
    assert_eq!(r.requests, 2, "requests accumulate");
    assert_eq!(r.errors, 1, "errors accumulate");
    assert!(
        r.types.contains(Proto::Http),
        "a failing (empty) sample must not erase confirmed types"
    );
    assert!(
        (f(r.avg_latency) - 100.0).abs() < 1e-9,
        "a zero-latency sample leaves avg_latency unchanged (CASE latency>0)"
    );
}

#[test]
fn latency_ewma_folds_with_same_alpha() {
    let mut store = MemoryStore::new();
    upsert(&mut store, &working("9.9.9.9", 3128, 1, 0, 100.0));
    upsert(&mut store, &working("9.9.9.9", 3128, 1, 0, 200.0));
    let p = store.load().unwrap().into_iter().next().unwrap();
    assert!((f(p.avg_resp_time) - 130.0).abs() < 1e-9);
}

#[test]
fn store_keeps_other_addresses_and_caps_its_counts() {
    let mut store = MemoryStore::new();
    upsert(&mut store, &working("1.1.1.1", 80, u32::MAX, 7, 1.0));
    upsert(&mut store, &failing("2.2.2.2", 80, 1, 1));
    let before = store.get(ip("2.2.2.2"), 80);
    upsert(&mut store, &working("1.1.1.1", 80, 5, 1, 1.0));
    assert_eq!(store.get(ip("2.2.2.2"), 80), before);
    let r = store.get(ip("1.1.1.1"), 80).unwrap();
    assert_eq!((r.requests, r.errors, r.uptime_checks), (u32::MAX, 8, 2));
    assert_eq!(store.load().unwrap().len(), 2);
    assert_eq!(store.get(ip("1.1.1.1"), 81), None);
}

#[test]
fn redis_key_layout() {
    let host = ip("1.2.3.4");
    assert_eq!(proxy_key(host, 8080), "proxybroker:proxy:1.2.3.4:8080");
    assert!(UPSERT_LUA.contains("0.3"));
    assert!(UPSERT_LUA.contains("0.7"));
}

#[test]
fn types_survive_writing() {
    let mut t = Types::new();
    assert_eq!(types_to_json(&t), "[]");
    t.insert(Proto::Socks5, Some(AnonLevel::Anonymous));
    t.insert(Proto::Http, Some(AnonLevel::High));
    t.insert(Proto::Connect80, None);
    let json = types_to_json(&t);
    assert_eq!(types_from_json(&json), t);
    let v: serde_json::Value = serde_json::from_str(&json).unwrap();
    assert_eq!(v[0]["type"].as_str(), Some("HTTP"));
    assert_eq!(v[0]["level"].as_str(), Some("High"));
    assert!(json.contains("\"level\":\"\""));
}

#[test]
fn unreadable_types_are_left_out() {
    assert!(types_from_json("no json").is_empty());
    assert!(types_from_json("{}").is_empty());
    let t = types_from_json(
        r#"[{"type":"HTTP","level":"odd"},{"type":1},{"level":"High"},7,{"type":"FTP"},{"type":"SOCKS4"}]"#,
    );
    assert_eq!(t.keys(), vec![Proto::Http, Proto::Socks4]);
    assert_eq!(t.get(Proto::Http), Some(None));
    let again = types_from_entries(&vec![
        (Some("HTTP".into()), Some("High".into())),
        (None, Some("High".into())),
        (Some("HTTP".into()), None),
    ]);
    assert_eq!(again.get(Proto::Http), Some(None), "the last one stands");
}

#[test]
fn rows_hold_what_is_remembered() {
    let r = store_row(&working("1.2.3.4", 80, 4, 2, 0.5));
    assert_eq!((r.host.as_str(), r.port), ("1.2.3.4", 80));
    assert_eq!((r.requests, r.errors, r.working), (4, 2, true));
    assert_eq!(types_from_json(&r.types_json).keys(), vec![Proto::Http]);
    assert_eq!(r.latency, m(0.5));
    assert_eq!(store_row(&failing("1.2.3.4", 80, 4, 2)).types_json, "[]");
    let p = proxy_from_row(
        &r.host,
        80,
        &r.types_json,
        4,
        2,
        m(0.5),
        m(0.25),
        m(0.75),
    )
    .unwrap();
    assert_eq!(p.addr(), "1.2.3.4:80");
    assert!(p.is_working());
    assert_eq!((p.requests, p.errors), (4, 2));
    assert_eq!((p.error_rate, p.avg_resp_time), (m(0.5), m(0.25)));
    assert_eq!(p.ewma, Some(m(0.75)));
    assert!(proxy_from_row("nowhere", 80, "[]", 0, 0, m(0.0), m(0.0), m(0.0)).is_none());
    assert!(needs_migration(0));
    assert!(!needs_migration(1));
}

#[test]
fn another_layout_is_refused() {
    assert_eq!(check_redis_schema(None), Ok(()));
    assert_eq!(check_redis_schema(Some("1")), Ok(()));
    match check_redis_schema(Some("a\"b\n")) {
        Err(Error::Persist(text)) => assert_eq!(
            text,
            "redis store schema mismatch: found \"a\\\"b\\n\", expected \"1\" — wipe the proxybroker:* keys or point --state at a fresh database"
        ),
        other => panic!("{other:?}"),
    }
}

#[test]
fn members_split_at_the_last_colon() {
    assert_eq!(
        read_member("2001:db8::1:8080"),
        Ok((IpAddr::V6(0x2001_0db8 << 96 | 1), 8080))
    );
    assert_eq!(read_member("1.2.3.4:80"), Ok((ip("1.2.3.4"), 80)));
    assert_eq!(read_member("1.2.3.4"), Err(MemberFault::Malformed));
    assert_eq!(read_member("host:80"), Err(MemberFault::Host));
    assert_eq!(read_member("host:x"), Err(MemberFault::Host));
    assert_eq!(read_member("1.2.3.4:x"), Err(MemberFault::Port));
    assert_eq!(read_member("1.2.3.4:65536"), Err(MemberFault::Port));
}

#[test]
fn hashes_count_what_is_missing_as_nothing() {
    let h = RedisHash {
        types: None,
        requests: Some("12".into()),
        errors: Some("x".into()),
        avg_latency: None,
        ewma_success: None,
    };
    assert_eq!(redis_counts(&h), (12, 0));
    let p = proxy_from_hash(ip("1.1.1.1"), 80, Some(&h), m(0.0)).unwrap();
    assert!(proxy_from_hash(ip("1.1.1.1"), 80, None, m(0.0)).is_none());
    assert_eq!((p.requests, p.errors), (12, 0));
    assert!(!p.is_working());
    assert_eq!(p.avg_resp_time, m(0.0));
    assert_eq!(p.ewma, None);
}

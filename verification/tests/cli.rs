use proxybroker::addr::IpAddr;
use proxybroker::broker::FindQuery;
use proxybroker::cli::{
    assemble_providers, check_args_query, check_candidates, check_input, fill_query, find_query, grab_query, loaded_pool,
    parse_positive_usize, pool_countries, recheck_store, retry_policy, select_store,
    serve_fill_query, serve_plan, serve_pool_config, serve_query, types_from, union_dedup,
    warm_pool, CheckArgs, CheckInput, FindArgs, PoolSource, RetryOn, SelectStrategy, ServeArgs,
    ServePlan, StoreKind, WatchPlan,
};
use proxybroker::measure::Measure;
use proxybroker::persist::{Blended, MemoryStore, Store};
use proxybroker::proxy::Proxy;
use proxybroker::server::pool::PoolConfig;
use proxybroker::server::select::Strategy;
use proxybroker::types::{AnonLevel, Duration, Proto, ProtoSet, ProxyError, Types};

fn memory(state: Option<&str>) -> MemoryStore {
    assert_eq!(recheck_store(state), StoreKind::Memory);
    MemoryStore::new()
}

#[test]
fn recheck_store_without_state_is_in_memory() {
    let mut types = Types::new();
    types.insert(Proto::Http, None);
    let latency = Measure {
        bits: 100.0f64.to_bits(),
    };
    let px = Proxy::restored(
        IpAddr::V4(0x0102_0304),
        8080,
        types,
        1,
        0,
        Measure::zero(),
        latency,
        None,
    );
    let blended = Blended {
        success: Measure::one(),
        latency,
        error_rate: Measure::zero(),
    };

    let mut first = memory(None);
    first.upsert(&px, blended).unwrap();
    assert_eq!(first.load().unwrap().len(), 1);

    let second = memory(None);
    assert!(
        second.load().unwrap().is_empty(),
        "no --state must not persist across store handles"
    );
}

#[test]
fn serve_query_threads_lvl_and_strict() {
    let args = ServeArgs {
        types: vec![Proto::Http],
        lvl: vec![AnonLevel::High],
        strict: true,
        post: true,
        dnsbl: vec!["zen.spamhaus.org".into()],
        ..Default::default()
    };
    let q = serve_query(&args);
    assert_eq!(q.types[0].levels, Some(vec![AnonLevel::High]));
    assert!(q.strict);
    assert!(q.post);
    assert_eq!(q.dnsbl, vec!["zen.spamhaus.org".to_string()]);
}

#[test]
fn serve_fill_query_threads_pool_fill_tuning() {
    let args = ServeArgs {
        fill_max_conn: Some(37),
        fill_max_tries: Some(1),
        ..Default::default()
    };

    let query = serve_fill_query(&args);

    assert_eq!(query.max_conn, 37);
    assert_eq!(query.retry.max_tries, 1);
}

#[test]
fn serve_fill_query_preserves_existing_defaults_when_unset() {
    let args = ServeArgs::default();
    let query = serve_fill_query(&args);
    let defaults = FindQuery::default();

    assert_eq!(query.max_conn, defaults.max_conn);
    assert_eq!(query.retry.max_tries, defaults.retry.max_tries);
}

#[test]
fn a_count_is_at_least_one() {
    assert_eq!(parse_positive_usize("64"), Ok(64));
    assert_eq!(parse_positive_usize("+1"), Ok(1));
    assert_eq!(
        parse_positive_usize("0"),
        Err("value must be at least 1".to_string())
    );
    for (text, why) in [
        ("", "cannot parse integer from empty string"),
        ("x", "invalid digit found in string"),
        ("-1", "invalid digit found in string"),
        (
            "99999999999999999999999",
            "number too large to fit in target type",
        ),
    ] {
        assert!(parse_positive_usize(text).unwrap_err().contains(why));
    }
}

#[test]
fn pool_is_configured_from_the_arguments() {
    let mut args = ServeArgs {
        countries: vec!["us".into()],
        strategy: SelectStrategy::Sticky,
        fail_timeout: 30,
        max_tries: 2,
        http_allowed_codes: vec![200],
        ..Default::default()
    };
    let c = serve_pool_config(&args);
    assert_eq!(c.countries, Some(vec!["US".to_string()]));
    assert_eq!(c.strategy, Strategy::Sticky);
    assert_eq!(c.fail_timeout, Duration::from_secs(30));
    assert_eq!(c.max_tries, 2);
    assert_eq!(c.http_allowed_codes, Some(vec![200]));
    args.countries.clear();
    args.http_allowed_codes.clear();
    let c = serve_pool_config(&args);
    assert_eq!((c.countries, c.http_allowed_codes), (None, None));
    assert_eq!(pool_countries(&vec![]), None);
    assert_eq!(SelectStrategy::RoundRobin.to_server(), Strategy::RoundRobin);
    assert_eq!(SelectStrategy::Random.to_server(), Strategy::Random);
    assert_eq!(SelectStrategy::default().to_server(), Strategy::Best);
}

#[test]
fn a_pool_is_filled_with_at_least_one() {
    assert_eq!(serve_query(&ServeArgs::default()).limit, Some(1));
    let q = fill_query(&vec![Proto::Http], 0, &vec!["DE".into()], 5);
    assert_eq!(q.limit, Some(1));
    assert_eq!(q.countries, Some(vec!["DE".to_string()]));
    assert_eq!(q.timeout, Duration::from_secs(5));
    assert_eq!(q.types[0].levels, None);
}

#[test]
fn find_and_check_threads_their_arguments() {
    let q = find_query(FindArgs {
        types: vec![Proto::Https],
        limit: 0,
        timeout: 4,
        max_conn: 9,
        max_tries: 2,
        retry_on: RetryOn::All,
        backoff_ms: 250,
        require_cookie: true,
        trust_check: true,
        liveness_url: Some("u".into()),
        ..Default::default()
    });
    assert_eq!(q.limit, None);
    assert_eq!(q.max_conn, 9);
    assert_eq!(q.retry, retry_policy(2, RetryOn::All, 250));
    assert!(q.retry.retry_on.contains(&ProxyError::BadStatus));
    assert_eq!(q.retry.backoff, Duration::from_millis(250));
    assert!(q.require_cookie && q.trust_check && !q.require_trusted);
    assert_eq!(q.liveness_url, Some("u".to_string()));
    let q = check_args_query(CheckArgs {
        types: vec![Proto::Https],
        limit: 3,
        countries: vec!["US".into()],
        max_tries: 2,
        strict: true,
        ..Default::default()
    });
    assert_eq!(q.limit, Some(3));
    assert_eq!(q.countries, Some(vec!["US".to_string()]));
    assert_eq!(q.retry, retry_policy(2, RetryOn::Timeout, 0));
    assert!(q.strict && !q.post);
    let g = grab_query(0, &vec![]);
    assert_eq!((g.limit, g.countries), (None, None));
    assert_eq!(grab_query(2, &vec!["x".into()]).limit, Some(2));
}

#[test]
fn levels_go_with_each_protocol() {
    let t = types_from(
        &vec![Proto::Http, Proto::Socks5],
        &vec![AnonLevel::High, AnonLevel::Anonymous],
    );
    assert_eq!(t.len(), 2);
    assert_eq!(t[1].proto, Proto::Socks5);
    assert_eq!(
        t[1].levels,
        Some(vec![AnonLevel::High, AnonLevel::Anonymous])
    );
    assert_eq!(types_from(&vec![Proto::Http], &vec![])[0].levels, None);
}

#[test]
fn stores_are_told_by_their_address() {
    assert_eq!(select_store("redis://h/0"), StoreKind::Redis);
    assert_eq!(select_store("rediss://h/0"), StoreKind::Redis);
    assert_eq!(select_store("redis:/h"), StoreKind::Sqlite);
    assert_eq!(select_store("state.db"), StoreKind::Sqlite);
    assert_eq!(recheck_store(Some("state.db")), StoreKind::Sqlite);
}

#[test]
fn the_first_list_stands_where_both_have_an_address() {
    let mk = |last: u32, requests: u32| {
        let mut p = Proxy::new(IpAddr::V4(last), 80, ProtoSet::new());
        p.requests = requests;
        p
    };
    let out = union_dedup(vec![mk(1, 1), mk(2, 1)], vec![mk(2, 9), mk(3, 9)]);
    let got: Vec<(IpAddr, u32)> = out.iter().map(|p| (p.host, p.requests)).collect();
    assert_eq!(
        got,
        [
            (IpAddr::V4(1), 1),
            (IpAddr::V4(2), 1),
            (IpAddr::V4(3), 9)
        ]
    );
}

#[test]
fn a_union_holds_each_address_once() {
    let mk = |last: u32, requests: u32| {
        let mut p = Proxy::new(IpAddr::V4(last), 80, ProtoSet::new());
        p.requests = requests;
        p
    };
    let out = union_dedup(
        vec![mk(1, 1), mk(1, 2)],
        vec![mk(2, 3), mk(1, 4), mk(2, 5), mk(3, 6)],
    );
    let got: Vec<(IpAddr, u32)> = out.iter().map(|p| (p.host, p.requests)).collect();
    assert_eq!(
        got,
        [
            (IpAddr::V4(1), 1),
            (IpAddr::V4(2), 3),
            (IpAddr::V4(3), 6)
        ]
    );
}

#[test]
fn providers_are_joined_and_needed() {
    assert_eq!(
        assemble_providers(false, vec![1, 2], vec![3]),
        Ok(vec![1, 2, 3])
    );
    assert_eq!(assemble_providers(true, vec![1, 2], vec![3]), Ok(vec![3]));
    assert!(assemble_providers(true, vec![1, 2], vec![]).is_err());
}

#[test]
fn plans_follow_the_arguments() {
    assert_eq!(check_input(true, true), CheckInput::Load);
    assert_eq!(check_input(false, true), CheckInput::File);
    assert_eq!(check_input(false, false), CheckInput::Stdin);
    assert_eq!(
        serve_plan(true, Some("redis://h"), true, true),
        ServePlan {
            source: PoolSource::File,
            recheck: Some(StoreKind::Redis),
            watch: WatchPlan::On,
        }
    );
    assert_eq!(
        serve_plan(false, None, true, true),
        ServePlan {
            source: PoolSource::Search,
            recheck: Some(StoreKind::Memory),
            watch: WatchPlan::NeedsFile,
        }
    );
    let plan = serve_plan(false, Some("state.db"), false, false);
    assert_eq!((plan.recheck, plan.watch), (None, WatchPlan::Off));
}

#[test]
fn text_without_addresses_is_warned_of() {
    let (proxies, warning) = check_candidates("1.2.3.4:80\nnothing\n");
    assert_eq!((proxies.len(), warning), (1, None));
    let (proxies, warning) = check_candidates("nothing\n");
    assert!(proxies.is_empty());
    assert_eq!(warning, Some("no proxy addresses parsed from input"));
}

#[test]
fn pools_start_with_what_is_remembered() {
    let mk = |last: u32, requests: u32| {
        let mut p = Proxy::new(IpAddr::V4(last), 80, ProtoSet::new());
        p.requests = requests;
        p
    };
    let pool = loaded_pool(
        vec![mk(1, 7)],
        vec![mk(1, 0), mk(2, 0)],
        PoolConfig::default(),
    );
    assert!(pool.exhausted);
    let got: Vec<u32> = pool.proxies().iter().map(|p| p.requests).collect();
    assert_eq!(got, [7, 0]);
    assert_eq!((pool.round_robin, pool.evictions, pool.rotations), (0, 0, 0));
    assert!(pool.sessions.pins.is_empty());
    let pool = warm_pool(vec![mk(1, 7)], PoolConfig::default());
    assert!(!pool.exhausted);
    assert_eq!(pool.len(), 1);
    assert_eq!((pool.round_robin, pool.evictions, pool.rotations), (0, 0, 0));
    assert!(pool.sessions.pins.is_empty());
}

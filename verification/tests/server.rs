use proxybroker::addr::IpAddr;
use proxybroker::measure::Measure;
use proxybroker::parse::parse_ipv4_lenient;
use proxybroker::proxy::{Country, Credentials, Proxy, Rates};
use proxybroker::server::auth::{basic_header_value, AuthExpect};
use proxybroker::server::control::{
    history_key, parse_command, respond, serve_control, Command, History, HISTORY_CAP,
};
use proxybroker::server::http::{
    header_value, inject_header, parse_http_status, parse_request_head, request_has_body,
    split_host_port, strip_header, ClientRequest, Frontend, HeadReader, HeadStep, ReadEvent,
    StatusReader, StatusStep,
};
use proxybroker::server::intake::{Follow, Intake};
use proxybroker::server::metrics::{metrics_response, render_metrics, MeanTexts};
use proxybroker::server::pool::{
    Averages, ClientKey, Draw, Lease, Pool, PoolConfig, Probed, Sessions,
};
use proxybroker::server::relay::{
    choose_proto, relay_negotiation_proto, relay_start, relay_step, RelayAction, RelayEvent,
    RelayOutcome, RelayState,
};
use proxybroker::server::select::{best_for, Pooled, SelectCtx, Strategy, XorShift};
use proxybroker::server::session::{
    begin_try, charges_error, client_key, conclude_try, login_required, screen, terminal_failure, Admission, Then,
    Tries, Verdict,
};
use proxybroker::server::socks5::{Next, Stage};
use proxybroker::types::{AnonLevel, Duration, Proto, ProtoSet, ProxyError, Scheme};

const SECOND: u128 = 1_000_000_000;

fn m(x: f64) -> Measure {
    Measure { bits: x.to_bits() }
}

fn ip(s: &str) -> IpAddr {
    parse_ipv4_lenient(s).unwrap()
}

fn proxy_with(rt: f64, scheme: Proto) -> Pooled {
    proxy_at(rt, scheme, "1.2.3.4")
}

fn proxy_at(rt: f64, scheme: Proto, host: &str) -> Pooled {
    let mut p = Proxy::new(ip(host), 80, ProtoSet::new());
    p.add_type(scheme, None);
    p.requests = 1;
    p.avg_resp_time = m(rt);
    Pooled {
        proxy: p,
        blocked_until: None,
    }
}

fn ctx(scheme: Scheme) -> SelectCtx {
    SelectCtx {
        scheme,
        strategy: Strategy::Best,
        sticky: None,
        round_robin_cursor: 0,
        draw: 0,
        now: 100 * SECOND,
        prefer_connect: false,
    }
}

#[test]
fn https_capability_uses_raw_connect_for_http_connect() {
    assert_eq!(
        relay_negotiation_proto(Proto::Https, &Frontend::HttpConnect),
        Proto::Connect80
    );
}

#[test]
fn https_capability_uses_raw_connect_for_socks5() {
    assert_eq!(
        relay_negotiation_proto(Proto::Https, &Frontend::Socks5),
        Proto::Connect80
    );
}

#[test]
fn http_forward_is_not_rewritten() {
    assert_eq!(
        relay_negotiation_proto(Proto::Https, &Frontend::HttpForward),
        Proto::Https
    );
}

#[test]
fn existing_raw_tunnel_protocol_is_not_rewritten() {
    assert_eq!(
        relay_negotiation_proto(Proto::Socks5, &Frontend::HttpConnect),
        Proto::Socks5
    );
}

#[test]
fn best_for_picks_lowest_response_time() {
    let pool = vec![
        proxy_with(0.5, Proto::Http),
        proxy_with(0.1, Proto::Http),
        proxy_with(0.3, Proto::Http),
    ];
    let idx = best_for(&pool, &ctx(Scheme::Http)).unwrap();
    assert_eq!(pool[idx].proxy.avg_resp_time, m(0.1));
}

#[test]
fn best_for_prefers_ready_over_benched() {
    let now = 100 * SECOND;
    let mut benched = proxy_at(0.1, Proto::Http, "2.2.2.2");
    benched.blocked_until = Some(now + 30 * SECOND);
    let pool = vec![proxy_at(0.9, Proto::Http, "1.1.1.1"), benched];
    let mut c = ctx(Scheme::Http);
    c.now = now;
    assert_eq!(
        best_for(&pool, &c),
        Some(0),
        "ready proxy beats a faster benched one"
    );

    let mut lone = proxy_at(0.1, Proto::Http, "3.3.3.3");
    lone.blocked_until = Some(now + 30 * SECOND);
    assert_eq!(
        best_for(&vec![lone], &c),
        Some(0),
        "benched proxy is the backup tier"
    );
}

#[test]
fn best_for_respects_scheme() {
    let pool = vec![proxy_with(0.1, Proto::Socks5)];
    assert!(best_for(&pool, &ctx(Scheme::Http)).is_some());
    assert!(best_for(&pool, &ctx(Scheme::Https)).is_some());

    let http_only = vec![proxy_with(0.1, Proto::Http)];
    assert!(best_for(&http_only, &ctx(Scheme::Http)).is_some());
    assert!(best_for(&http_only, &ctx(Scheme::Https)).is_none());
}

#[test]
fn tied_response_times_do_not_panic() {
    let pool = vec![proxy_with(0.2, Proto::Http), proxy_with(0.2, Proto::Http)];
    assert!(best_for(&pool, &ctx(Scheme::Http)).is_some());
}

#[test]
fn round_robin_cycles_through_pool() {
    let pool = vec![
        proxy_at(0.1, Proto::Http, "1.1.1.1"),
        proxy_at(0.1, Proto::Http, "2.2.2.2"),
        proxy_at(0.1, Proto::Http, "3.3.3.3"),
    ];
    let pick = |cursor| {
        let mut c = ctx(Scheme::Http);
        c.strategy = Strategy::RoundRobin;
        c.round_robin_cursor = cursor;
        best_for(&pool, &c).unwrap()
    };
    assert_eq!([pick(0), pick(1), pick(2), pick(3)], [0, 1, 2, 0]);
}

#[test]
fn random_stays_in_eligible_set() {
    let pool = vec![
        proxy_at(0.1, Proto::Https, "1.1.1.1"),
        proxy_at(0.1, Proto::Http, "2.2.2.2"),
    ];
    let mut c = ctx(Scheme::Http);
    c.strategy = Strategy::Random;
    let mut random = XorShift::new();
    for _ in 0..100 {
        random = random.advanced();
        c.draw = random.state;
        assert_eq!(best_for(&pool, &c), Some(1));
    }
}

#[test]
fn sticky_reuses_pin_when_present_else_best() {
    let pool = vec![
        proxy_at(0.1, Proto::Http, "1.1.1.1"),
        proxy_at(0.9, Proto::Http, "2.2.2.2"),
    ];
    let mut c = ctx(Scheme::Http);
    c.strategy = Strategy::Sticky;
    c.sticky = Some((ip("2.2.2.2"), 80));
    assert_eq!(best_for(&pool, &c), Some(1));
    c.sticky = Some((ip("9.9.9.9"), 80));
    assert_eq!(best_for(&pool, &c), Some(0));
    c.sticky = None;
    assert_eq!(best_for(&pool, &c), Some(0));
}

#[test]
fn prefer_connect_biases_toward_connect80() {
    let a = proxy_at(0.1, Proto::Http, "1.1.1.1");
    let mut b = proxy_at(0.1, Proto::Http, "2.2.2.2");
    b.proxy.add_type(Proto::Connect80, None);
    let pool = vec![a, b];
    let mut c = ctx(Scheme::Http);
    c.prefer_connect = true;
    assert_eq!(best_for(&pool, &c), Some(1), "CONNECT-capable wins the tie");
    c.prefer_connect = false;
    assert_eq!(
        best_for(&pool, &c),
        Some(0),
        "no bias: tie resolves to first"
    );
}

#[test]
fn prefer_connect_does_not_override_health() {
    let fast = proxy_at(0.1, Proto::Http, "1.1.1.1");
    let mut slow = proxy_at(0.9, Proto::Http, "2.2.2.2");
    slow.proxy.add_type(Proto::Connect80, None);
    let pool = vec![fast, slow];
    let mut c = ctx(Scheme::Http);
    c.prefer_connect = true;
    assert_eq!(
        best_for(&pool, &c),
        Some(0),
        "health dominates the CONNECT bias"
    );
}

#[test]
fn prefer_connect_filters_the_rotation() {
    let mut pool = vec![
        proxy_at(0.1, Proto::Http, "1.1.1.1"),
        proxy_at(0.1, Proto::Http, "2.2.2.2"),
        proxy_at(0.1, Proto::Http, "3.3.3.3"),
    ];
    pool[1].proxy.add_type(Proto::Connect80, None);
    let mut c = ctx(Scheme::Http);
    c.strategy = Strategy::RoundRobin;
    c.prefer_connect = true;
    for cursor in 0..4 {
        c.round_robin_cursor = cursor;
        assert_eq!(best_for(&pool, &c), Some(1));
    }
}

#[test]
fn error_rate_goes_before_response_time() {
    let mut pool = vec![
        proxy_at(0.1, Proto::Http, "1.1.1.1"),
        proxy_at(0.9, Proto::Http, "2.2.2.2"),
    ];
    pool[0].proxy.error_rate = m(0.5);
    pool[1].proxy.error_rate = m(0.25);
    assert_eq!(best_for(&pool, &ctx(Scheme::Http)), Some(1));
}

#[test]
fn parse_http_status_extracts_code() {
    assert_eq!(parse_http_status(b"HTTP/1.1 200 OK\r\n"), 200);
    assert_eq!(parse_http_status(b"HTTP/1.0 403 Forbidden\r\n"), 403);
    assert_eq!(
        parse_http_status(b"HTTP/1.1 301 Moved Permanently\r\n"),
        301
    );
    assert_eq!(parse_http_status(b"garbage"), 0);
    assert_eq!(parse_http_status(b"HTTP/1.1 \r\n"), 0);
}

#[test]
fn status_of_bytes_that_are_no_text_is_nought() {
    assert_eq!(parse_http_status(b"HTTP/1.1 200 \xff\r\n"), 0);
    assert_eq!(parse_http_status(b"HTTP/1.1 +204 x"), 204);
    assert_eq!(parse_http_status(b"HTTP/1.1 65536 x"), 0);
}

#[test]
fn strip_header_removes_only_the_named_header() {
    let raw = b"GET / HTTP/1.1\r\nHost: x\r\nProxy-Authorization: Basic zzz\r\nAccept: */*\r\n\r\n";
    let s = String::from_utf8(strip_header(raw, "Proxy-Authorization")).unwrap();
    assert!(!s.contains("Proxy-Authorization"), "{s:?}");
    assert!(s.contains("Host: x") && s.contains("Accept: */*"), "{s:?}");
    assert!(
        s.starts_with("GET / HTTP/1.1\r\n"),
        "request line kept: {s:?}"
    );
    assert!(s.ends_with("\r\n\r\n"), "blank line kept: {s:?}");
}

#[test]
fn strip_header_ignores_case_and_keeps_the_first_line() {
    let raw = b"X-A: first\r\nx-a: one\r\nB: two\r\nX-A:three\r\n\r\ntail";
    assert_eq!(
        strip_header(raw, "X-a"),
        b"X-A: first\r\nB: two\r\n\r\ntail".to_vec()
    );
}

#[test]
fn strip_header_reads_lines_that_are_no_text() {
    let raw = b"GET / HTTP/1.1\r\nX-A: \xff\xfe\r\nB: \xff\r\n\r\n";
    assert_eq!(
        strip_header(raw, "X-A"),
        b"GET / HTTP/1.1\r\nB: \xff\r\n\r\n".to_vec()
    );
}

#[test]
fn inject_header_goes_behind_the_first_line() {
    assert_eq!(
        inject_header(b"HTTP/1.1 200 OK\r\nA: b\r\n\r\n", b"X: y\r\n"),
        b"HTTP/1.1 200 OK\r\nX: y\r\nA: b\r\n\r\n".to_vec()
    );
    assert_eq!(inject_header(b"no line end", b"X: y\r\n"), b"no line end");
}

#[test]
fn strip_header_undoes_inject_header() {
    let line = b"x-a: \xc3\xa9, twice\r\n";
    for raw in [
        &b"GET / HTTP/1.1\r\nB: 1\r\n\r\nbody"[..],
        b"GET / HTTP/1.1\nX-A: old\nB: 1\r\n\r\n",
        b"GET / HTTP/1.1\r\nX-A: \xff\r\n\r\n",
        b"no line end",
        b"",
    ] {
        assert_eq!(
            strip_header(&inject_header(raw, line), "X-A"),
            strip_header(raw, "X-A")
        );
    }
}

#[test]
fn headers_are_told_by_their_valid_start() {
    let raw = b"GET / HTTP/1.1\r\nB: ok\xff\r\nX-\xffA: no\r\nX-A: last\r\n\r\n";
    assert!(header_value(raw, "B").unwrap().starts_with("ok"));
    assert_eq!(header_value(raw, "X-A"), Some("last".to_string()));
    assert_eq!(
        strip_header(raw, "X-A"),
        b"GET / HTTP/1.1\r\nB: ok\xff\r\nX-\xffA: no\r\n\r\n".to_vec()
    );
}

#[test]
fn header_value_is_trimmed_and_first() {
    let raw = b"GET / HTTP/1.1\r\nHost:  example.com \r\nhost: other\r\n\r\n";
    assert_eq!(header_value(raw, "HOST"), Some("example.com".to_string()));
    assert_eq!(header_value(raw, "GET / HTTP/1.1"), None);
    assert_eq!(header_value(b"a: 1\r\n", "a"), None);
}

#[test]
fn bodies_are_recognised() {
    assert!(!request_has_body(b"GET / HTTP/1.1\r\nHost: x\r\n\r\n"));
    assert!(!request_has_body(b"GET / HTTP/1.1\r\nContent-Length: 0\r\n\r\n"));
    assert!(request_has_body(b"POST / HTTP/1.1\r\nContent-Length: 5\r\n\r\n"));
    assert!(request_has_body(b"POST / HTTP/1.1\r\nContent-Length: x\r\n\r\n"));
    assert!(request_has_body(
        b"POST / HTTP/1.1\r\nTransfer-Encoding: chunked\r\n\r\n"
    ));
}

#[test]
fn pool_remove_drops_matching() {
    let mk = |s: &str| Proxy::new(ip(s), 80, ProtoSet::new());
    let mut pool = Pool::from_proxies(
        vec![mk("1.1.1.1"), mk("2.2.2.2"), mk("3.3.3.3")],
        PoolConfig::default(),
    );
    assert!(pool.remove(ip("2.2.2.2"), 80), "should remove a match");
    assert_eq!(pool.len(), 2);
    assert!(!pool.remove(ip("9.9.9.9"), 80), "no match");
    assert_eq!(pool.len(), 2);
}

#[test]
fn split_host_port_variants() {
    assert_eq!(
        split_host_port("example.com:8080", 80),
        ("example.com".into(), 8080)
    );
    assert_eq!(
        split_host_port("example.com", 80),
        ("example.com".into(), 80)
    );
    assert_eq!(
        split_host_port("[2001:db8::1]:443", 80),
        ("2001:db8::1".into(), 443)
    );
    assert_eq!(
        split_host_port("[2001:db8::1]", 80),
        ("2001:db8::1".into(), 80)
    );
}

#[test]
fn split_host_port_odd_inputs() {
    assert_eq!(split_host_port("h:99999", 80), ("h".into(), 80));
    assert_eq!(split_host_port(":80", 7), (":80".into(), 7));
    assert_eq!(split_host_port("[", 7), ("[".into(), 7));
    assert_eq!(split_host_port("a:b:9", 7), ("a:b".into(), 9));
}

fn http_at(host: &str, cc: Option<&str>) -> Proxy {
    let mut p = Proxy::new(ip(host), 80, ProtoSet::new());
    p.add_type(Proto::Http, None);
    if let Some(cc) = cc {
        p.geo = Some(Country {
            code: cc.to_string(),
            ..Default::default()
        });
    }
    p
}

#[test]
fn try_get_filters_by_country() {
    let mut pool = Pool::from_proxies(
        vec![
            http_at("1.1.1.1", Some("US")),
            http_at("2.2.2.2", Some("GB")),
        ],
        PoolConfig::default(),
    );
    let got = pool.try_get(Scheme::Http, Some("us"), 0).expect("a US proxy");
    assert_eq!(got.addr(), "1.1.1.1:80");
    assert!(
        pool.try_get(Scheme::Http, Some("FR"), 0).is_none(),
        "no FR proxy to hand out"
    );
}

#[test]
fn render_metrics_emits_probe_latency_distinct_from_resp_time() {
    let mut p = Proxy::new(ip("1.2.3.4"), 80, ProtoSet::new());
    p.add_type(Proto::Http, None);
    p.probe_latency = m(0.10);
    p.avg_resp_time = m((0.10 + 0.90) / 2.0);
    let pool = Pool::from_proxies(vec![p], PoolConfig::default());
    let means = Averages {
        error_rate: m(0.0),
        resp_time: m(0.5),
        probe_latency: m(0.1),
    };
    let snap = pool.snapshot(means);
    let two = |x: Measure| format!("{:.2}", f64::from_bits(x.bits));
    let texts = MeanTexts {
        error_rate: two(snap.avg_error_rate),
        resp_time: two(snap.avg_resp_time),
        probe_latency: two(snap.probe_latency_avg),
    };
    let out = render_metrics(&snap, &texts, pool.evictions(), pool.rotations());

    assert!(
        out.contains("# TYPE proxybroker_pool_probe_latency_avg_seconds gauge"),
        "missing probe-latency HELP/TYPE block:\n{out}"
    );
    assert!(
        out.contains("proxybroker_pool_probe_latency_avg_seconds 0.10"),
        "probe latency should be the pure check-time value:\n{out}"
    );
    assert!(
        out.contains("proxybroker_pool_resp_time_avg_seconds 0.50"),
        "resp_time should be the serve-blended value:\n{out}"
    );
}

#[test]
fn metrics_page_is_exact() {
    let pool = Pool::from_proxies(vec![http_at("1.1.1.1", None)], PoolConfig::default());
    let zero = Averages {
        error_rate: m(0.0),
        resp_time: m(0.0),
        probe_latency: m(0.0),
    };
    let texts = MeanTexts {
        error_rate: "0.00".into(),
        resp_time: "0.00".into(),
        probe_latency: "0.00".into(),
    };
    let out = render_metrics(&pool.snapshot(zero), &texts, 7, 12);
    assert_eq!(
        out,
        "# HELP proxybroker_pool_size Proxies currently available in the pool.\n\
         # TYPE proxybroker_pool_size gauge\n\
         proxybroker_pool_size{scheme=\"http\"} 1\n\
         proxybroker_pool_size{scheme=\"https\"} 0\n\
         # HELP proxybroker_pool_error_rate_avg Mean proxy error rate over the pool.\n\
         # TYPE proxybroker_pool_error_rate_avg gauge\n\
         proxybroker_pool_error_rate_avg 0.00\n\
         # HELP proxybroker_pool_resp_time_avg_seconds Mean proxy response time over the pool.\n\
         # TYPE proxybroker_pool_resp_time_avg_seconds gauge\n\
         proxybroker_pool_resp_time_avg_seconds 0.00\n\
         # HELP proxybroker_pool_probe_latency_avg_seconds Mean judge-probe latency (check-time) over the pool.\n\
         # TYPE proxybroker_pool_probe_latency_avg_seconds gauge\n\
         proxybroker_pool_probe_latency_avg_seconds 0.00\n\
         # HELP proxybroker_evictions_total Proxies hard-evicted from the pool.\n\
         # TYPE proxybroker_evictions_total counter\n\
         proxybroker_evictions_total 7\n\
         # HELP proxybroker_rotations_total Mid-request rotations to a different proxy.\n\
         # TYPE proxybroker_rotations_total counter\n\
         proxybroker_rotations_total 12\n"
    );
    assert_eq!(
        metrics_response("ab\n"),
        "HTTP/1.1 200 OK\r\nContent-Type: text/plain; version=0.0.4\r\nContent-Length: 3\r\nConnection: close\r\n\r\nab\n"
    );
}

#[test]
fn proxies_snapshot_does_not_consume() {
    let mut pool = Pool::from_proxies(
        vec![http_at("1.1.1.1", None), http_at("2.2.2.2", None)],
        PoolConfig::default(),
    );
    assert_eq!(pool.proxies().len(), 2, "snapshot sees both");
    assert!(
        pool.try_get(Scheme::Http, None, 0).is_some(),
        "still checkoutable"
    );
    assert_eq!(pool.proxies().len(), 1, "checkout removed one");
}

fn key() -> ClientKey {
    ClientKey::Ip(IpAddr::V4(0x7f00_0001))
}

fn https_at_port(port: u16) -> Proxy {
    let mut p = Proxy::new(ip("127.0.0.1"), port, ProtoSet::new());
    p.add_type(Proto::Https, None);
    p
}

#[test]
fn lease_gives_up_on_an_all_dead_pool() {
    let cfg = PoolConfig {
        verify_on_lease: Some(Duration::from_millis(300)),
        ..PoolConfig::default()
    };
    let mut pool = Pool::from_proxies(vec![https_at_port(1), https_at_port(2)], cfg);
    let mut lease = Lease::new();
    let mut probes = 0;
    loop {
        match pool.draw(Scheme::Https, &key(), SECOND) {
            Draw::Probe(p) => {
                probes += 1;
                let next = lease.after_probe(&mut pool, p, false, SECOND);
                if next == Probed::GiveUp {
                    break;
                }
                assert_eq!(next, Probed::Redraw);
            }
            other => panic!("{other:?}"),
        }
    }
    assert_eq!(probes, 8);
    assert_eq!(pool.len(), 2);
}

#[test]
fn lease_hands_out_a_live_proxy() {
    let cfg = PoolConfig {
        verify_on_lease: Some(Duration::from_secs(2)),
        ..PoolConfig::default()
    };
    let mut pool = Pool::from_proxies(vec![https_at_port(4040)], cfg);
    let p = match pool.draw(Scheme::Https, &key(), 0) {
        Draw::Probe(p) => p,
        other => panic!("{other:?}"),
    };
    match Lease::new().after_probe(&mut pool, p, true, 0) {
        Probed::HandOut(p) => assert_eq!(p.port, 4040),
        other => panic!("{other:?}"),
    }
    assert_eq!(pool.draw(Scheme::Https, &key(), 0), Draw::Nothing);
}

#[test]
fn an_unfinished_pool_is_waited_for() {
    let mut pool = Pool::filling(PoolConfig::default());
    assert_eq!(pool.draw(Scheme::Http, &key(), 0), Draw::Wait);
    assert!(!pool.is_ready_for(1));
    assert!(pool.is_ready_for(0));
    assert!(pool.import(http_at("1.1.1.1", None)));
    assert!(pool.is_ready_for(1));
    assert!(!pool.is_ready_for(2));
    pool.close();
    assert!(pool.is_ready_for(2));
    match pool.draw(Scheme::Http, &key(), 0) {
        Draw::Give(p) => assert_eq!(p.addr(), "1.1.1.1:80"),
        other => panic!("{other:?}"),
    }
}

#[test]
fn pool_admits_only_its_countries() {
    let cfg = PoolConfig {
        countries: Some(vec!["US".into()]),
        ..PoolConfig::default()
    };
    let mut pool = Pool::from_proxies(
        vec![
            http_at("1.1.1.1", Some("us")),
            http_at("2.2.2.2", Some("DE")),
            http_at("3.3.3.3", None),
        ],
        cfg,
    );
    assert_eq!(pool.len(), 1);
    assert_eq!(pool.proxies()[0].addr(), "1.1.1.1:80");
    assert!(!pool.import(http_at("4.4.4.4", Some("FR"))));
    assert!(pool.import(http_at("5.5.5.5", Some("US"))));
}

#[test]
fn unhealthy_proxies_are_evicted() {
    let mut pool = Pool::from_proxies(vec![], PoolConfig::default());
    let mut p = http_at("1.1.1.1", None);
    p.requests = 5;
    p.error_rate = m(0.51);
    assert!(!pool.put_ok(p.clone()));
    assert_eq!(pool.evictions(), 1);
    p.error_rate = m(0.5);
    assert!(pool.put_ok(p.clone()), "at the bound it is kept");
    p.avg_resp_time = m(8.5);
    p.requests = 4;
    assert!(pool.put_failed(p.clone(), 3), "too few requests to judge");
    assert_eq!(pool.entries[1].blocked_until, Some(3 + 30 * SECOND));
    p.requests = 5;
    assert!(!pool.put_failed(p, 3));
    assert_eq!(pool.evictions(), 2);
    assert_eq!(pool.len(), 2);
}

#[test]
fn a_measure_that_is_no_number_evicts_nothing() {
    let mut pool = Pool::from_proxies(vec![], PoolConfig::default());
    let mut p = http_at("1.1.1.1", None);
    p.requests = 5;
    p.error_rate = m(f64::NAN);
    assert!(pool.put_ok(p));
}

#[test]
fn add_keeps_one_proxy_to_an_address() {
    let mut pool = Pool::from_proxies(vec![http_at("2.2.2.2", None)], PoolConfig::default());
    assert!(!pool.add(http_at("2.2.2.2", None)));
    assert!(pool.add(http_at("1.1.1.1", None)));
    let addrs = pool.addrs();
    assert_eq!(
        addrs.items,
        vec![(ip("1.1.1.1"), 80), (ip("2.2.2.2"), 80)]
    );
    assert!(addrs.contains(ip("1.1.1.1"), 80));
    assert!(pool.remove_addr(ip("1.1.1.1"), 80));
    assert!(!pool.is_empty());
}

#[test]
fn sessions_are_bounded_and_remembered() {
    let mut s = Sessions::new();
    let a = ClientKey::Header("a".into());
    let b = ClientKey::Header("b".into());
    let c = ClientKey::Ip(ip("1.1.1.1"));
    s.record(2, a.clone(), (ip("1.1.1.1"), 1));
    s.record(2, b.clone(), (ip("2.2.2.2"), 2));
    s.record(2, a.clone(), (ip("3.3.3.3"), 3));
    assert_eq!(s.get(&a), Some((ip("3.3.3.3"), 3)));
    s.record(2, c.clone(), (ip("4.4.4.4"), 4));
    assert_eq!(s.get(&a), None, "one pin makes room");
    assert_eq!(s.get(&b), Some((ip("2.2.2.2"), 2)));
    assert_eq!(s.get(&c), Some((ip("4.4.4.4"), 4)));
}

#[test]
fn sticky_pool_pins_its_clients() {
    let cfg = PoolConfig {
        strategy: Strategy::Sticky,
        ..PoolConfig::default()
    };
    let mut slow = http_at("2.2.2.2", None);
    slow.avg_resp_time = m(0.9);
    let mut pool = Pool::from_proxies(vec![slow, http_at("1.1.1.1", None)], cfg);
    let p = pool.try_select(Scheme::Http, &key(), 0).unwrap();
    assert_eq!(p.addr(), "1.1.1.1:80");
    let mut worse = p.clone();
    worse.avg_resp_time = m(5.0);
    pool.put_ok(worse);
    let again = pool.try_select(Scheme::Http, &key(), 0).unwrap();
    assert_eq!(again.addr(), "1.1.1.1:80", "pinned though slower now");
    pool.put_ok(again);
    let other = ClientKey::Header("x".into());
    assert_eq!(
        pool.try_select(Scheme::Http, &other, 0).unwrap().addr(),
        "2.2.2.2:80"
    );
}

#[test]
fn round_robin_and_random_pools_move_on() {
    let cfg = PoolConfig {
        strategy: Strategy::RoundRobin,
        ..PoolConfig::default()
    };
    let mut pool = Pool::from_proxies(
        vec![http_at("1.1.1.1", None), http_at("2.2.2.2", None)],
        cfg,
    );
    assert!(pool.try_select(Scheme::Http, &key(), 0).is_some());
    assert_eq!(pool.round_robin, 1);
    let cfg = PoolConfig {
        strategy: Strategy::Random,
        ..PoolConfig::default()
    };
    let mut pool = Pool::from_proxies(vec![http_at("1.1.1.1", None)], cfg);
    let before = pool.random.state;
    assert!(pool.try_select(Scheme::Http, &key(), 0).is_some());
    assert_ne!(pool.random.state, before);
    let x = 0x9E37_79B9_7F4A_7C15u64;
    let a = x ^ (x << 13);
    let b = a ^ (a >> 7);
    assert_eq!(pool.random.state, b ^ (b << 17));
}

#[test]
fn choose_proto_follows_preference() {
    let mut p = Proxy::new(ip("1.1.1.1"), 1, ProtoSet::new());
    assert_eq!(choose_proto(&p, Scheme::Https), Proto::Https);
    assert_eq!(choose_proto(&p, Scheme::Http), Proto::Http);
    p.add_type(Proto::Socks4, None);
    assert_eq!(choose_proto(&p, Scheme::Https), Proto::Socks4);
    p.add_type(Proto::Socks5, Some(AnonLevel::High));
    assert_eq!(choose_proto(&p, Scheme::Http), Proto::Socks5);
    p.add_type(Proto::Connect80, None);
    assert_eq!(choose_proto(&p, Scheme::Http), Proto::Connect80);
    assert_eq!(choose_proto(&p, Scheme::Https), Proto::Socks5);
}

fn read_all(input: &[u8], auth: Option<&AuthExpect>) -> (Vec<u8>, Option<ClientRequest>, usize) {
    let mut intake = Intake::First;
    let mut at = 0;
    let mut written = Vec::new();
    loop {
        let n = intake.wanted();
        if at + n > input.len() {
            return (written, None, at);
        }
        let (reply, follow) = intake.step(&input[at..at + n], auth);
        at += n;
        written.extend(reply);
        match follow {
            Follow::Read(next) => intake = next,
            Follow::Request(r) => return (written, Some(r), at),
            Follow::Drop => return (written, None, at),
        }
    }
}

#[test]
fn forward_request_is_read() {
    let raw = b"GET http://example.com:81/x?y HTTP/1.1\r\nHost: other\r\nProxy-Authorization: Basic q\r\n\r\n";
    let mut input = raw.to_vec();
    input.extend_from_slice(b"tail");
    let (_, req, used) = read_all(&input, None);
    let req = req.unwrap();
    assert_eq!(used, raw.len());
    assert_eq!(req.scheme, Scheme::Http);
    assert_eq!(req.frontend, Frontend::HttpForward);
    assert_eq!((req.host.as_str(), req.port), ("example.com", 81));
    assert_eq!(req.raw, raw.to_vec());
    assert_eq!(req.proxy_auth, Some("Basic q".to_string()));
    assert_eq!(req.path, "http://example.com:81/x?y");
}

#[test]
fn host_header_stands_in_for_an_absolute_target() {
    let req = parse_request_head(b"GET /x HTTP/1.1\r\nhost: h:8\r\n\r\n".to_vec()).unwrap();
    assert_eq!((req.host.as_str(), req.port), ("h", 8));
    assert!(parse_request_head(b"GET /x HTTP/1.1\r\n\r\n".to_vec()).is_none());
    assert!(parse_request_head(b"GET\r\n\r\n".to_vec()).is_none());
    assert!(parse_request_head(Vec::new()).is_none());
}

#[test]
fn connect_request_is_read() {
    let req = parse_request_head(b"connect [::1]:8443 HTTP/1.1\r\n\r\n".to_vec()).unwrap();
    assert_eq!(req.scheme, Scheme::Https);
    assert_eq!(req.frontend, Frontend::HttpConnect);
    assert_eq!((req.host.as_str(), req.port), ("::1", 8443));
    assert!(req.raw.is_empty());
    let req = parse_request_head(b"CONNECT host HTTP/1.1\r\n\r\n".to_vec()).unwrap();
    assert_eq!(req.port, 443);
}

#[test]
fn heads_end_at_a_blank_line_or_their_greatest_length() {
    let mut r = HeadReader::new(b'a');
    for _ in 0..65535 {
        r = match r.step(ReadEvent::Byte(b'a')) {
            HeadStep::More(r) => r,
            other => panic!("{other:?}"),
        };
    }
    assert_eq!(r.head.len(), 65536);
    assert!(matches!(
        r.step(ReadEvent::Byte(b'a')),
        HeadStep::Complete(h) if h.len() == 65537
    ));
    assert!(matches!(
        HeadReader::new(b'a').step(ReadEvent::Closed),
        HeadStep::Gone
    ));
}

fn status(events: &[ReadEvent]) -> StatusStep {
    let mut r = StatusReader::new();
    for e in events {
        match r.step(*e) {
            StatusStep::More(next) => r = next,
            end => return end,
        }
    }
    StatusStep::More(r)
}

#[test]
fn status_lines_end_at_a_line_feed_or_fail() {
    assert!(matches!(
        status(&[ReadEvent::Byte(b'H'), ReadEvent::Byte(10)]),
        StatusStep::Line(l) if l == vec![b'H', 10]
    ));
    assert!(matches!(
        status(&[ReadEvent::Closed]),
        StatusStep::Failed(ProxyError::EmptyRecv)
    ));
    assert!(matches!(
        status(&[ReadEvent::Failed]),
        StatusStep::Failed(ProxyError::Reset)
    ));
    assert!(matches!(
        status(&[ReadEvent::Byte(1), ReadEvent::TimedOut]),
        StatusStep::Failed(ProxyError::Timeout)
    ));
    assert!(matches!(
        status(&[ReadEvent::Byte(b'x'); 300]),
        StatusStep::Line(l) if l.len() == 256
    ));
}

#[test]
fn socks_client_without_login_is_let_in() {
    let mut input = vec![5, 2, 1, 0, 5, 1, 0, 3, 11];
    input.extend_from_slice(b"example.com");
    input.extend_from_slice(&[0x1f, 0x90]);
    let (written, req, _) = read_all(&input, None);
    let req = req.unwrap();
    assert_eq!(written, vec![5, 0]);
    assert_eq!((req.host.as_str(), req.port), ("example.com", 8080));
    assert_eq!(req.path, "example.com:8080");
    assert_eq!(req.frontend, Frontend::Socks5);
    assert_eq!(req.scheme, Scheme::Https);
}

#[test]
fn socks_addresses_of_both_versions_are_read() {
    let (_, req, _) = read_all(&[5, 1, 0, 5, 1, 0, 1, 10, 0, 0, 1, 0, 80], None);
    let req = req.unwrap();
    assert_eq!((req.host.as_str(), req.port), ("10.0.0.1", 80));
    let mut input = vec![5, 1, 0, 5, 1, 0, 4];
    input.extend_from_slice(&[0x20, 1, 0x0d, 0xb8, 0, 0, 0, 0, 0, 0, 0, 0, 0, 0, 0, 1]);
    input.extend_from_slice(&[1, 187]);
    let (_, req, _) = read_all(&input, None);
    let req = req.unwrap();
    assert_eq!((req.host.as_str(), req.port), ("2001:db8::1", 443));
}

#[test]
fn socks_login_is_checked() {
    let auth = AuthExpect::new("user:pa:ss");
    assert_eq!((auth.user.as_str(), auth.pass.as_str()), ("user", "pa:ss"));
    let mut input = vec![5, 1, 2, 1, 4];
    input.extend_from_slice(b"user");
    input.push(5);
    input.extend_from_slice(b"pa:ss");
    input.extend_from_slice(&[5, 1, 0, 1, 1, 2, 3, 4, 0, 5]);
    let (written, req, _) = read_all(&input, Some(&auth));
    assert_eq!(written, vec![5, 2, 1, 0]);
    assert_eq!(req.unwrap().host, "1.2.3.4");
    let mut wrong = input.clone();
    wrong[12] = b'X';
    let (written, req, _) = read_all(&wrong, Some(&auth));
    assert_eq!(written, vec![5, 2, 1, 1]);
    assert!(req.is_none());
    let (written, req, _) = read_all(&[5, 1, 0], Some(&auth));
    assert_eq!(written, vec![5, 255]);
    assert!(req.is_none());
}

#[test]
fn socks_refusals_name_their_reason() {
    let (written, req, _) = read_all(&[5, 1, 2], None);
    assert_eq!((written, req.is_none()), (vec![5, 255], true));
    let (written, req, _) = read_all(&[5, 1, 0, 5, 2, 0, 1], None);
    assert_eq!(written, vec![5, 0, 5, 7, 0, 1, 0, 0, 0, 0, 0, 0]);
    assert!(req.is_none());
    let (written, req, _) = read_all(&[5, 1, 0, 5, 1, 0, 9], None);
    assert_eq!(written, vec![5, 0, 5, 8, 0, 1, 0, 0, 0, 0, 0, 0]);
    assert!(req.is_none());
    let (written, req, _) = read_all(&[5, 1, 0, 4, 1, 0, 1], None);
    assert_eq!((written, req.is_none()), (vec![5, 0], true));
    assert_eq!(Stage::Host6.wanted(), 16);
    let step = Stage::Name(2).step(&[b'h', 0xff], None);
    match step.next {
        Next::Read(Stage::Port(h)) => assert_eq!(h, "h\u{fffd}"),
        other => panic!("{other:?}"),
    }
}

fn forward(raw: &[u8]) -> ClientRequest {
    parse_request_head(raw.to_vec()).unwrap()
}

#[test]
fn login_is_asked_before_anything_else() {
    let auth = AuthExpect::new("u:p");
    assert_eq!(auth.basic, "Basic dTpw");
    let open = forward(b"GET http://proxycontrol/api/x/y HTTP/1.1\r\n\r\n");
    assert_eq!(screen(&open, None), Admission::Control);
    assert_eq!(screen(&open, Some(&auth)), Admission::Refuse);
    let known = forward(
        b"GET http://proxycontrol/ HTTP/1.1\r\nProxy-Authorization: Basic dTpw\r\n\r\n",
    );
    assert_eq!(screen(&known, Some(&auth)), Admission::Control);
    let other = forward(b"GET http://x/ HTTP/1.1\r\nProxy-Authorization: Basic dTpw\r\n\r\n");
    assert_eq!(screen(&other, Some(&auth)), Admission::Relay);
    let mut socks = forward(b"GET http://x/ HTTP/1.1\r\n\r\n");
    socks.frontend = Frontend::Socks5;
    assert_eq!(screen(&socks, Some(&auth)), Admission::Relay);
    assert!(login_required().starts_with(b"HTTP/1.1 407 "));
}

#[test]
fn base64_is_padded() {
    assert_eq!(basic_header_value(""), "Basic ");
    assert_eq!(basic_header_value("f"), "Basic Zg==");
    assert_eq!(basic_header_value("fo"), "Basic Zm8=");
    assert_eq!(basic_header_value("foo"), "Basic Zm9v");
    assert_eq!(basic_header_value("ÿ?>~"), "Basic w78/Pn4=");
}

#[test]
fn failures_are_told_in_the_clients_protocol() {
    assert_eq!(
        terminal_failure(Frontend::HttpForward),
        b"HTTP/1.1 502 Bad Gateway\r\n\r\n".to_vec()
    );
    assert_eq!(
        terminal_failure(Frontend::Socks5),
        vec![5, 1, 0, 1, 0, 0, 0, 0, 0, 0]
    );
}

#[test]
fn clients_are_known_by_header_or_address() {
    let peer = ip("9.8.7.6");
    let cfg = PoolConfig {
        sticky_header: Some("X-User".into()),
        ..PoolConfig::default()
    };
    let named = forward(b"GET http://x/ HTTP/1.1\r\nx-user: ann\r\n\r\n");
    assert_eq!(
        client_key(&cfg, peer, &named),
        ClientKey::Header("ann".into())
    );
    let tunnel = forward(b"CONNECT x:1 HTTP/1.1\r\nx-user: ann\r\n\r\n");
    assert_eq!(client_key(&cfg, peer, &tunnel), ClientKey::Ip(peer));
    assert_eq!(
        client_key(&PoolConfig::default(), peer, &named),
        ClientKey::Ip(peer)
    );
}

#[test]
fn tries_end_with_the_first_that_the_client_saw() {
    let mut t = Tries::new(3);
    assert_eq!(t.first(), Then::Lease);
    assert!(!t.is_rotation(ip("1.1.1.1"), 80));
    t.last = Some((ip("1.1.1.1"), 80));
    let after = t.after_relay(RelayOutcome::RetryableFailure(ProxyError::Timeout));
    assert_eq!(after.verdict, Verdict::Failed(ProxyError::Timeout));
    assert_eq!(after.next, Then::Lease);
    assert!(!t.is_rotation(ip("1.1.1.1"), 80), "the same proxy again");
    assert!(t.is_rotation(ip("1.1.1.1"), 81));
    assert!(t.is_rotation(ip("2.2.2.2"), 80));
    let after = t.after_relay(RelayOutcome::ClientCommitted(ProxyError::ErrorOnStream));
    assert_eq!(after.next, Then::Stop);
    assert!(!after.remember);
    let mut t = Tries::new(1);
    assert_eq!(
        t.after_relay(RelayOutcome::RetryableFailure(ProxyError::Reset)).next,
        Then::Fail
    );
    let mut t = Tries::new(1);
    let after = t.after_relay(RelayOutcome::Served);
    assert!(after.remember && after.verdict == Verdict::Healthy && after.next == Then::Stop);
    let mut t = Tries::new(1);
    let after = t.after_relay(RelayOutcome::ClientGone);
    assert!(!after.remember && after.verdict == Verdict::Healthy && after.next == Then::Stop);
    assert_eq!(Tries::new(0).first(), Then::Fail);
}

fn work(
    events: Vec<RelayEvent>,
    proxy: &Proxy,
    req: &ClientRequest,
    allowed: Option<&Vec<u16>>,
) -> Vec<RelayAction> {
    let (mut state, first) = relay_start();
    let mut out = vec![first];
    for e in events {
        let (next, action) = relay_step(state, e, proxy, Proto::Http, req, allowed);
        state = next;
        out.push(action);
        if state == RelayState::Over {
            break;
        }
    }
    out
}

#[test]
fn forwarded_request_is_relayed_with_its_status() {
    let p = http_at("1.1.1.1", None);
    let req = forward(b"GET http://x/ HTTP/1.1\r\nProxy-Authorization: Basic s\r\nA: b\r\n\r\n");
    let out = work(
        vec![
            RelayEvent::Done,
            RelayEvent::Done,
            RelayEvent::Done,
            RelayEvent::Status(b"HTTP/1.1 200 OK\r\n".to_vec()),
            RelayEvent::Done,
            RelayEvent::Done,
        ],
        &p,
        &req,
        Some(&vec![200]),
    );
    assert_eq!(
        out,
        vec![
            RelayAction::Connect,
            RelayAction::Negotiate(Proto::Http),
            RelayAction::WriteUpstream(b"GET http://x/ HTTP/1.1\r\nA: b\r\n\r\n".to_vec()),
            RelayAction::ReadStatus,
            RelayAction::WriteClient(
                b"HTTP/1.1 200 OK\r\nX-Proxy-Info: 1.1.1.1:80\r\n".to_vec()
            ),
            RelayAction::Splice,
            RelayAction::Finish(RelayOutcome::Served),
        ]
    );
}

#[test]
fn disallowed_status_is_retried_elsewhere() {
    let p = http_at("1.1.1.1", None);
    let req = forward(b"GET http://x/ HTTP/1.1\r\n\r\n");
    let out = work(
        vec![
            RelayEvent::Done,
            RelayEvent::Done,
            RelayEvent::Done,
            RelayEvent::Status(b"HTTP/1.1 403 No\r\n".to_vec()),
        ],
        &p,
        &req,
        Some(&vec![200, 204]),
    );
    assert_eq!(
        out.last(),
        Some(&RelayAction::Finish(RelayOutcome::RetryableFailure(
            ProxyError::DisallowedStatus(403)
        )))
    );
    assert!(!out.iter().any(|a| matches!(a, RelayAction::WriteClient(_))));
}

#[test]
fn status_that_cannot_be_read_is_never_allowed() {
    let p = http_at("1.1.1.1", None);
    let req = forward(b"GET http://x/ HTTP/1.1\nProxy-Authorization: Basic s\nA: b\r\n\r\n");
    let out = work(
        vec![
            RelayEvent::Done,
            RelayEvent::Done,
            RelayEvent::Done,
            RelayEvent::Status(b"garbage\n".to_vec()),
        ],
        &p,
        &req,
        Some(&vec![0, 200]),
    );
    assert_eq!(
        out[2],
        RelayAction::WriteUpstream(b"GET http://x/ HTTP/1.1\nA: b\r\n\r\n".to_vec()),
        "a login on a line that ends with a line feed alone is not sent on either"
    );
    assert_eq!(
        out.last(),
        Some(&RelayAction::Finish(RelayOutcome::RetryableFailure(
            ProxyError::DisallowedStatus(0)
        )))
    );
}

#[test]
fn proxy_login_replaces_the_clients() {
    let mut p = http_at("1.1.1.1", None);
    p.auth = Some(Credentials {
        username: "u".into(),
        password: "p".into(),
    });
    let req = forward(b"POST http://x/ HTTP/1.1\r\nProxy-Authorization: Basic s\r\nContent-Length: 2\r\n\r\n");
    let out = work(
        vec![RelayEvent::Done, RelayEvent::Done, RelayEvent::Done],
        &p,
        &req,
        None,
    );
    assert_eq!(
        out[2],
        RelayAction::WriteUpstream(
            b"POST http://x/ HTTP/1.1\r\nProxy-Authorization: Basic dTpw\r\nContent-Length: 2\r\n\r\n"
                .to_vec()
        )
    );
    assert_eq!(out[3], RelayAction::Splice, "a body is not waited behind");
    match &out[2] {
        RelayAction::WriteUpstream(sent) => assert_eq!(
            strip_header(sent, "Proxy-Authorization"),
            strip_header(&req.raw, "Proxy-Authorization"),
            "nothing but the login differs"
        ),
        other => panic!("{other:?}"),
    }
}

#[test]
fn tunnels_are_acknowledged_in_kind() {
    let p = http_at("1.1.1.1", None);
    let req = forward(b"CONNECT x:443 HTTP/1.1\r\n\r\n");
    let out = work(vec![RelayEvent::Done, RelayEvent::Done], &p, &req, None);
    assert_eq!(
        out[2],
        RelayAction::WriteClient(
            b"HTTP/1.1 200 Connection established\r\nX-Proxy-Info: 1.1.1.1:80\r\n\r\n".to_vec()
        )
    );
    let mut socks = forward(b"CONNECT x:443 HTTP/1.1\r\n\r\n");
    socks.frontend = Frontend::Socks5;
    let out = work(
        vec![RelayEvent::Done, RelayEvent::Done, RelayEvent::Failed],
        &p,
        &socks,
        None,
    );
    assert_eq!(
        out[2],
        RelayAction::WriteClient(vec![5, 0, 0, 1, 0, 0, 0, 0, 0, 0])
    );
    assert_eq!(out[3], RelayAction::Finish(RelayOutcome::ClientGone));
}

#[test]
fn relay_failures_are_told_apart() {
    let p = http_at("1.1.1.1", None);
    let req = forward(b"GET http://x/ HTTP/1.1\r\n\r\n");
    let end = |events| work(events, &p, &req, None).pop().unwrap();
    let retry = |e| RelayAction::Finish(RelayOutcome::RetryableFailure(e));
    assert_eq!(end(vec![RelayEvent::TimedOut]), retry(ProxyError::Timeout));
    assert_eq!(end(vec![RelayEvent::Failed]), retry(ProxyError::ConnFailed));
    assert_eq!(
        end(vec![
            RelayEvent::Done,
            RelayEvent::ProxyFailed(ProxyError::BadStatus)
        ]),
        retry(ProxyError::BadStatus)
    );
    assert_eq!(
        end(vec![RelayEvent::Done, RelayEvent::Done, RelayEvent::Failed]),
        retry(ProxyError::Reset)
    );
    assert_eq!(
        end(vec![
            RelayEvent::Done,
            RelayEvent::Done,
            RelayEvent::Done,
            RelayEvent::ProxyFailed(ProxyError::EmptyRecv)
        ]),
        retry(ProxyError::EmptyRecv)
    );
    assert_eq!(
        end(vec![
            RelayEvent::Done,
            RelayEvent::Done,
            RelayEvent::Done,
            RelayEvent::Status(b"HTTP/1.1 200 OK\n".to_vec()),
            RelayEvent::Done,
            RelayEvent::Failed
        ]),
        RelayAction::Finish(RelayOutcome::ClientCommitted(ProxyError::ErrorOnStream))
    );
}

#[test]
fn control_requests_are_read() {
    assert_eq!(
        parse_command("http://proxycontrol/api/remove/1.2.3.4:80"),
        Command::Remove(ip("1.2.3.4"), 80)
    );
    assert_eq!(
        parse_command("//api/remove/[2001:db8::1]:443"),
        Command::Remove(IpAddr::V6(0x2001_0db8 << 96 | 1), 443)
    );
    assert_eq!(parse_command("/api/remove/host:443"), Command::Unknown);
    assert_eq!(
        parse_command("http://proxycontrol/api/history/url:http://x/y"),
        Command::History("http://x/y".into())
    );
    assert_eq!(
        parse_command("http://proxycontrol/api/history/x"),
        Command::History("".into())
    );
    assert_eq!(
        parse_command("http://proxycontrol/api/remove"),
        Command::Unknown
    );
    assert_eq!(parse_command("/api/other/x"), Command::Unknown);
}

#[test]
fn control_answers_from_the_history() {
    let peer = ip("9.9.9.9");
    let mut h = History::new();
    h.record(history_key(peer, "http://x/"), "1.2.3.4:80".into());
    assert_eq!(
        respond(&Command::History("http://x/".into()), &h, peer),
        "HTTP/1.1 200 OK\r\nContent-Type: application/json\r\nContent-Length: 25\r\nAccess-Control-Allow-Origin: *\r\nAccess-Control-Allow-Credentials: true\r\n\r\n{\"proxy\": \"1.2.3.4:80\"}\r\n"
    );
    let none = "HTTP/1.1 204 No Content\r\n\r\n";
    assert_eq!(respond(&Command::History("y".into()), &h, peer), none);
    assert_eq!(
        respond(&Command::History("http://x/".into()), &h, ip("1.1.1.1")),
        none
    );
    assert_eq!(respond(&Command::Remove(peer, 1), &h, peer), none);
    assert_eq!(respond(&Command::Unknown, &h, peer), none);
}

#[test]
fn history_starts_over_when_full() {
    let mut h = History::new();
    h.entries = (0..HISTORY_CAP)
        .map(|i| (i.to_string(), "p".to_string()))
        .collect();
    h.record("0".into(), "q".into());
    assert_eq!(h.get("0"), Some("q".to_string()));
    assert_eq!(h.entries.len(), HISTORY_CAP);
    h.record("new".into(), "r".into());
    assert_eq!(h.entries.len(), 1);
    assert_eq!(h.get("0"), None);
    assert_eq!(h.get("new"), Some("r".to_string()));
}

#[test]
fn a_removal_request_drops_the_proxy() {
    let peer = ip("9.9.9.9");
    let mut pool = Pool::from_proxies(
        vec![http_at("1.1.1.1", None), http_at("2.2.2.2", None)],
        PoolConfig::default(),
    );
    let none = "HTTP/1.1 204 No Content\r\n\r\n";
    let h = History::new();
    let path = "http://proxycontrol/api/remove/1.1.1.1:80";
    assert_eq!(serve_control(path, &mut pool, &h, peer), none);
    assert_eq!(pool.addrs().items, vec![(ip("2.2.2.2"), 80)]);
    assert_eq!(serve_control(path, &mut pool, &h, peer), none);
    assert_eq!(serve_control("/api/remove/x:80", &mut pool, &h, peer), none);
    assert_eq!(pool.len(), 1);
}

fn rates(error_rate: f64, avg_resp_time: f64) -> Rates {
    Rates {
        error_rate: Measure {
            bits: error_rate.to_bits(),
        },
        avg_resp_time: Measure {
            bits: avg_resp_time.to_bits(),
        },
    }
}

#[test]
fn going_on_to_a_different_proxy_is_a_rotation() {
    let mut pool = Pool::from_proxies(vec![], PoolConfig::default());
    let mut tries = Tries::new(4);
    let (a, b) = (http_at("1.1.1.1", None), http_at("2.2.2.2", None));
    for (p, rotations) in [(&a, 0), (&b, 1), (&b, 1), (&a, 2)] {
        begin_try(&mut tries, &mut pool, p);
        assert_eq!(pool.rotations(), rotations);
    }
    assert_eq!(tries.last, Some((ip("1.1.1.1"), 80)));
}

#[test]
fn counts_stop_at_the_largest() {
    let mut p = http_at("1.1.1.1", None);
    p.requests = u32::MAX;
    p.errors = u32::MAX;
    p.record_attempt(true, rates(1.0, 2.0));
    assert_eq!((p.requests, p.errors), (u32::MAX, u32::MAX));
    p.errors = 3;
    p.record_attempt(false, rates(0.0, 2.0));
    assert_eq!((p.requests, p.errors), (u32::MAX, 3));
    assert_eq!(p.avg_resp_time, rates(0.0, 2.0).avg_resp_time);
}

#[test]
fn try_get_passes_over_a_benched_proxy() {
    let h = |host: &str, rt: f64| {
        let mut p = http_at(host, None);
        p.record_attempt(false, rates(0.0, rt));
        p
    };
    let mut pool = Pool::from_proxies(
        vec![h("1.1.1.1", 0.9), h("2.2.2.2", 0.1)],
        PoolConfig::default(),
    );
    let b = pool.try_get(Scheme::Http, None, 0).unwrap();
    assert_eq!(b.addr(), "2.2.2.2:80");
    pool.put_failed(b, 0);
    let a = pool.try_get(Scheme::Http, None, 1).unwrap();
    assert_eq!(a.addr(), "1.1.1.1:80", "the other is benched");
    let b = pool.try_get(Scheme::Http, None, 1).unwrap();
    assert_eq!(b.addr(), "2.2.2.2:80", "it is the only one left");
    pool.put_ok(a);
    pool.put_failed(b, 0);
    let late = 30 * SECOND;
    assert_eq!(
        pool.try_get(Scheme::Http, None, late).unwrap().addr(),
        "2.2.2.2:80",
        "its bench is over"
    );
}

#[test]
fn strip_header_drops_lines_however_they_end() {
    let raw = b"GET / HTTP/1.1\nproxy-authorization: Basic a\nHost: x\r\nProxy-Authorization: b\r\n\r\nProxy-Authorization: c";
    let s = strip_header(raw, "Proxy-Authorization");
    assert_eq!(s, b"GET / HTTP/1.1\nHost: x\r\n\r\n".to_vec());
    assert_eq!(header_value(raw, "Proxy-Authorization"), Some("Basic a".to_string()));
    assert_eq!(header_value(&s, "Proxy-Authorization"), None);
    assert_eq!(strip_header(&s, "Proxy-Authorization"), s);
    assert_eq!(strip_header(b"", "A"), b"".to_vec());
    assert_eq!(strip_header(b"A: only", "A"), b"A: only".to_vec());
}

#[test]
fn headers_are_read_from_lines_that_are_no_text() {
    let raw = b"GET / HTTP/1.1\r\nA: \xff\nHost: x\r\n\r\n";
    assert_eq!(header_value(raw, "Host"), Some("x".to_string()));
    assert_eq!(header_value(raw, "A"), Some("\u{fffd}".to_string()));
}

#[test]
fn a_try_gives_the_proxy_back() {
    let mut pool = Pool::from_proxies(vec![http_at("1.1.1.1", None)], PoolConfig::default());
    let mut history = History::new();
    let mut tries = Tries::new(2);
    let peer = ip("9.9.9.9");
    let req = forward(b"GET http://x/ HTTP/1.1\r\n\r\n");
    let p = pool.try_select(Scheme::Http, &key(), 0).unwrap();
    begin_try(&mut tries, &mut pool, &p);
    assert_eq!(pool.rotations(), 0);
    let failed = RelayOutcome::RetryableFailure(ProxyError::Timeout);
    assert!(charges_error(failed) && !charges_error(RelayOutcome::ClientGone));
    assert_eq!(p.counts_after(true), (p.requests + 1, p.errors + 1));
    let was = (p.requests, p.errors);
    let all_failed = rates(1.0, 0.0);
    let next = conclude_try(
        &mut tries, &mut pool, &mut history, peer, &req, p, failed, all_failed, 5,
    );
    assert_eq!(next, Then::Lease);
    let back = &pool.entries[0].proxy;
    assert_eq!((back.requests, back.errors), (was.0 + 1, was.1 + 1));
    assert_eq!(back.error_rate, all_failed.error_rate);
    assert_eq!(pool.entries[0].blocked_until, Some(5 + 30 * SECOND));
    assert_eq!(history.get(&history_key(peer, "http://x/")), None);
    let p = pool.try_select(Scheme::Http, &key(), 6).unwrap();
    begin_try(&mut tries, &mut pool, &p);
    assert_eq!(pool.rotations(), 0, "the same proxy again is no rotation");
    let served = RelayOutcome::Served;
    let next = conclude_try(
        &mut tries, &mut pool, &mut history, peer, &req, p, served, rates(0.5, 0.0), 7,
    );
    assert_eq!(next, Then::Stop);
    let back = &pool.entries[0].proxy;
    assert_eq!((back.requests, back.errors), (was.0 + 2, was.1 + 1));
    assert_eq!(pool.entries[0].blocked_until, None);
    assert_eq!(
        history.get(&history_key(peer, "http://x/")),
        Some("1.1.1.1:80".to_string())
    );
}

use proxybroker::addr::IpAddr;
use proxybroker::broker::{
    check_query, checker_config, choose_geo, country_ok, locate, uppercase_set, CapsFilter,
    Emission, FindQuery, Gather, GrabQuery, Offer, Screen, Slot,
};
use proxybroker::proxy::{Country, Proxy};
use proxybroker::types::{
    AnonLevel, Duration, Error, Proto, ProtoSet, ProxyError, RetryPolicy, TypeSpec,
};

fn host(last: u8) -> IpAddr {
    IpAddr::V4(0x0a00_0000 + u32::from(last))
}

fn in_country(code: &str) -> Proxy {
    let mut p = Proxy::new(host(1), 80, ProtoSet::new());
    p.geo = Some(Country {
        code: code.to_string(),
        ..Default::default()
    });
    p
}

#[test]
fn find_query_builder_matches_default() {
    let built = FindQuery::builder()
        .types(vec![TypeSpec::any(Proto::Http)])
        .limit(10)
        .build();
    let hand = FindQuery {
        types: vec![TypeSpec::any(Proto::Http)],
        limit: Some(10),
        ..Default::default()
    };
    assert_eq!(built, hand);
}

#[test]
fn find_query_builder_limit_zero_is_unlimited() {
    assert_eq!(FindQuery::builder().limit(0).build().limit, None);
}

#[test]
fn find_query_builder_sets_every_field() {
    let q = FindQuery::builder()
        .types(vec![TypeSpec::any(Proto::Socks5)])
        .countries(vec!["US".into()])
        .limit(5)
        .judges(vec!["http://j/".into()])
        .dnsbl(vec!["zen.example.org".into()])
        .timeout(Duration::from_secs(3))
        .max_conn(7)
        .max_tries(2)
        .post(true)
        .strict(true)
        .build();
    assert_eq!(
        q,
        FindQuery {
            types: vec![TypeSpec::any(Proto::Socks5)],
            countries: Some(vec!["US".into()]),
            limit: Some(5),
            judges: vec!["http://j/".into()],
            dnsbl: vec!["zen.example.org".into()],
            timeout: Duration::from_secs(3),
            max_conn: 7,
            retry: RetryPolicy::tries(2),
            post: true,
            strict: true,
            liveness_url: None,
            relaxed_validity: false,
            require_cookie: false,
            require_referer: false,
            require_connect25: false,
            trust_check: false,
            require_trusted: false,
        }
    );
}

#[test]
fn unset_builder_gives_the_default() {
    let q = FindQuery::builder().build();
    assert_eq!(q, FindQuery::default());
    assert_eq!(q.timeout, Duration::from_secs(8));
    assert_eq!(q.max_conn, 200);
    assert_eq!(q.retry, RetryPolicy::default());
}

#[test]
fn builder_takes_a_retry_policy_and_a_page() {
    let q = FindQuery::builder()
        .retry(RetryPolicy::transient(4))
        .liveness_url(Some("http://l/".into()))
        .build();
    assert_eq!(q.retry.max_tries, 4);
    assert_eq!(q.liveness_url, Some("http://l/".to_string()));
}

#[test]
fn a_query_needs_a_protocol() {
    assert_eq!(check_query(&FindQuery::default()), Err(Error::NoTypes));
    let q = FindQuery::builder()
        .types(vec![TypeSpec::any(Proto::Http)])
        .build();
    assert_eq!(check_query(&q), Ok(()));
}

#[test]
fn checker_is_set_as_the_query_says() {
    let mut q = FindQuery::builder()
        .types(vec![TypeSpec {
            proto: Proto::Http,
            levels: Some(vec![AnonLevel::High]),
        }])
        .judges(vec!["j".into()])
        .dnsbl(vec!["d".into()])
        .post(true)
        .build();
    q.trust_check = true;
    let c = checker_config(&q);
    assert_eq!(c.types, q.types);
    assert_eq!(c.judges, q.judges);
    assert_eq!(c.dnsbl, q.dnsbl);
    assert!(c.post && c.trust_check && !c.strict && !c.relaxed_validity);
    assert_eq!(c.timeout, q.timeout);
    assert_eq!(c.retry, q.retry);
    assert_eq!(c.liveness_url, None);
}

#[test]
fn countries_compare_in_upper_case() {
    let codes = uppercase_set(Some(&vec!["us".to_string(), "ß".to_string()]));
    assert_eq!(codes, Some(vec!["US".to_string(), "SS".to_string()]));
    assert_eq!(uppercase_set(None), None);
    assert!(country_ok(&in_country("uS"), codes.as_ref()));
    assert!(!country_ok(&in_country("DE"), codes.as_ref()));
    assert!(country_ok(&in_country("DE"), None));
    let nowhere = Proxy::new(host(1), 80, ProtoSet::new());
    assert!(!country_ok(&nowhere, codes.as_ref()));
    assert!(country_ok(&nowhere, None));
}

#[test]
fn capabilities_are_asked_for_one_by_one() {
    let mut q = FindQuery::default();
    let mut p = Proxy::new(host(1), 80, ProtoSet::new());
    p.trusted = false;
    assert!(CapsFilter::from_query(&q).passes(&p));
    q.require_cookie = true;
    assert!(!CapsFilter::from_query(&q).passes(&p));
    p.capabilities.cookie_echo = true;
    assert!(CapsFilter::from_query(&q).passes(&p));
    q.require_referer = true;
    q.require_connect25 = true;
    p.capabilities.referer_echo = true;
    assert!(!CapsFilter::from_query(&q).passes(&p));
    p.capabilities.connect25 = true;
    assert!(CapsFilter::from_query(&q).passes(&p));
    q.require_trusted = true;
    assert!(!CapsFilter::from_query(&q).passes(&p));
    p.trusted = true;
    assert!(CapsFilter::from_query(&q).passes(&p));
}

#[test]
fn candidates_are_taken_once() {
    let mut s = Screen::new(None);
    assert!(s.take("example.com", 80, ProtoSet::new(), None, None).is_none());
    let p = s.take("10.0.0.1", 80, ProtoSet::new(), None, None).unwrap();
    assert_eq!(p.addr(), "10.0.0.1:80");
    assert!(s.take("10.0.0.1", 80, ProtoSet::new(), None, None).is_none());
    assert!(s.take("10.0.0.1", 81, ProtoSet::new(), None, None).is_some());
    assert!(s.take("010.0.0.2", 80, ProtoSet::new(), None, None).is_none());
    let p = s.take("2001:DB8::1", 80, ProtoSet::new(), None, None).unwrap();
    assert_eq!(p.addr(), "[2001:db8::1]:80");
    assert!(s.take("2001:db8:0::1", 80, ProtoSet::new(), None, None).is_none());
}

#[test]
fn unlocated_candidates_are_in_no_country() {
    let mut s = Screen::new(Some(&vec!["us".to_string()]));
    assert!(s.take("10.0.0.1", 80, ProtoSet::new(), None, None).is_none());
    assert!(s.seen.contains(host(1), 80), "seen all the same");
    let us = vec!["US".to_string()];
    assert!(locate(in_country("us"), Some(&us), None, None).is_some());
    assert!(locate(in_country("de"), Some(&us), None, None).is_none());
}

#[test]
fn emission_stops_with_the_last_place() {
    let caps = CapsFilter::from_query(&FindQuery::default());
    let p = Proxy::new(host(1), 80, ProtoSet::new());
    let mut e = Emission::new(Some(2));
    assert_eq!(e.settle(false, caps, &p), Slot { emit: false, cancel: false });
    assert_eq!(e.settle(true, caps, &p), Slot { emit: true, cancel: false });
    assert!(e.goes_on(false));
    assert!(!e.goes_on(true));
    assert_eq!(e.settle(true, caps, &p), Slot { emit: true, cancel: true });
    assert!(!e.goes_on(false));
    assert_eq!(e.settle(true, caps, &p), Slot { emit: false, cancel: true });
    let mut e = Emission::new(None);
    for _ in 0..5 {
        assert_eq!(e.settle(true, caps, &p), Slot { emit: true, cancel: false });
    }
    let mut e = Emission::new(Some(0));
    assert!(!e.goes_on(false));
    assert_eq!(e.settle(true, caps, &p), Slot { emit: false, cancel: true });
}

#[test]
fn gathering_stops_at_the_limit() {
    let mut g = Gather::new(&GrabQuery {
        countries: None,
        limit: Some(1),
    });
    assert_eq!(g.offer("example.com", 80, ProtoSet::new(), None, None), Offer::Skip);
    assert!(matches!(
        g.offer("10.0.0.1", 80, ProtoSet::new(), None, None),
        Offer::Send(_)
    ));
    assert_eq!(
        g.offer("10.0.0.1", 80, ProtoSet::new(), None, None),
        Offer::Skip
    );
    g.note_sent();
    assert_eq!(
        g.offer("10.0.0.2", 80, ProtoSet::new(), None, None),
        Offer::Stop
    );
}

#[test]
fn supplied_database_goes_first() {
    assert_eq!(choose_geo(Some(1), true, Some(2)), None);
    assert_eq!(choose_geo(Some(1), false, Some(2)), Some(1));
    assert_eq!(choose_geo(None, false, Some(2)), Some(2));
    assert_eq!(choose_geo(None, true, Some(2)), None);
    assert_eq!(choose_geo::<u8>(None, false, None), None);
}

#[test]
fn transient_errors_are_retried() {
    let p = RetryPolicy::transient(2);
    assert!(p.retry_on.contains(&ProxyError::Timeout));
    assert!(!p.retry_on.contains(&ProxyError::BadStatus));
    assert_eq!(RetryPolicy::tries(2).retry_on, vec![ProxyError::Timeout]);
}

#[test]
fn a_grab_sends_distinct_addresses_up_to_the_limit() {
    let hosts = ["1.1.1.1", "no address", "1.1.1.1", "2.2.2.2", "3.3.3.3", "4.4.4.4"];
    for (limit, expected) in [(Some(3), 3), (Some(9), 4), (None, 4), (Some(0), 0)] {
        let mut g = Gather::new(&GrabQuery {
            countries: None,
            limit,
        });
        let mut sent = Vec::new();
        for host in hosts {
            match g.offer(host, 80, ProtoSet::new(), None, None) {
                Offer::Send(p) => {
                    assert!(!sent.contains(&p.host));
                    sent.push(p.host);
                    g.note_sent();
                }
                Offer::Skip => {}
                Offer::Stop => break,
            }
        }
        assert_eq!(sent.len(), expected);
    }
}

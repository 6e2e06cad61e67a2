use proxybroker::addr::IpAddr;
use proxybroker::measure::Measure;
use proxybroker::parse::parse_ipv4_lenient;
use proxybroker::proxy::{Country, Proxy};
use proxybroker::server::pool::{Averages, Pool, PoolConfig};
use proxybroker::tui::{
    header_text, refresh_period, row_cells, DashboardState, Key, SortKey, RING_CAP,
};
use proxybroker::types::{Duration, Proto, ProtoSet};

fn m(x: f64) -> Measure {
    Measure { bits: x.to_bits() }
}

fn ip(s: &str) -> IpAddr {
    parse_ipv4_lenient(s).unwrap()
}

fn proxy(host: &str, rt: f64) -> Proxy {
    let mut p = Proxy::new(ip(host), 80, ProtoSet::new());
    p.add_type(Proto::Http, None);
    p.requests = 1;
    p.avg_resp_time = m(rt);
    p
}

fn means() -> Averages {
    Averages {
        error_rate: m(0.0),
        resp_time: m(0.5),
        probe_latency: m(0.0),
    }
}

fn ring(st: &DashboardState, host: &str) -> Vec<Measure> {
    st.history
        .iter()
        .find(|(k, _)| *k == (ip(host), 80))
        .unwrap()
        .1
        .clone()
}

#[test]
fn apply_snapshot_updates_rings_and_sorts() {
    let pool = Pool::from_proxies(
        vec![proxy("2.2.2.2", 0.9), proxy("1.1.1.1", 0.1)],
        PoolConfig::default(),
    );
    let mut st = DashboardState {
        sort: SortKey::RespTime,
        ..Default::default()
    };
    st.apply(&pool.proxies(), means());
    assert_eq!(
        st.rows[0].addr, "1.1.1.1:80",
        "fastest first under RespTime"
    );
    st.apply(&pool.proxies(), means());
    assert_eq!(ring(&st, "1.1.1.1").len(), 2, "ring grew per apply");
}

#[test]
fn top_renders_sorted_pool_table() {
    let pool = Pool::from_proxies(
        vec![proxy("2.2.2.2", 0.9), proxy("1.1.1.1", 0.1)],
        PoolConfig::default(),
    );
    let mut st = DashboardState {
        sort: SortKey::RespTime,
        ..Default::default()
    };
    st.apply(&pool.proxies(), means());

    let text: String = st
        .rows
        .iter()
        .map(|r| row_cells(r, "0.00", "0.00").join(" "))
        .collect();
    assert!(
        text.contains("1.1.1.1:80") && text.contains("2.2.2.2:80"),
        "both addrs rendered"
    );
    assert!(
        text.find("1.1.1.1").unwrap() < text.find("2.2.2.2").unwrap(),
        "sorted: fast first"
    );
}

#[test]
fn sort_key_cycles() {
    let pool = Pool::from_proxies(
        vec![proxy("9.9.9.9", 0.1), proxy("1.1.1.1", 0.9)],
        PoolConfig::default(),
    );
    let mut st = DashboardState::default();
    st.apply(&pool.proxies(), means());
    assert_eq!(
        st.rows[0].addr, "9.9.9.9:80",
        "fastest first under RespTime"
    );

    assert!(st.on_key(Key::Char('a')));
    assert_eq!(
        st.rows[0].addr, "1.1.1.1:80",
        "lexicographic first under Addr"
    );
}

#[test]
fn quit_key_returns_false() {
    let mut st = DashboardState::default();
    assert!(!st.on_key(Key::Char('q')), "q quits");
    assert!(!st.on_key(Key::Esc), "Esc quits");
}

#[test]
fn select_moves_within_bounds() {
    let pool = Pool::from_proxies(
        vec![
            proxy("1.1.1.1", 0.1),
            proxy("2.2.2.2", 0.2),
            proxy("3.3.3.3", 0.3),
        ],
        PoolConfig::default(),
    );
    let mut st = DashboardState::default();
    st.apply(&pool.proxies(), means());
    assert_eq!(st.selected, 0);

    assert!(st.on_key(Key::Up));
    assert_eq!(st.selected, 0, "up at 0 stays 0");

    for _ in 0..10 {
        st.on_key(Key::Down);
    }
    assert_eq!(st.selected, 2, "down past the end stays clamped");

    assert!(st.on_key(Key::Up));
    assert_eq!(st.selected, 1, "up moves back by one");
}

#[test]
fn history_keeps_the_latest() {
    let mut st = DashboardState::default();
    for i in 0..(RING_CAP + 5) {
        st.apply(&vec![proxy("1.1.1.1", i as f64)], means());
    }
    let r = ring(&st, "1.1.1.1");
    assert_eq!(r.len(), RING_CAP);
    assert_eq!(r[0], m(5.0));
    assert_eq!(st.selected_ring(), r);
    st.apply(&vec![], means());
    assert!(st.selected_ring().is_empty());
    assert_eq!(ring(&st, "1.1.1.1").len(), RING_CAP, "kept while away");
    assert_eq!(st.snapshot.total, 0);
    assert_eq!(st.snapshot.avg_resp_time, Measure::zero());
}

#[test]
fn rows_sort_by_every_column() {
    let mut a = proxy("1.1.1.1", 0.3);
    a.error_rate = m(0.2);
    a.geo = Some(Country {
        code: "US".into(),
        ..Default::default()
    });
    let mut b = proxy("2.2.2.2", 0.2);
    b.error_rate = m(0.3);
    b.geo = Some(Country {
        code: "DE".into(),
        ..Default::default()
    });
    let mut st = DashboardState::default();
    st.apply(&vec![a, b], means());
    let first = |st: &DashboardState| st.rows[0].addr.clone();
    assert_eq!(first(&st), "2.2.2.2:80");
    assert!(st.on_key(Key::Char('e')));
    assert_eq!(first(&st), "1.1.1.1:80");
    assert!(st.on_key(Key::Char('c')));
    assert_eq!(first(&st), "2.2.2.2:80");
    assert!(st.on_key(Key::Char('j')) && st.selected == 1);
    assert!(st.on_key(Key::Char('k')) && st.selected == 0);
    st.selected = usize::MAX;
    assert!(st.on_key(Key::Down) && st.selected == st.rows.len() - 1);
    assert!(st.on_key(Key::Char('x')) && st.on_key(Key::Other));
    assert_eq!(st.sort, SortKey::Country);
}

#[test]
fn frames_are_written_out() {
    let mut st = DashboardState::default();
    st.apply(&vec![proxy("1.1.1.1", 0.5)], means());
    assert_eq!(
        header_text(&st.snapshot, "0.00", "0.50"),
        "total 1 | http 1 | https 0 | avg err 0.00 | avg resp 0.50s"
    );
    assert_eq!(
        row_cells(&st.rows[0], "0.00", "0.50"),
        vec!["1.1.1.1:80", "HTTP", "0.00", "0.50", ""]
    );
    assert_eq!(refresh_period(Duration::from_millis(1)), Duration::from_millis(100));
    assert_eq!(refresh_period(Duration::from_secs(1)), Duration::from_secs(1));
}

use proxybroker::addr::{endpoint, socket, AddrSet, IpAddr};
use proxybroker::addr_parse::parse_ip;
use proxybroker::parse::{
    find_addrs_global, find_addrs_line, pair_in_line, parse_address, parse_ipv4_lenient,
    parse_proxy_lines,
};
use proxybroker::pattern::Found;
use proxybroker::types::{parse_lvl, parse_proto, AnonLevel, Proto};

fn pairs(v: &[(String, String)]) -> Vec<(&str, &str)> {
    v.iter().map(|(a, b)| (a.as_str(), b.as_str())).collect()
}

#[test]
fn parses_addr_lines_into_proxies() {
    let text = "1.2.3.4:8080\n010.0.0.1:3128\ngarbage\n5.6.7.8:99999\n";
    let proxies = parse_proxy_lines(text);
    let addrs: Vec<String> = proxies.iter().map(|p| p.addr()).collect();
    assert_eq!(addrs, ["1.2.3.4:8080", "10.0.0.1:3128"]);
    assert!(proxies[0].expected_types.is_empty());
}

#[test]
fn empty_and_junk_input_yields_nothing() {
    assert!(parse_proxy_lines("").is_empty());
    assert!(parse_proxy_lines("no proxies here\njust text\n").is_empty());
}

#[test]
fn a_line_gives_its_first_address() {
    assert_eq!(
        pairs(&find_addrs_line("x 1.2.3.4:80 and 5.6.7.8:81\n999.1.1.1:3128")),
        [("1.2.3.4", "80"), ("99.1.1.1", "3128")]
    );
}

#[test]
fn a_line_gives_a_pair_where_both_are_found() {
    let found = |s: &str| {
        Some(Found {
            text: s.to_string(),
            start: 0,
            end: s.len(),
        })
    };
    assert_eq!(
        pair_in_line(found("1.2.3.4"), found("80")),
        Some(("1.2.3.4".to_string(), "80".to_string()))
    );
    assert_eq!(pair_in_line(found("1.2.3.4"), None), None);
    assert_eq!(pair_in_line(None, None), None);
}

#[test]
fn lines_give_their_own_addresses() {
    let (a, b) = ("1.2.3.4:80\nnothing", "5.6.7.8:81\n1.1.1.1");
    let joined = format!("{a}\n{b}");
    let mut both = find_addrs_line(a);
    both.extend(find_addrs_line(b));
    assert_eq!(find_addrs_line(&joined), both);
    assert_eq!(pairs(&both), [("1.2.3.4", "80"), ("5.6.7.8", "81")]);
    assert_eq!(parse_proxy_lines(&joined).len(), 2);
}

#[test]
fn addresses_are_paired_with_the_port_behind_them() {
    let found = find_addrs_global("<td>1.2.3.4</td><td>8080</td> 5.6.7.8 9.9.9.9 - 3128");
    assert_eq!(
        pairs(&found),
        [("1.2.3.4", "8080"), ("5.6.7.8", ""), ("9.9.9.9", "3128")]
    );
    assert!(find_addrs_global("1.2.3.4 and no more").is_empty());
}

#[test]
fn octets_are_decimal_and_bounded() {
    assert_eq!(parse_ipv4_lenient("010.0.0.1"), Some(IpAddr::V4(0x0a00_0001)));
    assert_eq!(parse_ipv4_lenient("256.0.0.1"), None);
    assert_eq!(parse_ipv4_lenient("1.2.3"), None);
    assert_eq!(parse_ipv4_lenient("1.2.3.4.5"), None);
    assert_eq!(parse_ipv4_lenient("1.2.3."), None);
    assert_eq!(
        parse_address("1.2.3.4", "65535"),
        Some((IpAddr::V4(0x0102_0304), 65535))
    );
    assert_eq!(parse_address("1.2.3.4", "65536"), None);
}

#[test]
fn addresses_are_written_as_usual() {
    for (text, bits) in [
        ("::", 0u128),
        ("::1", 1),
        ("2001:db8::1", 0x2001_0db8_0000_0000_0000_0000_0000_0001),
        ("1:0:0:2::3", 0x0001_0000_0000_0002_0000_0000_0000_0003),
        ("1:2:3:4:5:6:7:8", 0x0001_0002_0003_0004_0005_0006_0007_0008),
        ("1:0:2:3:4:5:6:7", 0x0001_0000_0002_0003_0004_0005_0006_0007),
        ("::ffff:1.2.3.4", 0xffff_0102_0304),
        ("fe80::", 0xfe80_0000_0000_0000_0000_0000_0000_0000),
    ] {
        assert_eq!(IpAddr::V6(bits).to_text(), text);
    }
    let v4 = IpAddr::V4(0xff00_0a01);
    assert_eq!(v4.to_text(), "255.0.10.1");
    assert_eq!(parse_ipv4_lenient(&v4.to_text()), Some(v4));
    assert_eq!(endpoint(IpAddr::V6(1), 80), "::1:80");
    assert_eq!(socket(IpAddr::V6(1), 80), "[::1]:80");
    assert_eq!(socket(v4, 80), "255.0.10.1:80");
}

#[test]
fn address_sets_are_ordered() {
    let mut s = AddrSet::new();
    assert!(s.insert(IpAddr::V6(0), 1));
    assert!(s.insert(IpAddr::V4(9), 2));
    assert!(s.insert(IpAddr::V4(9), 1));
    assert!(!s.insert(IpAddr::V4(9), 2));
    assert_eq!(
        s.items,
        vec![
            (IpAddr::V4(9), 1),
            (IpAddr::V4(9), 2),
            (IpAddr::V6(0), 1)
        ]
    );
    assert!(!s.contains(IpAddr::V4(8), 1));
}

#[test]
fn names_are_read_back() {
    for p in Proto::list() {
        assert_eq!(parse_proto(p.as_str()), Ok(p));
    }
    assert!(parse_proto("FTP").is_err());
    assert_eq!(parse_lvl("High"), Ok(AnonLevel::High));
    assert!(parse_lvl("").is_err());
}

#[test]
fn addresses_are_read() {
    let ok = |s: &str, a: u128| assert_eq!(parse_ip(s), Some(IpAddr::V6(a)), "{s}");
    ok("::", 0);
    ok("::1", 1);
    ok("1::", 1 << 112);
    ok("2001:db8::1", 0x2001_0db8 << 96 | 1);
    ok("2001:0DB8:0:0:0:0:0:1", 0x2001_0db8 << 96 | 1);
    ok("1:2:3:4:5:6:7:8", 0x0001_0002_0003_0004_0005_0006_0007_0008);
    ok("1:2:3:4:5:6:7::", 0x0001_0002_0003_0004_0005_0006_0007_0000);
    ok("::2:3:4:5:6:7:8", 0x0002_0003_0004_0005_0006_0007_0008);
    ok("::ffff:1.2.3.4", 0xffff_0102_0304);
    ok("1:2:3:4:5:6:7.8.9.10", 0x0001_0002_0003_0004_0005_0006_0708_090a);
    ok("1::7.8.9.10", 1 << 112 | 0x0708_090a);
    assert_eq!(parse_ip("1.2.3.4"), Some(IpAddr::V4(0x0102_0304)));
    assert_eq!(parse_ip("0.0.0.0"), Some(IpAddr::V4(0)));
    for s in [
        "", ":", ":::", "1", "1:", ":1", "1::2::3", "1:2:3:4:5:6:7", "1:2:3:4:5:6:7:8:9",
        "1:2:3:4:5:6:7:8::", "::1:2:3:4:5:6:7:8", "12345::", "g::", "1.2.3.4::", "::1.2.3", "[::1]",
        "::1.2.3.4:5", "1:2:3:4:5:6:7:1.2.3.4", "01.2.3.4", "1.2.3.256", "1.2.3", "1.2.3.4.5",
        "1.2.3.+4", "1.2.3.", " 1.2.3.4", "1.2.3.4 ", "fe80::1%eth0", "0001.2.3.4",
    ] {
        assert_eq!(parse_ip(s), None, "{s:?}");
    }
}

#[test]
fn written_addresses_are_read_back() {
    for bits in [
        0u128,
        1,
        1 << 16,
        1 << 112,
        u128::MAX,
        0xffff_0102_0304,
        0x0001_0000_0000_0002_0000_0000_0000_0003,
        0x0001_0000_0002_0000_0003_0000_0004_0000,
        0x2001_0db8_85a3_0000_0000_8a2e_0370_7334,
    ] {
        let a = IpAddr::V6(bits);
        assert_eq!(parse_ip(&a.to_text()), Some(a), "{}", a.to_text());
    }
    for bits in [0u32, 1, 0x7f00_0001, u32::MAX, 0x0a14_1e28] {
        let a = IpAddr::V4(bits);
        assert_eq!(parse_ip(&a.to_text()), Some(a));
    }
}

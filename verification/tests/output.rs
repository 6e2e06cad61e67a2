use proxybroker::measure::Measure;
use proxybroker::output::{
    anon_str, csv_row, join_protos, render_progress, render_template, replace, scheme_str, Counts,
    Drain, Emitter, Figures, Format,
};
use proxybroker::parse::parse_ipv4_lenient;
use proxybroker::proxy::{Asn, Country, Proxy};
use proxybroker::types::{AnonLevel, Proto, ProtoSet};

fn new(host: &str, port: u16) -> Proxy {
    Proxy::new(parse_ipv4_lenient(host).unwrap(), port, ProtoSet::new())
}

fn proxy_fixture() -> Proxy {
    let mut p = new("1.2.3.4", 8080);
    p.geo = Some(Country {
        code: "US".into(),
        name: "United States".into(),
        ..Default::default()
    });
    p.add_type(Proto::Http, Some(AnonLevel::High));
    p.requests = 1;
    p.avg_resp_time = Measure {
        bits: 0.42f64.to_bits(),
    };
    p
}

fn figures(p: &Proxy) -> Figures {
    Figures {
        resp_time: format!("{}", f64::from_bits(p.avg_resp_time.bits)),
        error_rate: format!("{}", f64::from_bits(p.error_rate.bits)),
    }
}

fn json(p: &Proxy) -> String {
    let mut map = serde_json::Map::new();
    map.insert("host".into(), serde_json::Value::from(p.host.to_text()));
    map.insert("port".into(), serde_json::Value::from(p.port));
    serde_json::to_string(&serde_json::Value::Object(map)).unwrap()
}

fn item(e: &mut Emitter, p: &Proxy) -> String {
    e.item(p, &json(p), &figures(p))
}

fn template(t: &str, p: &Proxy) -> String {
    render_template(t, p, &figures(p))
}

#[test]
fn render_progress_formats_counts() {
    let avg_resp_time = 0.72;
    let out = render_progress(
        &Counts {
            total: 128,
            working: 34,
        },
        &format!("{avg_resp_time:.2}"),
    );
    assert!(out.contains("checked 128"), "{out}");
    assert!(out.contains("working 34"), "{out}");
    assert!(out.contains("0.72s"), "{out}");
}

#[test]
fn emitter_default_is_addr_per_line() {
    let mut e = Emitter::new(Format::Default, None);
    assert!(e.prefix().is_none());
    assert_eq!(item(&mut e, &proxy_fixture()), "1.2.3.4:8080\n");
    assert!(e.suffix().is_none());
}

#[test]
fn emitter_json_is_ndjson() {
    let mut e = Emitter::new(Format::Json, None);
    assert!(e.prefix().is_none() && e.suffix().is_none());
    let line = item(&mut e, &proxy_fixture());
    assert!(line.ends_with('\n'), "{line:?}");
    assert_eq!(
        line.matches('\n').count(),
        1,
        "exactly one object per line: {line:?}"
    );
    assert!(line.trim_end().starts_with('{'), "{line:?}");
}

#[test]
fn url_format_prefixes_scheme() {
    assert_eq!(
        item(&mut Emitter::new(Format::Url, None), &proxy_fixture()),
        "http://1.2.3.4:8080\n"
    );
    let mut https = new("9.9.9.9", 8080);
    https.add_type(Proto::Https, None);
    assert_eq!(
        item(&mut Emitter::new(Format::Url, None), &https),
        "http://9.9.9.9:8080\n"
    );
    let mut p = new("5.6.7.8", 1080);
    p.add_type(Proto::Socks5, None);
    assert_eq!(
        item(&mut Emitter::new(Format::Url, None), &p),
        "socks5://5.6.7.8:1080\n"
    );
    let mut p4 = new("5.6.7.8", 1080);
    p4.add_type(Proto::Socks4, None);
    assert_eq!(
        item(&mut Emitter::new(Format::Url, None), &p4),
        "socks4://5.6.7.8:1080\n"
    );
}

#[test]
fn csv_header_and_row() {
    let mut e = Emitter::new(Format::Csv, None);
    assert_eq!(
        e.prefix().unwrap(),
        "host,port,protocols,anon,country,resp_time,error_rate\n"
    );
    let row = item(&mut e, &proxy_fixture());
    let row = row.trim_end();
    let fields: Vec<&str> = row.split(',').collect();
    assert_eq!(fields.len(), 7, "{row}");
    assert_eq!(&fields[..5], ["1.2.3.4", "8080", "HTTP", "High", "US"]);
}

#[test]
fn csv_unchecked_proxy_has_empty_type_columns() {
    let p = new("1.2.3.4", 8080);
    let row = item(&mut Emitter::new(Format::Csv, None), &p);
    assert_eq!(row.trim_end(), "1.2.3.4,8080,,,,0,0");
}

#[test]
fn json_array_emits_bracketed_comma_separated() {
    let mut e = Emitter::new(Format::JsonArray, None);
    let mut out = e.prefix().unwrap();
    out.push_str(&item(&mut e, &proxy_fixture()));
    out.push_str(&item(&mut e, &proxy_fixture()));
    out.push_str(&e.suffix().unwrap());
    assert!(out.starts_with('['), "{out}");
    assert!(out.ends_with("]\n"), "{out}");
    let v: Vec<serde_json::Value> = serde_json::from_str(out.trim_end()).unwrap();
    assert_eq!(v.len(), 2, "parses as a 2-element array: {out}");
}

#[test]
fn json_array_empty_stream_is_empty_array() {
    let e = Emitter::new(Format::JsonArray, None);
    let out = format!("{}{}", e.prefix().unwrap(), e.suffix().unwrap());
    assert_eq!(out, "[]\n");
    assert!(
        serde_json::from_str::<Vec<serde_json::Value>>(out.trim_end())
            .unwrap()
            .is_empty()
    );
}

#[test]
fn ndjson_still_one_object_per_line() {
    let mut e = Emitter::new(Format::Json, None);
    let a = item(&mut e, &proxy_fixture());
    let b = item(&mut e, &proxy_fixture());
    assert!(
        a.trim_end().starts_with('{') && a.trim_end().ends_with('}'),
        "{a:?}"
    );
    assert!(
        b.starts_with('{'),
        "NDJSON element must not have a leading separator: {b:?}"
    );
}

#[test]
fn template_renders_known_fields() {
    assert_eq!(
        template("{{proxy}}/{{country}}/{{duration}}", &proxy_fixture()),
        "1.2.3.4:8080/US/0.42"
    );
}

#[test]
fn template_leaves_unknown_tokens_literal() {
    assert_eq!(template("{{nope}}", &proxy_fixture()), "{{nope}}");
}

#[test]
fn template_renders_asn_tokens() {
    let mut p = proxy_fixture();
    p.asn = Some(Asn {
        number: 15169,
        org: Some("Google LLC".into()),
    });
    assert_eq!(template("{{asn}} {{asn_org}}", &p), "15169 Google LLC");
    assert_eq!(template("{{asn}}{{asn_org}}", &proxy_fixture()), "");
}

#[test]
fn output_format_overrides_format() {
    let mut e = Emitter::new(Format::JsonArray, Some("{{host}}"));
    assert!(e.prefix().is_none() && e.suffix().is_none());
    assert_eq!(item(&mut e, &proxy_fixture()), "1.2.3.4\n");
}

#[test]
fn text_output_is_the_record_in_words() {
    let mut e = Emitter::new(Format::Txt, None);
    assert_eq!(item(&mut e, &proxy_fixture()), "1.2.3.4:8080\n");
}

#[test]
fn templates_fill_one_token_after_the_other() {
    let mut p = proxy_fixture();
    p.add_type(Proto::Socks5, None);
    assert_eq!(
        template("{{host}} {{port}} {{protocol}} {{protocols}} {{anon}}", &p),
        "1.2.3.4 8080 {{protocol}} HTTP|SOCKS5 High"
    );
    assert_eq!(replace("aXbXX".into(), "X", "YX"), "aYXbYXYX");
    assert_eq!(replace("aaa".into(), "aa", "b"), "ba");
}

#[test]
fn rows_join_protocols_without_commas() {
    let mut p = proxy_fixture();
    p.add_type(Proto::Socks5, None);
    assert_eq!(join_protos(&p, '+'), "HTTP+SOCKS5");
    assert_eq!(scheme_str(&p), "socks5");
    assert_eq!(anon_str(&p), "High");
    let row = csv_row(&p, &figures(&p));
    assert_eq!(row.matches(',').count(), 6, "{row}");
}

#[test]
fn streams_are_written_saved_and_counted() {
    let p = proxy_fixture();
    let mut d = Drain::new(Format::JsonArray, None, true, true);
    let mut out = d.start().unwrap();
    for _ in 0..2 {
        let w = d.take(&p, &json(&p), &figures(&p));
        out.push_str(&w.out);
        assert_eq!(w.saved, Some(format!("{}\n", json(&p))));
        assert!(w.advance);
    }
    out.push_str(&d.finish().unwrap());
    assert_eq!(out, format!("[{},{}]\n", json(&p), json(&p)));
    assert_eq!(d.report("out.json"), "wrote 2 proxies to out.json");
    let counts = Counts {
        total: 3,
        working: 2,
    };
    assert_eq!(
        d.tick(Some(&counts), "0.50"),
        Some("checked 3 · working 2 · avg 0.50s".to_string())
    );
    assert_eq!(d.tick(None, "0.50"), None);
    let mut quiet = Drain::new(Format::Txt, None, false, false);
    assert_eq!(quiet.start(), None);
    let w = quiet.take(&p, "", &figures(&p));
    assert_eq!((w.out.as_str(), w.saved, w.advance), ("1.2.3.4:8080\n", None, false));
    assert_eq!(quiet.tick(Some(&counts), "0.50"), None);
    assert_eq!(quiet.finish(), None);
}

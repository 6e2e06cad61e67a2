use proxybroker::addr::IpAddr;
use proxybroker::broker::{locate, Gather, GrabQuery, Offer, Screen};
use proxybroker::geo::{
    asn_from, attach_geo, country_from, AsnRecord, CityRecord, GeoDb, GeoError,
};
use proxybroker::proxy::{Proxy, Region};
use proxybroker::types::ProtoSet;

fn text(s: &str) -> Vec<u8> {
    let mut out = if s.len() < 29 {
        vec![0x40 | s.len() as u8]
    } else {
        vec![0x40 | 29, (s.len() - 29) as u8]
    };
    out.extend_from_slice(s.as_bytes());
    out
}

fn number(kind: u8, bytes: &[u8]) -> Vec<u8> {
    let mut out = vec![kind << 5 | bytes.len() as u8];
    out.extend_from_slice(bytes);
    out
}

fn map(pairs: &[(&str, Vec<u8>)]) -> Vec<u8> {
    let mut out = vec![0xe0 | pairs.len() as u8];
    for (k, v) in pairs {
        out.extend(text(k));
        out.extend_from_slice(v);
    }
    out
}

fn array(items: &[Vec<u8>]) -> Vec<u8> {
    let mut out = vec![items.len() as u8, 4];
    for v in items {
        out.extend_from_slice(v);
    }
    out
}

/// A database that holds one record, for every address below 128.0.0.0.
fn database(kind: &str, record: Vec<u8>) -> Vec<u8> {
    database_with(&[0, 0, 17, 0, 0, 1], 24, kind, record)
}

/// The same with another node and records of another size.
fn database_with(node: &[u8], record_size: u8, kind: &str, record: Vec<u8>) -> Vec<u8> {
    let mut out = node.to_vec();
    out.extend_from_slice(&[0; 16]);
    out.extend(record);
    out.extend_from_slice(b"\xab\xcd\xefMaxMind.com");
    out.extend(map(&[
        ("binary_format_major_version", number(5, &[2])),
        ("binary_format_minor_version", number(5, &[])),
        ("build_epoch", vec![1, 2, 1]),
        ("database_type", text(kind)),
        ("description", map(&[("en", text("x"))])),
        ("ip_version", number(5, &[4])),
        ("languages", array(&[text("en")])),
        ("node_count", number(6, &[1])),
        ("record_size", number(5, &[record_size])),
    ]));
    out
}

fn city_db() -> GeoDb {
    let named = |s: &str| map(&[("en", text(s))]);
    GeoDb::from_source(database(
        "Test-City",
        map(&[
            ("city", map(&[("names", named("Los Angeles"))])),
            (
                "country",
                map(&[("iso_code", text("US")), ("names", named("United States"))]),
            ),
            (
                "subdivisions",
                array(&[map(&[
                    ("iso_code", text("CA")),
                    ("names", named("California")),
                ])]),
            ),
        ]),
    ))
    .unwrap()
}

fn asn_db() -> GeoDb {
    GeoDb::from_source(database(
        "Test-ASN",
        map(&[
            ("autonomous_system_number", number(6, &[0x3b, 0x41])),
            ("autonomous_system_organization", text("Google LLC")),
        ]),
    ))
    .unwrap()
}

const INSIDE: IpAddr = IpAddr::V4(0x0808_0808);
const OUTSIDE: IpAddr = IpAddr::V4(0xc000_0001);

#[test]
fn city_database_is_looked_up() {
    let db = city_db();
    let c = db.lookup(INSIDE).unwrap();
    assert_eq!((c.code.as_str(), c.name.as_str()), ("US", "United States"));
    assert_eq!(
        c.region,
        Some(Region {
            code: "CA".into(),
            name: "California".into()
        })
    );
    assert_eq!(c.city, Some("Los Angeles".to_string()));
    assert!(db.lookup(OUTSIDE).is_none());
    assert!(db.lookup_asn(INSIDE).is_none());
    assert!(
        db.lookup(IpAddr::V6(1)).is_none(),
        "the database holds addresses of version 4"
    );
}

#[test]
fn asn_database_is_looked_up() {
    let db = asn_db();
    let a = db.lookup_asn(INSIDE).unwrap();
    assert_eq!((a.number, a.org), (15169, Some("Google LLC".to_string())));
    assert!(db.lookup_asn(OUTSIDE).is_none());
    assert!(db.lookup(INSIDE).is_none());
}

#[test]
fn bytes_that_are_no_database_are_refused() {
    assert_eq!(
        GeoDb::from_source(b"no database".to_vec()),
        Err(GeoError::InvalidDatabase(
            "invalid database: could not find MaxMind DB metadata in file".into()
        ))
    );
    let mut bytes = b"\xab\xcd\xefMaxMind.com".to_vec();
    bytes.extend(map(&[]));
    assert!(matches!(
        GeoDb::from_source(bytes),
        Err(GeoError::InvalidDatabase(_))
    ));
}

#[test]
fn extended_types_out_of_range_hide_only_their_record() {
    for kind in [248, 249, 255] {
        let mut records = map(&[("x", vec![0, kind])]);
        let good = 17 + records.len() as u8;
        records.extend(map(&[("country", map(&[("iso_code", text("SE"))]))]));
        let node = [0, 0, 17, 0, 0, good];
        let db = GeoDb::from_source(database_with(&node, 24, "Test", records)).unwrap();
        assert!(db.lookup(INSIDE).is_none());
        assert!(db.lookup_asn(INSIDE).is_none());
        assert_eq!(db.lookup(OUTSIDE).unwrap().code, "SE");
    }
    let mut bytes = b"\xab\xcd\xefMaxMind.com".to_vec();
    bytes.extend([0, 249]);
    assert_eq!(GeoDb::from_source(bytes), Err(GeoError::Malformed));
}

#[test]
fn records_that_take_too_long_are_not_read() {
    // Each array holds two pointers to the one before it.
    let mut record = text("end");
    let mut last = 0;
    for _ in 0..40 {
        let here = record.len();
        record.extend([2, 4, 0x20 | (last >> 8) as u8, last as u8]);
        record.extend([0x20 | (last >> 8) as u8, last as u8]);
        last = here;
    }
    let start = record.len();
    record.extend(map(&[("x", vec![0x20 | (last >> 8) as u8, last as u8])]));
    let mut bytes = database("Test", record);
    bytes[1] = ((17 + start) >> 8) as u8;
    bytes[2] = (17 + start) as u8;
    let db = GeoDb::from_source(bytes).unwrap();
    assert!(db.lookup(INSIDE).is_none());
    assert!(db.lookup(OUTSIDE).is_none());
}

#[test]
fn values_that_point_to_themselves_are_not_read() {
    let record = map(&[("x", vec![0x20, 0])]);
    let db = GeoDb::from_source(database("Test", record)).unwrap();
    assert!(db.lookup(INSIDE).is_none());
}

#[test]
fn pointers_are_followed_both_ways() {
    let code = map(&[("iso_code", vec![0x20, 0])]);
    let mut record = text("DE");
    record.extend(map(&[("country", vec![0x20, 14])]));
    assert_eq!(record.len(), 14);
    record.extend(code);
    let mut bytes = database("Test", record);
    bytes[2] = 17 + 3;
    let db = GeoDb::from_source(bytes).unwrap();
    assert_eq!(db.lookup(INSIDE).unwrap().code, "DE");
}

#[test]
fn a_record_that_is_cut_short_is_not_read() {
    let mut record = map(&[("country", text("DE"))]);
    record.pop();
    let db = GeoDb::from_source(database("Test", record)).unwrap();
    assert!(db.lookup(INSIDE).is_none());
}

#[test]
fn databases_say_where_a_proxy_is() {
    let (city, asn) = (city_db(), asn_db());
    let mut p = Proxy::new(INSIDE, 80, ProtoSet::new());
    attach_geo(&mut p, Some(&city), Some(&asn));
    assert_eq!(p.geo.as_ref().unwrap().code, "US");
    assert_eq!(p.asn.as_ref().unwrap().number, 15169);
    p.host = OUTSIDE;
    attach_geo(&mut p, None, None);
    assert!(p.geo.is_some(), "kept without a database");
    attach_geo(&mut p, Some(&city), None);
    assert!(p.geo.is_none() && p.asn.is_some());
}

#[test]
fn candidates_are_kept_by_country() {
    let city = city_db();
    let us = vec!["us".to_string()];
    let mut s = Screen::new(Some(&us));
    assert!(s
        .take("192.0.0.1", 80, ProtoSet::new(), Some(&city), None)
        .is_none());
    let p = s
        .take("8.8.8.8", 80, ProtoSet::new(), Some(&city), None)
        .unwrap();
    assert_eq!(p.geo.as_ref().unwrap().code, "US");
    assert!(locate(p, Some(&vec!["DE".to_string()]), Some(&city), None).is_none());
    let mut g = Gather::new(&GrabQuery {
        countries: Some(us),
        limit: None,
    });
    assert_eq!(
        g.offer("192.0.0.1", 80, ProtoSet::new(), Some(&city), None),
        Offer::Skip
    );
    assert!(matches!(
        g.offer("8.8.8.8", 80, ProtoSet::new(), Some(&city), None),
        Offer::Send(_)
    ));
}

#[test]
fn records_are_read_as_far_as_they_go() {
    let empty = || CityRecord {
        country_code: Some("XX".into()),
        country_name: None,
        subdivisions: vec![(None, None)],
        city: None,
    };
    let c = country_from(empty()).unwrap();
    assert_eq!((c.code.as_str(), c.name.as_str()), ("XX", "XX"));
    assert_eq!(c.region, None);
    let mut r = empty();
    r.subdivisions = vec![(None, Some("North".into())), (Some("S".into()), None)];
    assert_eq!(
        country_from(r).unwrap().region,
        Some(Region {
            code: "".into(),
            name: "North".into()
        })
    );
    let mut r = empty();
    r.country_code = None;
    assert!(country_from(r).is_none());
    assert!(asn_from(AsnRecord {
        number: None,
        org: Some("x".into())
    })
    .is_none());
}

#[test]
fn records_of_each_size_are_followed() {
    let country = || map(&[("country", map(&[("iso_code", text("SE"))]))]);
    for (node, size) in [
        (vec![0, 0, 17, 0, 0, 1], 24),
        (vec![0, 0, 17, 0, 0, 0, 1], 28),
        (vec![0, 0, 0, 17, 0, 0, 0, 1], 32),
    ] {
        let db = GeoDb::from_source(database_with(&node, size, "Test", country())).unwrap();
        assert_eq!(db.lookup(INSIDE).unwrap().code, "SE");
        assert!(db.lookup(OUTSIDE).is_none());
        let bad = map(&[("x", vec![0, 250])]);
        let db = GeoDb::from_source(database_with(&node, size, "Test", bad)).unwrap();
        assert!(db.lookup(INSIDE).is_none());
    }
    assert!(matches!(
        GeoDb::from_source(database_with(&[0, 0, 17, 0, 0, 1], 25, "Test", country())),
        Err(GeoError::InvalidDatabase(_))
    ));
}

//! Country and network lookup for addresses, in a database of the MaxMind format.
use crate::addr::IpAddr;
use crate::mmdb;
use crate::proxy::{Asn, Country, Proxy, Region};
use crate::text;
use maxminddb::geoip2;
use maxminddb::Reader;
use vstd::prelude::*;
use vstd::string::*;

verus! {

/// Why a database cannot be used.
#[derive(Debug, PartialEq, Eq)]
pub enum GeoError {
    /// The bytes are no database of the MaxMind format, for the reason given.
    InvalidDatabase(String),
    /// The metadata cannot be read through: it holds a type that is no byte, or takes too long.
    Malformed,
}

/// What `maxminddb::Reader::from_source` makes of bytes: the number of nodes of the search tree and
/// the bits of a record, or why they are no database.
pub uninterp spec fn mmdb_open(db: Seq<u8>) -> Result<(u32, u16), Seq<char>>;

/// The offset of the record that `maxminddb::Reader::lookup` finds for an address, as
/// `LookupResult::offset` gives it; none where it finds none or fails.
pub uninterp spec fn record_offset(db: Seq<u8>, ip: IpAddr) -> Option<usize>;

/// Whether a database opens.
pub open spec fn opens(db: Seq<u8>) -> bool {
    mmdb::metadata_is_walkable(db) && mmdb_open(db) is Ok
}

/// Whether the record of an address can be read through in a bounded number of steps, or there is
/// none.
pub open spec fn readable_at(db: Seq<u8>, ip: IpAddr) -> bool {
    let layout = mmdb_open(db)->Ok_0;
    record_offset(db, ip) matches Some(at) ==> mmdb::record_is_walkable(db, layout.0, layout.1, at)
}

/// The country of an address in a database; none where its record cannot be read through.
pub open spec fn country_at(db: Seq<u8>, ip: IpAddr) -> Option<CountryView> {
    if readable_at(db, ip) {
        country_of(city_record(db, ip))
    } else {
        None
    }
}

/// The autonomous system of an address in a database; none where its record cannot be read through.
pub open spec fn asn_at(db: Seq<u8>, ip: IpAddr) -> Option<(u32, Option<Seq<char>>)> {
    if readable_at(db, ip) {
        asn_of(asn_record(db, ip))
    } else {
        None
    }
}

/// What `LookupResult::decode` reads as a city record for an address that
/// `maxminddb::Reader::lookup` finds; nothing where any step fails or the address has no record.
pub uninterp spec fn city_record(db: Seq<u8>, ip: IpAddr) -> Option<CityView>;

/// The same for a record of an autonomous system.
pub uninterp spec fn asn_record(db: Seq<u8>, ip: IpAddr) -> Option<AsnView>;

/// The parts of a city record that matter here.
#[derive(Debug, PartialEq, Eq)]
pub struct CityRecord {
    /// The ISO code of the country.
    pub country_code: Option<String>,
    /// The English name of the country.
    pub country_name: Option<String>,
    /// The ISO codes and the English names of the subdivisions, largest first.
    pub subdivisions: Vec<(Option<String>, Option<String>)>,
    /// The English name of the city.
    pub city: Option<String>,
}

/// The contents of a [`CityRecord`].
pub struct CityView {
    pub country_code: Option<Seq<char>>,
    pub country_name: Option<Seq<char>>,
    pub subdivisions: Seq<(Option<Seq<char>>, Option<Seq<char>>)>,
    pub city: Option<Seq<char>>,
}

impl View for CityRecord {
    type V = CityView;

    open spec fn view(&self) -> CityView {
        CityView {
            country_code: text::text_opt(self.country_code),
            country_name: text::text_opt(self.country_name),
            subdivisions: self.subdivisions@.map_values(
                |s: (Option<String>, Option<String>)| (text::text_opt(s.0), text::text_opt(s.1)),
            ),
            city: text::text_opt(self.city),
        }
    }
}

/// A record of an autonomous system.
#[derive(Debug, PartialEq, Eq)]
pub struct AsnRecord {
    pub number: Option<u32>,
    pub org: Option<String>,
}

/// The contents of an [`AsnRecord`].
pub struct AsnView {
    pub number: Option<u32>,
    pub org: Option<Seq<char>>,
}

impl View for AsnRecord {
    type V = AsnView;

    open spec fn view(&self) -> AsnView {
        AsnView { number: self.number, org: text::text_opt(self.org) }
    }
}

/// `maxminddb::Reader::from_source`: what it makes of bytes, and the text of its error, are a
/// function of the bytes alone. A build time too late for the clock to hold is among the errors;
/// how late that is is not said. It decodes the metadata, and its decoder adds to the number of an
/// extended type in a byte and follows pointers, so the metadata must be such that it gets through.
#[verifier::external_body]
fn open_source(db: &[u8]) -> (out: Result<(u32, u16), String>)
    requires
        mmdb::metadata_is_walkable(db@),
    ensures
        (match out {
            Ok(layout) => Ok(layout),
            Err(e) => Err(e@),
        }) == mmdb_open(db@),
{
    let reader = Reader::from_source(db).map_err(|e| e.to_string())?;
    Ok((reader.metadata().node_count, reader.metadata().record_size))
}

/// `maxminddb::Reader::lookup` and `LookupResult::offset`: the offset of the record that is found is
/// a function of the bytes of the database and of the address. They decode the metadata and no
/// record.
#[verifier::external_body]
fn find_record(db: &[u8], ip: IpAddr) -> (out: Option<usize>)
    requires
        mmdb::metadata_is_walkable(db@),
    ensures
        out == record_offset(db@, ip),
{
    let reader = Reader::from_source(db).ok()?;
    let address = match ip {
        IpAddr::V4(a) => a.to_be_bytes().into(),
        IpAddr::V6(a) => a.to_be_bytes().into(),
    };
    reader.lookup(address).ok()?.offset()
}

/// `maxminddb::Reader::lookup` and `LookupResult::decode` for a city record: what they read is a
/// function of the bytes of the database and of the address, and a failure of either reads nothing.
/// They decode the record that is found, with the same decoder as the metadata, so that record must
/// be such that it gets through.
#[verifier::external_body]
fn read_city(db: &[u8], ip: IpAddr) -> (out: Option<CityRecord>)
    requires
        opens(db@),
        readable_at(db@, ip),
    ensures
        (match out {
            Some(r) => Some(r@),
            None => None,
        }) == city_record(db@, ip),
{
    let reader = Reader::from_source(db).ok()?;
    let address = match ip {
        IpAddr::V4(a) => a.to_be_bytes().into(),
        IpAddr::V6(a) => a.to_be_bytes().into(),
    };
    let rec: geoip2::City = reader.lookup(address).ok()?.decode().ok()??;
    let own = |s: &str| s.to_owned();
    Some(CityRecord {
        country_code: rec.country.iso_code.map(own),
        country_name: rec.country.names.english.map(own),
        subdivisions: rec.subdivisions.iter().map(
            |s| (s.iso_code.map(own), s.names.english.map(own)),
        ).collect(),
        city: rec.city.names.english.map(own),
    })
}

/// `maxminddb::Reader::lookup` and `LookupResult::decode` for a record of an autonomous system:
/// what they read is a function of the bytes of the database and of the address, and a failure of
/// either reads nothing. What is asked of the bytes is as for [`read_city`].
#[verifier::external_body]
fn read_asn(db: &[u8], ip: IpAddr) -> (out: Option<AsnRecord>)
    requires
        opens(db@),
        readable_at(db@, ip),
    ensures
        (match out {
            Some(r) => Some(r@),
            None => None,
        }) == asn_record(db@, ip),
{
    let reader = Reader::from_source(db).ok()?;
    let address = match ip {
        IpAddr::V4(a) => a.to_be_bytes().into(),
        IpAddr::V6(a) => a.to_be_bytes().into(),
    };
    let rec: geoip2::Asn = reader.lookup(address).ok()?.decode().ok()??;
    Some(AsnRecord {
        number: rec.autonomous_system_number,
        org: rec.autonomous_system_organization.map(|s: &str| s.to_owned()),
    })
}

/// The contents of a [`Country`].
pub struct CountryView {
    pub code: Seq<char>,
    pub name: Seq<char>,
    /// The code and the name of the region.
    pub region: Option<(Seq<char>, Seq<char>)>,
    pub city: Option<Seq<char>>,
}

/// The contents of a country.
pub open spec fn country_view(c: Country) -> CountryView {
    CountryView {
        code: c.code@,
        name: c.name@,
        region: match c.region {
            Some(r) => Some((r.code@, r.name@)),
            None => None,
        },
        city: text::text_opt(c.city),
    }
}

/// The contents of an optional country.
pub open spec fn geo_view(c: Option<Country>) -> Option<CountryView> {
    match c {
        Some(c) => Some(country_view(c)),
        None => None,
    }
}

/// A text, or an empty one where there is none.
pub open spec fn or_empty(s: Option<Seq<char>>) -> Seq<char> {
    match s {
        Some(t) => t,
        None => ""@,
    }
}

/// The region that a record names: its first subdivision, unless that has neither code nor name.
pub open spec fn region_of(r: CityView) -> Option<(Seq<char>, Seq<char>)> {
    if r.subdivisions.len() == 0 {
        None
    } else {
        let code = or_empty(r.subdivisions[0].0);
        let name = or_empty(r.subdivisions[0].1);
        if code.len() == 0 && name.len() == 0 {
            None
        } else {
            Some((code, name))
        }
    }
}

/// The country that a record names; none where it has no code. Without an English name the code
/// stands for it.
pub open spec fn country_of(r: Option<CityView>) -> Option<CountryView> {
    match r {
        None => None,
        Some(r) => match r.country_code {
            None => None,
            Some(code) => Some(
                CountryView {
                    code,
                    name: match r.country_name {
                        Some(n) => n,
                        None => code,
                    },
                    region: region_of(r),
                    city: r.city,
                },
            ),
        },
    }
}

fn text_or_empty(s: &Option<String>) -> (out: String)
    ensures
        out@ == or_empty(text::text_opt(*s)),
{
    match s {
        Some(t) => t.clone(),
        None => "".to_owned(),
    }
}

/// The country that a city record names.
pub fn country_from(rec: CityRecord) -> (out: Option<Country>)
    ensures
        geo_view(out) == country_of(Some(rec@)),
{
    let code = match rec.country_code {
        Some(c) => c,
        None => {
            return None;
        },
    };
    let name = match rec.country_name {
        Some(n) => n,
        None => code.clone(),
    };
    let region = if rec.subdivisions.len() == 0 {
        None
    } else {
        assert(rec@.subdivisions[0] == (
            text::text_opt(rec.subdivisions@[0].0),
            text::text_opt(rec.subdivisions@[0].1),
        ));
        let code = text_or_empty(&rec.subdivisions[0].0);
        let name = text_or_empty(&rec.subdivisions[0].1);
        if code.as_str().unicode_len() == 0 && name.as_str().unicode_len() == 0 {
            None
        } else {
            Some(Region { code, name })
        }
    };
    Some(Country { code, name, region, city: rec.city })
}

/// The contents of an optional autonomous system.
pub open spec fn asn_view(a: Option<Asn>) -> Option<(u32, Option<Seq<char>>)> {
    match a {
        Some(a) => Some((a.number, text::text_opt(a.org))),
        None => None,
    }
}

/// The autonomous system that a record names; none where it has no number.
pub open spec fn asn_of(r: Option<AsnView>) -> Option<(u32, Option<Seq<char>>)> {
    match r {
        None => None,
        Some(r) => match r.number {
            None => None,
            Some(n) => Some((n, r.org)),
        },
    }
}

/// The autonomous system that a record names.
pub fn asn_from(rec: AsnRecord) -> (out: Option<Asn>)
    ensures
        asn_view(out) == asn_of(Some(rec@)),
{
    match rec.number {
        Some(number) => Some(Asn { number, org: rec.org }),
        None => None,
    }
}

/// An opened database.
#[derive(Debug, PartialEq, Eq)]
pub struct GeoDb {
    bytes: Vec<u8>,
    /// The number of nodes of the search tree, and the bits of a record.
    layout: (u32, u16),
}

impl View for GeoDb {
    type V = Seq<u8>;

    /// The bytes of the database, which fix its layout.
    closed spec fn view(&self) -> Seq<u8> {
        self.bytes@
    }
}

impl GeoDb {
    #[verifier::type_invariant]
    spec fn inv(self) -> bool {
        mmdb::metadata_is_walkable(self.bytes@) && mmdb_open(self.bytes@) == Ok::<
            (u32, u16),
            Seq<char>,
        >(self.layout)
    }

    /// Open a database from its bytes. It is refused where it does not open, and where its metadata
    /// cannot be read through; of its records nothing is asked.
    pub fn from_source(bytes: Vec<u8>) -> (out: Result<GeoDb, GeoError>)
        ensures
            match out {
                Ok(db) => opens(bytes@) && db@ == bytes@,
                Err(GeoError::InvalidDatabase(reason)) => mmdb::metadata_is_walkable(bytes@)
                    && mmdb_open(bytes@) == Err::<(u32, u16), Seq<char>>(reason@),
                Err(GeoError::Malformed) => !mmdb::metadata_is_walkable(bytes@),
            },
    {
        if !mmdb::check_metadata(bytes.as_slice()) {
            return Err(GeoError::Malformed);
        }
        match open_source(bytes.as_slice()) {
            Ok(layout) => Ok(GeoDb { bytes, layout }),
            Err(reason) => Err(GeoError::InvalidDatabase(reason)),
        }
    }

    /// Whether the record of an address can be read through, or there is none.
    fn is_readable(&self, ip: IpAddr) -> (yes: bool)
        ensures
            opens(self@),
            yes == readable_at(self@, ip),
    {
        proof {
            use_type_invariant(self);
        }
        match find_record(self.bytes.as_slice(), ip) {
            None => true,
            Some(at) => mmdb::check_record(
                self.bytes.as_slice(),
                self.layout.0,
                self.layout.1,
                at,
            ),
        }
    }

    /// The country of an address.
    pub fn lookup(&self, ip: IpAddr) -> (out: Option<Country>)
        ensures
            geo_view(out) == country_at(self@, ip),
    {
        if !self.is_readable(ip) {
            return None;
        }
        match read_city(self.bytes.as_slice(), ip) {
            Some(rec) => country_from(rec),
            None => None,
        }
    }

    /// The autonomous system of an address.
    pub fn lookup_asn(&self, ip: IpAddr) -> (out: Option<Asn>)
        ensures
            asn_view(out) == asn_at(self@, ip),
    {
        if !self.is_readable(ip) {
            return None;
        }
        match read_asn(self.bytes.as_slice(), ip) {
            Some(rec) => asn_from(rec),
            None => None,
        }
    }
}

/// Look a proxy's address up in the databases there are. A database replaces what was known of the
/// proxy before, even by nothing; without one it stays.
pub fn attach_geo(proxy: &mut Proxy, geo: Option<&GeoDb>, asn: Option<&GeoDb>)
    ensures
        match geo {
            Some(db) => geo_view(final(proxy).geo) == country_at(db@, old(proxy).host),
            None => final(proxy).geo == old(proxy).geo,
        },
        match asn {
            Some(db) => asn_view(final(proxy).asn) == asn_at(db@, old(proxy).host),
            None => final(proxy).asn == old(proxy).asn,
        },
        *final(proxy) == (Proxy { geo: final(proxy).geo, asn: final(proxy).asn, ..*old(proxy) }),
{
    if let Some(db) = geo {
        proxy.geo = db.lookup(proxy.host);
    }
    if let Some(db) = asn {
        proxy.asn = db.lookup_asn(proxy.host);
    }
}

/// A record names a country exactly where it has a code: by its English name, or by the code where
/// that is missing, with its city and with its first subdivision.
pub proof fn law_country_is_named_by_its_record(r: CityView)
    ensures
        r.country_code is None ==> country_of(Some(r)) is None,
        country_of(None) is None,
        r.country_code matches Some(code) ==> (country_of(Some(r)) matches Some(c) && c.code == code
            && c.name == (match r.country_name {
            Some(n) => n,
            None => code,
        }) && c.city == r.city && c.region == region_of(r)),
{
}

/// The region is the first subdivision, with an empty text for a code or a name that is missing; a
/// subdivision with neither, and none at all, is no region.
pub proof fn law_region_is_the_first_subdivision(r: CityView, code: Seq<char>, name: Seq<char>)
    ensures
        r.subdivisions.len() == 0 ==> region_of(r) is None,
        r.subdivisions.len() > 0 ==> ({
            let (c, n) = r.subdivisions[0];
            &&& c == Some(code) && n == Some(name) && (code.len() > 0 || name.len() > 0) ==> region_of(
                r,
            ) == Some((code, name))
            &&& c == Some(code) && n is None && code.len() > 0 ==> region_of(r) == Some(
                (code, Seq::<char>::empty()),
            )
            &&& c is None && n == Some(name) && name.len() > 0 ==> region_of(r) == Some(
                (Seq::<char>::empty(), name),
            )
            &&& c is None && n is None ==> region_of(r) is None
        }),
{
    reveal_strlit("");
    assert(""@ =~= Seq::<char>::empty());
}

/// A record names a network exactly where it has a number; the owner is as it stands there.
pub proof fn law_network_is_named_by_its_record(r: AsnView)
    ensures
        r.number matches Some(n) ==> asn_of(Some(r)) == Some((n, r.org)),
        r.number is None ==> asn_of(Some(r)) is None,
        asn_of(None) is None,
{
}

/// An address is where its record says, wherever that can be read through; where it cannot, nothing
/// is known of the address.
pub proof fn law_lookup_gives_what_the_record_names(db: Seq<u8>, ip: IpAddr)
    ensures
        record_offset(db, ip) is None || readable_at(db, ip) ==> country_at(db, ip) == country_of(
            city_record(db, ip),
        ) && asn_at(db, ip) == asn_of(asn_record(db, ip)),
        !readable_at(db, ip) ==> country_at(db, ip) is None && asn_at(db, ip) is None,
{
}

} // verus!

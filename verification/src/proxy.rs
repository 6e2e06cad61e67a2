//! A proxy with what is known of it.
use crate::addr;
use crate::addr::IpAddr;
use crate::measure::Measure;
use crate::types::{AnonLevel, Proto, ProtoSet, Scheme, Types};
use vstd::prelude::*;

verus! {

/// A part of a country, such as a state or a province.
#[derive(Debug, PartialEq, Eq)]
pub struct Region {
    pub code: String,
    pub name: String,
}

/// Where a proxy is.
#[derive(Debug, PartialEq, Eq)]
pub struct Country {
    /// The ISO code of the country.
    pub code: String,
    pub name: String,
    pub region: Option<Region>,
    pub city: Option<String>,
}

/// The autonomous system that a proxy's address belongs to.
#[derive(Debug, PartialEq, Eq)]
pub struct Asn {
    pub number: u32,
    pub org: Option<String>,
}

/// What a proxy asks of its clients.
#[derive(Debug, PartialEq, Eq)]
pub struct Credentials {
    pub username: String,
    pub password: String,
}

/// What a proxy was seen to pass on.
#[derive(Clone, Copy, Debug, PartialEq, Eq, Structural)]
pub struct Capabilities {
    pub cookie_echo: bool,
    pub referer_echo: bool,
    pub connect25: bool,
}

fn clone_text(s: &Option<String>) -> (out: Option<String>)
    ensures
        out == *s,
{
    match s {
        Some(t) => Some(t.clone()),
        None => None,
    }
}

impl Clone for Region {
    fn clone(&self) -> (out: Region)
        ensures
            out == *self,
    {
        Region { code: self.code.clone(), name: self.name.clone() }
    }
}

impl Clone for Country {
    fn clone(&self) -> (out: Country)
        ensures
            out == *self,
    {
        let region = match &self.region {
            Some(r) => Some(r.clone()),
            None => None,
        };
        Country {
            code: self.code.clone(),
            name: self.name.clone(),
            region,
            city: clone_text(&self.city),
        }
    }
}

impl Default for Country {
    /// A country of which nothing is known.
    fn default() -> (out: Country)
        ensures
            out.code@.len() == 0,
            out.name@.len() == 0,
            out.region is None,
            out.city is None,
    {
        Country { code: String::new(), name: String::new(), region: None, city: None }
    }
}

impl Clone for Asn {
    fn clone(&self) -> (out: Asn)
        ensures
            out == *self,
    {
        Asn { number: self.number, org: clone_text(&self.org) }
    }
}

impl Clone for Credentials {
    fn clone(&self) -> (out: Credentials)
        ensures
            out == *self,
    {
        Credentials { username: self.username.clone(), password: self.password.clone() }
    }
}

/// A proxy: its address, what it was found to speak, where it is, and how it has done so far. The
/// measures are worked out by whoever times the requests; here they are carried and compared.
#[derive(Debug, PartialEq, Eq)]
pub struct Proxy {
    pub host: IpAddr,
    pub port: u16,
    /// What the source of the address said it speaks; empty where it said nothing.
    pub expected_types: ProtoSet,
    pub types: Types,
    pub geo: Option<Country>,
    pub asn: Option<Asn>,
    pub auth: Option<Credentials>,
    /// How many requests went through.
    pub requests: u32,
    /// How many of them failed.
    pub errors: u32,
    /// The part of the requests that failed.
    pub error_rate: Measure,
    /// The mean time of a request, in seconds.
    pub avg_resp_time: Measure,
    /// The mean time of a judge's answer while checking, in seconds.
    pub probe_latency: Measure,
    /// The smoothed rate of success that a store remembers.
    pub ewma: Option<Measure>,
    pub capabilities: Capabilities,
    /// Whether the check for tampering found nothing.
    pub trusted: bool,
}

/// The figures that follow from a proxy's counts and times, as worked out by whoever does the
/// arithmetic.
#[derive(Clone, Copy, Debug, PartialEq, Eq, Structural)]
pub struct Rates {
    pub error_rate: Measure,
    pub avg_resp_time: Measure,
}

/// One more, up to the largest count there is.
pub open spec fn one_more(n: u32) -> u32 {
    if n < u32::MAX {
        (n + 1) as u32
    } else {
        n
    }
}

impl Clone for Proxy {
    fn clone(&self) -> (out: Proxy)
        ensures
            out == *self,
    {
        let geo = match &self.geo {
            Some(g) => Some(g.clone()),
            None => None,
        };
        let asn = match &self.asn {
            Some(a) => Some(a.clone()),
            None => None,
        };
        let auth = match &self.auth {
            Some(c) => Some(c.clone()),
            None => None,
        };
        Proxy {
            host: self.host,
            port: self.port,
            expected_types: self.expected_types,
            types: self.types,
            geo,
            asn,
            auth,
            requests: self.requests,
            errors: self.errors,
            error_rate: self.error_rate,
            avg_resp_time: self.avg_resp_time,
            probe_latency: self.probe_latency,
            ewma: self.ewma,
            capabilities: self.capabilities,
            trusted: self.trusted,
        }
    }
}

/// Whether the confirmed protocols can carry traffic of a scheme: plain HTTP goes through `HTTP`,
/// `CONNECT:80` and either version of SOCKS, HTTPS through `HTTPS` and either version of SOCKS.
pub open spec fn carries(t: Types, scheme: Scheme) -> bool {
    match scheme {
        Scheme::Http => t.has(Proto::Http) || t.has(Proto::Connect80) || t.has(Proto::Socks4)
            || t.has(Proto::Socks5),
        Scheme::Https => t.has(Proto::Https) || t.has(Proto::Socks4) || t.has(Proto::Socks5),
    }
}

/// A proxy of which nothing but the address is known.
pub open spec fn is_fresh(p: Proxy, host: IpAddr, port: u16, expected: ProtoSet) -> bool {
    &&& p.host == host
    &&& p.port == port
    &&& p.expected_types == expected
    &&& forall|q: Proto| !(#[trigger] p.types.has(q))
    &&& p.geo is None
    &&& p.asn is None
    &&& p.auth is None
    &&& p.requests == 0
    &&& p.errors == 0
    &&& p.error_rate.bits == 0
    &&& p.avg_resp_time.bits == 0
    &&& p.probe_latency.bits == 0
    &&& p.ewma is None
    &&& p.capabilities == (Capabilities { cookie_echo: false, referer_echo: false, connect25: false })
    &&& !p.trusted
}

/// Whether any protocol was confirmed.
pub open spec fn works(p: Proxy) -> bool {
    exists|q: Proto| #[trigger] p.types.has(q)
}

/// A proxy as a store remembers it: its protocols and its record, and nothing else.
pub open spec fn is_restored(
    p: Proxy,
    host: IpAddr,
    port: u16,
    types: Types,
    requests: u32,
    errors: u32,
    error_rate: Measure,
    avg_resp_time: Measure,
    ewma: Option<Measure>,
) -> bool {
    &&& p.host == host
    &&& p.port == port
    &&& p.types == types
    &&& p.requests == requests
    &&& p.errors == errors
    &&& p.error_rate == error_rate
    &&& p.avg_resp_time == avg_resp_time
    &&& p.ewma == ewma
    &&& forall|q: Proto| !(#[trigger] p.expected_types.has(q))
    &&& p.geo is None
    &&& p.asn is None
    &&& p.auth is None
    &&& p.probe_latency.bits == 0
    &&& p.capabilities == (Capabilities { cookie_echo: false, referer_echo: false, connect25: false })
    &&& !p.trusted
}

impl Proxy {
    /// The proxy after a request went through it: one request more, and one error more where it
    /// failed.
    pub open spec fn after_attempt(self, failed: bool, rates: Rates) -> Proxy {
        Proxy {
            requests: one_more(self.requests),
            errors: if failed {
                one_more(self.errors)
            } else {
                self.errors
            },
            error_rate: rates.error_rate,
            avg_resp_time: rates.avg_resp_time,
            ..self
        }
    }

    /// The requests and the errors that the proxy will have had after another request. Its rates
    /// then are worked out from these.
    pub fn counts_after(&self, failed: bool) -> (out: (u32, u32))
        ensures
            out.0 == one_more(self.requests),
            out.1 == (if failed {
                one_more(self.errors)
            } else {
                self.errors
            }),
    {
        let errors: u32 = if failed {
            self.errors.saturating_add(1)
        } else {
            self.errors
        };
        (self.requests.saturating_add(1), errors)
    }

    /// Count a request that went through the proxy, and an error where it failed.
    pub fn record_attempt(&mut self, failed: bool, rates: Rates)
        ensures
            *final(self) == old(self).after_attempt(failed, rates),
    {
        let counts = self.counts_after(failed);
        self.requests = counts.0;
        self.errors = counts.1;
        self.error_rate = rates.error_rate;
        self.avg_resp_time = rates.avg_resp_time;
    }

    /// A proxy of which nothing but the address is known.
    pub fn new(host: IpAddr, port: u16, expected: ProtoSet) -> (out: Proxy)
        ensures
            is_fresh(out, host, port, expected),
    {
        Proxy {
            host,
            port,
            expected_types: expected,
            types: Types::new(),
            geo: None,
            asn: None,
            auth: None,
            requests: 0,
            errors: 0,
            error_rate: Measure::zero(),
            avg_resp_time: Measure::zero(),
            probe_latency: Measure::zero(),
            ewma: None,
            capabilities: Capabilities { cookie_echo: false, referer_echo: false, connect25: false },
            trusted: false,
        }
    }

    /// A proxy as a store remembers it.
    pub fn restored(
        host: IpAddr,
        port: u16,
        types: Types,
        requests: u32,
        errors: u32,
        error_rate: Measure,
        avg_resp_time: Measure,
        ewma: Option<Measure>,
    ) -> (out: Proxy)
        ensures
            is_restored(out, host, port, types, requests, errors, error_rate, avg_resp_time, ewma),
    {
        let mut out = Proxy::new(host, port, ProtoSet::new());
        out.types = types;
        out.requests = requests;
        out.errors = errors;
        out.error_rate = error_rate;
        out.avg_resp_time = avg_resp_time;
        out.ewma = ewma;
        out
    }

    /// Whether any protocol was confirmed.
    pub fn is_working(&self) -> (out: bool)
        ensures
            out == works(*self),
    {
        !self.types.is_empty()
    }

    /// Confirm a protocol, with the anonymity level that was found.
    pub fn add_type(&mut self, proto: Proto, level: Option<AnonLevel>)
        ensures
            forall|q: Proto| #[trigger]
                final(self).types.at(q) == (if q == proto {
                    Some(level)
                } else {
                    old(self).types.at(q)
                }),
            *final(self) == (Proxy { types: final(self).types, ..*old(self) }),
    {
        self.types.insert(proto, level);
    }

    /// Whether the proxy can carry traffic of a scheme.
    pub fn serves(&self, scheme: Scheme) -> (out: bool)
        ensures
            out == carries(self.types, scheme),
    {
        match scheme {
            Scheme::Http => self.types.contains(Proto::Http) || self.types.contains(Proto::Connect80)
                || self.types.contains(Proto::Socks4) || self.types.contains(Proto::Socks5),
            Scheme::Https => self.types.contains(Proto::Https) || self.types.contains(Proto::Socks4)
                || self.types.contains(Proto::Socks5),
        }
    }

    /// The address in text, `host:port`.
    pub fn addr(&self) -> (out: String)
        ensures
            out@ == addr::socket_text(self.host, self.port),
    {
        addr::socket(self.host, self.port)
    }
}

/// Plain HTTP goes through a proxy that was confirmed for `HTTP`, `CONNECT:80` or either version of
/// SOCKS; HTTPS through one that was confirmed for `HTTPS` or either version of SOCKS.
pub proof fn law_schemes_go_through_what_was_confirmed(t: Types)
    ensures
        carries(t, Scheme::Http) <==> t.http is Some || t.connect80 is Some || t.socks4 is Some
            || t.socks5 is Some,
        carries(t, Scheme::Https) <==> t.https is Some || t.socks4 is Some || t.socks5 is Some,
{
}

/// A request counts once, and a failed one also as an error; neither count falls, goes past its
/// largest value, or is touched by anything else.
pub proof fn law_each_request_counts_once(p: Proxy, failed: bool, rates: Rates)
    ensures
        p.requests < u32::MAX ==> p.after_attempt(failed, rates).requests == p.requests + 1,
        p.requests == u32::MAX ==> p.after_attempt(failed, rates).requests == u32::MAX,
        failed && p.errors < u32::MAX ==> p.after_attempt(failed, rates).errors == p.errors + 1,
        failed && p.errors == u32::MAX ==> p.after_attempt(failed, rates).errors == u32::MAX,
        !failed ==> p.after_attempt(failed, rates).errors == p.errors,
        p.after_attempt(failed, rates).error_rate == rates.error_rate,
        p.after_attempt(failed, rates).avg_resp_time == rates.avg_resp_time,
        p.after_attempt(failed, rates) == (Proxy {
            requests: p.after_attempt(failed, rates).requests,
            errors: p.after_attempt(failed, rates).errors,
            error_rate: rates.error_rate,
            avg_resp_time: rates.avg_resp_time,
            ..p
        }),
{
}

/// A proxy works exactly where a protocol was confirmed.
pub proof fn law_working_is_having_a_protocol(p: Proxy)
    ensures
        works(p) <==> p.types.http is Some || p.types.https is Some || p.types.socks4 is Some
            || p.types.socks5 is Some || p.types.connect80 is Some || p.types.connect25 is Some,
{
    if p.types.http is Some {
        assert(p.types.has(Proto::Http));
    }
    if p.types.https is Some {
        assert(p.types.has(Proto::Https));
    }
    if p.types.socks4 is Some {
        assert(p.types.has(Proto::Socks4));
    }
    if p.types.socks5 is Some {
        assert(p.types.has(Proto::Socks5));
    }
    if p.types.connect80 is Some {
        assert(p.types.has(Proto::Connect80));
    }
    if p.types.connect25 is Some {
        assert(p.types.has(Proto::Connect25));
    }
}

} // verus!

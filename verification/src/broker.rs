//! Gathering and checking proxies: the queries, the filters and the decisions of each run.
use crate::addr::{AddrSet, IpAddr};
use crate::addr_parse;
use crate::geo;
use crate::geo::{CountryView, GeoDb};
use crate::proxy;
use crate::proxy::Proxy;
use crate::text;
use crate::types;
use crate::types::{Duration, Error, ProtoSet, ProxyError, RetryPolicy, TypeSpec};
use vstd::prelude::*;

verus! {

/// Whether the upper case of a proxy's country code is among the given codes; every proxy passes
/// where no codes are given, and none without a known country where some are.
pub open spec fn in_countries(p: Proxy, countries: Option<Seq<Seq<char>>>) -> bool {
    match countries {
        None => true,
        Some(codes) => match p.geo {
            None => false,
            Some(g) => codes.contains(text::upper(g.code@)),
        },
    }
}

/// The codes of an optional list.
pub open spec fn codes_of(countries: Option<&Vec<String>>) -> Option<Seq<Seq<char>>> {
    match countries {
        None => None,
        Some(v) => Some(text::texts(v@)),
    }
}

/// The codes of an optional list.
pub open spec fn codes_in(countries: Option<Vec<String>>) -> Option<Seq<Seq<char>>> {
    match countries {
        None => None,
        Some(v) => Some(text::texts(v@)),
    }
}

/// Whether a list of texts holds a text.
pub fn holds_text(list: &Vec<String>, s: &String) -> (yes: bool)
    ensures
        yes == text::texts(list@).contains(s@),
{
    let mut i: usize = 0;
    while i < list.len()
        invariant
            i <= list@.len(),
            forall|j: int| 0 <= j < i ==> text::texts(list@)[j] != s@,
        decreases list@.len() - i,
    {
        assert(text::texts(list@)[i as int] == list@[i as int]@);
        if list[i] == *s {
            return true;
        }
        i += 1;
    }
    false
}

/// Whether a proxy is in one of the countries, given as codes in upper case.
pub fn country_ok(proxy: &Proxy, countries: Option<&Vec<String>>) -> (yes: bool)
    ensures
        yes == in_countries(*proxy, codes_of(countries)),
{
    match countries {
        None => true,
        Some(codes) => match &proxy.geo {
            None => false,
            Some(g) => {
                let code = text::to_upper(g.code.as_str());
                holds_text(codes, &code)
            },
        },
    }
}

/// How many providers are fetched at once.
pub const MAX_CONCURRENT_PROVIDERS: usize = 3;

/// How many proxies may wait between a source and its consumer.
pub const CHANNEL_CAPACITY: usize = 256;

/// What to gather.
#[derive(Debug, Default, PartialEq, Eq)]
pub struct GrabQuery {
    /// Keep only proxies in these countries; `None` keeps all.
    pub countries: Option<Vec<String>>,
    /// Stop after this many proxies; `None` does not.
    pub limit: Option<usize>,
}

/// What to find and check.
#[derive(Debug, PartialEq, Eq)]
pub struct FindQuery {
    /// The protocols that a proxy must speak. There must be one.
    pub types: Vec<TypeSpec>,
    /// Keep only proxies in these countries; `None` keeps all.
    pub countries: Option<Vec<String>>,
    /// Stop after this many working proxies; `None` does not.
    pub limit: Option<usize>,
    /// The judges to probe; none means the usual ones.
    pub judges: Vec<String>,
    /// The blocklists that a proxy must not be on.
    pub dnsbl: Vec<String>,
    /// The time that each request may take.
    pub timeout: Duration,
    /// How many checks may run at once.
    pub max_conn: usize,
    pub retry: RetryPolicy,
    /// Test with `POST`.
    pub post: bool,
    /// The anonymity level must match exactly.
    pub strict: bool,
    /// A page that shows a proxy to be alive where no judge answers.
    pub liveness_url: Option<String>,
    /// Do not ask a proxy to pass on the referrer and the cookie.
    pub relaxed_validity: bool,
    pub require_cookie: bool,
    pub require_referer: bool,
    pub require_connect25: bool,
    /// Check for tampering.
    pub trust_check: bool,
    /// Keep only proxies that were not found to tamper.
    pub require_trusted: bool,
}

/// Whether a query is the usual one: nothing asked for, nothing left out.
pub open spec fn is_default_query(q: FindQuery) -> bool {
    &&& q.types@.len() == 0
    &&& q.countries is None
    &&& q.limit is None
    &&& q.judges@.len() == 0
    &&& q.dnsbl@.len() == 0
    &&& q.timeout.nanos == 8_000_000_000
    &&& q.max_conn == 200
    &&& q.retry.max_tries == 3
    &&& q.retry.retry_on@ == seq![ProxyError::Timeout]
    &&& q.retry.backoff.nanos == 0
    &&& !q.post
    &&& !q.strict
    &&& q.liveness_url is None
    &&& no_extras(q)
}

/// Whether a query asks for none of the extra checks.
pub open spec fn no_extras(q: FindQuery) -> bool {
    &&& !q.relaxed_validity
    &&& !q.require_cookie
    &&& !q.require_referer
    &&& !q.require_connect25
    &&& !q.trust_check
    &&& !q.require_trusted
}

impl Default for FindQuery {
    fn default() -> (out: FindQuery)
        ensures
            is_default_query(out),
    {
        FindQuery {
            types: Vec::new(),
            countries: None,
            limit: None,
            judges: Vec::new(),
            dnsbl: Vec::new(),
            timeout: Duration::from_secs(8),
            max_conn: 200,
            retry: RetryPolicy::default(),
            post: false,
            strict: false,
            liveness_url: None,
            relaxed_validity: false,
            require_cookie: false,
            require_referer: false,
            require_connect25: false,
            trust_check: false,
            require_trusted: false,
        }
    }
}

/// A [`FindQuery`] in the making. What is not set is as in the usual query.
#[derive(Debug, PartialEq, Eq)]
pub struct FindQueryBuilder {
    pub types: Option<Vec<TypeSpec>>,
    pub countries: Option<Vec<String>>,
    pub limit: Option<usize>,
    pub judges: Option<Vec<String>>,
    pub dnsbl: Option<Vec<String>>,
    pub timeout: Option<Duration>,
    pub max_conn: Option<usize>,
    pub max_tries: Option<usize>,
    pub retry: Option<RetryPolicy>,
    pub post: Option<bool>,
    pub strict: Option<bool>,
    pub liveness_url: Option<String>,
}

impl FindQuery {
    /// Start a query with nothing set.
    pub fn builder() -> (out: FindQueryBuilder)
        ensures
            out == FindQueryBuilder::unset(),
    {
        FindQueryBuilder {
            types: None,
            countries: None,
            limit: None,
            judges: None,
            dnsbl: None,
            timeout: None,
            max_conn: None,
            max_tries: None,
            retry: None,
            post: None,
            strict: None,
            liveness_url: None,
        }
    }
}

impl FindQueryBuilder {
    /// A builder with nothing set.
    pub open spec fn unset() -> FindQueryBuilder {
        FindQueryBuilder {
            types: None,
            countries: None,
            limit: None,
            judges: None,
            dnsbl: None,
            timeout: None,
            max_conn: None,
            max_tries: None,
            retry: None,
            post: None,
            strict: None,
            liveness_url: None,
        }
    }

    /// The protocols that a proxy must speak.
    pub fn types(self, types: Vec<TypeSpec>) -> (out: FindQueryBuilder)
        ensures
            out == (FindQueryBuilder { types: Some(types), ..self }),
    {
        FindQueryBuilder { types: Some(types), ..self }
    }

    /// Keep only proxies in these countries.
    pub fn countries(self, countries: Vec<String>) -> (out: FindQueryBuilder)
        ensures
            out == (FindQueryBuilder { countries: Some(countries), ..self }),
    {
        FindQueryBuilder { countries: Some(countries), ..self }
    }

    /// Stop after this many working proxies; nought means never.
    pub fn limit(self, limit: usize) -> (out: FindQueryBuilder)
        ensures
            out == (FindQueryBuilder {
                limit: if limit > 0 {
                    Some(limit)
                } else {
                    None
                },
                ..self
            }),
    {
        FindQueryBuilder { limit: if limit > 0 { Some(limit) } else { None }, ..self }
    }

    /// The judges to probe.
    pub fn judges(self, judges: Vec<String>) -> (out: FindQueryBuilder)
        ensures
            out == (FindQueryBuilder { judges: Some(judges), ..self }),
    {
        FindQueryBuilder { judges: Some(judges), ..self }
    }

    /// The blocklists that a proxy must not be on.
    pub fn dnsbl(self, dnsbl: Vec<String>) -> (out: FindQueryBuilder)
        ensures
            out == (FindQueryBuilder { dnsbl: Some(dnsbl), ..self }),
    {
        FindQueryBuilder { dnsbl: Some(dnsbl), ..self }
    }

    /// The time that each request may take.
    pub fn timeout(self, timeout: Duration) -> (out: FindQueryBuilder)
        ensures
            out == (FindQueryBuilder { timeout: Some(timeout), ..self }),
    {
        FindQueryBuilder { timeout: Some(timeout), ..self }
    }

    /// How many checks may run at once.
    pub fn max_conn(self, max_conn: usize) -> (out: FindQueryBuilder)
        ensures
            out == (FindQueryBuilder { max_conn: Some(max_conn), ..self }),
    {
        FindQueryBuilder { max_conn: Some(max_conn), ..self }
    }

    /// How often a check is tried. It goes before the number in a retry policy.
    pub fn max_tries(self, max_tries: usize) -> (out: FindQueryBuilder)
        ensures
            out == (FindQueryBuilder { max_tries: Some(max_tries), ..self }),
    {
        FindQueryBuilder { max_tries: Some(max_tries), ..self }
    }

    /// The whole retry policy.
    pub fn retry(self, retry: RetryPolicy) -> (out: FindQueryBuilder)
        ensures
            out == (FindQueryBuilder { retry: Some(retry), ..self }),
    {
        FindQueryBuilder { retry: Some(retry), ..self }
    }

    /// Test with `POST`.
    pub fn post(self, post: bool) -> (out: FindQueryBuilder)
        ensures
            out == (FindQueryBuilder { post: Some(post), ..self }),
    {
        FindQueryBuilder { post: Some(post), ..self }
    }

    /// The anonymity level must match exactly.
    pub fn strict(self, strict: bool) -> (out: FindQueryBuilder)
        ensures
            out == (FindQueryBuilder { strict: Some(strict), ..self }),
    {
        FindQueryBuilder { strict: Some(strict), ..self }
    }

    /// A page that shows a proxy to be alive where no judge answers.
    pub fn liveness_url(self, url: Option<String>) -> (out: FindQueryBuilder)
        ensures
            out == (FindQueryBuilder { liveness_url: url, ..self }),
    {
        FindQueryBuilder { liveness_url: url, ..self }
    }

    /// The query: what was set, and the usual for the rest.
    pub fn build(self) -> (out: FindQuery)
        ensures
            is_built(out, self),
    {
        let d = FindQuery::default();
        let retry = match self.retry {
            Some(r) => r,
            None => d.retry,
        };
        FindQuery {
            types: match self.types {
                Some(v) => v,
                None => d.types,
            },
            countries: self.countries,
            limit: self.limit,
            judges: match self.judges {
                Some(v) => v,
                None => d.judges,
            },
            dnsbl: match self.dnsbl {
                Some(v) => v,
                None => d.dnsbl,
            },
            timeout: match self.timeout {
                Some(t) => t,
                None => d.timeout,
            },
            max_conn: match self.max_conn {
                Some(n) => n,
                None => d.max_conn,
            },
            retry: RetryPolicy {
                max_tries: match self.max_tries {
                    Some(n) => n,
                    None => retry.max_tries,
                },
                retry_on: retry.retry_on,
                backoff: retry.backoff,
            },
            post: match self.post {
                Some(b) => b,
                None => d.post,
            },
            strict: match self.strict {
                Some(b) => b,
                None => d.strict,
            },
            liveness_url: self.liveness_url,
            relaxed_validity: d.relaxed_validity,
            require_cookie: d.require_cookie,
            require_referer: d.require_referer,
            require_connect25: d.require_connect25,
            trust_check: d.trust_check,
            require_trusted: d.require_trusted,
        }
    }
}

/// Whether a query is the one that a builder stands for: what was set, and the usual for the rest.
pub open spec fn is_built(q: FindQuery, b: FindQueryBuilder) -> bool {
    &&& match b.types {
        Some(v) => q.types == v,
        None => q.types@.len() == 0,
    }
    &&& q.countries == b.countries
    &&& q.limit == b.limit
    &&& match b.judges {
        Some(v) => q.judges == v,
        None => q.judges@.len() == 0,
    }
    &&& match b.dnsbl {
        Some(v) => q.dnsbl == v,
        None => q.dnsbl@.len() == 0,
    }
    &&& match b.timeout {
        Some(t) => q.timeout == t,
        None => q.timeout.nanos == 8_000_000_000,
    }
    &&& match b.max_conn {
        Some(n) => q.max_conn == n,
        None => q.max_conn == 200,
    }
    &&& match b.retry {
        Some(r) => q.retry.retry_on == r.retry_on && q.retry.backoff == r.backoff,
        None => q.retry.retry_on@ == seq![ProxyError::Timeout] && q.retry.backoff.nanos == 0,
    }
    &&& q.retry.max_tries == (match b.max_tries {
        Some(n) => n,
        None => match b.retry {
            Some(r) => r.max_tries,
            None => 3,
        },
    })
    &&& match b.post {
        Some(x) => q.post == x,
        None => !q.post,
    }
    &&& match b.strict {
        Some(x) => q.strict == x,
        None => !q.strict,
    }
    &&& q.liveness_url == b.liveness_url
    &&& no_extras(q)
}

/// A builder on which nothing was set gives the usual query.
pub proof fn law_unset_builder_gives_the_default(q: FindQuery)
    requires
        is_built(q, FindQueryBuilder::unset()),
    ensures
        is_default_query(q),
{
}

/// Whether a run can start: at least one protocol must be asked for.
pub fn check_query(query: &FindQuery) -> (out: Result<(), Error>)
    ensures
        query.types@.len() == 0 ==> out == Err::<(), Error>(Error::NoTypes),
        query.types@.len() > 0 ==> out is Ok,
{
    if query.types.len() == 0 {
        Err(Error::NoTypes)
    } else {
        Ok(())
    }
}

/// What a checker is set to.
#[derive(Debug, PartialEq, Eq)]
pub struct CheckerConfig {
    pub judges: Vec<String>,
    pub types: Vec<TypeSpec>,
    pub timeout: Duration,
    pub retry: RetryPolicy,
    pub post: bool,
    pub strict: bool,
    pub relaxed_validity: bool,
    pub trust_check: bool,
    pub dnsbl: Vec<String>,
    pub liveness_url: Option<String>,
}

/// A copy of a list of texts.
pub fn clone_texts(v: &Vec<String>) -> (out: Vec<String>)
    ensures
        out@ == v@,
{
    let mut out: Vec<String> = Vec::new();
    let mut i: usize = 0;
    while i < v.len()
        invariant
            i <= v@.len(),
            out@ == v@.take(i as int),
        decreases v@.len() - i,
    {
        out.push(v[i].clone());
        i += 1;
        assert(out@ =~= v@.take(i as int));
    }
    assert(v@.take(i as int) =~= v@);
    out
}

/// A copy of a list of protocols with levels.
pub fn clone_specs(v: &Vec<TypeSpec>) -> (out: Vec<TypeSpec>)
    ensures
        types::spec_views(out@) == types::spec_views(v@),
{
    let mut out: Vec<TypeSpec> = Vec::new();
    let mut i: usize = 0;
    while i < v.len()
        invariant
            i <= v@.len(),
            types::spec_views(out@) == types::spec_views(v@.take(i as int)),
        decreases v@.len() - i,
    {
        let ghost before = out@;
        out.push(v[i].clone());
        assert(types::spec_views(out@) =~= types::spec_views(before).push(
            types::spec_view(v@[i as int]),
        ));
        assert(v@.take(i + 1) =~= v@.take(i as int).push(v@[i as int]));
        assert(types::spec_views(v@.take(i + 1)) =~= types::spec_views(v@.take(i as int)).push(
            types::spec_view(v@[i as int]),
        ));
        i += 1;
    }
    assert(v@.take(i as int) =~= v@);
    out
}

/// What the checker for a query is set to. Asking for trusted proxies only implies the check for
/// tampering.
pub fn checker_config(query: &FindQuery) -> (out: CheckerConfig)
    ensures
        out.judges@ == query.judges@,
        types::spec_views(out.types@) == types::spec_views(query.types@),
        out.timeout == query.timeout,
        out.retry.max_tries == query.retry.max_tries,
        out.retry.retry_on@ == query.retry.retry_on@,
        out.retry.backoff == query.retry.backoff,
        out.post == query.post,
        out.strict == query.strict,
        out.relaxed_validity == query.relaxed_validity,
        out.trust_check == (query.trust_check || query.require_trusted),
        out.dnsbl@ == query.dnsbl@,
        out.liveness_url == query.liveness_url,
{
    CheckerConfig {
        judges: clone_texts(&query.judges),
        types: clone_specs(&query.types),
        timeout: query.timeout,
        retry: query.retry.clone(),
        post: query.post,
        strict: query.strict,
        relaxed_validity: query.relaxed_validity,
        trust_check: query.trust_check || query.require_trusted,
        dnsbl: clone_texts(&query.dnsbl),
        liveness_url: match &query.liveness_url {
            Some(u) => Some(u.clone()),
            None => None,
        },
    }
}

/// What a working proxy must have been seen to do to be kept.
#[derive(Clone, Copy, Debug, PartialEq, Eq, Structural)]
pub struct CapsFilter {
    pub cookie: bool,
    pub referer: bool,
    pub connect25: bool,
    pub trusted: bool,
}

/// Whether a proxy has everything that a filter asks for.
pub open spec fn has_caps(f: CapsFilter, p: Proxy) -> bool {
    &&& f.cookie ==> p.capabilities.cookie_echo
    &&& f.referer ==> p.capabilities.referer_echo
    &&& f.connect25 ==> p.capabilities.connect25
    &&& f.trusted ==> p.trusted
}

impl CapsFilter {
    /// What a query asks for.
    pub fn from_query(q: &FindQuery) -> (out: CapsFilter)
        ensures
            out == (CapsFilter {
                cookie: q.require_cookie,
                referer: q.require_referer,
                connect25: q.require_connect25,
                trusted: q.require_trusted,
            }),
    {
        CapsFilter {
            cookie: q.require_cookie,
            referer: q.require_referer,
            connect25: q.require_connect25,
            trusted: q.require_trusted,
        }
    }

    /// Whether a proxy has everything that is asked for.
    pub fn passes(&self, p: &Proxy) -> (out: bool)
        ensures
            out == has_caps(*self, *p),
    {
        (!self.cookie || p.capabilities.cookie_echo) && (!self.referer
            || p.capabilities.referer_echo) && (!self.connect25 || p.capabilities.connect25) && (
        !self.trusted || p.trusted)
    }
}

/// Country codes in upper case.
pub open spec fn uppered(codes: Option<Seq<Seq<char>>>) -> Option<Seq<Seq<char>>> {
    match codes {
        Some(v) => Some(v.map_values(|c: Seq<char>| text::upper(c))),
        None => None,
    }
}

/// Put country codes into upper case.
pub fn uppercase_set(countries: Option<&Vec<String>>) -> (out: Option<Vec<String>>)
    ensures
        codes_in(out) == uppered(codes_of(countries)),
{
    match countries {
        None => None,
        Some(v) => {
            let mut out: Vec<String> = Vec::new();
            let mut i: usize = 0;
            while i < v.len()
                invariant
                    i <= v@.len(),
                    out@.len() == i,
                    forall|j: int| 0 <= j < i ==> (#[trigger] out@[j])@ == text::upper(v@[j]@),
                decreases v@.len() - i,
            {
                out.push(text::to_upper(v[i].as_str()));
                i += 1;
            }
            proof {
                let up = text::texts(v@).map_values(|c: Seq<char>| text::upper(c));
                assert(text::texts(out@) =~= up);
            }
            Some(out)
        },
    }
}

/// The country that a database gives for an address; none without a database.
pub open spec fn located(geo: Option<&GeoDb>, host: IpAddr) -> Option<CountryView> {
    match geo {
        Some(db) => geo::country_at(db@, host),
        None => None,
    }
}

/// Whether a country is among the given codes.
pub open spec fn country_among(c: Option<CountryView>, codes: Option<Seq<Seq<char>>>) -> bool {
    match codes {
        None => true,
        Some(v) => match c {
            None => false,
            Some(c) => v.contains(text::upper(c.code)),
        },
    }
}

/// A proxy of which nothing is known but its address and what the databases say of that.
pub open spec fn is_located(
    p: Proxy,
    host: IpAddr,
    port: u16,
    expected: ProtoSet,
    geo: Option<&GeoDb>,
    asn: Option<&GeoDb>,
) -> bool {
    &&& proxy::is_fresh(Proxy { geo: None, asn: None, ..p }, host, port, expected)
    &&& geo::geo_view(p.geo) == located(geo, host)
    &&& geo::asn_view(p.asn) == (match asn {
        Some(db) => geo::asn_at(db@, host),
        None => None,
    })
}

/// The addresses that a run has come by, and the countries that it keeps.
#[derive(Debug, PartialEq, Eq)]
pub struct Screen {
    pub seen: AddrSet,
    /// Country codes in upper case.
    pub countries: Option<Vec<String>>,
}

impl Screen {
    /// The codes that are kept.
    pub open spec fn codes(&self) -> Option<Seq<Seq<char>>> {
        codes_in(self.countries)
    }

    /// A run at its start, keeping the given countries.
    pub fn new(countries: Option<&Vec<String>>) -> (out: Screen)
        ensures
            out.seen.wf(),
            out.seen@ == Set::<(IpAddr, u16)>::empty(),
            out.codes() == uppered(codes_of(countries)),
    {
        Screen { seen: AddrSet::new(), countries: uppercase_set(countries) }
    }

    /// Take in a candidate from a provider. It is left out where its host is no address in text, where its
    /// address came before, and where its country is not kept; an address counts as seen whatever
    /// its country.
    pub fn take(
        &mut self,
        host: &str,
        port: u16,
        expected: ProtoSet,
        geo: Option<&GeoDb>,
        asn: Option<&GeoDb>,
    ) -> (out: Option<Proxy>)
        requires
            old(self).seen.wf(),
        ensures
            final(self).seen.wf(),
            final(self).countries == old(self).countries,
            match addr_parse::ip_of(host@) {
                None => out is None && final(self).seen@ == old(self).seen@,
                Some(h) => {
                    &&& final(self).seen@ == old(self).seen@.insert((h, port))
                    &&& out is Some == (!old(self).seen@.contains((h, port)) && country_among(
                        located(geo, h),
                        old(self).codes(),
                    ))
                    &&& out matches Some(p) ==> is_located(p, h, port, expected, geo, asn)
                },
            },
    {
        let h = match addr_parse::parse_ip(host) {
            Some(h) => h,
            None => {
                return None;
            },
        };
        if !self.seen.insert(h, port) {
            return None;
        }
        let mut p = Proxy::new(h, port, expected);
        geo::attach_geo(&mut p, geo, asn);
        if country_ok(&p, self.countries.as_ref()) {
            Some(p)
        } else {
            None
        }
    }
}

/// Look up a proxy that the caller brought, and keep it where its country is kept.
pub fn locate(
    proxy: Proxy,
    countries: Option<&Vec<String>>,
    geo: Option<&GeoDb>,
    asn: Option<&GeoDb>,
) -> (out: Option<Proxy>)
    ensures
        ({
            let country = match geo {
                Some(db) => located(geo, proxy.host),
                None => geo::geo_view(proxy.geo),
            };
            &&& out is Some == country_among(country, codes_of(countries))
            &&& out matches Some(p) ==> geo::geo_view(p.geo) == country && p == (Proxy {
                geo: p.geo,
                asn: p.asn,
                ..proxy
            })
            &&& out matches Some(p) ==> geo::asn_view(p.asn) == (match asn {
                Some(db) => geo::asn_at(db@, proxy.host),
                None => geo::asn_view(proxy.asn),
            })
        }),
{
    let mut p = proxy;
    geo::attach_geo(&mut p, geo, asn);
    if country_ok(&p, countries) {
        Some(p)
    } else {
        None
    }
}

/// Whether as many were sent as the limit allows.
pub fn is_limit_reached(sent: usize, limit: Option<usize>) -> (out: bool)
    ensures
        out == (limit matches Some(l) && sent >= l),
{
    match limit {
        Some(l) => sent >= l,
        None => false,
    }
}

/// What a run has sent so far, and how much it may.
#[derive(Clone, Copy, Debug, PartialEq, Eq, Structural)]
pub struct Emission {
    /// How many places were taken, whether there was room for them or not.
    pub taken: usize,
    pub limit: Option<usize>,
}

/// What to do with a place that was taken.
#[derive(Clone, Copy, Debug, PartialEq, Eq, Structural)]
pub struct Slot {
    /// Send the proxy.
    pub emit: bool,
    /// Stop the run.
    pub cancel: bool,
}

/// What to do with the place after `taken` others: send while there is room, and stop with the last
/// that has room or at the first that has none.
pub open spec fn slot_after(taken: nat, limit: Option<usize>) -> Slot {
    match limit {
        None => Slot { emit: true, cancel: false },
        Some(l) => Slot { emit: taken < l, cancel: taken + 1 >= l },
    }
}

impl Emission {
    /// Nothing sent yet.
    pub fn new(limit: Option<usize>) -> (out: Emission)
        ensures
            out.taken == 0,
            out.limit == limit,
    {
        Emission { taken: 0, limit }
    }

    /// Whether the run goes on to its next proxy.
    pub fn goes_on(&self, cancelled: bool) -> (out: bool)
        ensures
            out == (!cancelled && !(self.limit matches Some(l) && self.taken >= l)),
    {
        !cancelled && !is_limit_reached(self.taken, self.limit)
    }

    /// Take a place for a proxy that was checked, where it works and has what is asked for.
    pub fn settle(&mut self, working: bool, caps: CapsFilter, proxy: &Proxy) -> (out: Slot)
        requires
            old(self).taken < usize::MAX,
        ensures
            final(self).limit == old(self).limit,
            working && has_caps(caps, *proxy) ==> final(self).taken == old(self).taken + 1 && out
                == slot_after(old(self).taken as nat, old(self).limit),
            !(working && has_caps(caps, *proxy)) ==> final(self).taken == old(self).taken && out
                == (Slot { emit: false, cancel: false }),
    {
        if !(working && caps.passes(proxy)) {
            return Slot { emit: false, cancel: false };
        }
        let n: usize = self.taken;
        self.taken += 1;
        match self.limit {
            None => Slot { emit: true, cancel: false },
            Some(l) => Slot { emit: n < l, cancel: n + 1 >= l },
        }
    }
}

/// How many of `n` places are used to send.
pub open spec fn emitted(n: nat, limit: Option<usize>) -> nat
    decreases n,
{
    if n == 0 {
        0
    } else {
        emitted((n - 1) as nat, limit) + (if slot_after((n - 1) as nat, limit).emit {
            1nat
        } else {
            0nat
        })
    }
}

/// However many checks come out well, and in whatever order, no more proxies are sent than the
/// limit; and all are sent while there is room, or where there is no limit.
pub proof fn law_never_sends_past_the_limit(n: nat, limit: Option<usize>)
    ensures
        limit is None ==> emitted(n, limit) == n,
        limit matches Some(l) ==> emitted(n, limit) == (if n < l {
            n
        } else {
            l as nat
        }),
    decreases n,
{
    if n > 0 {
        law_never_sends_past_the_limit((n - 1) as nat, limit);
    }
}

/// A run is stopped with the last proxy that it may send, so none is waited for in vain.
pub proof fn law_last_place_stops_the_run(limit: usize)
    requires
        limit > 0,
    ensures
        slot_after((limit - 1) as nat, Some(limit)) == (Slot { emit: true, cancel: true }),
{
}

/// What to do with a candidate while gathering.
#[derive(Debug, PartialEq, Eq)]
pub enum Offer {
    /// Send this proxy, then count it as sent.
    Send(Proxy),
    /// Leave it out.
    Skip,
    /// Enough was sent.
    Stop,
}

/// What kind of thing is done with a candidate.
pub enum OfferKind {
    Send,
    Skip,
    Stop,
}

/// The address of a candidate, where its host is an address in text.
pub open spec fn address(host: Seq<char>, port: u16) -> Option<(IpAddr, u16)> {
    match addr_parse::ip_of(host) {
        Some(h) => Some((h, port)),
        None => None,
    }
}

/// What is done with a candidate: nothing more where enough was sent, else it is sent where it has
/// an address that did not come before and is wanted.
pub open spec fn offered(
    seen: Set<(IpAddr, u16)>,
    sent: nat,
    limit: Option<usize>,
    at: Option<(IpAddr, u16)>,
    wanted: bool,
) -> OfferKind {
    if limit matches Some(l) && sent >= l {
        OfferKind::Stop
    } else if at is Some && !seen.contains(at->0) && wanted {
        OfferKind::Send
    } else {
        OfferKind::Skip
    }
}

/// The addresses that came before, after another candidate.
pub open spec fn seen_after(
    seen: Set<(IpAddr, u16)>,
    sent: nat,
    limit: Option<usize>,
    at: Option<(IpAddr, u16)>,
) -> Set<(IpAddr, u16)> {
    if (limit matches Some(l) && sent >= l) || at is None {
        seen
    } else {
        seen.insert(at->0)
    }
}

/// A run that gathers without checking.
#[derive(Debug, PartialEq, Eq)]
pub struct Gather {
    pub screen: Screen,
    pub sent: usize,
    pub limit: Option<usize>,
}

impl Gather {
    /// A run at its start.
    pub fn new(query: &GrabQuery) -> (out: Gather)
        ensures
            out.screen.seen.wf(),
            out.screen.seen@ == Set::<(IpAddr, u16)>::empty(),
            out.screen.codes() == uppered(codes_in(query.countries)),
            out.sent == 0,
            out.limit == query.limit,
    {
        Gather { screen: Screen::new(query.countries.as_ref()), sent: 0, limit: query.limit }
    }

    /// Take in a candidate. Whether enough was sent is asked first.
    pub fn offer(
        &mut self,
        host: &str,
        port: u16,
        expected: ProtoSet,
        geo: Option<&GeoDb>,
        asn: Option<&GeoDb>,
    ) -> (out: Offer)
        requires
            old(self).screen.seen.wf(),
        ensures
            final(self).screen.seen.wf(),
            final(self).sent == old(self).sent,
            final(self).limit == old(self).limit,
            final(self).screen.countries == old(self).screen.countries,
            ({
                let at = address(host@, port);
                let wanted = country_among(located(geo, (at->0).0), old(self).screen.codes());
                let seen = old(self).screen.seen@;
                &&& final(self).screen.seen@ == seen_after(
                    seen,
                    old(self).sent as nat,
                    old(self).limit,
                    at,
                )
                &&& match offered(seen, old(self).sent as nat, old(self).limit, at, wanted) {
                    OfferKind::Stop => out is Stop,
                    OfferKind::Skip => out is Skip,
                    OfferKind::Send => out matches Offer::Send(p) && is_located(
                        p,
                        (at->0).0,
                        port,
                        expected,
                        geo,
                        asn,
                    ),
                }
            }),
    {
        if is_limit_reached(self.sent, self.limit) {
            return Offer::Stop;
        }
        match self.screen.take(host, port, expected, geo, asn) {
            Some(p) => Offer::Send(p),
            None => Offer::Skip,
        }
    }

    /// Count a proxy as sent.
    pub fn note_sent(&mut self)
        requires
            old(self).sent < usize::MAX,
        ensures
            *final(self) == (Gather { sent: (old(self).sent + 1) as usize, ..*old(self) }),
    {
        self.sent += 1;
    }
}

/// The addresses that a run sends, in order, where `offers` are the addresses of the candidates
/// that it is offered and `wanted` tells whether an address is in a country that is kept.
pub open spec fn gathered(
    seen: Set<(IpAddr, u16)>,
    sent: nat,
    limit: Option<usize>,
    offers: Seq<Option<(IpAddr, u16)>>,
    wanted: spec_fn(IpAddr) -> bool,
) -> Seq<(IpAddr, u16)>
    decreases offers.len(),
{
    if offers.len() == 0 {
        Seq::empty()
    } else {
        let at = offers[0];
        let now = seen_after(seen, sent, limit, at);
        match offered(seen, sent, limit, at, wanted((at->0).0)) {
            OfferKind::Stop => Seq::empty(),
            OfferKind::Skip => gathered(now, sent, limit, offers.skip(1), wanted),
            OfferKind::Send => seq![at->0] + gathered(now, sent + 1, limit, offers.skip(1), wanted),
        }
    }
}

/// The wanted addresses among the offers that did not come before.
pub open spec fn on_offer(
    seen: Set<(IpAddr, u16)>,
    offers: Seq<Option<(IpAddr, u16)>>,
    wanted: spec_fn(IpAddr) -> bool,
) -> Set<(IpAddr, u16)>
    decreases offers.len(),
{
    if offers.len() == 0 {
        Set::empty()
    } else {
        let rest = on_offer(seen, offers.skip(1), wanted);
        match offers[0] {
            Some(at) => if !seen.contains(at) && wanted(at.0) {
                rest.insert(at)
            } else {
                rest
            },
            None => rest,
        }
    }
}

proof fn lemma_on_offer(
    seen: Set<(IpAddr, u16)>,
    offers: Seq<Option<(IpAddr, u16)>>,
    wanted: spec_fn(IpAddr) -> bool,
)
    ensures
        on_offer(seen, offers, wanted).finite(),
        forall|at: (IpAddr, u16)| #[trigger]
            on_offer(seen, offers, wanted).contains(at) == (!seen.contains(at) && wanted(at.0)
                && offers.contains(Some(at))),
    decreases offers.len(),
{
    if offers.len() > 0 {
        let rest = offers.skip(1);
        lemma_on_offer(seen, rest, wanted);
        assert forall|at: (IpAddr, u16)| #[trigger]
            on_offer(seen, offers, wanted).contains(at) == (!seen.contains(at) && wanted(at.0)
                && offers.contains(Some(at))) by {
            assert(on_offer(seen, rest, wanted).contains(at) == (!seen.contains(at) && wanted(at.0)
                && rest.contains(Some(at))));
            if rest.contains(Some(at)) {
                let k = choose|k: int| 0 <= k < rest.len() && rest[k] == Some(at);
                assert(offers[k + 1] == Some(at));
            }
            if offers.contains(Some(at)) && offers[0] != Some(at) {
                let k = choose|k: int| 0 <= k < offers.len() && offers[k] == Some(at);
                assert(rest[k - 1] == Some(at));
            }
        }
    }
}

/// Whatever a run is offered, the addresses that it sends are distinct, each was offered and is
/// wanted, and their number is that of the distinct wanted addresses on offer, or what the limit
/// leaves where that is less.
pub proof fn law_gathered_are_distinct_up_to_the_limit(
    seen: Set<(IpAddr, u16)>,
    sent: nat,
    limit: Option<usize>,
    offers: Seq<Option<(IpAddr, u16)>>,
    wanted: spec_fn(IpAddr) -> bool,
)
    requires
        limit matches Some(l) ==> sent <= l,
    ensures
        gathered(seen, sent, limit, offers, wanted).no_duplicates(),
        forall|k: int|
            0 <= k < gathered(seen, sent, limit, offers, wanted).len() ==> on_offer(
                seen,
                offers,
                wanted,
            ).contains(#[trigger] gathered(seen, sent, limit, offers, wanted)[k]),
        gathered(seen, sent, limit, offers, wanted).len() == (match limit {
            Some(l) => if on_offer(seen, offers, wanted).len() <= l - sent {
                on_offer(seen, offers, wanted).len() as int
            } else {
                l - sent
            },
            None => on_offer(seen, offers, wanted).len() as int,
        }),
    decreases offers.len(),
{
    lemma_on_offer(seen, offers, wanted);
    if offers.len() > 0 {
        let at = offers[0];
        let rest = offers.skip(1);
        let now = seen_after(seen, sent, limit, at);
        let all = on_offer(seen, offers, wanted);
        let out = gathered(seen, sent, limit, offers, wanted);
        match offered(seen, sent, limit, at, wanted((at->0).0)) {
            OfferKind::Stop => {},
            OfferKind::Skip => {
                lemma_on_offer(now, rest, wanted);
                lemma_on_offer(seen, rest, wanted);
                law_gathered_are_distinct_up_to_the_limit(now, sent, limit, rest, wanted);
                assert(all =~= on_offer(now, rest, wanted));
            },
            OfferKind::Send => {
                lemma_on_offer(now, rest, wanted);
                lemma_on_offer(seen, rest, wanted);
                law_gathered_are_distinct_up_to_the_limit(now, sent + 1, limit, rest, wanted);
                let less = on_offer(now, rest, wanted);
                let tail = gathered(now, sent + 1, limit, rest, wanted);
                assert(!less.contains(at->0));
                assert(all =~= less.insert(at->0));
                assert forall|i: int, j: int|
                    0 <= i < out.len() && 0 <= j < out.len() && i != j implies out[i] != out[j] by {
                    if i > 0 {
                        assert(out[i] == tail[i - 1]);
                        assert(less.contains(tail[i - 1]));
                    }
                    if j > 0 {
                        assert(out[j] == tail[j - 1]);
                        assert(less.contains(tail[j - 1]));
                    }
                }
                assert forall|k: int| 0 <= k < out.len() implies all.contains(#[trigger] out[k]) by {
                    if k > 0 {
                        assert(out[k] == tail[k - 1]);
                    }
                }
            },
        }
    }
}

/// The database to look countries up in: none where lookups are switched off, else the one
/// supplied, else the one at hand.
pub fn choose_geo<T>(supplied: Option<T>, no_geo: bool, at_hand: Option<T>) -> (out: Option<T>)
    ensures
        out == (if no_geo {
            None
        } else if supplied is Some {
            supplied
        } else {
            at_hand
        }),
{
    if no_geo {
        None
    } else {
        match supplied {
            Some(db) => Some(db),
            None => at_hand,
        }
    }
}

proof fn lemma_same_case_same_upper(a: Seq<char>, b: Seq<char>)
    requires
        vstd::utf8::is_ascii_chars(a),
        vstd::utf8::is_ascii_chars(b),
    ensures
        text::lowered(a) == text::lowered(b) <==> text::upper(a) == text::upper(b),
{
    let (x, y) = (text::upper(a), text::upper(b));
    let (l, m) = (text::lowered(a), text::lowered(b));
    assert(x.len() == a.len() && y.len() == b.len() && l.len() == a.len() && m.len() == b.len());
    if l == m {
        assert forall|k: int| 0 <= k < a.len() implies x[k] == y[k] by {
            assert(l[k] == text::lower(a[k]) && m[k] == text::lower(b[k]));
        }
        assert(x =~= y);
    }
    if x == y {
        assert forall|k: int| 0 <= k < a.len() implies l[k] == m[k] by {
            assert(x[k] == text::ascii_upper(a[k]) && y[k] == text::ascii_upper(b[k]));
        }
        assert(l =~= m);
    }
}

/// A country is kept exactly where its code is among those asked for, whatever the case of either;
/// where none is asked for all are kept, and where some are, a country that is unknown is not.
pub proof fn law_countries_are_kept_by_code(code: Seq<char>, codes: Seq<Seq<char>>, c: CountryView)
    requires
        c.code == code,
        vstd::utf8::is_ascii_chars(code),
        forall|k: int| 0 <= k < codes.len() ==> vstd::utf8::is_ascii_chars(#[trigger] codes[k]),
    ensures
        country_among(Some(c), uppered(Some(codes))) <==> exists|k: int|
            0 <= k < codes.len() && text::lowered(#[trigger] codes[k]) == text::lowered(code),
        country_among(None, uppered(Some(codes))) == false,
        country_among(Some(c), uppered(None)),
        country_among(None, uppered(None)),
{
    let up = codes.map_values(|c: Seq<char>| text::upper(c));
    if up.contains(text::upper(code)) {
        let k = choose|k: int| 0 <= k < up.len() && up[k] == text::upper(code);
        lemma_same_case_same_upper(codes[k], code);
        assert(text::lowered(codes[k]) == text::lowered(code));
    }
    if exists|k: int| 0 <= k < codes.len() && text::lowered(#[trigger] codes[k]) == text::lowered(code) {
        let k = choose|k: int|
            0 <= k < codes.len() && text::lowered(#[trigger] codes[k]) == text::lowered(code);
        lemma_same_case_same_upper(codes[k], code);
        assert(up[k] == text::upper(code));
    }
}

/// A proxy is kept by its country as the country itself is, and by nothing else of it.
pub proof fn law_proxy_is_kept_by_its_country(p: Proxy, countries: Option<Seq<Seq<char>>>)
    ensures
        in_countries(p, countries) == country_among(geo::geo_view(p.geo), countries),
        countries is None ==> in_countries(p, countries),
        countries is Some && p.geo is None ==> !in_countries(p, countries),
{
}

/// A filter keeps a proxy exactly where everything that it asks for was seen of the proxy, each by
/// itself; one that asks for nothing keeps all.
pub proof fn law_filter_asks_for_each_by_itself(f: CapsFilter, p: Proxy)
    ensures
        f.cookie && !p.capabilities.cookie_echo ==> !has_caps(f, p),
        f.referer && !p.capabilities.referer_echo ==> !has_caps(f, p),
        f.connect25 && !p.capabilities.connect25 ==> !has_caps(f, p),
        f.trusted && !p.trusted ==> !has_caps(f, p),
        (!f.cookie || p.capabilities.cookie_echo) && (!f.referer || p.capabilities.referer_echo) && (
        !f.connect25 || p.capabilities.connect25) && (!f.trusted || p.trusted) ==> has_caps(f, p),
{
}

/// The usual query: eight seconds for a request, two hundred checks at once, three tries after a
/// timeout alone, and nothing asked for or left out beyond that.
pub proof fn law_usual_query(q: FindQuery)
    requires
        is_default_query(q),
    ensures
        q.timeout.nanos == 8 * 1_000_000_000,
        q.max_conn == 200,
        q.retry.max_tries == 3,
        q.retry.retry_on@ == seq![ProxyError::Timeout],
        q.retry.backoff.nanos == 0,
        q.types@.len() == 0 && q.judges@.len() == 0 && q.dnsbl@.len() == 0,
        q.countries is None && q.limit is None && q.liveness_url is None,
        !q.post && !q.strict && !q.relaxed_validity && !q.trust_check,
        !q.require_cookie && !q.require_referer && !q.require_connect25 && !q.require_trusted,
{
}

/// What was set on a builder is in its query, and what was not is as usual; a number of tries goes
/// before that of a retry policy.
pub proof fn law_builder_keeps_what_was_set(q: FindQuery, b: FindQueryBuilder)
    requires
        is_built(q, b),
    ensures
        b.types matches Some(v) ==> q.types == v,
        b.types is None ==> q.types@.len() == 0,
        q.countries == b.countries,
        q.limit == b.limit,
        b.judges matches Some(v) ==> q.judges == v,
        b.judges is None ==> q.judges@.len() == 0,
        b.dnsbl matches Some(v) ==> q.dnsbl == v,
        b.dnsbl is None ==> q.dnsbl@.len() == 0,
        b.timeout matches Some(t) ==> q.timeout == t,
        b.timeout is None ==> q.timeout.nanos == 8 * 1_000_000_000,
        b.max_conn matches Some(n) ==> q.max_conn == n,
        b.max_conn is None ==> q.max_conn == 200,
        b.max_tries matches Some(n) ==> q.retry.max_tries == n,
        b.max_tries is None && b.retry is None ==> q.retry.max_tries == 3,
        b.max_tries is None ==> (b.retry matches Some(r) ==> q.retry.max_tries == r.max_tries),
        b.retry matches Some(r) ==> q.retry.retry_on == r.retry_on && q.retry.backoff == r.backoff,
        b.retry is None ==> q.retry.retry_on@ == seq![ProxyError::Timeout] && q.retry.backoff.nanos
            == 0,
        b.post matches Some(x) ==> q.post == x,
        b.post is None ==> !q.post,
        b.strict matches Some(x) ==> q.strict == x,
        b.strict is None ==> !q.strict,
        q.liveness_url == b.liveness_url,
        !q.relaxed_validity && !q.trust_check && !q.require_cookie && !q.require_referer
            && !q.require_connect25 && !q.require_trusted,
{
}

/// A place is used to send exactly while fewer were taken than the limit, and the run is stopped by
/// the place that fills it and by every later one; without a limit neither ever happens.
pub proof fn law_places_are_used_while_there_is_room(taken: nat, limit: usize)
    ensures
        slot_after(taken, Some(limit)).emit <==> taken < limit,
        slot_after(taken, Some(limit)).cancel <==> taken + 1 >= limit,
        slot_after(taken, None).emit,
        !slot_after(taken, None).cancel,
{
}

/// While gathering, a candidate is sent exactly where there is room, it has an address, that did not
/// come before, and it is wanted; its address then counts as having come, wanted or not.
pub proof fn law_candidates_are_sent_once(
    seen: Set<(IpAddr, u16)>,
    sent: nat,
    limit: Option<usize>,
    at: Option<(IpAddr, u16)>,
    wanted: bool,
)
    ensures
        (limit matches Some(l) && sent >= l) ==> offered(seen, sent, limit, at, wanted) is Stop
            && seen_after(seen, sent, limit, at) == seen,
        !(limit matches Some(l) && sent >= l) ==> !(offered(seen, sent, limit, at, wanted) is Stop),
        offered(seen, sent, limit, at, wanted) is Send <==> !(limit matches Some(l) && sent >= l) && (
        at matches Some(a) && !seen.contains(a)) && wanted,
        !(limit matches Some(l) && sent >= l) && at is Some ==> seen_after(seen, sent, limit, at)
            == seen.insert(at->0),
        at is None ==> seen_after(seen, sent, limit, at) == seen,
{
}

} // verus!

//! From command line arguments to queries and configurations.
use crate::addr::{AddrSet, IpAddr};
use crate::broker;
use crate::broker::{FindQuery, GrabQuery};
use crate::measure::Measure;
use crate::parse;
use crate::proxy::Proxy;
use crate::server::pool;
use crate::server::pool::{Pool, PoolConfig};
use crate::server::select::Strategy;
use crate::text;
use crate::text::NumberFault;
use crate::types;
use crate::types::{AnonLevel, Duration, Proto, ProxyError, RetryPolicy, TypeSpec};
use vstd::prelude::*;
use vstd::string::*;

verus! {

/// How the pool picks a proxy, as it is named on the command line.
#[derive(Clone, Copy, Debug, Default, PartialEq, Eq, Structural)]
pub enum SelectStrategy {
    #[default]
    Best,
    RoundRobin,
    Random,
    Sticky,
}

impl SelectStrategy {
    /// The strategy of that name.
    pub fn to_server(self) -> (out: Strategy)
        ensures
            out == (match self {
                SelectStrategy::Best => Strategy::Best,
                SelectStrategy::RoundRobin => Strategy::RoundRobin,
                SelectStrategy::Random => Strategy::Random,
                SelectStrategy::Sticky => Strategy::Sticky,
            }),
    {
        match self {
            SelectStrategy::Best => Strategy::Best,
            SelectStrategy::RoundRobin => Strategy::RoundRobin,
            SelectStrategy::Random => Strategy::Random,
            SelectStrategy::Sticky => Strategy::Sticky,
        }
    }
}

/// Why a text is no number, in words.
pub open spec fn fault_text(f: NumberFault) -> Seq<char> {
    match f {
        NumberFault::Empty => "cannot parse integer from empty string"@,
        NumberFault::InvalidDigit => "invalid digit found in string"@,
        NumberFault::TooLarge => "number too large to fit in target type"@,
    }
}

/// Read a number that is at least one.
pub fn parse_positive_usize(value: &str) -> (out: Result<usize, String>)
    ensures
        match text::number(value@, usize::MAX as nat) {
            Ok(n) => if n == 0 {
                out matches Err(m) && m@ == "value must be at least 1"@
            } else {
                out == Ok::<usize, String>(n as usize)
            },
            Err(f) => out matches Err(m) && m@ == "invalid positive integer: "@ + fault_text(f),
        },
{
    let cs = text::chars_of(value);
    match text::parse_number(&cs, usize::MAX as u64) {
        Ok(n) => {
            if n == 0 {
                Err("value must be at least 1".to_owned())
            } else {
                Ok(n as usize)
            }
        },
        Err(f) => {
            let mut m = "invalid positive integer: ".to_owned();
            m.append(
                match f {
                    NumberFault::Empty => "cannot parse integer from empty string",
                    NumberFault::InvalidDigit => "invalid digit found in string",
                    NumberFault::TooLarge => "number too large to fit in target type",
                },
            );
            Err(m)
        },
    }
}

/// After which errors a check is tried again, as it is named on the command line.
#[derive(Clone, Copy, Debug, Default, PartialEq, Eq, Structural)]
pub enum RetryOn {
    /// Only after a timeout.
    #[default]
    Timeout,
    /// After every error that is likely to pass.
    Transient,
    /// Also after a refusal by the proxy.
    All,
}

/// The errors after which a check is tried again.
pub open spec fn retried(on: RetryOn) -> Seq<ProxyError> {
    match on {
        RetryOn::Timeout => seq![ProxyError::Timeout],
        RetryOn::Transient => RetryPolicy::transient_errors(),
        RetryOn::All => RetryPolicy::transient_errors().push(ProxyError::BadStatus),
    }
}

/// The retry policy that the arguments ask for.
pub fn retry_policy(max_tries: usize, on: RetryOn, backoff_ms: u64) -> (out: RetryPolicy)
    ensures
        out.max_tries == max_tries,
        out.retry_on@ == retried(on),
        out.backoff.nanos == backoff_ms * 1_000_000,
{
    let mut p = match on {
        RetryOn::Timeout => RetryPolicy::tries(max_tries),
        RetryOn::Transient => RetryPolicy::transient(max_tries),
        RetryOn::All => {
            let mut p = RetryPolicy::transient(max_tries);
            p.retry_on.push(ProxyError::BadStatus);
            p
        },
    };
    p.backoff = Duration::from_millis(backoff_ms);
    p
}

/// The protocols asked for, each with the levels asked for; no levels means any.
pub open spec fn specs_of(protos: Seq<Proto>, lvl: Seq<AnonLevel>) -> Seq<
    (Proto, Option<Seq<AnonLevel>>),
> {
    protos.map_values(
        |p: Proto|
            (
                p,
                if lvl.len() > 0 {
                    Some(lvl)
                } else {
                    None
                },
            ),
    )
}

/// The protocols asked for, each with the levels asked for.
pub fn types_from(protos: &Vec<Proto>, lvl: &Vec<AnonLevel>) -> (out: Vec<TypeSpec>)
    ensures
        types::spec_views(out@) == specs_of(protos@, lvl@),
{
    let mut out: Vec<TypeSpec> = Vec::new();
    let mut i: usize = 0;
    while i < protos.len()
        invariant
            i <= protos@.len(),
            types::spec_views(out@) == specs_of(protos@.take(i as int), lvl@),
        decreases protos@.len() - i,
    {
        let levels = if lvl.len() > 0 {
            Some(copy_levels(lvl))
        } else {
            None
        };
        let spec = TypeSpec { proto: protos[i], levels };
        let ghost before = out@;
        let ghost view = types::spec_view(spec);
        out.push(spec);
        i += 1;
        proof {
            assert(types::spec_views(out@) =~= types::spec_views(before).push(view));
            assert(specs_of(protos@.take(i as int), lvl@) =~= specs_of(
                protos@.take(i - 1),
                lvl@,
            ).push(view));
        }
    }
    assert(protos@.take(i as int) =~= protos@);
    out
}

fn copy_levels(lvl: &Vec<AnonLevel>) -> (out: Vec<AnonLevel>)
    ensures
        out@ == lvl@,
{
    let mut out: Vec<AnonLevel> = Vec::new();
    let mut i: usize = 0;
    while i < lvl.len()
        invariant
            i <= lvl@.len(),
            out@ == lvl@.take(i as int),
        decreases lvl@.len() - i,
    {
        out.push(lvl[i]);
        i += 1;
        assert(out@ =~= lvl@.take(i as int));
    }
    assert(lvl@.take(i as int) =~= lvl@);
    out
}

/// A list of countries as a query takes it: none where the list is empty.
pub open spec fn some_countries(list: Seq<String>) -> Option<Seq<Seq<char>>> {
    if list.len() > 0 {
        Some(text::texts(list))
    } else {
        None
    }
}

fn optional_countries(list: &Vec<String>) -> (out: Option<Vec<String>>)
    ensures
        broker::codes_in(out) == some_countries(list@),
{
    if list.len() > 0 {
        Some(broker::clone_texts(list))
    } else {
        None
    }
}

/// The countries of which a pool admits proxies: none means all.
pub fn pool_countries(list: &Vec<String>) -> (out: Option<Vec<String>>)
    ensures
        broker::codes_in(out) == broker::uppered(some_countries(list@)),
{
    if list.len() > 0 {
        broker::uppercase_set(Some(list))
    } else {
        None
    }
}

/// A limit as a query takes it: nought means none.
pub open spec fn some_limit(limit: usize) -> Option<usize> {
    if limit > 0 {
        Some(limit)
    } else {
        None
    }
}

/// The query to gather by.
pub fn grab_query(limit: usize, countries: &Vec<String>) -> (out: GrabQuery)
    ensures
        out.limit == some_limit(limit),
        broker::codes_in(out.countries) == some_countries(countries@),
{
    GrabQuery {
        countries: optional_countries(countries),
        limit: if limit > 0 { Some(limit) } else { None },
    }
}

/// What the arguments of `serve` come to, as far as they decide anything.
#[derive(Debug, Default, PartialEq, Eq)]
pub struct ServeArgs {
    pub types: Vec<Proto>,
    pub lvl: Vec<AnonLevel>,
    pub dnsbl: Vec<String>,
    pub post: bool,
    pub strict: bool,
    pub strategy: SelectStrategy,
    pub sticky_header: Option<String>,
    pub limit: usize,
    pub countries: Vec<String>,
    /// In seconds.
    pub timeout: u64,
    pub fill_max_conn: Option<usize>,
    pub fill_max_tries: Option<usize>,
    pub max_error_rate: Measure,
    pub max_resp_time: Measure,
    /// In seconds.
    pub fail_timeout: u64,
    pub prefer_connect: bool,
    pub http_allowed_codes: Vec<u16>,
    pub max_tries: usize,
}

/// A pool is never filled without end: nought proxies means one.
pub open spec fn at_least_one(n: usize) -> usize {
    if n > 0 {
        n
    } else {
        1
    }
}

/// Whether a query asks for what `serve` is told, and for the usual otherwise.
pub open spec fn is_serve_query(q: FindQuery, args: ServeArgs) -> bool {
    &&& types::spec_views(q.types@) == specs_of(args.types@, args.lvl@)
    &&& q.limit == Some(at_least_one(args.limit))
    &&& q.dnsbl@ == args.dnsbl@
    &&& q.timeout.nanos == args.timeout * 1_000_000_000
    &&& q.post == args.post
    &&& q.strict == args.strict
    &&& broker::codes_in(q.countries) == some_countries(args.countries@)
    &&& q.judges@.len() == 0
    &&& q.retry.retry_on@ == seq![ProxyError::Timeout]
    &&& q.retry.backoff.nanos == 0
    &&& q.liveness_url is None
    &&& broker::no_extras(q)
}

/// The query by which proxies are checked for `serve`.
pub fn serve_query(args: &ServeArgs) -> (out: FindQuery)
    ensures
        is_serve_query(out, *args),
        out.max_conn == 200,
        out.retry.max_tries == 3,
{
    let limit: usize = if args.limit > 0 { args.limit } else { 1 };
    let b = FindQuery::builder().types(types_from(&args.types, &args.lvl)).limit(limit).dnsbl(
        broker::clone_texts(&args.dnsbl),
    ).timeout(Duration::from_secs(args.timeout)).post(args.post).strict(args.strict);
    let b = if args.countries.len() > 0 {
        b.countries(broker::clone_texts(&args.countries))
    } else {
        b
    };
    b.build()
}

/// The query by which the pool is filled for `serve`: the same, with the bounds that are meant for
/// filling alone.
pub fn serve_fill_query(args: &ServeArgs) -> (out: FindQuery)
    ensures
        is_serve_query(out, *args),
        out.max_conn == (match args.fill_max_conn {
            Some(n) => n,
            None => 200,
        }),
        out.retry.max_tries == (match args.fill_max_tries {
            Some(n) => n,
            None => 3,
        }),
{
    let mut q = serve_query(args);
    if let Some(n) = args.fill_max_conn {
        q.max_conn = n;
    }
    if let Some(n) = args.fill_max_tries {
        q.retry.max_tries = n;
    }
    q
}

/// A copy of a list of codes.
fn clone_codes(v: &Vec<u16>) -> (out: Vec<u16>)
    ensures
        out@ == v@,
{
    let mut out: Vec<u16> = Vec::new();
    let mut i: usize = 0;
    while i < v.len()
        invariant
            i <= v@.len(),
            out@ == v@.take(i as int),
        decreases v@.len() - i,
    {
        out.push(v[i]);
        i += 1;
        assert(out@ =~= v@.take(i as int));
    }
    assert(v@.take(i as int) =~= v@);
    out
}

/// The configuration of the pool for `serve`: what the arguments say, and the usual otherwise.
pub fn serve_pool_config(args: &ServeArgs) -> (out: PoolConfig)
    ensures
        out.max_tries == args.max_tries,
        out.max_error_rate == args.max_error_rate,
        out.max_resp_time == args.max_resp_time,
        out.min_req == 5,
        broker::codes_in(out.countries) == broker::uppered(some_countries(args.countries@)),
        out.strategy == (match args.strategy {
            SelectStrategy::Best => Strategy::Best,
            SelectStrategy::RoundRobin => Strategy::RoundRobin,
            SelectStrategy::Random => Strategy::Random,
            SelectStrategy::Sticky => Strategy::Sticky,
        }),
        out.sticky_header == args.sticky_header,
        out.max_sessions == 10_000,
        out.fail_timeout.nanos == args.fail_timeout * 1_000_000_000,
        out.prefer_connect == args.prefer_connect,
        args.http_allowed_codes@.len() == 0 ==> out.http_allowed_codes is None,
        args.http_allowed_codes@.len() > 0 ==> (out.http_allowed_codes matches Some(v) && v@
            == args.http_allowed_codes@),
        out.verify_on_lease is None,
        out.verify_target.0@ == "1.1.1.1"@,
        out.verify_target.1 == 443,
{
    let d = PoolConfig::default();
    PoolConfig {
        max_tries: args.max_tries,
        max_error_rate: args.max_error_rate,
        max_resp_time: args.max_resp_time,
        min_req: d.min_req,
        countries: pool_countries(&args.countries),
        strategy: args.strategy.to_server(),
        sticky_header: match &args.sticky_header {
            Some(h) => Some(h.clone()),
            None => None,
        },
        max_sessions: d.max_sessions,
        fail_timeout: Duration::from_secs(args.fail_timeout),
        prefer_connect: args.prefer_connect,
        http_allowed_codes: if args.http_allowed_codes.len() > 0 {
            Some(clone_codes(&args.http_allowed_codes))
        } else {
            None
        },
        verify_on_lease: d.verify_on_lease,
        verify_target: d.verify_target,
    }
}

/// The query by which a pool is filled for a dashboard or for tools: the protocols, the limit, the
/// countries and the timeout given, and the usual otherwise.
pub fn fill_query(protos: &Vec<Proto>, limit: usize, countries: &Vec<String>, timeout: u64) -> (out:
    FindQuery)
    ensures
        types::spec_views(out.types@) == specs_of(protos@, Seq::<AnonLevel>::empty()),
        out.limit == Some(at_least_one(limit)),
        broker::codes_in(out.countries) == some_countries(countries@),
        out.timeout.nanos == timeout * 1_000_000_000,
        out.judges@.len() == 0,
        out.dnsbl@.len() == 0,
        out.max_conn == 200,
        out.retry.max_tries == 3,
        out.retry.retry_on@ == seq![ProxyError::Timeout],
        out.retry.backoff.nanos == 0,
        !out.post,
        !out.strict,
        out.liveness_url is None,
        broker::no_extras(out),
{
    let none: Vec<AnonLevel> = Vec::new();
    assert(none@ =~= Seq::empty());
    let n: usize = if limit > 0 { limit } else { 1 };
    let b = FindQuery::builder().types(types_from(protos, &none)).limit(n).timeout(
        Duration::from_secs(timeout),
    );
    let b = if countries.len() > 0 {
        b.countries(broker::clone_texts(countries))
    } else {
        b
    };
    b.build()
}

/// What the arguments of `find` come to, as far as they decide the query.
#[derive(Debug, Default, PartialEq, Eq)]
pub struct FindArgs {
    pub types: Vec<Proto>,
    pub lvl: Vec<AnonLevel>,
    pub limit: usize,
    pub countries: Vec<String>,
    pub judges: Vec<String>,
    pub dnsbl: Vec<String>,
    /// In seconds.
    pub timeout: u64,
    pub max_conn: usize,
    pub max_tries: usize,
    pub post: bool,
    pub strict: bool,
    pub liveness_url: Option<String>,
    pub retry_on: RetryOn,
    pub backoff_ms: u64,
    pub relaxed_validity: bool,
    pub require_cookie: bool,
    pub require_referer: bool,
    pub require_connect25: bool,
    pub trust_check: bool,
    pub require_trusted: bool,
}

/// The query that the arguments of `find` ask for.
pub fn find_query(args: FindArgs) -> (out: FindQuery)
    ensures
        types::spec_views(out.types@) == specs_of(args.types@, args.lvl@),
        out.limit == some_limit(args.limit),
        broker::codes_in(out.countries) == some_countries(args.countries@),
        out.judges == args.judges,
        out.dnsbl == args.dnsbl,
        out.timeout.nanos == args.timeout * 1_000_000_000,
        out.max_conn == args.max_conn,
        out.retry.max_tries == args.max_tries,
        out.retry.retry_on@ == retried(args.retry_on),
        out.retry.backoff.nanos == args.backoff_ms * 1_000_000,
        out.post == args.post,
        out.strict == args.strict,
        out.liveness_url == args.liveness_url,
        out.relaxed_validity == args.relaxed_validity,
        out.require_cookie == args.require_cookie,
        out.require_referer == args.require_referer,
        out.require_connect25 == args.require_connect25,
        out.trust_check == args.trust_check,
        out.require_trusted == args.require_trusted,
{
    let b = FindQuery::builder().types(types_from(&args.types, &args.lvl)).limit(
        args.limit,
    ).judges(args.judges).dnsbl(args.dnsbl).timeout(Duration::from_secs(args.timeout)).max_conn(
        args.max_conn,
    ).retry(retry_policy(args.max_tries, args.retry_on, args.backoff_ms)).post(args.post).strict(
        args.strict,
    ).liveness_url(args.liveness_url);
    let b = if args.countries.len() > 0 {
        b.countries(args.countries)
    } else {
        b
    };
    let mut q = b.build();
    q.relaxed_validity = args.relaxed_validity;
    q.require_cookie = args.require_cookie;
    q.require_referer = args.require_referer;
    q.require_connect25 = args.require_connect25;
    q.trust_check = args.trust_check;
    q.require_trusted = args.require_trusted;
    q
}

/// What the arguments of `check` come to, as far as they decide the query.
#[derive(Debug, Default, PartialEq, Eq)]
pub struct CheckArgs {
    pub types: Vec<Proto>,
    pub lvl: Vec<AnonLevel>,
    pub limit: usize,
    pub countries: Vec<String>,
    pub judges: Vec<String>,
    pub dnsbl: Vec<String>,
    /// In seconds.
    pub timeout: u64,
    pub max_conn: usize,
    pub max_tries: usize,
    pub post: bool,
    pub strict: bool,
}

/// The query that the arguments of `check` ask for. The extra checks are for `find` alone.
pub fn check_args_query(args: CheckArgs) -> (out: FindQuery)
    ensures
        types::spec_views(out.types@) == specs_of(args.types@, args.lvl@),
        out.limit == some_limit(args.limit),
        broker::codes_in(out.countries) == some_countries(args.countries@),
        out.judges == args.judges,
        out.dnsbl == args.dnsbl,
        out.timeout.nanos == args.timeout * 1_000_000_000,
        out.max_conn == args.max_conn,
        out.retry.max_tries == args.max_tries,
        out.retry.retry_on@ == seq![ProxyError::Timeout],
        out.retry.backoff.nanos == 0,
        out.post == args.post,
        out.strict == args.strict,
        out.liveness_url is None,
        broker::no_extras(out),
{
    FindQuery {
        types: types_from(&args.types, &args.lvl),
        countries: optional_countries(&args.countries),
        limit: if args.limit > 0 { Some(args.limit) } else { None },
        judges: args.judges,
        dnsbl: args.dnsbl,
        timeout: Duration::from_secs(args.timeout),
        max_conn: args.max_conn,
        retry: RetryPolicy::tries(args.max_tries),
        post: args.post,
        strict: args.strict,
        liveness_url: None,
        relaxed_validity: false,
        require_cookie: false,
        require_referer: false,
        require_connect25: false,
        trust_check: false,
        require_trusted: false,
    }
}

/// Where proxies are remembered.
#[derive(Clone, Copy, Debug, PartialEq, Eq, Structural)]
pub enum StoreKind {
    /// A Redis database.
    Redis,
    /// An SQLite file.
    Sqlite,
    /// Nowhere but in this process.
    Memory,
}

/// The kind of store that an address or a path stands for.
pub open spec fn store_kind(spec: Seq<char>) -> StoreKind {
    if text::has_at(spec, "redis://"@, 0) || text::has_at(spec, "rediss://"@, 0) {
        StoreKind::Redis
    } else {
        StoreKind::Sqlite
    }
}

/// The kind of store that an address or a path stands for.
pub fn select_store(spec: &str) -> (out: StoreKind)
    ensures
        out == store_kind(spec@),
{
    if text::strip_prefix(spec, "redis://").is_some() || text::strip_prefix(
        spec,
        "rediss://",
    ).is_some() {
        StoreKind::Redis
    } else {
        StoreKind::Sqlite
    }
}

/// The store for checks that are repeated while serving: the one given, else one in memory.
pub fn recheck_store(state: Option<&str>) -> (out: StoreKind)
    ensures
        out == (match state {
            Some(s) => store_kind(s@),
            None => StoreKind::Memory,
        }),
{
    match state {
        Some(s) => select_store(s),
        None => StoreKind::Memory,
    }
}

/// Whether a proxy among some has this address.
pub open spec fn has_addr(s: Seq<Proxy>, host: IpAddr, port: u16) -> bool {
    exists|i: int| 0 <= i < s.len() && (#[trigger] s[i]).host == host && s[i].port == port
}

/// The proxies among the first `n` that are the first with their address, in order.
pub open spec fn firsts_upto(s: Seq<Proxy>, n: nat) -> Seq<Proxy>
    decreases n,
{
    if n == 0 {
        Seq::empty()
    } else {
        let before = firsts_upto(s, (n - 1) as nat);
        if has_addr(s.take(n - 1), s[n - 1].host, s[n - 1].port) {
            before
        } else {
            before.push(s[n - 1])
        }
    }
}

/// The proxies that are the first with their address, in order.
pub open spec fn firsts(s: Seq<Proxy>) -> Seq<Proxy> {
    firsts_upto(s, s.len())
}

/// Join two lists of proxies, each address once. Where an address occurs more than once, the first
/// proxy stands, so one of the first list goes before one of the second.
pub fn union_dedup(primary: Vec<Proxy>, secondary: Vec<Proxy>) -> (out: Vec<Proxy>)
    ensures
        out@ == firsts(primary@ + secondary@),
{
    let mut all = primary;
    let mut more = secondary;
    all.append(&mut more);
    let mut out: Vec<Proxy> = Vec::new();
    let mut seen = AddrSet::new();
    let mut i: usize = 0;
    while i < all.len()
        invariant
            i <= all@.len(),
            seen.wf(),
            forall|host: IpAddr, port: u16| #[trigger]
                seen@.contains((host, port)) == has_addr(all@.take(i as int), host, port),
            out@ == firsts_upto(all@, i as nat),
        decreases all@.len() - i,
    {
        let ghost before = seen@;
        let ghost p = all@[i as int];
        assert(before.contains((p.host, p.port)) == has_addr(all@.take(i as int), p.host, p.port));
        let added = seen.insert(all[i].host, all[i].port);
        if added {
            out.push(all[i].clone());
        }
        proof {
            let upto = all@.take(i + 1);
            let less = all@.take(i as int);
            assert forall|host: IpAddr, port: u16| #[trigger]
                seen@.contains((host, port)) == has_addr(upto, host, port) by {
                assert(before.contains((host, port)) == has_addr(less, host, port));
                if has_addr(less, host, port) {
                    let j = choose|j: int|
                        0 <= j < less.len() && (#[trigger] less[j]).host == host && less[j].port
                            == port;
                    assert(upto[j] == less[j]);
                }
                if has_addr(upto, host, port) {
                    let j = choose|j: int|
                        0 <= j < upto.len() && (#[trigger] upto[j]).host == host && upto[j].port
                            == port;
                    if j < i {
                        assert(less[j] == upto[j]);
                    }
                }
                assert(upto[i as int] == all@[i as int]);
            }
        }
        i += 1;
    }
    out
}

proof fn lemma_firsts_upto(s: Seq<Proxy>, n: nat)
    requires
        n <= s.len(),
    ensures
        forall|host: IpAddr, port: u16| #[trigger]
            has_addr(firsts_upto(s, n), host, port) == has_addr(s.take(n as int), host, port),
        forall|i: int, j: int|
            0 <= i < j < firsts_upto(s, n).len() ==> (
            (#[trigger] firsts_upto(s, n)[i]).host != (#[trigger] firsts_upto(s, n)[j]).host
                || firsts_upto(s, n)[i].port != firsts_upto(s, n)[j].port),
    decreases n,
{
    if n > 0 {
        lemma_firsts_upto(s, (n - 1) as nat);
        let less = s.take(n - 1);
        let upto = s.take(n as int);
        let before = firsts_upto(s, (n - 1) as nat);
        let all = firsts_upto(s, n);
        let p = s[n - 1];
        assert(upto =~= less.push(p));
        assert forall|host: IpAddr, port: u16| #[trigger]
            has_addr(all, host, port) == has_addr(upto, host, port) by {
            assert(has_addr(before, host, port) == has_addr(less, host, port));
            lemma_has_addr_push(less, p, host, port);
            lemma_has_addr_push(before, p, host, port);
        }
        assert forall|i: int, j: int| 0 <= i < j < all.len() implies (
        (#[trigger] all[i]).host != (#[trigger] all[j]).host || all[i].port != all[j].port) by {
            if j == before.len() {
                assert(has_addr(before, p.host, p.port) == has_addr(less, p.host, p.port));
                assert(before[i] == all[i]);
            } else {
                assert(before[i] == all[i] && before[j] == all[j]);
            }
        }
    }
}

proof fn lemma_has_addr_push(s: Seq<Proxy>, p: Proxy, host: IpAddr, port: u16)
    ensures
        has_addr(s.push(p), host, port) == (has_addr(s, host, port) || (p.host == host && p.port
            == port)),
{
    let t = s.push(p);
    assert(t[s.len() as int] == p);
    if has_addr(s, host, port) {
        let j = choose|j: int| 0 <= j < s.len() && (#[trigger] s[j]).host == host && s[j].port == port;
        assert(t[j] == s[j]);
    }
    if has_addr(t, host, port) {
        let j = choose|j: int| 0 <= j < t.len() && (#[trigger] t[j]).host == host && t[j].port == port;
        if j < s.len() {
            assert(s[j] == t[j]);
        }
    }
}

/// No two proxies of a union share an address.
pub proof fn law_union_holds_each_address_once(
    primary: Seq<Proxy>,
    secondary: Seq<Proxy>,
    i: int,
    j: int,
)
    requires
        0 <= i < j < firsts(primary + secondary).len(),
    ensures
        firsts(primary + secondary)[i].host != firsts(primary + secondary)[j].host || firsts(
            primary + secondary,
        )[i].port != firsts(primary + secondary)[j].port,
{
    lemma_firsts_upto(primary + secondary, (primary + secondary).len());
}

/// The addresses of a union are exactly those of the two lists together.
pub proof fn law_union_covers_both(
    primary: Seq<Proxy>,
    secondary: Seq<Proxy>,
    host: IpAddr,
    port: u16,
)
    ensures
        has_addr(firsts(primary + secondary), host, port) == (has_addr(primary, host, port)
            || has_addr(secondary, host, port)),
{
    let all = primary + secondary;
    lemma_firsts_upto(all, all.len());
    assert(all.take(all.len() as int) =~= all);
    assert(has_addr(firsts(all), host, port) == has_addr(all, host, port));
    if has_addr(primary, host, port) {
        let j = choose|j: int|
            0 <= j < primary.len() && (#[trigger] primary[j]).host == host && primary[j].port
                == port;
        assert(all[j] == primary[j]);
    }
    if has_addr(secondary, host, port) {
        let j = choose|j: int|
            0 <= j < secondary.len() && (#[trigger] secondary[j]).host == host && secondary[j].port
                == port;
        assert(all[primary.len() + j] == secondary[j]);
    }
    if has_addr(all, host, port) {
        let j = choose|j: int|
            0 <= j < all.len() && (#[trigger] all[j]).host == host && all[j].port == port;
        if j < primary.len() {
            assert(primary[j] == all[j]);
        } else {
            assert(secondary[j - primary.len()] == all[j]);
        }
    }
}

proof fn lemma_firsts_of_prefix(a: Seq<Proxy>, b: Seq<Proxy>, n: nat)
    requires
        n <= a.len(),
    ensures
        firsts_upto(a + b, n) == firsts_upto(a, n),
    decreases n,
{
    if n > 0 {
        lemma_firsts_of_prefix(a, b, (n - 1) as nat);
        assert((a + b).take(n - 1) =~= a.take(n - 1));
        assert((a + b)[n - 1] == a[n - 1]);
    }
}

proof fn lemma_firsts_behind(a: Seq<Proxy>, b: Seq<Proxy>, n: nat, j: int)
    requires
        n <= b.len(),
        firsts(a).len() <= j < firsts_upto(a + b, a.len() + n).len(),
    ensures
        !has_addr(a, firsts_upto(a + b, a.len() + n)[j].host, firsts_upto(a + b, a.len() + n)[j].port),
    decreases n,
{
    if n == 0 {
        lemma_firsts_of_prefix(a, b, a.len());
    } else {
        let all = a + b;
        let before = firsts_upto(all, (a.len() + n - 1) as nat);
        let p = all[a.len() + n - 1];
        if j < before.len() {
            lemma_firsts_behind(a, b, (n - 1) as nat, j);
        } else if has_addr(a, p.host, p.port) {
            let k = choose|k: int|
                0 <= k < a.len() && (#[trigger] a[k]).host == p.host && a[k].port == p.port;
            assert(all.take(a.len() + n - 1)[k] == a[k]);
            assert(has_addr(all.take(a.len() + n - 1), p.host, p.port));
        }
    }
}

proof fn lemma_firsts_grow(s: Seq<Proxy>, n: nat, m: nat)
    requires
        n <= m,
    ensures
        firsts_upto(s, n).is_prefix_of(firsts_upto(s, m)),
    decreases m - n,
{
    if n < m {
        lemma_firsts_grow(s, n, (m - 1) as nat);
    }
}

/// A union starts with the first list's proxies; what comes behind them has addresses that the
/// first list has not.
pub proof fn law_union_prefers_the_first(primary: Seq<Proxy>, secondary: Seq<Proxy>)
    ensures
        firsts(primary).is_prefix_of(firsts(primary + secondary)),
        forall|j: int|
            firsts(primary).len() <= j < firsts(primary + secondary).len() ==> !has_addr(
                primary,
                (#[trigger] firsts(primary + secondary)[j]).host,
                firsts(primary + secondary)[j].port,
            ),
{
    let all = primary + secondary;
    lemma_firsts_of_prefix(primary, secondary, primary.len());
    lemma_firsts_grow(all, primary.len(), all.len());
    assert forall|j: int| firsts(primary).len() <= j < firsts(all).len() implies !has_addr(
        primary,
        (#[trigger] firsts(all)[j]).host,
        firsts(all)[j].port,
    ) by {
        lemma_firsts_behind(primary, secondary, secondary.len(), j);
    }
}

/// The providers to use: those at hand, unless only the given ones are wanted, and the given ones
/// behind them. It is an error to be left with none.
pub fn assemble_providers<T>(only_given: bool, at_hand: Vec<T>, given: Vec<T>) -> (out: Result<
    Vec<T>,
    String,
>)
    ensures
        ({
            let all = if only_given {
                given@
            } else {
                at_hand@ + given@
            };
            if all.len() == 0 {
                out matches Err(m) && m@
                    == "no providers: --providers-only with no valid --provider-dir configs"@
            } else {
                out matches Ok(v) && v@ == all
            }
        }),
{
    let mut rest = given;
    let mut all: Vec<T> = if only_given { Vec::new() } else { at_hand };
    let ghost start = all@;
    let ghost tail = rest@;
    all.append(&mut rest);
    assert(all@ =~= start + tail);
    assert(only_given ==> start + tail =~= tail);
    if all.len() == 0 {
        Err("no providers: --providers-only with no valid --provider-dir configs".to_owned())
    } else {
        Ok(all)
    }
}

// ----- what `check` and `serve` set out to do

/// Where `check` has its proxies from.
#[derive(Clone, Copy, Debug, PartialEq, Eq, Structural)]
pub enum CheckInput {
    /// A file of proxies that were checked before; they are written as they are.
    Load,
    /// A file of addresses.
    File,
    /// Addresses from the standard input.
    Stdin,
}

/// Where `check` has its proxies from: a file of checked ones goes before one of addresses.
pub fn check_input(load: bool, infile: bool) -> (out: CheckInput)
    ensures
        out == (if load {
            CheckInput::Load
        } else if infile {
            CheckInput::File
        } else {
            CheckInput::Stdin
        }),
{
    if load {
        CheckInput::Load
    } else if infile {
        CheckInput::File
    } else {
        CheckInput::Stdin
    }
}

/// The proxies that a text of addresses asks to check, and a warning where there are none.
pub fn check_candidates(s: &str) -> (out: (Vec<Proxy>, Option<&'static str>))
    ensures
        parse::fresh_at(out.0@, parse::proxy_addrs(s@)),
        out.1 is Some == (parse::proxy_addrs(s@).len() == 0),
        out.1 matches Some(m) ==> m@ == "no proxy addresses parsed from input"@,
{
    let proxies = parse::parse_proxy_lines(s);
    let warning = if proxies.len() == 0 {
        Some("no proxy addresses parsed from input")
    } else {
        None
    };
    (proxies, warning)
}

/// Where `serve` has its proxies from.
#[derive(Clone, Copy, Debug, PartialEq, Eq, Structural)]
pub enum PoolSource {
    /// A file of proxies that were checked before. No more come.
    File,
    /// A search that goes on while the pool is served.
    Search,
}

/// What becomes of the wish to follow the file of proxies.
#[derive(Clone, Copy, Debug, PartialEq, Eq, Structural)]
pub enum WatchPlan {
    Off,
    On,
    /// There is no file to follow; a warning is due.
    NeedsFile,
}

/// What `serve` sets out to do.
#[derive(Clone, Copy, Debug, PartialEq, Eq, Structural)]
pub struct ServePlan {
    pub source: PoolSource,
    /// Where repeated checks are remembered, where checks are repeated.
    pub recheck: Option<StoreKind>,
    pub watch: WatchPlan,
}

/// What `serve` sets out to do, by whether there is a file of proxies, where proxies are remembered,
/// and whether to repeat checks and to follow the file.
pub fn serve_plan(load: bool, state: Option<&str>, recheck: bool, watch: bool) -> (out: ServePlan)
    ensures
        out.source == (if load {
            PoolSource::File
        } else {
            PoolSource::Search
        }),
        out.recheck == (if !recheck {
            None
        } else {
            match state {
                Some(s) => Some(store_kind(s@)),
                None => Some(StoreKind::Memory),
            }
        }),
        out.watch == (if !watch {
            WatchPlan::Off
        } else if load {
            WatchPlan::On
        } else {
            WatchPlan::NeedsFile
        }),
{
    ServePlan {
        source: if load { PoolSource::File } else { PoolSource::Search },
        recheck: if recheck { Some(recheck_store(state)) } else { None },
        watch: if !watch {
            WatchPlan::Off
        } else if load {
            WatchPlan::On
        } else {
            WatchPlan::NeedsFile
        },
    }
}

/// The pool of a file of proxies, with those remembered before them, each address once: where both
/// have an address, what is remembered stands. No more will come.
pub fn loaded_pool(history: Vec<Proxy>, loaded: Vec<Proxy>, config: PoolConfig) -> (out: Pool)
    ensures
        out.entries@ == pool::admitted(
            firsts(history@ + loaded@),
            broker::codes_in(config.countries),
        ),
        out.config == config,
        out.exhausted,
        out.sessions@ == Seq::<pool::Pin>::empty(),
        out.round_robin == 0,
        out.random.state == crate::server::select::RANDOM_SEED,
        out.evictions == 0,
        out.rotations == 0,
{
    Pool::from_proxies(union_dedup(history, loaded), config)
}

/// The pool of the proxies remembered, to be filled up by a search.
pub fn warm_pool(history: Vec<Proxy>, config: PoolConfig) -> (out: Pool)
    ensures
        out.entries@ == pool::admitted(history@, broker::codes_in(config.countries)),
        out.config == config,
        !out.exhausted,
        out.sessions@ == Seq::<pool::Pin>::empty(),
        out.round_robin == 0,
        out.random.state == crate::server::select::RANDOM_SEED,
        out.evictions == 0,
        out.rotations == 0,
{
    let mut pool = Pool::from_proxies(history, config);
    pool.exhausted = false;
    pool
}

/// Each protocol that is asked for is asked for once, in order, at the levels given; no levels means
/// any.
pub proof fn law_each_protocol_is_asked_for_at_the_levels(
    protos: Seq<Proto>,
    lvl: Seq<AnonLevel>,
    k: int,
)
    requires
        0 <= k < protos.len(),
    ensures
        specs_of(protos, lvl).len() == protos.len(),
        specs_of(protos, lvl)[k].0 == protos[k],
        lvl.len() > 0 ==> specs_of(protos, lvl)[k].1 == Some(lvl),
        lvl.len() == 0 ==> specs_of(protos, lvl)[k].1 is None,
{
}

/// A limit of nought is none, an empty list of countries is all of them, and a pool is filled with
/// one proxy at least.
pub proof fn law_nought_means_no_limit(n: usize, list: Seq<String>)
    ensures
        some_limit(0) is None,
        n > 0 ==> some_limit(n) == Some(n),
        at_least_one(0) == 1,
        n > 0 ==> at_least_one(n) == n,
        list.len() == 0 ==> some_countries(list) is None,
        list.len() > 0 ==> some_countries(list) == Some(text::texts(list)),
{
}

/// A check is tried again after a timeout alone, after every error that is likely to pass, or also
/// after a refusal, as it is asked for.
pub proof fn law_retries_are_as_asked_for(e: ProxyError)
    ensures
        retried(RetryOn::Timeout).contains(e) <==> e == ProxyError::Timeout,
        retried(RetryOn::Transient).contains(e) <==> e == ProxyError::Timeout || e
            == ProxyError::Reset || e == ProxyError::ConnFailed || e == ProxyError::EmptyRecv,
        retried(RetryOn::All).contains(e) <==> e == ProxyError::Timeout || e == ProxyError::Reset
            || e == ProxyError::ConnFailed || e == ProxyError::EmptyRecv || e
            == ProxyError::BadStatus,
{
    types::law_transient_errors_are_of_the_connection(e);
    let (a, t, all) = (
        retried(RetryOn::Timeout),
        RetryPolicy::transient_errors(),
        retried(RetryOn::All),
    );
    assert(a[0] == ProxyError::Timeout);
    assert(all[4] == ProxyError::BadStatus);
    if t.contains(e) {
        let k = choose|k: int| 0 <= k < t.len() && t[k] == e;
        assert(all[k] == e);
    }
    if all.contains(e) {
        let k = choose|k: int| 0 <= k < all.len() && all[k] == e;
        if k < 4 {
            assert(t[k] == e);
        }
    }
}

/// What starts as an address of Redis, encrypted or not, is one; anything else is the path of an
/// SQLite file.
pub proof fn law_store_is_told_by_its_address(rest: Seq<char>, path: Seq<char>)
    ensures
        store_kind("redis://"@ + rest) == StoreKind::Redis,
        store_kind("rediss://"@ + rest) == StoreKind::Redis,
        !path.is_prefix_of("redis"@) && !"redis"@.is_prefix_of(path) ==> store_kind(path)
            == StoreKind::Sqlite,
        store_kind(path) == StoreKind::Redis ==> "redis://"@.is_prefix_of(path)
            || "rediss://"@.is_prefix_of(path),
        "redis://"@.is_prefix_of(path) || "rediss://"@.is_prefix_of(path) ==> store_kind(path)
            == StoreKind::Redis,
{
    reveal_strlit("redis://");
    reveal_strlit("rediss://");
    reveal_strlit("redis");
    let (a, b) = ("redis://"@, "rediss://"@);
    assert((a + rest).subrange(0, 8) =~= a);
    assert((b + rest).subrange(0, 9) =~= b);
    if text::has_at(path, a, 0) {
        assert(path.subrange(0, 8) =~= a);
        assert("redis"@.is_prefix_of(path)) by {
            assert forall|k: int| 0 <= k < 5 implies path[k] == "redis"@[k] by {
                assert(path.subrange(0, 8)[k] == a[k]);
            }
        }
    }
    if text::has_at(path, b, 0) {
        assert(path.subrange(0, 9) =~= b);
        assert("redis"@.is_prefix_of(path)) by {
            assert forall|k: int| 0 <= k < 5 implies path[k] == "redis"@[k] by {
                assert(path.subrange(0, 9)[k] == b[k]);
            }
        }
    }
}

/// A proxy whose address did not occur joins the end of a union; one whose address did changes
/// nothing.
pub proof fn law_union_takes_each_new_address(s: Seq<Proxy>, p: Proxy)
    ensures
        has_addr(s, p.host, p.port) ==> firsts(s.push(p)) == firsts(s),
        !has_addr(s, p.host, p.port) ==> firsts(s.push(p)) == firsts(s).push(p),
        firsts(Seq::<Proxy>::empty()) == Seq::<Proxy>::empty(),
{
    let more = seq![p];
    assert(s.push(p) =~= s + more);
    lemma_firsts_of_prefix(s, more, s.len());
    assert(s.push(p).take(s.len() as int) =~= s);
    assert(s.push(p)[s.len() as int] == p);
}

/// Why a text is no number is said in the words of the standard library.
pub proof fn law_faults_are_told_apart()
    ensures
        fault_text(NumberFault::Empty) == "cannot parse integer from empty string"@,
        fault_text(NumberFault::InvalidDigit) == "invalid digit found in string"@,
        fault_text(NumberFault::TooLarge) == "number too large to fit in target type"@,
{
}

/// What `serve` asks of a search is what it was told, and the usual otherwise.
pub proof fn law_serving_asks_for_what_it_was_told(q: FindQuery, args: ServeArgs)
    requires
        is_serve_query(q, args),
    ensures
        types::spec_views(q.types@).len() == args.types@.len(),
        args.limit > 0 ==> q.limit == Some(args.limit),
        args.limit == 0 ==> q.limit == Some(1usize),
        q.dnsbl@ == args.dnsbl@,
        q.timeout.nanos == args.timeout * 1_000_000_000,
        q.post == args.post,
        q.strict == args.strict,
        args.countries@.len() == 0 ==> q.countries is None,
        args.countries@.len() > 0 ==> (q.countries matches Some(v) && text::texts(v@) == text::texts(
            args.countries@,
        )),
        q.judges@.len() == 0,
        q.retry.retry_on@ == seq![ProxyError::Timeout],
        q.retry.backoff.nanos == 0,
        q.liveness_url is None,
        !q.relaxed_validity && !q.trust_check && !q.require_cookie && !q.require_referer
            && !q.require_connect25 && !q.require_trusted,
{
}

} // verus!

//! The pool of checked proxies that the server hands out.
use crate::addr::{AddrSet, IpAddr};
use crate::broker;
use crate::measure::Measure;
use crate::proxy;
use crate::proxy::Proxy;
use crate::server::select;
use crate::server::select::{Pooled, SelectCtx, Strategy, XorShift};
use crate::text;
use crate::types::{Duration, Scheme};
use vstd::prelude::*;

verus! {

/// What a client is known by.
#[derive(Debug, PartialEq, Eq)]
pub enum ClientKey {
    /// The address it connects from.
    Ip(IpAddr),
    /// The value of a header that it sends.
    Header(String),
}

/// The contents of a [`ClientKey`].
pub enum KeyView {
    Ip(IpAddr),
    Header(Seq<char>),
}

impl View for ClientKey {
    type V = KeyView;

    open spec fn view(&self) -> KeyView {
        match self {
            ClientKey::Ip(a) => KeyView::Ip(*a),
            ClientKey::Header(h) => KeyView::Header(h@),
        }
    }
}

impl Clone for ClientKey {
    fn clone(&self) -> (out: ClientKey)
        ensures
            out == *self,
    {
        match self {
            ClientKey::Ip(a) => ClientKey::Ip(*a),
            ClientKey::Header(h) => ClientKey::Header(h.clone()),
        }
    }
}

impl ClientKey {
    /// Whether two clients are the same.
    pub fn same(&self, other: &ClientKey) -> (out: bool)
        ensures
            out == (self@ == other@),
    {
        match (self, other) {
            (ClientKey::Ip(a), ClientKey::Ip(b)) => *a == *b,
            (ClientKey::Header(a), ClientKey::Header(b)) => *a == *b,
            _ => false,
        }
    }
}

/// How a pool selects and evicts.
#[derive(Debug, PartialEq, Eq)]
pub struct PoolConfig {
    /// How many proxies may be tried for one request.
    pub max_tries: usize,
    /// A proxy with a higher error rate is dropped.
    pub max_error_rate: Measure,
    /// A proxy with a longer mean response time, in seconds, is dropped.
    pub max_resp_time: Measure,
    /// A proxy is not dropped before it has handled this many requests.
    pub min_req: u32,
    /// The country codes, in upper case, from which proxies are admitted; `None` admits all.
    pub countries: Option<Vec<String>>,
    pub strategy: Strategy,
    /// The header by which clients are told apart under [`Strategy::Sticky`]; `None` goes by their
    /// addresses.
    pub sticky_header: Option<String>,
    /// How many clients are remembered under [`Strategy::Sticky`].
    pub max_sessions: usize,
    /// How long a proxy is benched after a failure.
    pub fail_timeout: Duration,
    /// Prefer proxies that speak `CONNECT:80`.
    pub prefer_connect: bool,
    /// Try another proxy where the status of a response is not among these; `None` takes any.
    pub http_allowed_codes: Option<Vec<u16>>,
    /// Probe a proxy, for at most this long, before it is handed out; `None` does not.
    pub verify_on_lease: Option<Duration>,
    /// The host and port to which the probe tunnels.
    pub verify_target: (String, u16),
}

impl Default for PoolConfig {
    fn default() -> (out: PoolConfig)
        ensures
            out.max_tries == 3,
            out.max_error_rate.bits == 0x3FE0_0000_0000_0000u64,
            out.max_resp_time.bits == 0x4020_0000_0000_0000u64,
            out.min_req == 5,
            out.countries is None,
            out.strategy == Strategy::Best,
            out.sticky_header is None,
            out.max_sessions == 10_000,
            out.fail_timeout.nanos == 30_000_000_000,
            !out.prefer_connect,
            out.http_allowed_codes is None,
            out.verify_on_lease is None,
            out.verify_target.0@ == "1.1.1.1"@,
            out.verify_target.1 == 443,
    {
        PoolConfig {
            max_tries: 3,
            max_error_rate: Measure { bits: 0x3FE0_0000_0000_0000 },
            max_resp_time: Measure { bits: 0x4020_0000_0000_0000 },
            min_req: 5,
            countries: None,
            strategy: Strategy::Best,
            sticky_header: None,
            max_sessions: 10_000,
            fail_timeout: Duration::from_secs(30),
            prefer_connect: false,
            http_allowed_codes: None,
            verify_on_lease: None,
            verify_target: ("1.1.1.1".to_owned(), 443),
        }
    }
}

/// The clients that are pinned to a proxy, each with the proxy's address, oldest first.
#[derive(Debug, PartialEq, Eq)]
pub struct Sessions {
    pub pins: Vec<(ClientKey, (IpAddr, u16))>,
}

/// A client that is pinned, and the address it is pinned to.
pub type Pin = (KeyView, (IpAddr, u16));

impl View for Sessions {
    type V = Seq<Pin>;

    open spec fn view(&self) -> Seq<Pin> {
        self.pins@.map_values(|p: (ClientKey, (IpAddr, u16))| (p.0@, p.1))
    }
}

/// The address that a client is pinned to, from the `i`th pin on.
pub open spec fn pin_from(pins: Seq<Pin>, key: KeyView, i: int) -> Option<(IpAddr, u16)>
    decreases pins.len() - i,
{
    if i < 0 || i >= pins.len() {
        None
    } else if pins[i].0 == key {
        Some(pins[i].1)
    } else {
        pin_from(pins, key, i + 1)
    }
}

/// Where a client's pin stands, from the `i`th on; the length where it has none.
pub open spec fn pin_at(pins: Seq<Pin>, key: KeyView, i: int) -> int
    decreases pins.len() - i,
{
    if i < 0 || i >= pins.len() {
        pins.len() as int
    } else if pins[i].0 == key {
        i
    } else {
        pin_at(pins, key, i + 1)
    }
}

/// The pins after a client was pinned. A client that had a pin keeps its place with the new
/// address; a new one goes to the end, and the oldest pin makes room where there are `cap`.
pub open spec fn pinned_anew(pins: Seq<Pin>, cap: usize, key: KeyView, to: (IpAddr, u16)) -> Seq<Pin> {
    let i = pin_at(pins, key, 0);
    if i < pins.len() {
        pins.update(i, (key, to))
    } else if pins.len() >= cap && pins.len() > 0 {
        pins.skip(1).push((key, to))
    } else {
        pins.push((key, to))
    }
}

impl Sessions {
    /// No pins.
    pub fn new() -> (out: Sessions)
        ensures
            out@ == Seq::<Pin>::empty(),
    {
        let out = Sessions { pins: Vec::new() };
        assert(out@ =~= Seq::<Pin>::empty());
        out
    }

    fn find(&self, key: &ClientKey) -> (at: usize)
        ensures
            at == pin_at(self@, key@, 0),
            at <= self.pins@.len(),
            pin_from(self@, key@, 0) == (if at < self.pins@.len() {
                Some(self.pins@[at as int].1)
            } else {
                None
            }),
    {
        let mut i: usize = 0;
        while i < self.pins.len()
            invariant
                i <= self.pins@.len(),
                pin_at(self@, key@, 0) == pin_at(self@, key@, i as int),
                pin_from(self@, key@, 0) == pin_from(self@, key@, i as int),
            decreases self.pins@.len() - i,
        {
            assert(self@[i as int] == (self.pins@[i as int].0@, self.pins@[i as int].1));
            if self.pins[i].0.same(key) {
                return i;
            }
            i += 1;
        }
        i
    }

    /// The address that a client is pinned to.
    pub fn get(&self, key: &ClientKey) -> (out: Option<(IpAddr, u16)>)
        ensures
            out == pin_from(self@, key@, 0),
    {
        let i: usize = self.find(key);
        if i < self.pins.len() {
            Some(self.pins[i].1)
        } else {
            None
        }
    }

    /// Pin a client to an address, keeping no more than `cap` pins.
    pub fn record(&mut self, cap: usize, key: ClientKey, to: (IpAddr, u16))
        ensures
            final(self)@ == pinned_anew(old(self)@, cap, key@, to),
    {
        let ghost before = self@;
        let ghost k = key@;
        let i: usize = self.find(&key);
        if i < self.pins.len() {
            self.pins.set(i, (key, to));
            assert(self@ =~= before.update(i as int, (k, to)));
            return;
        }
        if self.pins.len() >= cap && self.pins.len() > 0 {
            let gone = self.pins.remove(0);
            assert(self@ =~= before.skip(1));
        }
        let ghost rest = self@;
        self.pins.push((key, to));
        assert(self@ =~= rest.push((k, to)));
    }
}

proof fn lemma_pin_at(pins: Seq<Pin>, key: KeyView, i: int)
    requires
        0 <= i <= pins.len(),
    ensures
        i <= pin_at(pins, key, i) <= pins.len(),
        pin_at(pins, key, i) < pins.len() ==> pins[pin_at(pins, key, i)].0 == key,
        forall|j: int| i <= j < pin_at(pins, key, i) ==> (#[trigger] pins[j]).0 != key,
    decreases pins.len() - i,
{
    if i < pins.len() && pins[i].0 != key {
        lemma_pin_at(pins, key, i + 1);
    }
}

proof fn lemma_pin_from_at(pins: Seq<Pin>, key: KeyView, i: int, at: int)
    requires
        0 <= i <= at < pins.len(),
        pins[at].0 == key,
        forall|j: int| i <= j < at ==> (#[trigger] pins[j]).0 != key,
    ensures
        pin_from(pins, key, i) == Some(pins[at].1),
    decreases at - i,
{
    if i < at {
        lemma_pin_from_at(pins, key, i + 1, at);
    }
}

/// A client that was just pinned is found at the address it was pinned to.
pub proof fn law_recorded_pin_is_found(pins: Seq<Pin>, cap: usize, key: KeyView, to: (IpAddr, u16))
    ensures
        pin_from(pinned_anew(pins, cap, key, to), key, 0) == Some(to),
{
    lemma_pin_at(pins, key, 0);
    let i = pin_at(pins, key, 0);
    let now = pinned_anew(pins, cap, key, to);
    if i < pins.len() {
        lemma_pin_from_at(now, key, 0, i);
    } else {
        let last = now.len() - 1;
        assert forall|j: int| 0 <= j < last implies (#[trigger] now[j]).0 != key by {
            if pins.len() >= cap && pins.len() > 0 {
                assert(now[j] == pins[j + 1]);
            } else {
                assert(now[j] == pins[j]);
            }
        }
        lemma_pin_from_at(now, key, 0, last);
    }
}

/// The pins never grow past their bound, which is at least one.
pub proof fn law_pins_stay_bounded(pins: Seq<Pin>, cap: usize, key: KeyView, to: (IpAddr, u16))
    requires
        pins.len() <= (if cap > 0 { cap as int } else { 1 }),
    ensures
        pinned_anew(pins, cap, key, to).len() <= (if cap > 0 { cap as int } else { 1 }),
{
    lemma_pin_at(pins, key, 0);
}

/// A pool of checked proxies.
#[derive(Debug, PartialEq, Eq)]
pub struct Pool {
    pub entries: Vec<Pooled>,
    pub sessions: Sessions,
    /// Counts the selections under [`Strategy::RoundRobin`].
    pub round_robin: usize,
    pub random: XorShift,
    pub config: PoolConfig,
    /// No further proxies will come.
    pub exhausted: bool,
    /// How many proxies were dropped for being unhealthy.
    pub evictions: u64,
    /// How many times a request went on to a different proxy.
    pub rotations: u64,
}

/// The proxies from the given countries, none of them benched.
pub open spec fn admitted(proxies: Seq<Proxy>, countries: Option<Seq<Seq<char>>>) -> Seq<Pooled>
    decreases proxies.len(),
{
    if proxies.len() == 0 {
        Seq::empty()
    } else {
        let before = admitted(proxies.drop_last(), countries);
        if broker::in_countries(proxies.last(), countries) {
            before.push(Pooled { proxy: proxies.last(), blocked_until: None })
        } else {
            before
        }
    }
}

/// A sequence from which the `i`th item was taken, the last item filling its place.
pub open spec fn swap_removed(s: Seq<Pooled>, i: int) -> Seq<Pooled> {
    s.update(i, s.last()).drop_last()
}

/// Whether a proxy has become too slow or fails too often to be kept.
pub open spec fn unhealthy(c: PoolConfig, p: Proxy) -> bool {
    p.requests >= c.min_req && (p.error_rate.above(c.max_error_rate) || p.avg_resp_time.above(
        c.max_resp_time,
    ))
}

/// Whether a proxy has the given address.
pub open spec fn is_at(p: Pooled, host: IpAddr, port: u16) -> bool {
    p.proxy.host == host && p.proxy.port == port
}

/// The entries that do not have the given address.
pub open spec fn without_addr(s: Seq<Pooled>, host: IpAddr, port: u16) -> Seq<Pooled>
    decreases s.len(),
{
    if s.len() == 0 {
        Seq::empty()
    } else if is_at(s[0], host, port) {
        without_addr(s.skip(1), host, port)
    } else {
        seq![s[0]] + without_addr(s.skip(1), host, port)
    }
}

/// Whether any entry has the given address.
pub open spec fn holds_addr(s: Seq<Pooled>, host: IpAddr, port: u16) -> bool {
    exists|i: int| 0 <= i < s.len() && is_at(#[trigger] s[i], host, port)
}

/// The contents of an optional text.
pub open spec fn text_of(s: Option<&str>) -> Option<Seq<char>> {
    match s {
        Some(t) => Some(t@),
        None => None,
    }
}

/// Whether a proxy can carry the scheme and is in the given country, whatever the case of the code.
pub open spec fn suits(p: Pooled, scheme: Scheme, country: Option<Seq<char>>) -> bool {
    proxy::carries(p.proxy.types, scheme) && match country {
        None => true,
        Some(cc) => match p.proxy.geo {
            None => false,
            Some(g) => text::lowered(g.code@) == text::lowered(cc),
        },
    }
}

/// The positions, among the first `n`, of the proxies that suit and are ready, or of those that suit
/// and are benched.
pub open spec fn suiting_upto(
    s: Seq<Pooled>,
    scheme: Scheme,
    country: Option<Seq<char>>,
    now: u128,
    ready: bool,
    n: nat,
) -> Seq<int>
    decreases n,
{
    if n == 0 {
        Seq::empty()
    } else {
        let before = suiting_upto(s, scheme, country, now, ready, (n - 1) as nat);
        if suits(s[n - 1], scheme, country) && select::is_ready(s[n - 1], now) == ready {
            before.push(n - 1)
        } else {
            before
        }
    }
}

/// The positions of the proxies to choose from: those that suit and are ready, or the benched ones
/// that suit where none is ready.
pub open spec fn suiting(
    s: Seq<Pooled>,
    scheme: Scheme,
    country: Option<Seq<char>>,
    now: u128,
) -> Seq<int> {
    let ready = suiting_upto(s, scheme, country, now, true, s.len());
    if ready.len() > 0 {
        ready
    } else {
        suiting_upto(s, scheme, country, now, false, s.len())
    }
}

/// How many of the first `n` entries can carry the scheme.
pub open spec fn count_carrying(s: Seq<Pooled>, scheme: Scheme, n: nat) -> nat
    decreases n,
{
    if n == 0 {
        0
    } else {
        count_carrying(s, scheme, (n - 1) as nat) + (if proxy::carries(
            s[n - 1].proxy.types,
            scheme,
        ) {
            1nat
        } else {
            0nat
        })
    }
}

/// The means over a pool, as worked out by whoever does the arithmetic.
#[derive(Clone, Copy, Debug, PartialEq, Eq, Structural)]
pub struct Averages {
    pub error_rate: Measure,
    pub resp_time: Measure,
    pub probe_latency: Measure,
}

/// A view of the pool at one moment.
#[derive(Clone, Copy, Debug, PartialEq, Eq, Structural)]
pub struct PoolSnapshot {
    /// How many proxies can carry HTTP.
    pub http: usize,
    /// How many proxies can carry HTTPS.
    pub https: usize,
    pub total: usize,
    pub avg_error_rate: Measure,
    pub avg_resp_time: Measure,
    pub probe_latency_avg: Measure,
}

/// What a draw from the pool gives.
#[derive(Debug, PartialEq, Eq)]
pub enum Draw {
    /// Hand this proxy out.
    Give(Proxy),
    /// Probe this proxy first.
    Probe(Proxy),
    /// Wait for more proxies to come.
    Wait,
    /// There is none and none will come.
    Nothing,
}

impl Pool {
    /// What a selection goes by.
    pub open spec fn ctx(self, scheme: Scheme, key: KeyView, now: u128) -> SelectCtx {
        SelectCtx {
            scheme,
            strategy: self.config.strategy,
            sticky: if self.config.strategy == Strategy::Sticky {
                pin_from(self.sessions@, key, 0)
            } else {
                None
            },
            round_robin_cursor: self.round_robin,
            draw: select::xorshift(self.random.state),
            now,
            prefer_connect: self.config.prefer_connect,
        }
    }

    /// The pool after the proxy at position `i` was checked out for a client: the entry is gone,
    /// and the strategy has kept what it needs for the next time.
    pub open spec fn checked_out(self, after: Pool, key: KeyView, i: int) -> bool {
        let p = self.entries@[i].proxy;
        &&& after.entries@ == swap_removed(self.entries@, i)
        &&& after.round_robin == (if self.config.strategy == Strategy::RoundRobin {
            (if self.round_robin < usize::MAX {
                (self.round_robin + 1) as usize
            } else {
                0
            })
        } else {
            self.round_robin
        })
        &&& after.random.state == (if self.config.strategy == Strategy::Random {
            select::xorshift(self.random.state)
        } else {
            self.random.state
        })
        &&& after.sessions@ == (if self.config.strategy == Strategy::Sticky {
            pinned_anew(self.sessions@, self.config.max_sessions, key, (p.host, p.port))
        } else {
            self.sessions@
        })
        &&& after.same_but_contents(self)
    }

    /// The parts of a pool that selecting does not touch.
    pub open spec fn same_but_contents(self, other: Pool) -> bool {
        &&& self.config == other.config
        &&& self.exhausted == other.exhausted
        &&& self.evictions == other.evictions
        &&& self.rotations == other.rotations
    }

    /// All parts of a pool but its entries.
    pub open spec fn same_but_entries(self, other: Pool) -> bool {
        &&& self.sessions == other.sessions
        &&& self.round_robin == other.round_robin
        &&& self.random == other.random
        &&& self.same_but_contents(other)
    }

    /// An empty pool that is to be filled.
    pub fn filling(config: PoolConfig) -> (out: Pool)
        ensures
            out.entries@ == Seq::<Pooled>::empty(),
            out.sessions@ == Seq::<Pin>::empty(),
            out.round_robin == 0,
            out.random.state == select::RANDOM_SEED,
            out.config == config,
            !out.exhausted,
            out.evictions == 0,
            out.rotations == 0,
    {
        Pool {
            entries: Vec::new(),
            sessions: Sessions::new(),
            round_robin: 0,
            random: XorShift::new(),
            config,
            exhausted: false,
            evictions: 0,
            rotations: 0,
        }
    }

    /// A pool of the given proxies, as far as they are from an admitted country. No more will
    /// come.
    pub fn from_proxies(proxies: Vec<Proxy>, config: PoolConfig) -> (out: Pool)
        ensures
            out.entries@ == admitted(proxies@, broker::codes_in(config.countries)),
            out.sessions@ == Seq::<Pin>::empty(),
            out.round_robin == 0,
            out.random.state == select::RANDOM_SEED,
            out.config == config,
            out.exhausted,
            out.evictions == 0,
            out.rotations == 0,
    {
        let mut pool = Pool::filling(config);
        let mut i: usize = 0;
        assert(admitted(proxies@.take(0), broker::codes_in(config.countries)) =~= Seq::empty());
        while i < proxies.len()
            invariant
                i <= proxies@.len(),
                pool.entries@ == admitted(proxies@.take(i as int), broker::codes_in(config.countries)),
                pool.sessions@ == Seq::<Pin>::empty(),
                pool.round_robin == 0,
                pool.random.state == select::RANDOM_SEED,
                pool.config == config,
                !pool.exhausted,
                pool.evictions == 0,
                pool.rotations == 0,
            decreases proxies@.len() - i,
        {
            proof {
                let upto = proxies@.take(i + 1);
                assert(upto.drop_last() =~= proxies@.take(i as int));
                assert(upto.last() == proxies@[i as int]);
            }
            let kept = pool.import(proxies[i].clone());
            i += 1;
        }
        assert(proxies@.take(i as int) =~= proxies@);
        pool.close();
        pool
    }

    /// Take in a proxy from the source that fills the pool, unless its country is not admitted;
    /// whether it was taken in.
    pub fn import(&mut self, proxy: Proxy) -> (taken: bool)
        ensures
            taken == broker::in_countries(proxy, broker::codes_in(old(self).config.countries)),
            final(self).entries@ == (if taken {
                old(self).entries@.push(Pooled { proxy, blocked_until: None })
            } else {
                old(self).entries@
            }),
            final(self).same_but_entries(*old(self)),
    {
        if !broker::country_ok(&proxy, self.config.countries.as_ref()) {
            return false;
        }
        self.entries.push(Pooled { proxy, blocked_until: None });
        true
    }

    /// The source that fills the pool has come to its end.
    pub fn close(&mut self)
        ensures
            final(self).exhausted,
            *final(self) == (Pool { exhausted: true, ..*old(self) }),
    {
        self.exhausted = true;
    }

    /// Check out a proxy for a client, by the pool's strategy. `None` where no proxy that is here
    /// now can carry the scheme.
    pub fn try_select(&mut self, scheme: Scheme, key: &ClientKey, now: u128) -> (out: Option<Proxy>)
        ensures
            match select::choice(old(self).entries@, old(self).ctx(scheme, key@, now)) {
                None => out is None && *final(self) == *old(self),
                Some(i) => out == Some(old(self).entries@[i].proxy) && old(self).checked_out(
                    *final(self),
                    key@,
                    i,
                ),
            },
    {
        let sticky = if self.config.strategy == Strategy::Sticky {
            self.sessions.get(key)
        } else {
            None
        };
        let next = self.random.advanced();
        let ctx = SelectCtx {
            scheme,
            strategy: self.config.strategy,
            sticky,
            round_robin_cursor: self.round_robin,
            draw: next.state,
            now,
            prefer_connect: self.config.prefer_connect,
        };
        match select::best_for(&self.entries, &ctx) {
            None => None,
            Some(i) => {
                let chosen = self.entries.swap_remove(i).proxy;
                if self.config.strategy == Strategy::RoundRobin {
                    self.round_robin = if self.round_robin < usize::MAX {
                        self.round_robin + 1
                    } else {
                        0
                    };
                }
                if self.config.strategy == Strategy::Random {
                    self.random = next;
                }
                if self.config.strategy == Strategy::Sticky {
                    self.sessions.record(
                        self.config.max_sessions,
                        key.clone(),
                        (chosen.host, chosen.port),
                    );
                }
                assert(self.entries@ =~= swap_removed(old(self).entries@, i as int));
                Some(chosen)
            },
        }
    }

    /// Draw a proxy for a client: hand it out, or probe it first where the pool is set to; wait
    /// where there is none yet, unless none will come.
    pub fn draw(&mut self, scheme: Scheme, key: &ClientKey, now: u128) -> (out: Draw)
        ensures
            match select::choice(old(self).entries@, old(self).ctx(scheme, key@, now)) {
                None => out == (if old(self).exhausted {
                    Draw::Nothing
                } else {
                    Draw::Wait
                }) && *final(self) == *old(self),
                Some(i) => out == (if old(self).config.verify_on_lease is Some {
                    Draw::Probe(old(self).entries@[i].proxy)
                } else {
                    Draw::Give(old(self).entries@[i].proxy)
                }) && old(self).checked_out(*final(self), key@, i),
            },
    {
        match self.try_select(scheme, key, now) {
            Some(proxy) => {
                if self.config.verify_on_lease.is_some() {
                    Draw::Probe(proxy)
                } else {
                    Draw::Give(proxy)
                }
            },
            None => {
                if self.exhausted {
                    Draw::Nothing
                } else {
                    Draw::Wait
                }
            },
        }
    }

    /// What taking back a proxy does: one that has become unhealthy is dropped and counted, any
    /// other goes to the end of the pool with its bench.
    pub open spec fn taken_back(self, after: Pool, proxy: Proxy, blocked_until: Option<u128>) -> bool {
        if unhealthy(self.config, proxy) {
            &&& after.entries@ == self.entries@
            &&& after.evictions == (if self.evictions < u64::MAX {
                (self.evictions + 1) as u64
            } else {
                0
            })
            &&& after.sessions == self.sessions
            &&& after.round_robin == self.round_robin
            &&& after.random == self.random
            &&& after.config == self.config
            &&& after.exhausted == self.exhausted
            &&& after.rotations == self.rotations
        } else {
            &&& after.entries@ == self.entries@.push(Pooled { proxy, blocked_until })
            &&& after.same_but_entries(self)
        }
    }

    /// Take back a proxy; whether it was kept.
    fn put_inner(&mut self, proxy: Proxy, blocked_until: Option<u128>) -> (kept: bool)
        ensures
            kept == !unhealthy(old(self).config, proxy),
            old(self).taken_back(*final(self), proxy, blocked_until),
    {
        let unhealthy = proxy.requests >= self.config.min_req && (proxy.error_rate.exceeds(
            self.config.max_error_rate,
        ) || proxy.avg_resp_time.exceeds(self.config.max_resp_time));
        if unhealthy {
            self.evictions = if self.evictions < u64::MAX {
                self.evictions + 1
            } else {
                0
            };
            return false;
        }
        self.entries.push(Pooled { proxy, blocked_until });
        true
    }

    /// Take back a proxy that served well: it may be chosen again at once. Whether it was kept.
    pub fn put_ok(&mut self, proxy: Proxy) -> (kept: bool)
        ensures
            kept == !unhealthy(old(self).config, proxy),
            old(self).taken_back(*final(self), proxy, None),
    {
        self.put_inner(proxy, None)
    }

    /// Take back a proxy that failed: it is benched for a while. Whether it was kept.
    pub fn put_failed(&mut self, proxy: Proxy, now: u128) -> (kept: bool)
        requires
            now + old(self).config.fail_timeout.nanos <= u128::MAX,
        ensures
            kept == !unhealthy(old(self).config, proxy),
            old(self).taken_back(
                *final(self),
                proxy,
                Some((now + old(self).config.fail_timeout.nanos) as u128),
            ),
    {
        let until: u128 = now + self.config.fail_timeout.nanos;
        self.put_inner(proxy, Some(until))
    }

    /// A request went on to a different proxy.
    pub fn note_rotation(&mut self)
        ensures
            *final(self) == (Pool {
                rotations: (if old(self).rotations < u64::MAX {
                    (old(self).rotations + 1) as u64
                } else {
                    0
                }),
                ..*old(self)
            }),
    {
        self.rotations = if self.rotations < u64::MAX {
            self.rotations + 1
        } else {
            0
        };
    }

    /// How many proxies were dropped for being unhealthy.
    pub fn evictions(&self) -> (out: u64)
        ensures
            out == self.evictions,
    {
        self.evictions
    }

    /// How many times a request went on to a different proxy.
    pub fn rotations(&self) -> (out: u64)
        ensures
            out == self.rotations,
    {
        self.rotations
    }

    /// How many proxies are in the pool.
    pub fn len(&self) -> (out: usize)
        ensures
            out == self.entries@.len(),
    {
        self.entries.len()
    }

    /// Whether the pool is empty.
    pub fn is_empty(&self) -> (out: bool)
        ensures
            out == (self.entries@.len() == 0),
    {
        self.entries.len() == 0
    }

    /// Drop every proxy at an address; whether there was any.
    pub fn remove(&mut self, host: IpAddr, port: u16) -> (removed: bool)
        ensures
            removed == holds_addr(old(self).entries@, host, port),
            final(self).entries@ == without_addr(old(self).entries@, host, port),
            final(self).same_but_entries(*old(self)),
    {
        let ghost was = self.entries@;
        let mut removed = false;
        let mut i: usize = 0;
        proof {
            assert(was.skip(0) =~= was);
            assert(was.take(0) + without_addr(was, host, port) =~= without_addr(was, host, port));
        }
        while i < self.entries.len()
            invariant
                i <= self.entries@.len(),
                self.same_but_entries(*old(self)),
                self.entries@.take(i as int) + without_addr(
                    self.entries@.skip(i as int),
                    host,
                    port,
                ) == without_addr(was, host, port),
                removed ==> holds_addr(was, host, port),
                !removed ==> self.entries@ == was && forall|j: int|
                    0 <= j < i ==> !is_at(#[trigger] was[j], host, port),
            decreases self.entries@.len() - i,
        {
            let ghost now = self.entries@;
            let ghost rest = now.skip(i as int);
            proof {
                assert(rest[0] == now[i as int]);
                assert(rest.skip(1) =~= now.skip(i + 1));
            }
            if self.entries[i].proxy.host == host && self.entries[i].proxy.port == port {
                if !removed {
                    assert(is_at(was[i as int], host, port));
                }
                let gone = self.entries.remove(i);
                removed = true;
                proof {
                    assert(self.entries@.take(i as int) =~= now.take(i as int));
                    assert(self.entries@.skip(i as int) =~= now.skip(i + 1));
                }
            } else {
                i += 1;
                proof {
                    assert(now.take(i as int) + without_addr(now.skip(i as int), host, port)
                        =~= now.take(i - 1) + (seq![now[i - 1]] + without_addr(
                        now.skip(i as int),
                        host,
                        port,
                    )));
                }
            }
        }
        assert(self.entries@.skip(i as int) =~= Seq::empty());
        assert(self.entries@ =~= without_addr(was, host, port));
        removed
    }

    /// Put a proxy into the pool unless one with its address is there; whether it was put in.
    pub fn add(&mut self, proxy: Proxy) -> (added: bool)
        ensures
            added == !holds_addr(old(self).entries@, proxy.host, proxy.port),
            final(self).entries@ == (if added {
                old(self).entries@.push(Pooled { proxy, blocked_until: None })
            } else {
                old(self).entries@
            }),
            final(self).same_but_entries(*old(self)),
    {
        let mut i: usize = 0;
        while i < self.entries.len()
            invariant
                i <= self.entries@.len(),
                *self == *old(self),
                forall|j: int|
                    0 <= j < i ==> !is_at(#[trigger] self.entries@[j], proxy.host, proxy.port),
            decreases self.entries@.len() - i,
        {
            let p = &self.entries[i].proxy;
            if p.host == proxy.host && p.port == proxy.port {
                assert(is_at(self.entries@[i as int], proxy.host, proxy.port));
                return false;
            }
            i += 1;
        }
        self.entries.push(Pooled { proxy, blocked_until: None });
        true
    }

    /// Drop every proxy at an address; whether there was any.
    pub fn remove_addr(&mut self, host: IpAddr, port: u16) -> (removed: bool)
        ensures
            removed == holds_addr(old(self).entries@, host, port),
            final(self).entries@ == without_addr(old(self).entries@, host, port),
            final(self).same_but_entries(*old(self)),
    {
        self.remove(host, port)
    }

    /// The addresses of the proxies in the pool.
    pub fn addrs(&self) -> (out: AddrSet)
        ensures
            out.wf(),
            forall|host: IpAddr, port: u16| #[trigger]
                out@.contains((host, port)) == holds_addr(self.entries@, host, port),
    {
        let mut out = AddrSet::new();
        let mut i: usize = 0;
        while i < self.entries.len()
            invariant
                i <= self.entries@.len(),
                out.wf(),
                forall|host: IpAddr, port: u16| #[trigger]
                    out@.contains((host, port)) == holds_addr(
                        self.entries@.take(i as int),
                        host,
                        port,
                    ),
            decreases self.entries@.len() - i,
        {
            let ghost before = out@;
            let added = out.insert(self.entries[i].proxy.host, self.entries[i].proxy.port);
            proof {
                let upto = self.entries@.take(i + 1);
                let less = self.entries@.take(i as int);
                assert forall|host: IpAddr, port: u16| #[trigger]
                    out@.contains((host, port)) == holds_addr(upto, host, port) by {
                    if holds_addr(less, host, port) {
                        let j = choose|j: int| 0 <= j < less.len() && is_at(#[trigger] less[j], host, port);
                        assert(upto[j] == less[j]);
                        assert(is_at(upto[j], host, port));
                    }
                    if is_at(self.entries@[i as int], host, port) {
                        assert(is_at(upto[i as int], host, port));
                    }
                    if holds_addr(upto, host, port) {
                        let j = choose|j: int| 0 <= j < upto.len() && is_at(#[trigger] upto[j], host, port);
                        if j < i {
                            assert(is_at(less[j], host, port));
                        }
                    }
                    assert(before.contains((host, port)) == holds_addr(less, host, port));
                }
            }
            i += 1;
        }
        assert(self.entries@.take(i as int) =~= self.entries@);
        out
    }

    /// A copy of every proxy in the pool, in order.
    pub fn proxies(&self) -> (out: Vec<Proxy>)
        ensures
            out@ == self.entries@.map_values(|p: Pooled| p.proxy),
    {
        let mut out: Vec<Proxy> = Vec::new();
        let mut i: usize = 0;
        while i < self.entries.len()
            invariant
                i <= self.entries@.len(),
                out@ == self.entries@.take(i as int).map_values(|p: Pooled| p.proxy),
            decreases self.entries@.len() - i,
        {
            out.push(self.entries[i].proxy.clone());
            i += 1;
            assert(out@ =~= self.entries@.take(i as int).map_values(|p: Pooled| p.proxy));
        }
        assert(self.entries@.take(i as int) =~= self.entries@);
        out
    }

    fn find_suiting(&self, scheme: Scheme, country: Option<&str>, now: u128, ready: bool) -> (out: Vec<
        usize,
    >)
        ensures
            select::ints(out@) == suiting_upto(
                self.entries@,
                scheme,
                text_of(country),
                now,
                ready,
                self.entries@.len(),
            ),
            forall|k: int| 0 <= k < out@.len() ==> #[trigger] out@[k] < self.entries@.len(),
    {
        let mut out: Vec<usize> = Vec::new();
        let mut i: usize = 0;
        assert(select::ints(out@) =~= Seq::empty());
        while i < self.entries.len()
            invariant
                i <= self.entries@.len(),
                select::ints(out@) == suiting_upto(
                    self.entries@,
                    scheme,
                    text_of(country),
                    now,
                    ready,
                    i as nat,
                ),
                forall|k: int| 0 <= k < out@.len() ==> #[trigger] out@[k] < self.entries@.len(),
            decreases self.entries@.len() - i,
        {
            let p = &self.entries[i].proxy;
            let here = match country {
                None => true,
                Some(c) => match &p.geo {
                    None => false,
                    Some(g) => text::same_ignoring_case(g.code.as_str(), c),
                },
            };
            let free = match self.entries[i].blocked_until {
                None => true,
                Some(t) => t <= now,
            };
            if p.serves(scheme) && here && free == ready {
                let ghost before = out@;
                out.push(i);
                assert(select::ints(out@) =~= select::ints(before).push(i as int));
            }
            i += 1;
        }
        out
    }

    /// Check out the best proxy that can carry the scheme and, where a country code is given, is in
    /// that country. A benched proxy is passed over unless none that suits is ready. The order of
    /// the others stays.
    pub fn try_get(&mut self, scheme: Scheme, country: Option<&str>, now: u128) -> (out: Option<
        Proxy,
    >)
        ensures
            ({
                let at = suiting(old(self).entries@, scheme, text_of(country), now);
                let i = select::best(old(self).entries@, at, old(self).config.prefer_connect);
                if at.len() == 0 {
                    out is None && *final(self) == *old(self)
                } else {
                    &&& out == Some(old(self).entries@[i].proxy)
                    &&& final(self).entries@ == old(self).entries@.remove(i)
                    &&& final(self).same_but_entries(*old(self))
                }
            }),
    {
        let ready = self.find_suiting(scheme, country, now, true);
        let at = if ready.len() > 0 {
            ready
        } else {
            self.find_suiting(scheme, country, now, false)
        };
        assert(select::ints(ready@).len() == ready@.len());
        assert(select::ints(at@).len() == at@.len());
        match select::best_by_priority(&self.entries, &at, self.config.prefer_connect) {
            Some(best) => Some(self.entries.remove(best).proxy),
            None => None,
        }
    }

    /// Whether enough proxies have come to start serving: at least `n`, or all that ever will.
    pub fn is_ready_for(&self, n: usize) -> (out: bool)
        ensures
            out == (n == 0 || self.entries@.len() >= n || self.exhausted),
    {
        n == 0 || self.entries.len() >= n || self.exhausted
    }

    /// A view of the pool at this moment, with the means over its proxies, which are nought while
    /// there is no proxy.
    pub fn snapshot(&self, means: Averages) -> (out: PoolSnapshot)
        ensures
            out.total == self.entries@.len(),
            out.http == count_carrying(self.entries@, Scheme::Http, self.entries@.len()),
            out.https == count_carrying(self.entries@, Scheme::Https, self.entries@.len()),
            self.entries@.len() > 0 ==> out.avg_error_rate == means.error_rate
                && out.avg_resp_time == means.resp_time && out.probe_latency_avg
                == means.probe_latency,
            self.entries@.len() == 0 ==> out.avg_error_rate.bits == 0 && out.avg_resp_time.bits == 0
                && out.probe_latency_avg.bits == 0,
    {
        let mut http: usize = 0;
        let mut https: usize = 0;
        let mut i: usize = 0;
        while i < self.entries.len()
            invariant
                i <= self.entries@.len(),
                http == count_carrying(self.entries@, Scheme::Http, i as nat),
                https == count_carrying(self.entries@, Scheme::Https, i as nat),
                http <= i,
                https <= i,
            decreases self.entries@.len() - i,
        {
            if self.entries[i].proxy.serves(Scheme::Http) {
                http += 1;
            }
            if self.entries[i].proxy.serves(Scheme::Https) {
                https += 1;
            }
            i += 1;
        }
        let known = self.entries.len() > 0;
        PoolSnapshot {
            http,
            https,
            total: self.entries.len(),
            avg_error_rate: if known { means.error_rate } else { Measure::zero() },
            avg_resp_time: if known { means.resp_time } else { Measure::zero() },
            probe_latency_avg: if known { means.probe_latency } else { Measure::zero() },
        }
    }
}

/// How many proxies may fail their probe before a request for one is given up.
pub const VERIFY_MAX_ATTEMPTS: usize = 8;

/// The probes of one request for a proxy that failed so far.
#[derive(Clone, Copy, Debug, PartialEq, Eq, Structural)]
pub struct Lease {
    pub failed: usize,
}

/// What follows a probe.
#[derive(Debug, PartialEq, Eq)]
pub enum Probed {
    /// Hand this proxy out.
    HandOut(Proxy),
    /// Draw another.
    Redraw,
    /// Give up.
    GiveUp,
}

impl Lease {
    /// A request for a proxy at its start.
    pub fn new() -> (out: Lease)
        ensures
            out.failed == 0,
    {
        Lease { failed: 0 }
    }

    /// A proxy that was drawn has been probed. A live one is handed out; a dead one is benched, and
    /// after the last that may fail the request is given up.
    pub fn after_probe(&mut self, pool: &mut Pool, proxy: Proxy, live: bool, now: u128) -> (out:
        Probed)
        requires
            old(self).failed < VERIFY_MAX_ATTEMPTS,
            now + old(pool).config.fail_timeout.nanos <= u128::MAX,
        ensures
            live ==> out == Probed::HandOut(proxy) && *final(self) == *old(self) && *final(pool)
                == *old(pool),
            !live ==> final(self).failed == old(self).failed + 1 && old(pool).taken_back(
                *final(pool),
                proxy,
                Some((now + old(pool).config.fail_timeout.nanos) as u128),
            ) && out == (if final(self).failed >= VERIFY_MAX_ATTEMPTS {
                Probed::GiveUp
            } else {
                Probed::Redraw
            }),
    {
        if live {
            return Probed::HandOut(proxy);
        }
        let kept = pool.put_failed(proxy, now);
        self.failed += 1;
        if self.failed >= VERIFY_MAX_ATTEMPTS {
            Probed::GiveUp
        } else {
            Probed::Redraw
        }
    }
}

/// How many probes a request for a proxy makes after `failed` that failed, where `live` is how
/// further probes would come out; the pool runs dry at the end of `live`.
pub open spec fn probes_made(failed: nat, live: Seq<bool>) -> nat
    decreases live.len(),
{
    if failed >= VERIFY_MAX_ATTEMPTS || live.len() == 0 {
        0
    } else if live[0] {
        1
    } else {
        1 + probes_made(failed + 1, live.skip(1))
    }
}

/// A request for a proxy comes to an end even where every proxy is dead: it makes eight probes at
/// most.
pub proof fn law_dead_pool_is_given_up(failed: nat, live: Seq<bool>)
    requires
        failed <= VERIFY_MAX_ATTEMPTS,
    ensures
        failed + probes_made(failed, live) <= VERIFY_MAX_ATTEMPTS,
    decreases live.len(),
{
    if failed < VERIFY_MAX_ATTEMPTS && live.len() > 0 && !live[0] {
        law_dead_pool_is_given_up(failed + 1, live.skip(1));
    }
}

/// Removing an address leaves no proxy there, keeps every proxy that is elsewhere, and brings none
/// in.
pub proof fn law_removal_is_exact(s: Seq<Pooled>, host: IpAddr, port: u16)
    ensures
        !holds_addr(without_addr(s, host, port), host, port),
        forall|p: Pooled|
            #[trigger] without_addr(s, host, port).contains(p) == (s.contains(p) && !is_at(
                p,
                host,
                port,
            )),
        without_addr(s, host, port).len() <= s.len(),
    decreases s.len(),
{
    if s.len() > 0 {
        let rest = s.skip(1);
        let now = without_addr(s, host, port);
        let less = without_addr(rest, host, port);
        law_removal_is_exact(rest, host, port);
        assert forall|p: Pooled|
            #[trigger] now.contains(p) == (s.contains(p) && !is_at(p, host, port)) by {
            assert(s =~= seq![s[0]] + rest);
            lemma_contains_cons(s[0], rest, p);
            lemma_contains_cons(s[0], less, p);
        }
        assert forall|j: int| 0 <= j < now.len() implies !is_at(#[trigger] now[j], host, port) by {
            assert(now.contains(now[j]));
        }
    }
}

proof fn lemma_contains_cons(a: Pooled, s: Seq<Pooled>, p: Pooled)
    ensures
        (seq![a] + s).contains(p) == (a == p || s.contains(p)),
{
    let t = seq![a] + s;
    assert(t[0] == a);
    if s.contains(p) {
        let k = choose|k: int| 0 <= k < s.len() && s[k] == p;
        assert(t[k + 1] == p);
    }
    if t.contains(p) {
        let k = choose|k: int| 0 <= k < t.len() && t[k] == p;
        if k > 0 {
            assert(s[k - 1] == p);
        }
    }
}

/// Every proxy of a pool that was made from a list is from an admitted country.
pub proof fn law_admitted_are_in_countries(proxies: Seq<Proxy>, countries: Option<Seq<Seq<char>>>, i: int)
    requires
        0 <= i < admitted(proxies, countries).len(),
    ensures
        broker::in_countries(admitted(proxies, countries)[i].proxy, countries),
        admitted(proxies, countries)[i].blocked_until is None,
    decreases proxies.len(),
{
    if proxies.len() > 0 {
        if i < admitted(proxies.drop_last(), countries).len() {
            law_admitted_are_in_countries(proxies.drop_last(), countries, i);
        }
    }
}

/// A proxy that failed and was kept is not chosen before its bench is over while another proxy that
/// is ready can carry the scheme.
pub proof fn law_failed_proxy_waits_its_turn(pool: Seq<Pooled>, ctx: SelectCtx, failed: int, ready: int)
    requires
        0 <= failed < pool.len(),
        0 <= ready < pool.len(),
        pool[failed].blocked_until matches Some(t) && t > ctx.now,
        select::is_ready(pool[ready], ctx.now),
        proxy::carries(pool[ready].proxy.types, ctx.scheme),
    ensures
        select::choice(pool, ctx) != Some(failed),
{
    select::law_ready_beats_benched(pool, ctx, ready);
}

proof fn lemma_suiting_upto(
    s: Seq<Pooled>,
    scheme: Scheme,
    country: Option<Seq<char>>,
    now: u128,
    ready: bool,
    n: nat,
)
    requires
        n <= s.len(),
    ensures
        forall|k: int|
            0 <= k < suiting_upto(s, scheme, country, now, ready, n).len() ==> {
                let i = #[trigger] suiting_upto(s, scheme, country, now, ready, n)[k];
                0 <= i < n && suits(s[i], scheme, country) && select::is_ready(s[i], now) == ready
            },
        forall|i: int|
            0 <= i < n && suits(#[trigger] s[i], scheme, country) && select::is_ready(s[i], now)
                == ready ==> suiting_upto(s, scheme, country, now, ready, n).contains(i),
    decreases n,
{
    if n > 0 {
        lemma_suiting_upto(s, scheme, country, now, ready, (n - 1) as nat);
        let before = suiting_upto(s, scheme, country, now, ready, (n - 1) as nat);
        let whole = suiting_upto(s, scheme, country, now, ready, n);
        assert forall|i: int|
            0 <= i < n && suits(#[trigger] s[i], scheme, country) && select::is_ready(s[i], now)
                == ready implies whole.contains(i) by {
            if i == n - 1 {
                assert(whole[whole.len() - 1] == i);
            } else {
                let k = choose|k: int| 0 <= k < before.len() && before[k] == i;
                assert(whole[k] == i);
            }
        }
    }
}

/// While a proxy that suits is ready, a choice by country passes over every benched one.
pub proof fn law_benched_is_passed_over(
    s: Seq<Pooled>,
    scheme: Scheme,
    country: Option<Seq<char>>,
    now: u128,
    ready: int,
    k: int,
)
    requires
        0 <= ready < s.len(),
        suits(s[ready], scheme, country),
        select::is_ready(s[ready], now),
        0 <= k < suiting(s, scheme, country, now).len(),
    ensures
        select::is_ready(s[suiting(s, scheme, country, now)[k]], now),
{
    lemma_suiting_upto(s, scheme, country, now, true, s.len());
}

/// A proxy that was checked out and comes back healthy is in the pool again, with every proxy that
/// was there beside it and no other.
pub proof fn law_nothing_is_lost_in_use(
    before: Pool,
    during: Pool,
    after: Pool,
    key: KeyView,
    i: int,
    proxy: Proxy,
    blocked_until: Option<u128>,
)
    requires
        0 <= i < before.entries@.len(),
        before.checked_out(during, key, i),
        during.taken_back(after, proxy, blocked_until),
        !unhealthy(before.config, proxy),
    ensures
        after.entries@.len() == before.entries@.len(),
        after.entries@.contains(Pooled { proxy, blocked_until }),
        forall|j: int|
            0 <= j < before.entries@.len() && j != i ==> after.entries@.contains(
                #[trigger] before.entries@[j],
            ),
        forall|p: Pooled|
            #[trigger] after.entries@.contains(p) ==> p == (Pooled { proxy, blocked_until })
                || before.entries@.contains(p),
{
    let (b, a) = (before.entries@, after.entries@);
    assert(a[a.len() - 1] == (Pooled { proxy, blocked_until }));
    assert forall|j: int| 0 <= j < b.len() && j != i implies a.contains(#[trigger] b[j]) by {
        if j == b.len() - 1 {
            assert(a[i] == b[j]);
        } else {
            assert(a[j] == b[j]);
        }
    }
    assert forall|p: Pooled| #[trigger] a.contains(p) implies p == (Pooled { proxy, blocked_until })
        || b.contains(p) by {
        let k = choose|k: int| 0 <= k < a.len() && a[k] == p;
        if k < a.len() - 1 {
            if k == i {
                assert(b[b.len() - 1] == p);
            } else {
                assert(b[k] == p);
            }
        }
    }
}

/// A proxy is dropped exactly where it has handled enough requests to be judged and fails too often
/// or answers too slowly; before that it is kept however it does.
pub proof fn law_proxies_are_dropped_for_their_record(c: PoolConfig, p: Proxy)
    ensures
        p.requests < c.min_req ==> !unhealthy(c, p),
        p.requests >= c.min_req && p.error_rate.above(c.max_error_rate) ==> unhealthy(c, p),
        p.requests >= c.min_req && p.avg_resp_time.above(c.max_resp_time) ==> unhealthy(c, p),
        !p.error_rate.above(c.max_error_rate) && !p.avg_resp_time.above(c.max_resp_time)
            ==> !unhealthy(c, p),
{
}

/// A proxy that comes back unhealthy leaves the pool and is counted; any other joins its end with
/// the bench it was given. Nothing else of the pool changes.
pub proof fn law_proxy_comes_back_or_is_counted_out(
    before: Pool,
    after: Pool,
    proxy: Proxy,
    until: Option<u128>,
)
    requires
        before.taken_back(after, proxy, until),
        before.evictions < u64::MAX,
    ensures
        unhealthy(before.config, proxy) ==> after.entries@ == before.entries@ && after.evictions
            == before.evictions + 1,
        !unhealthy(before.config, proxy) ==> after.entries@ == before.entries@.push(
            Pooled { proxy, blocked_until: until },
        ) && after.evictions == before.evictions,
        after.sessions == before.sessions,
        after.round_robin == before.round_robin,
        after.random == before.random,
        after.config == before.config,
        after.exhausted == before.exhausted,
        after.rotations == before.rotations,
{
}

/// A selection goes by the pool's own strategy and preference, by the client's pin under the sticky
/// strategy and by no pin under any other, and by the cursor and the next number of the generator.
pub proof fn law_selection_goes_by_the_pool(pool: Pool, scheme: Scheme, key: KeyView, now: u128)
    ensures
        ({
            let ctx = pool.ctx(scheme, key, now);
            &&& ctx.scheme == scheme
            &&& ctx.strategy == pool.config.strategy
            &&& ctx.prefer_connect == pool.config.prefer_connect
            &&& ctx.now == now
            &&& ctx.round_robin_cursor == pool.round_robin
            &&& ctx.draw == select::xorshift(pool.random.state)
            &&& pool.config.strategy != Strategy::Sticky ==> ctx.sticky is None
            &&& forall|i: int|
                pool.config.strategy == Strategy::Sticky && 0 <= i < pool.sessions@.len() && (
                #[trigger] pool.sessions@[i]).0 == key && (forall|j: int|
                    0 <= j < i ==> (#[trigger] pool.sessions@[j]).0 != key) ==> ctx.sticky == Some(
                    pool.sessions@[i].1,
                )
            &&& (forall|i: int|
                0 <= i < pool.sessions@.len() ==> (#[trigger] pool.sessions@[i]).0 != key)
                ==> ctx.sticky is None
        }),
{
    let pins = pool.sessions@;
    assert forall|i: int|
        pool.config.strategy == Strategy::Sticky && 0 <= i < pins.len() && (#[trigger] pins[i]).0
            == key && (forall|j: int| 0 <= j < i ==> (#[trigger] pins[j]).0 != key) implies pool.ctx(
        scheme,
        key,
        now,
    ).sticky == Some(pins[i].1) by {
        lemma_pin_from_at(pins, key, 0, i);
    }
    if forall|i: int| 0 <= i < pins.len() ==> (#[trigger] pins[i]).0 != key {
        lemma_no_pin(pins, key, 0);
    }
}

proof fn lemma_no_pin(pins: Seq<Pin>, key: KeyView, i: int)
    requires
        0 <= i,
        forall|j: int| i <= j < pins.len() ==> (#[trigger] pins[j]).0 != key,
    ensures
        pin_from(pins, key, i) is None,
    decreases pins.len() - i,
{
    if i < pins.len() {
        lemma_no_pin(pins, key, i + 1);
    }
}

/// Checking a proxy out takes it, and it alone, from the pool, and moves on only what its strategy
/// goes by: the cursor by one, the generator by a step, or the client's pin to that proxy.
pub proof fn law_checking_out_moves_its_strategy_on(before: Pool, after: Pool, key: KeyView, i: int)
    requires
        0 <= i < before.entries@.len(),
        before.checked_out(after, key, i),
        before.round_robin < usize::MAX,
    ensures
        after.entries@.len() + 1 == before.entries@.len(),
        forall|j: int|
            0 <= j < before.entries@.len() && j != i ==> after.entries@.contains(
                #[trigger] before.entries@[j],
            ),
        before.config.strategy == Strategy::RoundRobin ==> after.round_robin == before.round_robin
            + 1,
        before.config.strategy != Strategy::RoundRobin ==> after.round_robin == before.round_robin,
        before.config.strategy == Strategy::Random ==> after.random.state == select::xorshift(
            before.random.state,
        ),
        before.config.strategy != Strategy::Random ==> after.random.state == before.random.state,
        before.config.strategy == Strategy::Sticky ==> pin_from(after.sessions@, key, 0) == Some(
            (before.entries@[i].proxy.host, before.entries@[i].proxy.port),
        ),
        before.config.strategy != Strategy::Sticky ==> after.sessions@ == before.sessions@,
        after.config == before.config,
        after.exhausted == before.exhausted,
        after.evictions == before.evictions,
        after.rotations == before.rotations,
{
    let (b, a) = (before.entries@, after.entries@);
    let p = b[i].proxy;
    law_recorded_pin_is_found(
        before.sessions@,
        before.config.max_sessions,
        key,
        (p.host, p.port),
    );
    assert forall|j: int| 0 <= j < b.len() && j != i implies a.contains(#[trigger] b[j]) by {
        if j == b.len() - 1 {
            assert(a[i] == b[j]);
        } else {
            assert(a[j] == b[j]);
        }
    }
}

/// Pinning a client leaves the pins of the others in their order. A client that had a pin keeps its
/// place and nobody loses one; a new client goes to the end, and only where there is no more room is
/// the oldest pin lost.
pub proof fn law_pinning_keeps_other_clients(
    pins: Seq<Pin>,
    cap: usize,
    key: KeyView,
    to: (IpAddr, u16),
    j: int,
)
    requires
        0 <= j < pins.len(),
        pins[j].0 != key,
    ensures
        ({
            let now = pinned_anew(pins, cap, key, to);
            let known = exists|i: int| 0 <= i < pins.len() && (#[trigger] pins[i]).0 == key;
            &&& known ==> now.len() == pins.len() && now[j] == pins[j]
            &&& !known && pins.len() < cap ==> now.len() == pins.len() + 1 && now[j] == pins[j]
                && now.last() == (key, to)
            &&& !known && pins.len() >= cap ==> now.len() == pins.len() && (j > 0 ==> now[j - 1]
                == pins[j]) && now.last() == (key, to)
        }),
{
    lemma_pin_at(pins, key, 0);
    let i = pin_at(pins, key, 0);
    if i < pins.len() {
        assert(pins[i].0 == key);
        assert(i != j);
    }
}

/// Of proxies that are put into a pool one after the other, each joins the end, ready, exactly where
/// its country is admitted.
pub proof fn law_each_admitted_proxy_joins_the_end(
    proxies: Seq<Proxy>,
    p: Proxy,
    countries: Option<Seq<Seq<char>>>,
)
    ensures
        broker::in_countries(p, countries) ==> admitted(proxies.push(p), countries) == admitted(
            proxies,
            countries,
        ).push(Pooled { proxy: p, blocked_until: None }),
        !broker::in_countries(p, countries) ==> admitted(proxies.push(p), countries) == admitted(
            proxies,
            countries,
        ),
        admitted(Seq::<Proxy>::empty(), countries) == Seq::<Pooled>::empty(),
{
    assert(proxies.push(p).drop_last() =~= proxies);
}

/// Whether the proxy at a position may be given by country: it can carry the scheme, is in the
/// country, whatever the case of its code, and is ready, or benched where none that suits is ready.
pub open spec fn may_be_given(
    s: Seq<Pooled>,
    scheme: Scheme,
    country: Option<Seq<char>>,
    now: u128,
    i: int,
) -> bool {
    &&& 0 <= i < s.len()
    &&& fits(s[i], scheme, country)
    &&& (s[i].blocked_until matches Some(t) && t > now) ==> forall|j: int|
        0 <= j < s.len() && fits(#[trigger] s[j], scheme, country) ==> (
        s[j].blocked_until matches Some(t) && t > now)
}

/// Whether a proxy can carry the scheme and, where a country is asked for, is known to be in it.
pub open spec fn fits(p: Pooled, scheme: Scheme, country: Option<Seq<char>>) -> bool {
    &&& proxy::carries(p.proxy.types, scheme)
    &&& country matches Some(cc) ==> (p.proxy.geo matches Some(g) && text::lowered(g.code@)
        == text::lowered(cc))
}

proof fn lemma_suiting_may_be_given(
    s: Seq<Pooled>,
    scheme: Scheme,
    country: Option<Seq<char>>,
    now: u128,
)
    ensures
        select::lists_exactly(
            suiting(s, scheme, country, now),
            |i: int| may_be_given(s, scheme, country, now, i),
        ),
{
    let ready = suiting_upto(s, scheme, country, now, true, s.len());
    let benched = suiting_upto(s, scheme, country, now, false, s.len());
    let at = suiting(s, scheme, country, now);
    lemma_suiting_upto(s, scheme, country, now, true, s.len());
    lemma_suiting_upto(s, scheme, country, now, false, s.len());
    lemma_suiting_in_order(s, scheme, country, now, true, s.len());
    lemma_suiting_in_order(s, scheme, country, now, false, s.len());
    let cond = |i: int| may_be_given(s, scheme, country, now, i);
    assert forall|k: int| 0 <= k < at.len() implies cond(#[trigger] at[k]) by {
        if ready.len() > 0 {
            assert(suits(s[ready[k]], scheme, country));
        } else {
            assert(suits(s[benched[k]], scheme, country));
            assert forall|j: int| 0 <= j < s.len() && fits(#[trigger] s[j], scheme, country) implies (
            s[j].blocked_until matches Some(t) && t > now) by {
                if select::is_ready(s[j], now) {
                    assert(suits(s[j], scheme, country));
                    assert(ready.contains(j));
                }
            }
        }
        assert(may_be_given(s, scheme, country, now, at[k]));
    }
    assert forall|i: int| #[trigger] cond(i) implies at.contains(i) by {
        assert(suits(s[i], scheme, country));
        if select::is_ready(s[i], now) {
            assert(ready.contains(i));
        } else {
            assert(benched.contains(i));
            if ready.len() > 0 {
                let j = ready[0];
                assert(suits(s[j], scheme, country) && select::is_ready(s[j], now));
                assert(fits(s[j], scheme, country));
            }
        }
    }
}

proof fn lemma_suiting_in_order(
    s: Seq<Pooled>,
    scheme: Scheme,
    country: Option<Seq<char>>,
    now: u128,
    ready: bool,
    n: nat,
)
    requires
        n <= s.len(),
    ensures
        forall|a: int, b: int|
            0 <= a < b < suiting_upto(s, scheme, country, now, ready, n).len()
                ==> #[trigger] suiting_upto(s, scheme, country, now, ready, n)[a]
                < #[trigger] suiting_upto(s, scheme, country, now, ready, n)[b],
    decreases n,
{
    if n > 0 {
        lemma_suiting_in_order(s, scheme, country, now, ready, (n - 1) as nat);
        lemma_suiting_upto(s, scheme, country, now, ready, (n - 1) as nat);
        let before = suiting_upto(s, scheme, country, now, ready, (n - 1) as nat);
        let all = suiting_upto(s, scheme, country, now, ready, n);
        assert forall|a: int, b: int| 0 <= a < b < all.len() implies #[trigger] all[a]
            < #[trigger] all[b] by {
            assert(all[a] == before[a]);
            if b < before.len() {
                assert(all[b] == before[b]);
            }
        }
    }
}

/// A proxy that is asked for by country is the healthiest of those that may be given: none of them
/// fails less often, and none that fails as often answers sooner; of those alike the first. None is
/// given only where none may be.
pub proof fn law_country_gets_its_healthiest_proxy(
    s: Seq<Pooled>,
    scheme: Scheme,
    country: Option<Seq<char>>,
    now: u128,
    prefer: bool,
)
    ensures
        ({
            let at = suiting(s, scheme, country, now);
            let i = select::best(s, at, prefer);
            &&& at.len() == 0 ==> forall|j: int| !(#[trigger] may_be_given(s, scheme, country, now, j))
            &&& at.len() > 0 ==> may_be_given(s, scheme, country, now, i)
            &&& at.len() > 0 ==> forall|j: int| #[trigger]
                may_be_given(s, scheme, country, now, j) ==> {
                    let (a, b) = (s[i].proxy, s[j].proxy);
                    &&& a.error_rate.rank() <= b.error_rate.rank()
                    &&& a.error_rate.rank() == b.error_rate.rank() ==> a.avg_resp_time.rank()
                        <= b.avg_resp_time.rank()
                    &&& (a.error_rate.rank() == b.error_rate.rank() && a.avg_resp_time.rank()
                        == b.avg_resp_time.rank() && !prefer) ==> i <= j
                }
        }),
{
    let at = suiting(s, scheme, country, now);
    let cond = |i: int| may_be_given(s, scheme, country, now, i);
    lemma_suiting_may_be_given(s, scheme, country, now);
    if at.len() == 0 {
        assert forall|j: int| !(#[trigger] may_be_given(s, scheme, country, now, j)) by {
            if may_be_given(s, scheme, country, now, j) {
                assert(cond(j));
                assert(at.contains(j));
            }
        }
    } else {
        select::law_best_is_first_of_the_least(s, at, prefer);
        let i = select::best(s, at, prefer);
        let k = choose|k: int|
            0 <= k < at.len() && #[trigger] at[k] == i && forall|j: int|
                0 <= j < k ==> select::better(s[at[k]], s[#[trigger] at[j]], prefer);
        assert(cond(at[k]));
        assert forall|j: int| #[trigger] may_be_given(s, scheme, country, now, j) implies {
            let (a, b) = (s[i].proxy, s[j].proxy);
            &&& a.error_rate.rank() <= b.error_rate.rank()
            &&& a.error_rate.rank() == b.error_rate.rank() ==> a.avg_resp_time.rank()
                <= b.avg_resp_time.rank()
            &&& (a.error_rate.rank() == b.error_rate.rank() && a.avg_resp_time.rank()
                == b.avg_resp_time.rank() && !prefer) ==> i <= j
        } by {
            assert(cond(j));
            assert(at.contains(j));
            let m = choose|m: int| 0 <= m < at.len() && at[m] == j;
            assert(!select::better(s[at[m]], s[i], prefer));
            if m < k {
                assert(select::better(s[at[k]], s[at[m]], prefer));
            } else if k < m {
                assert(at[k] < at[m]);
            }
        }
    }
}

/// The count of proxies for a scheme goes up by one with each that can carry it, and with no other.
pub proof fn law_counts_are_of_those_that_carry(s: Seq<Pooled>, p: Pooled, scheme: Scheme)
    ensures
        count_carrying(s.push(p), scheme, s.len() + 1) == count_carrying(s, scheme, s.len()) + (
        if proxy::carries(p.proxy.types, scheme) {
            1int
        } else {
            0
        }),
        count_carrying(s, scheme, 0) == 0,
{
    lemma_count_prefix(s, p, scheme, s.len());
}

proof fn lemma_count_prefix(s: Seq<Pooled>, p: Pooled, scheme: Scheme, n: nat)
    requires
        n <= s.len(),
    ensures
        count_carrying(s.push(p), scheme, n) == count_carrying(s, scheme, n),
    decreases n,
{
    if n > 0 {
        lemma_count_prefix(s, p, scheme, (n - 1) as nat);
        assert(s.push(p)[n - 1] == s[n - 1]);
    }
}

/// A request whose proxies are all dead makes exactly eight probes where so many are there, and one
/// that meets a live proxy stops with it.
pub proof fn law_eight_probes_are_made(live: Seq<bool>, n: nat)
    requires
        live.len() == n,
        forall|k: int| 0 <= k < n ==> !(#[trigger] live[k]),
    ensures
        probes_made(0, live) == (if n < 8 {
            n
        } else {
            8
        }),
{
    lemma_probes(0, live);
}

proof fn lemma_probes(failed: nat, live: Seq<bool>)
    requires
        failed <= 8,
        forall|k: int| 0 <= k < live.len() ==> !(#[trigger] live[k]),
    ensures
        probes_made(failed, live) == (if live.len() < 8 - failed {
            live.len() as int
        } else {
            8 - failed
        }),
    decreases live.len(),
{
    if failed < 8 && live.len() > 0 {
        assert forall|k: int| 0 <= k < live.skip(1).len() implies !(#[trigger] live.skip(1)[k]) by {
            assert(live.skip(1)[k] == live[k + 1]);
        }
        lemma_probes(failed + 1, live.skip(1));
    }
}

} // verus!

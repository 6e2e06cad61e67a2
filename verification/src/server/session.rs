//! Serving one client: who is let in, and which tries a request gets.
use crate::addr;
use crate::addr::IpAddr;
use crate::proxy::{Proxy, Rates};
use crate::server::auth::{AuthExpect, AuthView};
use crate::server::control;
use crate::server::control::{Entry, History};
use crate::server::http;
use crate::server::http::{ClientRequest, Frontend, RequestView};
use crate::server::pool::{ClientKey, KeyView, Pool, PoolConfig};
use crate::server::relay::RelayOutcome;
use crate::server::socks5;
use crate::text;
use crate::types::{ProxyError, Scheme};
use vstd::prelude::*;
use vstd::string::*;
use vstd::utf8::*;

verus! {

/// What becomes of a request before any proxy is taken for it.
#[derive(Clone, Copy, Debug, PartialEq, Eq, Structural)]
pub enum Admission {
    /// The client did not log in: answer with [`login_required`].
    Refuse,
    /// The request is for the server itself.
    Control,
    /// The request is to be relayed.
    Relay,
}

/// The host under which the server itself is addressed.
pub open spec fn control_host() -> Seq<char> {
    "proxycontrol"@
}

/// Whether a request may go on: a client of SOCKS has logged in by then, any other must show the
/// expected header.
pub open spec fn logged_in(req: RequestView, expected: Option<AuthView>) -> bool {
    ||| req.frontend == Frontend::Socks5
    ||| expected is None
    ||| req.proxy_auth == Some(expected->0.basic)
}

/// What becomes of a request: the login comes first, and the server itself is reached before any
/// proxy is taken.
pub open spec fn admission(req: RequestView, expected: Option<AuthView>) -> Admission {
    if !logged_in(req, expected) {
        Admission::Refuse
    } else if req.host == control_host() {
        Admission::Control
    } else {
        Admission::Relay
    }
}

/// Decide what becomes of a request. The login comes first, so that nobody who has not logged in
/// reaches the server itself.
pub fn screen(req: &ClientRequest, expected: Option<&AuthExpect>) -> (out: Admission)
    ensures
        out == admission(req@, socks5::auth_view(expected)),
{
    if req.frontend != Frontend::Socks5 {
        if let Some(e) = expected {
            let right = match &req.proxy_auth {
                Some(v) => text::same_text(v.as_str(), e.basic.as_str()),
                None => false,
            };
            if !right {
                return Admission::Refuse;
            }
        }
    }
    if text::same_text(req.host.as_str(), "proxycontrol") {
        Admission::Control
    } else {
        Admission::Relay
    }
}

/// The answer to a client that did not log in.
pub open spec fn login_required_text() -> Seq<char> {
    "HTTP/1.1 407 Proxy Authentication Required\r\nProxy-Authenticate: Basic realm=\"proxybroker\"\r\n\r\n"@
}

/// The answer to a client that did not log in.
pub fn login_required() -> (out: Vec<u8>)
    ensures
        out@ == encode_utf8(login_required_text()),
{
    vstd::slice::slice_to_vec(
        "HTTP/1.1 407 Proxy Authentication Required\r\nProxy-Authenticate: Basic realm=\"proxybroker\"\r\n\r\n".as_bytes(),
    )
}

/// The answer to a client whose request could not be served, in its own protocol.
pub open spec fn failure_bytes(frontend: Frontend) -> Seq<u8> {
    match frontend {
        Frontend::Socks5 => socks5::reply_bytes(1),
        _ => encode_utf8("HTTP/1.1 502 Bad Gateway\r\n\r\n"@),
    }
}

/// The answer to a client whose request could not be served, in its own protocol.
pub fn terminal_failure(frontend: Frontend) -> (out: Vec<u8>)
    ensures
        out@ == failure_bytes(frontend),
{
    match frontend {
        Frontend::Socks5 => socks5::command_reply(1),
        _ => vstd::slice::slice_to_vec("HTTP/1.1 502 Bad Gateway\r\n\r\n".as_bytes()),
    }
}

/// What a client is known by: the value of the configured header where it forwards a request that
/// has it, else its address.
pub open spec fn key_of(header: Option<Seq<char>>, peer: IpAddr, req: RequestView) -> KeyView {
    if req.scheme == Scheme::Http && header is Some && http::header(req.raw, header->0) is Some {
        KeyView::Header(http::header(req.raw, header->0)->0)
    } else {
        KeyView::Ip(peer)
    }
}

/// What a client is known by.
pub fn client_key(config: &PoolConfig, peer: IpAddr, req: &ClientRequest) -> (out: ClientKey)
    ensures
        out@ == key_of(text::text_opt(config.sticky_header), peer, req@),
{
    if req.scheme == Scheme::Http {
        if let Some(name) = &config.sticky_header {
            if let Some(v) = http::header_value(req.raw.as_slice(), name.as_str()) {
                return ClientKey::Header(v);
            }
        }
    }
    ClientKey::Ip(peer)
}

/// What to do next for a client.
#[derive(Clone, Copy, Debug, PartialEq, Eq, Structural)]
pub enum Then {
    /// Take a proxy from the pool.
    Lease,
    /// Tell the client that its request could not be served, and stop.
    Fail,
    /// Stop.
    Stop,
}

/// What to do with a proxy after it was used.
#[derive(Clone, Copy, Debug, PartialEq, Eq, Structural)]
pub enum Verdict {
    /// It did well.
    Healthy,
    /// It failed in this way and is benched.
    Failed(ProxyError),
}

/// What follows a relay.
#[derive(Clone, Copy, Debug, PartialEq, Eq, Structural)]
pub struct AfterRelay {
    pub verdict: Verdict,
    /// Remember which proxy served this client and target.
    pub remember: bool,
    pub next: Then,
}

/// The tries of one request: how many proxies were used, of how many that may be, and the address
/// of the one taken last.
#[derive(Clone, Copy, Debug, PartialEq, Eq)]
pub struct Tries {
    pub used: usize,
    pub max: usize,
    pub last: Option<(IpAddr, u16)>,
}

/// Whether taking the proxy at an address means going on to a different one.
pub open spec fn is_switch(last: Option<(IpAddr, u16)>, to: (IpAddr, u16)) -> bool {
    last is Some && last->0 != to
}

/// Whether a relay that ended so is charged to the proxy as an error. A client that went away is no
/// fault of the proxy.
pub open spec fn is_fault(outcome: RelayOutcome) -> bool {
    outcome is RetryableFailure || outcome is ClientCommitted
}

/// Whether a relay that ended so is charged to the proxy as an error.
pub fn charges_error(outcome: RelayOutcome) -> (yes: bool)
    ensures
        yes == is_fault(outcome),
{
    match outcome {
        RelayOutcome::RetryableFailure(_) => true,
        RelayOutcome::ClientCommitted(_) => true,
        RelayOutcome::Served => false,
        RelayOutcome::ClientGone => false,
    }
}

/// What follows a relay: only a failure that the client has not seen leads to another proxy, and
/// only while tries are left.
pub open spec fn after(tries: Tries, outcome: RelayOutcome) -> AfterRelay {
    match outcome {
        RelayOutcome::Served => AfterRelay {
            verdict: Verdict::Healthy,
            remember: true,
            next: Then::Stop,
        },
        RelayOutcome::RetryableFailure(e) => AfterRelay {
            verdict: Verdict::Failed(e),
            remember: false,
            next: if tries.used + 1 < tries.max {
                Then::Lease
            } else {
                Then::Fail
            },
        },
        RelayOutcome::ClientCommitted(e) => AfterRelay {
            verdict: Verdict::Failed(e),
            remember: false,
            next: Then::Stop,
        },
        RelayOutcome::ClientGone => AfterRelay {
            verdict: Verdict::Healthy,
            remember: false,
            next: Then::Stop,
        },
    }
}

impl Tries {
    /// No proxy used yet.
    pub fn new(max: usize) -> (out: Tries)
        ensures
            out.used == 0,
            out.max == max,
            out.last is None,
    {
        Tries { used: 0, max, last: None }
    }

    /// What to do first.
    pub fn first(&self) -> (out: Then)
        ensures
            out == (if self.max > 0 {
                Then::Lease
            } else {
                Then::Fail
            }),
    {
        if self.max > 0 {
            Then::Lease
        } else {
            Then::Fail
        }
    }

    /// Whether taking the proxy at this address means going on to a different one.
    pub fn is_rotation(&self, host: IpAddr, port: u16) -> (out: bool)
        ensures
            out == is_switch(self.last, (host, port)),
    {
        match self.last {
            Some(last) => last.0 != host || last.1 != port,
            None => false,
        }
    }

    /// Take in where the relay through the proxy ended.
    pub fn after_relay(&mut self, outcome: RelayOutcome) -> (out: AfterRelay)
        requires
            old(self).used < old(self).max,
        ensures
            out == after(*old(self), outcome),
            *final(self) == (Tries { used: (old(self).used + 1) as usize, ..*old(self) }),
    {
        let left = self.used + 1 < self.max;
        self.used += 1;
        match outcome {
            RelayOutcome::Served => AfterRelay {
                verdict: Verdict::Healthy,
                remember: true,
                next: Then::Stop,
            },
            RelayOutcome::RetryableFailure(e) => AfterRelay {
                verdict: Verdict::Failed(e),
                remember: false,
                next: if left { Then::Lease } else { Then::Fail },
            },
            RelayOutcome::ClientCommitted(e) => AfterRelay {
                verdict: Verdict::Failed(e),
                remember: false,
                next: Then::Stop,
            },
            RelayOutcome::ClientGone => AfterRelay {
                verdict: Verdict::Healthy,
                remember: false,
                next: Then::Stop,
            },
        }
    }
}

/// A proxy was taken for a try: one at another address than the last counts as a rotation. Drawing
/// the same proxy again does not.
pub fn begin_try(tries: &mut Tries, pool: &mut Pool, proxy: &Proxy)
    ensures
        *final(tries) == (Tries { last: Some((proxy.host, proxy.port)), ..*old(tries) }),
        *final(pool) == (Pool {
            rotations: (if !is_switch(old(tries).last, (proxy.host, proxy.port)) {
                old(pool).rotations
            } else if old(pool).rotations < u64::MAX {
                (old(pool).rotations + 1) as u64
            } else {
                0
            }),
            ..*old(pool)
        }),
{
    if tries.is_rotation(proxy.host, proxy.port) {
        pool.note_rotation();
    }
    tries.last = Some((proxy.host, proxy.port));
}

/// Whether a pool has its proxy back after a relay: ready again where it did well, benched where it
/// failed.
pub open spec fn given_back(
    before: Pool,
    after: Pool,
    proxy: Proxy,
    outcome: RelayOutcome,
    now: u128,
) -> bool {
    match outcome {
        RelayOutcome::Served => before.taken_back(after, proxy, None),
        RelayOutcome::ClientGone => before.taken_back(after, proxy, None),
        _ => before.taken_back(
            after,
            proxy,
            Some((now + before.config.fail_timeout.nanos) as u128),
        ),
    }
}

/// The history after a relay: a proxy that served is remembered for the client and its target.
pub open spec fn history_after(
    h: Seq<Entry>,
    peer: IpAddr,
    req: RequestView,
    proxy: Proxy,
    outcome: RelayOutcome,
) -> Seq<Entry> {
    if outcome == RelayOutcome::Served {
        control::with_entry(
            h,
            control::history_key_text(peer, req.path),
            addr::endpoint_text(proxy.host, proxy.port),
        )
    } else {
        h
    }
}

/// A relay through a proxy has ended. The request, and an error where the proxy is at fault, are
/// charged to the proxy, `rates` being what follows from its new counts; it goes back to the pool,
/// the history keeps what served, and what comes next is decided.
pub fn conclude_try(
    tries: &mut Tries,
    pool: &mut Pool,
    history: &mut History,
    peer: IpAddr,
    req: &ClientRequest,
    proxy: Proxy,
    outcome: RelayOutcome,
    rates: Rates,
    now: u128,
) -> (next: Then)
    requires
        old(tries).used < old(tries).max,
        now + old(pool).config.fail_timeout.nanos <= u128::MAX,
    ensures
        next == after(*old(tries), outcome).next,
        *final(tries) == (Tries { used: (old(tries).used + 1) as usize, ..*old(tries) }),
        given_back(
            *old(pool),
            *final(pool),
            proxy.after_attempt(is_fault(outcome), rates),
            outcome,
            now,
        ),
        final(history)@ == history_after(old(history)@, peer, req@, proxy, outcome),
{
    let then = tries.after_relay(outcome);
    if then.remember {
        history.record(
            control::history_key(peer, req.path.as_str()),
            addr::endpoint(proxy.host, proxy.port),
        );
    }
    let mut proxy = proxy;
    proxy.record_attempt(charges_error(outcome), rates);
    match then.verdict {
        Verdict::Healthy => {
            let kept = pool.put_ok(proxy);
        },
        Verdict::Failed(_) => {
            let kept = pool.put_failed(proxy, now);
        },
    }
    then.next
}

/// What serving a request came to.
pub struct Service {
    /// The relays that were run, in order.
    pub relays: Seq<RelayOutcome>,
    /// The addresses of the proxies that they went through.
    pub drawn: Seq<(IpAddr, u16)>,
    /// How often the request went on to a different proxy.
    pub rotations: nat,
    /// Whether the client was told that its request could not be served.
    pub failed: bool,
}

/// A proxy that the pool would hand out, and where the relay through it would end.
pub type Turn = ((IpAddr, u16), RelayOutcome);

/// Serving a request after `used` relays, the last through the proxy at `last`, where `turns` is what
/// the pool would hand out further; it runs dry at the end of `turns`.
pub open spec fn service(
    used: nat,
    max: nat,
    last: Option<(IpAddr, u16)>,
    turns: Seq<Turn>,
) -> Service
    decreases turns.len(),
{
    if used >= max || turns.len() == 0 {
        Service { relays: Seq::empty(), drawn: Seq::empty(), rotations: 0, failed: true }
    } else {
        let (to, outcome) = turns[0];
        let rest = if outcome is RetryableFailure {
            service(used + 1, max, Some(to), turns.skip(1))
        } else {
            Service { relays: Seq::empty(), drawn: Seq::empty(), rotations: 0, failed: false }
        };
        Service {
            relays: seq![outcome] + rest.relays,
            drawn: seq![to] + rest.drawn,
            rotations: rest.rotations + (if is_switch(last, to) {
                1nat
            } else {
                0nat
            }),
            failed: rest.failed,
        }
    }
}

/// How often an address differs from the one before it.
pub open spec fn switches(s: Seq<(IpAddr, u16)>) -> nat
    decreases s.len(),
{
    if s.len() < 2 {
        0
    } else {
        switches(s.skip(1)) + (if s[0] != s[1] {
            1nat
        } else {
            0nat
        })
    }
}

/// A step of [`Tries`] and the model of a whole service agree: another proxy is taken exactly after
/// a failure that the client has not seen, while tries are left, and the client is told of the
/// failure exactly where none are.
pub proof fn law_tries_follow_the_service(tries: Tries, outcome: RelayOutcome)
    requires
        tries.used < tries.max,
    ensures
        after(tries, outcome).next == Then::Lease <==> outcome is RetryableFailure && tries.used + 1
            < tries.max,
        after(tries, outcome).next == Then::Fail <==> outcome is RetryableFailure && tries.used + 1
            == tries.max,
        after(tries, outcome).next == Then::Stop <==> !(outcome is RetryableFailure),
{
}

/// A request uses no more proxies than it may, and it takes them as the pool hands them out.
pub proof fn law_relays_stay_within_max_tries(
    used: nat,
    max: nat,
    last: Option<(IpAddr, u16)>,
    turns: Seq<Turn>,
)
    requires
        used <= max,
    ensures
        used + service(used, max, last, turns).relays.len() <= max,
        service(used, max, last, turns).relays.len() <= turns.len(),
        service(used, max, last, turns).drawn.len() == service(used, max, last, turns).relays.len(),
        forall|i: int|
            0 <= i < service(used, max, last, turns).relays.len() ==> #[trigger] turns[i] == (
                service(used, max, last, turns).drawn[i],
                service(used, max, last, turns).relays[i],
            ),
    decreases turns.len(),
{
    if used < max && turns.len() > 0 {
        let (to, outcome) = turns[0];
        let rest = turns.skip(1);
        if outcome is RetryableFailure {
            law_relays_stay_within_max_tries(used + 1, max, Some(to), rest);
        }
        let whole = service(used, max, last, turns);
        assert forall|i: int| 0 <= i < whole.relays.len() implies #[trigger] turns[i] == (
            whole.drawn[i],
            whole.relays[i],
        ) by {
            if i > 0 {
                assert(turns[i] == rest[i - 1]);
            }
        }
    }
}

/// Every relay but the last ended in a failure that the client has not seen; and the client is told
/// of a failure exactly where all of them did.
pub proof fn law_only_unseen_failures_are_retried(
    used: nat,
    max: nat,
    last: Option<(IpAddr, u16)>,
    turns: Seq<Turn>,
    i: int,
)
    requires
        0 <= i < service(used, max, last, turns).relays.len(),
    ensures
        i + 1 < service(used, max, last, turns).relays.len() ==> service(
            used,
            max,
            last,
            turns,
        ).relays[i] is RetryableFailure,
        i + 1 == service(used, max, last, turns).relays.len() ==> (service(
            used,
            max,
            last,
            turns,
        ).failed == service(used, max, last, turns).relays[i] is RetryableFailure),
    decreases turns.len(),
{
    if used < max && turns.len() > 0 && turns[0].1 is RetryableFailure {
        let rest = service(used + 1, max, Some(turns[0].0), turns.skip(1));
        if i > 0 {
            law_only_unseen_failures_are_retried(
                used + 1,
                max,
                Some(turns[0].0),
                turns.skip(1),
                i - 1,
            );
        } else if rest.relays.len() == 0 {
            assert(used + 1 >= max || turns.skip(1).len() == 0);
        }
    }
}

/// The rotations of a request are the switches in the addresses it went through: drawing the same
/// proxy again is none.
pub proof fn law_rotations_count_switches(max: nat, turns: Seq<Turn>)
    ensures
        service(0, max, None, turns).rotations == switches(service(0, max, None, turns).drawn),
{
    if max > 0 && turns.len() > 0 {
        let (to, outcome) = turns[0];
        if outcome is RetryableFailure {
            lemma_rotations_from(1, max, to, turns.skip(1));
        }
    }
}

proof fn lemma_rotations_from(used: nat, max: nat, last: (IpAddr, u16), turns: Seq<Turn>)
    ensures
        service(used, max, Some(last), turns).rotations == switches(
            seq![last] + service(used, max, Some(last), turns).drawn,
        ),
    decreases turns.len(),
{
    if used < max && turns.len() > 0 {
        let (to, outcome) = turns[0];
        let whole = service(used, max, Some(last), turns);
        let path = seq![last] + whole.drawn;
        if outcome is RetryableFailure {
            lemma_rotations_from(used + 1, max, to, turns.skip(1));
        }
        assert(path.skip(1) =~= whole.drawn);
        assert(path[1] == to);
        assert(switches(path) == switches(path.skip(1)) + (if last != to {
            1nat
        } else {
            0nat
        }));
    }
}

/// A request that only ever meets one proxy does not rotate, however often it fails.
pub proof fn law_lone_proxy_is_no_rotation(
    used: nat,
    max: nat,
    last: Option<(IpAddr, u16)>,
    turns: Seq<Turn>,
    at: (IpAddr, u16),
)
    requires
        last is None || last == Some(at),
        forall|i: int| 0 <= i < turns.len() ==> (#[trigger] turns[i]).0 == at,
    ensures
        service(used, max, last, turns).rotations == 0,
    decreases turns.len(),
{
    if used < max && turns.len() > 0 && turns[0].1 is RetryableFailure {
        law_lone_proxy_is_no_rotation(used + 1, max, Some(at), turns.skip(1), at);
    }
}

/// A client that must log in and has not reaches neither the server itself nor a proxy.
pub proof fn law_login_guards_everything(req: RequestView, expected: AuthView)
    requires
        req.frontend != Frontend::Socks5,
        req.proxy_auth != Some(expected.basic),
    ensures
        admission(req, Some(expected)) == Admission::Refuse,
{
}

/// A client that is served learns afterwards which proxy served its target.
pub proof fn law_served_target_is_remembered(
    h: Seq<Entry>,
    peer: IpAddr,
    req: RequestView,
    proxy: Proxy,
)
    ensures
        control::answer(
            control::CommandView::History(req.path),
            history_after(h, peer, req, proxy, RelayOutcome::Served),
            peer,
        ) == control::history_answer(addr::endpoint_text(proxy.host, proxy.port)),
{
    control::law_history_gives_back_what_was_recorded(
        h,
        control::history_key_text(peer, req.path),
        addr::endpoint_text(proxy.host, proxy.port),
    );
}

/// A client of HTTP that must log in goes on exactly where it shows the expected header; a client of
/// SOCKS has logged in by then, and nobody must where no login is expected.
pub proof fn law_right_login_lets_in(req: RequestView, expected: Option<AuthView>)
    ensures
        ({
            let shown = req.frontend == Frontend::Socks5 || expected is None || req.proxy_auth == Some(
                expected->0.basic,
            );
            &&& !shown ==> admission(req, expected) == Admission::Refuse
            &&& shown && req.host == "proxycontrol"@ ==> admission(req, expected)
                == Admission::Control
            &&& shown && req.host != "proxycontrol"@ ==> admission(req, expected) == Admission::Relay
        }),
{
}

/// What a client is answered that did not log in, and one whose request could not be served, each in
/// its own protocol.
pub proof fn law_refusals_are_in_the_clients_protocol()
    ensures
        login_required_text()
            == "HTTP/1.1 407 Proxy Authentication Required\r\nProxy-Authenticate: Basic realm=\"proxybroker\"\r\n\r\n"@,
        failure_bytes(Frontend::Socks5) == seq![5u8, 1, 0, 1, 0, 0, 0, 0, 0, 0],
        failure_bytes(Frontend::HttpForward) == encode_utf8("HTTP/1.1 502 Bad Gateway\r\n\r\n"@),
        failure_bytes(Frontend::HttpConnect) == encode_utf8("HTTP/1.1 502 Bad Gateway\r\n\r\n"@),
{
    assert(socks5::reply_bytes(1) =~= seq![5u8, 1, 0, 1, 0, 0, 0, 0, 0, 0]);
}

/// A client is known by the configured header where it forwards a request that has it; a client that
/// tunnels, one without the header, and all where none is configured, by their addresses.
pub proof fn law_client_is_known_by_header_or_address(
    name: Seq<char>,
    peer: IpAddr,
    req: RequestView,
)
    ensures
        req.scheme == Scheme::Http ==> (http::header(req.raw, name) matches Some(v) ==> key_of(
            Some(name),
            peer,
            req,
        ) == KeyView::Header(v)),
        http::header(req.raw, name) is None ==> key_of(Some(name), peer, req) == KeyView::Ip(peer),
        req.scheme == Scheme::Https ==> key_of(Some(name), peer, req) == KeyView::Ip(peer),
        key_of(None, peer, req) == KeyView::Ip(peer),
{
}

/// A proxy is charged with a failure of its own and with nothing else: serving, and a client that
/// went away, leave it healthy. Only what was served is remembered.
pub proof fn law_proxy_answers_for_its_own_failures(tries: Tries, e: ProxyError)
    ensures
        !is_fault(RelayOutcome::Served),
        !is_fault(RelayOutcome::ClientGone),
        is_fault(RelayOutcome::RetryableFailure(e)),
        is_fault(RelayOutcome::ClientCommitted(e)),
        after(tries, RelayOutcome::Served).verdict == Verdict::Healthy,
        after(tries, RelayOutcome::ClientGone).verdict == Verdict::Healthy,
        after(tries, RelayOutcome::RetryableFailure(e)).verdict == Verdict::Failed(e),
        after(tries, RelayOutcome::ClientCommitted(e)).verdict == Verdict::Failed(e),
        after(tries, RelayOutcome::Served).remember,
        !after(tries, RelayOutcome::ClientGone).remember,
        !after(tries, RelayOutcome::RetryableFailure(e)).remember,
        !after(tries, RelayOutcome::ClientCommitted(e)).remember,
{
}

/// A proxy that failed is benched from now on for the time that is configured; any other may be
/// chosen again at once. Either way it goes to the end of the pool unless it has become unhealthy.
pub proof fn law_failed_proxy_is_benched(
    before: Pool,
    after: Pool,
    proxy: Proxy,
    outcome: RelayOutcome,
    now: u128,
)
    requires
        given_back(before, after, proxy, outcome, now),
        now + before.config.fail_timeout.nanos <= u128::MAX,
        !crate::server::pool::unhealthy(before.config, proxy),
    ensures
        after.entries@.len() == before.entries@.len() + 1,
        after.entries@.drop_last() == before.entries@,
        after.entries@.last().proxy == proxy,
        outcome is Served || outcome is ClientGone ==> after.entries@.last().blocked_until is None,
        outcome is RetryableFailure || outcome is ClientCommitted
            ==> after.entries@.last().blocked_until == Some(
            (now + before.config.fail_timeout.nanos) as u128,
        ),
        after.evictions == before.evictions,
{
    assert(after.entries@.drop_last() =~= before.entries@);
}

/// A relay that did not serve leaves the history as it was; one that did is remembered under the
/// client and its target, with the address of the proxy as it stands.
pub proof fn law_history_keeps_what_served(
    h: Seq<Entry>,
    peer: IpAddr,
    req: RequestView,
    proxy: Proxy,
    outcome: RelayOutcome,
)
    ensures
        outcome != RelayOutcome::Served ==> history_after(h, peer, req, proxy, outcome) == h,
        outcome == RelayOutcome::Served ==> control::remembered(
            history_after(h, peer, req, proxy, outcome),
            peer.text() + seq!['-'] + req.path,
        ) == Some(proxy.host.text() + seq![':'] + text::decimal(proxy.port as nat)),
{
    control::law_history_gives_back_what_was_recorded(
        h,
        control::history_key_text(peer, req.path),
        addr::endpoint_text(proxy.host, proxy.port),
    );
}

/// Going on from one proxy to another is a switch exactly where the address differs; the first proxy
/// of a request is none.
pub proof fn law_switch_is_to_another_address(a: (IpAddr, u16), b: (IpAddr, u16))
    ensures
        is_switch(Some(a), b) <==> a.0 != b.0 || a.1 != b.1,
        !is_switch(None, b),
{
}

} // verus!

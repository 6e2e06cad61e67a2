//! Carrying one request through one proxy.
//!
//! A relay is a machine: each state asks for one piece of work, and what came of the work leads to
//! the next state. How far a relay got before it failed decides whether another proxy may be tried:
//! only where nothing has reached the client.
use crate::addr;
use crate::proxy::Proxy;
use crate::server::auth;
use crate::server::http;
use crate::server::http::{ClientRequest, Frontend, RequestView};
use crate::server::socks5;
use crate::text;
use crate::types::{Proto, ProxyError, Scheme, Types};
use vstd::prelude::*;
use vstd::string::*;
use vstd::utf8::*;

verus! {

/// The first protocol of a list that a proxy speaks, or another where it speaks none of them.
pub open spec fn first_of(t: Types, wanted: Seq<Proto>, other: Proto) -> Proto
    decreases wanted.len(),
{
    if wanted.len() == 0 {
        other
    } else if t.has(wanted[0]) {
        wanted[0]
    } else {
        first_of(t, wanted.skip(1), other)
    }
}

/// The protocols that carry a scheme, most wanted first.
pub open spec fn preferred(scheme: Scheme) -> Seq<Proto> {
    match scheme {
        Scheme::Https => seq![Proto::Https, Proto::Socks5, Proto::Socks4, Proto::Connect80],
        Scheme::Http => seq![Proto::Http, Proto::Connect80, Proto::Socks5, Proto::Socks4],
    }
}

/// The protocol by which a proxy is to carry a scheme.
pub open spec fn proto_for(t: Types, scheme: Scheme) -> Proto {
    first_of(
        t,
        preferred(scheme),
        match scheme {
            Scheme::Https => Proto::Https,
            Scheme::Http => Proto::Http,
        },
    )
}

/// The protocol by which a proxy is to carry a scheme: one that tunnels for HTTPS, a plain one for
/// HTTP.
pub fn choose_proto(proxy: &Proxy, scheme: Scheme) -> (out: Proto)
    ensures
        out == proto_for(proxy.types, scheme),
{
    let (a, b, c, d) = match scheme {
        Scheme::Https => (Proto::Https, Proto::Socks5, Proto::Socks4, Proto::Connect80),
        Scheme::Http => (Proto::Http, Proto::Connect80, Proto::Socks5, Proto::Socks4),
    };
    proof {
        let w = preferred(scheme);
        reveal_with_fuel(first_of, 5);
        assert(w.skip(1) =~= seq![b, c, d]);
        assert(seq![b, c, d].skip(1) =~= seq![c, d]);
        assert(seq![c, d].skip(1) =~= seq![d]);
        assert(seq![d].skip(1) =~= Seq::empty());
    }
    let t = &proxy.types;
    if t.contains(a) {
        a
    } else if t.contains(b) {
        b
    } else if t.contains(c) {
        c
    } else if t.contains(d) {
        d
    } else {
        a
    }
}

/// The protocol to negotiate with the proxy. A client that tunnels brings its own TLS, so the
/// proxy must not add any: `HTTPS` becomes a plain tunnel there.
pub fn relay_negotiation_proto(proto: Proto, frontend: &Frontend) -> (out: Proto)
    ensures
        out == negotiated(proto, *frontend),
{
    if proto == Proto::Https && (*frontend == Frontend::HttpConnect || *frontend
        == Frontend::Socks5) {
        Proto::Connect80
    } else {
        proto
    }
}

/// The protocol to negotiate with the proxy for a client of this kind.
pub open spec fn negotiated(proto: Proto, frontend: Frontend) -> Proto {
    if proto == Proto::Https && frontend != Frontend::HttpForward {
        Proto::Connect80
    } else {
        proto
    }
}

/// Where a relay ended.
#[derive(Clone, Copy, Debug, PartialEq, Eq, Structural)]
pub enum RelayOutcome {
    /// The request was served.
    Served,
    /// It failed before anything reached the client.
    RetryableFailure(ProxyError),
    /// It failed after something may have reached the client.
    ClientCommitted(ProxyError),
    /// The client went away; the proxy was fine.
    ClientGone,
}

/// What a relay waits for.
#[derive(Clone, Copy, Debug, PartialEq, Eq, Structural)]
pub enum RelayState {
    Connecting,
    Negotiating,
    /// The request is being sent upstream.
    Forwarding,
    /// The upstream's status line is awaited.
    AwaitingStatus,
    /// The client is being told that the tunnel stands, or is being sent the status line.
    Answering,
    /// Bytes flow both ways.
    Splicing,
    Over,
}

/// The work that a relay asks for.
#[derive(Debug, PartialEq, Eq)]
pub enum RelayAction {
    /// Connect to the proxy.
    Connect,
    /// Negotiate with the proxy by this protocol.
    Negotiate(Proto),
    /// Send these bytes to the proxy.
    WriteUpstream(Vec<u8>),
    /// Read the status line of the response.
    ReadStatus,
    /// Send these bytes to the client.
    WriteClient(Vec<u8>),
    /// Let bytes flow both ways until either side ends.
    Splice,
    /// The relay is over.
    Finish(RelayOutcome),
}

/// The contents of a [`RelayAction`].
pub enum ActionView {
    Connect,
    Negotiate(Proto),
    WriteUpstream(Seq<u8>),
    ReadStatus,
    WriteClient(Seq<u8>),
    Splice,
    Finish(RelayOutcome),
}

impl View for RelayAction {
    type V = ActionView;

    open spec fn view(&self) -> ActionView {
        match self {
            RelayAction::Connect => ActionView::Connect,
            RelayAction::Negotiate(p) => ActionView::Negotiate(*p),
            RelayAction::WriteUpstream(b) => ActionView::WriteUpstream(b@),
            RelayAction::ReadStatus => ActionView::ReadStatus,
            RelayAction::WriteClient(b) => ActionView::WriteClient(b@),
            RelayAction::Splice => ActionView::Splice,
            RelayAction::Finish(o) => ActionView::Finish(*o),
        }
    }
}

/// What came of the work.
#[derive(Debug, PartialEq, Eq)]
pub enum RelayEvent {
    /// It was done.
    Done,
    /// It took too long.
    TimedOut,
    /// It failed.
    Failed,
    /// The proxy failed in this way.
    ProxyFailed(ProxyError),
    /// The status line was read.
    Status(Vec<u8>),
}

/// The contents of a [`RelayEvent`].
pub enum EventView {
    Done,
    TimedOut,
    Failed,
    ProxyFailed(ProxyError),
    Status(Seq<u8>),
}

impl View for RelayEvent {
    type V = EventView;

    open spec fn view(&self) -> EventView {
        match self {
            RelayEvent::Done => EventView::Done,
            RelayEvent::TimedOut => EventView::TimedOut,
            RelayEvent::Failed => EventView::Failed,
            RelayEvent::ProxyFailed(e) => EventView::ProxyFailed(*e),
            RelayEvent::Status(b) => EventView::Status(b@),
        }
    }
}

/// The header line that tells the client which proxy served it.
pub open spec fn proxy_info(p: Proxy) -> Seq<char> {
    "X-Proxy-Info: "@ + addr::endpoint_text(p.host, p.port) + "\r\n"@
}

/// What acknowledges a tunnel to a client of HTTP.
pub open spec fn connect_ack(p: Proxy) -> Seq<char> {
    "HTTP/1.1 200 Connection established\r\n"@ + proxy_info(p) + "\r\n"@
}

/// The header line by which the proxy is shown its credentials.
pub open spec fn login_line(user: Seq<char>, pass: Seq<char>) -> Seq<char> {
    "Proxy-Authorization: "@ + auth::basic_value(user + seq![':'] + pass) + "\r\n"@
}

/// What is sent upstream for a request that is forwarded: the request without the login that it
/// brought, which is for this server alone, and with the proxy's own login where it has one.
pub open spec fn forwarded(p: Proxy, raw: Seq<u8>) -> Seq<u8> {
    let clean = http::stripped(raw, "Proxy-Authorization"@);
    match p.auth {
        None => clean,
        Some(c) => http::injected(clean, encode_utf8(login_line(c.username@, c.password@))),
    }
}

/// Whether a list of allowed codes, if there is one, lacks a code. Nought stands for a status that
/// cannot be read, which is never allowed.
pub open spec fn disallowed(allowed: Option<Seq<u16>>, code: u16) -> bool {
    allowed matches Some(codes) && (code == 0 || !codes.contains(code))
}

/// A step of a relay: from a state and what came of its work to the next state and its work.
pub open spec fn relay_next(
    state: RelayState,
    event: EventView,
    p: Proxy,
    proto: Proto,
    req: RequestView,
    allowed: Option<Seq<u16>>,
) -> (RelayState, ActionView) {
    let retry = |e: ProxyError| (RelayState::Over, ActionView::Finish(RelayOutcome::RetryableFailure(e)));
    match state {
        RelayState::Connecting => match event {
            EventView::Done => (
                RelayState::Negotiating,
                ActionView::Negotiate(negotiated(proto, req.frontend)),
            ),
            EventView::TimedOut => retry(ProxyError::Timeout),
            _ => retry(ProxyError::ConnFailed),
        },
        RelayState::Negotiating => match event {
            EventView::Done => match req.frontend {
                Frontend::HttpConnect => (
                    RelayState::Answering,
                    ActionView::WriteClient(encode_utf8(connect_ack(p))),
                ),
                Frontend::Socks5 => (
                    RelayState::Answering,
                    ActionView::WriteClient(socks5::reply_bytes(0)),
                ),
                Frontend::HttpForward => (
                    RelayState::Forwarding,
                    ActionView::WriteUpstream(forwarded(p, req.raw)),
                ),
            },
            EventView::TimedOut => retry(ProxyError::Timeout),
            EventView::ProxyFailed(e) => retry(e),
            _ => retry(ProxyError::Reset),
        },
        RelayState::Forwarding => match event {
            EventView::Done => if http::declares_body(req.raw) {
                (RelayState::Splicing, ActionView::Splice)
            } else {
                (RelayState::AwaitingStatus, ActionView::ReadStatus)
            },
            _ => retry(ProxyError::Reset),
        },
        RelayState::AwaitingStatus => match event {
            EventView::Status(line) => if disallowed(allowed, http::status_of(line)) {
                retry(ProxyError::DisallowedStatus(http::status_of(line)))
            } else {
                (
                    RelayState::Answering,
                    ActionView::WriteClient(http::injected(line, encode_utf8(proxy_info(p)))),
                )
            },
            EventView::TimedOut => retry(ProxyError::Timeout),
            EventView::ProxyFailed(e) => retry(e),
            _ => retry(ProxyError::Reset),
        },
        RelayState::Answering => match event {
            EventView::Done => (RelayState::Splicing, ActionView::Splice),
            _ => (RelayState::Over, ActionView::Finish(RelayOutcome::ClientGone)),
        },
        RelayState::Splicing => match event {
            EventView::Done => (RelayState::Over, ActionView::Finish(RelayOutcome::Served)),
            _ => (
                RelayState::Over,
                ActionView::Finish(RelayOutcome::ClientCommitted(ProxyError::ErrorOnStream)),
            ),
        },
        RelayState::Over => (RelayState::Over, ActionView::Finish(RelayOutcome::Served)),
    }
}

/// The bytes of a text.
fn to_bytes(s: &str) -> (out: Vec<u8>)
    ensures
        out@ == encode_utf8(s@),
{
    vstd::slice::slice_to_vec(s.as_bytes())
}

fn proxy_info_line(p: &Proxy) -> (out: String)
    ensures
        out@ == proxy_info(*p),
{
    let mut out = String::new();
    out.append("X-Proxy-Info: ");
    out.append(addr::endpoint(p.host, p.port).as_str());
    out.append("\r\n");
    assert(out@ =~= proxy_info(*p));
    out
}

fn connect_ack_text(p: &Proxy) -> (out: String)
    ensures
        out@ == connect_ack(*p),
{
    let mut out = String::new();
    out.append("HTTP/1.1 200 Connection established\r\n");
    out.append(proxy_info_line(p).as_str());
    out.append("\r\n");
    assert(out@ =~= connect_ack(*p));
    out
}

/// What is sent upstream for a request that is forwarded.
fn forward_bytes(p: &Proxy, raw: &Vec<u8>) -> (out: Vec<u8>)
    ensures
        out@ == forwarded(*p, raw@),
{
    let clean = http::strip_header(raw.as_slice(), "Proxy-Authorization");
    match &p.auth {
        None => clean,
        Some(c) => {
            let mut pair = c.username.clone();
            pair.push(':');
            pair.append(c.password.as_str());
            assert(pair@ =~= c.username@ + seq![':'] + c.password@);
            let mut line = String::new();
            line.append("Proxy-Authorization: ");
            line.append(auth::basic_header_value(pair.as_str()).as_str());
            line.append("\r\n");
            assert(line@ =~= login_line(c.username@, c.password@));
            http::inject_header(clean.as_slice(), line.as_str().as_bytes())
        },
    }
}

fn holds_code(codes: &Vec<u16>, code: u16) -> (yes: bool)
    ensures
        yes == codes@.contains(code),
{
    let mut i: usize = 0;
    while i < codes.len()
        invariant
            i <= codes@.len(),
            forall|j: int| 0 <= j < i ==> codes@[j] != code,
        decreases codes@.len() - i,
    {
        if codes[i] == code {
            assert(codes@[i as int] == code);
            return true;
        }
        i += 1;
    }
    false
}

fn retry(e: ProxyError) -> (out: (RelayState, RelayAction))
    ensures
        (out.0, out.1@) == (
            RelayState::Over,
            ActionView::Finish(RelayOutcome::RetryableFailure(e)),
        ),
{
    (RelayState::Over, RelayAction::Finish(RelayOutcome::RetryableFailure(e)))
}

/// The contents of an optional list of codes.
pub open spec fn codes_view(allowed: Option<&Vec<u16>>) -> Option<Seq<u16>> {
    match allowed {
        Some(v) => Some(v@),
        None => None,
    }
}

/// The state and the work that a relay starts with.
pub fn relay_start() -> (out: (RelayState, RelayAction))
    ensures
        (out.0, out.1@) == (RelayState::Connecting, ActionView::Connect),
{
    (RelayState::Connecting, RelayAction::Connect)
}

/// A step of a relay. `proto` is the protocol chosen for the proxy, `allowed` the status codes that
/// may be passed on. The body of a request is still unread while it is forwarded, so the status of
/// such a request is not waited for: the upstream would not answer before it has the body.
pub fn relay_step(
    state: RelayState,
    event: RelayEvent,
    proxy: &Proxy,
    proto: Proto,
    req: &ClientRequest,
    allowed: Option<&Vec<u16>>,
) -> (out: (RelayState, RelayAction))
    ensures
        (out.0, out.1@) == relay_next(state, event@, *proxy, proto, req@, codes_view(allowed)),
{
    match state {
        RelayState::Connecting => match event {
            RelayEvent::Done => (
                RelayState::Negotiating,
                RelayAction::Negotiate(relay_negotiation_proto(proto, &req.frontend)),
            ),
            RelayEvent::TimedOut => retry(ProxyError::Timeout),
            _ => retry(ProxyError::ConnFailed),
        },
        RelayState::Negotiating => match event {
            RelayEvent::Done => match req.frontend {
                Frontend::HttpConnect => (
                    RelayState::Answering,
                    RelayAction::WriteClient(to_bytes(connect_ack_text(proxy).as_str())),
                ),
                Frontend::Socks5 => (
                    RelayState::Answering,
                    RelayAction::WriteClient(socks5::command_reply(0)),
                ),
                Frontend::HttpForward => (
                    RelayState::Forwarding,
                    RelayAction::WriteUpstream(forward_bytes(proxy, &req.raw)),
                ),
            },
            RelayEvent::TimedOut => retry(ProxyError::Timeout),
            RelayEvent::ProxyFailed(e) => retry(e),
            _ => retry(ProxyError::Reset),
        },
        RelayState::Forwarding => match event {
            RelayEvent::Done => {
                if http::request_has_body(req.raw.as_slice()) {
                    (RelayState::Splicing, RelayAction::Splice)
                } else {
                    (RelayState::AwaitingStatus, RelayAction::ReadStatus)
                }
            },
            _ => retry(ProxyError::Reset),
        },
        RelayState::AwaitingStatus => match event {
            RelayEvent::Status(line) => {
                let code: u16 = http::parse_http_status(line.as_slice());
                let refused = match allowed {
                    Some(codes) => code == 0 || !holds_code(codes, code),
                    None => false,
                };
                if refused {
                    retry(ProxyError::DisallowedStatus(code))
                } else {
                    let head = http::inject_header(
                        line.as_slice(),
                        proxy_info_line(proxy).as_str().as_bytes(),
                    );
                    (RelayState::Answering, RelayAction::WriteClient(head))
                }
            },
            RelayEvent::TimedOut => retry(ProxyError::Timeout),
            RelayEvent::ProxyFailed(e) => retry(e),
            _ => retry(ProxyError::Reset),
        },
        RelayState::Answering => match event {
            RelayEvent::Done => (RelayState::Splicing, RelayAction::Splice),
            _ => (RelayState::Over, RelayAction::Finish(RelayOutcome::ClientGone)),
        },
        RelayState::Splicing => match event {
            RelayEvent::Done => (RelayState::Over, RelayAction::Finish(RelayOutcome::Served)),
            _ => (
                RelayState::Over,
                RelayAction::Finish(RelayOutcome::ClientCommitted(ProxyError::ErrorOnStream)),
            ),
        },
        RelayState::Over => (RelayState::Over, RelayAction::Finish(RelayOutcome::Served)),
    }
}

/// Whether an action can let the client see something.
pub open spec fn reaches_client(a: ActionView) -> bool {
    a is WriteClient || a is Splice
}

/// The work of a relay from `state` on, as the given events come, until it is over.
pub open spec fn relay_work(
    state: RelayState,
    events: Seq<EventView>,
    p: Proxy,
    proto: Proto,
    req: RequestView,
    allowed: Option<Seq<u16>>,
) -> Seq<ActionView>
    decreases events.len(),
{
    if events.len() == 0 || state == RelayState::Over {
        Seq::empty()
    } else {
        let (next, action) = relay_next(state, events[0], p, proto, req, allowed);
        seq![action] + relay_work(next, events.skip(1), p, proto, req, allowed)
    }
}

/// Whether a relay in this state has let the client see something.
pub open spec fn committed(state: RelayState) -> bool {
    state == RelayState::Answering || state == RelayState::Splicing
}

proof fn lemma_relay_step(
    state: RelayState,
    event: EventView,
    p: Proxy,
    proto: Proto,
    req: RequestView,
    allowed: Option<Seq<u16>>,
)
    ensures
        ({
            let (next, action) = relay_next(state, event, p, proto, req, allowed);
            &&& (next == RelayState::Over) == (action is Finish)
            &&& reaches_client(action) ==> committed(next)
            &&& committed(state) ==> (committed(next) || next == RelayState::Over)
            &&& committed(state) ==> !(action matches ActionView::Finish(o) && o is RetryableFailure)
        }),
{
}

/// A relay that has begun to answer its client never asks for another proxy to be tried.
pub proof fn law_no_retry_after_answering(
    state: RelayState,
    events: Seq<EventView>,
    p: Proxy,
    proto: Proto,
    req: RequestView,
    allowed: Option<Seq<u16>>,
    i: int,
)
    requires
        committed(state),
        0 <= i < relay_work(state, events, p, proto, req, allowed).len(),
    ensures
        !(relay_work(state, events, p, proto, req, allowed)[i] matches ActionView::Finish(o)
            && o is RetryableFailure),
    decreases events.len(),
{
    reveal_with_fuel(relay_work, 2);
    lemma_relay_step(state, events[0], p, proto, req, allowed);
    let (next, action) = relay_next(state, events[0], p, proto, req, allowed);
    if i > 0 {
        assert(next != RelayState::Over);
        law_no_retry_after_answering(next, events.skip(1), p, proto, req, allowed, i - 1);
    }
}

/// A relay that asks for another proxy to be tried has shown its client nothing: whatever it did
/// before, it neither wrote to the client nor let bytes flow.
pub proof fn law_retry_only_before_the_client_saw_anything(
    state: RelayState,
    events: Seq<EventView>,
    p: Proxy,
    proto: Proto,
    req: RequestView,
    allowed: Option<Seq<u16>>,
    i: int,
    j: int,
)
    requires
        0 <= i < relay_work(state, events, p, proto, req, allowed).len(),
        0 <= j < relay_work(state, events, p, proto, req, allowed).len(),
        relay_work(state, events, p, proto, req, allowed)[j] matches ActionView::Finish(o)
            && o is RetryableFailure,
    ensures
        !reaches_client(relay_work(state, events, p, proto, req, allowed)[i]),
    decreases events.len(),
{
    reveal_with_fuel(relay_work, 2);
    lemma_relay_step(state, events[0], p, proto, req, allowed);
    let work = relay_work(state, events, p, proto, req, allowed);
    let (next, action) = relay_next(state, events[0], p, proto, req, allowed);
    let rest = relay_work(next, events.skip(1), p, proto, req, allowed);
    if j == 0 {
        assert(rest.len() == 0);
    } else {
        assert(work[j] == rest[j - 1]);
        if committed(next) {
            law_no_retry_after_answering(next, events.skip(1), p, proto, req, allowed, j - 1);
        } else if i > 0 {
            law_retry_only_before_the_client_saw_anything(
                next,
                events.skip(1),
                p,
                proto,
                req,
                allowed,
                i - 1,
                j - 1,
            );
        }
    }
}

/// A response whose status is not allowed, or cannot be read, is never passed on: the next proxy is
/// to be tried.
pub proof fn law_disallowed_status_is_not_passed_on(
    line: Seq<u8>,
    p: Proxy,
    proto: Proto,
    req: RequestView,
    codes: Seq<u16>,
)
    requires
        http::status_of(line) == 0 || !codes.contains(http::status_of(line)),
    ensures
        relay_next(RelayState::AwaitingStatus, EventView::Status(line), p, proto, req, Some(codes))
            == (
            RelayState::Over,
            ActionView::Finish(
                RelayOutcome::RetryableFailure(ProxyError::DisallowedStatus(http::status_of(line))),
            ),
        ),
{
}

/// A request that is forwarded through a proxy without a login of its own has no
/// `Proxy-Authorization` line left: the client's login stays with this server.
pub proof fn law_forwarded_request_hides_the_login(p: Proxy, raw: Seq<u8>, k: int)
    requires
        p.auth is None,
        1 <= k < http::byte_lines(forwarded(p, raw)).len(),
    ensures
        !http::is_header_line(http::byte_lines(forwarded(p, raw))[k], "Proxy-Authorization"@),
{
    http::law_stripped_header_is_gone(raw, "Proxy-Authorization"@);
}

/// The line that shows a proxy its credentials, without its line end.
pub open spec fn login_body(user: Seq<char>, pass: Seq<char>) -> Seq<char> {
    "Proxy-Authorization: "@ + auth::basic_value(user + seq![':'] + pass)
}

/// The line that shows a proxy its credentials is one line, and ends with a line end.
proof fn lemma_login_is_one_line(user: Seq<char>, pass: Seq<char>)
    ensures
        http::byte_lines(encode_utf8(login_line(user, pass))) == seq![
            encode_utf8(login_body(user, pass)),
        ],
        encode_utf8(login_line(user, pass)).len() > 0,
        encode_utf8(login_line(user, pass)).last() == 10,
{
    let code = auth::base64(encode_utf8(user + seq![':'] + pass));
    auth::lemma_base64_is_plain(encode_utf8(user + seq![':'] + pass), 0);
    reveal_strlit("Proxy-Authorization: ");
    reveal_strlit("Basic ");
    reveal_strlit("\r\n");
    let body = login_body(user, pass);
    let line = login_line(user, pass);
    assert(line =~= body + seq!['\r', '\n']);
    assert forall|k: int| 0 <= k < body.len() implies ' ' <= #[trigger] body[k]
        < '\u{7f}' by {
        if k >= 27 {
            assert(body[k] == code[k - 27]);
        }
    }
    assert(is_ascii_chars(body));
    assert(is_ascii_chars(line));
    is_ascii_chars_encode_utf8(body);
    is_ascii_chars_encode_utf8(line);
    let (b, l) = (encode_utf8(body), encode_utf8(line));
    assert(l =~= b + seq![13u8, 10u8]);
    assert forall|k: int| 0 <= k < b.len() + 1 implies #[trigger] l[k] != 10 by {
        if k < b.len() {
            assert(b[k] == body[k] as u8);
        }
    }
    http::lemma_one_line(b);
}

/// A request that is forwarded through a proxy with a login of its own shows the proxy that login
/// and no other: its lines are those of the request without `Proxy-Authorization`, with the
/// proxy's line among them. Every other line, the first aside, is no `Proxy-Authorization` line.
pub proof fn law_forwarded_request_shows_only_the_proxys_login(
    p: Proxy,
    raw: Seq<u8>,
    user: Seq<char>,
    pass: Seq<char>,
)
    requires
        p.auth matches Some(c) && c.username@ == user && c.password@ == pass,
        http::crlf_from(http::stripped(raw, "Proxy-Authorization"@), 0) < http::stripped(
            raw,
            "Proxy-Authorization"@,
        ).len(),
    ensures
        ({
            let clean = http::stripped(raw, "Proxy-Authorization"@);
            let cut = http::crlf_from(clean, 0) + 2;
            let at = http::byte_lines(clean.take(cut)).len();
            let lines = http::byte_lines(forwarded(p, raw));
            &&& lines == http::byte_lines(clean.take(cut)) + seq![
                encode_utf8(login_body(user, pass)),
            ] + http::byte_lines(clean.skip(cut))
            &&& http::byte_lines(clean) == http::byte_lines(clean.take(cut)) + http::byte_lines(
                clean.skip(cut),
            )
            &&& at > 0
            &&& forall|k: int|
                1 <= k < lines.len() && k != at ==> !http::is_header_line(
                    #[trigger] lines[k],
                    "Proxy-Authorization"@,
                )
        }),
{
    let clean = http::stripped(raw, "Proxy-Authorization"@);
    let cut = http::crlf_from(clean, 0) + 2;
    let (before, behind) = (http::byte_lines(clean.take(cut)), http::byte_lines(clean.skip(cut)));
    lemma_login_is_one_line(user, pass);
    http::law_injecting_adds_a_line(clean, encode_utf8(login_line(user, pass)));
    http::law_stripped_header_is_gone(raw, "Proxy-Authorization"@);
    let all = http::byte_lines(clean);
    let lines = http::byte_lines(forwarded(p, raw));
    assert forall|k: int| 1 <= k < lines.len() && k != before.len() implies !http::is_header_line(
        #[trigger] lines[k],
        "Proxy-Authorization"@,
    ) by {
        if k < before.len() {
            assert(lines[k] == all[k]);
        } else {
            assert(lines[k] == all[k - 1]);
        }
    }
}

/// What is sent upstream differs from the client's request by `Proxy-Authorization` lines alone:
/// without them the two are the same.
pub proof fn law_forwarding_changes_only_the_login(p: Proxy, raw: Seq<u8>)
    ensures
        http::stripped(forwarded(p, raw), "Proxy-Authorization"@) == http::stripped(
            raw,
            "Proxy-Authorization"@,
        ),
{
    let name = "Proxy-Authorization"@;
    let clean = http::stripped(raw, name);
    http::law_stripping_twice_is_stripping_once(raw, name);
    if let Some(c) = p.auth {
        let (user, pass) = (c.username@, c.password@);
        let code = auth::base64(encode_utf8(user + seq![':'] + pass));
        auth::lemma_base64_is_plain(encode_utf8(user + seq![':'] + pass), 0);
        reveal_strlit("Proxy-Authorization");
        reveal_strlit("Proxy-Authorization: ");
        reveal_strlit("Basic ");
        reveal_strlit("\r\n");
        let value = seq![' '] + auth::basic_value(user + seq![':'] + pass);
        assert(login_line(user, pass) =~= http::header_text(name, value));
        assert forall|k: int| 0 <= k < value.len() implies #[trigger] value[k] != '\n' by {
            if k >= 7 {
                assert(value[k] == code[k - 7]);
            }
        }
        http::law_stripping_undoes_injecting_a_header(clean, name, name, value);
    }
}

/// A message in which no line ends with a carriage return and a line feed is forwarded without the
/// proxy's login, and without the client's.
pub proof fn law_message_without_line_ends_shows_no_login(p: Proxy, raw: Seq<u8>, k: int)
    requires
        http::crlf_from(http::stripped(raw, "Proxy-Authorization"@), 0) >= http::stripped(
            raw,
            "Proxy-Authorization"@,
        ).len(),
        1 <= k < http::byte_lines(forwarded(p, raw)).len(),
    ensures
        !http::is_header_line(http::byte_lines(forwarded(p, raw))[k], "Proxy-Authorization"@),
{
    http::law_stripped_header_is_gone(raw, "Proxy-Authorization"@);
}

/// The protocol chosen is one that the proxy speaks, where it can carry the scheme at all.
pub proof fn law_chosen_protocol_is_spoken(t: Types, scheme: Scheme)
    requires
        crate::proxy::carries(t, scheme),
    ensures
        t.has(proto_for(t, scheme)),
{
    let w = preferred(scheme);
    reveal_with_fuel(first_of, 5);
    assert(w.skip(1) =~= seq![w[1], w[2], w[3]]);
    assert(w.skip(1).skip(1) =~= seq![w[2], w[3]]);
    assert(w.skip(1).skip(1).skip(1) =~= seq![w[3]]);
}

/// Every status line that may be passed on is: where no list of allowed codes is given, whatever
/// the status, and where one is given and holds it. The client is sent the line with the header that
/// names the proxy right behind its end.
pub proof fn law_allowed_status_is_passed_on(
    line: Seq<u8>,
    cut: int,
    p: Proxy,
    proto: Proto,
    req: RequestView,
    allowed: Option<Seq<u16>>,
)
    requires
        allowed matches Some(codes) ==> http::status_of(line) != 0 && codes.contains(
            http::status_of(line),
        ),
        2 <= cut <= line.len(),
        line[cut - 2] == 13,
        line[cut - 1] == 10,
        forall|j: int| 0 <= j < cut - 2 ==> !(#[trigger] line[j] == 13 && line[j + 1] == 10),
    ensures
        relay_next(RelayState::AwaitingStatus, EventView::Status(line), p, proto, req, allowed) == (
            RelayState::Answering,
            ActionView::WriteClient(
                line.take(cut) + encode_utf8(
                    "X-Proxy-Info: "@ + p.host.text() + seq![':'] + text::decimal(p.port as nat)
                        + "\r\n"@,
                ) + line.skip(cut),
            ),
        ),
{
    http::law_line_is_added_behind_the_first_line_end(line, encode_utf8(proxy_info(p)), cut);
    assert(proxy_info(p) =~= "X-Proxy-Info: "@ + p.host.text() + seq![':'] + text::decimal(
        p.port as nat,
    ) + "\r\n"@);
}

/// A status line that ends otherwise, or was cut off, is passed on as it stands.
pub proof fn law_odd_status_line_is_passed_on_as_it_stands(
    line: Seq<u8>,
    p: Proxy,
    proto: Proto,
    req: RequestView,
    allowed: Option<Seq<u16>>,
)
    requires
        allowed matches Some(codes) ==> http::status_of(line) != 0 && codes.contains(
            http::status_of(line),
        ),
        forall|j: int| 0 <= j && j + 1 < line.len() ==> !(#[trigger] line[j] == 13 && line[j + 1] == 10),
    ensures
        relay_next(RelayState::AwaitingStatus, EventView::Status(line), p, proto, req, allowed) == (
            RelayState::Answering,
            ActionView::WriteClient(line),
        ),
{
    http::law_nothing_is_added_without_a_line_end(line, encode_utf8(proxy_info(p)));
}

/// A relay that goes well connects, negotiates by the protocol that was chosen for the proxy, and
/// lets bytes flow until they end: the request is then served. A tunnel for a client that brings its
/// own encryption is a plain one.
pub proof fn law_relay_goes_its_way(
    p: Proxy,
    proto: Proto,
    req: RequestView,
    allowed: Option<Seq<u16>>,
)
    ensures
        relay_next(RelayState::Connecting, EventView::Done, p, proto, req, allowed) == (
            RelayState::Negotiating,
            ActionView::Negotiate(
                if proto == Proto::Https && (req.frontend == Frontend::HttpConnect || req.frontend
                    == Frontend::Socks5) {
                    Proto::Connect80
                } else {
                    proto
                },
            ),
        ),
        relay_next(RelayState::Answering, EventView::Done, p, proto, req, allowed) == (
            RelayState::Splicing,
            ActionView::Splice,
        ),
        relay_next(RelayState::Splicing, EventView::Done, p, proto, req, allowed) == (
            RelayState::Over,
            ActionView::Finish(RelayOutcome::Served),
        ),
{
}

/// Once the tunnel stands, the client is told in the protocol in which it asked: a client of HTTP
/// with the proxy's address, a client of SOCKS without it.
pub proof fn law_tunnel_is_acknowledged_in_the_clients_protocol(
    p: Proxy,
    proto: Proto,
    req: RequestView,
    allowed: Option<Seq<u16>>,
)
    ensures
        req.frontend == Frontend::HttpConnect ==> relay_next(
            RelayState::Negotiating,
            EventView::Done,
            p,
            proto,
            req,
            allowed,
        ) == (
            RelayState::Answering,
            ActionView::WriteClient(
                encode_utf8(
                    "HTTP/1.1 200 Connection established\r\n"@ + "X-Proxy-Info: "@ + p.host.text()
                        + seq![':'] + text::decimal(p.port as nat) + "\r\n"@ + "\r\n"@,
                ),
            ),
        ),
        req.frontend == Frontend::Socks5 ==> relay_next(
            RelayState::Negotiating,
            EventView::Done,
            p,
            proto,
            req,
            allowed,
        ) == (
            RelayState::Answering,
            ActionView::WriteClient(seq![5u8, 0, 0, 1, 0, 0, 0, 0, 0, 0]),
        ),
{
    assert(connect_ack(p) =~= "HTTP/1.1 200 Connection established\r\n"@ + "X-Proxy-Info: "@
        + p.host.text() + seq![':'] + text::decimal(p.port as nat) + "\r\n"@ + "\r\n"@);
    assert(socks5::reply_bytes(0) =~= seq![5u8, 0, 0, 1, 0, 0, 0, 0, 0, 0]);
}

/// A request that is forwarded is sent upstream before anything is read: one that brings a body is
/// then left to flow, since the upstream answers only once it has the body; of any other the status
/// is read first.
pub proof fn law_request_is_sent_before_its_status_is_read(
    p: Proxy,
    proto: Proto,
    req: RequestView,
    allowed: Option<Seq<u16>>,
)
    requires
        req.frontend == Frontend::HttpForward,
    ensures
        ({
            let (next, work) = relay_next(
                RelayState::Negotiating,
                EventView::Done,
                p,
                proto,
                req,
                allowed,
            );
            &&& next == RelayState::Forwarding
            &&& work matches ActionView::WriteUpstream(sent)
            &&& http::stripped(sent, "Proxy-Authorization"@) == http::stripped(
                req.raw,
                "Proxy-Authorization"@,
            )
            &&& p.auth is None ==> sent == http::stripped(req.raw, "Proxy-Authorization"@)
        }),
        http::declares_body(req.raw) ==> relay_next(
            RelayState::Forwarding,
            EventView::Done,
            p,
            proto,
            req,
            allowed,
        ) == (RelayState::Splicing, ActionView::Splice),
        !http::declares_body(req.raw) ==> relay_next(
            RelayState::Forwarding,
            EventView::Done,
            p,
            proto,
            req,
            allowed,
        ) == (RelayState::AwaitingStatus, ActionView::ReadStatus),
{
    law_forwarding_changes_only_the_login(p, req.raw);
}

/// A failure before the client saw anything lets another proxy be tried, and is charged to the proxy
/// as what it was: too slow, not reachable, broken off, or as the proxy itself failed.
pub proof fn law_early_failure_names_its_cause(
    state: RelayState,
    event: EventView,
    p: Proxy,
    proto: Proto,
    req: RequestView,
    allowed: Option<Seq<u16>>,
)
    requires
        state == RelayState::Connecting || state == RelayState::Negotiating || state
            == RelayState::Forwarding || state == RelayState::AwaitingStatus,
        event is TimedOut || event is Failed || event is ProxyFailed,
    ensures
        ({
            let cause = match (state, event) {
                (RelayState::Connecting, EventView::TimedOut) => ProxyError::Timeout,
                (RelayState::Connecting, _) => ProxyError::ConnFailed,
                (RelayState::Forwarding, _) => ProxyError::Reset,
                (_, EventView::TimedOut) => ProxyError::Timeout,
                (_, EventView::ProxyFailed(e)) => e,
                (_, _) => ProxyError::Reset,
            };
            relay_next(state, event, p, proto, req, allowed) == (
                RelayState::Over,
                ActionView::Finish(RelayOutcome::RetryableFailure(cause)),
            )
        }),
{
}

/// A client that cannot be answered is gone, which is no fault of the proxy; a stream that breaks is
/// charged to the proxy and is not tried again.
pub proof fn law_late_failure_ends_the_request(
    event: EventView,
    p: Proxy,
    proto: Proto,
    req: RequestView,
    allowed: Option<Seq<u16>>,
)
    requires
        !(event is Done),
    ensures
        relay_next(RelayState::Answering, event, p, proto, req, allowed) == (
            RelayState::Over,
            ActionView::Finish(RelayOutcome::ClientGone),
        ),
        relay_next(RelayState::Splicing, event, p, proto, req, allowed) == (
            RelayState::Over,
            ActionView::Finish(RelayOutcome::ClientCommitted(ProxyError::ErrorOnStream)),
        ),
{
}

/// A proxy with a login is shown it in the form `Basic`, on a line right behind the first line end of
/// the request; the request is else as the client sent it, without the client's own login.
pub proof fn law_proxys_login_goes_behind_the_first_line(
    p: Proxy,
    raw: Seq<u8>,
    user: Seq<char>,
    pass: Seq<char>,
    cut: int,
)
    requires
        p.auth matches Some(c) && c.username@ == user && c.password@ == pass,
        ({
            let clean = http::stripped(raw, "Proxy-Authorization"@);
            &&& 2 <= cut <= clean.len()
            &&& clean[cut - 2] == 13
            &&& clean[cut - 1] == 10
            &&& forall|j: int| 0 <= j < cut - 2 ==> !(#[trigger] clean[j] == 13 && clean[j + 1] == 10)
        }),
    ensures
        ({
            let clean = http::stripped(raw, "Proxy-Authorization"@);
            forwarded(p, raw) == clean.take(cut) + encode_utf8(
                "Proxy-Authorization: "@ + "Basic "@ + auth::base64(
                    encode_utf8(user + seq![':'] + pass),
                ) + "\r\n"@,
            ) + clean.skip(cut)
        }),
{
    let clean = http::stripped(raw, "Proxy-Authorization"@);
    http::law_line_is_added_behind_the_first_line_end(
        clean,
        encode_utf8(login_line(user, pass)),
        cut,
    );
    assert(login_line(user, pass) =~= "Proxy-Authorization: "@ + "Basic "@ + auth::base64(
        encode_utf8(user + seq![':'] + pass),
    ) + "\r\n"@);
}

/// For HTTPS a proxy is used by `HTTPS` where it speaks that, else by SOCKS, the later version first,
/// else by `CONNECT:80`; for HTTP by `HTTP`, else `CONNECT:80`, else SOCKS.
pub proof fn law_protocols_are_preferred_in_order(t: Types)
    ensures
        t.https is Some ==> proto_for(t, Scheme::Https) == Proto::Https,
        t.https is None && t.socks5 is Some ==> proto_for(t, Scheme::Https) == Proto::Socks5,
        t.https is None && t.socks5 is None && t.socks4 is Some ==> proto_for(t, Scheme::Https)
            == Proto::Socks4,
        t.https is None && t.socks5 is None && t.socks4 is None && t.connect80 is Some ==> proto_for(
            t,
            Scheme::Https,
        ) == Proto::Connect80,
        t.http is Some ==> proto_for(t, Scheme::Http) == Proto::Http,
        t.http is None && t.connect80 is Some ==> proto_for(t, Scheme::Http) == Proto::Connect80,
        t.http is None && t.connect80 is None && t.socks5 is Some ==> proto_for(t, Scheme::Http)
            == Proto::Socks5,
        t.http is None && t.connect80 is None && t.socks5 is None && t.socks4 is Some ==> proto_for(
            t,
            Scheme::Http,
        ) == Proto::Socks4,
        t.https is None && t.socks5 is None && t.socks4 is None && t.connect80 is None ==> proto_for(
            t,
            Scheme::Https,
        ) == Proto::Https,
        t.http is None && t.connect80 is None && t.socks5 is None && t.socks4 is None ==> proto_for(
            t,
            Scheme::Http,
        ) == Proto::Http,
{
    reveal_with_fuel(first_of, 5);
    let w = preferred(Scheme::Https);
    assert(w.skip(1) =~= seq![Proto::Socks5, Proto::Socks4, Proto::Connect80]);
    assert(w.skip(1).skip(1) =~= seq![Proto::Socks4, Proto::Connect80]);
    assert(w.skip(1).skip(1).skip(1) =~= seq![Proto::Connect80]);
    assert(w.skip(1).skip(1).skip(1).skip(1) =~= Seq::empty());
    let v = preferred(Scheme::Http);
    assert(v.skip(1) =~= seq![Proto::Connect80, Proto::Socks5, Proto::Socks4]);
    assert(v.skip(1).skip(1) =~= seq![Proto::Socks5, Proto::Socks4]);
    assert(v.skip(1).skip(1).skip(1) =~= seq![Proto::Socks4]);
    assert(v.skip(1).skip(1).skip(1).skip(1) =~= Seq::empty());
}

} // verus!

//! The server's side of a SOCKS version 5 handshake.
//!
//! The handshake is a machine: each stage says how many bytes it wants, and from those bytes come
//! the bytes to answer with and the next stage. The version byte of the greeting has been read
//! before the first stage.
use crate::addr;
use crate::addr::IpAddr;
use crate::server::auth::{AuthExpect, AuthView};
use crate::server::http;
use crate::server::http::{ClientRequest, Frontend, RequestView};
use crate::text;
use crate::types::Scheme;
use vstd::prelude::*;
use vstd::string::*;
use vstd::utf8::*;

verus! {

/// The first byte of a SOCKS version 5 greeting; any other byte starts an HTTP request.
pub const VERSION: u8 = 5;

/// Where a handshake stands.
#[derive(Debug, PartialEq, Eq)]
pub enum Stage {
    /// Wants the number of methods offered.
    MethodCount,
    /// Wants that many methods.
    Methods(u8),
    /// Wants the version of the login and the length of the user's name.
    UserHead,
    /// Wants the user's name.
    User(u8),
    /// Wants the length of the password.
    PassLen(Vec<u8>),
    /// Wants the password.
    Pass(Vec<u8>, u8),
    /// Wants the version, the command, a reserved byte and the kind of address.
    Command,
    /// Wants an address of version 4.
    Host4,
    /// Wants an address of version 6.
    Host6,
    /// Wants the length of a host's name.
    NameLen,
    /// Wants a host's name.
    Name(u8),
    /// Wants the port.
    Port(String),
}

/// The contents of a [`Stage`].
pub enum StageView {
    MethodCount,
    Methods(u8),
    UserHead,
    User(u8),
    PassLen(Seq<u8>),
    Pass(Seq<u8>, u8),
    Command,
    Host4,
    Host6,
    NameLen,
    Name(u8),
    Port(Seq<char>),
}

impl View for Stage {
    type V = StageView;

    open spec fn view(&self) -> StageView {
        match self {
            Stage::MethodCount => StageView::MethodCount,
            Stage::Methods(n) => StageView::Methods(*n),
            Stage::UserHead => StageView::UserHead,
            Stage::User(n) => StageView::User(*n),
            Stage::PassLen(user) => StageView::PassLen(user@),
            Stage::Pass(user, n) => StageView::Pass(user@, *n),
            Stage::Command => StageView::Command,
            Stage::Host4 => StageView::Host4,
            Stage::Host6 => StageView::Host6,
            Stage::NameLen => StageView::NameLen,
            Stage::Name(n) => StageView::Name(*n),
            Stage::Port(host) => StageView::Port(host@),
        }
    }
}

impl StageView {
    /// How many bytes the stage wants.
    pub open spec fn wants(self) -> nat {
        match self {
            StageView::MethodCount => 1,
            StageView::Methods(n) => n as nat,
            StageView::UserHead => 2,
            StageView::User(n) => n as nat,
            StageView::PassLen(_) => 1,
            StageView::Pass(_, n) => n as nat,
            StageView::Command => 4,
            StageView::Host4 => 4,
            StageView::Host6 => 16,
            StageView::NameLen => 1,
            StageView::Name(n) => n as nat,
            StageView::Port(_) => 2,
        }
    }

    /// How many stages may still come before the handshake ends.
    pub open spec fn left(self) -> nat {
        match self {
            StageView::MethodCount => 10,
            StageView::Methods(_) => 9,
            StageView::UserHead => 8,
            StageView::User(_) => 7,
            StageView::PassLen(_) => 6,
            StageView::Pass(_, _) => 5,
            StageView::Command => 4,
            StageView::Host4 => 3,
            StageView::Host6 => 3,
            StageView::NameLen => 3,
            StageView::Name(_) => 2,
            StageView::Port(_) => 1,
        }
    }
}

/// What follows a step of the handshake.
#[derive(Debug, PartialEq, Eq)]
pub enum Next {
    /// Read what the stage wants.
    Read(Stage),
    /// The client is let in.
    Accept(ClientRequest),
    /// The client is turned away.
    Reject,
}

/// The contents of a [`Next`].
pub enum NextView {
    Read(StageView),
    Accept(RequestView),
    Reject,
}

impl View for Next {
    type V = NextView;

    open spec fn view(&self) -> NextView {
        match self {
            Next::Read(s) => NextView::Read(s@),
            Next::Accept(r) => NextView::Accept(r@),
            Next::Reject => NextView::Reject,
        }
    }
}

/// A step of the handshake: what to send, and what follows.
#[derive(Debug, PartialEq, Eq)]
pub struct Step {
    pub reply: Vec<u8>,
    pub next: Next,
}

/// The contents of a [`Step`].
pub struct StepView {
    pub reply: Seq<u8>,
    pub next: NextView,
}

impl View for Step {
    type V = StepView;

    open spec fn view(&self) -> StepView {
        StepView { reply: self.reply@, next: self.next@ }
    }
}

/// A reply of the form that answers a command: the code, and an address of noughts.
pub open spec fn reply_bytes(code: u8) -> Seq<u8> {
    seq![5u8, code, 0u8, 1u8, 0u8, 0u8, 0u8, 0u8, 0u8, 0u8]
}

/// The number that bytes stand for, the first byte on top.
pub open spec fn be_value(b: Seq<u8>) -> nat
    decreases b.len(),
{
    if b.len() == 0 {
        0
    } else {
        be_value(b.drop_last()) * 256 + b.last() as nat
    }
}

/// The contents of optional credentials.
pub open spec fn auth_view(auth: Option<&AuthExpect>) -> Option<AuthView> {
    match auth {
        Some(a) => Some(a@),
        None => None,
    }
}

/// The request of a client that was let in: a tunnel to `host` and `port`.
pub open spec fn tunnel(host: Seq<char>, port: u16) -> RequestView {
    RequestView {
        scheme: Scheme::Https,
        frontend: Frontend::Socks5,
        host,
        port,
        raw: Seq::empty(),
        proxy_auth: None,
        path: host + seq![':'] + text::decimal(port as nat),
    }
}

/// A step that sends nothing and reads on.
pub open spec fn read_on(s: StageView) -> StepView {
    StepView { reply: Seq::empty(), next: NextView::Read(s) }
}

/// What each stage does with the bytes it wanted. Without credentials to ask for, the client must
/// offer to go without (`0`); with them, it must offer a name and a password (`2`) and get both
/// right. Only the command to connect (`1`) is carried out; the three kinds of address are
/// version 4 (`1`), a name (`3`) and version 6 (`4`).
pub open spec fn step_of(s: StageView, b: Seq<u8>, auth: Option<AuthView>) -> StepView {
    match s {
        StageView::MethodCount => read_on(StageView::Methods(b[0])),
        StageView::Methods(_) => {
            let (method, after) = match auth {
                None => (0u8, StageView::Command),
                Some(_) => (2u8, StageView::UserHead),
            };
            if b.contains(method) {
                StepView { reply: seq![5u8, method], next: NextView::Read(after) }
            } else {
                StepView { reply: seq![5u8, 255u8], next: NextView::Reject }
            }
        },
        StageView::UserHead => read_on(StageView::User(b[1])),
        StageView::User(_) => read_on(StageView::PassLen(b)),
        StageView::PassLen(user) => read_on(StageView::Pass(user, b[0])),
        StageView::Pass(user, _) => {
            let right = match auth {
                Some(a) => user == encode_utf8(a.user) && b == encode_utf8(a.pass),
                None => false,
            };
            if right {
                StepView { reply: seq![1u8, 0u8], next: NextView::Read(StageView::Command) }
            } else {
                StepView { reply: seq![1u8, 1u8], next: NextView::Reject }
            }
        },
        StageView::Command => {
            if b[0] != 5 {
                StepView { reply: Seq::empty(), next: NextView::Reject }
            } else if b[1] != 1 {
                StepView { reply: reply_bytes(7), next: NextView::Reject }
            } else if b[3] == 1 {
                read_on(StageView::Host4)
            } else if b[3] == 4 {
                read_on(StageView::Host6)
            } else if b[3] == 3 {
                read_on(StageView::NameLen)
            } else {
                StepView { reply: reply_bytes(8), next: NextView::Reject }
            }
        },
        StageView::Host4 => read_on(StageView::Port(addr::v4_text(be_value(b) as u32))),
        StageView::Host6 => read_on(StageView::Port(addr::v6_text(be_value(b) as u128))),
        StageView::NameLen => read_on(StageView::Name(b[0])),
        StageView::Name(_) => read_on(StageView::Port(http::lossy(b))),
        StageView::Port(host) => StepView {
            reply: Seq::empty(),
            next: NextView::Accept(tunnel(host, (b[0] as int * 256 + b[1] as int) as u16)),
        },
    }
}

/// How many numbers `n` bytes can stand for.
pub open spec fn byte_weight(n: nat) -> nat
    decreases n,
{
    if n == 0 {
        1
    } else {
        256 * byte_weight((n - 1) as nat)
    }
}

proof fn lemma_be_value_bound(b: Seq<u8>)
    ensures
        be_value(b) < byte_weight(b.len()),
    decreases b.len(),
{
    if b.len() > 0 {
        lemma_be_value_bound(b.drop_last());
    }
}

proof fn lemma_weight_grows(m: nat, n: nat)
    requires
        m <= n,
    ensures
        1 <= byte_weight(m) <= byte_weight(n),
    decreases n,
{
    if m < n {
        lemma_weight_grows(m, (n - 1) as nat);
    } else if n > 0 {
        lemma_weight_grows((m - 1) as nat, (n - 1) as nat);
    }
}

proof fn lemma_weights()
    ensures
        byte_weight(4) == 0x1_0000_0000,
        byte_weight(16) == 0x1_0000_0000_0000_0000_0000_0000_0000_0000,
{
    reveal_with_fuel(byte_weight, 5);
    assert(byte_weight(4) == 0x1_0000_0000);
    assert(byte_weight(8) == 0x1_0000_0000_0000_0000);
    assert(byte_weight(12) == 0x1_0000_0000_0000_0000_0000_0000);
}

/// The number that at most sixteen bytes stand for, the first byte on top.
fn be_number(b: &[u8]) -> (out: u128)
    requires
        b@.len() <= 16,
    ensures
        out == be_value(b@),
{
    let mut out: u128 = 0;
    let mut i: usize = 0;
    while i < b.len()
        invariant
            i <= b@.len() <= 16,
            out == be_value(b@.take(i as int)),
        decreases b@.len() - i,
    {
        proof {
            assert(b@.take(i + 1).drop_last() =~= b@.take(i as int));
            lemma_be_value_bound(b@.take(i + 1));
            lemma_weight_grows((i + 1) as nat, 16);
            lemma_weights();
        }
        out = out * 256 + b[i] as u128;
        i += 1;
    }
    assert(b@.take(i as int) =~= b@);
    out
}

fn holds_byte(b: &[u8], x: u8) -> (yes: bool)
    ensures
        yes == b@.contains(x),
{
    let mut i: usize = 0;
    while i < b.len()
        invariant
            i <= b@.len(),
            forall|j: int| 0 <= j < i ==> b@[j] != x,
        decreases b@.len() - i,
    {
        if b[i] == x {
            assert(b@[i as int] == x);
            return true;
        }
        i += 1;
    }
    false
}

fn same_bytes(a: &[u8], b: &[u8]) -> (same: bool)
    ensures
        same == (a@ == b@),
{
    if a.len() != b.len() {
        return false;
    }
    let mut i: usize = 0;
    while i < a.len()
        invariant
            i <= a@.len() == b@.len(),
            forall|j: int| 0 <= j < i ==> a@[j] == b@[j],
        decreases a@.len() - i,
    {
        if a[i] != b[i] {
            return false;
        }
        i += 1;
    }
    assert(a@ =~= b@);
    true
}

fn bytes_of(b: &[u8]) -> (out: Vec<u8>)
    ensures
        out@ == b@,
{
    vstd::slice::slice_to_vec(b)
}

fn two(a: u8, b: u8) -> (out: Vec<u8>)
    ensures
        out@ == seq![a, b],
{
    let mut out: Vec<u8> = Vec::new();
    out.push(a);
    out.push(b);
    assert(out@ =~= seq![a, b]);
    out
}

/// A reply of the form that answers a command: the code, and an address of noughts.
pub fn command_reply(code: u8) -> (out: Vec<u8>)
    ensures
        out@ == reply_bytes(code),
{
    let mut out = two(5, code);
    out.push(0);
    out.push(1);
    out.push(0);
    out.push(0);
    out.push(0);
    out.push(0);
    out.push(0);
    out.push(0);
    assert(out@ =~= reply_bytes(code));
    out
}

fn silent(stage: Stage) -> (out: Step)
    ensures
        out@ == read_on(stage@),
{
    let reply: Vec<u8> = Vec::new();
    assert(reply@ =~= Seq::empty());
    Step { reply, next: Next::Read(stage) }
}

fn reject(reply: Vec<u8>) -> (out: Step)
    ensures
        out@ == (StepView { reply: reply@, next: NextView::Reject }),
{
    Step { reply, next: Next::Reject }
}

impl Stage {
    /// How many bytes to read for this stage.
    pub fn wanted(&self) -> (n: usize)
        ensures
            n == self@.wants(),
    {
        match self {
            Stage::MethodCount => 1,
            Stage::Methods(n) => *n as usize,
            Stage::UserHead => 2,
            Stage::User(n) => *n as usize,
            Stage::PassLen(_) => 1,
            Stage::Pass(_, n) => *n as usize,
            Stage::Command => 4,
            Stage::Host4 => 4,
            Stage::Host6 => 16,
            Stage::NameLen => 1,
            Stage::Name(n) => *n as usize,
            Stage::Port(_) => 2,
        }
    }

    /// Take in the bytes that this stage wanted.
    pub fn step(self, chunk: &[u8], auth: Option<&AuthExpect>) -> (out: Step)
        requires
            chunk@.len() == self@.wants(),
        ensures
            out@ == step_of(self@, chunk@, auth_view(auth)),
    {
        match self {
            Stage::MethodCount => silent(Stage::Methods(chunk[0])),
            Stage::Methods(_) => {
                let (method, after): (u8, Stage) = match auth {
                    None => (0, Stage::Command),
                    Some(_) => (2, Stage::UserHead),
                };
                if holds_byte(chunk, method) {
                    Step { reply: two(5, method), next: Next::Read(after) }
                } else {
                    reject(two(5, 255))
                }
            },
            Stage::UserHead => silent(Stage::User(chunk[1])),
            Stage::User(_) => silent(Stage::PassLen(bytes_of(chunk))),
            Stage::PassLen(user) => silent(Stage::Pass(user, chunk[0])),
            Stage::Pass(user, _) => {
                let right = match auth {
                    Some(a) => same_bytes(user.as_slice(), a.user.as_str().as_bytes())
                        && same_bytes(chunk, a.pass.as_str().as_bytes()),
                    None => false,
                };
                if right {
                    Step { reply: two(1, 0), next: Next::Read(Stage::Command) }
                } else {
                    reject(two(1, 1))
                }
            },
            Stage::Command => {
                if chunk[0] != 5 {
                    let reply: Vec<u8> = Vec::new();
                    assert(reply@ =~= Seq::empty());
                    reject(reply)
                } else if chunk[1] != 1 {
                    reject(command_reply(7))
                } else if chunk[3] == 1 {
                    silent(Stage::Host4)
                } else if chunk[3] == 4 {
                    silent(Stage::Host6)
                } else if chunk[3] == 3 {
                    silent(Stage::NameLen)
                } else {
                    reject(command_reply(8))
                }
            },
            Stage::Host4 => {
                proof {
                    lemma_be_value_bound(chunk@);
                    lemma_weights();
                }
                let host = IpAddr::V4(be_number(chunk) as u32);
                silent(Stage::Port(host.to_text()))
            },
            Stage::Host6 => {
                let host = IpAddr::V6(be_number(chunk));
                silent(Stage::Port(host.to_text()))
            },
            Stage::NameLen => silent(Stage::Name(chunk[0])),
            Stage::Name(_) => silent(Stage::Port(http::lossy_text(chunk))),
            Stage::Port(host) => {
                let port: u16 = chunk[0] as u16 * 256 + chunk[1] as u16;
                let mut path = host.clone();
                path.push(':');
                text::push_decimal(&mut path, port as u64);
                let raw: Vec<u8> = Vec::new();
                let reply: Vec<u8> = Vec::new();
                assert(raw@ =~= Seq::empty());
                assert(reply@ =~= Seq::empty());
                assert(path@ =~= host@ + seq![':'] + text::decimal(port as nat));
                Step {
                    reply,
                    next: Next::Accept(
                        ClientRequest {
                            scheme: Scheme::Https,
                            frontend: Frontend::Socks5,
                            host,
                            port,
                            raw,
                            proxy_auth: None,
                            path,
                        },
                    ),
                }
            },
        }
    }
}

/// How a handshake went on a stream of bytes.
pub struct Handshake {
    /// All that was sent to the client.
    pub written: Seq<u8>,
    pub end: End,
}

/// Where a handshake ended.
pub enum End {
    /// The stream ended first.
    Unfinished,
    /// The client was let in.
    Accepted(RequestView),
    /// The client was turned away.
    Rejected,
}

/// The whole handshake from stage `s` on, on a stream of bytes.
#[verifier::opaque]
pub open spec fn handshake(s: StageView, input: Seq<u8>, auth: Option<AuthView>) -> Handshake
    decreases s.left(),
{
    if input.len() < s.wants() {
        Handshake { written: Seq::empty(), end: End::Unfinished }
    } else {
        let step = step_of(s, input.take(s.wants() as int), auth);
        match step.next {
            NextView::Accept(r) => Handshake { written: step.reply, end: End::Accepted(r) },
            NextView::Reject => Handshake { written: step.reply, end: End::Rejected },
            NextView::Read(t) => {
                if t.left() < s.left() {
                    let rest = handshake(t, input.skip(s.wants() as int), auth);
                    Handshake { written: step.reply + rest.written, end: rest.end }
                } else {
                    Handshake { written: step.reply, end: End::Unfinished }
                }
            },
        }
    }
}

/// Every step brings the handshake nearer to its end: after ten at the latest it is over.
pub proof fn law_stages_never_go_back(s: StageView, b: Seq<u8>, auth: Option<AuthView>)
    ensures
        step_of(s, b, auth).next matches NextView::Read(t) ==> t.left() < s.left(),
{
}

/// A step that reads on leaves the rest of the handshake to the next stage.
proof fn lemma_reads_on(s: StageView, chunk: Seq<u8>, rest: Seq<u8>, auth: Option<AuthView>)
    requires
        chunk.len() == s.wants(),
        step_of(s, chunk, auth).next is Read,
    ensures
        ({
            let step = step_of(s, chunk, auth);
            let after = handshake(step.next->Read_0, rest, auth);
            &&& handshake(s, chunk + rest, auth).end == after.end
            &&& handshake(s, chunk + rest, auth).written == step.reply + after.written
        }),
{
    reveal(handshake);
    assert((chunk + rest).take(chunk.len() as int) =~= chunk);
    assert((chunk + rest).skip(chunk.len() as int) =~= rest);
}

/// A handshake that ends well and not at once went through a next stage.
proof fn lemma_went_through(s: StageView, input: Seq<u8>, at: int, auth: Option<AuthView>)
    requires
        0 <= at <= input.len(),
        handshake(s, input.skip(at), auth).end is Accepted,
        !(s is Port),
    ensures
        at + s.wants() <= input.len(),
        step_of(s, input.subrange(at, at + s.wants()), auth).next is Read,
        handshake(
            step_of(s, input.subrange(at, at + s.wants()), auth).next->Read_0,
            input.skip(at + s.wants()),
            auth,
        ).end is Accepted,
{
    reveal(handshake);
    let n = s.wants() as int;
    if input.skip(at).len() >= n {
        assert(input.skip(at).take(n) =~= input.subrange(at, at + n));
        assert(input.skip(at).skip(n) =~= input.skip(at + n));
    }
}

/// A client that must log in is let in only if it offered to, if the name and the password that it
/// sent are those expected, byte for byte, and if it asked to connect.
pub proof fn law_accepted_login_was_right(input: Seq<u8>, auth: AuthView)
    requires
        handshake(StageView::MethodCount, input, Some(auth)).end is Accepted,
    ensures
        ({
            let n = input[0] as int;
            let u = input[n + 2] as int;
            let p = input[n + 3 + u] as int;
            &&& input.len() >= n + 4 + u + p + 4
            &&& input.subrange(1, n + 1).contains(2u8)
            &&& input.subrange(n + 3, n + 3 + u) == encode_utf8(auth.user)
            &&& input.subrange(n + 4 + u, n + 4 + u + p) == encode_utf8(auth.pass)
            &&& input[n + 4 + u + p] == 5
            &&& input[n + 4 + u + p + 1] == 1
        }),
{
    let a = Some(auth);
    assert(input.skip(0) =~= input);
    lemma_went_through(StageView::MethodCount, input, 0, a);
    let n = input[0];
    assert(input.subrange(0, 1)[0] == n);
    lemma_went_through(StageView::Methods(n), input, 1, a);
    lemma_went_through(StageView::UserHead, input, n + 1, a);
    let u = input[n + 2];
    assert(input.subrange(n + 1, n + 3)[1] == u);
    lemma_went_through(StageView::User(u), input, n + 3, a);
    let user = input.subrange(n + 3, n + 3 + u);
    lemma_went_through(StageView::PassLen(user), input, n + 3 + u, a);
    let p = input[n + 3 + u];
    assert(input.subrange(n + 3 + u, n + 4 + u)[0] == p);
    lemma_went_through(StageView::Pass(user, p), input, n + 4 + u, a);
    let c = n + 4 + u + p;
    lemma_went_through(StageView::Command, input, c, a);
    assert(input.subrange(c, c + 4)[0] == input[c]);
    assert(input.subrange(c, c + 4)[1] == input[c + 1]);
}

/// A client whose login is wrong is told so and turned away.
pub proof fn law_wrong_login_is_refused(user: Seq<u8>, pass: Seq<u8>, rest: Seq<u8>, auth: AuthView)
    requires
        pass.len() <= 255,
        user != encode_utf8(auth.user) || pass != encode_utf8(auth.pass),
    ensures
        ({
            let h = handshake(StageView::Pass(user, pass.len() as u8), pass + rest, Some(auth));
            h.end is Rejected && h.written == seq![1u8, 1u8]
        }),
{
    reveal(handshake);
    assert((pass + rest).take(pass.len() as int) =~= pass);
}

proof fn lemma_port_accepts(host: Seq<char>, port: u16)
    ensures
        handshake(
            StageView::Port(host),
            seq![(port / 256) as u8, (port % 256) as u8],
            None::<AuthView>,
        ) == (Handshake { written: Seq::<u8>::empty(), end: End::Accepted(tunnel(host, port)) }),
{
    reveal(handshake);
    let tail = seq![(port / 256) as u8, (port % 256) as u8];
    assert(tail.take(2) =~= tail);
}

/// The bytes by which a client that needs no login asks for a tunnel to a host by name.
pub open spec fn name_request(methods: Seq<u8>, name: Seq<u8>, port: u16) -> Seq<u8> {
    seq![methods.len() as u8] + (methods + (seq![5u8, 1u8, 0u8, 3u8] + (seq![name.len() as u8] + (
    name + seq![(port / 256) as u8, (port % 256) as u8]))))
}

/// Where no login is asked for, a client that offers to go without and asks for a tunnel to a host
/// by name is let in, for that host and port.
pub proof fn law_named_host_is_accepted(methods: Seq<u8>, name: Seq<u8>, port: u16)
    requires
        methods.len() <= 255,
        methods.contains(0u8),
        name.len() <= 255,
    ensures
        ({
            let h = handshake(StageView::MethodCount, name_request(methods, name, port), None);
            &&& h.end == End::Accepted(tunnel(http::lossy(name), port))
            &&& h.written == seq![5u8, 0u8]
        }),
{
    let input = name_request(methods, name, port);
    let n = methods.len() as u8;
    let m = name.len() as u8;
    let cmd = seq![5u8, 1u8, 0u8, 3u8];
    let tail = seq![(port / 256) as u8, (port % 256) as u8];
    let none = None::<AuthView>;
    let host = http::lossy(name);
    let i4 = name + tail;
    let i3 = seq![m] + i4;
    let i2 = cmd + i3;
    let i1 = methods + i2;
    assert(input == seq![n] + i1);
    lemma_port_accepts(host, port);
    assert(step_of(StageView::Name(m), name, none) == read_on(StageView::Port(host)));
    lemma_reads_on(StageView::Name(m), name, tail, none);
    assert(step_of(StageView::NameLen, seq![m], none) == read_on(StageView::Name(m)));
    lemma_reads_on(StageView::NameLen, seq![m], i4, none);
    assert(step_of(StageView::Command, cmd, none) == read_on(StageView::NameLen));
    lemma_reads_on(StageView::Command, cmd, i3, none);
    lemma_reads_on(StageView::Methods(n), methods, i2, none);
    assert(step_of(StageView::MethodCount, seq![n], none) == read_on(StageView::Methods(n)));
    lemma_reads_on(StageView::MethodCount, seq![n], i1, none);
    assert(handshake(StageView::MethodCount, input, none).written =~= seq![5u8, 0u8]);
}

/// The request of a client of SOCKS is a tunnel to the host and port that it named.
pub proof fn law_tunnel_is_to_the_named_host(host: Seq<char>, port: u16)
    ensures
        tunnel(host, port).host == host,
        tunnel(host, port).port == port,
        tunnel(host, port).scheme == Scheme::Https,
        tunnel(host, port).frontend == Frontend::Socks5,
        tunnel(host, port).raw == Seq::<u8>::empty(),
        tunnel(host, port).proxy_auth is None,
        tunnel(host, port).path == host + seq![':'] + text::decimal(port as nat),
{
}

/// Without a login the client must offer to go without one; with one it must offer a name and a
/// password. One that does not is told so and turned away.
pub proof fn law_method_is_agreed_on(n: u8, methods: Seq<u8>, auth: Option<AuthView>)
    ensures
        ({
            let step = step_of(StageView::Methods(n), methods, auth);
            &&& auth is None && methods.contains(0u8) ==> step.reply == seq![5u8, 0u8] && step.next
                == NextView::Read(StageView::Command)
            &&& auth is Some && methods.contains(2u8) ==> step.reply == seq![5u8, 2u8] && step.next
                == NextView::Read(StageView::UserHead)
            &&& auth is None && !methods.contains(0u8) ==> step.reply == seq![5u8, 255u8] && step.next
                is Reject
            &&& auth is Some && !methods.contains(2u8) ==> step.reply == seq![5u8, 255u8] && step.next
                is Reject
        }),
{
}

/// A client whose name and password are both right is told so and may give its command.
pub proof fn law_right_login_goes_on(auth: AuthView, n: u8)
    ensures
        ({
            let step = step_of(
                StageView::Pass(encode_utf8(auth.user), n),
                encode_utf8(auth.pass),
                Some(auth),
            );
            step.reply == seq![1u8, 0u8] && step.next == NextView::Read(StageView::Command)
        }),
{
}

/// Only the command to connect is carried out, for an address of either version or a host by name;
/// any other command or kind of address is answered with its own code, and another version with
/// nothing.
pub proof fn law_only_connecting_is_served(a: u8, c: u8, r: u8, kind: u8, auth: Option<AuthView>)
    ensures
        ({
            let step = step_of(StageView::Command, seq![a, c, r, kind], auth);
            &&& a == 5 && c == 1 && kind == 1 ==> step == read_on(StageView::Host4)
            &&& a == 5 && c == 1 && kind == 3 ==> step == read_on(StageView::NameLen)
            &&& a == 5 && c == 1 && kind == 4 ==> step == read_on(StageView::Host6)
            &&& a == 5 && c == 1 && kind != 1 && kind != 3 && kind != 4 ==> step.next is Reject
                && step.reply == seq![5u8, 8, 0, 1, 0, 0, 0, 0, 0, 0]
            &&& a == 5 && c != 1 ==> step.next is Reject && step.reply == seq![
                5u8,
                7,
                0,
                1,
                0,
                0,
                0,
                0,
                0,
                0,
            ]
            &&& a != 5 ==> step.next is Reject && step.reply == Seq::<u8>::empty()
        }),
{
    assert(reply_bytes(8) =~= seq![5u8, 8, 0, 1, 0, 0, 0, 0, 0, 0]);
    assert(reply_bytes(7) =~= seq![5u8, 7, 0, 1, 0, 0, 0, 0, 0, 0]);
}

/// The bytes of an address stand for the number with the first byte on top.
pub proof fn law_bytes_are_most_significant_first(b: Seq<u8>, x: u8)
    ensures
        be_value(Seq::<u8>::empty()) == 0,
        be_value(b.push(x)) == be_value(b) * 256 + x,
{
    assert(b.push(x).drop_last() =~= b);
}

/// A client that asks for an address of version 4 or 6 asks for the host with that address in text,
/// and the port that follows has its high byte first.
pub proof fn law_numeric_host_is_named_in_text(
    a: u32,
    b: u128,
    four: Seq<u8>,
    sixteen: Seq<u8>,
    host: Seq<char>,
    port: u16,
    auth: Option<AuthView>,
)
    requires
        four.len() == 4,
        be_value(four) == a,
        sixteen.len() == 16,
        be_value(sixteen) == b,
    ensures
        step_of(StageView::Host4, four, auth) == read_on(StageView::Port(IpAddr::V4(a).text())),
        step_of(StageView::Host6, sixteen, auth) == read_on(StageView::Port(IpAddr::V6(b).text())),
        step_of(
            StageView::Port(host),
            seq![(port / 256) as u8, (port % 256) as u8],
            auth,
        ).next == NextView::Accept(tunnel(host, port)),
{
}

/// Each part of a handshake is as long as the byte before it says, and the fixed parts as long as
/// the protocol has them.
pub proof fn law_parts_are_as_long_as_announced(n: u8, s: Seq<u8>, host: Seq<char>, auth: Option<AuthView>)
    ensures
        step_of(StageView::MethodCount, seq![n], auth) == read_on(StageView::Methods(n)),
        step_of(StageView::UserHead, seq![1u8, n], auth) == read_on(StageView::User(n)),
        step_of(StageView::User(n), s, auth) == read_on(StageView::PassLen(s)),
        step_of(StageView::PassLen(s), seq![n], auth) == read_on(StageView::Pass(s, n)),
        step_of(StageView::NameLen, seq![n], auth) == read_on(StageView::Name(n)),
        step_of(StageView::Name(n), encode_utf8(host), auth) == read_on(StageView::Port(host)),
        read_on(StageView::Name(n)).reply == Seq::<u8>::empty(),
        StageView::MethodCount.wants() == 1,
        StageView::Methods(n).wants() == n,
        StageView::UserHead.wants() == 2,
        StageView::User(n).wants() == n,
        StageView::PassLen(s).wants() == 1,
        StageView::Pass(s, n).wants() == n,
        StageView::Command.wants() == 4,
        StageView::Host4.wants() == 4,
        StageView::Host6.wants() == 16,
        StageView::NameLen.wants() == 1,
        StageView::Name(n).wants() == n,
        StageView::Port(host).wants() == 2,
{
    encode_utf8_valid_utf8(host);
    encode_utf8_decode_utf8(host);
}

} // verus!

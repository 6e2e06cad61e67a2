//! The vocabulary shared by every part: protocols, anonymity levels, errors, time spans.
use crate::text;
use vstd::prelude::*;
use vstd::string::*;

verus! {

/// A protocol that a proxy speaks.
#[derive(Clone, Copy, Debug, PartialEq, Eq, PartialOrd, Ord, Hash, Structural)]
pub enum Proto {
    Http,
    Https,
    Socks4,
    Socks5,
    Connect80,
    Connect25,
}

/// How much of the client a proxy hides.
#[derive(Clone, Copy, Debug, PartialEq, Eq, PartialOrd, Ord, Hash, Structural)]
pub enum AnonLevel {
    Transparent,
    Anonymous,
    High,
}

/// The kind of traffic that a client wants carried.
#[derive(Clone, Copy, Debug, PartialEq, Eq, PartialOrd, Ord, Hash, Structural)]
pub enum Scheme {
    Http,
    Https,
}

/// The name of a protocol or level was not understood.
#[derive(Clone, Copy, Debug, PartialEq, Eq, Structural)]
pub struct ParseProtoError;

impl Proto {
    /// Every protocol, in the order in which maps and sets list them.
    pub open spec fn all() -> Seq<Proto> {
        seq![
            Proto::Http,
            Proto::Https,
            Proto::Socks4,
            Proto::Socks5,
            Proto::Connect80,
            Proto::Connect25,
        ]
    }

    /// The protocol's name.
    pub open spec fn name(self) -> Seq<char> {
        match self {
            Proto::Http => "HTTP"@,
            Proto::Https => "HTTPS"@,
            Proto::Socks4 => "SOCKS4"@,
            Proto::Socks5 => "SOCKS5"@,
            Proto::Connect80 => "CONNECT:80"@,
            Proto::Connect25 => "CONNECT:25"@,
        }
    }

    /// The protocol that has this name.
    pub open spec fn named(s: Seq<char>) -> Option<Proto> {
        if s == "HTTP"@ {
            Some(Proto::Http)
        } else if s == "HTTPS"@ {
            Some(Proto::Https)
        } else if s == "SOCKS4"@ {
            Some(Proto::Socks4)
        } else if s == "SOCKS5"@ {
            Some(Proto::Socks5)
        } else if s == "CONNECT:80"@ {
            Some(Proto::Connect80)
        } else if s == "CONNECT:25"@ {
            Some(Proto::Connect25)
        } else {
            None
        }
    }

    /// Every protocol, in the order in which maps and sets list them.
    pub fn list() -> (out: Vec<Proto>)
        ensures
            out@ == Proto::all(),
    {
        let mut out: Vec<Proto> = Vec::new();
        out.push(Proto::Http);
        out.push(Proto::Https);
        out.push(Proto::Socks4);
        out.push(Proto::Socks5);
        out.push(Proto::Connect80);
        out.push(Proto::Connect25);
        assert(out@ =~= Proto::all());
        out
    }

    /// The protocol's name.
    pub fn as_str(self) -> (out: &'static str)
        ensures
            out@ == self.name(),
    {
        match self {
            Proto::Http => "HTTP",
            Proto::Https => "HTTPS",
            Proto::Socks4 => "SOCKS4",
            Proto::Socks5 => "SOCKS5",
            Proto::Connect80 => "CONNECT:80",
            Proto::Connect25 => "CONNECT:25",
        }
    }
}

impl AnonLevel {
    /// The level's name.
    pub open spec fn name(self) -> Seq<char> {
        match self {
            AnonLevel::Transparent => "Transparent"@,
            AnonLevel::Anonymous => "Anonymous"@,
            AnonLevel::High => "High"@,
        }
    }

    /// The level that has this name.
    pub open spec fn named(s: Seq<char>) -> Option<AnonLevel> {
        if s == "Transparent"@ {
            Some(AnonLevel::Transparent)
        } else if s == "Anonymous"@ {
            Some(AnonLevel::Anonymous)
        } else if s == "High"@ {
            Some(AnonLevel::High)
        } else {
            None
        }
    }

    /// The level's name.
    pub fn as_str(self) -> (out: &'static str)
        ensures
            out@ == self.name(),
    {
        match self {
            AnonLevel::Transparent => "Transparent",
            AnonLevel::Anonymous => "Anonymous",
            AnonLevel::High => "High",
        }
    }
}

/// The protocol of the given name.
pub fn parse_proto(s: &str) -> (out: Result<Proto, ParseProtoError>)
    ensures
        out == (match Proto::named(s@) {
            Some(p) => Ok::<Proto, ParseProtoError>(p),
            None => Err(ParseProtoError),
        }),
{
    if text::same_text(s, "HTTP") {
        Ok(Proto::Http)
    } else if text::same_text(s, "HTTPS") {
        Ok(Proto::Https)
    } else if text::same_text(s, "SOCKS4") {
        Ok(Proto::Socks4)
    } else if text::same_text(s, "SOCKS5") {
        Ok(Proto::Socks5)
    } else if text::same_text(s, "CONNECT:80") {
        Ok(Proto::Connect80)
    } else if text::same_text(s, "CONNECT:25") {
        Ok(Proto::Connect25)
    } else {
        Err(ParseProtoError)
    }
}

/// The anonymity level of the given name.
pub fn parse_lvl(s: &str) -> (out: Result<AnonLevel, ParseProtoError>)
    ensures
        out == (match AnonLevel::named(s@) {
            Some(l) => Ok::<AnonLevel, ParseProtoError>(l),
            None => Err(ParseProtoError),
        }),
{
    if text::same_text(s, "Transparent") {
        Ok(AnonLevel::Transparent)
    } else if text::same_text(s, "Anonymous") {
        Ok(AnonLevel::Anonymous)
    } else if text::same_text(s, "High") {
        Ok(AnonLevel::High)
    } else {
        Err(ParseProtoError)
    }
}

/// A protocol is found again by its own name.
pub proof fn law_proto_named_by_its_name(p: Proto)
    ensures
        Proto::named(p.name()) == Some(p),
{
    reveal_strlit("HTTP");
    reveal_strlit("HTTPS");
    reveal_strlit("SOCKS4");
    reveal_strlit("SOCKS5");
    reveal_strlit("CONNECT:80");
    reveal_strlit("CONNECT:25");
    assert("HTTP"@.len() == 4 && "HTTPS"@.len() == 5 && "SOCKS4"@.len() == 6 && "CONNECT:80"@.len()
        == 10);
    assert("SOCKS4"@[5] == '4' && "SOCKS5"@[5] == '5');
    assert("CONNECT:80"@[8] == '8' && "CONNECT:25"@[8] == '2');
    assert("CONNECT:25"@.len() == 10 && "SOCKS5"@.len() == 6);
}

/// A level is found again by its own name.
pub proof fn law_level_named_by_its_name(l: AnonLevel)
    ensures
        AnonLevel::named(l.name()) == Some(l),
{
    reveal_strlit("Transparent");
    reveal_strlit("Anonymous");
    reveal_strlit("High");
    assert("Transparent"@.len() == 11 && "Anonymous"@.len() == 9 && "High"@.len() == 4);
}

/// The protocols that a proxy was confirmed to speak, each with the anonymity level found, if one
/// was.
#[derive(Clone, Copy, Debug, PartialEq, Eq, Structural)]
pub struct Types {
    pub http: Option<Option<AnonLevel>>,
    pub https: Option<Option<AnonLevel>>,
    pub socks4: Option<Option<AnonLevel>>,
    pub socks5: Option<Option<AnonLevel>>,
    pub connect80: Option<Option<AnonLevel>>,
    pub connect25: Option<Option<AnonLevel>>,
}

impl Types {
    /// What is known of a protocol: `None` where it was not confirmed.
    pub open spec fn at(self, p: Proto) -> Option<Option<AnonLevel>> {
        match p {
            Proto::Http => self.http,
            Proto::Https => self.https,
            Proto::Socks4 => self.socks4,
            Proto::Socks5 => self.socks5,
            Proto::Connect80 => self.connect80,
            Proto::Connect25 => self.connect25,
        }
    }

    /// Whether a protocol was confirmed.
    pub open spec fn has(self, p: Proto) -> bool {
        self.at(p) is Some
    }

    /// The same with one protocol confirmed at a level.
    pub open spec fn with(self, p: Proto, level: Option<AnonLevel>) -> Types {
        match p {
            Proto::Http => Types { http: Some(level), ..self },
            Proto::Https => Types { https: Some(level), ..self },
            Proto::Socks4 => Types { socks4: Some(level), ..self },
            Proto::Socks5 => Types { socks5: Some(level), ..self },
            Proto::Connect80 => Types { connect80: Some(level), ..self },
            Proto::Connect25 => Types { connect25: Some(level), ..self },
        }
    }

    /// No protocol at all.
    pub open spec fn none() -> Types {
        Types {
            http: None,
            https: None,
            socks4: None,
            socks5: None,
            connect80: None,
            connect25: None,
        }
    }

    /// The confirmed protocols in order, among the first `n` of all.
    pub open spec fn keys_upto(self, n: nat) -> Seq<Proto>
        decreases n,
    {
        if n == 0 {
            Seq::empty()
        } else {
            let p = Proto::all()[n - 1];
            let before = self.keys_upto((n - 1) as nat);
            if self.has(p) {
                before.push(p)
            } else {
                before
            }
        }
    }

    /// The confirmed protocols in order.
    pub open spec fn key_seq(self) -> Seq<Proto> {
        self.keys_upto(6)
    }

    /// No protocol at all.
    pub fn new() -> (out: Types)
        ensures
            out == Types::none(),
            forall|p: Proto| !out.has(p),
    {
        Types {
            http: None,
            https: None,
            socks4: None,
            socks5: None,
            connect80: None,
            connect25: None,
        }
    }

    /// What is known of a protocol.
    pub fn get(&self, p: Proto) -> (out: Option<Option<AnonLevel>>)
        ensures
            out == self.at(p),
    {
        match p {
            Proto::Http => self.http,
            Proto::Https => self.https,
            Proto::Socks4 => self.socks4,
            Proto::Socks5 => self.socks5,
            Proto::Connect80 => self.connect80,
            Proto::Connect25 => self.connect25,
        }
    }

    /// Whether a protocol was confirmed.
    pub fn contains(&self, p: Proto) -> (out: bool)
        ensures
            out == self.has(p),
    {
        self.get(p).is_some()
    }

    /// Confirm a protocol with a level; what was known of it before is replaced.
    pub fn insert(&mut self, p: Proto, level: Option<AnonLevel>)
        ensures
            *final(self) == old(self).with(p, level),
            forall|q: Proto| #[trigger]
                final(self).at(q) == (if q == p {
                    Some(level)
                } else {
                    old(self).at(q)
                }),
    {
        match p {
            Proto::Http => self.http = Some(level),
            Proto::Https => self.https = Some(level),
            Proto::Socks4 => self.socks4 = Some(level),
            Proto::Socks5 => self.socks5 = Some(level),
            Proto::Connect80 => self.connect80 = Some(level),
            Proto::Connect25 => self.connect25 = Some(level),
        }
    }

    /// Whether no protocol was confirmed.
    pub fn is_empty(&self) -> (out: bool)
        ensures
            out == (forall|p: Proto| !self.has(p)),
    {
        let out = self.http.is_none() && self.https.is_none() && self.socks4.is_none()
            && self.socks5.is_none() && self.connect80.is_none() && self.connect25.is_none();
        if !out {
            assert(self.has(Proto::Http) || self.has(Proto::Https) || self.has(Proto::Socks4)
                || self.has(Proto::Socks5) || self.has(Proto::Connect80) || self.has(
                Proto::Connect25,
            ));
        }
        out
    }

    /// The confirmed protocols in order.
    pub fn keys(&self) -> (out: Vec<Proto>)
        ensures
            out@ == self.key_seq(),
    {
        let all = Proto::list();
        let mut out: Vec<Proto> = Vec::new();
        let mut i: usize = 0;
        while i < 6
            invariant
                i <= 6,
                all@ == Proto::all(),
                out@ == self.keys_upto(i as nat),
            decreases 6 - i,
        {
            if self.contains(all[i]) {
                out.push(all[i]);
            }
            i += 1;
        }
        out
    }
}

/// A set of protocols.
#[derive(Clone, Copy, Debug, PartialEq, Eq, Structural)]
pub struct ProtoSet {
    pub http: bool,
    pub https: bool,
    pub socks4: bool,
    pub socks5: bool,
    pub connect80: bool,
    pub connect25: bool,
}

impl ProtoSet {
    /// Whether the set holds a protocol.
    pub open spec fn has(self, p: Proto) -> bool {
        match p {
            Proto::Http => self.http,
            Proto::Https => self.https,
            Proto::Socks4 => self.socks4,
            Proto::Socks5 => self.socks5,
            Proto::Connect80 => self.connect80,
            Proto::Connect25 => self.connect25,
        }
    }

    /// The empty set.
    pub fn new() -> (out: ProtoSet)
        ensures
            forall|p: Proto| !out.has(p),
    {
        ProtoSet {
            http: false,
            https: false,
            socks4: false,
            socks5: false,
            connect80: false,
            connect25: false,
        }
    }

    /// Whether the set holds nothing.
    pub fn is_empty(&self) -> (out: bool)
        ensures
            out == (forall|p: Proto| !self.has(p)),
    {
        let out = !self.http && !self.https && !self.socks4 && !self.socks5 && !self.connect80
            && !self.connect25;
        if !out {
            assert(self.has(Proto::Http) || self.has(Proto::Https) || self.has(Proto::Socks4)
                || self.has(Proto::Socks5) || self.has(Proto::Connect80) || self.has(
                Proto::Connect25,
            ));
        }
        out
    }
}

/// A protocol that a proxy must speak, and the anonymity levels that are good enough; `None`
/// accepts any.
#[derive(Debug, PartialEq, Eq)]
pub struct TypeSpec {
    pub proto: Proto,
    pub levels: Option<Vec<AnonLevel>>,
}

/// A copy of a list of levels.
pub fn clone_levels(v: &Option<Vec<AnonLevel>>) -> (out: Option<Vec<AnonLevel>>)
    ensures
        match (out, *v) {
            (Some(a), Some(b)) => a@ == b@,
            (None, None) => true,
            _ => false,
        },
{
    match v {
        None => None,
        Some(levels) => {
            let mut out: Vec<AnonLevel> = Vec::new();
            let mut i: usize = 0;
            while i < levels.len()
                invariant
                    i <= levels@.len(),
                    out@ == levels@.take(i as int),
                decreases levels@.len() - i,
            {
                out.push(levels[i]);
                i += 1;
                assert(out@ =~= levels@.take(i as int));
            }
            assert(levels@.take(i as int) =~= levels@);
            Some(out)
        },
    }
}

/// The contents of a [`TypeSpec`].
pub open spec fn spec_view(t: TypeSpec) -> (Proto, Option<Seq<AnonLevel>>) {
    (
        t.proto,
        match t.levels {
            Some(v) => Some(v@),
            None => None,
        },
    )
}

/// The contents of a list of [`TypeSpec`]s.
pub open spec fn spec_views(v: Seq<TypeSpec>) -> Seq<(Proto, Option<Seq<AnonLevel>>)> {
    v.map_values(|t: TypeSpec| spec_view(t))
}

impl Clone for TypeSpec {
    fn clone(&self) -> (out: TypeSpec)
        ensures
            spec_view(out) == spec_view(*self),
    {
        TypeSpec { proto: self.proto, levels: clone_levels(&self.levels) }
    }
}

impl TypeSpec {
    /// A protocol at any anonymity level.
    pub fn any(proto: Proto) -> (out: TypeSpec)
        ensures
            out.proto == proto,
            out.levels is None,
    {
        TypeSpec { proto, levels: None }
    }
}

/// Why a proxy failed.
#[derive(Clone, Copy, Debug, PartialEq, Eq, Hash, Structural)]
pub enum ProxyError {
    /// Nothing came in time.
    Timeout,
    /// The connection broke while sending or receiving.
    Reset,
    /// No connection could be made.
    ConnFailed,
    /// The other side closed before it sent anything.
    EmptyRecv,
    /// The proxy refused in its own protocol.
    BadStatus,
    /// The proxy's answer made no sense.
    BadResponse,
    /// The relayed stream broke.
    ErrorOnStream,
    /// The upstream answered with a status that is not allowed.
    DisallowedStatus(u16),
}

/// Why a run could not start.
#[derive(Debug, PartialEq, Eq)]
pub enum Error {
    /// No protocol was asked for.
    NoTypes,
    /// The host's own addresses are unknown.
    ExtIpUnknown,
    /// No judge answered.
    NoJudges,
    /// The store of past runs failed.
    Persist(String),
}

/// A span of time in nanoseconds.
#[derive(Clone, Copy, Debug, PartialEq, Eq, PartialOrd, Ord, Structural)]
pub struct Duration {
    pub nanos: u128,
}

impl Duration {
    /// A span of whole seconds.
    pub fn from_secs(secs: u64) -> (out: Duration)
        ensures
            out.nanos == secs * 1_000_000_000,
    {
        Duration { nanos: secs as u128 * 1_000_000_000 }
    }

    /// A span of whole milliseconds.
    pub fn from_millis(millis: u64) -> (out: Duration)
        ensures
            out.nanos == millis * 1_000_000,
    {
        Duration { nanos: millis as u128 * 1_000_000 }
    }
}

/// How often a check is tried, on which errors it is tried again, and the wait before the first
/// repetition.
#[derive(Debug, PartialEq, Eq)]
pub struct RetryPolicy {
    pub max_tries: usize,
    pub retry_on: Vec<ProxyError>,
    pub backoff: Duration,
}

impl Clone for RetryPolicy {
    fn clone(&self) -> (out: RetryPolicy)
        ensures
            out.max_tries == self.max_tries,
            out.retry_on@ == self.retry_on@,
            out.backoff == self.backoff,
    {
        let mut retry_on: Vec<ProxyError> = Vec::new();
        let mut i: usize = 0;
        while i < self.retry_on.len()
            invariant
                i <= self.retry_on@.len(),
                retry_on@ == self.retry_on@.take(i as int),
            decreases self.retry_on@.len() - i,
        {
            retry_on.push(self.retry_on[i]);
            i += 1;
            assert(retry_on@ =~= self.retry_on@.take(i as int));
        }
        assert(self.retry_on@.take(i as int) =~= self.retry_on@);
        RetryPolicy { max_tries: self.max_tries, retry_on, backoff: self.backoff }
    }
}

impl RetryPolicy {
    /// The errors that are likely to pass.
    pub open spec fn transient_errors() -> Seq<ProxyError> {
        seq![ProxyError::Timeout, ProxyError::Reset, ProxyError::ConnFailed, ProxyError::EmptyRecv]
    }

    /// Try `max_tries` times, again only after a timeout.
    pub fn tries(max_tries: usize) -> (out: RetryPolicy)
        ensures
            out.max_tries == max_tries,
            out.retry_on@ == seq![ProxyError::Timeout],
            out.backoff.nanos == 0,
    {
        let mut retry_on: Vec<ProxyError> = Vec::new();
        retry_on.push(ProxyError::Timeout);
        assert(retry_on@ =~= seq![ProxyError::Timeout]);
        RetryPolicy { max_tries, retry_on, backoff: Duration::from_secs(0) }
    }

    /// Try `max_tries` times, again after every error that is likely to pass.
    pub fn transient(max_tries: usize) -> (out: RetryPolicy)
        ensures
            out.max_tries == max_tries,
            out.retry_on@ == RetryPolicy::transient_errors(),
            out.backoff.nanos == 0,
    {
        let mut retry_on: Vec<ProxyError> = Vec::new();
        retry_on.push(ProxyError::Timeout);
        retry_on.push(ProxyError::Reset);
        retry_on.push(ProxyError::ConnFailed);
        retry_on.push(ProxyError::EmptyRecv);
        assert(retry_on@ =~= RetryPolicy::transient_errors());
        RetryPolicy { max_tries, retry_on, backoff: Duration::from_secs(0) }
    }
}

impl Default for RetryPolicy {
    /// Three tries, again only after a timeout.
    fn default() -> (out: RetryPolicy)
        ensures
            out.max_tries == 3,
            out.retry_on@ == seq![ProxyError::Timeout],
            out.backoff.nanos == 0,
    {
        RetryPolicy::tries(3)
    }
}

/// The names of the protocols and levels, by which they are asked for and written.
pub proof fn law_names_are_these(p: Proto, l: AnonLevel)
    ensures
        p.name() == (match p {
            Proto::Http => "HTTP"@,
            Proto::Https => "HTTPS"@,
            Proto::Socks4 => "SOCKS4"@,
            Proto::Socks5 => "SOCKS5"@,
            Proto::Connect80 => "CONNECT:80"@,
            Proto::Connect25 => "CONNECT:25"@,
        }),
        l.name() == (match l {
            AnonLevel::Transparent => "Transparent"@,
            AnonLevel::Anonymous => "Anonymous"@,
            AnonLevel::High => "High"@,
        }),
{
}

/// What is found by a name has that name: no other text names a protocol or a level.
pub proof fn law_only_its_name_names_it(s: Seq<char>)
    ensures
        Proto::named(s) matches Some(p) ==> p.name() == s,
        AnonLevel::named(s) matches Some(l) ==> l.name() == s,
{
}

/// Where a protocol stands among all: `HTTP` first, `CONNECT:25` last.
pub open spec fn place(p: Proto) -> int {
    match p {
        Proto::Http => 0,
        Proto::Https => 1,
        Proto::Socks4 => 2,
        Proto::Socks5 => 3,
        Proto::Connect80 => 4,
        Proto::Connect25 => 5,
    }
}

proof fn lemma_keys_upto(t: Types, n: nat)
    requires
        n <= 6,
    ensures
        forall|k: int|
            0 <= k < t.keys_upto(n).len() ==> t.has(#[trigger] t.keys_upto(n)[k]) && place(
                t.keys_upto(n)[k],
            ) < n,
        forall|p: Proto| #[trigger] t.has(p) && place(p) < n ==> t.keys_upto(n).contains(p),
        forall|a: int, b: int|
            0 <= a < b < t.keys_upto(n).len() ==> place(#[trigger] t.keys_upto(n)[a]) < place(
                #[trigger] t.keys_upto(n)[b],
            ),
    decreases n,
{
    if n > 0 {
        lemma_keys_upto(t, (n - 1) as nat);
        let before = t.keys_upto((n - 1) as nat);
        let now = t.keys_upto(n);
        let q = Proto::all()[n - 1];
        assert(place(q) == n - 1);
        assert forall|p: Proto| #[trigger] t.has(p) && place(p) < n implies now.contains(p) by {
            if place(p) < n - 1 {
                let k = choose|k: int| 0 <= k < before.len() && before[k] == p;
                assert(now[k] == p);
            } else {
                assert(p == q);
                assert(now[now.len() - 1] == p);
            }
        }
        assert forall|a: int, b: int| 0 <= a < b < now.len() implies place(#[trigger] now[a]) < place(
            #[trigger] now[b],
        ) by {
            assert(now[a] == before[a]);
            if b < before.len() {
                assert(now[b] == before[b]);
            }
        }
    }
}

/// The confirmed protocols are listed each once, in their order, and no other with them.
pub proof fn law_confirmed_protocols_are_listed(t: Types)
    ensures
        forall|p: Proto| #[trigger] t.key_seq().contains(p) == (t.at(p) is Some),
        forall|a: int, b: int|
            0 <= a < b < t.key_seq().len() ==> place(#[trigger] t.key_seq()[a]) < place(
                #[trigger] t.key_seq()[b],
            ),
{
    lemma_keys_upto(t, 6);
    assert forall|p: Proto| #[trigger] t.key_seq().contains(p) == (t.at(p) is Some) by {
        if t.key_seq().contains(p) {
            let k = choose|k: int| 0 <= k < t.key_seq().len() && t.key_seq()[k] == p;
            assert(t.has(t.keys_upto(6)[k]));
        }
        if t.at(p) is Some {
            assert(t.has(p));
        }
    }
}

/// Confirming a protocol changes what is known of that one alone.
pub proof fn law_confirming_touches_one_protocol(t: Types, p: Proto, q: Proto, level: Option<AnonLevel>)
    ensures
        t.with(p, level).at(p) == Some(level),
        q != p ==> t.with(p, level).at(q) == t.at(q),
        !Types::none().has(q),
{
}

/// A check is repeated only after errors that are likely to pass: no answer in time, a broken or a
/// failed connection, and an answer that never came.
pub proof fn law_transient_errors_are_of_the_connection(e: ProxyError)
    ensures
        RetryPolicy::transient_errors().contains(e) <==> e == ProxyError::Timeout || e
            == ProxyError::Reset || e == ProxyError::ConnFailed || e == ProxyError::EmptyRecv,
{
    let s = RetryPolicy::transient_errors();
    assert(s[0] == ProxyError::Timeout && s[1] == ProxyError::Reset && s[2] == ProxyError::ConnFailed
        && s[3] == ProxyError::EmptyRecv);
}

} // verus!

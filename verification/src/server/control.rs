//! Requests to the server itself: dropping a proxy, and asking which one served a target.
use crate::addr;
use crate::addr::IpAddr;
use crate::addr_parse;
use crate::server::http;
use crate::server::pool;
use crate::server::pool::Pool;
use crate::server::select::Pooled;
use crate::text;
use vstd::prelude::*;
use vstd::string::*;
use vstd::utf8::*;

verus! {

/// Which proxy served a client's target last, oldest entry first.
#[derive(Debug, PartialEq, Eq)]
pub struct History {
    pub entries: Vec<(String, String)>,
}

/// How many entries a history holds before it starts over.
pub const HISTORY_CAP: usize = 10_000;

/// An entry of a history: the key and the proxy.
pub type Entry = (Seq<char>, Seq<char>);

impl View for History {
    type V = Seq<Entry>;

    open spec fn view(&self) -> Seq<Entry> {
        self.entries@.map_values(|e: (String, String)| (e.0@, e.1@))
    }
}

/// Where a key stands, from the `i`th entry on; the length where it is missing.
pub open spec fn entry_at(h: Seq<Entry>, key: Seq<char>, i: int) -> int
    decreases h.len() - i,
{
    if i < 0 || i >= h.len() {
        h.len() as int
    } else if h[i].0 == key {
        i
    } else {
        entry_at(h, key, i + 1)
    }
}

/// The proxy remembered for a key.
pub open spec fn remembered(h: Seq<Entry>, key: Seq<char>) -> Option<Seq<char>> {
    let i = entry_at(h, key, 0);
    if i < h.len() {
        Some(h[i].1)
    } else {
        None
    }
}

/// The history after a proxy was remembered for a key. A full history is emptied for a new key.
pub open spec fn with_entry(h: Seq<Entry>, key: Seq<char>, proxy: Seq<char>) -> Seq<Entry> {
    let i = entry_at(h, key, 0);
    if i < h.len() {
        h.update(i, (key, proxy))
    } else if h.len() >= HISTORY_CAP {
        seq![(key, proxy)]
    } else {
        h.push((key, proxy))
    }
}

impl History {
    /// An empty history.
    pub fn new() -> (out: History)
        ensures
            out@ == Seq::<Entry>::empty(),
    {
        let out = History { entries: Vec::new() };
        assert(out@ =~= Seq::<Entry>::empty());
        out
    }

    fn find(&self, key: &str) -> (at: usize)
        ensures
            at == entry_at(self@, key@, 0),
            at <= self.entries@.len(),
    {
        let mut i: usize = 0;
        while i < self.entries.len()
            invariant
                i <= self.entries@.len(),
                entry_at(self@, key@, 0) == entry_at(self@, key@, i as int),
            decreases self.entries@.len() - i,
        {
            assert(self@[i as int].0 == self.entries@[i as int].0@);
            if text::same_text(self.entries[i].0.as_str(), key) {
                return i;
            }
            i += 1;
        }
        i
    }

    /// Remember a proxy for a key.
    pub fn record(&mut self, key: String, proxy: String)
        ensures
            final(self)@ == with_entry(old(self)@, key@, proxy@),
    {
        let ghost before = self@;
        let ghost entry = (key@, proxy@);
        let i: usize = self.find(key.as_str());
        if i < self.entries.len() {
            self.entries.set(i, (key, proxy));
            assert(self@ =~= before.update(i as int, entry));
            return;
        }
        if self.entries.len() >= HISTORY_CAP {
            self.entries.clear();
            assert(self@ =~= Seq::<Entry>::empty());
        }
        let ghost rest = self@;
        self.entries.push((key, proxy));
        assert(self@ =~= rest.push(entry));
        assert(seq![entry] =~= Seq::<Entry>::empty().push(entry));
    }

    /// The proxy remembered for a key.
    pub fn get(&self, key: &str) -> (out: Option<String>)
        ensures
            text::text_opt(out) == remembered(self@, key@),
    {
        let i: usize = self.find(key);
        if i < self.entries.len() {
            assert(self@[i as int].1 == self.entries@[i as int].1@);
            Some(self.entries[i].1.clone())
        } else {
            None
        }
    }
}

proof fn lemma_entry_at(h: Seq<Entry>, key: Seq<char>, i: int)
    requires
        0 <= i <= h.len(),
    ensures
        i <= entry_at(h, key, i) <= h.len(),
        entry_at(h, key, i) < h.len() ==> h[entry_at(h, key, i)].0 == key,
        forall|j: int| i <= j < entry_at(h, key, i) ==> (#[trigger] h[j]).0 != key,
    decreases h.len() - i,
{
    if i < h.len() && h[i].0 != key {
        lemma_entry_at(h, key, i + 1);
    }
}

proof fn lemma_entry_is(h: Seq<Entry>, key: Seq<char>, i: int, at: int)
    requires
        0 <= i <= at < h.len(),
        h[at].0 == key,
        forall|j: int| i <= j < at ==> (#[trigger] h[j]).0 != key,
    ensures
        entry_at(h, key, i) == at,
    decreases at - i,
{
    if i < at {
        lemma_entry_is(h, key, i + 1, at);
    }
}

/// What was just remembered is found.
pub proof fn law_history_gives_back_what_was_recorded(h: Seq<Entry>, key: Seq<char>, proxy: Seq<char>)
    ensures
        remembered(with_entry(h, key, proxy), key) == Some(proxy),
{
    lemma_entry_at(h, key, 0);
    let now = with_entry(h, key, proxy);
    let i = entry_at(h, key, 0);
    let at = if i < h.len() { i } else { now.len() - 1 };
    lemma_entry_is(now, key, 0, at);
}

/// Remembering for one key leaves what is remembered for another, unless the history was full.
pub proof fn law_history_keeps_other_keys(
    h: Seq<Entry>,
    key: Seq<char>,
    proxy: Seq<char>,
    other: Seq<char>,
)
    requires
        other != key,
        h.len() < HISTORY_CAP || entry_at(h, key, 0) < h.len(),
    ensures
        remembered(with_entry(h, key, proxy), other) == remembered(h, other),
{
    lemma_entry_at(h, key, 0);
    lemma_entry_at(h, other, 0);
    let now = with_entry(h, key, proxy);
    lemma_entry_at(now, other, 0);
    let a = entry_at(h, other, 0);
    let b = entry_at(now, other, 0);
    if a < h.len() {
        assert(now[a] == h[a]);
        if b < a {
            assert(now[b].0 == h[b].0);
        }
        assert(b == a);
    } else if b < now.len() {
        assert(b < h.len() ==> now[b].0 == h[b].0);
    }
}

/// A history never holds more than its cap.
pub proof fn law_history_stays_bounded(h: Seq<Entry>, key: Seq<char>, proxy: Seq<char>)
    requires
        h.len() <= HISTORY_CAP,
    ensures
        with_entry(h, key, proxy).len() <= HISTORY_CAP,
{
    lemma_entry_at(h, key, 0);
}

/// The key under which a client's target is remembered.
pub open spec fn history_key_text(peer: IpAddr, target: Seq<char>) -> Seq<char> {
    peer.text() + seq!['-'] + target
}

/// The key under which a client's target is remembered.
pub fn history_key(peer: IpAddr, target: &str) -> (out: String)
    ensures
        out@ == history_key_text(peer, target@),
{
    let mut out = peer.to_text();
    out.push('-');
    out.append(target);
    assert(out@ =~= history_key_text(peer, target@));
    out
}

/// What a request to the server itself asks for.
#[derive(Debug, PartialEq, Eq)]
pub enum Command {
    /// Drop the proxy at this address and port.
    Remove(IpAddr, u16),
    /// Say which proxy served this target.
    History(String),
    /// Nothing that the server knows.
    Unknown,
}

/// The contents of a [`Command`].
pub enum CommandView {
    Remove(IpAddr, u16),
    History(Seq<char>),
    Unknown,
}

impl View for Command {
    type V = CommandView;

    open spec fn view(&self) -> CommandView {
        match self {
            Command::Remove(ip, p) => CommandView::Remove(*ip, *p),
            Command::History(u) => CommandView::History(u@),
            Command::Unknown => CommandView::Unknown,
        }
    }
}

/// How many slashes a text starts with.
pub open spec fn leading_slashes(s: Seq<char>) -> nat
    decreases s.len(),
{
    if s.len() > 0 && s[0] == '/' {
        1 + leading_slashes(s.skip(1))
    } else {
        0
    }
}

/// The part of a target behind the server's own name and the slashes after it.
pub open spec fn behind_authority(path: Seq<char>) -> Seq<char> {
    let rest = match text::after_prefix(path, "http://proxycontrol"@) {
        Some(r) => r,
        None => path,
    };
    rest.skip(leading_slashes(rest) as int)
}

/// What a target of the form `<anything>/<operation>/<parameters>` asks for: `remove` with an
/// address and a port, or `history` with `url:` and a target.
pub open spec fn command_of(path: Seq<char>) -> CommandView {
    let s = behind_authority(path);
    let a = text::find_from(s, '/', 0);
    let b = text::find_from(s, '/', a + 1);
    if a >= s.len() || b >= s.len() {
        CommandView::Unknown
    } else {
        let operation = s.subrange(a + 1, b);
        let parameters = s.skip(b + 1);
        if operation == "remove"@ {
            let (host, port) = http::host_port(parameters, 0);
            match addr_parse::ip_of(host) {
                Some(ip) => CommandView::Remove(ip, port),
                None => CommandView::Unknown,
            }
        } else if operation == "history"@ {
            CommandView::History(
                match text::after_prefix(parameters, "url:"@) {
                    Some(u) => u,
                    None => ""@,
                },
            )
        } else {
            CommandView::Unknown
        }
    }
}

proof fn lemma_leading_slashes(s: Seq<char>, i: int)
    requires
        0 <= i <= s.len(),
        forall|j: int| 0 <= j < i ==> #[trigger] s[j] == '/',
        i == s.len() || s[i] != '/',
    ensures
        leading_slashes(s) == i,
    decreases s.len(),
{
    if i > 0 {
        assert forall|j: int| 0 <= j < i - 1 implies #[trigger] s.skip(1)[j] == '/' by {
            assert(s.skip(1)[j] == s[j + 1]);
        }
        lemma_leading_slashes(s.skip(1), i - 1);
    }
}

/// Read what a request to the server itself asks for.
pub fn parse_command(path: &str) -> (out: Command)
    ensures
        out@ == command_of(path@),
{
    let rest = match text::strip_prefix(path, "http://proxycontrol") {
        Some(r) => r,
        None => path.to_owned(),
    };
    let cs = text::chars_of(rest.as_str());
    let mut n: usize = 0;
    while n < cs.len() && cs[n] == '/'
        invariant
            n <= cs@.len(),
            forall|j: int| 0 <= j < n ==> #[trigger] cs@[j] == '/',
        decreases cs@.len() - n,
    {
        n += 1;
    }
    proof {
        lemma_leading_slashes(cs@, n as int);
    }
    let tail = text::string_of(&cs, n, cs.len());
    assert(tail@ =~= behind_authority(path@));
    let s = text::chars_of(tail.as_str());
    let a: usize = text::find_char(&s, '/', 0);
    if a >= s.len() {
        return Command::Unknown;
    }
    let b: usize = text::find_char(&s, '/', a + 1);
    if b >= s.len() {
        return Command::Unknown;
    }
    let operation = text::string_of(&s, a + 1, b);
    let parameters = text::string_of(&s, b + 1, s.len());
    assert(parameters@ =~= s@.skip(b + 1));
    if text::same_text(operation.as_str(), "remove") {
        let (host, port) = http::split_host_port(parameters.as_str(), 0);
        match addr_parse::parse_ip(host.as_str()) {
            Some(ip) => Command::Remove(ip, port),
            None => Command::Unknown,
        }
    } else if text::same_text(operation.as_str(), "history") {
        match text::strip_prefix(parameters.as_str(), "url:") {
            Some(u) => Command::History(u),
            None => Command::History("".to_owned()),
        }
    } else {
        Command::Unknown
    }
}

/// The answer that says nothing.
pub open spec fn no_content() -> Seq<char> {
    "HTTP/1.1 204 No Content\r\n\r\n"@
}

/// The body of the answer that names a proxy.
pub open spec fn history_body(proxy: Seq<char>) -> Seq<char> {
    "{\"proxy\": \""@ + proxy + "\"}\r\n"@
}

/// The answer that names a proxy.
pub open spec fn history_answer(proxy: Seq<char>) -> Seq<char> {
    "HTTP/1.1 200 OK\r\nContent-Type: application/json\r\nContent-Length: "@ + text::decimal(
        encode_utf8(history_body(proxy)).len(),
    ) + "\r\nAccess-Control-Allow-Origin: *\r\nAccess-Control-Allow-Credentials: true\r\n\r\n"@
        + history_body(proxy)
}

/// The answer to a request to the server itself. A removal is answered alike whether there was
/// anything to remove or not.
pub open spec fn answer(command: CommandView, h: Seq<Entry>, peer: IpAddr) -> Seq<char> {
    match command {
        CommandView::History(target) => match remembered(h, history_key_text(peer, target)) {
            Some(proxy) => history_answer(proxy),
            None => no_content(),
        },
        _ => no_content(),
    }
}

/// The answer to a request to the server itself.
pub fn respond(command: &Command, history: &History, peer: IpAddr) -> (out: String)
    ensures
        out@ == answer(command@, history@, peer),
{
    if let Command::History(target) = command {
        let key = history_key(peer, target.as_str());
        if let Some(proxy) = history.get(key.as_str()) {
            let mut body = String::new();
            body.append("{\"proxy\": \"");
            body.append(proxy.as_str());
            body.append("\"}\r\n");
            assert(body@ =~= history_body(proxy@));
            let mut out = String::new();
            out.append("HTTP/1.1 200 OK\r\nContent-Type: application/json\r\nContent-Length: ");
            push_byte_count(&mut out, body.as_str());
            out.append(
                "\r\nAccess-Control-Allow-Origin: *\r\nAccess-Control-Allow-Credentials: true\r\n\r\n",
            );
            out.append(body.as_str());
            assert(out@ =~= history_answer(proxy@));
            return out;
        }
    }
    "HTTP/1.1 204 No Content\r\n\r\n".to_owned()
}

/// The entries of a pool after a request to the server itself.
pub open spec fn entries_after(command: CommandView, entries: Seq<Pooled>) -> Seq<Pooled> {
    match command {
        CommandView::Remove(ip, port) => pool::without_addr(entries, ip, port),
        _ => entries,
    }
}

/// Serve a request to the server itself: do what its target asks for and give the answer.
pub fn serve_control(path: &str, pool: &mut Pool, history: &History, peer: IpAddr) -> (out: String)
    ensures
        out@ == answer(command_of(path@), history@, peer),
        final(pool).entries@ == entries_after(command_of(path@), old(pool).entries@),
        final(pool).same_but_entries(*old(pool)),
{
    let command = parse_command(path);
    if let Command::Remove(ip, port) = &command {
        pool.remove(*ip, *port);
    }
    respond(&command, history, peer)
}

/// Append how many bytes a text takes.
pub fn push_byte_count(out: &mut String, s: &str)
    ensures
        final(out)@ == old(out)@ + text::decimal(encode_utf8(s@).len()),
{
    let n: usize = s.as_bytes().len();
    text::push_decimal(out, n as u64);
}

/// A host and a port that were written as an address, with the square brackets of version 6 or
/// without, are read as the same host and port.
pub proof fn law_written_endpoint_is_split(ip: IpAddr, port: u16, default: u16)
    ensures
        http::host_port(addr::socket_text(ip, port), default) == (ip.text(), port),
        http::host_port(addr::endpoint_text(ip, port), default) == (ip.text(), port),
{
    addr::law_address_text_is_plain(ip);
    let host = ip.text();
    assert(addr::is_addr_char(host[0]));
    http::law_host_port_splits_what_was_joined(host, port, default);
    if ip is V6 {
        assert forall|k: int| 0 <= k < host.len() implies #[trigger] host[k] != ']' by {
            assert(addr::is_addr_char(host[k]));
        }
        reveal_strlit("]:");
        assert("]:"@ =~= seq![']', ':']);
        http::law_host_port_splits_bracketed_host(host, port, default);
    }
}

/// Where a client asks the server to drop a proxy by its address, that is what is read.
pub proof fn law_removal_names_its_proxy(ip: IpAddr, port: u16)
    ensures
        command_of("http://proxycontrol/api/remove/"@ + addr::socket_text(ip, port))
            == CommandView::Remove(ip, port),
{
    let at = addr::socket_text(ip, port);
    let path = "http://proxycontrol/api/remove/"@ + at;
    reveal_strlit("http://proxycontrol/api/remove/");
    reveal_strlit("http://proxycontrol");
    reveal_strlit("remove");
    let prefix = "http://proxycontrol"@;
    assert(prefix.len() == 19);
    assert(path.subrange(0, 19) =~= prefix);
    let rest = path.skip(19);
    assert(rest[0] == '/' && rest[1] == 'a');
    lemma_leading_slashes(rest, 1);
    let s = rest.skip(1);
    assert(s[0] == 'a' && s[1] == 'p' && s[2] == 'i' && s[3] == '/');
    assert(s[4] == 'r' && s[5] == 'e' && s[6] == 'm' && s[7] == 'o' && s[8] == 'v' && s[9] == 'e'
        && s[10] == '/');
    reveal_with_fuel(text::find_from, 8);
    assert(text::find_from(s, '/', 0) == 3);
    assert(text::find_from(s, '/', 4) == 10);
    assert(s.subrange(4, 10) =~= "remove"@);
    assert(s.skip(11) =~= at);
    law_written_endpoint_is_split(ip, port, 0);
    addr_parse::law_written_address_is_read_back(ip);
}

/// A request to drop a proxy leaves none at its address and keeps every other, and is answered alike
/// whether there was one or not.
pub proof fn law_removal_is_carried_out(
    entries: Seq<Pooled>,
    h: Seq<Entry>,
    peer: IpAddr,
    ip: IpAddr,
    port: u16,
)
    ensures
        ({
            let c = command_of("http://proxycontrol/api/remove/"@ + addr::socket_text(ip, port));
            &&& answer(c, h, peer) == no_content()
            &&& !pool::holds_addr(entries_after(c, entries), ip, port)
            &&& forall|p: Pooled|
                #[trigger] entries_after(c, entries).contains(p) == (entries.contains(p)
                    && !pool::is_at(p, ip, port))
        }),
{
    law_removal_names_its_proxy(ip, port);
    pool::law_removal_is_exact(entries, ip, port);
}

proof fn lemma_find_slash(s: Seq<char>, from: int, at: int)
    requires
        0 <= from <= at < s.len(),
        s[at] == '/',
        forall|j: int| from <= j < at ==> #[trigger] s[j] != '/',
    ensures
        text::find_from(s, '/', from) == at,
    decreases at - from,
{
    if from < at {
        lemma_find_slash(s, from + 1, at);
    }
}

/// The target of a request to the server itself.
pub open spec fn control_target(any: Seq<char>, operation: Seq<char>, parameters: Seq<char>) -> Seq<
    char,
> {
    "http://proxycontrol"@ + (seq!['/'] + any + seq!['/'] + operation + seq!['/'] + parameters)
}

/// How the target of a request to the server itself falls into its parts.
proof fn lemma_control_target(any: Seq<char>, operation: Seq<char>, parameters: Seq<char>)
    requires
        any.len() > 0,
        !any.contains('/'),
        !operation.contains('/'),
    ensures
        operation == "remove"@ ==> command_of(control_target(any, operation, parameters)) == (
        match addr_parse::ip_of(http::host_port(parameters, 0).0) {
            Some(ip) => CommandView::Remove(ip, http::host_port(parameters, 0).1),
            None => CommandView::Unknown,
        }),
        operation == "history"@ ==> command_of(control_target(any, operation, parameters))
            == CommandView::History(
            match text::after_prefix(parameters, "url:"@) {
                Some(u) => u,
                None => ""@,
            },
        ),
        operation != "remove"@ && operation != "history"@ ==> command_of(
            control_target(any, operation, parameters),
        ) is Unknown,
{
    let path = control_target(any, operation, parameters);
    let prefix = "http://proxycontrol"@;
    let rest = seq!['/'] + any + seq!['/'] + operation + seq!['/'] + parameters;
    assert(path.subrange(0, prefix.len() as int) =~= prefix);
    assert(path.skip(prefix.len() as int) =~= rest);
    assert(rest[1] == any[0]);
    assert(any.contains(any[0]));
    lemma_leading_slashes(rest, 1);
    let s = any + seq!['/'] + operation + seq!['/'] + parameters;
    assert(rest.skip(1) =~= s);
    let a = any.len() as int;
    let b = a + 1 + operation.len() as int;
    assert forall|j: int| 0 <= j < a implies #[trigger] s[j] != '/' by {
        assert(s[j] == any[j]);
        assert(any.contains(any[j]));
    }
    assert forall|j: int| a + 1 <= j < b implies #[trigger] s[j] != '/' by {
        assert(s[j] == operation[j - a - 1]);
        assert(operation.contains(operation[j - a - 1]));
    }
    assert(s[a] == '/' && s[b] == '/');
    lemma_find_slash(s, 0, a);
    lemma_find_slash(s, a + 1, b);
    assert(s.subrange(a + 1, b) =~= operation);
    assert(s.skip(b + 1) =~= parameters);
    assert("history"@ != "remove"@) by {
        reveal_strlit("remove");
        reveal_strlit("history");
        assert("history"@.len() == 7 && "remove"@.len() == 6);
    }
}

/// A request to the server itself is read by the part between its second and third slash: `remove`
/// drops the proxy that is named behind it, `history` asks for the target behind `url:`, and anything
/// else asks for nothing.
#[verifier::rlimit(40)]
pub proof fn law_command_is_told_by_its_operation(
    any: Seq<char>,
    operation: Seq<char>,
    parameters: Seq<char>,
    ip: IpAddr,
    port: u16,
    target: Seq<char>,
)
    requires
        any.len() > 0,
        !any.contains('/'),
        !operation.contains('/'),
    ensures
        operation == "remove"@ && parameters == addr::socket_text(ip, port) ==> command_of(
            control_target(any, operation, parameters),
        ) == CommandView::Remove(ip, port),
        operation == "remove"@ && addr_parse::ip_of(http::host_port(parameters, 0).0) is None
            ==> command_of(control_target(any, operation, parameters)) is Unknown,
        operation == "history"@ && parameters == seq!['u', 'r', 'l', ':'] + target ==> command_of(
            control_target(any, operation, parameters),
        ) == CommandView::History(target),
        operation != "remove"@ && operation != "history"@ ==> command_of(
            control_target(any, operation, parameters),
        ) is Unknown,
{
    lemma_control_target(any, operation, parameters);
    if operation == "remove"@ {
        assert(http::host_port(addr::socket_text(ip, port), 0) == (ip.text(), port)) by {
            law_written_endpoint_is_split(ip, port, 0);
        }
        assert(addr_parse::ip_of(ip.text()) == Some(ip)) by {
            addr_parse::law_written_address_is_read_back(ip);
        }
    } else if operation == "history"@ {
        let p = seq!['u', 'r', 'l', ':'] + target;
        assert(text::after_prefix(p, "url:"@) == Some(target)) by {
            reveal_strlit("url:");
            assert("url:"@ =~= seq!['u', 'r', 'l', ':']);
            assert(p.subrange(0, 4) =~= "url:"@);
            assert(p.skip(4) =~= target);
        }
    }
}

/// A target without two slashes behind the server's name asks for nothing.
pub proof fn law_short_target_asks_for_nothing(any: Seq<char>)
    requires
        any.len() > 0,
        !any.contains('/'),
    ensures
        command_of("http://proxycontrol"@ + (seq!['/'] + any)) is Unknown,
{
    let path = "http://proxycontrol"@ + (seq!['/'] + any);
    let prefix = "http://proxycontrol"@;
    let rest = seq!['/'] + any;
    assert(path.subrange(0, prefix.len() as int) =~= prefix);
    assert(path.skip(prefix.len() as int) =~= rest);
    assert(rest[1] == any[0]);
    assert(any.contains(any[0]));
    lemma_leading_slashes(rest, 1);
    assert(rest.skip(1) =~= any);
    text::lemma_find_from(any, '/', 0);
    if text::find_from(any, '/', 0) < any.len() {
        assert(any.contains(any[text::find_from(any, '/', 0)]));
    }
}

/// A client that asks which proxy served its target is told that proxy, in JSON with the right
/// length, where one is remembered for it and that target; everything else is answered with nothing.
pub proof fn law_answers_name_the_remembered_proxy(
    h: Seq<Entry>,
    peer: IpAddr,
    target: Seq<char>,
    ip: IpAddr,
    port: u16,
)
    ensures
        remembered(h, peer.text() + seq!['-'] + target) matches Some(proxy) ==> answer(
            CommandView::History(target),
            h,
            peer,
        ) == "HTTP/1.1 200 OK\r\nContent-Type: application/json\r\nContent-Length: "@ + text::decimal(
            encode_utf8("{\"proxy\": \""@ + proxy + "\"}\r\n"@).len(),
        )
            + "\r\nAccess-Control-Allow-Origin: *\r\nAccess-Control-Allow-Credentials: true\r\n\r\n"@
            + ("{\"proxy\": \""@ + proxy + "\"}\r\n"@),
        remembered(h, peer.text() + seq!['-'] + target) is None ==> answer(
            CommandView::History(target),
            h,
            peer,
        ) == "HTTP/1.1 204 No Content\r\n\r\n"@,
        answer(CommandView::Remove(ip, port), h, peer) == "HTTP/1.1 204 No Content\r\n\r\n"@,
        answer(CommandView::Unknown, h, peer) == "HTTP/1.1 204 No Content\r\n\r\n"@,
{
}

/// What is remembered for a key is found under that key alone, however many others are remembered: a
/// history forgets nothing before it holds ten thousand.
pub proof fn law_history_forgets_nothing_before_it_is_full(
    h: Seq<Entry>,
    key: Seq<char>,
    proxy: Seq<char>,
    other: Seq<char>,
)
    requires
        h.len() < 10_000,
        other != key,
    ensures
        remembered(with_entry(h, key, proxy), other) == remembered(h, other),
        with_entry(h, key, proxy).len() <= h.len() + 1,
        remembered(Seq::<Entry>::empty(), key) is None,
{
    law_history_keeps_other_keys(h, key, proxy, other);
    lemma_entry_at(h, key, 0);
}

/// Asking for a proxy changes nothing in the pool, and neither does what is not understood.
pub proof fn law_only_removal_changes_the_pool(target: Seq<char>, entries: Seq<Pooled>)
    ensures
        entries_after(CommandView::History(target), entries) == entries,
        entries_after(CommandView::Unknown, entries) == entries,
{
}

proof fn lemma_slashes_within(s: Seq<char>)
    ensures
        leading_slashes(s) <= s.len(),
    decreases s.len(),
{
    if s.len() > 0 {
        lemma_slashes_within(s.skip(1));
    }
}

/// A request to the server itself is read the same way by its path alone.
pub proof fn law_command_needs_no_server_name(path: Seq<char>)
    requires
        path.len() > 0,
        path[0] == '/',
    ensures
        command_of("http://proxycontrol"@ + path) == command_of(path),
        command_of(seq!['/'] + path) == command_of(path),
{
    reveal_strlit("http://proxycontrol");
    let prefix = "http://proxycontrol"@;
    let full = prefix + path;
    assert(full.subrange(0, prefix.len() as int) =~= prefix);
    assert(full.skip(prefix.len() as int) =~= path);
    assert(prefix[0] == 'h');
    if path.len() >= prefix.len() {
        assert(path.subrange(0, prefix.len() as int)[0] == '/');
    }
    let more = seq!['/'] + path;
    if more.len() >= prefix.len() {
        assert(more.subrange(0, prefix.len() as int)[0] == '/');
    }
    assert(more.skip(1) =~= path);
    lemma_slashes_within(path);
    assert(more.skip(1 + leading_slashes(path) as int) =~= path.skip(leading_slashes(path) as int));
}

/// A removal that names a proxy without its port is of port nought; a question for the history that
/// does not start with `url:` is about no target.
pub proof fn law_incomplete_commands(any: Seq<char>, operation: Seq<char>, parameters: Seq<char>, ip: u32)
    requires
        any.len() > 0,
        !any.contains('/'),
        !operation.contains('/'),
    ensures
        operation == "remove"@ && parameters == addr::v4_text(ip) ==> command_of(
            control_target(any, operation, parameters),
        ) == CommandView::Remove(IpAddr::V4(ip), 0),
        operation == "history"@ && (parameters.len() < 4 || parameters.subrange(0, 4) != seq![
            'u', 'r', 'l', ':',
        ]) ==> command_of(control_target(any, operation, parameters)) == CommandView::History(
            Seq::<char>::empty(),
        ),
{
    lemma_control_target(any, operation, parameters);
    reveal_strlit("url:");
    reveal_strlit("");
    assert("url:"@ =~= seq!['u', 'r', 'l', ':']);
    assert(""@ =~= Seq::<char>::empty());
    let host = addr::v4_text(ip);
    addr_parse::law_written_address_is_read_back(IpAddr::V4(ip));
    addr_parse::lemma_v4_without_colon(ip);
    addr::law_address_text_is_plain(IpAddr::V4(ip));
    assert(addr::is_addr_char(host[0]));
    http::law_host_without_port_takes_the_default(host, 0);
}

} // verus!

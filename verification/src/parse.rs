//! Finding the addresses of proxies in text.
use crate::addr::IpAddr;
use crate::addr_parse;
use crate::pattern;
use crate::pattern::{Found, FoundView};
use crate::proxy;
use crate::proxy::Proxy;
use crate::text;
use crate::types::{Proto, ProtoSet};
use vstd::prelude::*;
use vstd::string::*;
use vstd::utf8::*;

verus! {

/// A host and a port as they stand in a text.
pub type AddrText = (Seq<char>, Seq<char>);

/// The contents of pairs of texts.
pub open spec fn pairs(v: Seq<(String, String)>) -> Seq<AddrText> {
    v.map_values(|p: (String, String)| (p.0@, p.1@))
}

/// The contents of an optional pair of texts.
pub open spec fn pair_opt(p: Option<(String, String)>) -> Option<AddrText> {
    match p {
        Some(q) => Some((q.0@, q.1@)),
        None => None,
    }
}

/// What stands behind the first `end` bytes of a text.
pub open spec fn behind(s: Seq<char>, end: nat) -> Seq<char> {
    decode_utf8(encode_utf8(s).skip(end as int))
}

/// What a line gives, by its first address and the first port behind that: the two together,
/// nothing where either is missing.
pub open spec fn line_pair(ip: Option<FoundView>, port: Option<FoundView>) -> Option<AddrText> {
    match (ip, port) {
        (Some(ip), Some(port)) => Some((ip.text, port.text)),
        _ => None,
    }
}

/// What a line gives, by its first address and the first port behind that.
pub fn pair_in_line(ip: Option<Found>, port: Option<Found>) -> (out: Option<(String, String)>)
    ensures
        pair_opt(out) == line_pair(pattern::found_view(ip), pattern::found_view(port)),
{
    match (ip, port) {
        (Some(ip), Some(port)) => Some((ip.text, port.text)),
        _ => None,
    }
}

/// What a line gives: its first address with the first port behind it; nothing where either is
/// missing.
pub open spec fn addr_in_line(line: Seq<char>) -> Option<AddrText> {
    let ip = pattern::regex_find(pattern::IPV4@, line, 0);
    line_pair(
        ip,
        match ip {
            Some(ip) => pattern::regex_find(pattern::PORT@, behind(line, ip.end), 0),
            None => None,
        },
    )
}

/// What each of the first `n` lines gives, those that give nothing left out.
pub open spec fn addrs_in_lines(lines: Seq<Seq<char>>, n: nat) -> Seq<AddrText>
    decreases n,
{
    if n == 0 {
        Seq::empty()
    } else {
        let before = addrs_in_lines(lines, (n - 1) as nat);
        match addr_in_line(lines[n - 1]) {
            Some(a) => before.push(a),
            None => before,
        }
    }
}

/// What each line of a text gives. Only a line feed ends a line.
pub open spec fn line_addrs(s: Seq<char>) -> Seq<AddrText> {
    addrs_in_lines(text::pieces(s, '\n'), text::pieces(s, '\n').len())
}

/// One address for each line of a text: the first address with the first port behind it. Lines
/// without both are left out.
pub fn find_addrs_line(s: &str) -> (out: Vec<(String, String)>)
    ensures
        pairs(out@) == line_addrs(s@),
{
    let ipv4 = pattern::compile(pattern::IPV4);
    let digits = pattern::compile(pattern::PORT);
    let chars = text::chars_of(s);
    let lines = text::split_on(&chars, '\n');
    let mut out: Vec<(String, String)> = Vec::new();
    let mut i: usize = 0;
    assert(pairs(out@) =~= Seq::empty());
    assert(text::texts(lines@).len() == lines@.len());
    while i < lines.len()
        invariant
            i <= lines@.len(),
            ipv4@ == pattern::IPV4@,
            digits@ == pattern::PORT@,
            pairs(out@) == addrs_in_lines(text::texts(lines@), i as nat),
        decreases lines@.len() - i,
    {
        let line = lines[i].as_str();
        assert(text::texts(lines@)[i as int] == line@);
        let ip = pattern::find_at(&ipv4, line, 0);
        let port = match &ip {
            Some(ip) => {
                let (_, rest) = line.split_at(ip.end);
                proof {
                    encode_utf8_decode_utf8(rest@);
                    assert(encode_utf8(line@).skip(ip.end as int) =~= encode_utf8(rest@));
                }
                pattern::find_at(&digits, rest, 0)
            },
            None => None,
        };
        if let Some(pair) = pair_in_line(ip, port) {
            let ghost before = out@;
            out.push(pair);
            assert(pairs(out@) =~= pairs(before).push((pair.0@, pair.1@)));
        }
        i += 1;
    }
    out
}

/// What an address that was found gives, by what follows it: with the port where one begins before
/// the next address, with an empty port where another address is as near, nothing where nothing
/// follows.
pub open spec fn paired(
    ip: Seq<char>,
    next_port: Option<FoundView>,
    next_ip: Option<FoundView>,
) -> Option<AddrText> {
    match (next_port, next_ip) {
        (Some(p), Some(i)) => if p.start < i.start {
            Some((ip, p.text))
        } else {
            Some((ip, ""@))
        },
        (Some(p), None) => Some((ip, p.text)),
        (None, Some(_)) => Some((ip, ""@)),
        (None, None) => None,
    }
}

/// What an address that was found gives, by the next port and the next address behind it.
pub fn pair_with_port(ip: &Found, next_port: Option<Found>, next_ip: Option<Found>) -> (out: Option<
    (String, String),
>)
    ensures
        pair_opt(out) == paired(
            ip.text@,
            pattern::found_view(next_port),
            pattern::found_view(next_ip),
        ),
{
    match (next_port, next_ip) {
        (Some(p), Some(i)) => {
            if p.start < i.start {
                Some((ip.text.clone(), p.text))
            } else {
                Some((ip.text.clone(), "".to_owned()))
            }
        },
        (Some(p), None) => Some((ip.text.clone(), p.text)),
        (None, Some(_)) => Some((ip.text.clone(), "".to_owned())),
        (None, None) => None,
    }
}

/// What the addresses of a text give from a byte offset on, each paired with what follows it. The
/// search goes on behind each address; an empty match, which the pattern does not allow, would end
/// it.
pub open spec fn addrs_from(s: Seq<char>, i: nat) -> Seq<AddrText>
    decreases encode_utf8(s).len() - i,
{
    match pattern::regex_find(pattern::IPV4@, s, i) {
        None => Seq::empty(),
        Some(ip) => {
            let here = match paired(
                ip.text,
                pattern::regex_find(pattern::PORT@, s, ip.end),
                pattern::regex_find(pattern::IPV4@, s, ip.end),
            ) {
                Some(a) => seq![a],
                None => Seq::empty(),
            };
            if i < ip.end <= encode_utf8(s).len() {
                here + addrs_from(s, ip.end)
            } else {
                here
            }
        },
    }
}

/// Every address of a text, each paired with the nearest port or address behind it; one with
/// nothing behind it is left out.
pub fn find_addrs_global(s: &str) -> (out: Vec<(String, String)>)
    ensures
        pairs(out@) == addrs_from(s@, 0),
{
    let ipv4 = pattern::compile(pattern::IPV4);
    let digits = pattern::compile(pattern::PORT);
    let mut out: Vec<(String, String)> = Vec::new();
    let mut from: usize = 0;
    assert(pairs(out@) + addrs_from(s@, 0) =~= addrs_from(s@, 0));
    loop
        invariant
            from <= encode_utf8(s@).len(),
            ipv4@ == pattern::IPV4@,
            digits@ == pattern::PORT@,
            pairs(out@) + addrs_from(s@, from as nat) == addrs_from(s@, 0),
        decreases encode_utf8(s@).len() - from,
    {
        let ip = match pattern::find_at(&ipv4, s, from) {
            Some(f) => f,
            None => {
                assert(pairs(out@) =~= addrs_from(s@, 0));
                return out;
            },
        };
        let next_ip = pattern::find_at(&ipv4, s, ip.end);
        let next_port = pattern::find_at(&digits, s, ip.end);
        let ghost before = out@;
        let here = pair_with_port(&ip, next_port, next_ip);
        let ghost there = match pair_opt(here) {
            Some(a) => seq![a],
            None => Seq::empty(),
        };
        if let Some(a) = here {
            out.push(a);
        }
        assert(pairs(out@) =~= pairs(before) + there);
        if ip.end <= from {
            assert(pairs(out@) =~= addrs_from(s@, 0));
            return out;
        }
        assert(pairs(out@) + addrs_from(s@, ip.end as nat) =~= pairs(before) + (there + addrs_from(
            s@,
            ip.end as nat,
        )));
        from = ip.end;
    }
}

/// The number of an octet: decimal digits, leading zeros allowed, up to 255.
pub open spec fn octet_of(s: Seq<char>) -> Option<nat> {
    if s.len() > 0 && s[0] != '+' {
        match text::number(s, 255) {
            Ok(n) => Some(n),
            Err(_) => None,
        }
    } else {
        None
    }
}

/// The address of version 4 that four octets with dots between stand for, each in decimal whatever
/// zeros lead it.
pub open spec fn ipv4_of(s: Seq<char>) -> Option<IpAddr> {
    let p = text::pieces(s, '.');
    if p.len() == 4 && octet_of(p[0]) is Some && octet_of(p[1]) is Some && octet_of(p[2]) is Some
        && octet_of(p[3]) is Some {
        Some(
            IpAddr::V4(
                (octet_of(p[0])->0 * 0x100_0000 + octet_of(p[1])->0 * 0x1_0000 + octet_of(
                    p[2],
                )->0 * 0x100 + octet_of(p[3])->0) as u32,
            ),
        )
    } else {
        None
    }
}

fn read_octet(s: &str) -> (out: Option<u32>)
    ensures
        match out {
            Some(n) => octet_of(s@) == Some(n as nat) && n <= 255,
            None => octet_of(s@) is None,
        },
{
    let cs = text::chars_of(s);
    if cs.len() == 0 || cs[0] == '+' {
        return None;
    }
    match text::parse_number(&cs, 255) {
        Ok(n) => Some(n as u32),
        Err(_) => None,
    }
}

/// Read an address of version 4, taking octets with leading zeros as decimal.
pub fn parse_ipv4_lenient(s: &str) -> (out: Option<IpAddr>)
    ensures
        out == ipv4_of(s@),
{
    let cs = text::chars_of(s);
    let parts = text::split_on(&cs, '.');
    assert(text::texts(parts@).len() == parts@.len());
    if parts.len() != 4 {
        return None;
    }
    assert(text::texts(parts@)[0] == parts@[0]@);
    assert(text::texts(parts@)[1] == parts@[1]@);
    assert(text::texts(parts@)[2] == parts@[2]@);
    assert(text::texts(parts@)[3] == parts@[3]@);
    match (
        read_octet(parts[0].as_str()),
        read_octet(parts[1].as_str()),
        read_octet(parts[2].as_str()),
        read_octet(parts[3].as_str()),
    ) {
        (Some(a), Some(b), Some(c), Some(d)) => {
            Some(IpAddr::V4(a * 0x100_0000 + b * 0x1_0000 + c * 0x100 + d))
        },
        _ => None,
    }
}

/// The address and port that two texts stand for.
pub open spec fn addr_of(a: AddrText) -> Option<(IpAddr, u16)> {
    match (ipv4_of(a.0), text::number(a.1, 65535)) {
        (Some(ip), Ok(port)) => Some((ip, port as u16)),
        _ => None,
    }
}

/// Read an address and a port from two texts; nothing where either is out of range.
pub fn parse_address(ip: &str, port: &str) -> (out: Option<(IpAddr, u16)>)
    ensures
        out == addr_of((ip@, port@)),
{
    let host = parse_ipv4_lenient(ip);
    let digits = text::chars_of(port);
    match (host, text::parse_number(&digits, 65535)) {
        (Some(h), Ok(p)) => Some((h, p as u16)),
        _ => None,
    }
}

/// The addresses that the first `n` of some pairs of texts stand for, those that stand for none
/// left out.
pub open spec fn addrs_of(a: Seq<AddrText>, n: nat) -> Seq<(IpAddr, u16)>
    decreases n,
{
    if n == 0 {
        Seq::empty()
    } else {
        let before = addrs_of(a, (n - 1) as nat);
        match addr_of(a[n - 1]) {
            Some(x) => before.push(x),
            None => before,
        }
    }
}

/// The addresses that the lines of a text give.
pub open spec fn proxy_addrs(s: Seq<char>) -> Seq<(IpAddr, u16)> {
    addrs_of(line_addrs(s), line_addrs(s).len())
}

/// A proxy of which nothing but the address is known, not even what its source said it speaks.
pub open spec fn is_unknown(p: Proxy, at: (IpAddr, u16)) -> bool {
    &&& proxy::is_fresh(p, at.0, at.1, p.expected_types)
    &&& forall|q: Proto| !(#[trigger] p.expected_types.has(q))
}

/// Proxies of which nothing but the addresses is known.
pub open spec fn fresh_at(out: Seq<Proxy>, at: Seq<(IpAddr, u16)>) -> bool {
    &&& out.len() == at.len()
    &&& forall|i: int| 0 <= i < at.len() ==> is_unknown(#[trigger] out[i], at[i])
}

/// Read proxies from pairs of texts; pairs that are no address and port are left out.
pub fn proxies_from(addrs: &Vec<(String, String)>) -> (out: Vec<Proxy>)
    ensures
        fresh_at(out@, addrs_of(pairs(addrs@), addrs@.len())),
{
    let mut out: Vec<Proxy> = Vec::new();
    let mut i: usize = 0;
    while i < addrs.len()
        invariant
            i <= addrs@.len(),
            fresh_at(out@, addrs_of(pairs(addrs@), i as nat)),
        decreases addrs@.len() - i,
    {
        assert(pairs(addrs@)[i as int] == (addrs@[i as int].0@, addrs@[i as int].1@));
        if let Some((host, port)) = parse_address(addrs[i].0.as_str(), addrs[i].1.as_str()) {
            let ghost before = out@;
            let ghost at = addrs_of(pairs(addrs@), i as nat);
            let none = ProtoSet::new();
            let p = Proxy::new(host, port, none);
            out.push(p);
            assert(fresh_at(out@, at.push((host, port))));
        }
        i += 1;
    }
    out
}

/// Read proxies from text with one address to a line. Nothing is known of them but the address;
/// lines without one, and ports out of range, are left out.
pub fn parse_proxy_lines(s: &str) -> (out: Vec<Proxy>)
    ensures
        fresh_at(out@, proxy_addrs(s@)),
{
    let addrs = find_addrs_line(s);
    assert(pairs(addrs@).len() == addrs@.len());
    proxies_from(&addrs)
}

/// No line of a text gives more than one proxy.
pub proof fn law_one_proxy_to_a_line(s: Seq<char>)
    ensures
        proxy_addrs(s).len() <= line_addrs(s).len() <= text::pieces(s, '\n').len(),
{
    lemma_addrs_in_lines(text::pieces(s, '\n'), text::pieces(s, '\n').len());
    lemma_addrs_of(line_addrs(s), line_addrs(s).len());
}

proof fn lemma_addrs_in_both(a: Seq<Seq<char>>, b: Seq<Seq<char>>, n: nat)
    requires
        n <= b.len(),
    ensures
        addrs_in_lines(a + b, a.len() + n) == addrs_in_lines(a, a.len()) + addrs_in_lines(b, n),
    decreases n,
{
    if n > 0 {
        lemma_addrs_in_both(a, b, (n - 1) as nat);
        assert((a + b)[a.len() + n - 1] == b[n - 1]);
        assert(addrs_in_lines(a + b, a.len() + n) =~= addrs_in_lines(a, a.len()) + addrs_in_lines(
            b,
            n,
        ));
    } else {
        lemma_addrs_in_prefix(a, b, a.len());
        assert(addrs_in_lines(a, a.len()) + addrs_in_lines(b, 0) =~= addrs_in_lines(a, a.len()));
    }
}

proof fn lemma_addrs_in_prefix(a: Seq<Seq<char>>, b: Seq<Seq<char>>, n: nat)
    requires
        n <= a.len(),
    ensures
        addrs_in_lines(a + b, n) == addrs_in_lines(a, n),
    decreases n,
{
    if n > 0 {
        lemma_addrs_in_prefix(a, b, (n - 1) as nat);
        assert((a + b)[n - 1] == a[n - 1]);
    }
}

/// The addresses of two texts with a line feed between are those of the one and of the other: none
/// is paired with a port of another line.
pub proof fn law_lines_give_their_own_addresses(a: Seq<char>, b: Seq<char>)
    ensures
        line_addrs(a + seq!['\n'] + b) == line_addrs(a) + line_addrs(b),
{
    let (x, y) = (text::pieces(a, '\n'), text::pieces(b, '\n'));
    assert(a + seq!['\n'] + b =~= a + (seq!['\n'] + b));
    text::lemma_pieces_of_both(a, b, '\n');
    lemma_addrs_in_both(x, y, y.len());
}

/// The proxies of two texts with a line feed between are those of the one and of the other, in
/// order and with none merged.
pub proof fn law_lines_give_their_own_proxies(a: Seq<char>, b: Seq<char>)
    ensures
        proxy_addrs(a + seq!['\n'] + b) == proxy_addrs(a) + proxy_addrs(b),
{
    law_lines_give_their_own_addresses(a, b);
    lemma_addrs_of_both(line_addrs(a), line_addrs(b), line_addrs(b).len());
}

proof fn lemma_addrs_of_both(a: Seq<AddrText>, b: Seq<AddrText>, n: nat)
    requires
        n <= b.len(),
    ensures
        addrs_of(a + b, a.len() + n) == addrs_of(a, a.len()) + addrs_of(b, n),
    decreases n,
{
    if n > 0 {
        lemma_addrs_of_both(a, b, (n - 1) as nat);
        assert((a + b)[a.len() + n - 1] == b[n - 1]);
        assert(addrs_of(a + b, a.len() + n) =~= addrs_of(a, a.len()) + addrs_of(b, n));
    } else {
        lemma_addrs_of_prefix(a, b, a.len());
        assert(addrs_of(a, a.len()) + addrs_of(b, 0) =~= addrs_of(a, a.len()));
    }
}

proof fn lemma_addrs_of_prefix(a: Seq<AddrText>, b: Seq<AddrText>, n: nat)
    requires
        n <= a.len(),
    ensures
        addrs_of(a + b, n) == addrs_of(a, n),
    decreases n,
{
    if n > 0 {
        lemma_addrs_of_prefix(a, b, (n - 1) as nat);
        assert((a + b)[n - 1] == a[n - 1]);
    }
}

/// A pair found in a line gives a proxy exactly where both its texts can be read, and proxies keep
/// the order of the pairs: what one more pair adds is its own proxy or nothing.
pub proof fn law_each_pair_gives_its_proxy(pairs: Seq<AddrText>, pair: AddrText)
    ensures
        addrs_of(pairs.push(pair), pairs.len() + 1) == addrs_of(pairs, pairs.len()) + (match (
            ipv4_of(pair.0),
            text::number(pair.1, 65535),
        ) {
            (Some(ip), Ok(port)) => seq![(ip, port as u16)],
            _ => Seq::empty(),
        }),
{
    let more = seq![pair];
    assert(pairs.push(pair) =~= pairs + more);
    lemma_addrs_of_both(pairs, more, 1);
    reveal_with_fuel(addrs_of, 2);
    assert(more[0] == pair);
    assert(addrs_of(more, 1) =~= (match addr_of(pair) {
        Some(x) => seq![x],
        None => Seq::empty(),
    }));
}

proof fn lemma_addrs_in_lines(lines: Seq<Seq<char>>, n: nat)
    ensures
        addrs_in_lines(lines, n).len() <= n,
    decreases n,
{
    if n > 0 {
        lemma_addrs_in_lines(lines, (n - 1) as nat);
    }
}

proof fn lemma_addrs_of(a: Seq<AddrText>, n: nat)
    ensures
        addrs_of(a, n).len() <= n,
    decreases n,
{
    if n > 0 {
        lemma_addrs_of(a, (n - 1) as nat);
    }
}

proof fn lemma_decimal_octet(n: nat)
    requires
        n <= 255,
    ensures
        octet_of(text::decimal(n)) == Some(n),
{
    text::law_number_of_decimal(n, 255);
    text::lemma_decimal_digits(n);
}

/// An address of version 4 that was written is read as the same address.
pub proof fn law_written_ipv4_is_read_back(a: u32)
    ensures
        ipv4_of(IpAddr::V4(a).text()) == Some(IpAddr::V4(a)),
{
    let o = crate::addr::octets(a);
    addr_parse::lemma_octets_join(a);
    addr_parse::lemma_v4_pieces(a);
    lemma_decimal_octet(o[0]);
    lemma_decimal_octet(o[1]);
    lemma_decimal_octet(o[2]);
    lemma_decimal_octet(o[3]);
}

/// A line gives a pair exactly where it holds an address and a port stands anywhere behind that
/// address, whatever and however much stands between. The pair is the text of the first address and
/// the text of the first port behind it.
pub proof fn law_line_gives_its_address_with_the_port_behind(line: Seq<char>)
    requires
        !line.contains('\n'),
    ensures
        ({
            let ip = pattern::regex_find(
                "(?:(?:25[0-5]|2[0-4]\\d|[01]?\\d\\d?)\\.){3}(?:25[0-5]|2[0-4]\\d|[01]?\\d\\d?)"@,
                line,
                0,
            );
            match ip {
                None => line_addrs(line).len() == 0,
                Some(i) => {
                    let port = pattern::regex_find(
                        "\\d{2,5}"@,
                        decode_utf8(encode_utf8(line).skip(i.end as int)),
                        0,
                    );
                    match port {
                        None => line_addrs(line).len() == 0,
                        Some(p) => line_addrs(line).len() == 1 && line_addrs(line)[0].0 == i.text
                            && line_addrs(line)[0].1 == p.text,
                    }
                },
            }
        }),
{
    text::lemma_pieces_cons(line, Seq::empty(), '\n');
    reveal_with_fuel(addrs_in_lines, 2);
    assert(text::pieces(line, '\n')[0] == line);
}

/// An address and a port that were found make a pair wherever either stands and however long it is;
/// without either there is none.
pub proof fn law_pair_is_both_texts(ip: FoundView, port: FoundView)
    ensures
        line_pair(Some(ip), Some(port)) == Some((ip.text, port.text)),
        line_pair(Some(ip), None) is None,
        line_pair(None, Some(port)) is None,
        line_pair(None, None) is None,
{
}

/// In a text without lines an address takes the next port where that begins before the next address,
/// and an empty one where it does not; the last address is left out only where no port follows.
pub proof fn law_address_takes_the_nearer_port(ip: Seq<char>, port: FoundView, next: FoundView)
    ensures
        port.start < next.start ==> paired(ip, Some(port), Some(next)) == Some((ip, port.text)),
        port.start >= next.start ==> paired(ip, Some(port), Some(next)) == Some(
            (ip, Seq::<char>::empty()),
        ),
        paired(ip, Some(port), None) == Some((ip, port.text)),
        paired(ip, None, Some(next)) == Some((ip, Seq::<char>::empty())),
        paired(ip, None, None) is None,
{
    reveal_strlit("");
    assert(""@ =~= Seq::<char>::empty());
}

/// The addresses of a text are found one behind the other, each paired with what follows it: the
/// search for the next goes on right behind the one before.
pub proof fn law_search_goes_on_behind_each_address(s: Seq<char>, from: nat)
    ensures
        ({
            let ipv4 = "(?:(?:25[0-5]|2[0-4]\\d|[01]?\\d\\d?)\\.){3}(?:25[0-5]|2[0-4]\\d|[01]?\\d\\d?)"@;
            match pattern::regex_find(ipv4, s, from) {
                None => addrs_from(s, from).len() == 0,
                Some(ip) => from < ip.end <= encode_utf8(s).len() ==> addrs_from(s, from) == (
                match paired(
                    ip.text,
                    pattern::regex_find("\\d{2,5}"@, s, ip.end),
                    pattern::regex_find(ipv4, s, ip.end),
                ) {
                    Some(a) => seq![a],
                    None => Seq::<AddrText>::empty(),
                }) + addrs_from(s, ip.end),
            }
        }),
{
}

/// Four octets with dots between are an address of version 4, most significant first, each read in
/// decimal; a text with more or fewer parts, or with a part that is no octet, is none.
pub proof fn law_four_octets_are_an_address(s: Seq<char>, a: u8, b: u8, c: u8, d: u8)
    ensures
        ({
            let p = text::pieces(s, '.');
            &&& p.len() != 4 ==> ipv4_of(s) is None
            &&& (p.len() == 4 && text::number(p[0], 255) == Ok::<nat, text::NumberFault>(a as nat)
                && text::number(p[1], 255) == Ok::<nat, text::NumberFault>(b as nat) && text::number(
                p[2],
                255,
            ) == Ok::<nat, text::NumberFault>(c as nat) && text::number(p[3], 255) == Ok::<
                nat,
                text::NumberFault,
            >(d as nat) && p[0][0] != '+' && p[1][0] != '+' && p[2][0] != '+' && p[3][0] != '+')
                ==> ipv4_of(s) == Some(
                IpAddr::V4((a * 0x100_0000 + b * 0x1_0000 + c * 0x100 + d) as u32),
            )
            &&& (exists|k: int|
                0 <= k < p.len() && ((#[trigger] p[k]).len() == 0 || p[k][0] == '+' || text::number(
                    p[k],
                    255,
                ) is Err)) ==> ipv4_of(s) is None
        }),
{
}

/// Two texts are an address exactly where the first is one of version 4 and the second a number up
/// to 65535; the port is that number.
pub proof fn law_port_is_within_its_range(a: Seq<char>, b: Seq<char>, n: nat)
    ensures
        ipv4_of(a) is None ==> addr_of((a, b)) is None,
        n <= 65535 && ipv4_of(a) is Some ==> addr_of((a, text::decimal(n))) == Some(
            (ipv4_of(a)->0, n as u16),
        ),
        n > 65535 ==> addr_of((a, text::decimal(n))) is None,
        addr_of((a, Seq::<char>::empty())) is None,
        text::number(b, 65535) is Err ==> addr_of((a, b)) is None,
{
    if n <= 65535 {
        text::law_number_of_decimal(n, 65535);
    } else {
        text::law_number_past_its_bound_is_refused(n, 65535);
    }
}

} // verus!
